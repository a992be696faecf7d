//! The `.base` container of one quantised matrix.
//!
//! A file is the magic bytes `BASE`, the format version as four bytes, the
//! length of the header as eight bytes, the header as JSON, and the blob: the
//! packed words, then the scales, then the biases. Numbers are little-endian.

use crate::args::same_text;
use crate::json::{
    add_member, json_as_str, json_as_u64, json_element, json_from_slice, json_list, json_member,
    json_object, json_of, json_parse, json_str, json_text, json_to_vec, json_unsigned, no_members,
    Json, MAX_TEXT_LEN,
};
use crate::le::{
    le_bytes, le_bytes_len, le_value, le_value_of_few, le_value_of_le_bytes, pow_256_values,
    push_le, push_u16s, push_u32s, read_le, u16s_le, u16s_le_are_digits, u16s_le_len, u32s_le,
    u32s_le_are_digits, u32s_le_len,
};
use crate::quantize::{Quantized, GROUP_SIZE};
use serde_json::Value;
use vstd::prelude::*;
use vstd::slice::{slice_subrange, slice_to_vec};

verus! {

/// The format version that is written and read.
pub const FORMAT_VERSION: u64 = 1;

/// Why a file could not be read.
#[derive(Debug, Clone, Copy, PartialEq, Eq)]
pub enum BaseError {
    /// The file ends before its header does.
    Truncated,
    /// The file does not begin with the magic bytes.
    BadMagic,
    /// The format version is another one.
    UnsupportedVersion,
    /// The header is not JSON.
    BadHeader,
    /// The first tensor has another name.
    WrongName,
    /// The first tensor has another element type.
    WrongDtype,
    /// The first tensor has groups of another size.
    WrongGroupSize,
    /// The place of one of the three regions is not given.
    MissingField,
    /// A region reaches past the end of the file.
    OutOfBounds,
}

/// Where the three regions of a tensor lie in the blob, in bytes.
#[derive(Debug, Clone, Copy, PartialEq, Eq)]
pub struct Regions {
    pub offset: u64,
    pub length: u64,
    pub scale_offset: u64,
    pub scale_length: u64,
    pub bias_offset: u64,
    pub bias_length: u64,
}

/// The blob of a quantised matrix.
pub open spec fn blob(q: Quantized) -> Seq<u8> {
    u32s_le(q.packed_words@) + u16s_le(q.scales@) + u16s_le(q.biases@)
}

/// The number of bytes of the blob of a quantised matrix.
pub open spec fn blob_len(q: Quantized) -> nat {
    4 * q.packed_words@.len() + 2 * q.scales@.len() + 2 * q.biases@.len()
}

/// Where the regions of a quantised matrix lie: one after the other.
pub open spec fn regions_in_blob(q: Quantized) -> Regions {
    Regions {
        offset: 0,
        length: (4 * q.packed_words@.len()) as u64,
        scale_offset: (4 * q.packed_words@.len()) as u64,
        scale_length: (2 * q.scales@.len()) as u64,
        bias_offset: (4 * q.packed_words@.len() + 2 * q.scales@.len()) as u64,
        bias_length: (2 * q.biases@.len()) as u64,
    }
}

/// Where the regions of a quantised matrix lie.
pub fn plan_regions(q: &Quantized) -> (r: Regions)
    requires
        blob_len(*q) <= usize::MAX,
    ensures
        r == regions_in_blob(*q),
{
    let length: usize = q.packed_words.len() * 4;
    let scale_length: usize = q.scales.len() * 2;
    let bias_length: usize = q.biases.len() * 2;
    Regions {
        offset: 0,
        length: length as u64,
        scale_offset: length as u64,
        scale_length: scale_length as u64,
        bias_offset: (length + scale_length) as u64,
        bias_length: bias_length as u64,
    }
}

/// The header's entry for a tensor.
pub open spec fn tensor_json(name: Seq<char>, rows: u64, cols: u64, r: Regions) -> Json {
    Json::Object(
        Map::<Seq<char>, Json>::empty().insert("name"@, Json::Text(name)).insert(
            "dtype"@,
            Json::Text("base_q4"@),
        ).insert(
            "shape"@,
            Json::List(seq![Json::Unsigned(rows), Json::Unsigned(cols)]),
        ).insert("offset"@, Json::Unsigned(r.offset)).insert(
            "length"@,
            Json::Unsigned(r.length),
        ).insert("scale_offset"@, Json::Unsigned(r.scale_offset)).insert(
            "scale_length"@,
            Json::Unsigned(r.scale_length),
        ).insert("bias_offset"@, Json::Unsigned(r.bias_offset)).insert(
            "bias_length"@,
            Json::Unsigned(r.bias_length),
        ).insert("group_size"@, Json::Unsigned(GROUP_SIZE as u64)).insert(
            "layout"@,
            Json::Text("metal_lane_strided_q4"@),
        ),
    )
}

/// The header of a file with one tensor.
pub open spec fn header_json(name: Seq<char>, rows: u64, cols: u64, r: Regions) -> Json {
    Json::Object(
        Map::<Seq<char>, Json>::empty().insert("schema"@, Json::Unsigned(1)).insert(
            "tensors"@,
            Json::List(seq![tensor_json(name, rows, cols, r)]),
        ),
    )
}

/// The magic bytes: `BASE`.
pub open spec fn magic() -> Seq<u8> {
    seq![0x42u8, 0x41u8, 0x53u8, 0x45u8]
}

/// What stands in front of a header of `n` bytes.
pub open spec fn preamble(n: nat) -> Seq<u8> {
    magic() + le_bytes(FORMAT_VERSION as nat, 4) + le_bytes(n, 8)
}

/// The header of the file of a quantised matrix, and where its blob starts.
pub open spec fn written_header(name: Seq<char>, rows: u64, cols: u64, q: Quantized) -> (Json, int) {
    let header = header_json(name, rows, cols, regions_in_blob(q));
    (header, (16 + json_text(header).len()) as int)
}

/// The file with a given header text and the blob of a quantised matrix.
pub open spec fn base_file(header: Seq<u8>, q: Quantized) -> Seq<u8> {
    preamble(header.len()) + header + blob(q)
}

/// The header of a file with one tensor.
fn build_header(name: &str, rows: u64, cols: u64, r: &Regions) -> (v: Value)
    ensures
        json_of(v) == header_json(name@, rows, cols, *r),
{
    let mut shape: Vec<Value> = Vec::new();
    shape.push(json_unsigned(rows));
    shape.push(json_unsigned(cols));
    assert(shape@.map_values(|x: Value| json_of(x)) =~= seq![
        Json::Unsigned(rows),
        Json::Unsigned(cols),
    ]);
    let mut entry = no_members();
    add_member(&mut entry, "name", json_str(name));
    add_member(&mut entry, "dtype", json_str("base_q4"));
    add_member(&mut entry, "shape", json_list(shape));
    add_member(&mut entry, "offset", json_unsigned(r.offset));
    add_member(&mut entry, "length", json_unsigned(r.length));
    add_member(&mut entry, "scale_offset", json_unsigned(r.scale_offset));
    add_member(&mut entry, "scale_length", json_unsigned(r.scale_length));
    add_member(&mut entry, "bias_offset", json_unsigned(r.bias_offset));
    add_member(&mut entry, "bias_length", json_unsigned(r.bias_length));
    add_member(&mut entry, "group_size", json_unsigned(GROUP_SIZE as u64));
    add_member(&mut entry, "layout", json_str("metal_lane_strided_q4"));
    let mut tensors: Vec<Value> = Vec::new();
    tensors.push(json_object(entry));
    assert(tensors@.map_values(|x: Value| json_of(x)) =~= seq![tensor_json(name@, rows, cols, *r)]);
    let mut header = no_members();
    add_member(&mut header, "schema", json_unsigned(1));
    add_member(&mut header, "tensors", json_list(tensors));
    json_object(header)
}

/// The file with the header text `header` and the blob of `q`.
pub fn frame_base_file(header: &[u8], q: &Quantized) -> (file: Vec<u8>)
    ensures
        file@ == base_file(header@, *q),
{
    let mut out: Vec<u8> = Vec::new();
    out.push(0x42);
    out.push(0x41);
    out.push(0x53);
    out.push(0x45);
    assert(out@ =~= magic());
    push_le(&mut out, FORMAT_VERSION, 4);
    push_le(&mut out, header.len() as u64, 8);
    assert(out@ == preamble(header@.len()));
    out.extend_from_slice(header);
    assert(out@ =~= preamble(header@.len()) + header@);
    push_u32s(&mut out, q.packed_words.as_slice());
    push_u16s(&mut out, q.scales.as_slice());
    push_u16s(&mut out, q.biases.as_slice());
    assert(out@ =~= base_file(header@, *q));
    out
}

/// The end of the header, where a file has a well-formed preamble and holds all
/// of its header.
pub open spec fn header_end(file: Seq<u8>) -> Result<int, BaseError> {
    if file.len() < 4 {
        Err(BaseError::Truncated)
    } else if file.take(4) != magic() {
        Err(BaseError::BadMagic)
    } else if file.len() < 8 {
        Err(BaseError::Truncated)
    } else if le_value(file.subrange(4, 8)) != FORMAT_VERSION {
        Err(BaseError::UnsupportedVersion)
    } else if file.len() < 16 || file.len() < 16 + le_value(file.subrange(8, 16)) {
        Err(BaseError::Truncated)
    } else {
        Ok((16 + le_value(file.subrange(8, 16))) as int)
    }
}

/// The header of a file, and where the blob starts.
pub open spec fn header_of(file: Seq<u8>) -> Result<(Json, int), BaseError> {
    match header_end(file) {
        Ok(end) => match json_parse(file.subrange(16, end)) {
            Some(header) => Ok((header, end)),
            None => Err(BaseError::BadHeader),
        },
        Err(e) => Err(e),
    }
}

/// The header of a file is no longer than a text that can be read.
pub open spec fn header_fits(file: Seq<u8>) -> bool {
    header_end(file) is Ok ==> header_end(file)->Ok_0 <= 16 + MAX_TEXT_LEN
}

/// What a header says of its first tensor, as far as a reader asks. A member
/// that is missing or of another kind is `None`.
pub struct TensorEntry {
    pub name: Option<String>,
    pub dtype: Option<String>,
    pub group_size: Option<u64>,
    pub offset: Option<u64>,
    pub length: Option<u64>,
    pub scale_offset: Option<u64>,
    pub scale_length: Option<u64>,
    pub bias_offset: Option<u64>,
    pub bias_length: Option<u64>,
}

/// The text of an optional string.
pub open spec fn text_of(s: Option<String>) -> Option<Seq<char>> {
    match s {
        Some(x) => Some(x@),
        None => None,
    }
}

/// What a `TensorEntry` says.
pub struct TensorInfo {
    pub name: Option<Seq<char>>,
    pub dtype: Option<Seq<char>>,
    pub group_size: Option<u64>,
    pub offset: Option<u64>,
    pub length: Option<u64>,
    pub scale_offset: Option<u64>,
    pub scale_length: Option<u64>,
    pub bias_offset: Option<u64>,
    pub bias_length: Option<u64>,
}

impl View for TensorEntry {
    type V = TensorInfo;

    open spec fn view(&self) -> TensorInfo {
        TensorInfo {
            name: text_of(self.name),
            dtype: text_of(self.dtype),
            group_size: self.group_size,
            offset: self.offset,
            length: self.length,
            scale_offset: self.scale_offset,
            scale_length: self.scale_length,
            bias_offset: self.bias_offset,
            bias_length: self.bias_length,
        }
    }
}

/// What a JSON value says of a tensor.
pub open spec fn info_of(t: Json) -> TensorInfo {
    TensorInfo {
        name: t.member("name"@).text(),
        dtype: t.member("dtype"@).text(),
        group_size: t.member("group_size"@).unsigned(),
        offset: t.member("offset"@).unsigned(),
        length: t.member("length"@).unsigned(),
        scale_offset: t.member("scale_offset"@).unsigned(),
        scale_length: t.member("scale_length"@).unsigned(),
        bias_offset: t.member("bias_offset"@).unsigned(),
        bias_length: t.member("bias_length"@).unsigned(),
    }
}

impl TensorInfo {
    /// The regions, where the entry is that of a quantised matrix called
    /// `expected_name`.
    pub open spec fn regions_for(self, expected_name: Seq<char>) -> Result<Regions, BaseError> {
        if self.name != Some(expected_name) {
            Err(BaseError::WrongName)
        } else if self.dtype != Some("base_q4"@) {
            Err(BaseError::WrongDtype)
        } else if self.group_size != Some(GROUP_SIZE as u64) {
            Err(BaseError::WrongGroupSize)
        } else {
            match (
                self.offset,
                self.length,
                self.scale_offset,
                self.scale_length,
                self.bias_offset,
                self.bias_length,
            ) {
                (
                    Some(offset),
                    Some(length),
                    Some(scale_offset),
                    Some(scale_length),
                    Some(bias_offset),
                    Some(bias_length),
                ) => Ok(
                    Regions {
                        offset,
                        length,
                        scale_offset,
                        scale_length,
                        bias_offset,
                        bias_length,
                    },
                ),
                _ => Err(BaseError::MissingField),
            }
        }
    }
}

/// The `length` bytes of a file at `offset` in a blob that starts at `start`.
pub open spec fn region(file: Seq<u8>, start: int, offset: u64, length: u64) -> Seq<u8> {
    file.subrange(start + offset, start + offset + length)
}

/// The three regions of a file whose blob starts at `start`.
pub open spec fn regions_at(file: Seq<u8>, start: int, r: Regions) -> Result<
    (Seq<u8>, Seq<u8>, Seq<u8>),
    BaseError,
> {
    if start + r.offset + r.length > file.len() || start + r.scale_offset + r.scale_length
        > file.len() || start + r.bias_offset + r.bias_length > file.len() {
        Err(BaseError::OutOfBounds)
    } else {
        Ok(
            (
                region(file, start, r.offset, r.length),
                region(file, start, r.scale_offset, r.scale_length),
                region(file, start, r.bias_offset, r.bias_length),
            ),
        )
    }
}

/// The end of the header of a file.
pub fn find_header_end(file: &[u8]) -> (r: Result<usize, BaseError>)
    ensures
        match r {
            Ok(end) => header_end(file@) == Ok::<int, BaseError>(end as int),
            Err(e) => header_end(file@) == Err::<int, BaseError>(e),
        },
{
    if file.len() < 4 {
        return Err(BaseError::Truncated);
    }
    if file[0] != 0x42 || file[1] != 0x41 || file[2] != 0x53 || file[3] != 0x45 {
        proof {
            if file@.take(4) == magic() {
                assert(file@.take(4)[0] == 0x42 && file@.take(4)[1] == 0x41 && file@.take(4)[2]
                    == 0x53 && file@.take(4)[3] == 0x45);
            }
        }
        return Err(BaseError::BadMagic);
    }
    assert(file@.take(4) =~= magic());
    if file.len() < 8 {
        return Err(BaseError::Truncated);
    }
    if read_le(file, 4, 4) != FORMAT_VERSION {
        return Err(BaseError::UnsupportedVersion);
    }
    if file.len() < 16 {
        return Err(BaseError::Truncated);
    }
    let header_len: u64 = read_le(file, 8, 8);
    if header_len > (file.len() - 16) as u64 {
        return Err(BaseError::Truncated);
    }
    Ok(16 + header_len as usize)
}

/// The header of a file, and where the blob starts.
pub fn read_base_header(file: &[u8]) -> (r: Result<(Value, usize), BaseError>)
    requires
        header_fits(file@),
    ensures
        match r {
            Ok((header, start)) => header_of(file@) == Ok::<(Json, int), BaseError>(
                (json_of(header), start as int),
            ),
            Err(e) => header_of(file@) == Err::<(Json, int), BaseError>(e),
        },
{
    let end = match find_header_end(file) {
        Ok(end) => end,
        Err(e) => {
            return Err(e);
        },
    };
    match json_from_slice(slice_subrange(file, 16, end)) {
        Ok(header) => Ok((header, end)),
        Err(_) => Err(BaseError::BadHeader),
    }
}

/// An optional text, as an owned string.
fn owned_text(s: Option<&str>) -> (r: Option<String>)
    ensures
        text_of(r) == match s {
            Some(x) => Some(x@),
            None => None,
        },
{
    match s {
        Some(x) => Some(x.to_owned()),
        None => None,
    }
}

/// What a header says of its first tensor.
pub fn first_tensor(header: &Value) -> (entry: TensorEntry)
    ensures
        entry@ == info_of(json_of(*header).member("tensors"@).element(0)),
{
    let t: &Value = json_element(json_member(header, "tensors"), 0);
    TensorEntry {
        name: owned_text(json_as_str(json_member(t, "name"))),
        dtype: owned_text(json_as_str(json_member(t, "dtype"))),
        group_size: json_as_u64(json_member(t, "group_size")),
        offset: json_as_u64(json_member(t, "offset")),
        length: json_as_u64(json_member(t, "length")),
        scale_offset: json_as_u64(json_member(t, "scale_offset")),
        scale_length: json_as_u64(json_member(t, "scale_length")),
        bias_offset: json_as_u64(json_member(t, "bias_offset")),
        bias_length: json_as_u64(json_member(t, "bias_length")),
    }
}

/// Whether an optional string is the text `expected`.
fn is_text(s: &Option<String>, expected: &str) -> (r: bool)
    ensures
        r == (text_of(*s) == Some(expected@)),
{
    match s {
        Some(x) => same_text(x.as_str(), expected),
        None => false,
    }
}

impl TensorEntry {
    /// The regions of the quantised matrix called `expected_name`, where this
    /// is its entry.
    pub fn regions(&self, expected_name: &str) -> (r: Result<Regions, BaseError>)
        ensures
            r == self@.regions_for(expected_name@),
    {
        if !is_text(&self.name, expected_name) {
            return Err(BaseError::WrongName);
        }
        if !is_text(&self.dtype, "base_q4") {
            return Err(BaseError::WrongDtype);
        }
        match self.group_size {
            Some(size) => if size != GROUP_SIZE as u64 {
                return Err(BaseError::WrongGroupSize);
            },
            None => {
                return Err(BaseError::WrongGroupSize);
            },
        }
        match (
            self.offset,
            self.length,
            self.scale_offset,
            self.scale_length,
            self.bias_offset,
            self.bias_length,
        ) {
            (
                Some(offset),
                Some(length),
                Some(scale_offset),
                Some(scale_length),
                Some(bias_offset),
                Some(bias_length),
            ) => Ok(
                Regions {
                    offset,
                    length,
                    scale_offset,
                    scale_length,
                    bias_offset,
                    bias_length,
                },
            ),
            _ => Err(BaseError::MissingField),
        }
    }
}

/// Whether a region lies within a file of `len` bytes.
fn in_bounds(len: usize, start: usize, offset: u64, length: u64) -> (r: bool)
    ensures
        r == (start + offset + length <= len),
{
    start as u128 + offset as u128 + length as u128 <= len as u128
}

/// A copy of a region of a file.
fn copy_region(file: &[u8], start: usize, offset: u64, length: u64) -> (r: Vec<u8>)
    requires
        start + offset + length <= file.len(),
    ensures
        r@ == region(file@, start as int, offset, length),
{
    let from: usize = start + offset as usize;
    slice_to_vec(slice_subrange(file, from, from + length as usize))
}

/// The packed words, the scales and the biases of a file whose blob starts at
/// `start`, as bytes.
pub fn copy_regions(file: &[u8], start: usize, r: &Regions) -> (out: Result<
    (Vec<u8>, Vec<u8>, Vec<u8>),
    BaseError,
>)
    ensures
        match (out, regions_at(file@, start as int, *r)) {
            (Ok(v), Ok(s)) => v.0@ == s.0 && v.1@ == s.1 && v.2@ == s.2,
            (Err(e), Err(expected)) => e == expected,
            _ => false,
        },
{
    let len: usize = file.len();
    if !in_bounds(len, start, r.offset, r.length) || !in_bounds(
        len,
        start,
        r.scale_offset,
        r.scale_length,
    ) || !in_bounds(len, start, r.bias_offset, r.bias_length) {
        return Err(BaseError::OutOfBounds);
    }
    Ok(
        (
            copy_region(file, start, r.offset, r.length),
            copy_region(file, start, r.scale_offset, r.scale_length),
            copy_region(file, start, r.bias_offset, r.bias_length),
        ),
    )
}

/// The regions of the first tensor of a file, where it is a quantised matrix
/// called `expected_name`.
pub open spec fn q4_regions(file: Seq<u8>, expected_name: Seq<char>) -> Result<
    (Seq<u8>, Seq<u8>, Seq<u8>),
    BaseError,
> {
    match header_of(file) {
        Ok((header, start)) => match info_of(header.member("tensors"@).element(0)).regions_for(
            expected_name,
        ) {
            Ok(r) => regions_at(file, start, r),
            Err(e) => Err(e),
        },
        Err(e) => Err(e),
    }
}

/// The packed words, the scales and the biases of the first tensor of a file,
/// as bytes, where it is a quantised matrix called `expected_name`.
pub fn load_q4_regions(file: &[u8], expected_name: &str) -> (out: Result<
    (Vec<u8>, Vec<u8>, Vec<u8>),
    BaseError,
>)
    requires
        header_fits(file@),
    ensures
        match (out, q4_regions(file@, expected_name@)) {
            (Ok(v), Ok(s)) => v.0@ == s.0 && v.1@ == s.1 && v.2@ == s.2,
            (Err(e), Err(expected)) => e == expected,
            _ => false,
        },
{
    let (header, start) = match read_base_header(file) {
        Ok(x) => x,
        Err(e) => {
            return Err(e);
        },
    };
    match first_tensor(&header).regions(expected_name) {
        Ok(r) => copy_regions(file, start, &r),
        Err(e) => Err(e),
    }
}

/// The keys of a header are told apart by their length or by a letter.
proof fn keys_differ()
    ensures
        "name"@.len() == 4,
        "dtype"@.len() == 5,
        "shape"@.len() == 5,
        "dtype"@[0] != "shape"@[0],
        "offset"@.len() == 6,
        "length"@.len() == 6,
        "layout"@.len() == 6,
        "offset"@[0] == 'o',
        "length"@[0] == 'l',
        "layout"@[0] == 'l',
        "length"@[1] != "layout"@[1],
        "scale_offset"@.len() == 12,
        "scale_length"@.len() == 12,
        "scale_offset"@[6] != "scale_length"@[6],
        "bias_offset"@.len() == 11,
        "bias_length"@.len() == 11,
        "bias_offset"@[5] != "bias_length"@[5],
        "group_size"@.len() == 10,
        "schema"@.len() == 6,
        "tensors"@.len() == 7,
{
    reveal_strlit("name");
    reveal_strlit("dtype");
    reveal_strlit("shape");
    reveal_strlit("offset");
    reveal_strlit("length");
    reveal_strlit("layout");
    reveal_strlit("scale_offset");
    reveal_strlit("scale_length");
    reveal_strlit("bias_offset");
    reveal_strlit("bias_length");
    reveal_strlit("group_size");
    reveal_strlit("schema");
    reveal_strlit("tensors");
}

/// A reader finds in a header what was put into it.
pub proof fn header_gives_regions(name: Seq<char>, rows: u64, cols: u64, r: Regions)
    ensures
        info_of(header_json(name, rows, cols, r).member("tensors"@).element(0)).regions_for(name)
            == Ok::<Regions, BaseError>(r),
{
    keys_differ();
    assert(header_json(name, rows, cols, r).member("tensors"@).element(0) == tensor_json(
        name,
        rows,
        cols,
        r,
    ));
}

/// A header names its matrix, and a reader that asks for another one is refused.
pub proof fn other_name_is_refused(
    name: Seq<char>,
    rows: u64,
    cols: u64,
    r: Regions,
    other: Seq<char>,
)
    requires
        other != name,
    ensures
        info_of(header_json(name, rows, cols, r).member("tensors"@).element(0)).regions_for(other)
            == Err::<Regions, BaseError>(BaseError::WrongName),
{
    keys_differ();
    assert(header_json(name, rows, cols, r).member("tensors"@).element(0) == tensor_json(
        name,
        rows,
        cols,
        r,
    ));
}

/// A header holds no floating-point number and does not nest deep.
proof fn header_is_plain(name: Seq<char>, rows: u64, cols: u64, r: Regions)
    ensures
        header_json(name, rows, cols, r).is_plain(127),
{
    reveal_with_fuel(Json::is_plain, 5);
}

/// The three regions lie one after the other and fill the blob.
pub proof fn regions_fill_blob(q: Quantized)
    requires
        blob_len(q) <= u64::MAX,
    ensures
        blob(q).len() == blob_len(q),
        ({
            let r = regions_in_blob(q);
            &&& r.offset == 0
            &&& r.scale_offset == r.offset + r.length
            &&& r.bias_offset == r.scale_offset + r.scale_length
            &&& r.bias_offset + r.bias_length == blob(q).len()
        }),
{
    u32s_le_len(q.packed_words@);
    u16s_le_len(q.scales@);
    u16s_le_len(q.biases@);
}

/// The header of a file is found again, and so is each region.
pub proof fn frame_reads_back(header: Seq<u8>, q: Quantized)
    requires
        header.len() <= u64::MAX,
        blob_len(q) <= u64::MAX,
    ensures
        header_end(base_file(header, q)) == Ok::<int, BaseError>((16 + header.len()) as int),
        base_file(header, q).subrange(16, (16 + header.len()) as int) == header,
        regions_at(base_file(header, q), (16 + header.len()) as int, regions_in_blob(q)) == Ok::<
            (Seq<u8>, Seq<u8>, Seq<u8>),
            BaseError,
        >((u32s_le(q.packed_words@), u16s_le(q.scales@), u16s_le(q.biases@))),
{
    let file = base_file(header, q);
    let n = header.len();
    le_bytes_len(FORMAT_VERSION as nat, 4);
    le_bytes_len(n, 8);
    pow_256_values();
    le_value_of_le_bytes(FORMAT_VERSION as nat, 4);
    le_value_of_le_bytes(n, 8);
    assert(file.take(4) =~= magic());
    assert(file.subrange(4, 8) =~= le_bytes(FORMAT_VERSION as nat, 4));
    assert(file.subrange(8, 16) =~= le_bytes(n, 8));
    assert(file.subrange(16, (16 + n) as int) =~= header);
    regions_fill_blob(q);
    u32s_le_len(q.packed_words@);
    u16s_le_len(q.scales@);
    u16s_le_len(q.biases@);
    let start = (16 + n) as int;
    let r = regions_in_blob(q);
    assert(region(file, start, r.offset, r.length) =~= u32s_le(q.packed_words@));
    assert(region(file, start, r.scale_offset, r.scale_length) =~= u16s_le(q.scales@));
    assert(region(file, start, r.bias_offset, r.bias_length) =~= u16s_le(q.biases@));
}

/// Reading gives back what was written: from a file whose header text parses to
/// the header of the matrix, a reader that asks for the matrix by its name gets
/// the packed words, the scales and the biases.
pub proof fn read_gives_back_write(
    header: Seq<u8>,
    name: Seq<char>,
    rows: u64,
    cols: u64,
    q: Quantized,
)
    requires
        header.len() <= u64::MAX,
        blob_len(q) <= u64::MAX,
        json_parse(header) == Some(header_json(name, rows, cols, regions_in_blob(q))),
    ensures
        q4_regions(base_file(header, q), name) == Ok::<(Seq<u8>, Seq<u8>, Seq<u8>), BaseError>(
            (u32s_le(q.packed_words@), u16s_le(q.scales@), u16s_le(q.biases@)),
        ),
{
    frame_reads_back(header, q);
    header_gives_regions(name, rows, cols, regions_in_blob(q));
}

/// A file is refused to a reader that asks for a matrix by another name.
pub proof fn read_refuses_other_name(
    header: Seq<u8>,
    name: Seq<char>,
    rows: u64,
    cols: u64,
    q: Quantized,
    other: Seq<char>,
)
    requires
        header.len() <= u64::MAX,
        blob_len(q) <= u64::MAX,
        json_parse(header) == Some(header_json(name, rows, cols, regions_in_blob(q))),
        other != name,
    ensures
        q4_regions(base_file(header, q), other) == Err::<(Seq<u8>, Seq<u8>, Seq<u8>), BaseError>(
            BaseError::WrongName,
        ),
{
    frame_reads_back(header, q);
    other_name_is_refused(name, rows, cols, regions_in_blob(q), other);
}

/// What stands where in a file: the letters `BASE`, the version 1 in four bytes,
/// the length of the header in eight bytes, the header, and the packed words, the
/// scales and the biases without a gap. Numbers begin with their least
/// significant byte.
pub proof fn file_layout(header: Seq<u8>, q: Quantized)
    requires
        header.len() <= u64::MAX,
    ensures
        ({
            let f = base_file(header, q);
            let start = (16 + header.len()) as int;
            let scales = start + 4 * q.packed_words@.len();
            let biases = scales + 2 * q.scales@.len();
            &&& f.len() == biases + 2 * q.biases@.len()
            &&& f[0] == 0x42 && f[1] == 0x41 && f[2] == 0x53 && f[3] == 0x45
            &&& f[4] == 1 && f[5] == 0 && f[6] == 0 && f[7] == 0
            &&& header.len() == f[8] + 0x100 * f[9] + 0x1_0000 * f[10] + 0x100_0000 * f[11]
                + 0x1_0000_0000 * f[12] + 0x100_0000_0000 * f[13] + 0x1_0000_0000_0000 * f[14]
                + 0x100_0000_0000_0000 * f[15]
            &&& f.subrange(16, start) == header
            &&& forall|i: int| #![trigger q.packed_words@[i]]
                0 <= i < q.packed_words@.len() ==> {
                    let w = q.packed_words@[i] as int;
                    &&& f[start + 4 * i] == w % 256
                    &&& f[start + 4 * i + 1] == w / 0x100 % 256
                    &&& f[start + 4 * i + 2] == w / 0x1_0000 % 256
                    &&& f[start + 4 * i + 3] == w / 0x100_0000 % 256
                }
            &&& forall|i: int| #![trigger q.scales@[i]]
                0 <= i < q.scales@.len() ==> f[scales + 2 * i] == q.scales@[i] as int % 256
                    && f[scales + 2 * i + 1] == q.scales@[i] as int / 0x100 % 256
            &&& forall|i: int| #![trigger q.biases@[i]]
                0 <= i < q.biases@.len() ==> f[biases + 2 * i] == q.biases@[i] as int % 256
                    && f[biases + 2 * i + 1] == q.biases@[i] as int / 0x100 % 256
        }),
{
    let f = base_file(header, q);
    let n = header.len();
    let start = (16 + n) as int;
    let scales = start + 4 * q.packed_words@.len();
    let biases = scales + 2 * q.scales@.len();
    le_bytes_len(FORMAT_VERSION as nat, 4);
    le_bytes_len(n, 8);
    pow_256_values();
    le_value_of_le_bytes(n, 8);
    u32s_le_len(q.packed_words@);
    u16s_le_len(q.scales@);
    u16s_le_len(q.biases@);
    assert(f.subrange(16, start) =~= header);
    let length = f.subrange(8, 16);
    assert(length =~= le_bytes(n, 8));
    le_value_of_few(length);
    let version = f.subrange(4, 8);
    assert(version =~= le_bytes(1, 4));
    reveal_with_fuel(le_bytes, 5);
    assert(version[0] == 1 && version[1] == 0 && version[2] == 0 && version[3] == 0);
    assert(f.take(4) =~= magic());
    assert(f.take(4)[0] == f[0] && f.take(4)[1] == f[1] && f.take(4)[2] == f[2] && f.take(4)[3]
        == f[3]);
    assert(f.subrange(start, scales) =~= u32s_le(q.packed_words@));
    assert(f.subrange(scales, biases) =~= u16s_le(q.scales@));
    assert(f.subrange(biases, f.len() as int) =~= u16s_le(q.biases@));
    assert forall|i: int| #![trigger q.packed_words@[i]] 0 <= i < q.packed_words@.len() implies {
        let w = q.packed_words@[i] as int;
        &&& f[start + 4 * i] == w % 256
        &&& f[start + 4 * i + 1] == w / 0x100 % 256
        &&& f[start + 4 * i + 2] == w / 0x1_0000 % 256
        &&& f[start + 4 * i + 3] == w / 0x100_0000 % 256
    } by {
        u32s_le_are_digits(q.packed_words@, i);
        let part = f.subrange(start, scales);
        assert(part[4 * i] == f[start + 4 * i] && part[4 * i + 1] == f[start + 4 * i + 1] && part[4
            * i + 2] == f[start + 4 * i + 2] && part[4 * i + 3] == f[start + 4 * i + 3]);
    }
    assert forall|i: int| #![trigger q.scales@[i]] 0 <= i < q.scales@.len() implies f[scales + 2
        * i] == q.scales@[i] as int % 256 && f[scales + 2 * i + 1] == q.scales@[i] as int / 0x100
        % 256 by {
        u16s_le_are_digits(q.scales@, i);
        let part = f.subrange(scales, biases);
        assert(part[2 * i] == f[scales + 2 * i] && part[2 * i + 1] == f[scales + 2 * i + 1]);
    }
    assert forall|i: int| #![trigger q.biases@[i]] 0 <= i < q.biases@.len() implies f[biases + 2
        * i] == q.biases@[i] as int % 256 && f[biases + 2 * i + 1] == q.biases@[i] as int / 0x100
        % 256 by {
        u16s_le_are_digits(q.biases@, i);
        let part = f.subrange(biases, f.len() as int);
        assert(part[2 * i] == f[biases + 2 * i] && part[2 * i + 1] == f[biases + 2 * i + 1]);
    }
}

/// What a header says, member by member: the schema, and one tensor with its name,
/// its two dimensions, its three regions and how it is stored. It says nothing
/// else.
pub proof fn header_members(name: Seq<char>, rows: u64, cols: u64, r: Regions)
    ensures
        ({
            &&& header_json(name, rows, cols, r) matches Json::Object(top)
            &&& top.dom() == set!["schema"@, "tensors"@]
            &&& top["schema"@] == Json::Unsigned(1)
            &&& top["tensors"@] matches Json::List(tensors)
            &&& tensors.len() == 1
            &&& tensors[0] matches Json::Object(t)
            &&& t.dom() == set![
                "name"@,
                "dtype"@,
                "shape"@,
                "offset"@,
                "length"@,
                "scale_offset"@,
                "scale_length"@,
                "bias_offset"@,
                "bias_length"@,
                "group_size"@,
                "layout"@,
            ]
            &&& t["name"@] == Json::Text(name)
            &&& t["dtype"@] == Json::Text("base_q4"@)
            &&& t["shape"@] matches Json::List(shape)
            &&& shape.len() == 2
            &&& shape[0] == Json::Unsigned(rows)
            &&& shape[1] == Json::Unsigned(cols)
            &&& t["offset"@] == Json::Unsigned(r.offset)
            &&& t["length"@] == Json::Unsigned(r.length)
            &&& t["scale_offset"@] == Json::Unsigned(r.scale_offset)
            &&& t["scale_length"@] == Json::Unsigned(r.scale_length)
            &&& t["bias_offset"@] == Json::Unsigned(r.bias_offset)
            &&& t["bias_length"@] == Json::Unsigned(r.bias_length)
            &&& t["group_size"@] == Json::Unsigned(64)
            &&& t["layout"@] == Json::Text("metal_lane_strided_q4"@)
        }),
{
    keys_differ();
    let top = header_json(name, rows, cols, r)->Object_0;
    assert(top.dom() =~= set!["schema"@, "tensors"@]);
    let t = tensor_json(name, rows, cols, r)->Object_0;
    assert(t.dom() =~= set![
        "name"@,
        "dtype"@,
        "shape"@,
        "offset"@,
        "length"@,
        "scale_offset"@,
        "scale_length"@,
        "bias_offset"@,
        "bias_length"@,
        "group_size"@,
        "layout"@,
    ]);
}

/// The header of a written file is that of the matrix: its name, its rows and
/// columns, and regions of four bytes for each word and two for each scale and
/// bias, one after the other. The blob starts behind its text.
pub proof fn written_header_is(name: Seq<char>, rows: u64, cols: u64, q: Quantized)
    requires
        blob_len(q) <= u64::MAX,
    ensures
        ({
            let (header, start) = written_header(name, rows, cols, q);
            let r = Regions {
                offset: 0,
                length: (4 * q.packed_words@.len()) as u64,
                scale_offset: (4 * q.packed_words@.len()) as u64,
                scale_length: (2 * q.scales@.len()) as u64,
                bias_offset: (4 * q.packed_words@.len() + 2 * q.scales@.len()) as u64,
                bias_length: (2 * q.biases@.len()) as u64,
            };
            &&& header == header_json(name, rows, cols, r)
            &&& start == 16 + json_text(header).len()
            &&& r == regions_in_blob(q)
            &&& r.length == 4 * q.packed_words@.len()
            &&& r.scale_offset == 4 * q.packed_words@.len()
            &&& r.scale_length == 2 * q.scales@.len()
            &&& r.bias_offset == 4 * q.packed_words@.len() + 2 * q.scales@.len()
            &&& r.bias_length == 2 * q.biases@.len()
        }),
        blob_len(q) == 4 * q.packed_words@.len() + 2 * q.scales@.len() + 2 * q.biases@.len(),
{
}

/// Where the header of a file ends, and why there is none: the letters `BASE` come
/// first, then the version 1 in four bytes, then the length in eight bytes, and
/// that many bytes have to follow.
pub proof fn preamble_decides(f: Seq<u8>)
    ensures
        ({
            let named = f.len() >= 4 && f[0] == 0x42 && f[1] == 0x41 && f[2] == 0x53 && f[3]
                == 0x45;
            let versioned = named && f.len() >= 8 && f[4] == 1 && f[5] == 0 && f[6] == 0 && f[7]
                == 0;
            let n = f[8] + 0x100 * f[9] + 0x1_0000 * f[10] + 0x100_0000 * f[11] + 0x1_0000_0000
                * f[12] + 0x100_0000_0000 * f[13] + 0x1_0000_0000_0000 * f[14]
                + 0x100_0000_0000_0000 * f[15];
            let truncated = Err::<int, BaseError>(BaseError::Truncated);
            &&& f.len() < 4 ==> header_end(f) == truncated
            &&& f.len() >= 4 && !named ==> header_end(f) == Err::<int, BaseError>(
                BaseError::BadMagic,
            )
            &&& named && f.len() < 8 ==> header_end(f) == truncated
            &&& named && f.len() >= 8 && !versioned ==> header_end(f) == Err::<int, BaseError>(
                BaseError::UnsupportedVersion,
            )
            &&& versioned && f.len() < 16 ==> header_end(f) == truncated
            &&& versioned && f.len() >= 16 && f.len() < 16 + n ==> header_end(f) == truncated
            &&& versioned && f.len() >= 16 && f.len() >= 16 + n ==> header_end(f) == Ok::<
                int,
                BaseError,
            >(16 + n)
        }),
{
    if f.len() >= 4 {
        let m = f.take(4);
        assert(m[0] == f[0] && m[1] == f[1] && m[2] == f[2] && m[3] == f[3]);
        if f[0] == 0x42 && f[1] == 0x41 && f[2] == 0x53 && f[3] == 0x45 {
            assert(m =~= magic());
        }
    }
    if f.len() >= 8 {
        le_value_of_few(f.subrange(4, 8));
    }
    if f.len() >= 16 {
        le_value_of_few(f.subrange(8, 16));
    }
}

/// The header of a file is what the text between its preamble and its blob parses
/// to.
pub proof fn header_is_parsed(file: Seq<u8>)
    ensures
        match header_end(file) {
            Err(e) => header_of(file) == Err::<(Json, int), BaseError>(e),
            Ok(end) => match json_parse(file.subrange(16, end)) {
                Some(h) => header_of(file) == Ok::<(Json, int), BaseError>((h, end)),
                None => header_of(file) == Err::<(Json, int), BaseError>(BaseError::BadHeader),
            },
        },
{
}

/// An entry says what its fields hold.
pub proof fn entry_says_its_fields(e: TensorEntry)
    ensures
        match e.name {
            Some(name) => e@.name == Some(name@),
            None => e@.name is None,
        },
        match e.dtype {
            Some(dtype) => e@.dtype == Some(dtype@),
            None => e@.dtype is None,
        },
        e@.group_size == e.group_size,
        e@.offset == e.offset,
        e@.length == e.length,
        e@.scale_offset == e.scale_offset,
        e@.scale_length == e.scale_length,
        e@.bias_offset == e.bias_offset,
        e@.bias_length == e.bias_length,
{
}

/// The members of an object are told by their keys: a text or an unsigned number
/// where the member is one, and nothing otherwise.
pub proof fn info_is_by_key(t: Map<Seq<char>, Json>)
    ensures
        ({
            let info = info_of(Json::Object(t));
            let text = |key: Seq<char>|
                if t.contains_key(key) && t[key] is Text {
                    Some(t[key]->Text_0)
                } else {
                    None
                };
            let number = |key: Seq<char>|
                if t.contains_key(key) && t[key] is Unsigned {
                    Some(t[key]->Unsigned_0)
                } else {
                    None
                };
            &&& info.name == text("name"@)
            &&& info.dtype == text("dtype"@)
            &&& info.group_size == number("group_size"@)
            &&& info.offset == number("offset"@)
            &&& info.length == number("length"@)
            &&& info.scale_offset == number("scale_offset"@)
            &&& info.scale_length == number("scale_length"@)
            &&& info.bias_offset == number("bias_offset"@)
            &&& info.bias_length == number("bias_length"@)
        }),
{
}

/// A header of up to 0x7fff_ffff bytes can be read, and so can a file without a
/// header.
pub proof fn usual_headers_fit(file: Seq<u8>)
    ensures
        header_end(file) is Err ==> header_fits(file),
        header_end(file) is Ok && header_end(file)->Ok_0 <= 16 + 0x7fff_ffff ==> header_fits(file),
{
}

/// The entry of a tensor is taken where it has the name asked for, the type
/// `base_q4`, groups of 64 and six numbers; the regions are those numbers. What
/// is wrong first is reported.
pub proof fn entry_is_checked(t: Map<Seq<char>, Json>, name: Seq<char>)
    ensures
        ({
            let named = t.contains_key("name"@) && t["name"@] == Json::Text(name);
            let typed = t.contains_key("dtype"@) && t["dtype"@] == Json::Text("base_q4"@);
            let grouped = t.contains_key("group_size"@) && t["group_size"@] == Json::Unsigned(64);
            let placed = t.contains_key("offset"@) && t["offset"@] is Unsigned && t.contains_key(
                "length"@,
            ) && t["length"@] is Unsigned && t.contains_key("scale_offset"@)
                && t["scale_offset"@] is Unsigned && t.contains_key("scale_length"@)
                && t["scale_length"@] is Unsigned && t.contains_key("bias_offset"@)
                && t["bias_offset"@] is Unsigned && t.contains_key("bias_length"@)
                && t["bias_length"@] is Unsigned;
            let r = info_of(Json::Object(t)).regions_for(name);
            &&& !named ==> r == Err::<Regions, BaseError>(BaseError::WrongName)
            &&& named && !typed ==> r == Err::<Regions, BaseError>(BaseError::WrongDtype)
            &&& named && typed && !grouped ==> r == Err::<Regions, BaseError>(
                BaseError::WrongGroupSize,
            )
            &&& named && typed && grouped && !placed ==> r == Err::<Regions, BaseError>(
                BaseError::MissingField,
            )
            &&& named && typed && grouped && placed ==> r == Ok::<Regions, BaseError>(
                Regions {
                    offset: t["offset"@]->Unsigned_0,
                    length: t["length"@]->Unsigned_0,
                    scale_offset: t["scale_offset"@]->Unsigned_0,
                    scale_length: t["scale_length"@]->Unsigned_0,
                    bias_offset: t["bias_offset"@]->Unsigned_0,
                    bias_length: t["bias_length"@]->Unsigned_0,
                },
            )
        }),
{
}

/// What a reader gets of a file is decided by the first of its tensors: the three
/// regions that the entry of that tensor gives, counted from the start of the
/// blob, where all of them end within the file.
pub proof fn first_tensor_decides(file: Seq<u8>, name: Seq<char>)
    ensures
        header_of(file) is Err ==> q4_regions(file, name) == Err::<
            (Seq<u8>, Seq<u8>, Seq<u8>),
            BaseError,
        >(header_of(file)->Err_0),
        header_of(file) is Ok ==> ({
            let (header, start) = header_of(file)->Ok_0;
            let listed = header is Object && header->Object_0.contains_key("tensors"@)
                && header->Object_0["tensors"@] is List
                && header->Object_0["tensors"@]->List_0.len() > 0;
            let first = header->Object_0["tensors"@]->List_0[0];
            let found = info_of(first).regions_for(name);
            let r = found->Ok_0;
            let within = start + r.offset + r.length <= file.len() && start + r.scale_offset
                + r.scale_length <= file.len() && start + r.bias_offset + r.bias_length
                <= file.len();
            &&& !listed || !(first is Object) ==> q4_regions(file, name) == Err::<
                (Seq<u8>, Seq<u8>, Seq<u8>),
                BaseError,
            >(BaseError::WrongName)
            &&& listed && found is Err ==> q4_regions(file, name) == Err::<
                (Seq<u8>, Seq<u8>, Seq<u8>),
                BaseError,
            >(found->Err_0)
            &&& listed && found is Ok && !within ==> q4_regions(file, name) == Err::<
                (Seq<u8>, Seq<u8>, Seq<u8>),
                BaseError,
            >(BaseError::OutOfBounds)
            &&& listed && found is Ok && within ==> q4_regions(file, name) == Ok::<
                (Seq<u8>, Seq<u8>, Seq<u8>),
                BaseError,
            >(
                (
                    file.subrange(start + r.offset, start + r.offset + r.length),
                    file.subrange(
                        start + r.scale_offset,
                        start + r.scale_offset + r.scale_length,
                    ),
                    file.subrange(start + r.bias_offset, start + r.bias_offset + r.bias_length),
                ),
            )
        }),
{
}

/// The file of the quantised matrix `q`, called `tensor_name`, of `num_rows`
/// rows and `num_cols` columns.
pub fn write_base_file(q: &Quantized, num_rows: usize, num_cols: usize, tensor_name: &str) -> (file:
    Vec<u8>)
    requires
        blob_len(*q) <= usize::MAX,
    ensures
        file@ == base_file(
            json_text(
                header_json(tensor_name@, num_rows as u64, num_cols as u64, regions_in_blob(*q)),
            ),
            *q,
        ),
        header_of(file@) == Ok::<(Json, int), BaseError>(
            written_header(tensor_name@, num_rows as u64, num_cols as u64, *q),
        ),
        ({
            &&& header_of(file@) is Ok
            &&& header_of(file@)->Ok_0.0 matches Json::Object(top)
            &&& top["schema"@] == Json::Unsigned(1)
            &&& top["tensors"@] matches Json::List(tensors)
            &&& tensors.len() == 1
            &&& tensors[0] matches Json::Object(t)
            &&& t["shape"@] matches Json::List(shape)
            &&& shape.len() == 2
            &&& shape[0] == Json::Unsigned(num_rows as u64)
            &&& shape[1] == Json::Unsigned(num_cols as u64)
            &&& t["layout"@] == Json::Text("metal_lane_strided_q4"@)
        }),
        q4_regions(file@, tensor_name@) == Ok::<(Seq<u8>, Seq<u8>, Seq<u8>), BaseError>(
            (u32s_le(q.packed_words@), u16s_le(q.scales@), u16s_le(q.biases@)),
        ),
        forall|other: Seq<char>|
            other != tensor_name@ ==> #[trigger] q4_regions(file@, other) == Err::<
                (Seq<u8>, Seq<u8>, Seq<u8>),
                BaseError,
            >(BaseError::WrongName),
{
    let regions: Regions = plan_regions(q);
    let header: Value = build_header(tensor_name, num_rows as u64, num_cols as u64, &regions);
    proof {
        header_is_plain(tensor_name@, num_rows as u64, num_cols as u64, regions);
    }
    let text: Vec<u8> = json_to_vec(&header).unwrap();
    let file: Vec<u8> = frame_base_file(text.as_slice(), q);
    proof {
        assert(text@.len() == text.len());
        frame_reads_back(text@, *q);
        header_members(tensor_name@, num_rows as u64, num_cols as u64, regions);
        read_gives_back_write(text@, tensor_name@, num_rows as u64, num_cols as u64, *q);
        assert forall|other: Seq<char>| other != tensor_name@ implies #[trigger] q4_regions(
            file@,
            other,
        ) == Err::<(Seq<u8>, Seq<u8>, Seq<u8>), BaseError>(BaseError::WrongName) by {
            read_refuses_other_name(
                text@,
                tensor_name@,
                num_rows as u64,
                num_cols as u64,
                *q,
                other,
            );
        }
    }
    file
}

} // verus!
