//! Tensors of a safetensors file, through `safetensors`.

use crate::json::{
    json_as_object, json_as_u64, json_element, json_from_slice, json_member, json_of, json_parse,
    member_values, members_of, Json,
};
use crate::le::{f32_vec_from_le_bytes, le_value, le_value_of_few, read_le, u32s_of};
use safetensors::{SafeTensorError, SafeTensors};
use serde_json::Value;
use vstd::prelude::*;
use vstd::slice::slice_subrange;

verus! {

/// A parsed safetensors file.
#[verifier::external_type_specification]
#[verifier::external_body]
pub struct ExSafeTensors<'data>(safetensors::SafeTensors<'data>);

/// An error of `safetensors`.
#[verifier::external_type_specification]
#[verifier::external_body]
pub struct ExSafeTensorError(safetensors::SafeTensorError);

/// The data of each tensor of a parsed file, by name.
pub uninterp spec fn tensors_of(t: safetensors::SafeTensors<'_>) -> Map<Seq<char>, Seq<u8>>;

/// The data of each tensor, by name, that `SafeTensors::deserialize` finds in
/// the bytes of a file, or `None` where it rejects the file.
pub uninterp spec fn parsed_tensors(file: Seq<u8>) -> Option<Map<Seq<char>, Seq<u8>>>;

/// Where the data of a tensor ends, as a header's entry for it says. An entry is
/// an object, or the list of the three members of that object.
pub open spec fn declared_end(entry: Json) -> Option<u64> {
    match entry {
        Json::List(_) => entry.element(2).element(1).unsigned(),
        _ => entry.member("data_offsets"@).element(1).unsigned(),
    }
}

/// The entry places data past byte `len`.
pub open spec fn ends_past(entry: Json, len: int) -> bool {
    match declared_end(entry) {
        Some(end) => end > len,
        None => false,
    }
}

/// The header places the data of some tensor past byte `len`.
pub open spec fn places_past(header: Json, len: int) -> bool {
    match header {
        Json::Object(entries) => exists|entry: Json| #[trigger]
            entries.values().contains(entry) && ends_past(entry, len),
        _ => false,
    }
}

/// The longest header that a safetensors file may have.
pub const MAX_HEADER_LEN: u64 = 100_000_000;

/// The header of a file, which follows its own length in eight bytes, is not too
/// long and places the data of some tensor past the end of the file.
pub open spec fn overruns(file: Seq<u8>) -> bool {
    let n = le_value(file.take(8));
    &&& 8 <= file.len()
    &&& n <= MAX_HEADER_LEN
    &&& 8 + n <= file.len()
    &&& match json_parse(file.subrange(8, (8 + n) as int)) {
        Some(header) => places_past(header, file.len() as int),
        None => false,
    }
}

/// The data of each tensor of a file, by name, or `None` where the bytes are not
/// a safetensors file.
pub open spec fn tensors_in(file: Seq<u8>) -> Option<Map<Seq<char>, Seq<u8>>> {
    if overruns(file) {
        None
    } else {
        parsed_tensors(file)
    }
}

/// Trusted: `SafeTensors::deserialize` parses the bytes of a file or rejects
/// them. Which of the two it does, and which tensors it finds, is a function of
/// the bytes alone. It rejects a file that overruns too, but adds up the declared
/// sizes unchecked on the way, so such a file must not reach it.
#[verifier::external_body]
fn parse_tensors(file: &[u8]) -> (r: Result<SafeTensors<'_>, SafeTensorError>)
    requires
        !overruns(file@),
    ensures
        match r {
            Ok(t) => parsed_tensors(file@) == Some(tensors_of(t)),
            Err(_) => parsed_tensors(file@) is None,
        },
{
    SafeTensors::deserialize(file)
}

/// Trusted: `SafeTensors::tensor` finds the tensor with a given name, and fails
/// where the file has none of that name. `TensorView::data` is its data.
#[verifier::external_body]
fn find_tensor<'a>(t: &SafeTensors<'a>, name: &str) -> (r: Result<&'a [u8], SafeTensorError>)
    ensures
        match r {
            Ok(data) => tensors_of(*t).contains_key(name@) && data@ == tensors_of(*t)[name@],
            Err(_) => !tensors_of(*t).contains_key(name@),
        },
{
    t.tensor(name).map(|view| view.data())
}

/// Whether a header's entry places data past byte `len`.
fn entry_ends_past(entry: &Value, len: usize) -> (r: bool)
    ensures
        r == ends_past(json_of(*entry), len as int),
{
    let in_object = json_as_u64(json_element(json_member(entry, "data_offsets"), 1));
    let in_list = json_as_u64(json_element(json_element(entry, 2), 1));
    match (in_object, in_list) {
        (Some(end), _) => end > len as u64,
        (None, Some(end)) => end > len as u64,
        (None, None) => false,
    }
}

/// Whether a header places the data of some tensor past byte `len`.
pub fn header_ends_past(header: &Value, len: usize) -> (r: bool)
    ensures
        r == places_past(json_of(*header), len as int),
{
    let members = match json_as_object(header) {
        Some(m) => m,
        None => {
            return false;
        },
    };
    let entries: Vec<&Value> = member_values(members);
    let ghost found = entries@.map_values(|x: &Value| json_of(*x));
    let mut i: usize = 0;
    while i < entries.len()
        invariant
            i <= entries.len(),
            found == entries@.map_values(|x: &Value| json_of(*x)),
            found.to_set() == members_of(*members).values(),
            json_of(*header) == Json::Object(members_of(*members)),
            forall|j: int| 0 <= j < i ==> !ends_past(#[trigger] found[j], len as int),
        decreases entries.len() - i,
    {
        assert(found[i as int] == json_of(*entries@[i as int]));
        if entry_ends_past(entries[i], len) {
            assert(found.contains(found[i as int]));
            assert(json_of(*header)->Object_0.values().contains(found[i as int]));
            return true;
        }
        i = i + 1;
    }
    assert forall|entry: Json| #[trigger]
        members_of(*members).values().contains(entry) implies !ends_past(entry, len as int) by {
        assert(found.to_set().contains(entry));
        let j = choose|j: int| 0 <= j < found.len() && found[j] == entry;
    }
    false
}

/// Whether the header of a file places the data of some tensor past the end of
/// the file.
fn file_overruns(file: &[u8]) -> (r: bool)
    ensures
        r == overruns(file@),
{
    if file.len() < 8 {
        return false;
    }
    let header_len: u64 = read_le(file, 0, 8);
    assert(file@.subrange(0, 8) =~= file@.take(8));
    if header_len > MAX_HEADER_LEN || header_len > (file.len() - 8) as u64 {
        return false;
    }
    match json_from_slice(slice_subrange(file, 8, 8 + header_len as usize)) {
        Ok(header) => header_ends_past(&header, file.len()),
        Err(_) => false,
    }
}

/// Why a tensor could not be loaded.
#[derive(Debug, Clone, Copy, PartialEq, Eq)]
pub enum LoadError {
    /// The bytes are not a safetensors file.
    BadFile,
    /// The file has no tensor of that name.
    MissingTensor,
    /// The tensor does not have the expected number of bytes.
    WrongLength,
}

/// The data of the tensor called `name` among the tensors of a file, where it
/// has `expected_len` bytes.
pub open spec fn select_tensor(
    tensors: Option<Map<Seq<char>, Seq<u8>>>,
    name: Seq<char>,
    expected_len: int,
) -> Result<Seq<u8>, LoadError> {
    match tensors {
        None => Err(LoadError::BadFile),
        Some(found) => if !found.contains_key(name) {
            Err(LoadError::MissingTensor)
        } else if found[name].len() != expected_len {
            Err(LoadError::WrongLength)
        } else {
            Ok(found[name])
        },
    }
}

/// Checks the length of a tensor's data. `data` is what was found under the
/// tensor's name, if the file has such a tensor.
pub fn checked_data<'a>(data: Option<&'a [u8]>, expected_len: usize) -> (r: Result<
    &'a [u8],
    LoadError,
>)
    ensures
        match data {
            None => r == Err::<&[u8], LoadError>(LoadError::MissingTensor),
            Some(d) => if d@.len() == expected_len {
                r == Ok::<&[u8], LoadError>(d)
            } else {
                r == Err::<&[u8], LoadError>(LoadError::WrongLength)
            },
        },
{
    match data {
        None => Err(LoadError::MissingTensor),
        Some(d) => if d.len() == expected_len {
            Ok(d)
        } else {
            Err(LoadError::WrongLength)
        },
    }
}

/// The data of the tensor called `name` in the safetensors file `file`, which
/// must have `expected_len` bytes.
pub fn load_tensor<'a>(file: &'a [u8], name: &str, expected_len: usize) -> (r: Result<
    &'a [u8],
    LoadError,
>)
    ensures
        match r {
            Ok(data) => select_tensor(tensors_in(file@), name@, expected_len as int) == Ok::<
                Seq<u8>,
                LoadError,
            >(data@),
            Err(e) => select_tensor(tensors_in(file@), name@, expected_len as int) == Err::<
                Seq<u8>,
                LoadError,
            >(e),
        },
{
    if file_overruns(file) {
        return Err(LoadError::BadFile);
    }
    let tensors = match parse_tensors(file) {
        Ok(t) => t,
        Err(_) => {
            return Err(LoadError::BadFile);
        },
    };
    match find_tensor(&tensors, name) {
        Ok(data) => checked_data(Some(data), expected_len),
        Err(_) => checked_data(None, expected_len),
    }
}

/// The weights of the matrix called `tensor_name` in the safetensors file
/// `file`, row after row, as single-precision bit patterns.
pub fn load_fp32_w(file: &[u8], num_rows: usize, num_cols: usize, tensor_name: &str) -> (r: Result<
    Vec<u32>,
    LoadError,
>)
    requires
        num_rows * num_cols * 4 <= usize::MAX,
    ensures
        match (r, select_tensor(tensors_in(file@), tensor_name@, num_rows * num_cols * 4)) {
            (Ok(weights), Ok(data)) => weights@ == u32s_of(data) && weights@.len() == num_rows
                * num_cols,
            (Err(e), Err(expected)) => e == expected,
            _ => false,
        },
{
    assert(num_rows * num_cols <= num_rows * num_cols * 4) by (nonlinear_arith)
        requires
            num_rows >= 0,
            num_cols >= 0,
    ;
    match load_tensor(file, tensor_name, num_rows * num_cols * 4) {
        Ok(data) => Ok(f32_vec_from_le_bytes(data)),
        Err(e) => Err(e),
    }
}

/// A file is refused ahead of its parser exactly where its header, of at most
/// 100,000,000 bytes behind a length in eight bytes, has an entry that says its
/// data end past the end of the file. All other files are left to the parser.
pub proof fn only_overrunning_files_are_refused(file: Seq<u8>)
    ensures
        ({
            let n = file[0] + 0x100 * file[1] + 0x1_0000 * file[2] + 0x100_0000 * file[3]
                + 0x1_0000_0000 * file[4] + 0x100_0000_0000 * file[5] + 0x1_0000_0000_0000
                * file[6] + 0x100_0000_0000_0000 * file[7];
            let header = json_parse(file.subrange(8, 8 + n));
            let refused = file.len() >= 8 && n <= 100_000_000 && 8 + n <= file.len()
                && header is Some && header->0 is Object && exists|key: Seq<char>|
                {
                    let entry = header->0->Object_0[key];
                    let parts = if entry is List {
                        entry->List_0[2]
                    } else {
                        entry->Object_0["data_offsets"@]
                    };
                    &&& #[trigger] header->0->Object_0.contains_key(key)
                    &&& entry is List && entry->List_0.len() > 2 || entry is Object
                        && entry->Object_0.contains_key("data_offsets"@)
                    &&& parts is List && parts->List_0.len() > 1
                    &&& parts->List_0[1] is Unsigned
                    &&& parts->List_0[1]->Unsigned_0 > file.len()
                };
            &&& refused ==> tensors_in(file) is None
            &&& !refused ==> tensors_in(file) == parsed_tensors(file)
        }),
{
    if file.len() >= 8 {
        le_value_of_few(file.take(8));
        let n = le_value(file.take(8));
        let header = json_parse(file.subrange(8, (8 + n) as int));
        if header is Some && header->0 is Object {
            let entries = header->0->Object_0;
            let len = file.len() as int;
            assert forall|key: Seq<char>| #[trigger] entries.contains_key(key) && ends_past(
                entries[key],
                len,
            ) implies places_past(header->0, len) by {
                assert(entries.values().contains(entries[key]));
            }
            if places_past(header->0, len) {
                let entry = choose|entry: Json| #[trigger]
                    entries.values().contains(entry) && ends_past(entry, len);
                assert(entries.contains_value(entry));
                let key = choose|key: Seq<char>| #[trigger]
                    entries.contains_key(key) && entries[key] == entry;
                assert(entries.contains_key(key));
            }
        }
    }
}

/// The data of a tensor are found under its name where they have the expected
/// length, and nothing is found otherwise.
pub proof fn selected_by_name_and_length(
    tensors: Map<Seq<char>, Seq<u8>>,
    name: Seq<char>,
    expected_len: int,
)
    ensures
        select_tensor(None, name, expected_len) == Err::<Seq<u8>, LoadError>(LoadError::BadFile),
        !tensors.contains_key(name) ==> select_tensor(Some(tensors), name, expected_len) == Err::<
            Seq<u8>,
            LoadError,
        >(LoadError::MissingTensor),
        tensors.contains_key(name) && tensors[name].len() != expected_len ==> select_tensor(
            Some(tensors),
            name,
            expected_len,
        ) == Err::<Seq<u8>, LoadError>(LoadError::WrongLength),
        tensors.contains_key(name) && tensors[name].len() == expected_len ==> select_tensor(
            Some(tensors),
            name,
            expected_len,
        ) == Ok::<Seq<u8>, LoadError>(tensors[name]),
{
}

/// A file that the parser takes, and whose tensors all end within it, gives the
/// data of each of its tensors to a reader that knows the name and the length.
pub proof fn tensors_within_the_file_are_found(file: Seq<u8>, name: Seq<char>)
    ensures
        ({
            let n = file[0] + 0x100 * file[1] + 0x1_0000 * file[2] + 0x100_0000 * file[3]
                + 0x1_0000_0000 * file[4] + 0x100_0000_0000 * file[5] + 0x1_0000_0000_0000
                * file[6] + 0x100_0000_0000_0000 * file[7];
            let header = json_parse(file.subrange(8, 8 + n));
            let parsed = parsed_tensors(file);
            &&& header is Some && !places_past(header->0, file.len() as int) && parsed is Some
                && parsed->0.contains_key(name) ==> select_tensor(
                tensors_in(file),
                name,
                parsed->0[name].len() as int,
            ) == Ok::<Seq<u8>, LoadError>(parsed->0[name])
        }),
{
    if file.len() >= 8 {
        le_value_of_few(file.take(8));
    }
}

} // verus!
