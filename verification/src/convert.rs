//! From a matrix in a safetensors file to the quantised matrix in a `.base`
//! file.

use crate::base_file::{
    base_file, blob_len, header_json, header_of, q4_regions, regions_in_blob, write_base_file,
    written_header, BaseError,
};
use crate::json::{json_text, Json};
use crate::le::{
    u16s_le, u16s_le_len, u16s_le_of_part, u32s_le, u32s_le_len, u32s_le_of_part, u32s_of,
};
use crate::quantize::{quantize_q4, FloatUnit, Quantized, GROUP_SIZE};
use crate::tensors::{load_fp32_w, select_tensor, tensors_in, LoadError};
use vstd::prelude::*;

verus! {

/// Why a matrix could not be converted.
#[derive(Debug, Clone, Copy, PartialEq, Eq)]
pub enum ConvertError {
    /// The matrix could not be loaded.
    Load(LoadError),
    /// The number of weights is no multiple of the group size.
    PartialGroup,
}

/// `file` is the file of the quantised matrix `q`: its header parses to that of
/// the matrix, reading it under the matrix's name gives back the words, the
/// scales and the biases, and any other name is refused.
pub open spec fn is_file_of(
    file: Seq<u8>,
    q: Quantized,
    num_rows: usize,
    num_cols: usize,
    tensor_name: Seq<char>,
) -> bool {
    &&& file == base_file(
        json_text(header_json(tensor_name, num_rows as u64, num_cols as u64, regions_in_blob(q))),
        q,
    )
    &&& header_of(file) == Ok::<(Json, int), BaseError>(
        written_header(tensor_name, num_rows as u64, num_cols as u64, q),
    )
    &&& q4_regions(file, tensor_name) == Ok::<(Seq<u8>, Seq<u8>, Seq<u8>), BaseError>(
        (u32s_le(q.packed_words@), u16s_le(q.scales@), u16s_le(q.biases@)),
    )
    &&& forall|other: Seq<char>|
        other != tensor_name ==> #[trigger] q4_regions(file, other) == Err::<
            (Seq<u8>, Seq<u8>, Seq<u8>),
            BaseError,
        >(BaseError::WrongName)
}

impl<
    Sub: Fn(u32, u32) -> u32,
    Mul: Fn(u32, u32) -> u32,
    Div: Fn(u32, u32) -> u32,
    Narrow: Fn(u32) -> u16,
    Widen: Fn(u16) -> u32,
> FloatUnit<Sub, Mul, Div, Narrow, Widen> {
    /// `file` is the file of what the weights of a matrix are quantised to.
    pub open spec fn converts(
        &self,
        weights: Seq<u32>,
        num_rows: usize,
        num_cols: usize,
        tensor_name: Seq<char>,
        file: Seq<u8>,
    ) -> bool {
        exists|q: Quantized| #[trigger]
            self.quantizes(weights, q) && is_file_of(file, q, num_rows, num_cols, tensor_name)
    }
}

/// The file of the weights of a matrix, given as single-precision bit patterns,
/// row after row.
pub fn weights_to_base<
    Sub: Fn(u32, u32) -> u32,
    Mul: Fn(u32, u32) -> u32,
    Div: Fn(u32, u32) -> u32,
    Narrow: Fn(u32) -> u16,
    Widen: Fn(u16) -> u32,
>(
    weights: &[u32],
    num_rows: usize,
    num_cols: usize,
    tensor_name: &str,
    unit: &FloatUnit<Sub, Mul, Div, Narrow, Widen>,
) -> (r: Result<Vec<u8>, ConvertError>)
    requires
        unit.total(),
    ensures
        match r {
            Ok(file) => weights@.len() % 64 == 0 && unit.converts(
                weights@,
                num_rows,
                num_cols,
                tensor_name@,
                file@,
            ),
            Err(e) => weights@.len() % 64 != 0 && e == ConvertError::PartialGroup,
        },
{
    if weights.len() % GROUP_SIZE != 0 {
        return Err(ConvertError::PartialGroup);
    }
    let q: Quantized = quantize_q4(weights, unit);
    assert(blob_len(q) <= weights.len());
    Ok(write_base_file(&q, num_rows, num_cols, tensor_name))
}

/// Reads the matrix called `tensor_name` from the safetensors file `input`,
/// quantises it, and gives the `.base` file of the result.
pub fn quantize_safetensors_to_base<
    Sub: Fn(u32, u32) -> u32,
    Mul: Fn(u32, u32) -> u32,
    Div: Fn(u32, u32) -> u32,
    Narrow: Fn(u32) -> u16,
    Widen: Fn(u16) -> u32,
>(
    input: &[u8],
    num_rows: usize,
    num_cols: usize,
    tensor_name: &str,
    unit: &FloatUnit<Sub, Mul, Div, Narrow, Widen>,
) -> (r: Result<Vec<u8>, ConvertError>)
    requires
        num_rows * num_cols * 4 <= usize::MAX,
        unit.total(),
    ensures
        match (r, select_tensor(tensors_in(input@), tensor_name@, num_rows * num_cols * 4)) {
            (Ok(file), Ok(data)) => (num_rows * num_cols) % 64 == 0 && unit.converts(
                u32s_of(data),
                num_rows,
                num_cols,
                tensor_name@,
                file@,
            ),
            (Err(ConvertError::PartialGroup), Ok(_)) => (num_rows * num_cols) % 64 != 0,
            (Err(ConvertError::Load(e)), Err(expected)) => e == expected,
            _ => false,
        },
{
    match load_fp32_w(input, num_rows, num_cols, tensor_name) {
        Ok(weights) => weights_to_base(
            weights.as_slice(),
            num_rows,
            num_cols,
            tensor_name,
            unit,
        ),
        Err(e) => Err(ConvertError::Load(e)),
    }
}

impl<
    Sub: Fn(u32, u32) -> u32,
    Mul: Fn(u32, u32) -> u32,
    Div: Fn(u32, u32) -> u32,
    Narrow: Fn(u32) -> u16,
    Widen: Fn(u16) -> u32,
> FloatUnit<Sub, Mul, Div, Narrow, Widen> {
    /// What a converted file is: the bytes of a quantisation of the weights behind
    /// a header with the name, the rows and the columns of the matrix. It is
    /// returned.
    pub proof fn converted_file_is(
        &self,
        weights: Seq<u32>,
        num_rows: usize,
        num_cols: usize,
        tensor_name: Seq<char>,
        file: Seq<u8>,
    ) -> (q: Quantized)
        requires
            self.converts(weights, num_rows, num_cols, tensor_name, file),
        ensures
            self.quantizes(weights, q),
            ({
                let header = header_json(
                    tensor_name,
                    num_rows as u64,
                    num_cols as u64,
                    regions_in_blob(q),
                );
                &&& file == base_file(json_text(header), q)
                &&& header_of(file) == Ok::<(Json, int), BaseError>(
                    (header, (16 + json_text(header).len()) as int),
                )
                &&& q4_regions(file, tensor_name) == Ok::<(Seq<u8>, Seq<u8>, Seq<u8>), BaseError>(
                    (u32s_le(q.packed_words@), u16s_le(q.scales@), u16s_le(q.biases@)),
                )
            }),
    {
        choose|q: Quantized| #[trigger]
            self.quantizes(weights, q) && is_file_of(file, q, num_rows, num_cols, tensor_name)
    }

    /// Converting weights is quantising them and writing the result: the file is
    /// that of any quantisation of the weights, and reading it gives the bytes of
    /// that quantisation, half a byte for each weight and two bytes for each scale
    /// and each bias.
    pub proof fn conversion_is_quantize_then_write(
        &self,
        weights: Seq<u32>,
        num_rows: usize,
        num_cols: usize,
        tensor_name: Seq<char>,
        file: Seq<u8>,
        q: Quantized,
    )
        requires
            self.single_valued(),
            weights.len() % 64 == 0,
            self.converts(weights, num_rows, num_cols, tensor_name, file),
            self.quantizes(weights, q),
        ensures
            is_file_of(file, q, num_rows, num_cols, tensor_name),
            u32s_le(q.packed_words@).len() == weights.len() / 2,
            u16s_le(q.scales@).len() == weights.len() / 32,
            u16s_le(q.biases@).len() == weights.len() / 32,
    {
        let p = choose|p: Quantized| #[trigger]
            self.quantizes(weights, p) && is_file_of(file, p, num_rows, num_cols, tensor_name);
        self.quantization_is_determined(weights, p, q);
        assert(regions_in_blob(p) == regions_in_blob(q));
        u32s_le_len(q.packed_words@);
        u16s_le_len(q.scales@);
        u16s_le_len(q.biases@);
    }

    /// Converting the same weights again gives the same file.
    pub proof fn conversion_is_determined(
        &self,
        weights: Seq<u32>,
        num_rows: usize,
        num_cols: usize,
        tensor_name: Seq<char>,
        file: Seq<u8>,
        again: Seq<u8>,
    )
        requires
            self.single_valued(),
            weights.len() % 64 == 0,
            self.converts(weights, num_rows, num_cols, tensor_name, file),
            self.converts(weights, num_rows, num_cols, tensor_name, again),
        ensures
            file == again,
    {
        let q = choose|q: Quantized| #[trigger]
            self.quantizes(weights, q) && is_file_of(again, q, num_rows, num_cols, tensor_name);
        self.conversion_is_quantize_then_write(weights, num_rows, num_cols, tensor_name, file, q);
    }

    /// The other tensors of an input have no influence: inputs that hold the same
    /// data under the name of the matrix are converted to the same file.
    pub proof fn other_tensors_do_not_matter(
        &self,
        tensors: Map<Seq<char>, Seq<u8>>,
        others: Map<Seq<char>, Seq<u8>>,
        num_rows: usize,
        num_cols: usize,
        tensor_name: Seq<char>,
        file: Seq<u8>,
        again: Seq<u8>,
    )
        requires
            self.single_valued(),
            (num_rows * num_cols) % 64 == 0,
            tensors.contains_key(tensor_name),
            others.contains_key(tensor_name),
            tensors[tensor_name] == others[tensor_name],
            ({
                let len = num_rows * num_cols * 4;
                let found = select_tensor(Some(tensors), tensor_name, len);
                &&& found is Ok
                &&& self.converts(u32s_of(found->Ok_0), num_rows, num_cols, tensor_name, file)
            }),
            ({
                let len = num_rows * num_cols * 4;
                let found = select_tensor(Some(others), tensor_name, len);
                &&& found is Ok
                &&& self.converts(u32s_of(found->Ok_0), num_rows, num_cols, tensor_name, again)
            }),
        ensures
            file == again,
    {
        let weights = u32s_of(tensors[tensor_name]);
        assert(weights.len() == num_rows * num_cols);
        self.conversion_is_determined(weights, num_rows, num_cols, tensor_name, file, again);
    }

    /// No group straddles a row: where rows are made of whole groups, two files of
    /// matrices that agree on a row hold the same bytes for that row, among the
    /// packed words, among the scales and among the biases.
    pub proof fn equal_rows_give_equal_bytes(
        &self,
        a: Seq<u32>,
        b: Seq<u32>,
        num_rows: usize,
        num_cols: usize,
        tensor_name: Seq<char>,
        file: Seq<u8>,
        other: Seq<u8>,
        row: nat,
    )
        requires
            self.single_valued(),
            a.len() == num_rows * num_cols,
            b.len() == num_rows * num_cols,
            num_cols % GROUP_SIZE == 0,
            row < num_rows,
            self.converts(a, num_rows, num_cols, tensor_name, file),
            self.converts(b, num_rows, num_cols, tensor_name, other),
            a.subrange(row * num_cols, (row + 1) * num_cols) == b.subrange(
                row * num_cols,
                (row + 1) * num_cols,
            ),
        ensures
            q4_regions(file, tensor_name) is Ok,
            q4_regions(other, tensor_name) is Ok,
            ({
                let x = q4_regions(file, tensor_name)->Ok_0;
                let y = q4_regions(other, tensor_name)->Ok_0;
                let m = num_cols as int / 64;
                &&& x.0.subrange(32 * (row * m), 32 * ((row + 1) * m)) == y.0.subrange(
                    32 * (row * m),
                    32 * ((row + 1) * m),
                )
                &&& x.1.subrange(2 * (row * m), 2 * ((row + 1) * m)) == y.1.subrange(
                    2 * (row * m),
                    2 * ((row + 1) * m),
                )
                &&& x.2.subrange(2 * (row * m), 2 * ((row + 1) * m)) == y.2.subrange(
                    2 * (row * m),
                    2 * ((row + 1) * m),
                )
            }),
    {
        let p = choose|p: Quantized| #[trigger]
            self.quantizes(a, p) && is_file_of(file, p, num_rows, num_cols, tensor_name);
        let q = choose|q: Quantized| #[trigger]
            self.quantizes(b, q) && is_file_of(other, q, num_rows, num_cols, tensor_name);
        let m = num_cols as int / 64;
        let (g, end) = (row * m, (row + 1) * m);
        assert((row + 1) * num_cols <= num_rows * num_cols && 0 <= g <= end) by (nonlinear_arith)
            requires
                row + 1 <= num_rows,
                num_cols >= 0,
                m >= 0,
                row >= 0,
                g == row * m,
                end == (row + 1) * m,
        ;
        self.equal_rows_quantize_alike(a, p, b, q, num_cols as nat, row);
        u32s_le_of_part(p.packed_words@, 8 * g, 8 * end);
        u32s_le_of_part(q.packed_words@, 8 * g, 8 * end);
        u16s_le_of_part(p.scales@, g, end);
        u16s_le_of_part(q.scales@, g, end);
        u16s_le_of_part(p.biases@, g, end);
        u16s_le_of_part(q.biases@, g, end);
    }
}

} // verus!
