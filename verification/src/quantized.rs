//! A quantized vector: its codes and the parameters that turn codes into distances.
use vstd::prelude::*;

verus! {

/// One vector after quantization against the centroid of its cluster. Parameters are
/// single-precision numbers given by their bits.
#[derive(Debug)]
pub struct QuantizedVector {
    /// One sign bit per dimension, eight to a byte, most significant bit first.
    pub binary_code_packed: Vec<u8>,
    /// The packed extended code.
    pub ex_code_packed: Vec<u8>,
    /// Extended bits per dimension.
    pub ex_bits: u8,
    /// Number of dimensions after padding.
    pub dim: usize,
    /// Reconstruction step.
    pub delta: u32,
    /// Reconstruction offset.
    pub vl: u32,
    /// Additive term of the one-bit distance estimate.
    pub f_add: u32,
    /// Factor of the one-bit distance estimate.
    pub f_rescale: u32,
    /// Error bound of the one-bit distance estimate.
    pub f_error: u32,
    /// Distance from the centroid.
    pub residual_norm: u32,
    /// Additive term of the refined distance.
    pub f_add_ex: u32,
    /// Factor of the refined distance.
    pub f_rescale_ex: u32,
}

/// What a quantized vector holds.
#[verifier::ext_equal]
pub struct QuantizedModel {
    pub code: Seq<u8>,
    pub ex_code: Seq<u8>,
    pub ex_bits: u8,
    pub dim: usize,
    pub delta: u32,
    pub vl: u32,
    pub f_add: u32,
    pub f_rescale: u32,
    pub f_error: u32,
    pub residual_norm: u32,
    pub f_add_ex: u32,
    pub f_rescale_ex: u32,
}

impl View for QuantizedVector {
    type V = QuantizedModel;

    open spec fn view(&self) -> QuantizedModel {
        QuantizedModel {
            code: self.binary_code_packed@,
            ex_code: self.ex_code_packed@,
            ex_bits: self.ex_bits,
            dim: self.dim,
            delta: self.delta,
            vl: self.vl,
            f_add: self.f_add,
            f_rescale: self.f_rescale,
            f_error: self.f_error,
            residual_norm: self.residual_norm,
            f_add_ex: self.f_add_ex,
            f_rescale_ex: self.f_rescale_ex,
        }
    }
}

/// What the vectors of a sequence hold.
pub open spec fn models(vectors: Seq<QuantizedVector>) -> Seq<QuantizedModel> {
    vectors.map_values(|q: QuantizedVector| q@)
}

/// The byte strings of a sequence of byte vectors.
pub open spec fn nested(v: Seq<Vec<u8>>) -> Seq<Seq<u8>> {
    v.map_values(|b: Vec<u8>| b@)
}

/// A vector appended to a sequence is appended to what the sequence holds.
pub proof fn lemma_models_push(vectors: Seq<QuantizedVector>, q: QuantizedVector)
    ensures
        models(vectors.push(q)) == models(vectors).push(q@),
{
    assert(models(vectors.push(q)) =~= models(vectors).push(q@));
}

/// A byte vector appended to a sequence is appended to its byte strings.
pub proof fn lemma_nested_push(v: Seq<Vec<u8>>, b: Vec<u8>)
    ensures
        nested(v.push(b)) == nested(v).push(b@),
{
    assert(nested(v.push(b)) =~= nested(v).push(b@));
}

impl QuantizedVector {
    /// A vector that holds the same as this one.
    pub fn duplicate(&self) -> (r: QuantizedVector)
        ensures
            r@ == self@,
    {
        QuantizedVector {
            binary_code_packed: vstd::slice::slice_to_vec(self.binary_code_packed.as_slice()),
            ex_code_packed: vstd::slice::slice_to_vec(self.ex_code_packed.as_slice()),
            ex_bits: self.ex_bits,
            dim: self.dim,
            delta: self.delta,
            vl: self.vl,
            f_add: self.f_add,
            f_rescale: self.f_rescale,
            f_error: self.f_error,
            residual_norm: self.residual_norm,
            f_add_ex: self.f_add_ex,
            f_rescale_ex: self.f_rescale_ex,
        }
    }
}

} // verus!
