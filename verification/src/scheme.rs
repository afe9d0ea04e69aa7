use vstd::prelude::*;

verus! {

/// KZG batch open schemes in `halo2`.
#[derive(Clone, Copy, Debug, PartialEq, Eq, Structural)]
pub enum BatchOpenScheme {
    /// Batch open scheme of the Plonk paper (`ProverGWC` in `halo2_proofs`).
    Gwc19,
    /// Batch open scheme of the BDFG21 paper (`ProverSHPLONK` in `halo2_proofs`).
    Bdfg21,
}

/// KZG accumulator encoding information: where the accumulator limbs lie in the instances.
/// Limbs of each field element are least significant limb first.
#[derive(Clone, Copy, Debug, PartialEq, Eq, Structural)]
pub struct AccumulatorEncoding {
    /// Offset of accumulator limbs in instances.
    pub offset: usize,
    /// Number of limbs per base field element.
    pub num_limbs: usize,
    /// Number of bits per limb.
    pub num_limb_bits: usize,
}

impl AccumulatorEncoding {
    /// Return a new `AccumulatorEncoding`.
    pub fn new(offset: usize, num_limbs: usize, num_limb_bits: usize) -> (enc: Self)
        ensures
            enc.offset == offset,
            enc.num_limbs == num_limbs,
            enc.num_limb_bits == num_limb_bits,
    {
        AccumulatorEncoding { offset, num_limbs, num_limb_bits }
    }
}

} // verus!
