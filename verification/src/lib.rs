//! Verified building blocks of a Solidity verifier generator for KZG-based proofs:
//! 256-bit word packing, hex rendering, verifying-key layouts, rotation-set grouping and the
//! encoded data of the BDFG21 opening computation, and its Yul lines for a verifier with the
//! key embedded.
pub mod artifact;
pub mod bdfg21;
pub mod constants;
pub mod evals;
pub mod field;
pub mod generator;
pub mod hex;
pub mod layout;
pub mod location;
pub mod packer;
pub mod packing;
pub mod pairing;
pub mod pcs;
pub mod queries;
pub mod scheme;
pub mod static_pcs;
pub mod vka;
mod text;
pub mod transcript;
pub mod word;
pub mod yul;

pub use word::Word256;
pub use hex::{hex, hex_padded};
pub use scheme::{AccumulatorEncoding, BatchOpenScheme};
pub use constants::{dummy_vk_constants, dummy_vka_constants, set_advices_user_challenges, set_constant_value, ConstantName, Constants};
pub use generator::{
    set_artifact_offsets, ArtifactParts, CircuitShape, Halo2VerifierReusable, Halo2VerifyingKey,
    KeyData, SolidityGenerator,
};
pub use vka::{decode_hex_word, vka_words_from_artifact};
pub use transcript::vk_transcript_digest;
pub use pcs::{rotation_sets, PcsDataEncoded, Query, RotationSet};
pub use static_pcs::bdfg21_computations_static;
pub use packing::{pack_challenge_data, pack_rescaling_data};
