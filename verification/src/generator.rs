use vstd::prelude::*;

use crate::constants::{
    advices_capacity, artifact_names, dummy_vk_constants, dummy_vka_constants, first_index_of,
    key_names, names_of, set_advices_user_challenges, set_constant_value,
    with_advices_user_challenges, with_value, ConstantName, Constants,
    NUM_ADVICES_USER_CHALLENGES_SLOTS,
};
use crate::constants::all_zero;
use crate::field::{fr_inverse, fr_inverse_of_pow2, fr_modulus, fr_pow_word, le_value};
use crate::layout::holds;
use crate::packing::{
    challenge_data_packable, challenge_layout, entry_words_len, num_phases, num_scaled,
    pack_challenge_data, pack_rescaling_data, rescaling_data_packable, rescaling_layout,
    scaled_words_len,
};
use crate::pcs::RotationSet;
use crate::scheme::{AccumulatorEncoding, BatchOpenScheme};
use crate::transcript::{blake2b_digest, transcript_message, vk_personalization, vk_transcript_repr};
use crate::word::Word256;
use vstd::arithmetic::power::pow;
use vstd::arithmetic::power2::pow2;
use vstd::utf8::encode_utf8;

verus! {

/// What the generator reads of the verifying key's constraint system.
pub struct CircuitShape {
    /// Number of advice columns.
    pub num_advice_columns: usize,
    /// Number of instance columns.
    pub num_instance_columns: usize,
    /// Rotation of each query to an instance column.
    pub instance_query_rotations: Vec<i32>,
    /// Number of advice columns of each phase.
    pub num_advices: Vec<usize>,
    /// Number of user challenges of each phase.
    pub num_challenges: Vec<usize>,
    /// Number of challenge indices.
    pub num_challenge_indices: usize,
    /// Number of evaluations in a proof.
    pub num_evals: usize,
    /// Rotation of the last usable row (negative).
    pub rotation_last: i32,
    /// Number of pieces the quotient polynomial is committed in.
    pub num_quotients: usize,
}

/// What the generator reads of the KZG parameters and the verifying key, each group element
/// coordinate and field element as a 256-bit word.
pub struct KeyData {
    pub shape: CircuitShape,
    /// The verifying key's pinned data, as its `Debug` representation writes it.
    pub pinned_repr: String,
    /// Log2 of the evaluation domain size.
    pub k: u32,
    /// Generator of the domain, and its inverse.
    pub omega: Word256,
    pub omega_inv: Word256,
    /// The G1 generator (x, y).
    pub g1: (Word256, Word256),
    /// The G2 generator and minus `s` times it (x1, x2, y1, y2).
    pub g2: (Word256, Word256, Word256, Word256),
    pub neg_s_g2: (Word256, Word256, Word256, Word256),
    /// Commitments to the fixed columns and to the permutation polynomials.
    pub fixed_comms: Vec<(Word256, Word256)>,
    pub permutation_comms: Vec<(Word256, Word256)>,
}

/// The sum of a sequence of counts.
pub open spec fn total(s: Seq<usize>) -> int
    decreases s.len(),
{
    if s.len() == 0 {
        0
    } else {
        total(s.drop_last()) + s.last()
    }
}

/// The absolute value of a rotation.
pub open spec fn abs(r: i32) -> int {
    if r < 0 {
        -r
    } else {
        r as int
    }
}

/// Whether the key, scheme and instance layout are ones the generator supports: a domain of
/// fewer than `2^64` rows whose `omega_inv` is a field element, at least one advice column,
/// at most one instance column, no rotated instance query, the BDFG21 scheme, one scale per
/// instance group, fewer than four hashes and at most 38 decimals.
pub open spec fn supported(
    key: &KeyData,
    scheme: BatchOpenScheme,
    num_instances: Seq<usize>,
    scales: Seq<i32>,
    decimals: usize,
    hash_count: usize,
) -> bool {
    &&& key.k < 64
    &&& key.omega_inv.value() < fr_modulus()
    &&& key.shape.num_advice_columns != 0
    &&& key.shape.num_instance_columns <= 1
    &&& forall|i: int|
        0 <= i < key.shape.instance_query_rotations.len() ==> #[trigger] key.shape.instance_query_rotations@[i]
            == 0
    &&& scheme == BatchOpenScheme::Bdfg21
    &&& num_instances.len() == scales.len()
    &&& hash_count < 4
    &&& decimals <= 38
}

/// The verifying key's digest: its transcript representation's BLAKE2b digest, reduced into
/// BN254's scalar field.
pub open spec fn vk_digest_value(key: &KeyData) -> nat {
    le_value(blake2b_digest(64, vk_personalization(), transcript_message(encode_utf8(key.pinned_repr@))))
        % fr_modulus()
}

/// The inverse of the domain size `2^k` in BN254's scalar field.
pub open spec fn n_inv_value(key: &KeyData) -> nat {
    fr_inverse(pow2(key.k as nat))
}

/// `omega_inv` raised to the number of blinding rows, in BN254's scalar field.
pub open spec fn omega_inv_to_l_value(key: &KeyData) -> nat {
    (pow(key.omega_inv.value() as int, abs(key.shape.rotation_last) as nat) % (fr_modulus() as int)) as nat
}

/// The value that the verifying key gives the constant `name`, where it gives one; the
/// other constants keep their placeholder.
pub open spec fn vk_constant_value(
    key: &KeyData,
    num_instances: Seq<usize>,
    hash_count: usize,
    acc: Option<AccumulatorEncoding>,
    name: ConstantName,
) -> Option<nat> {
    match name {
        ConstantName::VkDigest => Some(vk_digest_value(key)),
        ConstantName::NumInstances => Some((total(num_instances) + hash_count) as nat),
        ConstantName::K => Some(key.k as nat),
        ConstantName::NInv => Some(n_inv_value(key)),
        ConstantName::Omega => Some(key.omega.value()),
        ConstantName::OmegaInv => Some(key.omega_inv.value()),
        ConstantName::OmegaInvToL => Some(omega_inv_to_l_value(key)),
        ConstantName::HasAccumulator => Some(
            if acc is Some {
                1nat
            } else {
                0nat
            },
        ),
        ConstantName::AccOffset => Some(
            match acc {
                Some(a) => a.offset as nat,
                None => 0nat,
            },
        ),
        ConstantName::NumAccLimbs => Some(
            match acc {
                Some(a) => a.num_limbs as nat,
                None => 0nat,
            },
        ),
        ConstantName::NumAccLimbBits => Some(
            match acc {
                Some(a) => a.num_limb_bits as nat,
                None => 0nat,
            },
        ),
        ConstantName::G1X => Some(key.g1.0.value()),
        ConstantName::G1Y => Some(key.g1.1.value()),
        ConstantName::G2X1 => Some(key.g2.0.value()),
        ConstantName::G2X2 => Some(key.g2.1.value()),
        ConstantName::G2Y1 => Some(key.g2.2.value()),
        ConstantName::G2Y2 => Some(key.g2.3.value()),
        ConstantName::NegSG2X1 => Some(key.neg_s_g2.0.value()),
        ConstantName::NegSG2X2 => Some(key.neg_s_g2.1.value()),
        ConstantName::NegSG2Y1 => Some(key.neg_s_g2.2.value()),
        ConstantName::NegSG2Y2 => Some(key.neg_s_g2.3.value()),
        ConstantName::ChallengesOffset => Some((key.shape.num_challenge_indices * 32) as nat),
        ConstantName::NumEvals => Some(key.shape.num_evals as nat),
        ConstantName::NumNegLagranges => Some(abs(key.shape.rotation_last) as nat),
        _ => None,
    }
}

/// Whether the numbers that go into the verifying key's constants fit a machine word.
pub open spec fn vk_constants_fit(key: &KeyData, num_instances: Seq<usize>, hash_count: usize) -> bool {
    &&& total(num_instances) + hash_count <= usize::MAX
    &&& key.shape.num_challenge_indices * 32 <= usize::MAX
}

proof fn lemma_total_prefix(s: Seq<usize>, i: int)
    requires
        0 <= i <= s.len(),
    ensures
        0 <= total(s.take(i)) <= total(s),
    decreases s.len(),
{
    if s.len() > 0 {
        if i == s.len() {
            assert(s.take(i) =~= s);
            lemma_total_prefix(s.drop_last(), i - 1);
            assert(s.drop_last().take(i - 1) =~= s.drop_last());
        } else {
            lemma_total_prefix(s.drop_last(), i);
            assert(s.drop_last().take(i) =~= s.take(i));
        }
    }
}

/// The sum of the counts.
fn sum_usizes(v: &[usize]) -> (r: usize)
    requires
        total(v@) <= usize::MAX,
    ensures
        r == total(v@),
{
    let mut r: usize = 0;
    let mut i: usize = 0;
    while i < v.len()
        invariant
            i <= v.len(),
            total(v@) <= usize::MAX,
            r == total(v@.take(i as int)),
        decreases v.len() - i,
    {
        proof {
            lemma_total_prefix(v@, i + 1);
            assert(v@.take(i + 1).drop_last() =~= v@.take(i as int));
        }
        r = r + v[i];
        i += 1;
    }
    assert(v@.take(v.len() as int) =~= v@);
    r
}

/// The absolute value of a rotation.
fn unsigned_abs(r: i32) -> (a: usize)
    ensures
        a == abs(r),
{
    if r < 0 {
        (-(r as i64)) as usize
    } else {
        r as usize
    }
}

/// Number of rotation coefficients: the rotations of all the sets together.
pub open spec fn num_coeffs(sets: Seq<RotationSet>) -> int
    decreases sets.len(),
{
    if sets.len() == 0 {
        0
    } else {
        num_coeffs(sets.drop_last()) + sets.last().rots.len()
    }
}

/// Words of scratch memory the BDFG21 opening computation takes.
pub open spec fn pcs_memory_words(superset_len: int, sets: Seq<RotationSet>) -> int {
    2 * (1 + num_coeffs(sets)) + 6 + 2 * superset_len + 1 + 3 * sets.len()
}

/// Words of scratch memory hashing the transcript takes: the largest of twice a phase's
/// advice count plus one, and the number of evaluations plus one.
pub open spec fn transcript_memory_words(num_advices: Seq<usize>, num_evals: usize) -> int
    decreases num_advices.len(),
{
    if num_advices.len() == 0 {
        num_evals + 1
    } else {
        let rest = transcript_memory_words(num_advices.drop_last(), num_evals);
        let last = num_advices.last() * 2 + 1;
        if last > rest {
            last
        } else {
            rest
        }
    }
}

/// The larger of two numbers.
pub open spec fn max(a: int, b: int) -> int {
    if a >= b {
        a
    } else {
        b
    }
}

/// Bytes of static working memory the verifier needs: 32 per word of the largest of the
/// transcript hashing, the opening computation and the pairing (12 words); and at least the
/// quotient evaluation's own need, where one is given.
pub open spec fn working_memory_size(
    num_advices: Seq<usize>,
    num_evals: usize,
    superset_len: int,
    sets: Seq<RotationSet>,
    quotient_eval_usage: Option<usize>,
) -> int {
    let fsm = max(
        max(transcript_memory_words(num_advices, num_evals), pcs_memory_words(superset_len, sets)),
        12,
    ) * 0x20;
    match quotient_eval_usage {
        Some(u) => max(fsm, u as int),
        None => fsm,
    }
}

pub proof fn lemma_num_coeffs_prefix(sets: Seq<RotationSet>, i: int)
    requires
        0 <= i <= sets.len(),
    ensures
        0 <= num_coeffs(sets.take(i)) <= num_coeffs(sets),
    decreases sets.len(),
{
    if sets.len() > 0 {
        if i == sets.len() {
            assert(sets.take(i) =~= sets);
            lemma_num_coeffs_prefix(sets.drop_last(), i - 1);
            assert(sets.drop_last().take(i - 1) =~= sets.drop_last());
        } else {
            lemma_num_coeffs_prefix(sets.drop_last(), i);
            assert(sets.drop_last().take(i) =~= sets.take(i));
        }
    }
}

proof fn lemma_transcript_memory_prefix(num_advices: Seq<usize>, num_evals: usize, i: int)
    requires
        0 <= i <= num_advices.len(),
    ensures
        num_evals + 1 <= transcript_memory_words(num_advices.take(i), num_evals)
            <= transcript_memory_words(num_advices, num_evals),
        forall|j: int| 0 <= j < num_advices.len() ==> num_advices[j] * 2 + 1 <= transcript_memory_words(num_advices, num_evals),
    decreases num_advices.len(),
{
    if num_advices.len() > 0 {
        if i == num_advices.len() {
            assert(num_advices.take(i) =~= num_advices);
            lemma_transcript_memory_prefix(num_advices.drop_last(), num_evals, i - 1);
            assert(num_advices.drop_last().take(i - 1) =~= num_advices.drop_last());
        } else {
            lemma_transcript_memory_prefix(num_advices.drop_last(), num_evals, i);
            assert(num_advices.drop_last().take(i) =~= num_advices.take(i));
        }
        assert forall|j: int| 0 <= j < num_advices.len() implies num_advices[j] * 2 + 1 <= transcript_memory_words(num_advices, num_evals) by {
            if j < num_advices.len() - 1 {
                assert(num_advices.drop_last()[j] == num_advices[j]);
            }
        }
    }
}

/// Solidity verifier generator for halo2 proofs with the KZG commitment scheme on BN254.
pub struct SolidityGenerator {
    key: KeyData,
    scheme: BatchOpenScheme,
    num_instances: Vec<usize>,
    scales: Vec<i32>,
    decimals: usize,
    hash_count: usize,
    acc_encoding: Option<AccumulatorEncoding>,
}

/// The embedded verifying key: named constants, then the fixed and permutation commitments.
pub struct Halo2VerifyingKey {
    pub constants: Constants,
    pub fixed_comms: Vec<(Word256, Word256)>,
    pub permutation_comms: Vec<(Word256, Word256)>,
}

impl Halo2VerifyingKey {
    /// Number of words of the key: one per constant and two per commitment.
    pub open spec fn spec_len(&self) -> int {
        self.constants.len() + (self.fixed_comms.len() + self.permutation_comms.len()) * 2
    }

    /// Length of the key in words, or in bytes (32 per word) when `scaled`.
    pub fn len(&self, scaled: bool) -> (len: usize)
        requires
            self.spec_len() * 0x20 <= usize::MAX,
        ensures
            len == if scaled {
                self.spec_len() * 0x20
            } else {
                self.spec_len()
            },
    {
        let len = self.constants.len() + (self.fixed_comms.len() + self.permutation_comms.len()) * 2;
        if scaled {
            len * 0x20
        } else {
            len
        }
    }
}

/// The reusable verifier's view of the artifact: the scheme, and the memory offset of each
/// artifact constant.
pub struct Halo2VerifierReusable {
    pub scheme: BatchOpenScheme,
    pub vk_const_offsets: Vec<(ConstantName, Word256)>,
}

fn copy_pairs(v: &Vec<(Word256, Word256)>) -> (c: Vec<(Word256, Word256)>)
    ensures
        c@ == v@,
{
    let mut c: Vec<(Word256, Word256)> = Vec::new();
    let mut i: usize = 0;
    while i < v.len()
        invariant
            i <= v.len(),
            c@ == v@.take(i as int),
        decreases v.len() - i,
    {
        c.push(v[i]);
        i += 1;
        assert(c@ =~= v@.take(i as int));
    }
    assert(v@.take(v.len() as int) =~= v@);
    c
}

fn copy_usizes(v: &[usize]) -> (c: Vec<usize>)
    ensures
        c@ == v@,
{
    let mut c: Vec<usize> = Vec::new();
    let mut i: usize = 0;
    while i < v.len()
        invariant
            i <= v.len(),
            c@ == v@.take(i as int),
        decreases v.len() - i,
    {
        c.push(v[i]);
        i += 1;
        assert(c@ =~= v@.take(i as int));
    }
    assert(v@.take(v.len() as int) =~= v@);
    c
}

fn copy_i32s(v: &[i32]) -> (c: Vec<i32>)
    ensures
        c@ == v@,
{
    let mut c: Vec<i32> = Vec::new();
    let mut i: usize = 0;
    while i < v.len()
        invariant
            i <= v.len(),
            c@ == v@.take(i as int),
        decreases v.len() - i,
    {
        c.push(v[i]);
        i += 1;
        assert(c@ =~= v@.take(i as int));
    }
    assert(v@.take(v.len() as int) =~= v@);
    c
}

impl SolidityGenerator {
    #[verifier::type_invariant]
    closed spec fn inv(self) -> bool {
        supported(
            &self.key,
            self.scheme,
            self.num_instances@,
            self.scales@,
            self.decimals,
            self.hash_count,
        )
    }

    /// The key data the generator was made with.
    pub closed spec fn key_data(&self) -> &KeyData {
        &self.key
    }

    pub closed spec fn scheme_of(&self) -> BatchOpenScheme {
        self.scheme
    }

    pub closed spec fn instances(&self) -> Seq<usize> {
        self.num_instances@
    }

    pub closed spec fn scales_of(&self) -> Seq<i32> {
        self.scales@
    }

    pub closed spec fn decimals_of(&self) -> usize {
        self.decimals
    }

    pub closed spec fn hash_count_of(&self) -> usize {
        self.hash_count
    }

    pub closed spec fn acc_encoding_of(&self) -> Option<AccumulatorEncoding> {
        self.acc_encoding
    }

    /// The batch open scheme.
    pub fn scheme(&self) -> (s: BatchOpenScheme)
        ensures
            s == self.scheme_of(),
    {
        self.scheme
    }

    /// The number of negative Lagrange bases: the absolute rotation of the last usable row.
    pub fn num_neg_lagranges(&self) -> (n: usize)
        ensures
            n == abs(self.key_data().shape.rotation_last),
    {
        unsigned_abs(self.key.shape.rotation_last)
    }

    /// Number of advice columns of each phase.
    pub fn num_advices(&self) -> (v: &Vec<usize>)
        ensures
            v@ == self.key_data().shape.num_advices@,
    {
        &self.key.shape.num_advices
    }

    /// Number of user challenges of each phase.
    pub fn num_challenges(&self) -> (v: &Vec<usize>)
        ensures
            v@ == self.key_data().shape.num_challenges@,
    {
        &self.key.shape.num_challenges
    }

    /// Number of pieces the quotient polynomial is committed in.
    pub fn num_quotients(&self) -> (n: usize)
        ensures
            n == self.key_data().shape.num_quotients,
    {
        self.key.shape.num_quotients
    }

    /// Number of evaluations in a proof.
    pub fn num_evals(&self) -> (n: usize)
        ensures
            n == self.key_data().shape.num_evals,
    {
        self.key.shape.num_evals
    }

    /// The generator keeps what `new` asked of its key, scheme and instance layout; a caller
    /// holding a generator learns it from this call, which does nothing at run time.
    pub fn keeps_supported(&self)
        ensures
            supported(
                self.key_data(),
                self.scheme_of(),
                self.instances(),
                self.scales_of(),
                self.decimals_of(),
                self.hash_count_of(),
            ),
    {
        proof {
            use_type_invariant(self);
        }
    }

    /// Return a new `SolidityGenerator`, with no accumulator encoding.
    pub fn new(
        key: KeyData,
        scheme: BatchOpenScheme,
        num_instances: &[usize],
        scales: &[i32],
        decimals: usize,
        hash_count: usize,
    ) -> (g: Self)
        requires
            supported(&key, scheme, num_instances@, scales@, decimals, hash_count),
        ensures
            g.key_data() == &key,
            g.scheme_of() == scheme,
            g.instances() == num_instances@,
            g.scales_of() == scales@,
            g.decimals_of() == decimals,
            g.hash_count_of() == hash_count,
            g.acc_encoding_of() is None,
    {
        SolidityGenerator {
            key,
            scheme,
            num_instances: copy_usizes(num_instances),
            scales: copy_i32s(scales),
            decimals,
            hash_count,
            acc_encoding: None,
        }
    }

    /// Set `AccumulatorEncoding`.
    pub fn set_acc_encoding(self, acc_encoding: Option<AccumulatorEncoding>) -> (g: Self)
        ensures
            g.key_data() == self.key_data(),
            g.scheme_of() == self.scheme_of(),
            g.instances() == self.instances(),
            g.scales_of() == self.scales_of(),
            g.decimals_of() == self.decimals_of(),
            g.hash_count_of() == self.hash_count_of(),
            g.acc_encoding_of() == acc_encoding,
    {
        proof {
            use_type_invariant(&self);
        }
        let SolidityGenerator { key, scheme, num_instances, scales, decimals, hash_count, .. } =
            self;
        SolidityGenerator { key, scheme, num_instances, scales, decimals, hash_count, acc_encoding }
    }

    /// The packed per-phase advice and challenge counts of the circuit.
    pub fn generate_challenge_data(&self) -> (words: Vec<Word256>)
        requires
            challenge_data_packable(
                self.key_data().shape.num_advices@,
                self.key_data().shape.num_challenges@,
            ),
        ensures
            words.len() == entry_words_len(
                num_phases(self.key_data().shape.num_advices@, self.key_data().shape.num_challenges@),
            ),
            holds(
                words@,
                challenge_layout(self.key_data().shape.num_advices@, self.key_data().shape.num_challenges@),
            ),
    {
        pack_challenge_data(self.key.shape.num_advices.as_slice(), self.key.shape.num_challenges.as_slice())
    }

    /// The packed rescaling data of the instances.
    pub fn generate_rescaling_data(&self) -> (words: Vec<Word256>)
        requires
            rescaling_data_packable(
                self.scales_of(),
                self.instances(),
                self.decimals_of(),
                self.hash_count_of(),
            ),
        ensures
            words.len() == scaled_words_len(num_scaled(self.scales_of(), self.instances())),
            holds(
                words@,
                rescaling_layout(
                    self.scales_of(),
                    self.instances(),
                    self.decimals_of(),
                    self.hash_count_of(),
                ),
            ),
    {
        pack_rescaling_data(self.scales.as_slice(), self.num_instances.as_slice(), self.decimals, self.hash_count)
    }

    /// The verifying artifact's constants for this circuit, all 0.
    pub fn dummy_vka_constants(&self) -> (constants: Constants)
        requires
            advices_capacity(self.key_data().shape.num_advices.len() as nat)
                <= NUM_ADVICES_USER_CHALLENGES_SLOTS,
        ensures
            names_of(constants@) == artifact_names(self.key_data().shape.num_advices.len() as nat),
            all_zero(constants@),
    {
        dummy_vka_constants(self.key.shape.num_advices.len())
    }

    /// The value of one constant, given its placeholder and the computed digest, inverse
    /// domain size and power of `omega_inv`.
    fn constant_value(&self, name: ConstantName, dummy: Word256, derived: &(Word256, Word256, Word256)) -> (w: Word256)
        requires
            vk_constants_fit(self.key_data(), self.instances(), self.hash_count_of()),
            derived.0.value() == vk_digest_value(self.key_data()),
            derived.1.value() == n_inv_value(self.key_data()),
            derived.2.value() == omega_inv_to_l_value(self.key_data()),
        ensures
            w.value() == match vk_constant_value(
                self.key_data(),
                self.instances(),
                self.hash_count_of(),
                self.acc_encoding_of(),
                name,
            ) {
                Some(v) => v,
                None => dummy.value(),
            },
    {
        let key = &self.key;
        match name {
            ConstantName::VkDigest => derived.0,
            ConstantName::NumInstances => {
                let n = sum_usizes(self.num_instances.as_slice());
                Word256::from_u64((n + self.hash_count) as u64)
            },
            ConstantName::K => Word256::from_u64(key.k as u64),
            ConstantName::NInv => derived.1,
            ConstantName::Omega => key.omega,
            ConstantName::OmegaInv => key.omega_inv,
            ConstantName::OmegaInvToL => derived.2,
            ConstantName::HasAccumulator => Word256::from_u64(
                if self.acc_encoding.is_some() {
                    1
                } else {
                    0
                },
            ),
            ConstantName::AccOffset => Word256::from_u64(
                match self.acc_encoding {
                    Some(a) => a.offset as u64,
                    None => 0,
                },
            ),
            ConstantName::NumAccLimbs => Word256::from_u64(
                match self.acc_encoding {
                    Some(a) => a.num_limbs as u64,
                    None => 0,
                },
            ),
            ConstantName::NumAccLimbBits => Word256::from_u64(
                match self.acc_encoding {
                    Some(a) => a.num_limb_bits as u64,
                    None => 0,
                },
            ),
            ConstantName::G1X => key.g1.0,
            ConstantName::G1Y => key.g1.1,
            ConstantName::G2X1 => key.g2.0,
            ConstantName::G2X2 => key.g2.1,
            ConstantName::G2Y1 => key.g2.2,
            ConstantName::G2Y2 => key.g2.3,
            ConstantName::NegSG2X1 => key.neg_s_g2.0,
            ConstantName::NegSG2X2 => key.neg_s_g2.1,
            ConstantName::NegSG2Y1 => key.neg_s_g2.2,
            ConstantName::NegSG2Y2 => key.neg_s_g2.3,
            ConstantName::ChallengesOffset => Word256::from_u64(
                (key.shape.num_challenge_indices * 32) as u64,
            ),
            ConstantName::NumEvals => Word256::from_u64(key.shape.num_evals as u64),
            ConstantName::NumNegLagranges => Word256::from_u64(
                unsigned_abs(key.shape.rotation_last) as u64,
            ),
            _ => dummy,
        }
    }

    /// The embedded verifying key (`reusable == false`) or the head of the verifying artifact
    /// (`reusable == true`): the constants with the values the key gives them, then the
    /// fixed and permutation commitments.
    pub fn generate_vk(&self, reusable: bool) -> (vk: Halo2VerifyingKey)
        requires
            vk_constants_fit(self.key_data(), self.instances(), self.hash_count_of()),
            reusable ==> advices_capacity(self.key_data().shape.num_advices.len() as nat)
                <= NUM_ADVICES_USER_CHALLENGES_SLOTS,
        ensures
            is_vk_constants(self, vk.constants@, reusable),
            vk.fixed_comms@ == self.key_data().fixed_comms@,
            vk.permutation_comms@ == self.key_data().permutation_comms@,
    {
        let dummies = if reusable {
            self.dummy_vka_constants()
        } else {
            dummy_vk_constants()
        };
        proof {
            use_type_invariant(self);
        }
        let vk_digest = vk_transcript_repr(self.key.pinned_repr.as_str());
        let n_inv = fr_inverse_of_pow2(self.key.k);
        let omega_inv_to_l = fr_pow_word(
            &self.key.omega_inv,
            unsigned_abs(self.key.shape.rotation_last) as u64,
        );
        let derived = (vk_digest, n_inv, omega_inv_to_l);
        let ghost names = names_of(dummies@);
        let mut constants: Constants = Vec::new();
        let mut i: usize = 0;
        while i < dummies.len()
            invariant
                i <= dummies.len(),
                vk_constants_fit(self.key_data(), self.instances(), self.hash_count_of()),
                derived.0.value() == vk_digest_value(self.key_data()),
                derived.1.value() == n_inv_value(self.key_data()),
                derived.2.value() == omega_inv_to_l_value(self.key_data()),
                all_zero(dummies@),
                names == names_of(dummies@),
                names_of(constants@) == names.take(i as int),
                forall|j: int|
                    0 <= j < constants.len() ==> (#[trigger] constants@[j]).1.value() == match vk_constant_value(
                        self.key_data(),
                        self.instances(),
                        self.hash_count_of(),
                        self.acc_encoding_of(),
                        constants@[j].0,
                    ) {
                        Some(v) => v,
                        None => 0,
                    },
            decreases dummies.len() - i,
        {
            let (name, dummy) = dummies[i];
            assert(dummies@[i as int].1.value() == 0);
            let value = self.constant_value(name, dummy, &derived);
            let ghost pre = constants@;
            constants.push((name, value));
            assert(names_of(constants@) =~= names_of(pre).push(name));
            assert(names.take(i + 1) =~= names.take(i as int).push(name));
            i += 1;
        }
        assert(names.take(dummies.len() as int) =~= names);
        Halo2VerifyingKey {
            constants,
            fixed_comms: copy_pairs(&self.key.fixed_comms),
            permutation_comms: copy_pairs(&self.key.permutation_comms),
        }
    }

    /// Bytes of static working memory the verifier needs, given the rotation sets of the
    /// opening queries (`superset` being all the rotations opened) and, for a reusable
    /// verifier, the memory the quotient evaluation needs.
    pub fn estimate_static_working_memory_size(
        &self,
        superset: &Vec<i32>,
        sets: &Vec<RotationSet>,
        quotient_eval_usage: Option<usize>,
    ) -> (size: usize)
        requires
            max(
                max(
                    transcript_memory_words(
                        self.key_data().shape.num_advices@,
                        self.key_data().shape.num_evals,
                    ),
                    pcs_memory_words(superset.len() as int, sets@),
                ),
                12,
            ) * 0x20 <= usize::MAX,
        ensures
            size == working_memory_size(
                self.key_data().shape.num_advices@,
                self.key_data().shape.num_evals,
                superset.len() as int,
                sets@,
                quotient_eval_usage,
            ),
    {
        let ghost sets_s = sets@;
        let ghost bound = max(
            max(
                transcript_memory_words(self.key.shape.num_advices@, self.key.shape.num_evals),
                pcs_memory_words(superset.len() as int, sets_s),
            ),
            12,
        );
        let mut coeffs: usize = 0;
        let mut i: usize = 0;
        while i < sets.len()
            invariant
                i <= sets.len(),
                sets_s == sets@,
                bound == max(
                    max(
                        transcript_memory_words(self.key.shape.num_advices@, self.key.shape.num_evals),
                        pcs_memory_words(superset.len() as int, sets_s),
                    ),
                    12,
                ),
                bound * 0x20 <= usize::MAX,
                coeffs == num_coeffs(sets_s.take(i as int)),
            decreases sets.len() - i,
        {
            proof {
                lemma_num_coeffs_prefix(sets_s, i + 1);
                assert(sets_s.take(i + 1).drop_last() =~= sets_s.take(i as int));
            }
            coeffs = coeffs + sets[i].rots.len();
            i += 1;
        }
        assert(sets_s.take(sets.len() as int) =~= sets_s);
        let pcs_computation: usize = 2 * (1 + coeffs) + 6 + 2 * superset.len() + 1 + 3 * sets.len();
        let advices = &self.key.shape.num_advices;
        proof {
            lemma_transcript_memory_prefix(advices@, self.key.shape.num_evals, 0);
            assert(advices@.take(0) =~= Seq::<usize>::empty());
        }
        let mut keccak: usize = self.key.shape.num_evals + 1;
        let mut j: usize = 0;
        while j < advices.len()
            invariant
                j <= advices.len(),
                advices == &self.key.shape.num_advices,
                bound * 0x20 <= usize::MAX,
                bound >= transcript_memory_words(advices@, self.key.shape.num_evals),
                keccak == transcript_memory_words(advices@.take(j as int), self.key.shape.num_evals),
            decreases advices.len() - j,
        {
            proof {
                lemma_transcript_memory_prefix(advices@, self.key.shape.num_evals, j + 1);
                assert(advices@.take(j + 1).drop_last() =~= advices@.take(j as int));
            }
            let n = advices[j] * 2 + 1;
            if n > keccak {
                keccak = n;
            }
            j += 1;
        }
        assert(advices@.take(advices.len() as int) =~= advices@);
        let mut words = keccak;
        if pcs_computation > words {
            words = pcs_computation;
        }
        if 12 > words {
            words = 12;
        }
        let fsm = words * 0x20;
        match quotient_eval_usage {
            Some(u) => if u > fsm {
                u
            } else {
                fsm
            },
            None => fsm,
        }
    }

    /// Stores the packed advice/challenge counts in the artifact constants: word `i` becomes
    /// the value of the first constant named `NumAdvicesUserChallenges(i)`.
    pub fn set_num_advices_user_challenges(&self, constants: &mut Constants)
        requires
            challenge_data_packable(
                self.key_data().shape.num_advices@,
                self.key_data().shape.num_challenges@,
            ),
            entry_words_len(
                num_phases(self.key_data().shape.num_advices@, self.key_data().shape.num_challenges@),
            ) <= NUM_ADVICES_USER_CHALLENGES_SLOTS,
        ensures
            names_of(final(constants)@) == names_of(old(constants)@),
            exists|words: Seq<Word256>|
                is_challenge_data(self, words) && #[trigger] with_advices_user_challenges(old(constants)@, words)
                    == final(constants)@,
    {
        let words = self.generate_challenge_data();
        set_advices_user_challenges(constants, &words);
    }

    /// The reusable verifier: the scheme, and for each artifact constant in order its memory
    /// offset `160 + 32 * index`.
    pub fn generate_separate_verifier(&self) -> (v: Halo2VerifierReusable)
        requires
            advices_capacity(self.key_data().shape.num_advices.len() as nat)
                <= NUM_ADVICES_USER_CHALLENGES_SLOTS,
        ensures
            is_separate_verifier(v, self.scheme_of(), self.key_data().shape.num_advices.len() as nat),
    {
        let dummies = self.dummy_vka_constants();
        let ghost names = names_of(dummies@);
        assert(names.len() == dummies.len());
        assert(artifact_names(self.key_data().shape.num_advices.len() as nat).len() <= 42);
        assert(dummies.len() <= 42);
        let mut offsets: Constants = Vec::new();
        let mut i: usize = 0;
        while i < dummies.len()
            invariant
                i <= dummies.len() <= 42,
                names == names_of(dummies@),
                names_of(offsets@) == names.take(i as int),
                forall|j: int|
                    0 <= j < offsets.len() ==> (#[trigger] offsets@[j]).1.value() == 160 + 32 * j,
            decreases dummies.len() - i,
        {
            let (name, _) = dummies[i];
            let ghost pre = offsets@;
            offsets.push((name, Word256::from_u64((160 + i * 32) as u64)));
            assert(names_of(offsets@) =~= names_of(pre).push(name));
            assert(names.take(i + 1) =~= names.take(i as int).push(name));
            i += 1;
        }
        assert(names.take(dummies.len() as int) =~= names);
        Halo2VerifierReusable { scheme: self.scheme, vk_const_offsets: offsets }
    }
}

/// The texts of a list of strings.
pub open spec fn texts(lines: Seq<String>) -> Seq<Seq<char>> {
    lines.map_values(|l: String| l@)
}

/// The Yul statement that folds computation `idx`, whose result is in variable `var`, into
/// the quotient evaluation numerator: the first sets it, each further one multiplies the
/// running value by `y` and adds its own (both modulo `r`).
pub open spec fn numer_line(idx: int, var: Seq<char>) -> Seq<char> {
    if idx == 0 {
        "quotient_eval_numer := "@ + var
    } else {
        "quotient_eval_numer := addmod(mulmod(quotient_eval_numer, y, r), "@ + var + ", r)"@
    }
}

/// The quotient evaluation numerator computations: each computation's lines (gates, then
/// permutation, then lookups, as given) followed by the statement that folds its result
/// variable into the numerator.
pub fn quotient_eval_numer_computations(computations: Vec<(Vec<String>, String)>) -> (res: Vec<
    Vec<String>,
>)
    ensures
        res.len() == computations.len(),
        forall|i: int|
            0 <= i < res.len() ==> texts((#[trigger] res@[i])@) == texts(computations@[i].0@).push(
                numer_line(i, computations@[i].1@),
            ),
{
    let ghost orig = computations@;
    let total_len = computations.len();
    let mut res: Vec<Vec<String>> = Vec::new();
    let mut rest = computations;
    let mut idx: usize = 0;
    let ghost n = orig.len();
    assert(n == total_len);
    assert(rest@ =~= orig.subrange(0, n as int));
    while rest.len() > 0
        invariant
            idx + rest.len() == n,
            n == orig.len(),
            n <= usize::MAX,
            rest@ =~= orig.subrange(idx as int, n as int),
            res.len() == idx,
            forall|i: int|
                0 <= i < idx ==> texts((#[trigger] res@[i])@) == texts(orig[i].0@).push(
                    numer_line(i, orig[i].1@),
                ),
        decreases rest.len(),
    {
        let ghost before = rest@;
        let (mut lines, var) = rest.remove(0);
        assert(before[0] == orig[idx as int]);
        let ghost old_lines = lines@;
        let line = if idx == 0 {
            let mut l = String::from_str("quotient_eval_numer := ");
            l.append(var.as_str());
            l
        } else {
            let mut l = String::from_str("quotient_eval_numer := addmod(mulmod(quotient_eval_numer, y, r), ");
            l.append(var.as_str());
            l.append(", r)");
            l
        };
        assert(line@ == numer_line(idx as int, var@));
        lines.push(line);
        assert(texts(lines@) =~= texts(old_lines).push(line@));
        res.push(lines);
        idx += 1;
        assert(rest@ =~= orig.subrange(idx as int, n as int));
    }
    res
}

/// The sizes of the parts of a verifying artifact that decide where its parts begin: the
/// memory address of its first word, the key's length in bytes, and the number of words of
/// the constant expressions and of the computations of the gates, the permutation, the
/// lookups and the opening.
pub struct ArtifactParts {
    pub vk_mptr: usize,
    pub vk_len_bytes: usize,
    pub num_const_expressions: usize,
    pub gate_len: usize,
    pub permutation_len: usize,
    pub lookup_len: usize,
    pub pcs_len: usize,
}

/// The byte address where the computations of the gates begin: past the key and the
/// constant expressions.
pub open spec fn gate_offset(p: ArtifactParts) -> int {
    p.vk_mptr + p.vk_len_bytes + 0x20 * p.num_const_expressions
}

/// Where the permutation computations begin.
pub open spec fn permutation_offset(p: ArtifactParts) -> int {
    gate_offset(p) + 0x20 * p.gate_len
}

/// Where the lookup computations begin.
pub open spec fn lookup_offset(p: ArtifactParts) -> int {
    permutation_offset(p) + 0x20 * p.permutation_len
}

/// Where the opening computations begin.
pub open spec fn pcs_offset(p: ArtifactParts) -> int {
    lookup_offset(p) + 0x20 * p.lookup_len
}

/// Where the rescaling computations begin.
pub open spec fn rescaling_offset(p: ArtifactParts) -> int {
    pcs_offset(p) + 0x20 * p.pcs_len
}

/// The constants after recording where the artifact's parts begin and where the quotient
/// commitments lie in calldata (the first at byte `first_quotient_x`, `num_quotients` of
/// them, two slots each).
pub open spec fn with_artifact_offsets(
    constants: Seq<(ConstantName, Word256)>,
    p: ArtifactParts,
    first_quotient_x: usize,
    num_quotients: usize,
) -> Seq<(ConstantName, Word256)> {
    let c1 = with_value(constants, ConstantName::FirstQuotientXCptr, word_of(first_quotient_x as int));
    let c2 = with_value(
        c1,
        ConstantName::LastQuotientXCptr,
        word_of(first_quotient_x + 0x40 * (num_quotients - 1)),
    );
    let c3 = with_value(c2, ConstantName::GateComputationsLenOffset, word_of(gate_offset(p)));
    let c4 = with_value(c3, ConstantName::PermutationComputationsLenOffset, word_of(permutation_offset(p)));
    let c5 = with_value(c4, ConstantName::LookupComputationsLenOffset, word_of(lookup_offset(p)));
    let c6 = with_value(c5, ConstantName::PcsComputationsLenOffset, word_of(pcs_offset(p)));
    with_value(c6, ConstantName::RescalingComputationsLenOffset, word_of(rescaling_offset(p)))
}

/// The word holding a number below `2^64`.
pub open spec fn word_of(v: int) -> Word256 {
    Word256 { limb0: v as u64, limb1: 0, limb2: 0, limb3: 0 }
}

/// The word holding a byte address.
fn address_word(a: usize) -> (w: Word256)
    ensures
        w == word_of(a as int),
{
    Word256 { limb0: a as u64, limb1: 0, limb2: 0, limb3: 0 }
}

/// Records in the artifact's constants where its parts begin and where the quotient
/// commitments lie in calldata.
pub fn set_artifact_offsets(
    constants: &mut Constants,
    p: &ArtifactParts,
    first_quotient_x: usize,
    num_quotients: usize,
)
    requires
        num_quotients >= 1,
        first_quotient_x + 0x40 * (num_quotients - 1) <= usize::MAX,
        rescaling_offset(*p) <= usize::MAX,
    ensures
        final(constants)@ == with_artifact_offsets(old(constants)@, *p, first_quotient_x, num_quotients),
        names_of(final(constants)@) == names_of(old(constants)@),
{
    let gate = p.vk_mptr + p.vk_len_bytes + 0x20 * p.num_const_expressions;
    let permutation = gate + 0x20 * p.gate_len;
    let lookup = permutation + 0x20 * p.permutation_len;
    let pcs = lookup + 0x20 * p.lookup_len;
    let rescaling = pcs + 0x20 * p.pcs_len;
    let last = first_quotient_x + 0x40 * (num_quotients - 1);
    set_constant_value(constants, ConstantName::FirstQuotientXCptr, address_word(first_quotient_x));
    set_constant_value(constants, ConstantName::LastQuotientXCptr, address_word(last));
    set_constant_value(constants, ConstantName::GateComputationsLenOffset, address_word(gate));
    set_constant_value(constants, ConstantName::PermutationComputationsLenOffset, address_word(permutation));
    set_constant_value(constants, ConstantName::LookupComputationsLenOffset, address_word(lookup));
    set_constant_value(constants, ConstantName::PcsComputationsLenOffset, address_word(pcs));
    set_constant_value(constants, ConstantName::RescalingComputationsLenOffset, address_word(rescaling));
}

/// Whether `v` is the reusable verifier for the scheme and `num_phases` phases: that scheme,
/// and for each artifact constant in order its memory offset `160 + 32 * index`.
pub open spec fn is_separate_verifier(v: Halo2VerifierReusable, scheme: BatchOpenScheme, num_phases: nat) -> bool {
    &&& v.scheme == scheme
    &&& names_of(v.vk_const_offsets@) == artifact_names(num_phases)
    &&& forall|i: int|
        0 <= i < v.vk_const_offsets.len() ==> (#[trigger] v.vk_const_offsets@[i]).1.value() == 160 + 32
            * i
}

/// The reusable verifier depends only on the scheme and the number of phases: two generators
/// that agree on these give verifiers with the same scheme, the same constants in the same
/// order and the same offsets, whatever their keys and instance layouts.
pub proof fn lemma_separate_verifier_depends_on_phases(
    v1: Halo2VerifierReusable,
    v2: Halo2VerifierReusable,
    scheme: BatchOpenScheme,
    num_phases: nat,
)
    requires
        is_separate_verifier(v1, scheme, num_phases),
        is_separate_verifier(v2, scheme, num_phases),
    ensures
        v1.scheme == v2.scheme,
        names_of(v1.vk_const_offsets@) == names_of(v2.vk_const_offsets@),
        v1.vk_const_offsets.len() == v2.vk_const_offsets.len(),
        forall|i: int|
            0 <= i < v1.vk_const_offsets.len() ==> (#[trigger] v1.vk_const_offsets@[i]).1.value()
                == v2.vk_const_offsets@[i].1.value(),
{
    assert(names_of(v1.vk_const_offsets@).len() == v1.vk_const_offsets.len());
    assert(names_of(v2.vk_const_offsets@).len() == v2.vk_const_offsets.len());
}

/// Whether `constants` are the key's constants (`reusable == false`) or the head of the
/// artifact's (`reusable == true`): the names in order, each with the value the key gives
/// it, the others 0.
pub open spec fn is_vk_constants(g: &SolidityGenerator, constants: Seq<(ConstantName, Word256)>, reusable: bool) -> bool {
    &&& names_of(constants) == if reusable {
        artifact_names(g.key_data().shape.num_advices.len() as nat)
    } else {
        key_names()
    }
    &&& forall|i: int|
        0 <= i < constants.len() ==> (#[trigger] constants[i]).1.value() == match vk_constant_value(
            g.key_data(),
            g.instances(),
            g.hash_count_of(),
            g.acc_encoding_of(),
            constants[i].0,
        ) {
            Some(v) => v,
            None => 0,
        }
}

/// Whether `words` are the packed per-phase advice and challenge counts of the circuit.
pub open spec fn is_challenge_data(g: &SolidityGenerator, words: Seq<Word256>) -> bool {
    &&& words.len() == entry_words_len(
        num_phases(g.key_data().shape.num_advices@, g.key_data().shape.num_challenges@),
    )
    &&& holds(words, challenge_layout(g.key_data().shape.num_advices@, g.key_data().shape.num_challenges@))
}

} // verus!
