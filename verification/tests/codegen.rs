use halo2_solidity_verifier::{
    decode_hex_word, dummy_vk_constants, dummy_vka_constants, hex, hex_padded,
    pack_challenge_data, pack_rescaling_data, rotation_sets, set_advices_user_challenges,
    set_constant_value, vk_transcript_digest, vka_words_from_artifact, AccumulatorEncoding,
    set_artifact_offsets, ArtifactParts, BatchOpenScheme, CircuitShape, ConstantName, KeyData,
    PcsDataEncoded, Query,
    SolidityGenerator, Word256,
};
use halo2_solidity_verifier::bdfg21::{
    bdfg21_computations_dynamic, coeff_computations, coeff_sums_computation,
    normalized_coeff_computations, pcs_data_encoded, point_computations, r_eval_computations,
    vanishing_computations,
};
use halo2_solidity_verifier::evals::r_evals_computations;
use halo2_solidity_verifier::location::{EcPoint, Location, Ptr, Value};
use halo2_solidity_verifier::pairing::pairing_input_computations;
use halo2_solidity_verifier::generator::quotient_eval_numer_computations;
use halo2_solidity_verifier::transcript::vk_transcript_repr;
use halo2_solidity_verifier::artifact::{ArtifactInputs, ProofLayout};
use halo2_solidity_verifier::static_pcs::bdfg21_computations_static;
use halo2_solidity_verifier::yul::{Line, Piece};
use halo2_solidity_verifier::queries::{queries, CircuitMeta, DataLayout};
use halo2_solidity_verifier::vka::decode_vka_captures;
use ruint::aliases::{U256, U512};

fn word(limbs: [u64; 4]) -> Word256 {
    Word256 { limb0: limbs[0], limb1: limbs[1], limb2: limbs[2], limb3: limbs[3] }
}

/// The word with each value shifted left by its number of bits, or-ed together.
fn fields(parts: &[(u64, u32)]) -> Word256 {
    let mut l = [0u64; 4];
    for &(v, sh) in parts {
        let idx = (sh / 64) as usize;
        let off = sh % 64;
        l[idx] |= v << off;
        if off > 0 && idx + 1 < 4 {
            l[idx + 1] |= v >> (64 - off);
        }
    }
    word(l)
}

/// A commitment whose coordinates lie at `x` and `x + 0x20` of calldata.
fn comm(x: usize) -> EcPoint {
    EcPoint { x: Ptr::calldata(x), y: Ptr::calldata(x + 0x20) }
}

/// An evaluation at byte `at` of calldata.
fn ev(at: usize) -> Ptr {
    Ptr::calldata(at)
}

/// The order of BN254's scalar field.
fn fr_order() -> U256 {
    U256::from_str_radix("30644e72e131a029b85045b68181585d2833e84879b9709143e1f593f0000001", 16)
        .unwrap()
}

fn limbs(w: &Word256) -> [u64; 4] {
    [w.limb0, w.limb1, w.limb2, w.limb3]
}

#[test]
fn accumulator_encoding_new_keeps_fields() {
    let enc = AccumulatorEncoding::new(4, 3, 88);
    assert_eq!(enc.offset, 4);
    assert_eq!(enc.num_limbs, 3);
    assert_eq!(enc.num_limb_bits, 88);
}

#[test]
fn hex_pads_odd_digit_counts() {
    assert_eq!(hex(&Word256::from_u64(0)), "0x00");
    assert_eq!(hex(&Word256::from_u64(0xf)), "0x0f");
    assert_eq!(hex(&Word256::from_u64(0xff)), "0xff");
    assert_eq!(hex(&Word256::from_u64(0x100)), "0x0100");
    assert_eq!(hex(&Word256::from_u64(0x1234)), "0x1234");
    assert_eq!(hex(&Word256::from_u64(0xa0)), "0xa0");
}

#[test]
fn hex_of_wide_words() {
    assert_eq!(hex(&word([0, 1, 0, 0])), "0x010000000000000000");
    assert_eq!(
        hex(&word([u64::MAX, u64::MAX, u64::MAX, u64::MAX])),
        format!("0x{}", "f".repeat(64))
    );
    assert_eq!(
        hex(&word([0x1122334455667788, 0, 0, 0x0a00000000000000])),
        format!("0x0a{}1122334455667788", "0".repeat(46))
    );
}

#[test]
fn hex_padded_fills_to_width() {
    assert_eq!(hex_padded(&Word256::from_u64(0x1f), 4), "0x001f");
    assert_eq!(hex_padded(&Word256::from_u64(0x12345), 2), "0x12345");
    assert_eq!(hex_padded(&Word256::from_u64(0), 4), "0x0000");
    assert_eq!(hex_padded(&Word256::from_u64(0), 1), "0x0");
    assert_eq!(hex_padded(&Word256::from_u64(0), 0), "0x");
    assert_eq!(
        hex_padded(&Word256::from_u64(0xab), 64),
        format!("0x{}ab", "0".repeat(62))
    );
}

#[test]
fn or_shl_crosses_limbs_and_drops_high_bits() {
    let mut w = Word256::zero();
    w.or_shl(0xffff, 56);
    assert_eq!(limbs(&w), [0xff00_0000_0000_0000, 0xff, 0, 0]);
    let mut w = Word256::zero();
    w.or_shl(0xffff, 248);
    assert_eq!(limbs(&w), [0, 0, 0, 0xff00_0000_0000_0000]);
    let mut w = Word256::zero();
    w.or_shl(0xffff, 256);
    assert_eq!(limbs(&w), [0, 0, 0, 0]);
    let mut w = Word256::from_u64(0b101);
    w.or_shl(0b11, 1);
    assert_eq!(limbs(&w), [0b111, 0, 0, 0]);
}

#[test]
fn div_rem16_splits_lowest_digit() {
    let w = word([0x1234_5678_9abc_def1, 0x2, 0, 0x30]);
    let (q, r) = w.div_rem16();
    assert_eq!(r, 1);
    assert_eq!(limbs(&q), [0x2123_4567_89ab_cdef, 0, 0, 0x3]);
}

#[test]
fn challenge_data_packs_phases_after_header() {
    let words = pack_challenge_data(&[1, 2], &[3, 4, 9]);
    assert_eq!(words.len(), 1);
    let expected: u64 = 1 | (0x40 << 8) | (3 << 24) | (0x80 << 32) | (4 << 48);
    assert_eq!(limbs(&words[0]), [expected, 0, 0, 0]);
}

#[test]
fn challenge_data_starts_a_new_word_after_ten_phases() {
    let advices = [1usize; 11];
    let challenges = [2usize; 11];
    let words = pack_challenge_data(&advices, &challenges);
    assert_eq!(words.len(), 2);
    // The eleventh phase opens the second word at bit 0.
    assert_eq!(limbs(&words[1]), [0x40 | (2 << 16), 0, 0, 0]);
    // The header holds the number of words.
    assert_eq!(words[0].limb0 & 0xff, 2);
    // The tenth phase sits at bit 8 + 9 * 24 = 224.
    assert_eq!(words[0].limb3 >> 32, 0x40 | (2 << 16));
}

#[test]
fn rescaling_data_packs_header_and_groups() {
    let words = pack_rescaling_data(&[7, 9], &[2, 3], 18, 1);
    assert_eq!(words.len(), 1);
    // Groups at bits 24 and 48: 16 bits of instance count times 0x20, then 8 bits of scale.
    let expected: u64 = 1 | (18 << 8) | (0x20 << 16) | (0x40 << 24) | (7 << 40) | (0x60 << 48);
    assert_eq!(limbs(&words[0]), [expected, 9, 0, 0]);
}

#[test]
fn rescaling_data_fits_nine_groups_in_the_first_word() {
    let scales = [1i32; 10];
    let instances = [1usize; 10];
    let words = pack_rescaling_data(&scales, &instances, 0, 0);
    assert_eq!(words.len(), 2);
    assert_eq!(words[0].limb0 & 0xff, 2);
    assert_eq!(limbs(&words[1]), [0x20 | (1 << 16), 0, 0, 0]);
}

#[test]
fn dummy_constants_lists() {
    let vk = dummy_vk_constants();
    assert_eq!(vk.len(), 21);
    assert_eq!(vk[0].0, ConstantName::VkDigest);
    assert_eq!(vk[20].0, ConstantName::NegSG2Y2);
    assert!(vk.iter().all(|(_, v)| limbs(v) == [0, 0, 0, 0]));
    assert_eq!(dummy_vka_constants(0).len(), 32);
    assert_eq!(dummy_vka_constants(10).len(), 33);
    let vka = dummy_vka_constants(15);
    assert_eq!(vka.len(), 34);
    assert_eq!(vka[32].0, ConstantName::NumAdvicesUserChallenges(0));
    assert_eq!(vka[33].0, ConstantName::NumAdvicesUserChallenges(1));
    assert_eq!(vka[31].0.label(), "num_neg_lagranges");
    assert_eq!(vka[33].0.label(), "num_advices_user_challenges_1");
}

#[test]
fn set_constant_value_changes_the_first_match_only() {
    let mut constants = vec![
        (ConstantName::Fsm, Word256::from_u64(1)),
        (ConstantName::K, Word256::from_u64(2)),
        (ConstantName::Fsm, Word256::from_u64(3)),
    ];
    set_constant_value(&mut constants, ConstantName::Fsm, Word256::from_u64(9));
    assert_eq!(constants[0].1, Word256::from_u64(9));
    assert_eq!(constants[2].1, Word256::from_u64(3));
    set_constant_value(&mut constants, ConstantName::Omega, Word256::from_u64(7));
    assert_eq!(constants.len(), 3);
    assert_eq!(constants[1].1, Word256::from_u64(2));
}

#[test]
fn advices_user_challenges_fill_their_slots() {
    let mut constants = dummy_vka_constants(15);
    let words = vec![Word256::from_u64(5), Word256::from_u64(6)];
    set_advices_user_challenges(&mut constants, &words);
    assert_eq!(constants[32].1, Word256::from_u64(5));
    assert_eq!(constants[33].1, Word256::from_u64(6));
    assert_eq!(constants[0].1, Word256::zero());
}

#[test]
fn rotation_sets_group_commitments_by_rotations() {
    let queries = vec![
        Query::new(comm(0x40), 0, ev(0x100)),
        Query::new(comm(0x40), 1, ev(0x120)),
        Query::new(comm(0x80), 0, ev(0x200)),
        Query::new(comm(0xc0), 1, ev(0x320)),
        Query::new(comm(0xc0), 0, ev(0x300)),
        Query::new(comm(0x100), -1, ev(0x400)),
    ];
    let (superset, sets) = rotation_sets(&queries);
    assert_eq!(superset, vec![-1, 0, 1]);
    assert_eq!(sets.len(), 3);
    assert_eq!(sets[0].rots(), &vec![0, 1]);
    assert_eq!(sets[0].diffs(), &vec![-1]);
    assert_eq!(sets[0].comms(), &vec![comm(0x40), comm(0xc0)]);
    assert_eq!(sets[0].evals(), &vec![vec![ev(0x100), ev(0x120)], vec![ev(0x300), ev(0x320)]]);
    assert_eq!(sets[1].rots(), &vec![0]);
    assert_eq!(sets[1].diffs(), &vec![-1, 1]);
    assert_eq!(sets[1].comms(), &vec![comm(0x80)]);
    assert_eq!(sets[2].rots(), &vec![-1]);
    assert_eq!(sets[2].diffs(), &vec![0, 1]);
    assert_eq!(sets[2].evals(), &vec![vec![ev(0x400)]]);
}

#[test]
fn rotation_sets_of_no_queries() {
    let (superset, sets) = rotation_sets(&[]);
    assert!(superset.is_empty());
    assert!(sets.is_empty());
}

#[test]
fn pcs_data_len_counts_all_parts() {
    let z = Word256::zero();
    let data = PcsDataEncoded {
        point_computations: vec![z; 2],
        vanishing_computations: vec![z; 3],
        coeff_computations: vec![z; 1],
        normalized_coeff_computations: z,
        r_evals_computations: vec![z; 4],
        coeff_sums_computation: vec![z; 1],
        r_eval_computations: z,
        pairing_input_computations: vec![z; 5],
    };
    assert_eq!(data.len(), 18);
}

#[test]
fn vka_words_are_read_back_from_mstores() {
    let a = "00".repeat(31) + "2a";
    let b = "ABCDEF0123456789".repeat(4);
    let text = format!(
        "mstore(0x00, 0x{a}) // first\nnothing here\n  mstore(0x20,   0x{b})\nmstore(0x40, 0x12)\n"
    );
    let words = vka_words_from_artifact(&text).unwrap();
    assert_eq!(words.len(), 2);
    let mut first = [0u8; 32];
    first[31] = 0x2a;
    assert_eq!(words[0], first);
    assert_eq!(&words[1][..8], &[0xab, 0xcd, 0xef, 0x01, 0x23, 0x45, 0x67, 0x89]);
    assert_eq!(vka_words_from_artifact("no stores").unwrap().len(), 0);
}

#[test]
fn decode_hex_word_reads_big_endian_bytes() {
    let s = format!("{}{}", "0f".repeat(16), "F0".repeat(16));
    let w = decode_hex_word(&s);
    assert_eq!(w[0], 0x0f);
    assert_eq!(w[31], 0xf0);
}

#[test]
fn vk_transcript_digest_hashes_length_prefixed_repr() {
    let repr = "PinnedVerificationKey { k: 4 }";
    let digest = vk_transcript_digest(repr);
    let mut state = blake2b_simd::Params::new()
        .hash_length(64)
        .personal(b"Halo2-Verify-Key")
        .to_state();
    state.update(&(repr.len() as u64).to_le_bytes()).update(repr.as_bytes());
    assert_eq!(digest, state.finalize().as_bytes().to_vec());
    assert_ne!(digest, vk_transcript_digest("PinnedVerificationKey { k: 5 }"));
}

fn key_data(num_advices: Vec<usize>, num_challenges: Vec<usize>) -> KeyData {
    KeyData {
        shape: CircuitShape {
            num_advice_columns: num_advices.iter().sum(),
            num_instance_columns: 1,
            instance_query_rotations: vec![0],
            num_advices,
            num_challenges,
            num_challenge_indices: 2,
            num_evals: 30,
            rotation_last: -6,
            num_quotients: 3,
        },
        pinned_repr: String::from("PinnedVerificationKey { k: 10 }"),
        k: 10,
        omega: Word256::from_u64(0x22),
        omega_inv: Word256::from_u64(0x33),
        g1: (Word256::from_u64(1), Word256::from_u64(2)),
        g2: (Word256::from_u64(3), Word256::from_u64(4), Word256::from_u64(5), Word256::from_u64(6)),
        neg_s_g2: (Word256::from_u64(7), Word256::from_u64(8), Word256::from_u64(9), Word256::from_u64(10)),
        fixed_comms: vec![(Word256::from_u64(100), Word256::from_u64(101))],
        permutation_comms: vec![
            (Word256::from_u64(200), Word256::from_u64(201)),
            (Word256::from_u64(202), Word256::from_u64(203)),
        ],
    }
}

fn value_of(constants: &[(ConstantName, Word256)], name: ConstantName) -> Word256 {
    constants.iter().find(|(n, _)| *n == name).unwrap().1
}

#[test]
fn generate_vk_fills_key_constants() {
    let g = SolidityGenerator::new(
        key_data(vec![3, 1], vec![0, 1]),
        BatchOpenScheme::Bdfg21,
        &[2, 5],
        &[4, 4],
        18,
        2,
    );
    let vk = g.generate_vk(false);
    assert_eq!(vk.constants.len(), 21);
    assert_eq!(value_of(&vk.constants, ConstantName::NumInstances), Word256::from_u64(9));
    assert_eq!(value_of(&vk.constants, ConstantName::K), Word256::from_u64(10));
    assert_eq!(value_of(&vk.constants, ConstantName::HasAccumulator), Word256::zero());
    assert_eq!(value_of(&vk.constants, ConstantName::G2Y2), Word256::from_u64(6));
    assert_eq!(vk.len(false), 21 + 3 * 2);
    assert_eq!(vk.len(true), (21 + 3 * 2) * 0x20);
    // The field constants, computed independently with `ruint`.
    let r = fr_order();
    let n_inv = U256::from(1u64 << 10).inv_mod(r).unwrap();
    assert_eq!(limbs(&value_of(&vk.constants, ConstantName::NInv)), *n_inv.as_limbs());
    let omega_inv_to_l = U256::from(0x33u64).pow_mod(U256::from(6u64), r);
    assert_eq!(limbs(&value_of(&vk.constants, ConstantName::OmegaInvToL)), *omega_inv_to_l.as_limbs());
    assert_eq!(
        value_of(&vk.constants, ConstantName::VkDigest),
        vk_transcript_repr("PinnedVerificationKey { k: 10 }")
    );
    assert_eq!(value_of(&vk.constants, ConstantName::Omega), Word256::from_u64(0x22));

    let g = g.set_acc_encoding(Some(AccumulatorEncoding::new(4, 3, 88)));
    let vka = g.generate_vk(true);
    assert_eq!(vka.constants.len(), 33);
    assert_eq!(value_of(&vka.constants, ConstantName::HasAccumulator), Word256::from_u64(1));
    assert_eq!(value_of(&vka.constants, ConstantName::AccOffset), Word256::from_u64(4));
    assert_eq!(value_of(&vka.constants, ConstantName::NumAccLimbBits), Word256::from_u64(88));
    assert_eq!(value_of(&vka.constants, ConstantName::ChallengesOffset), Word256::from_u64(64));
    assert_eq!(value_of(&vka.constants, ConstantName::NumEvals), Word256::from_u64(30));
    assert_eq!(value_of(&vka.constants, ConstantName::NumNegLagranges), Word256::from_u64(6));
    assert_eq!(value_of(&vka.constants, ConstantName::Fsm), Word256::zero());
}

#[test]
fn generator_packs_its_own_data() {
    let g = SolidityGenerator::new(
        key_data(vec![3, 1], vec![0, 1]),
        BatchOpenScheme::Bdfg21,
        &[2, 5],
        &[4, 4],
        18,
        2,
    );
    let challenges = g.generate_challenge_data();
    assert_eq!(challenges, pack_challenge_data(&[3, 1], &[0, 1]));
    let rescaling = g.generate_rescaling_data();
    assert_eq!(rescaling, pack_rescaling_data(&[4, 4], &[2, 5], 18, 2));
    let mut constants = g.dummy_vka_constants();
    g.set_num_advices_user_challenges(&mut constants);
    assert_eq!(value_of(&constants, ConstantName::NumAdvicesUserChallenges(0)), challenges[0]);
}

#[test]
fn separate_verifier_offsets_are_consecutive_slots() {
    let g = SolidityGenerator::new(
        key_data(vec![1; 12], vec![0; 12]),
        BatchOpenScheme::Bdfg21,
        &[1],
        &[0],
        0,
        0,
    );
    let v = g.generate_separate_verifier();
    assert_eq!(v.scheme, BatchOpenScheme::Bdfg21);
    assert_eq!(v.vk_const_offsets.len(), 34);
    assert_eq!(v.vk_const_offsets[0], (ConstantName::VkDigest, Word256::from_u64(160)));
    assert_eq!(v.vk_const_offsets[1], (ConstantName::Fsm, Word256::from_u64(192)));
    assert_eq!(
        v.vk_const_offsets[33],
        (ConstantName::NumAdvicesUserChallenges(1), Word256::from_u64(160 + 33 * 32))
    );
}

#[test]
fn static_working_memory_covers_each_need() {
    let g = SolidityGenerator::new(
        key_data(vec![3, 1], vec![0, 1]),
        BatchOpenScheme::Bdfg21,
        &[2],
        &[4],
        18,
        0,
    );
    let queries = vec![
        Query::new(comm(0x40), 0, ev(0x100)),
        Query::new(comm(0x40), 1, ev(0x120)),
        Query::new(comm(0x80), 0, ev(0x200)),
    ];
    let (superset, sets) = rotation_sets(&queries);
    // pcs: 2 * (1 + 3) + 6 + 2 * 2 + 1 + 3 * 2 = 25 words; transcript: 31 words.
    assert_eq!(g.estimate_static_working_memory_size(&superset, &sets, None), 31 * 0x20);
    assert_eq!(g.estimate_static_working_memory_size(&superset, &sets, Some(0x1000)), 0x1000);
    assert_eq!(g.estimate_static_working_memory_size(&superset, &sets, Some(0x10)), 31 * 0x20);
}

/// The queries of a small circuit: an advice and a permutation commitment opened at 0 and 1;
/// a fixed commitment in memory, the quotient (known by name) and the random commitment
/// opened at 0, the quotient's evaluation being computed in memory.
fn sample_queries() -> Vec<Query> {
    let advice = comm(0x80);
    let perm_z = comm(0xc0);
    let fixed = EcPoint { x: Ptr::memory(0x600), y: Ptr::memory(0x620) };
    let quotient = EcPoint {
        x: Ptr { loc: Location::Memory, value: Value::Identifier(1) },
        y: Ptr { loc: Location::Memory, value: Value::Identifier(2) },
    };
    let random = comm(0x100);
    vec![
        Query::new(advice, 0, ev(0x300)),
        Query::new(advice, 1, ev(0x320)),
        Query::new(perm_z, 0, ev(0x340)),
        Query::new(perm_z, 1, ev(0x360)),
        Query::new(fixed, 0, ev(0x380)),
        Query::new(quotient, 0, Ptr::memory(0x2000)),
        Query::new(random, 0, ev(0x3a0)),
    ]
}

#[test]
fn bdfg21_point_computations_of_sample() {
    let (superset, sets) = rotation_sets(&sample_queries());
    assert_eq!(superset, vec![0, 1]);
    // Points lie from slot 14: rotation 0 at 0x1c0, rotation 1 at 0x1e0.
    let words = point_computations(&superset, &sets);
    assert_eq!(words, vec![fields(&[(1, 0), (0x1e0, 8)]), fields(&[(0x1c0, 0)])]);
}

#[test]
fn bdfg21_point_computations_with_negative_rotation() {
    let queries = vec![
        Query::new(comm(0x80), 0, ev(0x300)),
        Query::new(comm(0x80), -2, ev(0x320)),
        Query::new(comm(0xc0), 0, ev(0x340)),
    ];
    let (superset, sets) = rotation_sets(&queries);
    assert_eq!(superset, vec![-2, 0]);
    // Three coefficients: the free slot is 2 * 4 + 6 = 14, so rotation -2 is at 0x1c0 and
    // rotation 0 at 0x1e0; rotation -1 has no point.
    let words = point_computations(&superset, &sets);
    assert_eq!(
        words,
        vec![fields(&[(0, 0)]), fields(&[(0x1e0, 0), (2, 16), (0, 24), (0x1c0, 40)])]
    );
}

#[test]
fn bdfg21_vanishing_computations_of_sample() {
    let (superset, sets) = rotation_sets(&sample_queries());
    let words = vanishing_computations(&superset, &sets);
    assert_eq!(
        words,
        vec![
            fields(&[(0x200, 0), (0x240, 16), (0x1c0, 32), (1, 48), (0x200, 56), (0x220, 72)]),
            fields(&[(0x240, 0), (2, 16)]),
            fields(&[(0x20, 0)]),
            fields(&[(0x220, 0)]),
        ]
    );
}

#[test]
fn bdfg21_coeff_computations_of_sample() {
    let (superset, sets) = rotation_sets(&sample_queries());
    let words = coeff_computations(&superset, &sets);
    assert_eq!(
        words,
        vec![
            fields(&[(1, 0), (2, 8), (1, 16)]),
            fields(&[(0x1c0, 0), (0x1e0, 16), (0x200, 32), (0x220, 48), (0x20, 64), (0x40, 80)]),
            fields(&[(0x200, 0), (0x60, 16)]),
        ]
    );
}

#[test]
fn bdfg21_single_words_of_sample() {
    let (superset, sets) = rotation_sets(&sample_queries());
    assert_eq!(
        normalized_coeff_computations(&superset, &sets),
        fields(&[(0x80, 0), (0x260, 16), (64, 32)])
    );
    assert_eq!(
        r_eval_computations(&superset, &sets),
        fields(&[(0x40, 0), (0x2e0, 16), (0x2c0, 32)])
    );
}

#[test]
fn bdfg21_coeff_sums_of_sample() {
    let (superset, sets) = rotation_sets(&sample_queries());
    assert_eq!(
        coeff_sums_computation(&superset, &sets),
        vec![fields(&[(1, 0), (64, 8), (0x2e0, 16), (32, 32), (0x300, 40)])]
    );
}

#[test]
fn bdfg21_r_evals_of_sample() {
    let (superset, sets) = rotation_sets(&sample_queries());
    assert_eq!(
        r_evals_computations(&superset, &sets),
        vec![
            fields(&[(1, 0), (0x280, 8), (0x2a0, 24), (64, 40), (32, 48)]),
            fields(&[(1, 0), (0x340, 8), (0x360, 24), (0x300, 40), (0x320, 56)]),
            fields(&[(1, 0), (0x3a0, 8), (1, 24), (0x380, 32)]),
        ]
    );
}

#[test]
fn bdfg21_pairing_input_of_sample() {
    let (superset, sets) = rotation_sets(&sample_queries());
    assert_eq!(
        pairing_input_computations(&superset, &sets, 0x400),
        vec![
            fields(&[
                (1, 0),
                (0x280, 8),
                (0x400, 24),
                (0x420, 40),
                (0x240, 56),
                (0x440, 72),
                (0x460, 88),
                (32, 104),
                (32, 112),
            ]),
            fields(&[(0xc0, 0), (0xe0, 16), (1, 32), (1, 40), (0x80, 48), (0xa0, 64)]),
            fields(&[(0x100, 0), (0x120, 16), (2, 32), (1, 40), (0, 48), (1, 56), (0x600, 64), (0x620, 80)]),
        ]
    );
}

#[test]
fn bdfg21_computations_dynamic_matches_parts() {
    let queries = sample_queries();
    let data = bdfg21_computations_dynamic(&queries, 0x400);
    let (superset, sets) = rotation_sets(&queries);
    let parts = pcs_data_encoded(&superset, &sets, 0x400);
    assert!(data == parts);
    assert_eq!(data.point_computations, point_computations(&superset, &sets));
    assert_eq!(data.pairing_input_computations.len(), 3);
    assert_eq!(data.len(), 2 + 4 + 3 + 1 + 3 + 1 + 1 + 3);
}

/// The `width` bits of word `k` from bit `offset` on, read as a number.
fn read_field(words: &[Word256], k: usize, offset: u32, width: u32) -> u64 {
    let l = limbs(&words[k]);
    let mut v: u64 = 0;
    for j in 0..width {
        let b = offset + j;
        let bit = (l[(b / 64) as usize] >> (b % 64)) & 1;
        v |= bit << j;
    }
    v
}

#[test]
fn greedy_packing_reads_back_across_words() {
    let queries = vec![Query::new(comm(0x80), 0, ev(0x300)), Query::new(comm(0x80), 20, ev(0x320))];
    let (superset, sets) = rotation_sets(&queries);
    assert_eq!(superset, vec![0, 20]);
    let words = point_computations(&superset, &sets);
    // Two coefficients: the free slot is 12, so rotation 0's point is at 0x180 and rotation
    // 20's at 0x1a0; fifteen 16-bit entries fit the first word after its count byte.
    assert_eq!(words.len(), 3);
    assert_eq!(read_field(&words, 0, 0, 8), 20);
    for i in 0..19u32 {
        let (k, off) = if i < 15 { (0, 8 + 16 * i) } else { (1, 16 * (i - 15)) };
        assert_eq!(read_field(&words, k, off, 16), 0);
    }
    assert_eq!(read_field(&words, 1, 64, 16), 0x1a0);
    assert_eq!(read_field(&words, 2, 0, 16), 0x180);
    assert_eq!(read_field(&words, 2, 16, 8), 0);
}

#[test]
fn bdfg21_layout_fits_working_memory() {
    let (superset, sets) = rotation_sets(&sample_queries());
    let g = SolidityGenerator::new(
        key_data(vec![1], vec![0]),
        BatchOpenScheme::Bdfg21,
        &[1],
        &[0],
        18,
        0,
    );
    // The layout takes 2 * (1 + 3) + 6 + 2 * 2 + 1 + 3 * 2 = 25 slots; the last coefficient
    // sum, at 0x300, ends there.
    let size = g.estimate_static_working_memory_size(&superset, &sets, None);
    assert_eq!(size, 31 * 0x20);
    let sums = coeff_sums_computation(&superset, &sets);
    assert_eq!(read_field(&sums, 0, 40, 16), 0x300);
    assert!(0x300 + 0x20 <= 25 * 0x20);
    assert!(25 * 0x20 <= size);
}

#[test]
fn vk_transcript_repr_reduces_digest_into_scalar_field() {
    let repr = "PinnedVerificationKey { k: 4 }";
    let digest = vk_transcript_digest(repr);
    let order = fr_order();
    let modulus = U512::from_limbs([
        order.as_limbs()[0],
        order.as_limbs()[1],
        order.as_limbs()[2],
        order.as_limbs()[3],
        0,
        0,
        0,
        0,
    ]);
    let reduced = U512::from_le_slice(&digest) % modulus;
    let limbs512 = reduced.as_limbs();
    let expected = U256::from_limbs([limbs512[0], limbs512[1], limbs512[2], limbs512[3]]);
    let fr = vk_transcript_repr(repr);
    assert_eq!(limbs(&fr), *expected.as_limbs());
    assert!(U512::from_limbs([fr.limb0, fr.limb1, fr.limb2, fr.limb3, 0, 0, 0, 0]) < modulus);
}

#[test]
fn artifact_offsets_follow_the_parts() {
    let mut constants = dummy_vka_constants(1);
    let parts = ArtifactParts {
        vk_mptr: 0xa0,
        vk_len_bytes: 0x400,
        num_const_expressions: 3,
        gate_len: 10,
        permutation_len: 4,
        lookup_len: 2,
        pcs_len: 18,
    };
    set_artifact_offsets(&mut constants, &parts, 0x200, 3);
    let v = |name| value_of(&constants, name);
    assert_eq!(v(ConstantName::FirstQuotientXCptr), Word256::from_u64(0x200));
    assert_eq!(v(ConstantName::LastQuotientXCptr), Word256::from_u64(0x280));
    assert_eq!(v(ConstantName::GateComputationsLenOffset), Word256::from_u64(0x500));
    assert_eq!(v(ConstantName::PermutationComputationsLenOffset), Word256::from_u64(0x640));
    assert_eq!(v(ConstantName::LookupComputationsLenOffset), Word256::from_u64(0x6c0));
    assert_eq!(v(ConstantName::PcsComputationsLenOffset), Word256::from_u64(0x700));
    assert_eq!(v(ConstantName::RescalingComputationsLenOffset), Word256::from_u64(0x940));
    assert_eq!(v(ConstantName::VkDigest), Word256::zero());
    assert_eq!(constants.len(), 33);
}

#[test]
fn quotient_eval_numer_folds_each_computation() {
    let computations = vec![
        (vec![String::from("let a := 1")], String::from("a")),
        (vec![String::from("let b := 2"), String::from("let c := b")], String::from("c")),
    ];
    let res = quotient_eval_numer_computations(computations);
    assert_eq!(
        res,
        vec![
            vec![String::from("let a := 1"), String::from("quotient_eval_numer := a")],
            vec![
                String::from("let b := 2"),
                String::from("let c := b"),
                String::from("quotient_eval_numer := addmod(mulmod(quotient_eval_numer, y, r), c, r)"),
            ],
        ]
    );
}

#[test]
fn padded_word_reads_back_through_decode() {
    let w = word([0x1122334455667788, 0x99aabbccddeeff00, 0x0102030405060708, 0x00f0e0d0c0b0a090]);
    let s = hex_padded(&w, 64);
    assert_eq!(s.len(), 66);
    assert!(s.starts_with("0x"));
    let bytes = decode_hex_word(&s[2..]);
    let mut expected = [0u8; 32];
    for (k, limb) in limbs(&w).iter().enumerate() {
        let be = limb.to_be_bytes();
        expected[(3 - k) * 8..(4 - k) * 8].copy_from_slice(&be);
    }
    assert_eq!(bytes, expected);
    let zero = hex_padded(&Word256::zero(), 64);
    assert_eq!(decode_hex_word(&zero[2..]), [0u8; 32]);
}

#[test]
fn plain_word_reads_back_in_sixteen_bit_steps() {
    let (superset, sets) = rotation_sets(&sample_queries());
    let w = r_eval_computations(&superset, &sets);
    let words = [w];
    assert_eq!(read_field(&words, 0, 0, 16), 0x40);
    assert_eq!(read_field(&words, 0, 16, 16), 0x2e0);
    assert_eq!(read_field(&words, 0, 32, 16), 0x2c0);
    assert_eq!(read_field(&words, 0, 48, 16), 0);
}

fn sample_layout() -> (CircuitMeta, DataLayout) {
    let meta = CircuitMeta {
        advice_queries: vec![(0, 0), (0, 1)],
        fixed_queries: vec![(0, 0)],
        permutation_columns: vec![0],
        rotation_last: -5,
    };
    let data = DataLayout {
        advice_comms: vec![comm(0x80)],
        advice_evals: vec![ev(0x300), ev(0x320)],
        fixed_comms: vec![EcPoint { x: Ptr::memory(0x600), y: Ptr::memory(0x620) }],
        fixed_evals: vec![ev(0x380)],
        permutation_comms: vec![EcPoint { x: Ptr::memory(0x640), y: Ptr::memory(0x660) }],
        permutation_evals: vec![ev(0x3c0)],
        permutation_z_comms: vec![comm(0xc0), comm(0x100)],
        permutation_z_evals: vec![(ev(0x400), ev(0x420), ev(0x440)), (ev(0x460), ev(0x480), ev(0x4a0))],
        lookup_permuted_comms: vec![(comm(0x140), comm(0x180))],
        lookup_z_comms: vec![comm(0x1c0)],
        lookup_evals: vec![(ev(0x4c0), ev(0x4e0), ev(0x500), ev(0x520), ev(0x540))],
        computed_quotient_comm: EcPoint {
            x: Ptr { loc: Location::Memory, value: Value::Identifier(1) },
            y: Ptr { loc: Location::Memory, value: Value::Identifier(2) },
        },
        computed_quotient_eval: Ptr::memory(0x2000),
        random_comm: comm(0x200),
        random_eval: ev(0x560),
    };
    (meta, data)
}

#[test]
fn queries_follow_the_argument_order() {
    let (meta, data) = sample_layout();
    let qs = queries(&meta, &data);
    let expected = vec![
        Query::new(comm(0x80), 0, ev(0x300)),
        Query::new(comm(0x80), 1, ev(0x320)),
        Query::new(comm(0xc0), 0, ev(0x400)),
        Query::new(comm(0xc0), 1, ev(0x420)),
        Query::new(comm(0x100), 0, ev(0x460)),
        Query::new(comm(0x100), 1, ev(0x480)),
        Query::new(comm(0xc0), -5, ev(0x440)),
        Query::new(comm(0x1c0), 0, ev(0x4c0)),
        Query::new(comm(0x140), 0, ev(0x500)),
        Query::new(comm(0x180), 0, ev(0x540)),
        Query::new(comm(0x140), -1, ev(0x520)),
        Query::new(comm(0x1c0), 1, ev(0x4e0)),
        Query::new(data.fixed_comms[0], 0, ev(0x380)),
        Query::new(data.permutation_comms[0], 0, ev(0x3c0)),
        Query::new(data.computed_quotient_comm, 0, Ptr::memory(0x2000)),
        Query::new(comm(0x200), 0, ev(0x560)),
    ];
    assert_eq!(qs, expected);
}

#[test]
fn decode_vka_captures_skips_absent_and_refuses_bad_text() {
    let digits = "00".repeat(31) + "ff";
    let res = decode_vka_captures(vec![None, Some(digits.clone())]).unwrap();
    let mut expected = [0u8; 32];
    expected[31] = 0xff;
    assert_eq!(res, vec![expected]);
    assert!(decode_vka_captures(vec![Some(String::from("0x12"))]).is_none());
}

#[test]
fn generator_keeps_what_new_asked() {
    let g = SolidityGenerator::new(
        key_data(vec![1], vec![0]),
        BatchOpenScheme::Bdfg21,
        &[1],
        &[0],
        18,
        0,
    );
    g.keeps_supported();
    assert_eq!(g.num_neg_lagranges(), 6);
    assert_eq!(g.num_evals(), 30);
}

#[test]
fn verifying_artifact_records_its_layout() {
    let g = SolidityGenerator::new(
        key_data(vec![1], vec![0]),
        BatchOpenScheme::Bdfg21,
        &[1],
        &[0],
        18,
        0,
    );
    let inputs = ArtifactInputs {
        const_expressions: vec![Word256::from_u64(7); 3],
        gate_computations: vec![Word256::zero(); 10],
        permutation_computations: vec![Word256::zero(); 4],
        lookup_computations: vec![Word256::zero(); 2],
        quotient_eval_usage: 0x2000,
        queries: sample_queries(),
        w_cptr: 0x400,
        quotient_comm_cptr: 0x200,
    };
    let a = g.generate_verifying_artifact(inputs);
    let names = 33;
    assert_eq!(a.constants.len(), names);
    let v = |name| value_of(&a.constants, name);
    // The key: 33 constants and three commitments, 0x20 bytes per word, from 0xa0.
    let vk_len = (names + 3 * 2) * 0x20;
    let gate = 0xa0 + vk_len + 3 * 0x20;
    assert_eq!(v(ConstantName::GateComputationsLenOffset), Word256::from_u64(gate as u64));
    let pcs_offset = gate + (10 + 4 + 2) * 0x20;
    assert_eq!(v(ConstantName::PcsComputationsLenOffset), Word256::from_u64(pcs_offset as u64));
    let pcs_len = a.pcs_computations.len();
    assert_eq!(pcs_len, 18);
    assert_eq!(
        v(ConstantName::RescalingComputationsLenOffset),
        Word256::from_u64((pcs_offset + pcs_len * 0x20) as u64)
    );
    assert_eq!(v(ConstantName::LastQuotientXCptr), Word256::from_u64(0x280));
    // Working memory: the quotient evaluation's 0x2000 bytes exceed the 31 words otherwise needed.
    assert_eq!(v(ConstantName::Fsm), Word256::from_u64(0x2000));
    assert_eq!(v(ConstantName::NumAdvicesUserChallenges(0)), g.generate_challenge_data()[0]);
    assert_eq!(a.rescaling_computations, g.generate_rescaling_data());
    let (superset, sets) = rotation_sets(&sample_queries());
    assert!(a.pcs_computations == pcs_data_encoded(&superset, &sets, 0x400));
    assert_eq!(a.len(false), names + 6 + 3 + 10 + 4 + 2 + 18 + a.rescaling_computations.len());
}

#[test]
fn verifier_embeds_the_key() {
    let g = SolidityGenerator::new(
        key_data(vec![1], vec![0]),
        BatchOpenScheme::Bdfg21,
        &[1],
        &[0],
        18,
        0,
    );
    let layout = ProofLayout {
        proof_len: 0x500,
        challenge_mptr: 0x40,
        theta_mptr: 0x60,
        quotient_comm_cptr: 0x200,
        queries: sample_queries(),
        w_cptr: 0x400,
    };
    let v = g.generate_verifier(vec![(vec![String::from("let a := 1")], String::from("a"))], layout);
    assert_eq!(v.vk_mptr, 31 * 0x20);
    assert_eq!(v.num_neg_lagranges, 6);
    assert_eq!(v.embedded_vk.constants.len(), 21);
    assert_eq!(v.quotient_eval_numer_computations[0][1], "quotient_eval_numer := a");
    assert!(v.pcs_computations == bdfg21_computations_static(&sample_queries(), 0x400));
    assert_eq!(v.pcs_computations.len(), 11);
    assert_eq!(v.num_quotients, 3);
    assert_eq!(v.num_advices, vec![1]);
}

#[test]
fn separate_verifier_depends_only_on_scheme_and_phases() {
    let g1 = SolidityGenerator::new(key_data(vec![3, 1], vec![0, 1]), BatchOpenScheme::Bdfg21, &[2], &[4], 18, 2);
    let mut other = key_data(vec![5, 2], vec![1, 0]);
    other.k = 12;
    other.fixed_comms = vec![];
    let g2 = SolidityGenerator::new(other, BatchOpenScheme::Bdfg21, &[7, 1], &[0, 3], 9, 0);
    let v1 = g1.generate_separate_verifier();
    let v2 = g2.generate_separate_verifier();
    assert_eq!(v1.scheme, v2.scheme);
    assert_eq!(v1.vk_const_offsets, v2.vk_const_offsets);
}

/// A slot address as the verifier writes it.
fn ptr_text(p: &Ptr) -> String {
    match p.value {
        Value::Integer(a) => format!("{:#x}", a),
        Value::Identifier(k) => format!("NAMED_{k}"),
    }
}

/// A load from a place.
fn load_text(loc: Location, at: &str) -> String {
    match loc {
        Location::Memory => format!("mload({at})"),
        Location::Calldata => format!("calldataload({at})"),
    }
}

fn pieces_text(pieces: &[Piece]) -> String {
    pieces
        .iter()
        .map(|p| match p {
            Piece::Text(s) => s.to_string(),
            Piece::Addr(a) => ptr_text(a),
            Piece::Load(a) => load_text(a.loc, &ptr_text(a)),
            Piece::LoadAt(loc, at) => load_text(*loc, at),
            Piece::PointVar(k) => format!("point_{k}"),
        })
        .collect()
}

/// A line as one string; a loop as `for { init } cond { advance } { body }`.
fn line_text(line: &Line) -> String {
    match line {
        Line::Plain(p) => pieces_text(p),
        Line::ForLoop(init, cond, advance, body) => {
            let join = |v: &Vec<Vec<Piece>>| v.iter().map(|s| pieces_text(s)).collect::<Vec<_>>().join(" ");
            format!(
                "for {{ {} }} {} {{ {} }} {{ {} }}",
                join(init),
                pieces_text(cond),
                join(advance),
                join(body)
            )
        }
    }
}

fn group_texts(groups: &[Vec<Line>]) -> Vec<Vec<String>> {
    groups.iter().map(|g| g.iter().map(line_text).collect()).collect()
}

#[test]
fn bdfg21_computations_static_of_sample() {
    let lines = group_texts(&bdfg21_computations_static(&sample_queries(), 0x400));
    // Points, vanishing, two coefficient groups, normalisation, two r evaluations, two sums,
    // the combined r evaluation and the pairing input.
    assert_eq!(lines.len(), 11);
    assert_eq!(
        lines[0],
        vec![
            "let x := mload(X_MPTR)",
            "let omega := mload(OMEGA_MPTR)",
            "let omega_inv := mload(OMEGA_INV_MPTR)",
            "let x_pow_of_omega := mulmod(x, omega, R)",
            "mstore(0x1e0, x_pow_of_omega)",
            "mstore(0x1c0, x)",
            "x_pow_of_omega := mulmod(x, omega_inv, R)",
        ]
    );
    assert_eq!(
        lines[1],
        vec![
            "let mu := mload(MU_MPTR)",
            "for { let mptr := 0x200 let mptr_end := 0x240 let point_mptr := 0x1c0 } lt(mptr, mptr_end) { mptr := add(mptr, 0x20) point_mptr := add(point_mptr, 0x20) } { mstore(mptr, addmod(mu, sub(R, mload(point_mptr)), R)) }",
            "let s",
            "s := mload(0x200)",
            "s := mulmod(s, mload(0x220), R)",
            "mstore(0x240, s)",
            "let diff",
            "diff := 1",
            "mstore(0x260, diff)",
            "mstore(0x0, diff)",
            "diff := mload(0x220)",
            "mstore(0x280, diff)",
        ]
    );
    assert_eq!(
        lines[2],
        vec![
            "let point_0 := mload(0x1c0)",
            "let point_1 := mload(0x1e0)",
            "let coeff",
            "coeff := addmod(point_0, sub(R, point_1), R)",
            "coeff := mulmod(coeff, mload(0x200), R)",
            "mstore(0x20, coeff)",
            "coeff := addmod(point_1, sub(R, point_0), R)",
            "coeff := mulmod(coeff, mload(0x220), R)",
            "mstore(0x40, coeff)",
        ]
    );
    assert_eq!(
        lines[3],
        vec![
            "let point_0 := mload(0x1c0)",
            "let coeff",
            "coeff := 1",
            "coeff := mulmod(coeff, mload(0x200), R)",
            "mstore(0x60, coeff)",
        ]
    );
    assert_eq!(
        lines[4],
        vec![
            "success := batch_invert(success, 0, 0x80)",
            "let diff_0_inv := mload(0x0)",
            "mstore(0x260, diff_0_inv)",
            "for { let mptr := 0x280 let mptr_end := 0x2a0 } lt(mptr, mptr_end) { mptr := add(mptr, 0x20) } { mstore(mptr, mulmod(mload(mptr), diff_0_inv, R)) }",
        ]
    );
    assert_eq!(
        lines[5],
        vec![
            "let zeta := mload(ZETA_MPTR)",
            "let r_eval := 0",
            "r_eval := addmod(r_eval, mulmod(mload(0x20), calldataload(0x340), R), R)",
            "r_eval := addmod(r_eval, mulmod(mload(0x40), calldataload(0x360), R), R)",
            "r_eval := mulmod(r_eval, zeta, R)",
            "r_eval := addmod(r_eval, mulmod(mload(0x20), calldataload(0x300), R), R)",
            "r_eval := addmod(r_eval, mulmod(mload(0x40), calldataload(0x320), R), R)",
            "mstore(0x2a0, r_eval)",
        ]
    );
    assert_eq!(
        lines[6],
        vec![
            "let coeff := mload(0x60)",
            "let zeta := mload(ZETA_MPTR)",
            "let r_eval := 0",
            "r_eval := addmod(r_eval, mulmod(coeff, calldataload(0x3a0), R), R)",
            "r_eval := mulmod(r_eval, zeta, R)",
            "r_eval := addmod(r_eval, mulmod(coeff, mload(0x2000), R), R)",
            "r_eval := mulmod(r_eval, zeta, R)",
            "r_eval := addmod(r_eval, mulmod(coeff, calldataload(0x380), R), R)",
            "r_eval := mulmod(r_eval, mload(0x280), R)",
            "mstore(0x2c0, r_eval)",
        ]
    );
    assert_eq!(
        lines[7],
        vec!["let sum := mload(0x20)", "sum := addmod(sum, mload(0x40), R)", "mstore(0x2e0, sum)"]
    );
    assert_eq!(lines[8], vec!["let sum := mload(0x60)", "mstore(0x300, sum)"]);
    assert_eq!(
        lines[9],
        vec![
            "for { let mptr := 0x00 let mptr_end := 0x40 let sum_mptr := 0x2e0 } lt(mptr, mptr_end) { mptr := add(mptr, 0x20) sum_mptr := add(sum_mptr, 0x20) } { mstore(mptr, mload(sum_mptr)) }",
            "success := batch_invert(success, 0, 0x40)",
            "let r_eval := mulmod(mload(0x20), mload(0x2c0), R)",
            "for { let sum_inv_mptr := 0x0 let sum_inv_mptr_end := 0x40 let r_eval_mptr := 0x2a0 } lt(sum_inv_mptr, sum_inv_mptr_end) { sum_inv_mptr := sub(sum_inv_mptr, 0x20) r_eval_mptr := sub(r_eval_mptr, 0x20) } { r_eval := mulmod(r_eval, mload(NU_MPTR), R) r_eval := addmod(r_eval, mulmod(mload(sum_inv_mptr), mload(r_eval_mptr), R), R) }",
            "mstore(R_EVAL_MPTR, r_eval)",
        ]
    );
    assert_eq!(
        lines[10],
        vec![
            "let nu := mload(NU_MPTR)",
            "mstore(0x0, calldataload(0xc0))",
            "mstore(0x20, calldataload(0xe0))",
            "success := ec_mul_acc(success, mload(ZETA_MPTR))",
            "success := ec_add_acc(success, calldataload(0x80), calldataload(0xa0))",
            "mstore(0x80, calldataload(0x100))",
            "mstore(0xa0, calldataload(0x120))",
            "success := ec_mul_tmp(success, mload(ZETA_MPTR))",
            "success := ec_add_tmp(success, mload(NAMED_1), mload(NAMED_2))",
            "success := ec_mul_tmp(success, mload(ZETA_MPTR))",
            "success := ec_add_tmp(success, mload(0x600), mload(0x620))",
            "success := ec_mul_tmp(success, mulmod(nu, mload(0x280), R))",
            "success := ec_add_acc(success, mload(0x80), mload(0xa0))",
            "mstore(0x80, mload(G1_X_MPTR))",
            "mstore(0xa0, mload(G1_Y_MPTR))",
            "success := ec_mul_tmp(success, sub(R, mload(R_EVAL_MPTR)))",
            "success := ec_add_acc(success, mload(0x80), mload(0xa0))",
            "mstore(0x80, calldataload(0x400))",
            "mstore(0xa0, calldataload(0x420))",
            "success := ec_mul_tmp(success, sub(R, mload(0x240)))",
            "success := ec_add_acc(success, mload(0x80), mload(0xa0))",
            "mstore(0x80, calldataload(0x440))",
            "mstore(0xa0, calldataload(0x460))",
            "success := ec_mul_tmp(success, mload(MU_MPTR))",
            "success := ec_add_acc(success, mload(0x80), mload(0xa0))",
            "mstore(PAIRING_LHS_X_MPTR, mload(0x00))",
            "mstore(PAIRING_LHS_Y_MPTR, mload(0x20))",
            "mstore(PAIRING_RHS_X_MPTR, calldataload(0x440))",
            "mstore(PAIRING_RHS_Y_MPTR, calldataload(0x460))",
        ]
    );
}

#[test]
fn bdfg21_static_long_runs_become_loops() {
    // Five commitments opened at 0 only, evaluations in consecutive calldata slots, and one
    // commitment opened at 0 and 1.
    let mut queries = vec![Query::new(comm(0x80), 0, ev(0x500)), Query::new(comm(0x80), 1, ev(0x520))];
    for i in 0..5 {
        queries.push(Query::new(comm(0x100 + 0x40 * i), 0, ev(0x600 + 0x20 * i)));
    }
    let lines = group_texts(&bdfg21_computations_static(&queries, 0x800));
    // The set of one rotation comes second; its evaluations run down from 0x680.
    assert!(lines[6].contains(&"for { let mptr := 0x680 let mptr_end := 0x5e0 } lt(mptr_end, mptr) { mptr := sub(mptr, 0x20) } { r_eval := addmod(mulmod(r_eval, zeta, R), mulmod(coeff, calldataload(mptr), R), R) }".to_string()));
    // Its commitments but the last run down from 0x1c0 by pairs of slots.
    assert!(lines[10].contains(&"for { let mptr := 0x1c0 let mptr_end := 0xc0 } lt(mptr_end, mptr) { mptr := sub(mptr, 0x40) } { success := ec_mul_tmp(success, mload(ZETA_MPTR)) success := ec_add_tmp(success, calldataload(mptr), calldataload(add(mptr, 0x20))) }".to_string()));
}

#[test]
fn rotation_sets_rotations_ignore_query_order() {
    let mut queries = sample_queries();
    let (superset, _) = rotation_sets(&queries);
    queries.reverse();
    let (superset_rev, sets_rev) = rotation_sets(&queries);
    assert_eq!(superset, superset_rev);
    assert_eq!(superset_rev, vec![0, 1]);
    assert_eq!(sets_rev.len(), 2);
}
