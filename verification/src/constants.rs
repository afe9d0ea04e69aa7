use vstd::prelude::*;

use crate::word::Word256;

verus! {

/// The named constants at the head of an embedded verifying key or a verifying artifact.
#[derive(Clone, Copy, Debug, PartialEq, Eq, Structural)]
pub enum ConstantName {
    VkDigest,
    Fsm,
    NumInstances,
    NumEvals,
    ChallengesOffset,
    K,
    NInv,
    Omega,
    OmegaInv,
    OmegaInvToL,
    HasAccumulator,
    AccOffset,
    NumAccLimbs,
    NumAccLimbBits,
    G1X,
    G1Y,
    G2X1,
    G2X2,
    G2Y1,
    G2Y2,
    NegSG2X1,
    NegSG2X2,
    NegSG2Y1,
    NegSG2Y2,
    LastQuotientXCptr,
    FirstQuotientXCptr,
    GateComputationsLenOffset,
    PermutationComputationsLenOffset,
    LookupComputationsLenOffset,
    PcsComputationsLenOffset,
    RescalingComputationsLenOffset,
    NumNegLagranges,
    /// The `i`-th word of packed advice/challenge counts, for `i < 10`.
    NumAdvicesUserChallenges(usize),
}

/// Words of packed advice/challenge counts that a verifying artifact has room for.
pub const NUM_ADVICES_USER_CHALLENGES_SLOTS: usize = 10;

/// A list of named constants.
pub type Constants = Vec<(ConstantName, Word256)>;

impl ConstantName {
    /// Whether the name is one of the fixed labels.
    pub open spec fn valid(self) -> bool {
        match self {
            ConstantName::NumAdvicesUserChallenges(i) => i < NUM_ADVICES_USER_CHALLENGES_SLOTS,
            _ => true,
        }
    }

    /// The label under which the Solidity templates know the constant.
    pub open spec fn spec_label(self) -> Seq<char> {
        match self {
            ConstantName::VkDigest => "vk_digest"@,
            ConstantName::Fsm => "fsm"@,
            ConstantName::NumInstances => "num_instances"@,
            ConstantName::NumEvals => "num_evals"@,
            ConstantName::ChallengesOffset => "challenges_offset"@,
            ConstantName::K => "k"@,
            ConstantName::NInv => "n_inv"@,
            ConstantName::Omega => "omega"@,
            ConstantName::OmegaInv => "omega_inv"@,
            ConstantName::OmegaInvToL => "omega_inv_to_l"@,
            ConstantName::HasAccumulator => "has_accumulator"@,
            ConstantName::AccOffset => "acc_offset"@,
            ConstantName::NumAccLimbs => "num_acc_limbs"@,
            ConstantName::NumAccLimbBits => "num_acc_limb_bits"@,
            ConstantName::G1X => "g1_x"@,
            ConstantName::G1Y => "g1_y"@,
            ConstantName::G2X1 => "g2_x_1"@,
            ConstantName::G2X2 => "g2_x_2"@,
            ConstantName::G2Y1 => "g2_y_1"@,
            ConstantName::G2Y2 => "g2_y_2"@,
            ConstantName::NegSG2X1 => "neg_s_g2_x_1"@,
            ConstantName::NegSG2X2 => "neg_s_g2_x_2"@,
            ConstantName::NegSG2Y1 => "neg_s_g2_y_1"@,
            ConstantName::NegSG2Y2 => "neg_s_g2_y_2"@,
            ConstantName::LastQuotientXCptr => "last_quotient_x_cptr"@,
            ConstantName::FirstQuotientXCptr => "first_quotient_x_cptr"@,
            ConstantName::GateComputationsLenOffset => "gate_computations_len_offset"@,
            ConstantName::PermutationComputationsLenOffset => "permutation_computations_len_offset"@,
            ConstantName::LookupComputationsLenOffset => "lookup_computations_len_offset"@,
            ConstantName::PcsComputationsLenOffset => "pcs_computations_len_offset"@,
            ConstantName::RescalingComputationsLenOffset => "rescaling_computations_len_offset"@,
            ConstantName::NumNegLagranges => "num_neg_lagranges"@,
            ConstantName::NumAdvicesUserChallenges(i) => "num_advices_user_challenges_"@ + seq![
                (i + 48) as char,
            ],
        }
    }

    /// The label under which the Solidity templates know the constant.
    pub fn label(&self) -> (s: &'static str)
        requires
            self.valid(),
        ensures
            s@ == self.spec_label(),
    {
        match self {
            ConstantName::VkDigest => "vk_digest",
            ConstantName::Fsm => "fsm",
            ConstantName::NumInstances => "num_instances",
            ConstantName::NumEvals => "num_evals",
            ConstantName::ChallengesOffset => "challenges_offset",
            ConstantName::K => "k",
            ConstantName::NInv => "n_inv",
            ConstantName::Omega => "omega",
            ConstantName::OmegaInv => "omega_inv",
            ConstantName::OmegaInvToL => "omega_inv_to_l",
            ConstantName::HasAccumulator => "has_accumulator",
            ConstantName::AccOffset => "acc_offset",
            ConstantName::NumAccLimbs => "num_acc_limbs",
            ConstantName::NumAccLimbBits => "num_acc_limb_bits",
            ConstantName::G1X => "g1_x",
            ConstantName::G1Y => "g1_y",
            ConstantName::G2X1 => "g2_x_1",
            ConstantName::G2X2 => "g2_x_2",
            ConstantName::G2Y1 => "g2_y_1",
            ConstantName::G2Y2 => "g2_y_2",
            ConstantName::NegSG2X1 => "neg_s_g2_x_1",
            ConstantName::NegSG2X2 => "neg_s_g2_x_2",
            ConstantName::NegSG2Y1 => "neg_s_g2_y_1",
            ConstantName::NegSG2Y2 => "neg_s_g2_y_2",
            ConstantName::LastQuotientXCptr => "last_quotient_x_cptr",
            ConstantName::FirstQuotientXCptr => "first_quotient_x_cptr",
            ConstantName::GateComputationsLenOffset => "gate_computations_len_offset",
            ConstantName::PermutationComputationsLenOffset => "permutation_computations_len_offset",
            ConstantName::LookupComputationsLenOffset => "lookup_computations_len_offset",
            ConstantName::PcsComputationsLenOffset => "pcs_computations_len_offset",
            ConstantName::RescalingComputationsLenOffset => "rescaling_computations_len_offset",
            ConstantName::NumNegLagranges => "num_neg_lagranges",
            ConstantName::NumAdvicesUserChallenges(i) => {
                proof {
                    reveal_strlit("num_advices_user_challenges_");
                    reveal_strlit("num_advices_user_challenges_0");
                    reveal_strlit("num_advices_user_challenges_1");
                    reveal_strlit("num_advices_user_challenges_2");
                    reveal_strlit("num_advices_user_challenges_3");
                    reveal_strlit("num_advices_user_challenges_4");
                    reveal_strlit("num_advices_user_challenges_5");
                    reveal_strlit("num_advices_user_challenges_6");
                    reveal_strlit("num_advices_user_challenges_7");
                    reveal_strlit("num_advices_user_challenges_8");
                    reveal_strlit("num_advices_user_challenges_9");
                }
                if *i == 0 {
                    "num_advices_user_challenges_0"
                } else if *i == 1 {
                    "num_advices_user_challenges_1"
                } else if *i == 2 {
                    "num_advices_user_challenges_2"
                } else if *i == 3 {
                    "num_advices_user_challenges_3"
                } else if *i == 4 {
                    "num_advices_user_challenges_4"
                } else if *i == 5 {
                    "num_advices_user_challenges_5"
                } else if *i == 6 {
                    "num_advices_user_challenges_6"
                } else if *i == 7 {
                    "num_advices_user_challenges_7"
                } else if *i == 8 {
                    "num_advices_user_challenges_8"
                } else {
                    "num_advices_user_challenges_9"
                }
            },
        }
    }
}

/// The fixed head of a verifying artifact's constants, in order.
pub open spec fn artifact_base_names() -> Seq<ConstantName> {
    seq![
        ConstantName::VkDigest,
        ConstantName::Fsm,
        ConstantName::NumInstances,
        ConstantName::NumEvals,
        ConstantName::ChallengesOffset,
        ConstantName::K,
        ConstantName::NInv,
        ConstantName::Omega,
        ConstantName::OmegaInv,
        ConstantName::OmegaInvToL,
        ConstantName::HasAccumulator,
        ConstantName::AccOffset,
        ConstantName::NumAccLimbs,
        ConstantName::NumAccLimbBits,
        ConstantName::G1X,
        ConstantName::G1Y,
        ConstantName::G2X1,
        ConstantName::G2X2,
        ConstantName::G2Y1,
        ConstantName::G2Y2,
        ConstantName::NegSG2X1,
        ConstantName::NegSG2X2,
        ConstantName::NegSG2Y1,
        ConstantName::NegSG2Y2,
        ConstantName::LastQuotientXCptr,
        ConstantName::FirstQuotientXCptr,
        ConstantName::GateComputationsLenOffset,
        ConstantName::PermutationComputationsLenOffset,
        ConstantName::LookupComputationsLenOffset,
        ConstantName::PcsComputationsLenOffset,
        ConstantName::RescalingComputationsLenOffset,
        ConstantName::NumNegLagranges,
    ]
}

/// The constants of an embedded verifying key, in order.
pub open spec fn key_names() -> Seq<ConstantName> {
    seq![
        ConstantName::VkDigest,
        ConstantName::NumInstances,
        ConstantName::K,
        ConstantName::NInv,
        ConstantName::Omega,
        ConstantName::OmegaInv,
        ConstantName::OmegaInvToL,
        ConstantName::HasAccumulator,
        ConstantName::AccOffset,
        ConstantName::NumAccLimbs,
        ConstantName::NumAccLimbBits,
        ConstantName::G1X,
        ConstantName::G1Y,
        ConstantName::G2X1,
        ConstantName::G2X2,
        ConstantName::G2Y1,
        ConstantName::G2Y2,
        ConstantName::NegSG2X1,
        ConstantName::NegSG2X2,
        ConstantName::NegSG2Y1,
        ConstantName::NegSG2Y2,
    ]
}

/// Words needed for the packed advice/challenge counts of `n` phases (ten per word).
pub open spec fn advices_capacity(n: nat) -> nat {
    n / 10 + if n % 10 == 0 {
        0nat
    } else {
        1nat
    }
}

/// The constants of a verifying artifact for `num_phases` phases, in order.
pub open spec fn artifact_names(num_phases: nat) -> Seq<ConstantName> {
    artifact_base_names() + Seq::new(
        advices_capacity(num_phases),
        |i: int| ConstantName::NumAdvicesUserChallenges(i as usize),
    )
}

/// The names of a list of constants.
pub open spec fn names_of(constants: Seq<(ConstantName, Word256)>) -> Seq<ConstantName> {
    constants.map_values(|c: (ConstantName, Word256)| c.0)
}

/// Whether every constant of the list has the value 0.
pub open spec fn all_zero(constants: Seq<(ConstantName, Word256)>) -> bool {
    forall|i: int| 0 <= i < constants.len() ==> (#[trigger] constants[i]).1.value() == 0
}

/// Appends the names, each with the value 0.
fn push_zeros(constants: &mut Constants, names: &Vec<ConstantName>)
    requires
        all_zero(old(constants)@),
    ensures
        names_of(final(constants)@) == names_of(old(constants)@) + names@,
        all_zero(final(constants)@),
{
    let ghost start = old(constants)@;
    let mut k: usize = 0;
    while k < names.len()
        invariant
            k <= names.len(),
            names_of(constants@) == names_of(start) + names@.take(k as int),
            all_zero(constants@),
        decreases names.len() - k,
    {
        let z = Word256::zero();
        let ghost pre = constants@;
        constants.push((names[k], z));
        assert(constants@ == pre.push((names@[k as int], z)));
        assert(names_of(constants@) =~= names_of(pre).push(names@[k as int]));
        assert(names@.take(k + 1) =~= names@.take(k as int).push(names@[k as int]));
        assert(names_of(constants@) =~= names_of(start) + names@.take(k + 1));
        k += 1;
    }
    assert(names@.take(names.len() as int) =~= names@);
}

/// The constants of a verifying artifact for `num_phases` phases, all 0: the fixed head
/// followed by one word of packed advice/challenge counts per ten phases.
pub fn dummy_vka_constants(num_phases: usize) -> (constants: Constants)
    requires
        advices_capacity(num_phases as nat) <= NUM_ADVICES_USER_CHALLENGES_SLOTS,
    ensures
        names_of(constants@) == artifact_names(num_phases as nat),
        all_zero(constants@),
{
    let capacity: usize = num_phases / 10 + if num_phases % 10 == 0 {
        0
    } else {
        1
    };
    let names: Vec<ConstantName> = vec![
        ConstantName::VkDigest,
        ConstantName::Fsm,
        ConstantName::NumInstances,
        ConstantName::NumEvals,
        ConstantName::ChallengesOffset,
        ConstantName::K,
        ConstantName::NInv,
        ConstantName::Omega,
        ConstantName::OmegaInv,
        ConstantName::OmegaInvToL,
        ConstantName::HasAccumulator,
        ConstantName::AccOffset,
        ConstantName::NumAccLimbs,
        ConstantName::NumAccLimbBits,
        ConstantName::G1X,
        ConstantName::G1Y,
        ConstantName::G2X1,
        ConstantName::G2X2,
        ConstantName::G2Y1,
        ConstantName::G2Y2,
        ConstantName::NegSG2X1,
        ConstantName::NegSG2X2,
        ConstantName::NegSG2Y1,
        ConstantName::NegSG2Y2,
        ConstantName::LastQuotientXCptr,
        ConstantName::FirstQuotientXCptr,
        ConstantName::GateComputationsLenOffset,
        ConstantName::PermutationComputationsLenOffset,
        ConstantName::LookupComputationsLenOffset,
        ConstantName::PcsComputationsLenOffset,
        ConstantName::RescalingComputationsLenOffset,
        ConstantName::NumNegLagranges,
    ];
    assert(names@ =~= artifact_base_names());
    let mut constants: Constants = Vec::new();
    push_zeros(&mut constants, &names);
    let mut extra: Vec<ConstantName> = Vec::new();
    let mut i: usize = 0;
    while i < capacity
        invariant
            i <= capacity,
            capacity == advices_capacity(num_phases as nat),
            extra@ == Seq::new(i as nat, |j: int| ConstantName::NumAdvicesUserChallenges(j as usize)),
        decreases capacity - i,
    {
        extra.push(ConstantName::NumAdvicesUserChallenges(i));
        i += 1;
        assert(extra@ =~= Seq::new(i as nat, |j: int| ConstantName::NumAdvicesUserChallenges(j as usize)));
    }
    push_zeros(&mut constants, &extra);
    assert(names_of(Seq::empty()) =~= Seq::<ConstantName>::empty());
    assert(names_of(constants@) =~= artifact_names(num_phases as nat));
    constants
}

/// The constants of an embedded verifying key, all 0.
pub fn dummy_vk_constants() -> (constants: Constants)
    ensures
        names_of(constants@) == key_names(),
        all_zero(constants@),
{
    let names: Vec<ConstantName> = vec![
        ConstantName::VkDigest,
        ConstantName::NumInstances,
        ConstantName::K,
        ConstantName::NInv,
        ConstantName::Omega,
        ConstantName::OmegaInv,
        ConstantName::OmegaInvToL,
        ConstantName::HasAccumulator,
        ConstantName::AccOffset,
        ConstantName::NumAccLimbs,
        ConstantName::NumAccLimbBits,
        ConstantName::G1X,
        ConstantName::G1Y,
        ConstantName::G2X1,
        ConstantName::G2X2,
        ConstantName::G2Y1,
        ConstantName::G2Y2,
        ConstantName::NegSG2X1,
        ConstantName::NegSG2X2,
        ConstantName::NegSG2Y1,
        ConstantName::NegSG2Y2,
    ];
    assert(names@ =~= key_names());
    let mut constants: Constants = Vec::new();
    push_zeros(&mut constants, &names);
    assert(names_of(Seq::empty()) =~= Seq::<ConstantName>::empty());
    assert(names_of(constants@) =~= key_names());
    constants
}

/// Gives the first constant named `name` the value `value`; the list is unchanged when no
/// constant has that name.
pub fn set_constant_value(constants: &mut Constants, name: ConstantName, value: Word256)
    ensures
        final(constants)@.len() == old(constants)@.len(),
        names_of(final(constants)@) == names_of(old(constants)@),
        match first_index_of(names_of(old(constants)@), name) {
            Some(i) => final(constants)@ == old(constants)@.update(i, (name, value)),
            None => final(constants)@ == old(constants)@,
        },
{
    let mut i: usize = 0;
    while i < constants.len()
        invariant
            i <= constants.len(),
            constants@ == old(constants)@,
            forall|j: int| 0 <= j < i ==> (#[trigger] constants@[j]).0 != name,
        decreases constants.len() - i,
    {
        if constants[i].0 == name {
            let ghost pre = constants@;
            constants.set(i, (name, value));
            proof {
                lemma_first_index_found(names_of(pre), name, i as int);
                assert(names_of(constants@) =~= names_of(pre));
            }
            return;
        }
        i += 1;
    }
    proof {
        lemma_first_index_absent(names_of(constants@), name);
    }
}

/// The constants after giving the first constant named `name` the value `value`.
pub open spec fn with_value(
    constants: Seq<(ConstantName, Word256)>,
    name: ConstantName,
    value: Word256,
) -> Seq<(ConstantName, Word256)> {
    match first_index_of(names_of(constants), name) {
        Some(i) => constants.update(i, (name, value)),
        None => constants,
    }
}

/// The constants after giving, for each `i < words.len()`, the first constant named
/// `NumAdvicesUserChallenges(i)` the value `words[i]`.
pub open spec fn with_advices_user_challenges(
    constants: Seq<(ConstantName, Word256)>,
    words: Seq<Word256>,
) -> Seq<(ConstantName, Word256)> {
    Seq::new(
        constants.len(),
        |j: int|
            match constants[j].0 {
                ConstantName::NumAdvicesUserChallenges(i) => if (i as int) < words.len()
                    && first_index_of(names_of(constants), constants[j].0) == Some(j) {
                    (constants[j].0, words[i as int])
                } else {
                    constants[j]
                },
                _ => constants[j],
            },
    )
}

/// Gives, for each `i`, the first constant named `NumAdvicesUserChallenges(i)` the value
/// `words[i]`.
pub fn set_advices_user_challenges(constants: &mut Constants, words: &Vec<Word256>)
    requires
        words.len() <= NUM_ADVICES_USER_CHALLENGES_SLOTS,
    ensures
        final(constants)@ == with_advices_user_challenges(old(constants)@, words@),
        names_of(final(constants)@) == names_of(old(constants)@),
{
    let ghost orig = constants@;
    let ghost names = names_of(orig);
    let mut i: usize = 0;
    assert(constants@ =~= with_advices_user_challenges(orig, words@.take(0)));
    while i < words.len()
        invariant
            i <= words.len() <= NUM_ADVICES_USER_CHALLENGES_SLOTS,
            names == names_of(orig),
            names_of(constants@) == names,
            constants@ == with_advices_user_challenges(orig, words@.take(i as int)),
        decreases words.len() - i,
    {
        let ghost pre = constants@;
        let name = ConstantName::NumAdvicesUserChallenges(i);
        set_constant_value(constants, name, words[i]);
        proof {
            lemma_first_index_props(names_of(pre), name);
            let next = with_advices_user_challenges(orig, words@.take(i + 1));
            assert forall|j: int| 0 <= j < constants@.len() implies constants@[j] == next[j] by {
                assert(names[j] == orig[j].0);
                assert(names_of(pre)[j] == pre[j].0);
            }
            assert(constants@ =~= next);
        }
        i += 1;
    }
    assert(words@.take(words.len() as int) =~= words@);
}

/// The index of the first occurrence of `x` in `s`.
pub open spec fn first_index_of(s: Seq<ConstantName>, x: ConstantName) -> Option<int>
    decreases s.len(),
{
    if s.len() == 0 {
        None
    } else if s.last() == x {
        match first_index_of(s.drop_last(), x) {
            Some(i) => Some(i),
            None => Some(s.len() - 1),
        }
    } else {
        first_index_of(s.drop_last(), x)
    }
}

/// What the first index of a name says of the names.
pub proof fn lemma_first_index_props(s: Seq<ConstantName>, x: ConstantName)
    ensures
        match first_index_of(s, x) {
            Some(p) => 0 <= p < s.len() && s[p] == x && forall|j: int| 0 <= j < p ==> s[j] != x,
            None => forall|j: int| 0 <= j < s.len() ==> s[j] != x,
        },
    decreases s.len(),
{
    if s.len() > 0 {
        lemma_first_index_props(s.drop_last(), x);
        match first_index_of(s.drop_last(), x) {
            Some(p) => {
                assert(s[p] == s.drop_last()[p]);
                assert forall|j: int| 0 <= j < p implies s[j] != x by {
                    assert(s[j] == s.drop_last()[j]);
                }
            },
            None => {
                assert forall|j: int| 0 <= j < s.len() - 1 implies s[j] != x by {
                    assert(s[j] == s.drop_last()[j]);
                }
            },
        }
    }
}

proof fn lemma_first_index_found(s: Seq<ConstantName>, x: ConstantName, i: int)
    requires
        0 <= i < s.len(),
        s[i] == x,
        forall|j: int| 0 <= j < i ==> s[j] != x,
    ensures
        first_index_of(s, x) == Some(i),
    decreases s.len(),
{
    if i < s.len() - 1 {
        lemma_first_index_found(s.drop_last(), x, i);
    } else {
        lemma_first_index_absent(s.drop_last(), x);
    }
}

proof fn lemma_first_index_absent(s: Seq<ConstantName>, x: ConstantName)
    requires
        forall|j: int| 0 <= j < s.len() ==> s[j] != x,
    ensures
        first_index_of(s, x) is None,
    decreases s.len(),
{
    if s.len() > 0 {
        lemma_first_index_absent(s.drop_last(), x);
    }
}

} // verus!
