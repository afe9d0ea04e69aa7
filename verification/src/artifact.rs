use vstd::prelude::*;

use crate::bdfg21::{bdfg21_encodable, encodes_bdfg21, groups_queries, pcs_data_encoded};
use crate::constants::{
    key_names,
    advices_capacity, names_of, set_constant_value, with_advices_user_challenges, with_value,
    ConstantName, Constants, NUM_ADVICES_USER_CHALLENGES_SLOTS,
};
use crate::generator::{
    is_challenge_data, is_vk_constants, max, pcs_memory_words, set_artifact_offsets,
    quotient_eval_numer_computations, texts, numer_line, transcript_memory_words,
    vk_constants_fit, with_artifact_offsets, word_of, working_memory_size, abs, ArtifactParts,
    Halo2VerifyingKey, SolidityGenerator,
};
use crate::scheme::BatchOpenScheme;
use crate::layout::holds;
use crate::packing::{
    challenge_data_packable, entry_words_len, num_phases, num_scaled, rescaling_data_packable,
    rescaling_layout, scaled_words_len,
};
use crate::pcs::{distinct_openings, rotation_sets, PcsDataEncoded, Query, RotationSet};
use crate::static_pcs::{lemma_grouping_suits_static, static_computations, static_fits, static_lines};
use crate::word::Word256;
use crate::yul::{groups_view, Line};

verus! {

/// The verifying artifact: the key's constants and commitments, the constant expressions,
/// the encoded quotient computations of the gates, the permutation and the lookups, the
/// encoded opening computation and the rescaling data.
pub struct Halo2VerifyingArtifact {
    pub constants: Constants,
    pub fixed_comms: Vec<(Word256, Word256)>,
    pub permutation_comms: Vec<(Word256, Word256)>,
    pub const_expressions: Vec<Word256>,
    pub gate_computations: Vec<Word256>,
    pub permutation_computations: Vec<Word256>,
    pub lookup_computations: Vec<Word256>,
    pub pcs_computations: PcsDataEncoded,
    pub rescaling_computations: Vec<Word256>,
}

impl Halo2VerifyingArtifact {
    /// Number of words of the artifact.
    pub open spec fn spec_len(&self) -> int {
        self.constants.len() + (self.fixed_comms.len() + self.permutation_comms.len()) * 2
            + self.const_expressions.len() + self.gate_computations.len()
            + self.permutation_computations.len() + self.lookup_computations.len()
            + self.pcs_computations.spec_len() + self.rescaling_computations.len()
    }

    /// Length of the artifact in words, or in bytes (32 per word) when `scaled`.
    pub fn len(&self, scaled: bool) -> (len: usize)
        requires
            self.spec_len() * 0x20 <= usize::MAX,
        ensures
            len == if scaled {
                self.spec_len() * 0x20
            } else {
                self.spec_len()
            },
    {
        let len = self.constants.len() + (self.fixed_comms.len() + self.permutation_comms.len()) * 2
            + self.const_expressions.len() + self.gate_computations.len()
            + self.permutation_computations.len() + self.lookup_computations.len()
            + self.pcs_computations.len() + self.rescaling_computations.len();
        if scaled {
            len * 0x20
        } else {
            len
        }
    }
}

/// What the artifact takes from the rest of the verifier's generation: the constant
/// expressions of the constraint system and the evaluator's encoded quotient computations
/// (made for the final layout) with the memory they need, the opening queries, and where
/// `W` and the quotient commitments lie in the proof's calldata.
pub struct ArtifactInputs {
    pub const_expressions: Vec<Word256>,
    pub gate_computations: Vec<Word256>,
    pub permutation_computations: Vec<Word256>,
    pub lookup_computations: Vec<Word256>,
    pub quotient_eval_usage: usize,
    pub queries: Vec<Query>,
    pub w_cptr: usize,
    pub quotient_comm_cptr: usize,
}

/// The memory address where the artifact's first word is stored.
pub open spec fn vk_mptr() -> int {
    0xa0
}

/// The sizes that place the artifact's parts, with `pcs_len` words of opening data.
pub open spec fn parts_of(g: &SolidityGenerator, inputs: ArtifactInputs, pcs_len: int) -> ArtifactParts {
    ArtifactParts {
        vk_mptr: vk_mptr() as usize,
        vk_len_bytes: (0x20 * (artifact_names(g).len() + (g.key_data().fixed_comms.len()
            + g.key_data().permutation_comms.len()) * 2)) as usize,
        num_const_expressions: inputs.const_expressions.len(),
        gate_len: inputs.gate_computations.len(),
        permutation_len: inputs.permutation_computations.len(),
        lookup_len: inputs.lookup_computations.len(),
        pcs_len: pcs_len as usize,
    }
}

/// The names of the artifact's constants for the circuit.
pub open spec fn artifact_names(g: &SolidityGenerator) -> Seq<ConstantName> {
    crate::constants::artifact_names(g.key_data().shape.num_advices.len() as nat)
}

/// The working memory of the reusable verifier for the rotation sets.
pub open spec fn artifact_fsm(g: &SolidityGenerator, inputs: ArtifactInputs, superset: Seq<i32>, sets: Seq<RotationSet>) -> int {
    working_memory_size(
        g.key_data().shape.num_advices@,
        g.key_data().shape.num_evals,
        superset.len() as int,
        sets,
        Some(inputs.quotient_eval_usage),
    )
}

/// Whether the artifact can be laid out for the rotation sets: their opening data can be
/// encoded, the working memory and every address fit a machine word.
pub open spec fn artifact_fits(g: &SolidityGenerator, inputs: ArtifactInputs, superset: Seq<i32>, sets: Seq<RotationSet>) -> bool {
    &&& bdfg21_encodable(superset, sets, inputs.w_cptr as int)
    &&& max(
        max(
            transcript_memory_words(g.key_data().shape.num_advices@, g.key_data().shape.num_evals),
            pcs_memory_words(superset.len() as int, sets),
        ),
        12,
    ) * 0x20 <= usize::MAX
    &&& forall|d: PcsDataEncoded|
        #[trigger] encodes_bdfg21(superset, sets, inputs.w_cptr as int, d) ==> d.spec_len() <= usize::MAX
            && crate::generator::rescaling_offset(parts_of(g, inputs, d.spec_len())) <= usize::MAX
}

/// Whether `a` is the artifact for the generator and inputs: built on the key's constants
/// with the advice/challenge counts stored, where the parts begin and where the quotient
/// commitments lie recorded, and the working memory recorded; the key's commitments, the
/// given computations, the encoded opening data of the queries' rotation sets, and the
/// rescaling data.
pub open spec fn is_artifact(g: &SolidityGenerator, inputs: ArtifactInputs, a: Halo2VerifyingArtifact) -> bool {
    &&& exists|base: Seq<(ConstantName, Word256)>, words: Seq<Word256>, superset: Seq<i32>, sets: Seq<RotationSet>|
        #![trigger is_vk_constants(g, base, true), is_challenge_data(g, words), groups_queries(inputs.queries@, superset, sets)]
        {
            &&& is_vk_constants(g, base, true)
            &&& is_challenge_data(g, words)
            &&& groups_queries(inputs.queries@, superset, sets)
            &&& encodes_bdfg21(superset, sets, inputs.w_cptr as int, a.pcs_computations)
            &&& a.constants@ == with_value(
                with_artifact_offsets(
                    with_advices_user_challenges(base, words),
                    parts_of(g, inputs, a.pcs_computations.spec_len()),
                    inputs.quotient_comm_cptr,
                    g.key_data().shape.num_quotients,
                ),
                ConstantName::Fsm,
                word_of(artifact_fsm(g, inputs, superset, sets)),
            )
        }
    &&& a.fixed_comms@ == g.key_data().fixed_comms@
    &&& a.permutation_comms@ == g.key_data().permutation_comms@
    &&& a.const_expressions@ == inputs.const_expressions@
    &&& a.gate_computations@ == inputs.gate_computations@
    &&& a.permutation_computations@ == inputs.permutation_computations@
    &&& a.lookup_computations@ == inputs.lookup_computations@
    &&& a.rescaling_computations.len() == scaled_words_len(num_scaled(g.scales_of(), g.instances()))
    &&& holds(
        a.rescaling_computations@,
        rescaling_layout(g.scales_of(), g.instances(), g.decimals_of(), g.hash_count_of()),
    )
}

/// Whether `d` is the encoded opening data of the queries, grouped as `superset` and `sets`.
#[verifier::opaque]
pub open spec fn opening_data_of(queries: Seq<Query>, w: int, superset: Seq<i32>, sets: Seq<RotationSet>, d: PcsDataEncoded) -> bool {
    groups_queries(queries, superset, sets) && encodes_bdfg21(superset, sets, w, d)
}

/// Whether `constants` are the artifact's constants, as `is_artifact` states them.
#[verifier::opaque]
pub open spec fn artifact_constants_of(
    g: &SolidityGenerator,
    inputs: ArtifactInputs,
    base: Seq<(ConstantName, Word256)>,
    words: Seq<Word256>,
    superset: Seq<i32>,
    sets: Seq<RotationSet>,
    pcs_len: int,
    constants: Seq<(ConstantName, Word256)>,
) -> bool {
    constants == with_value(
        with_artifact_offsets(
            with_advices_user_challenges(base, words),
            parts_of(g, inputs, pcs_len),
            inputs.quotient_comm_cptr,
            g.key_data().shape.num_quotients,
        ),
        ConstantName::Fsm,
        word_of(artifact_fsm(g, inputs, superset, sets)),
    )
}

/// The queries' rotation sets and their encoded opening data.
fn opening_data(g: &SolidityGenerator, inputs: &ArtifactInputs) -> (res: (Vec<i32>, Vec<RotationSet>, PcsDataEncoded))
    requires
        distinct_openings(inputs.queries@),
        forall|superset: Seq<i32>, sets: Seq<RotationSet>|
            #[trigger] groups_queries(inputs.queries@, superset, sets) ==> artifact_fits(g, *inputs, superset, sets),
    ensures
        opening_data_of(inputs.queries@, inputs.w_cptr as int, res.0@, res.1@, res.2),
        max(
            max(
                transcript_memory_words(g.key_data().shape.num_advices@, g.key_data().shape.num_evals),
                pcs_memory_words(res.0.len() as int, res.1@),
            ),
            12,
        ) * 0x20 <= usize::MAX,
        res.2.spec_len() <= usize::MAX,
        crate::generator::rescaling_offset(parts_of(g, *inputs, res.2.spec_len())) <= usize::MAX,
{
    let (superset, sets) = rotation_sets(inputs.queries.as_slice());
    assert(groups_queries(inputs.queries@, superset@, sets@));
    assert(artifact_fits(g, *inputs, superset@, sets@));
    let d = pcs_data_encoded(&superset, &sets, inputs.w_cptr);
    assert(encodes_bdfg21(superset@, sets@, inputs.w_cptr as int, d));
    assert(opening_data_of(inputs.queries@, inputs.w_cptr as int, superset@, sets@, d)) by {
        reveal(opening_data_of);
    }
    (superset, sets, d)
}

/// The facts that make up `is_artifact`.
proof fn lemma_is_artifact(
    g: &SolidityGenerator,
    inputs: ArtifactInputs,
    a: Halo2VerifyingArtifact,
    base: Seq<(ConstantName, Word256)>,
    words: Seq<Word256>,
    superset: Seq<i32>,
    sets: Seq<RotationSet>,
)
    requires
        is_vk_constants(g, base, true),
        is_challenge_data(g, words),
        opening_data_of(inputs.queries@, inputs.w_cptr as int, superset, sets, a.pcs_computations),
        artifact_constants_of(g, inputs, base, words, superset, sets, a.pcs_computations.spec_len(), a.constants@),
        a.fixed_comms@ == g.key_data().fixed_comms@,
        a.permutation_comms@ == g.key_data().permutation_comms@,
        a.const_expressions@ == inputs.const_expressions@,
        a.gate_computations@ == inputs.gate_computations@,
        a.permutation_computations@ == inputs.permutation_computations@,
        a.lookup_computations@ == inputs.lookup_computations@,
        a.rescaling_computations.len() == scaled_words_len(num_scaled(g.scales_of(), g.instances())),
        holds(
            a.rescaling_computations@,
            rescaling_layout(g.scales_of(), g.instances(), g.decimals_of(), g.hash_count_of()),
        ),
    ensures
        is_artifact(g, inputs, a),
{
    reveal(opening_data_of);
    reveal(artifact_constants_of);
}

impl SolidityGenerator {
    /// The verifying artifact: the key's constants (with the packed advice/challenge counts,
    /// where the parts begin, where the quotient commitments lie and the working memory),
    /// commitments, constant expressions, quotient computations, encoded opening data and
    /// rescaling data.
    pub fn generate_verifying_artifact(&self, inputs: ArtifactInputs) -> (a: Halo2VerifyingArtifact)
        requires
            vk_constants_fit(self.key_data(), self.instances(), self.hash_count_of()),
            advices_capacity(self.key_data().shape.num_advices.len() as nat)
                <= NUM_ADVICES_USER_CHALLENGES_SLOTS,
            challenge_data_packable(
                self.key_data().shape.num_advices@,
                self.key_data().shape.num_challenges@,
            ),
            entry_words_len(
                num_phases(self.key_data().shape.num_advices@, self.key_data().shape.num_challenges@),
            ) <= NUM_ADVICES_USER_CHALLENGES_SLOTS,
            rescaling_data_packable(
                self.scales_of(),
                self.instances(),
                self.decimals_of(),
                self.hash_count_of(),
            ),
            0x20 * (artifact_names(self).len() + (self.key_data().fixed_comms.len()
                + self.key_data().permutation_comms.len()) * 2) <= usize::MAX,
            self.key_data().shape.num_quotients >= 1,
            inputs.quotient_comm_cptr + 0x40 * (self.key_data().shape.num_quotients - 1) <= usize::MAX,
            distinct_openings(inputs.queries@),
            forall|superset: Seq<i32>, sets: Seq<RotationSet>|
                #[trigger] groups_queries(inputs.queries@, superset, sets) ==> artifact_fits(
                    self,
                    inputs,
                    superset,
                    sets,
                ),
        ensures
            is_artifact(self, inputs, a),
    {
        let ghost g_inputs = inputs;
        let vk = self.generate_vk(true);
        let vk_len = vk.len(true);
        let crate::generator::Halo2VerifyingKey { constants, fixed_comms, permutation_comms } = vk;
        let mut constants = constants;
        let ghost base = constants@;
        let (superset, sets, pcs_computations) = opening_data(self, &inputs);
        self.set_num_advices_user_challenges(&mut constants);
        let ghost words = choose|words: Seq<Word256>|
            is_challenge_data(self, words) && #[trigger] with_advices_user_challenges(base, words)
                == constants@;
        let ghost with_words = constants@;
        let rescaling_computations = self.generate_rescaling_data();
        let pcs_len = pcs_computations.len();
        let parts = ArtifactParts {
            vk_mptr: 0xa0,
            vk_len_bytes: vk_len,
            num_const_expressions: inputs.const_expressions.len(),
            gate_len: inputs.gate_computations.len(),
            permutation_len: inputs.permutation_computations.len(),
            lookup_len: inputs.lookup_computations.len(),
            pcs_len,
        };
        assert(parts == parts_of(self, inputs, pcs_computations.spec_len()));
        set_artifact_offsets(&mut constants, &parts, inputs.quotient_comm_cptr, self.num_quotients());
        let fsm = self.estimate_static_working_memory_size(&superset, &sets, Some(inputs.quotient_eval_usage));
        let ghost with_offsets = constants@;
        set_constant_value(&mut constants, ConstantName::Fsm, Word256 { limb0: fsm as u64, limb1: 0, limb2: 0, limb3: 0 });
        proof {
            assert(with_words == with_advices_user_challenges(base, words));
            assert(constants@ == with_value(with_offsets, ConstantName::Fsm, word_of(fsm as int)));
            reveal(artifact_constants_of);
        }
        let ArtifactInputs {
            const_expressions,
            gate_computations,
            permutation_computations,
            lookup_computations,
            ..
        } = inputs;
        let a = Halo2VerifyingArtifact {
            constants,
            fixed_comms,
            permutation_comms,
            const_expressions,
            gate_computations,
            permutation_computations,
            lookup_computations,
            pcs_computations,
            rescaling_computations,
        };
        proof {
            lemma_is_artifact(self, g_inputs, a, base, words, superset@, sets@);
        }
        a
    }
}

/// The verifier with the key embedded: the scheme, the key, where the key and the
/// transcript's values lie, the shape of the proof, the quotient numerator computations and
/// the opening computation's lines.
pub struct Halo2Verifier {
    pub scheme: BatchOpenScheme,
    pub embedded_vk: Halo2VerifyingKey,
    pub proof_len: usize,
    pub vk_mptr: usize,
    pub challenge_mptr: usize,
    pub theta_mptr: usize,
    pub quotient_comm_cptr: usize,
    pub num_neg_lagranges: usize,
    pub num_advices: Vec<usize>,
    pub num_challenges: Vec<usize>,
    pub num_evals: usize,
    pub num_quotients: usize,
    pub quotient_eval_numer_computations: Vec<Vec<String>>,
    pub pcs_computations: Vec<Vec<Line>>,
}

/// Where the proof's values lie, as the proof's layout places them: the proof's length, the
/// memory of the challenges and of `theta`, where the quotient commitments begin in
/// calldata; with the opening queries of the proof and the byte of calldata where `W` lies.
pub struct ProofLayout {
    pub proof_len: usize,
    pub challenge_mptr: usize,
    pub theta_mptr: usize,
    pub quotient_comm_cptr: usize,
    pub queries: Vec<Query>,
    pub w_cptr: usize,
}

/// The working memory the verifier with the key embedded needs, before its key.
pub open spec fn verifier_fsm(g: &SolidityGenerator, superset: Seq<i32>, sets: Seq<RotationSet>) -> int {
    working_memory_size(
        g.key_data().shape.num_advices@,
        g.key_data().shape.num_evals,
        superset.len() as int,
        sets,
        None,
    )
}

/// Copies the counts.
fn copy_counts(v: &Vec<usize>) -> (c: Vec<usize>)
    ensures
        c@ == v@,
{
    let mut c: Vec<usize> = Vec::new();
    let mut i: usize = 0;
    while i < v.len()
        invariant
            i <= v.len(),
            c@ == v@.take(i as int),
        decreases v.len() - i,
    {
        c.push(v[i]);
        i += 1;
        assert(c@ =~= v@.take(i as int));
    }
    assert(v@.take(v.len() as int) =~= v@);
    c
}

impl SolidityGenerator {
    /// The verifier with the key embedded: the key (as `generate_vk(false)` gives it) placed
    /// after the verifier's working memory, the proof's layout, the number of negative
    /// Lagrange bases (the absolute last-row rotation), and each quotient numerator
    /// computation followed by the line that folds it in.
    pub fn generate_verifier(
        &self,
        computations: Vec<(Vec<String>, String)>,
        layout: ProofLayout,
    ) -> (v: Halo2Verifier)
        requires
            vk_constants_fit(self.key_data(), self.instances(), self.hash_count_of()),
            distinct_openings(layout.queries@),
            forall|superset: Seq<i32>, sets: Seq<RotationSet>|
                #[trigger] groups_queries(layout.queries@, superset, sets) ==> max(
                    max(
                        transcript_memory_words(
                            self.key_data().shape.num_advices@,
                            self.key_data().shape.num_evals,
                        ),
                        pcs_memory_words(superset.len() as int, sets),
                    ),
                    12,
                ) * 0x20 <= usize::MAX && static_fits(superset, sets, layout.w_cptr as int),
        ensures
            v.scheme == self.scheme_of(),
            is_vk_constants(self, v.embedded_vk.constants@, false),
            v.embedded_vk.fixed_comms@ == self.key_data().fixed_comms@,
            v.embedded_vk.permutation_comms@ == self.key_data().permutation_comms@,
            exists|superset: Seq<i32>, sets: Seq<RotationSet>|
                #[trigger] groups_queries(layout.queries@, superset, sets) && v.vk_mptr == verifier_fsm(
                    self,
                    superset,
                    sets,
                ) && groups_view(v.pcs_computations@) == static_lines(superset, sets, layout.w_cptr as int),
            v.proof_len == layout.proof_len,
            v.challenge_mptr == layout.challenge_mptr,
            v.theta_mptr == layout.theta_mptr,
            v.quotient_comm_cptr == layout.quotient_comm_cptr,
            v.num_neg_lagranges == abs(self.key_data().shape.rotation_last),
            v.num_advices@ == self.key_data().shape.num_advices@,
            v.num_challenges@ == self.key_data().shape.num_challenges@,
            v.num_evals == self.key_data().shape.num_evals,
            v.num_quotients == self.key_data().shape.num_quotients,
            v.quotient_eval_numer_computations.len() == computations.len(),
            forall|i: int|
                0 <= i < computations.len() ==> texts(
                    (#[trigger] v.quotient_eval_numer_computations@[i])@,
                ) == texts(computations@[i].0@).push(numer_line(i, computations@[i].1@)),
    {
        let vk = self.generate_vk(false);
        let (superset, sets) = rotation_sets(layout.queries.as_slice());
        assert(groups_queries(layout.queries@, superset@, sets@));
        proof {
            lemma_grouping_suits_static(layout.queries@, superset@, sets@, layout.w_cptr as int);
        }
        let vk_m = self.estimate_static_working_memory_size(&superset, &sets, None);
        let numer = quotient_eval_numer_computations(computations);
        let pcs_computations = static_computations(&superset, &sets, layout.w_cptr);
        let ProofLayout { proof_len, challenge_mptr, theta_mptr, quotient_comm_cptr, .. } = layout;
        Halo2Verifier {
            scheme: self.scheme(),
            embedded_vk: vk,
            proof_len,
            vk_mptr: vk_m,
            challenge_mptr,
            theta_mptr,
            quotient_comm_cptr,
            num_neg_lagranges: self.num_neg_lagranges(),
            num_advices: copy_counts(self.num_advices()),
            num_challenges: copy_counts(self.num_challenges()),
            num_evals: self.num_evals(),
            num_quotients: self.num_quotients(),
            quotient_eval_numer_computations: numer,
            pcs_computations,
        }
    }
}

} // verus!
