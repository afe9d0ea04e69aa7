use vstd::prelude::*;

use crate::generator::{
    lemma_num_coeffs_prefix, num_coeffs, pcs_memory_words, working_memory_size,
};
use crate::layout::{disjoint, fits, lemma_field_value, read_bits, well_laid, Field};
use crate::packer::{
    concat_ops, lemma_concat_ops_step, lemma_run_concat, lemma_run_word_grows, packed, run,
    start_state, step, PackOp, PackState, Packer,
};
use crate::evals::{encodes_r_evals, r_evals_computations, r_evals_encodable};
use crate::pairing::{encodes_pairing_input, pairing_encodable, pairing_input_computations};
use crate::location::{EcPoint, Ptr};
use crate::pcs::{
    before, comm_order, distinct_openings, has_query, lemma_comm_order_distinct, opened_at, opens,
    rotation_set_of, rotation_sets, rotation_sets_of, strictly_sorted, PcsDataEncoded, Query,
    RotationSet,
};
use crate::word::Word256;

verus! {

// Memory of the BDFG21 opening computation, in 32-byte slots from 0: slot 0 holds the
// first set's difference product, then the coefficients of the sets one after the other;
// from the free slot on lie the points, the `mu - point` values, the vanishing value, and
// one difference, one `r` evaluation and one coefficient sum per set.

/// The index of rotation `r` in the superset.
pub open spec fn rot_index(superset: Seq<i32>, r: i32) -> int {
    choose|k: int| 0 <= k < superset.len() && superset[k] == r
}

/// The first free slot: past the two batch-inverted areas and six scratch slots.
pub open spec fn free_slot(sets: Seq<RotationSet>) -> int {
    2 * (1 + num_coeffs(sets)) + 6
}

/// The byte address of the evaluation point of the `k`-th rotation.
pub open spec fn point_ptr(sets: Seq<RotationSet>, k: int) -> int {
    0x20 * (free_slot(sets) + k)
}

/// The byte address of `mu` minus the `k`-th point.
pub open spec fn mu_ptr(num_rots: int, sets: Seq<RotationSet>, k: int) -> int {
    0x20 * (free_slot(sets) + num_rots + k)
}

/// The byte address of the vanishing value.
pub open spec fn vanishing_ptr(num_rots: int, sets: Seq<RotationSet>) -> int {
    0x20 * (free_slot(sets) + 2 * num_rots)
}

/// The byte address of set `s`'s difference product.
pub open spec fn diff_ptr(num_rots: int, sets: Seq<RotationSet>, s: int) -> int {
    0x20 * (free_slot(sets) + 2 * num_rots + 1 + s)
}

/// The byte address of set `s`'s `r` evaluation.
pub open spec fn r_eval_ptr(num_rots: int, sets: Seq<RotationSet>, s: int) -> int {
    0x20 * (free_slot(sets) + 2 * num_rots + 1 + sets.len() + s)
}

/// The byte address of set `s`'s coefficient sum.
pub open spec fn sum_ptr(num_rots: int, sets: Seq<RotationSet>, s: int) -> int {
    0x20 * (free_slot(sets) + 2 * num_rots + 1 + 2 * sets.len() + s)
}

/// The byte address of set `s`'s `m`-th coefficient.
pub open spec fn coeff_ptr(sets: Seq<RotationSet>, s: int, m: int) -> int {
    0x20 * (1 + num_coeffs(sets.take(s)) + m)
}

/// Whether every address of the layout fits a machine word.
pub open spec fn layout_fits(num_rots: int, sets: Seq<RotationSet>) -> bool {
    0x20 * (free_slot(sets) + 2 * num_rots + 1 + 3 * sets.len()) <= usize::MAX
}

/// Whether byte address `a` starts a slot of the first `n` words of memory.
pub open spec fn slot_within(a: int, n: int) -> bool {
    0 <= a && a + 0x20 <= 0x20 * n
}

/// Every slot of the opening computation's memory layout lies within the scratch memory it
/// takes, and so within the working memory the generator reserves, whatever else that
/// memory is sized for.
pub proof fn lemma_layout_within_working_memory(
    num_advices: Seq<usize>,
    num_evals: usize,
    num_rots: int,
    sets: Seq<RotationSet>,
    quotient_eval_usage: Option<usize>,
)
    requires
        num_rots >= 0,
    ensures
        0x20 * pcs_memory_words(num_rots, sets) <= working_memory_size(
            num_advices,
            num_evals,
            num_rots,
            sets,
            quotient_eval_usage,
        ),
        forall|k: int|
            0 <= k < num_rots ==> slot_within(#[trigger] point_ptr(sets, k), pcs_memory_words(num_rots, sets))
                && slot_within(mu_ptr(num_rots, sets, k), pcs_memory_words(num_rots, sets)),
        slot_within(vanishing_ptr(num_rots, sets), pcs_memory_words(num_rots, sets)),
        forall|s: int|
            0 <= s < sets.len() ==> slot_within(#[trigger] diff_ptr(num_rots, sets, s), pcs_memory_words(num_rots, sets))
                && slot_within(r_eval_ptr(num_rots, sets, s), pcs_memory_words(num_rots, sets))
                && slot_within(sum_ptr(num_rots, sets, s), pcs_memory_words(num_rots, sets)),
        forall|s: int, m: int|
            0 <= s < sets.len() && 0 <= m < sets[s].rots@.len() ==> slot_within(
                #[trigger] coeff_ptr(sets, s, m),
                pcs_memory_words(num_rots, sets),
            ),
{
    lemma_num_coeffs_prefix(sets, 0);
    assert forall|s: int, m: int|
        0 <= s < sets.len() && 0 <= m < sets[s].rots@.len() implies slot_within(
        #[trigger] coeff_ptr(sets, s, m),
        pcs_memory_words(num_rots, sets),
    ) by {
        lemma_num_coeffs_prefix(sets, s);
        lemma_num_coeffs_prefix(sets, s + 1);
        assert(sets.take(s + 1).drop_last() =~= sets.take(s));
    }
}

/// Where rotation `r` is in the increasing superset, if it is there.
pub(crate) fn find_rot(superset: &Vec<i32>, r: i32) -> (res: Option<usize>)
    requires
        strictly_sorted(superset@),
    ensures
        match res {
            Some(k) => k < superset.len() && superset@[k as int] == r && rot_index(superset@, r)
                == k,
            None => !superset@.contains(r),
        },
{
    let mut k: usize = 0;
    while k < superset.len()
        invariant
            k <= superset.len(),
            strictly_sorted(superset@),
            forall|j: int| 0 <= j < k ==> superset@[j] != r,
        decreases superset.len() - k,
    {
        if superset[k] == r {
            proof {
                let c = rot_index(superset@, r);
                assert(0 <= k < superset.len() && superset@[k as int] == r);
                assert(0 <= c < superset.len() && superset@[c] == r);
                if c < k {
                    assert(superset@[c] < superset@[k as int]);
                } else if c > k {
                    assert(superset@[k as int] < superset@[c]);
                }
            }
            return Some(k);
        }
        k += 1;
    }
    None
}

/// The number of coefficients of the sets.
pub(crate) fn coeff_count(sets: &Vec<RotationSet>) -> (n: usize)
    requires
        num_coeffs(sets@) <= usize::MAX,
    ensures
        n == num_coeffs(sets@),
{
    let mut n: usize = 0;
    let mut i: usize = 0;
    while i < sets.len()
        invariant
            i <= sets.len(),
            num_coeffs(sets@) <= usize::MAX,
            n == num_coeffs(sets@.take(i as int)),
        decreases sets.len() - i,
    {
        proof {
            lemma_num_coeffs_prefix(sets@, i + 1);
            assert(sets@.take(i + 1).drop_last() =~= sets@.take(i as int));
        }
        n = n + sets[i].rots.len();
        i += 1;
    }
    assert(sets@.take(sets.len() as int) =~= sets@);
    n
}

/// The first free slot, computed.
pub(crate) fn free_slot_of(superset: &Vec<i32>, sets: &Vec<RotationSet>) -> (f: usize)
    requires
        layout_fits(superset.len() as int, sets@),
    ensures
        f == free_slot(sets@),
{
    proof {
        lemma_num_coeffs_prefix(sets@, 0);
    }
    let nc = coeff_count(sets);
    2 * (1 + nc) + 6
}

/// The steps that put `width`-bit values one after the other, starting a new word where one
/// does not fit.
pub open spec fn greedy_ops(values: Seq<u64>, width: int) -> Seq<PackOp> {
    concat_ops(values, |v: u64| seq![PackOp::Reserve(width), PackOp::Put(v, width)])
}

/// The steps that put 16-bit values one after the other.
pub open spec fn halfword_ops(values: Seq<u64>) -> Seq<PackOp> {
    greedy_ops(values, 16)
}

/// The steps that put 8-bit values one after the other.
pub open spec fn byte_ops(values: Seq<u64>) -> Seq<PackOp> {
    greedy_ops(values, 8)
}

/// What greedy packing keeps true: it stays within 256 bits; its fields carry the values in
/// order, each `width` wide, never overlapping and never before bit `start` of the first word;
/// and each lies before the current bit of its word or in an earlier word.
pub open spec fn greedy_state_ok(st: PackState, start: int, values: Seq<u64>, width: int) -> bool {
    let fs = st.fields;
    &&& fs.len() == values.len()
    &&& 0 <= st.bit <= 256
    &&& st.word >= 0
    &&& st.word == 0 ==> st.bit >= start
    &&& forall|i: int|
        0 <= i < fs.len() ==> {
            let f = #[trigger] fs[i];
            &&& f.value == values[i]
            &&& f.width == width
            &&& 0 <= f.word <= st.word
            &&& 0 <= f.offset
            &&& f.offset + width <= 256
            &&& f.word == st.word ==> f.offset + width <= st.bit
            &&& f.word == 0 ==> f.offset >= start
        }
    &&& forall|i: int, j: int| 0 <= i < j < fs.len() ==> disjoint(#[trigger] fs[i], #[trigger] fs[j])
}

proof fn lemma_greedy_state(start: int, values: Seq<u64>, width: int, k: int)
    requires
        0 <= start <= 256,
        0 < width <= 256,
        0 <= k <= values.len(),
    ensures
        greedy_state_ok(
            run(start_state(start), greedy_ops(values.take(k), width)),
            start,
            values.take(k),
            width,
        ),
    decreases k,
{
    let g = |v: u64| seq![PackOp::Reserve(width), PackOp::Put(v, width)];
    if k == 0 {
        assert(values.take(0) =~= Seq::<u64>::empty());
    } else {
        lemma_greedy_state(start, values, width, k - 1);
        lemma_concat_ops_step(values, g, k - 1);
        let prev = greedy_ops(values.take(k - 1), width);
        lemma_run_concat(start_state(start), prev, g(values[k - 1]));
        let st0 = run(start_state(start), prev);
        assert(run(st0, g(values[k - 1])) == step(step(st0, PackOp::Reserve(width)), PackOp::Put(values[k - 1], width))) by {
            reveal_with_fuel(run, 3);
            assert(g(values[k - 1]).drop_last() =~= seq![PackOp::Reserve(width)]);
            assert(g(values[k - 1]).drop_last().drop_last() =~= Seq::<PackOp>::empty());
        }
        let st1 = step(st0, PackOp::Reserve(width));
        let st2 = step(st1, PackOp::Put(values[k - 1], width));
        let vs = values.take(k);
        assert(values.take(k - 1) =~= vs.drop_last());
        let nf = Field { word: st1.word, offset: st1.bit, width, value: values[k - 1] };
        assert(st2.fields == st1.fields.push(nf));
        assert forall|i: int| 0 <= i < st2.fields.len() implies {
            let f = #[trigger] st2.fields[i];
            &&& f.value == vs[i]
            &&& f.width == width
            &&& 0 <= f.word <= st2.word
            &&& 0 <= f.offset
            &&& f.offset + width <= 256
            &&& f.word == st2.word ==> f.offset + width <= st2.bit
            &&& f.word == 0 ==> f.offset >= start
        } by {
            if i < st0.fields.len() {
                assert(st2.fields[i] == st0.fields[i]);
                assert(vs[i] == values.take(k - 1)[i]);
            }
        }
        assert forall|i: int, j: int| 0 <= i < j < st2.fields.len() implies disjoint(
            #[trigger] st2.fields[i],
            #[trigger] st2.fields[j],
        ) by {
            if j < st0.fields.len() {
                assert(st2.fields[i] == st0.fields[i]);
                assert(st2.fields[j] == st0.fields[j]);
            } else {
                assert(st2.fields[i] == st0.fields[i]);
                assert(st2.fields[j] == nf);
            }
        }
    }
}

/// Greedy packing reads back: where each value fits `width` bits (at most 64) and the header
/// fields lie, well laid, in the first word below the starting bit, the `k`-th field of the
/// packing holds the `k`-th value, `width` bits wide, and reading it gives the value back; each
/// header field reads back too.
pub proof fn lemma_greedy_reads_back(
    words: Seq<Word256>,
    start: int,
    values: Seq<u64>,
    width: int,
    extra: Seq<Field>,
)
    requires
        packed(words, start, greedy_ops(values, width), extra),
        0 <= start <= 256,
        0 < width <= 64,
        forall|k: int| 0 <= k < values.len() ==> fits(#[trigger] values[k], width),
        well_laid(extra),
        forall|e: int| 0 <= e < extra.len() ==> (#[trigger] extra[e]).word == 0 && extra[e].offset + extra[e].width <= start,
    ensures
        ({
            let fs = run(start_state(start), greedy_ops(values, width)).fields;
            &&& fs.len() == values.len()
            &&& forall|k: int|
                0 <= k < values.len() ==> (#[trigger] fs[k]).value == values[k] && fs[k].width == width
                    && read_bits(words[fs[k].word], fs[k].offset, width as nat) == values[k]
        }),
        forall|e: int|
            0 <= e < extra.len() ==> read_bits(words[0], (#[trigger] extra[e]).offset, extra[e].width as nat)
                == extra[e].value,
{
    lemma_greedy_state(start, values, width, values.len() as int);
    assert(values.take(values.len() as int) =~= values);
    let fs = run(start_state(start), greedy_ops(values, width)).fields;
    let all = fs + extra;
    assert(well_laid(all)) by {
        assert forall|x: int| 0 <= x < all.len() implies (#[trigger] all[x]).width <= 64 && all[x].offset
            + all[x].width <= 256 by {
            if x >= fs.len() {
                assert(all[x] == extra[x - fs.len()]);
            }
        }
        assert forall|x: int| 0 <= x < all.len() implies fits(#[trigger] all[x].value, all[x].width) by {
            if x >= fs.len() {
                assert(all[x] == extra[x - fs.len()]);
            } else {
                assert(fits(values[x], width));
            }
        }
        assert forall|x: int, y: int|
            0 <= x < all.len() && 0 <= y < all.len() && x != y implies disjoint(
            #[trigger] all[x],
            #[trigger] all[y],
        ) by {
            if x < fs.len() && y < fs.len() {
                if x < y {
                    assert(disjoint(fs[x], fs[y]));
                } else {
                    assert(disjoint(fs[y], fs[x]));
                }
            } else if x >= fs.len() && y >= fs.len() {
                assert(all[x] == extra[x - fs.len()]);
                assert(all[y] == extra[y - fs.len()]);
            } else if x < fs.len() {
                assert(all[y] == extra[y - fs.len()]);
                assert(fs[x].word == 0 ==> fs[x].offset >= start);
            } else {
                assert(all[x] == extra[x - fs.len()]);
                assert(fs[y].word == 0 ==> fs[y].offset >= start);
            }
        }
    }
    assert forall|k: int| 0 <= k < values.len() implies (#[trigger] fs[k]).value == values[k] && fs[k].width
        == width && read_bits(words[fs[k].word], fs[k].offset, width as nat) == values[k] by {
        assert(all[k] == fs[k]);
        lemma_field_value(words, all, k);
    }
    assert forall|e: int| 0 <= e < extra.len() implies read_bits(
        words[0],
        (#[trigger] extra[e]).offset,
        extra[e].width as nat,
    ) == extra[e].value by {
        assert(all[fs.len() + e] == extra[e]);
        lemma_field_value(words, all, fs.len() + e);
    }
}

/// The fields or-ed into the first word after packing, from (value, offset, width) triples.
pub open spec fn header_fields(extra: Seq<(u64, usize, usize)>) -> Seq<Field> {
    Seq::new(
        extra.len() as nat,
        |i: int| Field { word: 0, offset: extra[i].1 as int, width: extra[i].2 as int, value: extra[i].0 },
    )
}

/// Puts `width`-bit values greedily with the packer.
pub(crate) fn greedy_extend(p: &mut Packer, values: &Vec<u64>, width: usize)
    requires
        old(p).wf(),
        old(p).bit() <= 256,
        0 < width <= 256,
    ensures
        final(p).wf(),
        final(p).start() == old(p).start(),
        final(p).bit() <= 256,
        final(p).ops() == old(p).ops() + greedy_ops(values@, width as int),
{
    let ghost base = p.ops();
    let mut i: usize = 0;
    while i < values.len()
        invariant
            i <= values.len(),
            0 < width <= 256,
            p.wf(),
            p.start() == old(p).start(),
            p.bit() <= 256,
            p.ops() == base + greedy_ops(values@.take(i as int), width as int),
        decreases values.len() - i,
    {
        proof {
            lemma_concat_ops_step(
                values@,
                |v: u64| seq![PackOp::Reserve(width as int), PackOp::Put(v, width as int)],
                i as int,
            );
        }
        p.reserve(width);
        p.put(values[i], width);
        assert(p.ops() =~= base + greedy_ops(values@.take(i + 1), width as int));
        i += 1;
    }
    assert(values@.take(values.len() as int) =~= values@);
}

/// A packer that has put `width`-bit values greedily from bit `start`.
fn greedy_packer(values: &Vec<u64>, width: usize, start: usize) -> (p: Packer)
    requires
        start <= 256,
        0 < width <= 256,
    ensures
        p.wf(),
        p.start() == start,
        p.ops() == greedy_ops(values@, width as int),
{
    let mut p = Packer::new(start);
    greedy_extend(&mut p, values, width);
    assert(p.ops() =~= greedy_ops(values@, width as int));
    p
}

/// Packs `width`-bit values greedily from bit `start`, then ors in the header fields.
fn pack_greedy(values: &Vec<u64>, width: usize, start: usize, header: &Vec<(u64, usize, usize)>) -> (words: Vec<Word256>)
    requires
        start <= 256,
        0 < width <= 256,
    ensures
        packed(words@, start as int, greedy_ops(values@, width as int), header_fields(header@)),
{
    let p = greedy_packer(values, width, start);
    p.finish(header)
}

/// The point address of rotation `r`, or 0 where no query opens at `r`.
pub open spec fn point_or_zero(superset: Seq<i32>, sets: Seq<RotationSet>, r: int) -> u64 {
    if superset.contains(r as i32) {
        point_ptr(sets, rot_index(superset, r as i32)) as u64
    } else {
        0
    }
}

/// The point addresses of rotations `1..=max`, where `max` is the largest rotation.
pub open spec fn positive_points(superset: Seq<i32>, sets: Seq<RotationSet>) -> Seq<u64> {
    let m = superset.last() as int;
    Seq::new(
        if m > 0 {
            m as nat
        } else {
            0nat
        },
        |j: int| point_or_zero(superset, sets, j + 1),
    )
}

/// The point addresses of rotations `-1` down to `min`, the smallest rotation.
pub open spec fn negative_points(superset: Seq<i32>, sets: Seq<RotationSet>) -> Seq<u64> {
    let m = superset[0] as int;
    Seq::new(
        if m < 0 {
            (-m) as nat
        } else {
            0nat
        },
        |j: int| point_or_zero(superset, sets, -1 - j),
    )
}

/// Words taken by the greedy packing of `ops` from bit `start`.
pub open spec fn packed_len(start: int, ops: Seq<PackOp>) -> int {
    run(start_state(start), ops).word + 1
}

/// Whether the rotations suit the point computation: some rotation, 0 among them, and the
/// largest below 256 and the smallest above -256 (each list's length fits a byte).
pub open spec fn points_encodable(superset: Seq<i32>, sets: Seq<RotationSet>) -> bool {
    &&& superset.len() > 0
    &&& strictly_sorted(superset)
    &&& superset.contains(0)
    &&& superset.last() < 256
    &&& superset[0] > -256
    &&& layout_fits(superset.len() as int, sets)
}

/// The point addresses of rotations `first`, `first + step`, ... (`len` of them), each 0
/// where no query opens at that rotation.
fn point_list(superset: &Vec<i32>, f: usize, first: i32, step: i32, len: usize) -> (v: Vec<u64>)
    requires
        strictly_sorted(superset@),
        step == 1 || step == -1,
        len < 256,
        -256 < first < 256,
        0x20 * (f + superset.len()) <= usize::MAX,
    ensures
        v.len() == len,
        forall|j: int|
            0 <= j < len ==> v@[j] == if superset@.contains((first + step * j) as i32) {
                (0x20 * (f + rot_index(superset@, (first + step * j) as i32))) as u64
            } else {
                0u64
            },
{
    let mut v: Vec<u64> = Vec::new();
    let mut j: usize = 0;
    while j < len
        invariant
            strictly_sorted(superset@),
            step == 1 || step == -1,
            j <= len < 256,
            -256 < first < 256,
            0x20 * (f + superset.len()) <= usize::MAX,
            v.len() == j,
            forall|i: int|
                0 <= i < j ==> v@[i] == if superset@.contains((first + step * i) as i32) {
                    (0x20 * (f + rot_index(superset@, (first + step * i) as i32))) as u64
                } else {
                    0u64
                },
        decreases len - j,
    {
        assert(-256 < step * (j as i32) < 256) by (nonlinear_arith)
            requires
                step == 1 || step == -1,
                0 <= j < 256,
        ;
        let r: i32 = first + step * (j as i32);
        let value: u64 = match find_rot(superset, r) {
            Some(k) => (0x20 * (f + k)) as u64,
            None => 0,
        };
        v.push(value);
        j += 1;
    }
    v
}

/// Whether `words` encode the point computation.
pub open spec fn encodes_points(superset: Seq<i32>, sets: Seq<RotationSet>, words: Seq<Word256>) -> bool {
    let pos = positive_points(superset, sets);
    let neg = negative_points(superset, sets);
    let n1 = packed_len(8, halfword_ops(pos));
    &&& 0 < n1 <= words.len()
    &&& packed(
        words.take(n1),
        8,
        halfword_ops(pos),
        header_fields(seq![(pos.len() as u64, 0usize, 8usize)]),
    )
    &&& packed(
        words.skip(n1),
        24,
        halfword_ops(neg),
        header_fields(
            seq![
                (point_ptr(sets, rot_index(superset, 0)) as u64, 0usize, 16usize),
                (neg.len() as u64, 16usize, 8usize),
            ],
        ),
    )
}

/// The encoded point computation: the point addresses of rotations `1..=max` packed two
/// bytes each after a byte holding their number; then those of rotations `-1` down to `min`
/// after a header holding the address of rotation 0's point and, from bit 16, their number.
pub fn point_computations(superset: &Vec<i32>, sets: &Vec<RotationSet>) -> (words: Vec<Word256>)
    requires
        points_encodable(superset@, sets@),
    ensures
        encodes_points(superset@, sets@, words@),
{
    let f = free_slot_of(superset, sets);
    let n = superset.len();
    let max_rot = superset[n - 1];
    let min_rot = superset[0];
    let pos_len: usize = if max_rot > 0 {
        max_rot as usize
    } else {
        0
    };
    let neg_len: usize = if min_rot < 0 {
        (-min_rot) as usize
    } else {
        0
    };
    let pos = point_list(superset, f, 1, 1, pos_len);
    let neg = point_list(superset, f, -1, -1, neg_len);
    let ghost pos_spec = positive_points(superset@, sets@);
    let ghost neg_spec = negative_points(superset@, sets@);
    assert(pos@ =~= pos_spec);
    assert(neg@ =~= neg_spec);
    let zero_ptr: u64 = match find_rot(superset, 0) {
        Some(k) => (0x20 * (f + k)) as u64,
        None => 0,
    };
    let mut pos_header: Vec<(u64, usize, usize)> = Vec::new();
    pos_header.push((pos_len as u64, 0, 8));
    let mut neg_header: Vec<(u64, usize, usize)> = Vec::new();
    neg_header.push((zero_ptr, 0, 16));
    neg_header.push((neg_len as u64, 16, 8));
    assert(pos_header@ =~= seq![(pos_spec.len() as u64, 0usize, 8usize)]);
    assert(neg_header@ =~= seq![
        (point_ptr(sets@, rot_index(superset@, 0)) as u64, 0usize, 16usize),
        (neg_spec.len() as u64, 16usize, 8usize),
    ]);
    let mut words = pack_greedy(&pos, 16, 8, &pos_header);
    let ghost first = words@;
    let mut second = pack_greedy(&neg, 16, 24, &neg_header);
    let ghost second_words = second@;
    words.append(&mut second);
    proof {
        lemma_run_word_grows(start_state(8), halfword_ops(pos_spec));
    }
    assert(words@.take(first.len() as int) =~= first);
    assert(words@.skip(first.len() as int) =~= second_words);
    words
}

/// Whether every rotation (and difference) of every set is among the superset's.
pub open spec fn sets_within(superset: Seq<i32>, sets: Seq<RotationSet>) -> bool {
    &&& forall|s: int, r: i32|
        0 <= s < sets.len() && #[trigger] sets[s].rots@.contains(r) ==> superset.contains(r)
    &&& forall|s: int, r: i32|
        0 <= s < sets.len() && #[trigger] sets[s].diffs@.contains(r) ==> superset.contains(r)
}

/// The addresses of the slots `base + k`, `k` the index of each rotation of `rots` in the
/// superset, in order.
pub open spec fn slot_values(superset: Seq<i32>, base: int, rots: Seq<i32>) -> Seq<u64> {
    Seq::new(rots.len(), |i: int| (0x20 * (base + rot_index(superset, rots[i]))) as u64)
}

/// The addresses of `mu` minus the points of the rotations, in order.
pub open spec fn mu_values(superset: Seq<i32>, sets: Seq<RotationSet>, rots: Seq<i32>) -> Seq<u64> {
    slot_values(superset, free_slot(sets) + superset.len(), rots)
}

/// The addresses of the points of the rotations, in order.
pub open spec fn point_values(superset: Seq<i32>, sets: Seq<RotationSet>, rots: Seq<i32>) -> Seq<u64> {
    slot_values(superset, free_slot(sets), rots)
}

/// The addresses of the slots `base + k`, for each rotation of `rots` (all in the superset).
fn slot_list(superset: &Vec<i32>, base: usize, rots: &Vec<i32>) -> (v: Vec<u64>)
    requires
        strictly_sorted(superset@),
        0x20 * (base + superset.len()) <= usize::MAX,
        forall|r: i32| rots@.contains(r) ==> superset@.contains(r),
    ensures
        v@ == slot_values(superset@, base as int, rots@),
{
    let mut v: Vec<u64> = Vec::new();
    let mut i: usize = 0;
    while i < rots.len()
        invariant
            strictly_sorted(superset@),
            0x20 * (base + superset.len()) <= usize::MAX,
            forall|r: i32| rots@.contains(r) ==> superset@.contains(r),
            i <= rots.len(),
            v@ == slot_values(superset@, base as int, rots@).take(i as int),
        decreases rots.len() - i,
    {
        assert(rots@.contains(rots@[i as int]));
        let k = match find_rot(superset, rots[i]) {
            Some(k) => k,
            None => 0,
        };
        v.push((0x20 * (base + k)) as u64);
        i += 1;
        assert(v@ =~= slot_values(superset@, base as int, rots@).take(i as int));
    }
    assert(slot_values(superset@, base as int, rots@).take(rots.len() as int) =~= slot_values(
        superset@,
        base as int,
        rots@,
    ));
    v
}

/// The steps that put 16-bit values one after the other in one word.
pub open spec fn plain_halfword_ops(values: Seq<u64>) -> Seq<PackOp> {
    concat_ops(values, |v: u64| seq![PackOp::Put(v, 16)])
}

/// The fields of 16-bit values put one after the other from bit 0.
proof fn lemma_plain_fields(values: Seq<u64>, k: int)
    requires
        0 <= k <= values.len(),
    ensures
        ({
            let st = run(start_state(0), plain_halfword_ops(values.take(k)));
            &&& st.word == 0
            &&& st.bit == 16 * k
            &&& st.fields.len() == k
            &&& forall|i: int|
                0 <= i < k ==> #[trigger] st.fields[i] == (Field {
                    word: 0,
                    offset: 16 * i,
                    width: 16,
                    value: values[i],
                })
        }),
    decreases k,
{
    if k == 0 {
        assert(values.take(0) =~= Seq::<u64>::empty());
    } else {
        lemma_plain_fields(values, k - 1);
        lemma_concat_ops_step(values, |v: u64| seq![PackOp::Put(v, 16)], k - 1);
        let prev = plain_halfword_ops(values.take(k - 1));
        let ops = plain_halfword_ops(values.take(k));
        assert(ops.drop_last() =~= prev);
        let st0 = run(start_state(0), prev);
        let st = run(start_state(0), ops);
        assert(st == step(st0, PackOp::Put(values[k - 1], 16)));
        assert forall|i: int| 0 <= i < k implies #[trigger] st.fields[i] == (Field {
            word: 0,
            offset: 16 * i,
            width: 16,
            value: values[i],
        }) by {
            if i < k - 1 {
                assert(st.fields[i] == st0.fields[i]);
            }
        }
    }
}

/// A word of 16-bit values put one after the other from bit 0 reads back: where there are at
/// most sixteen values, each below `2^16`, the `i`-th lies in bits `16 i` to `16 i + 15`.
pub proof fn lemma_plain_reads_back(w: Word256, values: Seq<u64>)
    requires
        packed(seq![w], 0, plain_halfword_ops(values), Seq::empty()),
        values.len() <= 16,
        forall|i: int| 0 <= i < values.len() ==> fits(#[trigger] values[i], 16),
    ensures
        forall|i: int| 0 <= i < values.len() ==> read_bits(w, 16 * i, 16) == #[trigger] values[i],
{
    lemma_plain_fields(values, values.len() as int);
    assert(values.take(values.len() as int) =~= values);
    let fs = run(start_state(0), plain_halfword_ops(values)).fields;
    let all = fs + Seq::<Field>::empty();
    assert(all =~= fs);
    assert(well_laid(fs)) by {
        assert forall|x: int, y: int|
            0 <= x < fs.len() && 0 <= y < fs.len() && x != y implies disjoint(
            #[trigger] fs[x],
            #[trigger] fs[y],
        ) by {
            assert(fs[x].offset == 16 * x);
            assert(fs[y].offset == 16 * y);
        }
        assert forall|x: int| 0 <= x < fs.len() implies fits(#[trigger] fs[x].value, fs[x].width) by {
            assert(fs[x].value == values[x]);
        }
    }
    assert forall|i: int| 0 <= i < values.len() implies read_bits(w, 16 * i, 16) == #[trigger] values[i] by {
        lemma_field_value(seq![w], fs, i);
        assert(fs[i].word == 0);
        assert(seq![w][0] == w);
    }
}

/// Packs 16-bit values one after the other from bit 0 of a single word.
fn pack_plain_halfwords(values: &Vec<u64>) -> (w: Word256)
    requires
        values.len() <= 16,
    ensures
        packed(seq![w], 0, plain_halfword_ops(values@), Seq::empty()),
{
    let mut p = Packer::new(0);
    let mut i: usize = 0;
    while i < values.len()
        invariant
            i <= values.len() <= 16,
            p.wf(),
            p.start() == 0,
            p.bit() == 16 * i,
            p.ops() == plain_halfword_ops(values@.take(i as int)),
            run(start_state(0), p.ops()).word == 0,
        decreases values.len() - i,
    {
        proof {
            lemma_concat_ops_step(values@, |v: u64| seq![PackOp::Put(v, 16)], i as int);
        }
        p.put(values[i], 16);
        assert(p.ops() =~= plain_halfword_ops(values@.take(i + 1)));
        assert(p.ops().drop_last() =~= plain_halfword_ops(values@.take(i as int)));
        i += 1;
    }
    assert(values@.take(values.len() as int) =~= values@);
    let empty: Vec<(u64, usize, usize)> = Vec::new();
    let words = p.finish(&empty);
    assert(header_fields(empty@) =~= Seq::<Field>::empty());
    assert(words@ =~= seq![words@[0]]);
    words[0]
}

/// The differences of set `s` as the addresses of their `mu` minus point values; a set with
/// no difference gets the address 0x20, where 1 is kept.
pub open spec fn diff_values(superset: Seq<i32>, sets: Seq<RotationSet>, s: int) -> Seq<u64> {
    if sets[s].diffs.len() == 0 {
        seq![0x20u64]
    } else {
        mu_values(superset, sets, sets[s].diffs@)
    }
}

/// Whether the sets suit the vanishing computation: at least one set, each with at most 16
/// differences, all rotations within the superset.
pub open spec fn vanishing_encodable(superset: Seq<i32>, sets: Seq<RotationSet>) -> bool {
    &&& superset.len() > 0
    &&& strictly_sorted(superset)
    &&& sets.len() > 0
    &&& sets_within(superset, sets)
    &&& forall|s: int| 0 <= s < sets.len() ==> (#[trigger] sets[s]).diffs.len() <= 16
    &&& layout_fits(superset.len() as int, sets)
}

/// Whether `words` encode the vanishing computation.
pub open spec fn encodes_vanishing(superset: Seq<i32>, sets: Seq<RotationSet>, words: Seq<Word256>) -> bool {
    let p = superset.len() as int;
    let s_ptrs = mu_values(superset, sets, sets[0].rots@);
    let n1 = packed_len(56, halfword_ops(s_ptrs));
    &&& words.len() == n1 + 1 + sets.len()
    &&& packed(
        words.take(n1),
        56,
        halfword_ops(s_ptrs),
        header_fields(
            seq![
                (mu_ptr(p, sets, 0) as u64, 0usize, 16usize),
                (vanishing_ptr(p, sets) as u64, 16usize, 16usize),
                ((0x20 * free_slot(sets)) as u64, 32usize, 16usize),
                (n1 as u64, 48usize, 8usize),
            ],
        ),
    )
    &&& packed(
        seq![words[n1]],
        0,
        seq![
            PackOp::Put(vanishing_ptr(p, sets) as u64, 16),
            PackOp::Put(sets.len() as u64, 16),
        ],
        Seq::empty(),
    )
    &&& forall|s: int|
        0 <= s < sets.len() ==> packed(
            seq![#[trigger] words[n1 + 1 + s]],
            0,
            plain_halfword_ops(diff_values(superset, sets, s)),
            Seq::empty(),
        )
}

/// The encoded vanishing computation: a header word (from bit 0, two bytes each: the first
/// `mu` minus point address, the vanishing address, the free address, then a byte with the
/// number of words) followed by the first set's `mu` minus point addresses two bytes each;
/// a word with the vanishing address and the number of sets; and per set a word of its
/// difference addresses.
pub fn vanishing_computations(superset: &Vec<i32>, sets: &Vec<RotationSet>) -> (words: Vec<Word256>)
    requires
        vanishing_encodable(superset@, sets@),
    ensures
        encodes_vanishing(superset@, sets@, words@),
{
    let ghost ss = sets@;
    let f = free_slot_of(superset, sets);
    let n = superset.len();
    assert forall|r: i32| sets[0].rots@.contains(r) implies superset@.contains(r) by {
        assert(sets@[0].rots@.contains(r));
    }
    let s_ptrs = slot_list(superset, f + n, &sets[0].rots);
    // The header word: pointers, then the s pointers, then the number of words.
    let p = greedy_packer(&s_ptrs, 16, 56);
    let ghost n1 = packed_len(56, halfword_ops(s_ptrs@));
    let count = p.words_len();
    let mut header: Vec<(u64, usize, usize)> = Vec::new();
    header.push(((0x20 * (f + n)) as u64, 0, 16));
    header.push(((0x20 * (f + 2 * n)) as u64, 16, 16));
    header.push(((0x20 * f) as u64, 32, 16));
    header.push((count as u64, 48, 8));
    assert(header@ =~= seq![
        (mu_ptr(n as int, ss, 0) as u64, 0usize, 16usize),
        (vanishing_ptr(n as int, ss) as u64, 16usize, 16usize),
        ((0x20 * free_slot(ss)) as u64, 32usize, 16usize),
        (n1 as u64, 48usize, 8usize),
    ]);
    let mut words = p.finish(&header);
    let ghost first = words@;
    assert(packed(
        first,
        56,
        halfword_ops(s_ptrs@),
        header_fields(
            seq![
                (mu_ptr(n as int, ss, 0) as u64, 0usize, 16usize),
                (vanishing_ptr(n as int, ss) as u64, 16usize, 16usize),
                ((0x20 * free_slot(ss)) as u64, 32usize, 16usize),
                (n1 as u64, 48usize, 8usize),
            ],
        ),
    ));
    proof {
        lemma_run_word_grows(start_state(56), halfword_ops(s_ptrs@));
    }
    // The vanishing address and the number of sets.
    let mut q = Packer::new(0);
    q.put((0x20 * (f + 2 * n)) as u64, 16);
    q.put(sets.len() as u64, 16);
    let empty: Vec<(u64, usize, usize)> = Vec::new();
    let ghost q_ops = q.ops();
    let mut second = q.finish(&empty);
    let ghost second_words = second@;
    assert(run(start_state(0), q_ops).word == 0) by {
        reveal_with_fuel(run, 3);
    }
    assert(q_ops =~= seq![
        PackOp::Put(vanishing_ptr(n as int, ss) as u64, 16),
        PackOp::Put(sets.len() as u64, 16),
    ]);
    words.append(&mut second);
    // Per set, its difference addresses.
    let mut s: usize = 0;
    while s < sets.len()
        invariant
            vanishing_encodable(superset@, ss),
            ss == sets@,
            f == free_slot(ss),
            n == superset.len(),
            s <= sets.len(),
            words.len() == first.len() + 1 + s,
            words@.take(first.len() + 1 as int) == first + second_words,
            forall|t: int|
                0 <= t < s ==> packed(
                    seq![#[trigger] words@[first.len() + 1 + t]],
                    0,
                    plain_halfword_ops(diff_values(superset@, ss, t)),
                    Seq::empty(),
                ),
        decreases sets.len() - s,
    {
        let set = &sets[s];
        assert(set == ss[s as int]);
        assert forall|r: i32| set.diffs@.contains(r) implies superset@.contains(r) by {
            assert(ss[s as int].diffs@.contains(r));
        }
        let values = if set.diffs.len() == 0 {
            let mut v: Vec<u64> = Vec::new();
            v.push(0x20);
            v
        } else {
            slot_list(superset, f + n, &set.diffs)
        };
        assert(values@ =~= diff_values(superset@, ss, s as int));
        let w = pack_plain_halfwords(&values);
        let ghost pre = words@;
        words.push(w);
        assert(words@.take(first.len() + 1 as int) =~= pre.take(first.len() + 1 as int));
        assert forall|t: int|
            0 <= t < s + 1 implies packed(
            seq![#[trigger] words@[first.len() + 1 + t]],
            0,
            plain_halfword_ops(diff_values(superset@, ss, t)),
            Seq::empty(),
        ) by {
            if t < s {
                assert(words@[first.len() + 1 + t] == pre[first.len() + 1 + t]);
            }
        }
        s += 1;
    }
    assert(first.len() == n1);
    assert(words@.take(n1) =~= first) by {
        assert(words@.take(n1) =~= words@.take(n1 + 1).take(n1));
    }
    assert(words@[n1] == second_words[0]) by {
        assert(words@[n1] == words@.take(n1 + 1)[n1]);
    }
    assert(second_words =~= seq![second_words[0]]);
    words
}

/// The number of rotations of each set.
pub open spec fn rot_counts(sets: Seq<RotationSet>) -> Seq<u64> {
    Seq::new(sets.len(), |s: int| sets[s].rots.len() as u64)
}

/// The addresses of set `s`'s coefficients.
pub open spec fn coeff_values(sets: Seq<RotationSet>, s: int) -> Seq<u64> {
    Seq::new(sets[s].rots@.len(), |m: int| coeff_ptr(sets, s, m) as u64)
}

/// Set `s`'s coefficient data: the addresses of its points where it has more than one
/// rotation, of its `mu` minus points, and of its coefficients.
pub open spec fn coeff_data(superset: Seq<i32>, sets: Seq<RotationSet>, s: int) -> Seq<u64> {
    let rots = sets[s].rots@;
    (if rots.len() > 1 {
        point_values(superset, sets, rots)
    } else {
        Seq::empty()
    }) + mu_values(superset, sets, rots) + coeff_values(sets, s)
}

/// Whether the sets suit the coefficient computation: all rotations within the superset,
/// at most five per set.
pub open spec fn coeff_encodable(superset: Seq<i32>, sets: Seq<RotationSet>) -> bool {
    &&& strictly_sorted(superset)
    &&& sets_within(superset, sets)
    &&& forall|s: int| 0 <= s < sets.len() ==> (#[trigger] sets[s]).rots.len() <= 5
    &&& layout_fits(superset.len() as int, sets)
}

/// The addresses of the `len` slots from `base` on.
fn slot_range(base: usize, len: usize) -> (v: Vec<u64>)
    requires
        0x20 * (base + len) <= usize::MAX,
    ensures
        v@ == Seq::new(len as nat, |m: int| (0x20 * (base + m)) as u64),
{
    let mut v: Vec<u64> = Vec::new();
    let mut m: usize = 0;
    while m < len
        invariant
            m <= len,
            0x20 * (base + len) <= usize::MAX,
            v@ == Seq::new(m as nat, |j: int| (0x20 * (base + j)) as u64),
        decreases len - m,
    {
        v.push((0x20 * (base + m)) as u64);
        m += 1;
        assert(v@ =~= Seq::new(m as nat, |j: int| (0x20 * (base + j)) as u64));
    }
    v
}

/// Whether `words` encode the coefficient computation.
pub open spec fn encodes_coeffs(superset: Seq<i32>, sets: Seq<RotationSet>, words: Seq<Word256>) -> bool {
    let counts = rot_counts(sets);
    let n1 = packed_len(8, byte_ops(counts));
    &&& words.len() == n1 + sets.len()
    &&& packed(
        words.take(n1),
        8,
        byte_ops(counts),
        header_fields(seq![(n1 as u64, 0usize, 8usize)]),
    )
    &&& forall|s: int|
        0 <= s < sets.len() ==> packed(
            seq![#[trigger] words[n1 + s]],
            0,
            plain_halfword_ops(coeff_data(superset, sets, s)),
            Seq::empty(),
        )
}

/// The encoded coefficient computation: the number of rotations of each set, a byte each,
/// packed greedily after a byte holding the number of words they take; then per set a word
/// of its coefficient data, two bytes per address.
pub fn coeff_computations(superset: &Vec<i32>, sets: &Vec<RotationSet>) -> (words: Vec<Word256>)
    requires
        coeff_encodable(superset@, sets@),
    ensures
        encodes_coeffs(superset@, sets@, words@),
{
    let ghost ss = sets@;
    let f = free_slot_of(superset, sets);
    let n = superset.len();
    let mut counts: Vec<u64> = Vec::new();
    let mut i: usize = 0;
    while i < sets.len()
        invariant
            i <= sets.len(),
            ss == sets@,
            counts@ == rot_counts(ss).take(i as int),
        decreases sets.len() - i,
    {
        counts.push(sets[i].rots.len() as u64);
        i += 1;
        assert(counts@ =~= rot_counts(ss).take(i as int));
    }
    assert(rot_counts(ss).take(sets.len() as int) =~= rot_counts(ss));
    let p = greedy_packer(&counts, 8, 8);
    let ghost n1 = packed_len(8, byte_ops(counts@));
    let count = p.words_len();
    let mut header: Vec<(u64, usize, usize)> = Vec::new();
    header.push((count as u64, 0, 8));
    assert(header@ =~= seq![(n1 as u64, 0usize, 8usize)]);
    let mut words = p.finish(&header);
    let ghost first = words@;
    proof {
        lemma_num_coeffs_prefix(ss, 0);
        assert(ss.take(0) =~= Seq::<RotationSet>::empty());
    }
    // Per set, its coefficient data; `next` is the slot of the set's first coefficient.
    let mut next: usize = 1;
    let mut s: usize = 0;
    while s < sets.len()
        invariant
            coeff_encodable(superset@, ss),
            ss == sets@,
            f == free_slot(ss),
            n == superset.len(),
            s <= sets.len(),
            next == 1 + num_coeffs(ss.take(s as int)),
            words.len() == first.len() + s,
            words@.take(first.len() as int) == first,
            forall|t: int|
                0 <= t < s ==> packed(
                    seq![#[trigger] words@[first.len() + t]],
                    0,
                    plain_halfword_ops(coeff_data(superset@, ss, t)),
                    Seq::empty(),
                ),
        decreases sets.len() - s,
    {
        let set = &sets[s];
        assert(set == ss[s as int]);
        proof {
            lemma_num_coeffs_prefix(ss, s + 1);
            assert(ss.take(s + 1).drop_last() =~= ss.take(s as int));
        }
        assert forall|r: i32| set.rots@.contains(r) implies superset@.contains(r) by {
            assert(ss[s as int].rots@.contains(r));
        }
        let len = set.rots.len();
        let mut data: Vec<u64> = if len > 1 {
            slot_list(superset, f, &set.rots)
        } else {
            Vec::new()
        };
        let ghost d0 = data@;
        let mut mus = slot_list(superset, f + n, &set.rots);
        let ghost d1 = mus@;
        data.append(&mut mus);
        let mut coeffs = slot_range(next, len);
        let ghost d2 = coeffs@;
        data.append(&mut coeffs);
        assert(d2 =~= coeff_values(ss, s as int));
        assert(data@ =~= coeff_data(superset@, ss, s as int));
        let w = pack_plain_halfwords(&data);
        let ghost pre = words@;
        words.push(w);
        assert(words@.take(first.len() as int) =~= pre.take(first.len() as int));
        assert forall|t: int|
            0 <= t < s + 1 implies packed(
            seq![#[trigger] words@[first.len() + t]],
            0,
            plain_halfword_ops(coeff_data(superset@, ss, t)),
            Seq::empty(),
        ) by {
            if t < s {
                assert(words@[first.len() + t] == pre[first.len() + t]);
            }
        }
        next = next + len;
        s += 1;
    }
    assert(first.len() == n1);
    words
}

/// Whether `w` encodes the normalisation of the coefficients.
pub open spec fn encodes_normalized_coeff(superset: Seq<i32>, sets: Seq<RotationSet>, w: Word256) -> bool {
    packed(
        seq![w],
        0,
        plain_halfword_ops(
            seq![
                (0x20 * (1 + num_coeffs(sets))) as u64,
                diff_ptr(superset.len() as int, sets, 0) as u64,
                (32 * sets.len()) as u64,
            ],
        ),
        Seq::empty(),
    )
}

/// The encoded normalisation of the coefficients: from bit 0, two bytes each, the end of the
/// first batch inversion, the first set's difference address, and 32 times the number of
/// sets.
pub fn normalized_coeff_computations(superset: &Vec<i32>, sets: &Vec<RotationSet>) -> (w: Word256)
    requires
        sets.len() > 0,
        layout_fits(superset.len() as int, sets@),
    ensures
        encodes_normalized_coeff(superset@, sets@, w),
{
    let f = free_slot_of(superset, sets);
    let n = superset.len();
    proof {
        lemma_num_coeffs_prefix(sets@, 0);
    }
    let nc = coeff_count(sets);
    let mut values: Vec<u64> = Vec::new();
    values.push((0x20 * (1 + nc)) as u64);
    values.push((0x20 * (f + 2 * n + 1)) as u64);
    values.push((32 * sets.len()) as u64);
    assert(values@ =~= seq![
        (0x20 * (1 + num_coeffs(sets@))) as u64,
        diff_ptr(n as int, sets@, 0) as u64,
        (32 * sets.len()) as u64,
    ]);
    pack_plain_halfwords(&values)
}

/// The steps of the coefficient sums: per set, room for three bytes, then 32 times its
/// number of rotations in a byte and its sum's address in two.
pub open spec fn coeff_sum_ops(num_rots: int, sets: Seq<RotationSet>) -> Seq<PackOp> {
    concat_ops(
        Seq::new(sets.len(), |s: int| s),
        |s: int|
            seq![
                PackOp::Reserve(24),
                PackOp::Put((32 * sets[s].rots.len()) as u64, 8),
                PackOp::Put(sum_ptr(num_rots, sets, s) as u64, 16),
            ],
    )
}

/// Whether `words` encode the coefficient sums.
pub open spec fn encodes_coeff_sums(superset: Seq<i32>, sets: Seq<RotationSet>, words: Seq<Word256>) -> bool {
    let ops = coeff_sum_ops(superset.len() as int, sets);
    let n1 = packed_len(8, ops);
    &&& packed(words, 8, ops, header_fields(seq![(n1 as u64, 0usize, 8usize)]))
}

/// The encoded coefficient sums: per set, 32 times its number of rotations and the address
/// of its sum, packed greedily after a byte holding the number of words they take.
pub fn coeff_sums_computation(superset: &Vec<i32>, sets: &Vec<RotationSet>) -> (words: Vec<Word256>)
    requires
        forall|s: int| 0 <= s < sets.len() ==> 32 * (#[trigger] sets[s]).rots.len() < 256,
        layout_fits(superset.len() as int, sets@),
    ensures
        encodes_coeff_sums(superset@, sets@, words@),
{
    let ghost ss = sets@;
    let ghost p_len = superset.len() as int;
    let ghost g = |s: int|
        seq![
            PackOp::Reserve(24),
            PackOp::Put((32 * ss[s].rots.len()) as u64, 8),
            PackOp::Put(sum_ptr(p_len, ss, s) as u64, 16),
        ];
    let ghost idx = Seq::new(ss.len(), |s: int| s);
    let f = free_slot_of(superset, sets);
    let n = superset.len();
    let mut p = Packer::new(8);
    let mut s: usize = 0;
    while s < sets.len()
        invariant
            ss == sets@,
            p_len == n,
            n == superset.len(),
            f == free_slot(ss),
            layout_fits(p_len, ss),
            forall|t: int| 0 <= t < sets.len() ==> 32 * (#[trigger] sets[t]).rots.len() < 256,
            idx == Seq::new(ss.len(), |s: int| s),
            g == (|s: int|
                seq![
                    PackOp::Reserve(24),
                    PackOp::Put((32 * ss[s].rots.len()) as u64, 8),
                    PackOp::Put(sum_ptr(p_len, ss, s) as u64, 16),
                ]),
            s <= sets.len(),
            p.wf(),
            p.start() == 8,
            p.bit() <= 256,
            p.ops() == concat_ops(idx.take(s as int), g),
        decreases sets.len() - s,
    {
        proof {
            lemma_concat_ops_step(idx, g, s as int);
        }
        let len = sets[s].rots.len();
        p.reserve(24);
        p.put((32 * len) as u64, 8);
        p.put((0x20 * (f + 2 * n + 1 + 2 * sets.len() + s)) as u64, 16);
        assert(p.ops() =~= concat_ops(idx.take(s + 1), g));
        s += 1;
    }
    assert(idx.take(sets.len() as int) =~= idx);
    let count = p.words_len();
    let mut header: Vec<(u64, usize, usize)> = Vec::new();
    header.push((count as u64, 0, 8));
    p.finish(&header)
}

/// Whether `w` encodes the `r` evaluation.
pub open spec fn encodes_r_eval(superset: Seq<i32>, sets: Seq<RotationSet>, w: Word256) -> bool {
    packed(
        seq![w],
        0,
        plain_halfword_ops(
            seq![
                (0x20 * sets.len()) as u64,
                sum_ptr(superset.len() as int, sets, 0) as u64,
                r_eval_ptr(superset.len() as int, sets, sets.len() - 1) as u64,
            ],
        ),
        Seq::empty(),
    )
}

/// The encoded `r` evaluation: from bit 0, two bytes each, the end of the second batch
/// inversion, the first set's sum address and the last set's `r` evaluation address.
pub fn r_eval_computations(superset: &Vec<i32>, sets: &Vec<RotationSet>) -> (w: Word256)
    requires
        sets.len() > 0,
        layout_fits(superset.len() as int, sets@),
    ensures
        encodes_r_eval(superset@, sets@, w),
{
    let f = free_slot_of(superset, sets);
    let n = superset.len();
    let ns = sets.len();
    let mut values: Vec<u64> = Vec::new();
    values.push((0x20 * ns) as u64);
    values.push((0x20 * (f + 2 * n + 1 + 2 * ns)) as u64);
    values.push((0x20 * (f + 2 * n + 1 + ns + ns - 1)) as u64);
    assert(values@ =~= seq![
        (0x20 * ns) as u64,
        sum_ptr(n as int, sets@, 0) as u64,
        r_eval_ptr(n as int, sets@, ns - 1) as u64,
    ]);
    pack_plain_halfwords(&values)
}

/// Whether the rotations and sets suit every part of the encoding, `W` lying at byte `w` of
/// calldata.
pub open spec fn bdfg21_encodable(superset: Seq<i32>, sets: Seq<RotationSet>, w: int) -> bool {
    &&& points_encodable(superset, sets)
    &&& vanishing_encodable(superset, sets)
    &&& coeff_encodable(superset, sets)
    &&& r_evals_encodable(superset, sets)
    &&& pairing_encodable(superset, sets, w)
}

/// Whether `d` encodes the BDFG21 opening computation for the rotations and sets, `W` lying
/// at byte `w` of calldata.
pub open spec fn encodes_bdfg21(superset: Seq<i32>, sets: Seq<RotationSet>, w: int, d: PcsDataEncoded) -> bool {
    &&& encodes_points(superset, sets, d.point_computations@)
    &&& encodes_vanishing(superset, sets, d.vanishing_computations@)
    &&& encodes_coeffs(superset, sets, d.coeff_computations@)
    &&& encodes_normalized_coeff(superset, sets, d.normalized_coeff_computations)
    &&& encodes_r_evals(superset, sets, d.r_evals_computations@)
    &&& encodes_coeff_sums(superset, sets, d.coeff_sums_computation@)
    &&& encodes_r_eval(superset, sets, d.r_eval_computations)
    &&& encodes_pairing_input(superset, sets, w, d.pairing_input_computations@)
}

/// The encoded BDFG21 opening computation for the opened rotations and the rotation sets,
/// `W` lying at byte `w_cptr` of calldata.
pub fn pcs_data_encoded(superset: &Vec<i32>, sets: &Vec<RotationSet>, w_cptr: usize) -> (d: PcsDataEncoded)
    requires
        bdfg21_encodable(superset@, sets@, w_cptr as int),
    ensures
        encodes_bdfg21(superset@, sets@, w_cptr as int, d),
{
    assert forall|s: int| 0 <= s < sets.len() implies 32 * (#[trigger] sets[s]).rots.len() < 256 by {
        assert(1 <= sets@[s].rots@.len() <= 7);
    }
    PcsDataEncoded {
        point_computations: point_computations(superset, sets),
        vanishing_computations: vanishing_computations(superset, sets),
        coeff_computations: coeff_computations(superset, sets),
        normalized_coeff_computations: normalized_coeff_computations(superset, sets),
        r_evals_computations: r_evals_computations(superset, sets),
        coeff_sums_computation: coeff_sums_computation(superset, sets),
        r_eval_computations: r_eval_computations(superset, sets),
        pairing_input_computations: pairing_input_computations(superset, sets, w_cptr),
    }
}

/// Whether the rotations are those opened by the queries, increasing, and the sets group the
/// queries' commitments by the rotations they are opened at.
pub open spec fn groups_queries(qs: Seq<Query>, superset: Seq<i32>, sets: Seq<RotationSet>) -> bool {
    &&& strictly_sorted(superset)
    &&& forall|r: i32| superset.contains(r) <==> opened_at(qs, r)
    &&& rotation_sets_of(qs, sets)
}

/// The encoded BDFG21 opening computation of the queries: their rotation sets, encoded.
pub fn bdfg21_computations_dynamic(queries: &[Query], w_cptr: usize) -> (d: PcsDataEncoded)
    requires
        distinct_openings(queries@),
        forall|superset: Seq<i32>, sets: Seq<RotationSet>|
            #[trigger] groups_queries(queries@, superset, sets) ==> bdfg21_encodable(
                superset,
                sets,
                w_cptr as int,
            ),
    ensures
        exists|superset: Seq<i32>, sets: Seq<RotationSet>|
            #[trigger] groups_queries(queries@, superset, sets) && encodes_bdfg21(
                superset,
                sets,
                w_cptr as int,
                d,
            ),
{
    let (superset, sets) = rotation_sets(queries);
    assert(groups_queries(queries@, superset@, sets@));
    pcs_data_encoded(&superset, &sets, w_cptr)
}

/// Two increasing sequences of rotations with the same members are the same sequence.
pub proof fn lemma_sorted_rotations_unique(a: Seq<i32>, b: Seq<i32>)
    requires
        strictly_sorted(a),
        strictly_sorted(b),
        forall|r: i32| a.contains(r) <==> b.contains(r),
    ensures
        a == b,
    decreases a.len(),
{
    if a.len() == 0 {
        if b.len() > 0 {
            assert(b.contains(b[0]));
        }
        assert(a =~= b);
    } else {
        assert(a.contains(a[0]));
        assert(b.contains(a[0]));
        let j = choose|j: int| 0 <= j < b.len() && b[j] == a[0];
        assert(b.contains(b[0]));
        assert(a.contains(b[0]));
        let i = choose|i: int| 0 <= i < a.len() && a[i] == b[0];
        assert(a[0] <= a[i]);
        assert(b[0] <= b[j]);
        assert(a[0] == b[0]);
        let a1 = a.skip(1);
        let b1 = b.skip(1);
        assert forall|r: i32| a1.contains(r) implies b1.contains(r) by {
            let k = choose|k: int| 0 <= k < a1.len() && a1[k] == r;
            assert(a[k + 1] == r);
            assert(a.contains(r));
            let m = choose|m: int| 0 <= m < b.len() && b[m] == r;
            assert(m != 0);
            assert(b1[m - 1] == r);
        }
        assert forall|r: i32| b1.contains(r) implies a1.contains(r) by {
            let k = choose|k: int| 0 <= k < b1.len() && b1[k] == r;
            assert(b[k + 1] == r);
            assert(b.contains(r));
            let m = choose|m: int| 0 <= m < a.len() && a[m] == r;
            assert(m != 0);
            assert(a1[m - 1] == r);
        }
        lemma_sorted_rotations_unique(a1, b1);
        assert(a =~= seq![a[0]] + a1);
        assert(b =~= seq![b[0]] + b1);
    }
}

/// Any two groupings of the same queries open the same rotations: the rotations of a grouping
/// are fixed by the queries alone.
pub proof fn lemma_groupings_share_rotations(
    qs: Seq<Query>,
    superset1: Seq<i32>,
    sets1: Seq<RotationSet>,
    superset2: Seq<i32>,
    sets2: Seq<RotationSet>,
)
    requires
        groups_queries(qs, superset1, sets1),
        groups_queries(qs, superset2, sets2),
    ensures
        superset1 == superset2,
{
    assert forall|r: i32| superset1.contains(r) <==> superset2.contains(r) by {
        assert(superset1.contains(r) <==> opened_at(qs, r));
        assert(superset2.contains(r) <==> opened_at(qs, r));
    }
    lemma_sorted_rotations_unique(superset1, superset2);
}

/// Two sequences whose keys strictly increase and which have the same members are the same
/// sequence.
pub proof fn lemma_sorted_by_key_unique<T>(x: Seq<T>, y: Seq<T>, key: spec_fn(T) -> int)
    requires
        forall|i: int, j: int| 0 <= i < j < x.len() ==> key(x[i]) < key(x[j]),
        forall|i: int, j: int| 0 <= i < j < y.len() ==> key(y[i]) < key(y[j]),
        forall|v: T| x.contains(v) <==> y.contains(v),
    ensures
        x == y,
    decreases x.len(),
{
    if x.len() == 0 {
        if y.len() > 0 {
            assert(y.contains(y[0]));
        }
        assert(x =~= y);
    } else {
        assert(x.contains(x[0]));
        assert(y.contains(x[0]));
        let j = choose|j: int| 0 <= j < y.len() && y[j] == x[0];
        assert(y.contains(y[0]));
        assert(x.contains(y[0]));
        let i = choose|i: int| 0 <= i < x.len() && x[i] == y[0];
        if i > 0 {
            assert(key(x[0]) < key(x[i]));
            if j > 0 {
                assert(key(y[0]) < key(y[j]));
            }
        }
        if j > 0 {
            assert(key(y[0]) < key(y[j]));
        }
        assert(x[0] == y[0]);
        let x1 = x.skip(1);
        let y1 = y.skip(1);
        assert forall|v: T| x1.contains(v) implies y1.contains(v) by {
            let k = choose|k: int| 0 <= k < x1.len() && x1[k] == v;
            assert(x[k + 1] == v);
            assert(x.contains(v));
            let m = choose|m: int| 0 <= m < y.len() && y[m] == v;
            assert(key(x[0]) < key(x[k + 1]));
            assert(m != 0);
            assert(y1[m - 1] == v);
        }
        assert forall|v: T| y1.contains(v) implies x1.contains(v) by {
            let k = choose|k: int| 0 <= k < y1.len() && y1[k] == v;
            assert(y[k + 1] == v);
            assert(y.contains(v));
            let m = choose|m: int| 0 <= m < x.len() && x[m] == v;
            assert(key(y[0]) < key(y[k + 1]));
            assert(m != 0);
            assert(x1[m - 1] == v);
        }
        lemma_sorted_by_key_unique(x1, y1, key);
        assert(x =~= seq![x[0]] + x1);
        assert(y =~= seq![y[0]] + y1);
    }
}

/// The place of commitment `c` in `order`.
pub open spec fn comm_pos(order: Seq<EcPoint>, c: EcPoint) -> int {
    choose|u: int| 0 <= u < order.len() && order[u] == c
}

/// In an order without repeats, a commitment before another has the lower place.
proof fn lemma_before_pos(order: Seq<EcPoint>, c1: EcPoint, c2: EcPoint)
    requires
        forall|a: int, b: int| 0 <= a < b < order.len() ==> order[a] != order[b],
        before(order, c1, c2),
    ensures
        comm_pos(order, c1) < comm_pos(order, c2),
{
    let (u1, u2) = choose|u1: int, u2: int|
        0 <= u1 < u2 < order.len() && #[trigger] order[u1] == c1 && #[trigger] order[u2] == c2;
    let p1 = comm_pos(order, c1);
    let p2 = comm_pos(order, c2);
    assert(order[p1] == c1);
    assert(order[p2] == c2);
    if p1 != u1 {
        if p1 < u1 {
            assert(order[p1] != order[u1]);
        } else {
            assert(order[u1] != order[p1]);
        }
    }
    if p2 != u2 {
        if p2 < u2 {
            assert(order[p2] != order[u2]);
        } else {
            assert(order[u2] != order[p2]);
        }
    }
}

/// The contents of a rotation set as sequences: its rotations, differences, commitments and
/// each commitment's evaluations.
pub open spec fn set_view(s: RotationSet) -> (Seq<i32>, Seq<i32>, Seq<EcPoint>, Seq<Seq<Ptr>>) {
    (s.rots@, s.diffs@, s.comms@, s.evals@.map_values(|e: Vec<Ptr>| e@))
}

/// Two queries of one commitment at one rotation have the same evaluation.
proof fn lemma_query_eval_unique(qs: Seq<Query>, c: EcPoint, r: i32, e1: Ptr, e2: Ptr)
    requires
        distinct_openings(qs),
        has_query(qs, c, r, e1),
        has_query(qs, c, r, e2),
    ensures
        e1 == e2,
{
    let j1 = choose|j: int| 0 <= j < qs.len() && (#[trigger] qs[j]).comm == c && qs[j].rot == r && qs[j].eval == e1;
    let j2 = choose|j: int| 0 <= j < qs.len() && (#[trigger] qs[j]).comm == c && qs[j].rot == r && qs[j].eval == e2;
    if j1 < j2 {
        assert(qs[j1].comm == qs[j2].comm);
    } else if j2 < j1 {
        assert(qs[j2].comm == qs[j1].comm);
    }
}

/// The rotations of a set of a grouping are fixed by any of its commitments.
proof fn lemma_set_rots_of_comm(qs: Seq<Query>, s1: RotationSet, m1: int, s2: RotationSet, m2: int)
    requires
        rotation_set_of(qs, s1),
        rotation_set_of(qs, s2),
        0 <= m1 < s1.comms.len(),
        0 <= m2 < s2.comms.len(),
        s1.comms@[m1] == s2.comms@[m2],
    ensures
        s1.rots@ == s2.rots@,
{
    assert forall|r: i32| s1.rots@.contains(r) <==> s2.rots@.contains(r) by {
        assert(s1.rots@.contains(r) <==> opens(qs, s1.comms@[m1], r));
        assert(s2.rots@.contains(r) <==> opens(qs, s2.comms@[m2], r));
    }
    lemma_sorted_rotations_unique(s1.rots@, s2.rots@);
}

/// A commitment of a set of one grouping lies in the set of another grouping that has the same
/// rotations.
proof fn lemma_comm_in_matching_set(qs: Seq<Query>, t1: Seq<RotationSet>, a: int, k: int, t2: Seq<RotationSet>, b: int)
    requires
        rotation_sets_of(qs, t1),
        rotation_sets_of(qs, t2),
        0 <= a < t1.len(),
        0 <= b < t2.len(),
        0 <= k < t1[a].comms.len(),
        t1[a].rots@ == t2[b].rots@,
    ensures
        t2[b].comms@.contains(t1[a].comms@[k]),
{
    let c = t1[a].comms@[k];
    assert(rotation_set_of(qs, t1[a]));
    let r0 = t1[a].rots@[0];
    assert(t1[a].rots@.contains(r0));
    assert(opens(qs, t1[a].comms@[k], r0));
    let j = choose|j: int| 0 <= j < qs.len() && (#[trigger] qs[j]).comm == c && qs[j].rot == r0;
    assert(qs[j].comm == c);
    let (b2, m2) = choose|b2: int, m2: int|
        0 <= b2 < t2.len() && 0 <= m2 < t2[b2].comms.len() && #[trigger] t2[b2].comms@[m2] == (#[trigger] qs[j]).comm;
    assert(rotation_set_of(qs, t2[b2]));
    lemma_set_rots_of_comm(qs, t1[a], k, t2[b2], m2);
    if b2 != b {
        assert(t2[b2].rots@ != t2[b].rots@);
    }
    assert(t2[b].comms@[m2] == c);
}

/// The sets of two groupings that share a commitment have the same contents.
proof fn lemma_sets_agree(qs: Seq<Query>, t1: Seq<RotationSet>, a: int, t2: Seq<RotationSet>, b: int, m: int)
    requires
        distinct_openings(qs),
        rotation_sets_of(qs, t1),
        rotation_sets_of(qs, t2),
        0 <= a < t1.len(),
        0 <= b < t2.len(),
        0 <= m < t2[b].comms.len(),
        t1[a].comms@.len() > 0,
        t2[b].comms@[m] == t1[a].comms@[0],
    ensures
        set_view(t1[a]) == set_view(t2[b]),
{
    let s1 = t1[a];
    let s2 = t2[b];
    assert(rotation_set_of(qs, s1));
    assert(rotation_set_of(qs, s2));
    lemma_set_rots_of_comm(qs, s1, 0, s2, m);
    assert forall|r: i32| s1.diffs@.contains(r) <==> s2.diffs@.contains(r) by {
        assert(s1.diffs@.contains(r) <==> (opened_at(qs, r) && !s1.rots@.contains(r)));
        assert(s2.diffs@.contains(r) <==> (opened_at(qs, r) && !s2.rots@.contains(r)));
    }
    lemma_sorted_rotations_unique(s1.diffs@, s2.diffs@);
    let order = comm_order(qs);
    lemma_comm_order_distinct(qs);
    assert forall|c: EcPoint| s1.comms@.contains(c) <==> s2.comms@.contains(c) by {
        if s1.comms@.contains(c) {
            let k = choose|k: int| 0 <= k < s1.comms@.len() && s1.comms@[k] == c;
            lemma_comm_in_matching_set(qs, t1, a, k, t2, b);
        }
        if s2.comms@.contains(c) {
            let k = choose|k: int| 0 <= k < s2.comms@.len() && s2.comms@[k] == c;
            lemma_comm_in_matching_set(qs, t2, b, k, t1, a);
        }
    }
    let key = |c: EcPoint| comm_pos(order, c);
    assert forall|i: int, j: int| 0 <= i < j < s1.comms@.len() implies key(s1.comms@[i]) < key(s1.comms@[j]) by {
        assert(before(order, t1[a].comms@[i], t1[a].comms@[j]));
        lemma_before_pos(order, s1.comms@[i], s1.comms@[j]);
    }
    assert forall|i: int, j: int| 0 <= i < j < s2.comms@.len() implies key(s2.comms@[i]) < key(s2.comms@[j]) by {
        assert(before(order, t2[b].comms@[i], t2[b].comms@[j]));
        lemma_before_pos(order, s2.comms@[i], s2.comms@[j]);
    }
    lemma_sorted_by_key_unique(s1.comms@, s2.comms@, key);
    let e1 = s1.evals@.map_values(|e: Vec<Ptr>| e@);
    let e2 = s2.evals@.map_values(|e: Vec<Ptr>| e@);
    assert forall|k: int| 0 <= k < e1.len() implies e1[k] =~= e2[k] by {
        assert(s1.evals@[k].len() == s1.rots.len());
        assert(s2.evals@[k].len() == s2.rots.len());
        assert forall|x: int| 0 <= x < e1[k].len() implies e1[k][x] == e2[k][x] by {
            assert(has_query(qs, s1.comms@[k], s1.rots@[x], s1.evals@[k]@[x]));
            assert(has_query(qs, s2.comms@[k], s2.rots@[x], s2.evals@[k]@[x]));
            lemma_query_eval_unique(qs, s1.comms@[k], s1.rots@[x], s1.evals@[k]@[x], s2.evals@[k]@[x]);
        }
    }
    assert(e1 =~= e2);
}

/// Any two groupings of the same queries, none opening a commitment twice at one rotation,
/// agree: the same rotations, and the same sets in the same order, each with the same
/// rotations, differences, commitments and evaluations.
pub proof fn lemma_groupings_unique(
    qs: Seq<Query>,
    superset1: Seq<i32>,
    sets1: Seq<RotationSet>,
    superset2: Seq<i32>,
    sets2: Seq<RotationSet>,
)
    requires
        distinct_openings(qs),
        groups_queries(qs, superset1, sets1),
        groups_queries(qs, superset2, sets2),
    ensures
        superset1 == superset2,
        sets1.map_values(|s: RotationSet| set_view(s)) == sets2.map_values(|s: RotationSet| set_view(s)),
{
    lemma_groupings_share_rotations(qs, superset1, sets1, superset2, sets2);
    let v1 = sets1.map_values(|s: RotationSet| set_view(s));
    let v2 = sets2.map_values(|s: RotationSet| set_view(s));
    let order = comm_order(qs);
    lemma_comm_order_distinct(qs);
    let key = |v: (Seq<i32>, Seq<i32>, Seq<EcPoint>, Seq<Seq<Ptr>>)| comm_pos(order, v.2[0]);
    assert forall|i: int, j: int| 0 <= i < j < v1.len() implies key(v1[i]) < key(v1[j]) by {
        assert(before(order, (sets1[i]).comms@[0], (sets1[j]).comms@[0]));
        lemma_before_pos(order, sets1[i].comms@[0], sets1[j].comms@[0]);
    }
    assert forall|i: int, j: int| 0 <= i < j < v2.len() implies key(v2[i]) < key(v2[j]) by {
        assert(before(order, (sets2[i]).comms@[0], (sets2[j]).comms@[0]));
        lemma_before_pos(order, sets2[i].comms@[0], sets2[j].comms@[0]);
    }
    assert forall|v: (Seq<i32>, Seq<i32>, Seq<EcPoint>, Seq<Seq<Ptr>>)| v1.contains(v) <==> v2.contains(v) by {
        if v1.contains(v) {
            let a = choose|a: int| 0 <= a < v1.len() && v1[a] == v;
            assert(rotation_set_of(qs, sets1[a]));
            let c = sets1[a].comms@[0];
            lemma_comm_in_set_of_grouping(qs, sets1, a, sets2);
            let (b, m) = choose|b: int, m: int| 0 <= b < sets2.len() && 0 <= m < sets2[b].comms.len() && sets2[b].comms@[m] == c;
            lemma_sets_agree(qs, sets1, a, sets2, b, m);
            assert(v2[b] == v);
        }
        if v2.contains(v) {
            let b = choose|b: int| 0 <= b < v2.len() && v2[b] == v;
            assert(rotation_set_of(qs, sets2[b]));
            let c = sets2[b].comms@[0];
            lemma_comm_in_set_of_grouping(qs, sets2, b, sets1);
            let (a, m) = choose|a: int, m: int| 0 <= a < sets1.len() && 0 <= m < sets1[a].comms.len() && sets1[a].comms@[m] == c;
            lemma_sets_agree(qs, sets2, b, sets1, a, m);
            assert(v1[a] == v);
        }
    }
    lemma_sorted_by_key_unique(v1, v2, key);
}

/// The first commitment of a set of one grouping lies in some set of another.
proof fn lemma_comm_in_set_of_grouping(qs: Seq<Query>, t1: Seq<RotationSet>, a: int, t2: Seq<RotationSet>)
    requires
        rotation_sets_of(qs, t1),
        rotation_sets_of(qs, t2),
        0 <= a < t1.len(),
    ensures
        t1[a].comms@.len() > 0,
        exists|b: int, m: int|
            0 <= b < t2.len() && 0 <= m < t2[b].comms.len() && t2[b].comms@[m] == t1[a].comms@[0],
{
    assert(rotation_set_of(qs, t1[a]));
    let c = t1[a].comms@[0];
    let r0 = t1[a].rots@[0];
    assert(t1[a].rots@.contains(r0));
    assert(opens(qs, t1[a].comms@[0], r0));
    let j = choose|j: int| 0 <= j < qs.len() && (#[trigger] qs[j]).comm == c && qs[j].rot == r0;
    assert(qs[j].comm == c);
    let (b, m) = choose|b: int, m: int|
        0 <= b < t2.len() && 0 <= m < t2[b].comms.len() && #[trigger] t2[b].comms@[m] == (#[trigger] qs[j]).comm;
    assert(t2[b].comms@[m] == t1[a].comms@[0]);
}

} // verus!
