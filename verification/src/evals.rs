use vstd::prelude::*;

use crate::bdfg21::{
    byte_ops, diff_ptr, free_slot, free_slot_of, greedy_extend, header_fields, layout_fits, packed_len,
    plain_halfword_ops, r_eval_ptr,
};
use crate::location::{Location, Ptr, Value};
use crate::packer::{
    concat_ops, lemma_concat_ops_step, lemma_run_word_grows, packed, start_state, PackOp, Packer,
};
use crate::generator::lemma_num_coeffs_prefix;
use crate::pcs::RotationSet;
use crate::word::Word256;

verus! {

/// Whether `x` continues a run that ends at `last`: both are byte offsets in the same place,
/// `x` one slot below `last`.
pub open spec fn joins(last: Ptr, x: Ptr) -> bool {
    &&& last.is_integer()
    &&& x.is_integer()
    &&& x.loc == last.loc
    &&& x.offset() + 0x20 == last.offset()
}

/// The runs of `xs`, in order: each item joins the run of the item before it where `join`
/// holds of that item and it, and starts a new run where it does not.
pub open spec fn runs<T>(xs: Seq<T>, join: spec_fn(T, T) -> bool) -> Seq<Seq<T>>
    decreases xs.len(),
{
    if xs.len() == 0 {
        Seq::empty()
    } else {
        let gs = runs(xs.drop_last(), join);
        let x = xs.last();
        if gs.len() > 0 && gs.last().len() > 0 && join(gs.last().last(), x) {
            gs.update(gs.len() - 1, gs.last().push(x))
        } else {
            gs.push(seq![x])
        }
    }
}

/// Every run has an item, and there is a run when there is an item.
pub proof fn lemma_runs_nonempty<T>(xs: Seq<T>, join: spec_fn(T, T) -> bool)
    ensures
        forall|k: int| 0 <= k < runs(xs, join).len() ==> #[trigger] runs(xs, join)[k].len() > 0,
        xs.len() > 0 ==> runs(xs, join).len() > 0,
    decreases xs.len(),
{
    if xs.len() > 0 {
        lemma_runs_nonempty(xs.drop_last(), join);
        let gs = runs(xs.drop_last(), join);
        let x = xs.last();
        if gs.len() > 0 && gs.last().len() > 0 && join(gs.last().last(), x) {
            let hs = gs.update(gs.len() - 1, gs.last().push(x));
            assert forall|k: int| 0 <= k < hs.len() implies #[trigger] hs[k].len() > 0 by {
                if k < gs.len() - 1 {
                    assert(hs[k] == gs[k]);
                }
            }
        } else {
            let hs = gs.push(seq![x]);
            assert forall|k: int| 0 <= k < hs.len() implies #[trigger] hs[k].len() > 0 by {
                if k < gs.len() {
                    assert(hs[k] == gs[k]);
                }
            }
        }
    }
}

/// Within a run, each item joins the one before it.
pub proof fn lemma_runs_joined<T>(xs: Seq<T>, join: spec_fn(T, T) -> bool)
    ensures
        forall|k: int, j: int|
            0 <= k < runs(xs, join).len() && 1 <= j < runs(xs, join)[k].len() ==> join(
                runs(xs, join)[k][j - 1],
                #[trigger] runs(xs, join)[k][j],
            ),
    decreases xs.len(),
{
    if xs.len() > 0 {
        lemma_runs_joined(xs.drop_last(), join);
        let gs = runs(xs.drop_last(), join);
        let x = xs.last();
        let hs = runs(xs, join);
        assert forall|k: int, j: int| 0 <= k < hs.len() && 1 <= j < hs[k].len() implies join(
            hs[k][j - 1],
            #[trigger] hs[k][j],
        ) by {
            if k < gs.len() {
                if gs.len() > 0 && gs.last().len() > 0 && join(gs.last().last(), x) && k == gs.len() - 1 {
                    assert(hs[k] == gs[k].push(x));
                    if j < gs[k].len() {
                        assert(hs[k][j - 1] == gs[k][j - 1]);
                        assert(hs[k][j] == gs[k][j]);
                    }
                } else {
                    assert(hs[k] == gs[k]);
                }
            }
        }
    }
}

/// The runs of evaluations, each one slot below the one before.
pub open spec fn eval_groups(xs: Seq<Ptr>) -> Seq<Seq<Ptr>> {
    runs(xs, |last: Ptr, x: Ptr| joins(last, x))
}

/// The plain view of nested vectors.
pub open spec fn groups_view(gs: Seq<Vec<Ptr>>) -> Seq<Seq<Ptr>> {
    gs.map_values(|g: Vec<Ptr>| g@)
}

/// Whether `x` continues a run that ends at `last`.
fn joins_exec(last: &Ptr, x: &Ptr) -> (b: bool)
    ensures
        b == joins(*last, *x),
{
    match (last.value, x.value) {
        (Value::Integer(a), Value::Integer(c)) => last.loc == x.loc && a >= 0x20 && c == a - 0x20,
        _ => false,
    }
}

/// The runs of `xs`.
pub(crate) fn eval_groups_of(xs: &Vec<Ptr>) -> (gs: Vec<Vec<Ptr>>)
    ensures
        groups_view(gs@) == eval_groups(xs@),
{
    let mut done: Vec<Vec<Ptr>> = Vec::new();
    let mut cur: Vec<Ptr> = Vec::new();
    let mut i: usize = 0;
    while i < xs.len()
        invariant
            i <= xs.len(),
            i == 0 ==> done.len() == 0 && cur.len() == 0,
            i > 0 ==> cur.len() > 0 && groups_view(done@).push(cur@) == eval_groups(
                xs@.take(i as int),
            ),
        decreases xs.len() - i,
    {
        let x = xs[i];
        proof {
            assert(xs@.take(i + 1).drop_last() =~= xs@.take(i as int));
            assert(xs@.take(i + 1).last() == x);
        }
        if i > 0 && joins_exec(&cur[cur.len() - 1], &x) {
            let ghost before = groups_view(done@).push(cur@);
            assert(before.last() == cur@);
            assert(eval_groups(xs@.take(i + 1)) == before.update(
                before.len() - 1,
                before.last().push(x),
            ));
            cur.push(x);
            assert(groups_view(done@).push(cur@) =~= before.update(
                before.len() - 1,
                before.last().push(x),
            ));
        } else {
            let ghost before = if i > 0 {
                groups_view(done@).push(cur@)
            } else {
                Seq::empty()
            };
            if i > 0 {
                done.push(cur);
                assert(groups_view(done@) =~= before);
            } else {
                assert(groups_view(done@) =~= before);
            }
            assert(eval_groups(xs@.take(i as int)) == before);
            assert(eval_groups(xs@.take(i + 1)) == before.push(seq![x]));
            cur = Vec::new();
            cur.push(x);
            assert(groups_view(done@).push(cur@) =~= before.push(seq![x]));
        }
        i += 1;
    }
    assert(xs@.take(xs.len() as int) =~= xs@);
    if xs.len() > 0 {
        let ghost before = groups_view(done@).push(cur@);
        done.push(cur);
        assert(groups_view(done@) =~= before);
    } else {
        assert(groups_view(done@) =~= Seq::<Seq<Ptr>>::empty());
    }
    done
}

/// The byte offsets of the pointers.
pub open spec fn offsets(g: Seq<Ptr>) -> Seq<u64> {
    Seq::new(g.len(), |i: int| g[i].offset() as u64)
}

/// The steps that encode one run of evaluations: a short run (fewer than three) as its length
/// and its offsets; a long one as 0, its first offset and the offset one slot below its end.
pub open spec fn group_ops(g: Seq<Ptr>) -> Seq<PackOp> {
    if g.len() < 3 {
        seq![PackOp::Reserve((8 + 16 * g.len()) as int), PackOp::Put(g.len() as u64, 8)]
            + plain_halfword_ops(offsets(g))
    } else {
        seq![
            PackOp::Reserve(40),
            PackOp::Put(0, 8),
            PackOp::Put(g[0].offset() as u64, 16),
            PackOp::Put((g[0].offset() - 0x20 * g.len()) as u64, 16),
        ]
    }
}

/// Within a run of evaluations, the `i`-th lies `i` slots below the first, in the same place.
proof fn lemma_eval_run_steps(g: Seq<Ptr>, i: int)
    requires
        0 <= i < g.len(),
        forall|j: int| 1 <= j < g.len() ==> joins(g[j - 1], #[trigger] g[j]),
    ensures
        g[i].loc == g[0].loc,
        i > 0 ==> g[i].is_integer() && g[0].is_integer(),
        g[i].offset() == g[0].offset() - 0x20 * i,
    decreases i,
{
    if i > 0 {
        lemma_eval_run_steps(g, i - 1);
        assert(joins(g[i - 1], g[i]));
    }
}

/// A run of three evaluations or more is encoded as a 0 length, then the offset of its first
/// (highest) evaluation, then the offset one slot below its last: the run's evaluations are
/// exactly the slots from the first pointer down, one slot at a time, to just above the second.
pub proof fn lemma_long_eval_run_bounds(xs: Seq<Ptr>, k: int)
    requires
        0 <= k < eval_groups(xs).len(),
        eval_groups(xs)[k].len() >= 3,
    ensures
        ({
            let g = eval_groups(xs)[k];
            let ops = group_ops(g);
            &&& ops.len() == 4
            &&& ops[1] == PackOp::Put(0, 8)
            &&& ops[2] == PackOp::Put(g[0].offset() as u64, 16)
            &&& ops[3] == PackOp::Put((g[g.len() - 1].offset() - 0x20) as u64, 16)
            &&& forall|i: int|
                0 <= i < g.len() ==> (#[trigger] g[i]).loc == g[0].loc && g[i].is_integer()
                    && g[i].offset() == g[0].offset() - 0x20 * i
        }),
{
    let g = eval_groups(xs)[k];
    lemma_runs_joined(xs, |last: Ptr, x: Ptr| joins(last, x));
    assert forall|j: int| 1 <= j < g.len() implies joins(g[j - 1], #[trigger] g[j]) by {}
    assert forall|i: int| 0 <= i < g.len() implies (#[trigger] g[i]).loc == g[0].loc && g[i].is_integer()
        && g[i].offset() == g[0].offset() - 0x20 * i by {
        lemma_eval_run_steps(g, i);
        lemma_eval_run_steps(g, 1);
    }
    lemma_eval_run_steps(g, g.len() - 1);
}

/// The first evaluation of each commitment of the set, last commitment first.
pub open spec fn first_evals_rev(set: RotationSet) -> Seq<Ptr> {
    let n = set.evals@.len();
    Seq::new(n, |i: int| set.evals@[n - 1 - i]@[0])
}

/// The evaluations of each commitment of the set, last commitment first.
pub open spec fn evals_rev(set: RotationSet) -> Seq<Seq<Ptr>> {
    let n = set.evals@.len();
    Seq::new(n, |i: int| set.evals@[n - 1 - i]@)
}

/// The steps that encode a set of one rotation: the offset of the first run's first
/// evaluation, then each run from the third on (the second run lies in memory at a place the
/// verifier knows).
pub open spec fn single_set_ops(set: RotationSet) -> Seq<PackOp> {
    let gs = eval_groups(first_evals_rev(set));
    seq![PackOp::Put(gs[0][0].offset() as u64, 16)] + concat_ops(gs.skip(2), |g: Seq<Ptr>| group_ops(g))
}

/// The steps that encode a set of several rotations: per commitment, last first, room for
/// 16 bits per set, then the offsets of its evaluations.
pub open spec fn multi_set_ops(set: RotationSet, num_sets: int) -> Seq<PackOp> {
    concat_ops(
        evals_rev(set),
        |ev: Seq<Ptr>| seq![PackOp::Reserve(16 * num_sets)] + plain_halfword_ops(offsets(ev)),
    )
}

/// The steps that encode set `s`'s evaluations.
pub open spec fn set_eval_ops(sets: Seq<RotationSet>, s: int) -> Seq<PackOp> {
    if sets[s].rots@.len() == 1 {
        single_set_ops(sets[s])
    } else {
        multi_set_ops(sets[s], sets.len() as int)
    }
}

/// The number of words that encode set `s`'s evaluations.
pub open spec fn set_eval_words(sets: Seq<RotationSet>, s: int) -> int {
    packed_len(8, set_eval_ops(sets, s))
}

/// Where the words of set `s`'s evaluations begin, after `n0` words of metadata.
pub open spec fn set_eval_start(sets: Seq<RotationSet>, n0: int, s: int) -> int
    decreases s,
{
    if s <= 0 {
        n0
    } else {
        set_eval_start(sets, n0, s - 1) + set_eval_words(sets, s - 1)
    }
}

/// 32 times the number of rotations of each set.
pub open spec fn encoded_lens(sets: Seq<RotationSet>) -> Seq<u64> {
    Seq::new(sets.len(), |s: int| (32 * sets[s].rots@.len()) as u64)
}

/// The steps of the metadata: the second set's difference address, the first set's `r`
/// evaluation address, then a byte per set with 32 times its number of rotations.
pub open spec fn r_evals_meta_ops(num_rots: int, sets: Seq<RotationSet>) -> Seq<PackOp> {
    seq![
        PackOp::Put(diff_ptr(num_rots, sets, 1) as u64, 16),
        PackOp::Put(r_eval_ptr(num_rots, sets, 0) as u64, 16),
    ] + byte_ops(encoded_lens(sets))
}

/// Whether a set of one rotation can be encoded: it has two runs or more, the second in
/// memory; the first run's first evaluation and every evaluation from the third run on are
/// byte offsets, and a long run does not start below its length in slots.
pub open spec fn single_encodable(set: RotationSet) -> bool {
    let gs = eval_groups(first_evals_rev(set));
    &&& gs.len() >= 2
    &&& gs[1][0].loc == Location::Memory
    &&& gs[0][0].is_integer()
    &&& forall|k: int, j: int|
        2 <= k < gs.len() && 0 <= j < gs[k].len() ==> (#[trigger] gs[k][j]).is_integer()
    &&& forall|k: int|
        2 <= k < gs.len() && (#[trigger] gs[k]).len() >= 3 ==> 0x20 * gs[k].len() <= gs[k][0].offset()
}

/// Whether the sets' evaluations can be encoded: two sets or more, each with one to seven
/// rotations and an evaluation per rotation for each commitment, at most one set of one
/// rotation (encodable as such), and every evaluation of the other sets a byte offset.
pub open spec fn r_evals_encodable(superset: Seq<i32>, sets: Seq<RotationSet>) -> bool {
    &&& sets.len() >= 2
    &&& layout_fits(superset.len() as int, sets)
    &&& forall|s: int| 0 <= s < sets.len() ==> 1 <= (#[trigger] sets[s]).rots@.len() <= 7
    &&& forall|s: int, c: int|
        0 <= s < sets.len() && 0 <= c < sets[s].evals@.len() ==> (#[trigger] sets[s].evals@[c])@.len()
            == sets[s].rots@.len()
    &&& forall|s: int, t: int|
        0 <= s < sets.len() && 0 <= t < sets.len() && s != t && (#[trigger] sets[s]).rots@.len()
            == 1 ==> (#[trigger] sets[t]).rots@.len() != 1
    &&& forall|s: int|
        0 <= s < sets.len() && (#[trigger] sets[s]).rots@.len() == 1 ==> single_encodable(sets[s])
    &&& forall|s: int, c: int, j: int|
        0 <= s < sets.len() && sets[s].rots@.len() > 1 && 0 <= c < sets[s].evals@.len() && 0 <= j
            < sets[s].evals@[c]@.len() ==> (#[trigger] sets[s].evals@[c]@[j]).is_integer()
}

/// The first evaluation of each commitment of the set, last commitment first.
pub(crate) fn first_evals_rev_of(set: &RotationSet) -> (xs: Vec<Ptr>)
    requires
        forall|c: int| 0 <= c < set.evals@.len() ==> (#[trigger] set.evals@[c])@.len() > 0,
    ensures
        xs@ == first_evals_rev(*set),
{
    let n = set.evals.len();
    let mut xs: Vec<Ptr> = Vec::new();
    let mut i: usize = 0;
    while i < n
        invariant
            n == set.evals@.len(),
            forall|c: int| 0 <= c < set.evals@.len() ==> (#[trigger] set.evals@[c])@.len() > 0,
            i <= n,
            xs@ == first_evals_rev(*set).take(i as int),
        decreases n - i,
    {
        assert(set.evals@[n - 1 - i]@.len() > 0);
        xs.push(set.evals[n - 1 - i][0]);
        i += 1;
        assert(xs@ =~= first_evals_rev(*set).take(i as int));
    }
    assert(first_evals_rev(*set).take(n as int) =~= first_evals_rev(*set));
    xs
}

/// Puts the byte offsets of `g` 16 bits each.
fn put_offsets(p: &mut Packer, g: &Vec<Ptr>)
    requires
        old(p).wf(),
        old(p).bit() + 16 * g.len() <= usize::MAX,
        forall|j: int| 0 <= j < g.len() ==> (#[trigger] g@[j]).is_integer(),
    ensures
        final(p).wf(),
        final(p).start() == old(p).start(),
        final(p).ops() == old(p).ops() + plain_halfword_ops(offsets(g@)),
        final(p).bit() == old(p).bit() + 16 * g.len(),
{
    let ghost base = p.ops();
    let ghost b0 = p.bit();
    let ghost offs = offsets(g@);
    let mut j: usize = 0;
    while j < g.len()
        invariant
            j <= g.len(),
            p.wf(),
            p.start() == old(p).start(),
            b0 == old(p).bit(),
            b0 + 16 * g.len() <= usize::MAX,
            p.bit() == b0 + 16 * j,
            offs == offsets(g@),
            forall|i: int| 0 <= i < g.len() ==> (#[trigger] g@[i]).is_integer(),
            p.ops() == base + plain_halfword_ops(offs.take(j as int)),
        decreases g.len() - j,
    {
        proof {
            lemma_concat_ops_step(offs, |v: u64| seq![PackOp::Put(v, 16)], j as int);
        }
        let v = g[j].as_usize() as u64;
        p.put(v, 16);
        assert(p.ops() =~= base + plain_halfword_ops(offs.take(j + 1)));
        j += 1;
    }
    assert(offs.take(g.len() as int) =~= offs);
}

/// The words that encode a set of one rotation, after a byte holding their number.
fn single_set_words(set: &RotationSet) -> (words: Vec<Word256>)
    requires
        set.rots@.len() == 1,
        forall|c: int| 0 <= c < set.evals@.len() ==> (#[trigger] set.evals@[c])@.len() == 1,
        single_encodable(*set),
    ensures
        packed(
            words@,
            8,
            single_set_ops(*set),
            header_fields(seq![(packed_len(8, single_set_ops(*set)) as u64, 0usize, 8usize)]),
        ),
{
    let xs = first_evals_rev_of(set);
    let gs = eval_groups_of(&xs);
    let ghost g = groups_view(gs@);
    let ghost rest = g.skip(2);
    let ghost gops = |h: Seq<Ptr>| group_ops(h);
    proof {
        lemma_runs_nonempty(xs@, |last: Ptr, x: Ptr| joins(last, x));
    }
    assert(g[0] == gs@[0]@);
    let first = gs[0][0].as_usize() as u64;
    let ghost head = seq![PackOp::Put(first, 16)];
    let mut p = Packer::new(8);
    p.put(first, 16);
    assert(p.ops() =~= head + concat_ops(rest.take(0), gops));
    let mut k: usize = 2;
    while k < gs.len()
        invariant
            2 <= k <= gs.len(),
            g == groups_view(gs@),
            g == eval_groups(first_evals_rev(*set)),
            rest == g.skip(2),
            single_encodable(*set),
            forall|i: int| 0 <= i < g.len() ==> #[trigger] g[i].len() > 0,
            gops == (|h: Seq<Ptr>| group_ops(h)),
            p.wf(),
            p.start() == 8,
            p.bit() <= 256,
            p.ops() == head + concat_ops(rest.take(k - 2), gops),
        decreases gs.len() - k,
    {
        proof {
            lemma_concat_ops_step(rest, gops, k - 2);
        }
        let grp = &gs[k];
        assert(g[k as int] == grp@);
        assert(rest[k - 2] == grp@);
        let ghost before = p.ops();
        let len = grp.len();
        assert(len > 0);
        if len < 3 {
            p.reserve(8 + 16 * len);
            p.put(len as u64, 8);
            assert forall|j: int| 0 <= j < grp.len() implies (#[trigger] grp@[j]).is_integer() by {
                assert(g[k as int][j] == grp@[j]);
            }
            put_offsets(&mut p, grp);
            assert(p.ops() =~= before + group_ops(grp@));
        } else {
            assert(grp@[0].is_integer()) by {
                assert(g[k as int][0] == grp@[0]);
            }
            let top = grp[0].as_usize();
            assert(0x20 * g[k as int].len() <= g[k as int][0].offset());
            p.reserve(40);
            p.put(0, 8);
            p.put(top as u64, 16);
            p.put((top - 0x20 * len) as u64, 16);
            assert(p.ops() =~= before + group_ops(grp@));
        }
        assert(p.ops() =~= head + concat_ops(rest.take(k - 1), gops));
        k += 1;
    }
    assert(rest.take(gs.len() - 2) =~= rest);
    assert(p.ops() =~= single_set_ops(*set));
    let count = p.words_len();
    let mut header: Vec<(u64, usize, usize)> = Vec::new();
    header.push((count as u64, 0, 8));
    p.finish(&header)
}

/// The words that encode a set of several rotations, after a byte holding their number.
fn multi_set_words(set: &RotationSet, num_sets: usize) -> (words: Vec<Word256>)
    requires
        set.rots@.len() <= 7,
        16 * num_sets + 368 <= usize::MAX,
        forall|c: int| 0 <= c < set.evals@.len() ==> (#[trigger] set.evals@[c])@.len() == set.rots@.len(),
        forall|c: int, j: int|
            0 <= c < set.evals@.len() && 0 <= j < set.evals@[c]@.len() ==> (#[trigger] set.evals@[c]@[j]).is_integer(),
    ensures
        packed(
            words@,
            8,
            multi_set_ops(*set, num_sets as int),
            header_fields(seq![(packed_len(8, multi_set_ops(*set, num_sets as int)) as u64, 0usize, 8usize)]),
        ),
{
    let n = set.evals.len();
    let ghost evs = evals_rev(*set);
    let ghost g = |ev: Seq<Ptr>| seq![PackOp::Reserve(16 * num_sets)] + plain_halfword_ops(offsets(ev));
    let mut p = Packer::new(8);
    let mut c: usize = 0;
    while c < n
        invariant
            n == set.evals@.len(),
            c <= n,
            set.rots@.len() <= 7,
            16 * num_sets + 368 <= usize::MAX,
            forall|c: int| 0 <= c < set.evals@.len() ==> (#[trigger] set.evals@[c])@.len() == set.rots@.len(),
            forall|c: int, j: int|
                0 <= c < set.evals@.len() && 0 <= j < set.evals@[c]@.len() ==> (#[trigger] set.evals@[c]@[j]).is_integer(),
            evs == evals_rev(*set),
            g == (|ev: Seq<Ptr>| seq![PackOp::Reserve(16 * num_sets)] + plain_halfword_ops(offsets(ev))),
            p.wf(),
            p.start() == 8,
            p.bit() <= 256 + 16 * 7,
            p.ops() == concat_ops(evs.take(c as int), g),
        decreases n - c,
    {
        proof {
            lemma_concat_ops_step(evs, g, c as int);
        }
        let ev = &set.evals[n - 1 - c];
        assert(evs[c as int] == ev@);
        let ghost before = p.ops();
        p.reserve(16 * num_sets);
        assert forall|j: int| 0 <= j < ev.len() implies (#[trigger] ev@[j]).is_integer() by {
            assert(set.evals@[n - 1 - c]@[j] == ev@[j]);
        }
        put_offsets(&mut p, ev);
        assert(p.ops() =~= before + g(ev@));
        assert(p.ops() =~= concat_ops(evs.take(c + 1), g));
        c += 1;
    }
    assert(evs.take(n as int) =~= evs);
    let count = p.words_len();
    let mut header: Vec<(u64, usize, usize)> = Vec::new();
    header.push((count as u64, 0, 8));
    p.finish(&header)
}

/// The words that encode set `s`'s evaluations, after a byte holding their number.
fn set_eval_words_of(superset: &Vec<i32>, sets: &Vec<RotationSet>, s: usize) -> (words: Vec<Word256>)
    requires
        r_evals_encodable(superset@, sets@),
        s < sets.len(),
    ensures
        words.len() == set_eval_words(sets@, s as int),
        packed(
            words@,
            8,
            set_eval_ops(sets@, s as int),
            header_fields(seq![(set_eval_words(sets@, s as int) as u64, 0usize, 8usize)]),
        ),
{
    let ghost ss = sets@;
    let set = &sets[s];
    assert(set == ss[s as int]);
    assert(1 <= set.rots@.len() <= 7);
    if set.rots.len() == 1 {
        assert forall|c: int| 0 <= c < set.evals@.len() implies (#[trigger] set.evals@[c])@.len() == 1 by {
            assert(ss[s as int].evals@[c]@.len() == ss[s as int].rots@.len());
        }
        single_set_words(set)
    } else {
        assert forall|c: int| 0 <= c < set.evals@.len() implies (#[trigger] set.evals@[c])@.len()
            == set.rots@.len() by {
            assert(ss[s as int].evals@[c]@.len() == ss[s as int].rots@.len());
        }
        assert forall|c: int, j: int|
            0 <= c < set.evals@.len() && 0 <= j < set.evals@[c]@.len() implies (#[trigger] set.evals@[c]@[j]).is_integer() by {
            assert(ss[s as int].evals@[c]@[j].is_integer());
        }
        proof {
            lemma_num_coeffs_prefix(ss, 0);
        }
        assert(16 * sets.len() + 368 <= usize::MAX);
        multi_set_words(set, sets.len())
    }
}

/// Whether `seg` are the words that encode set `s`'s evaluations.
#[verifier::opaque]
spec fn segment_encodes(seg: Seq<Word256>, sets: Seq<RotationSet>, s: int) -> bool {
    packed(seg, 8, set_eval_ops(sets, s), header_fields(seq![(set_eval_words(sets, s) as u64, 0usize, 8usize)]))
}

/// Each set's evaluations take a word or more, so the sets' words begin in order.
pub proof fn lemma_set_eval_start_mono(sets: Seq<RotationSet>, n0: int, a: int, b: int)
    requires
        0 <= a <= b,
    ensures
        set_eval_start(sets, n0, a) <= set_eval_start(sets, n0, b),
    decreases b - a,
{
    if a < b {
        lemma_set_eval_start_mono(sets, n0, a, b - 1);
        lemma_run_word_grows(start_state(8), set_eval_ops(sets, b - 1));
    }
}

/// Whether `words` encode the `r` evaluations.
pub open spec fn encodes_r_evals(superset: Seq<i32>, sets: Seq<RotationSet>, words: Seq<Word256>) -> bool {
    let ops = r_evals_meta_ops(superset.len() as int, sets);
    let n0 = packed_len(8, ops);
    &&& words.len() == set_eval_start(sets, n0, sets.len() as int)
    &&& packed(words.take(n0), 8, ops, header_fields(seq![(n0 as u64, 0usize, 8usize)]))
    &&& forall|s: int|
        #![trigger set_eval_ops(sets, s)]
        0 <= s < sets.len() ==> packed(
            words.subrange(set_eval_start(sets, n0, s), set_eval_start(sets, n0, s + 1)),
            8,
            set_eval_ops(sets, s),
            header_fields(seq![(set_eval_words(sets, s) as u64, 0usize, 8usize)]),
        )
}

/// The encoded `r` evaluations: metadata words (a byte with their number, the second set's
/// difference address and the first set's `r` evaluation address two bytes each, then 32
/// times each set's number of rotations a byte each, packed greedily), then per set the
/// words that encode its evaluations, each group after a byte holding its number of words.
pub fn r_evals_computations(superset: &Vec<i32>, sets: &Vec<RotationSet>) -> (words: Vec<Word256>)
    requires
        r_evals_encodable(superset@, sets@),
    ensures
        encodes_r_evals(superset@, sets@, words@),
{
    let ghost ss = sets@;
    let f = free_slot_of(superset, sets);
    let n = superset.len();
    let ns = sets.len();
    let mut p = Packer::new(8);
    p.put((0x20 * (f + 2 * n + 1 + 1)) as u64, 16);
    p.put((0x20 * (f + 2 * n + 1 + ns)) as u64, 16);
    let mut lens: Vec<u64> = Vec::new();
    let mut i: usize = 0;
    while i < ns
        invariant
            ns == sets.len(),
            ss == sets@,
            forall|s: int| 0 <= s < ss.len() ==> 1 <= (#[trigger] ss[s]).rots@.len() <= 7,
            i <= ns,
            lens@ == encoded_lens(ss).take(i as int),
        decreases ns - i,
    {
        assert(1 <= ss[i as int].rots@.len() <= 7);
        lens.push((32 * sets[i].rots.len()) as u64);
        i += 1;
        assert(lens@ =~= encoded_lens(ss).take(i as int));
    }
    assert(encoded_lens(ss).take(ns as int) =~= encoded_lens(ss));
    greedy_extend(&mut p, &lens, 8);
    let ghost meta_ops = r_evals_meta_ops(n as int, ss);
    assert(p.ops() =~= meta_ops);
    let ghost n0 = packed_len(8, meta_ops);
    let count = p.words_len();
    let mut header: Vec<(u64, usize, usize)> = Vec::new();
    header.push((count as u64, 0, 8));
    assert(header@ =~= seq![(n0 as u64, 0usize, 8usize)]);
    let mut words = p.finish(&header);
    let ghost meta = words@;
    proof {
        lemma_run_word_grows(start_state(8), meta_ops);
    }
    let mut s: usize = 0;
    while s < ns
        invariant
            ns == sets.len(),
            ss == sets@,
            r_evals_encodable(superset@, ss),
            s <= ns,
            meta.len() == n0,
            n0 >= 1,
            words.len() == set_eval_start(ss, n0, s as int),
            words@.take(n0) == meta,
            forall|t: int|
                0 <= t < s ==> #[trigger] segment_encodes(
                    words@.subrange(set_eval_start(ss, n0, t), set_eval_start(ss, n0, t + 1)),
                    ss,
                    t,
                ),
        decreases ns - s,
    {
        proof {
            lemma_set_eval_start_mono(ss, n0, 0, s as int);
        }
        let mut w = set_eval_words_of(superset, sets, s);
        let ghost pre = words@;
        let ghost ws = w@;
        words.append(&mut w);
        assert(words@.take(n0) =~= pre.take(n0));
        assert(words@.subrange(set_eval_start(ss, n0, s as int), set_eval_start(ss, n0, s + 1)) =~= ws);
        assert(segment_encodes(ws, ss, s as int)) by {
            reveal(segment_encodes);
        }
        assert forall|t: int|
            0 <= t < s + 1 implies #[trigger] segment_encodes(
                words@.subrange(set_eval_start(ss, n0, t), set_eval_start(ss, n0, t + 1)),
                ss,
                t,
            ) by {
            if t < s {
                lemma_set_eval_start_mono(ss, n0, t + 1, s as int);
                lemma_set_eval_start_mono(ss, n0, t, t + 1);
                lemma_set_eval_start_mono(ss, n0, 0, t);
                assert(words@.subrange(set_eval_start(ss, n0, t), set_eval_start(ss, n0, t + 1))
                    =~= pre.subrange(set_eval_start(ss, n0, t), set_eval_start(ss, n0, t + 1)));
            }
        }
        s += 1;
    }
    assert forall|t: int|
        #![trigger set_eval_ops(ss, t)]
        0 <= t < ns implies packed(
            words@.subrange(set_eval_start(ss, n0, t), set_eval_start(ss, n0, t + 1)),
            8,
            set_eval_ops(ss, t),
            header_fields(seq![(set_eval_words(ss, t) as u64, 0usize, 8usize)]),
        ) by {
        reveal(segment_encodes);
        assert(segment_encodes(
            words@.subrange(set_eval_start(ss, n0, t), set_eval_start(ss, n0, t + 1)),
            ss,
            t,
        ));
    }
    words
}

} // verus!
