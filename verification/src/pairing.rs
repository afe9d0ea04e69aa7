use vstd::prelude::*;

use crate::bdfg21::{
    byte_ops, diff_ptr, free_slot, free_slot_of, greedy_extend, header_fields, layout_fits,
    packed_len, vanishing_ptr,
};
use crate::evals::{lemma_runs_joined, lemma_runs_nonempty, runs};
use crate::generator::lemma_num_coeffs_prefix;
use crate::location::{EcPoint, Location, Value};
use crate::packer::{
    concat_ops, lemma_concat_ops_step, lemma_run_word_grows, packed, start_state, PackOp, Packer,
};
use crate::pcs::RotationSet;
use crate::word::Word256;

verus! {

/// Whether commitment `c` continues a run that ends at `last`: both `x` coordinates are byte
/// offsets in the same place, `c`'s two slots below `last`'s.
pub open spec fn comm_joins(last: EcPoint, c: EcPoint) -> bool {
    &&& last.x.is_integer()
    &&& c.x.is_integer()
    &&& c.x.loc == last.x.loc
    &&& c.x.offset() + 0x40 == last.x.offset()
}

/// The set's commitments but the last, last first.
pub open spec fn comms_rev_but_last(set: RotationSet) -> Seq<EcPoint> {
    let cs = set.comms@;
    Seq::new((cs.len() - 1) as nat, |i: int| cs[cs.len() - 2 - i])
}

/// The runs of the set's commitments but the last, last first.
pub open spec fn comm_groups(set: RotationSet) -> Seq<Seq<EcPoint>> {
    runs(comms_rev_but_last(set), |last: EcPoint, c: EcPoint| comm_joins(last, c))
}

/// Whether a run holds a quotient point: its first commitment has no byte offsets.
pub open spec fn is_quotient(g: Seq<EcPoint>) -> bool {
    !g[0].x.is_integer() && !g[0].y.is_integer()
}

/// The code of a run's place: 2 for a quotient point, 0 for memory, 1 for calldata.
pub open spec fn loc_code(g: Seq<EcPoint>) -> u64 {
    if is_quotient(g) {
        2
    } else if g[0].loc() == Location::Memory {
        0
    } else {
        1
    }
}

/// The steps that put a point's two offsets, 16 bits each.
pub open spec fn point_ops(c: EcPoint) -> Seq<PackOp> {
    seq![PackOp::Put(c.x.offset() as u64, 16), PackOp::Put(c.y.offset() as u64, 16)]
}

/// The steps that encode a run of commitments: room for all of it, its place code and its
/// length (0 for a long run) a byte each; then nothing for a quotient point, each point's
/// offsets for a short run, and for a long run the first `x` offset and the offset one
/// point below its end.
pub open spec fn comm_group_ops(g: Seq<EcPoint>) -> Seq<PackOp> {
    let room = if g.len() == 2 {
        80
    } else if is_quotient(g) {
        16
    } else {
        48
    };
    let head = seq![
        PackOp::Reserve(room),
        PackOp::Put(loc_code(g), 8),
        PackOp::Put(
            if g.len() < 3 {
                g.len() as u64
            } else {
                0u64
            },
            8,
        ),
    ];
    if is_quotient(g) {
        head
    } else if g.len() < 3 {
        head + concat_ops(g, |c: EcPoint| point_ops(c))
    } else {
        head + seq![
            PackOp::Put(g[0].x.offset() as u64, 16),
            PackOp::Put((g[0].x.offset() - 0x40 * g.len()) as u64, 16),
        ]
    }
}

/// Within a run of commitments, the `i`-th lies `i` pairs of slots below the first, in the same
/// place.
proof fn lemma_comm_run_steps(g: Seq<EcPoint>, i: int)
    requires
        0 <= i < g.len(),
        forall|j: int| 1 <= j < g.len() ==> comm_joins(g[j - 1], #[trigger] g[j]),
    ensures
        g[i].x.loc == g[0].x.loc,
        i > 0 ==> g[i].x.is_integer() && g[0].x.is_integer(),
        g[i].x.offset() == g[0].x.offset() - 0x40 * i,
    decreases i,
{
    if i > 0 {
        lemma_comm_run_steps(g, i - 1);
        assert(comm_joins(g[i - 1], g[i]));
    }
}

/// A run of three commitments or more of a set is encoded as a 0 length, then the `x` offset of
/// its first (highest) commitment, then the offset one point (two slots) below its last: the
/// run's commitments are exactly the points from the first pointer down, two slots at a time,
/// to just above the second.
pub proof fn lemma_long_comm_run_bounds(set: RotationSet, k: int)
    requires
        set.comms@.len() > 0,
        0 <= k < comm_groups(set).len(),
        comm_groups(set)[k].len() >= 3,
    ensures
        ({
            let g = comm_groups(set)[k];
            let ops = comm_group_ops(g);
            &&& ops.len() == 5
            &&& ops[2] == PackOp::Put(0, 8)
            &&& ops[3] == PackOp::Put(g[0].x.offset() as u64, 16)
            &&& ops[4] == PackOp::Put((g[g.len() - 1].x.offset() - 0x40) as u64, 16)
            &&& forall|i: int|
                0 <= i < g.len() ==> (#[trigger] g[i]).x.loc == g[0].x.loc && g[i].x.is_integer()
                    && g[i].x.offset() == g[0].x.offset() - 0x40 * i
        }),
{
    let g = comm_groups(set)[k];
    lemma_runs_joined(comms_rev_but_last(set), |last: EcPoint, c: EcPoint| comm_joins(last, c));
    assert forall|j: int| 1 <= j < g.len() implies comm_joins(g[j - 1], #[trigger] g[j]) by {}
    assert forall|i: int| 0 <= i < g.len() implies (#[trigger] g[i]).x.loc == g[0].x.loc && g[i].x.is_integer()
        && g[i].x.offset() == g[0].x.offset() - 0x40 * i by {
        lemma_comm_run_steps(g, i);
        lemma_comm_run_steps(g, 1);
    }
    lemma_comm_run_steps(g, g.len() - 1);
    assert(!is_quotient(g));
}

/// The steps that encode a set's commitments: its last commitment's offsets, then its runs.
pub open spec fn pair_set_ops(set: RotationSet) -> Seq<PackOp> {
    point_ops(set.comms@.last()) + concat_ops(comm_groups(set), |g: Seq<EcPoint>| comm_group_ops(g))
}

/// The number of words that encode set `s`'s commitments.
pub open spec fn pair_set_words(sets: Seq<RotationSet>, s: int) -> int {
    packed_len(0, pair_set_ops(sets[s]))
}

/// 32 times the number of words of each set.
pub open spec fn pair_word_lens(sets: Seq<RotationSet>) -> Seq<u64> {
    Seq::new(sets.len(), |s: int| (32 * pair_set_words(sets, s)) as u64)
}

/// Where the words of set `s`'s commitments begin, after `n0` words of metadata.
pub open spec fn pair_start(sets: Seq<RotationSet>, n0: int, s: int) -> int
    decreases s,
{
    if s <= 0 {
        n0
    } else {
        pair_start(sets, n0, s - 1) + pair_set_words(sets, s - 1)
    }
}

/// The steps of the metadata: the second set's difference address, the offsets of `W` (at
/// `w`) and `W'` (two slots further) around the vanishing address, 16 bits each, then 32
/// times the number of words of each set, a byte each.
pub open spec fn pairing_meta_ops(num_rots: int, sets: Seq<RotationSet>, w: int) -> Seq<PackOp> {
    seq![
        PackOp::Put(diff_ptr(num_rots, sets, 1) as u64, 16),
        PackOp::Put(w as u64, 16),
        PackOp::Put((w + 0x20) as u64, 16),
        PackOp::Put(vanishing_ptr(num_rots, sets) as u64, 16),
        PackOp::Put((w + 0x40) as u64, 16),
        PackOp::Put((w + 0x60) as u64, 16),
    ] + byte_ops(pair_word_lens(sets))
}

/// Whether a set's commitments can be encoded: it has one; the last one's coordinates are
/// byte offsets; a quotient point stands alone; every point of a short run has byte
/// offsets; a long run does not start below its length in points; and the encoding takes
/// fewer than eight words.
pub open spec fn pair_encodable(set: RotationSet) -> bool {
    let gs = comm_groups(set);
    &&& set.comms@.len() > 0
    &&& set.comms@.last().x.is_integer()
    &&& set.comms@.last().y.is_integer()
    &&& forall|k: int| 0 <= k < gs.len() && is_quotient(#[trigger] gs[k]) ==> gs[k].len() == 1
    &&& forall|k: int, j: int|
        0 <= k < gs.len() && !is_quotient(gs[k]) && gs[k].len() < 3 && 0 <= j < gs[k].len()
            ==> (#[trigger] gs[k][j]).x.is_integer() && gs[k][j].y.is_integer()
    &&& forall|k: int|
        0 <= k < gs.len() && (#[trigger] gs[k]).len() >= 3 ==> 0x40 * gs[k].len() <= gs[k][0].x.offset()
    &&& 32 * packed_len(0, pair_set_ops(set)) < 256
}

/// Whether the pairing input can be encoded: two sets or more, each encodable, and `W'`'s
/// offsets within a machine word.
pub open spec fn pairing_encodable(superset: Seq<i32>, sets: Seq<RotationSet>, w: int) -> bool {
    &&& sets.len() >= 2
    &&& layout_fits(superset.len() as int, sets)
    &&& 0 <= w
    &&& w + 0x60 <= usize::MAX
    &&& forall|s: int| 0 <= s < sets.len() ==> pair_encodable(#[trigger] sets[s])
}

/// The plain view of nested vectors.
pub open spec fn comm_groups_view(gs: Seq<Vec<EcPoint>>) -> Seq<Seq<EcPoint>> {
    gs.map_values(|g: Vec<EcPoint>| g@)
}

/// Whether commitment `c` continues a run that ends at `last`.
fn comm_joins_exec(last: &EcPoint, c: &EcPoint) -> (b: bool)
    ensures
        b == comm_joins(*last, *c),
{
    match (last.x.value, c.x.value) {
        (Value::Integer(a), Value::Integer(v)) => last.x.loc == c.x.loc && a >= 0x40 && v == a - 0x40,
        _ => false,
    }
}

/// The runs of the set's commitments but the last, last first.
pub(crate) fn comm_groups_of(set: &RotationSet) -> (gs: Vec<Vec<EcPoint>>)
    requires
        set.comms@.len() > 0,
    ensures
        comm_groups_view(gs@) == comm_groups(*set),
{
    let ghost xs = comms_rev_but_last(*set);
    let ghost join = |last: EcPoint, c: EcPoint| comm_joins(last, c);
    let n = set.comms.len() - 1;
    let mut done: Vec<Vec<EcPoint>> = Vec::new();
    let mut cur: Vec<EcPoint> = Vec::new();
    let mut i: usize = 0;
    while i < n
        invariant
            n == xs.len(),
            n + 1 == set.comms@.len(),
            xs == comms_rev_but_last(*set),
            join == (|last: EcPoint, c: EcPoint| comm_joins(last, c)),
            i <= n,
            i == 0 ==> done.len() == 0 && cur.len() == 0,
            i > 0 ==> cur.len() > 0 && comm_groups_view(done@).push(cur@) == runs(
                xs.take(i as int),
                join,
            ),
        decreases n - i,
    {
        let x = set.comms[n - 1 - i];
        proof {
            assert(xs[i as int] == x);
            assert(xs.take(i + 1).drop_last() =~= xs.take(i as int));
            assert(xs.take(i + 1).last() == x);
        }
        if i > 0 && comm_joins_exec(&cur[cur.len() - 1], &x) {
            let ghost before = comm_groups_view(done@).push(cur@);
            assert(before.last() == cur@);
            assert(runs(xs.take(i + 1), join) == before.update(
                before.len() - 1,
                before.last().push(x),
            ));
            cur.push(x);
            assert(comm_groups_view(done@).push(cur@) =~= before.update(
                before.len() - 1,
                before.last().push(x),
            ));
        } else {
            let ghost before = if i > 0 {
                comm_groups_view(done@).push(cur@)
            } else {
                Seq::empty()
            };
            if i > 0 {
                done.push(cur);
                assert(comm_groups_view(done@) =~= before);
            } else {
                assert(comm_groups_view(done@) =~= before);
            }
            assert(runs(xs.take(i as int), join) == before);
            assert(runs(xs.take(i + 1), join) == before.push(seq![x]));
            cur = Vec::new();
            cur.push(x);
            assert(comm_groups_view(done@).push(cur@) =~= before.push(seq![x]));
        }
        i += 1;
    }
    assert(xs.take(n as int) =~= xs);
    if n > 0 {
        let ghost before = comm_groups_view(done@).push(cur@);
        done.push(cur);
        assert(comm_groups_view(done@) =~= before);
    } else {
        assert(comm_groups_view(done@) =~= Seq::<Seq<EcPoint>>::empty());
    }
    done
}

/// Puts the offsets of the points of `g`, 16 bits each coordinate.
fn put_points(p: &mut Packer, g: &Vec<EcPoint>)
    requires
        old(p).wf(),
        old(p).bit() + 32 * g.len() <= usize::MAX,
        forall|j: int| 0 <= j < g.len() ==> (#[trigger] g@[j]).x.is_integer() && g@[j].y.is_integer(),
    ensures
        final(p).wf(),
        final(p).start() == old(p).start(),
        final(p).ops() == old(p).ops() + concat_ops(g@, |c: EcPoint| point_ops(c)),
        final(p).bit() == old(p).bit() + 32 * g.len(),
{
    let ghost base = p.ops();
    let ghost b0 = p.bit();
    let mut j: usize = 0;
    while j < g.len()
        invariant
            j <= g.len(),
            p.wf(),
            p.start() == old(p).start(),
            b0 == old(p).bit(),
            b0 + 32 * g.len() <= usize::MAX,
            p.bit() == b0 + 32 * j,
            forall|i: int| 0 <= i < g.len() ==> (#[trigger] g@[i]).x.is_integer() && g@[i].y.is_integer(),
            p.ops() == base + concat_ops(g@.take(j as int), |c: EcPoint| point_ops(c)),
        decreases g.len() - j,
    {
        proof {
            lemma_concat_ops_step(g@, |c: EcPoint| point_ops(c), j as int);
        }
        let c = g[j];
        assert(c.x.is_integer() && c.y.is_integer());
        p.put(c.x.as_usize() as u64, 16);
        p.put(c.y.as_usize() as u64, 16);
        assert(p.ops() =~= base + concat_ops(g@.take(j + 1), |c: EcPoint| point_ops(c)));
        j += 1;
    }
    assert(g@.take(g.len() as int) =~= g@);
}

/// Encodes one run of commitments.
fn put_comm_group(p: &mut Packer, g: &Vec<EcPoint>)
    requires
        old(p).wf(),
        old(p).bit() <= 256,
        g.len() > 0,
        is_quotient(g@) ==> g.len() == 1,
        !is_quotient(g@) && g.len() < 3 ==> forall|j: int|
            0 <= j < g.len() ==> (#[trigger] g@[j]).x.is_integer() && g@[j].y.is_integer(),
        g.len() >= 3 ==> g@[0].x.is_integer() && 0x40 * g.len() <= g@[0].x.offset(),
    ensures
        final(p).wf(),
        final(p).start() == old(p).start(),
        final(p).bit() <= 256,
        final(p).ops() == old(p).ops() + comm_group_ops(g@),
{
    let ghost before = p.ops();
    let len = g.len();
    let first = g[0];
    let quotient = !first.x.is_integer_ptr() && !first.y.is_integer_ptr();
    let room: usize = if len == 2 {
        80
    } else if quotient {
        16
    } else {
        48
    };
    p.reserve(room);
    let code: u64 = if quotient {
        2
    } else if first.x.loc == Location::Memory {
        0
    } else {
        1
    };
    p.put(code, 8);
    let len_code: u64 = if len < 3 {
        len as u64
    } else {
        0
    };
    p.put(len_code, 8);
    let ghost head = seq![
        PackOp::Reserve(room as int),
        PackOp::Put(code, 8),
        PackOp::Put(len_code, 8),
    ];
    assert(p.ops() =~= before + head);
    if quotient {
        assert(p.ops() =~= before + comm_group_ops(g@));
    } else if len < 3 {
        put_points(p, g);
        assert(p.ops() =~= before + comm_group_ops(g@));
    } else {
        let top = first.x.as_usize();
        p.put(top as u64, 16);
        p.put((top - 0x40 * len) as u64, 16);
        assert(p.ops() =~= before + comm_group_ops(g@));
    }
}

/// The words that encode a set's commitments.
fn pair_set_words_of(set: &RotationSet) -> (words: Vec<Word256>)
    requires
        pair_encodable(*set),
    ensures
        packed(words@, 0, pair_set_ops(*set), Seq::empty()),
{
    let gs = comm_groups_of(set);
    let ghost g = comm_groups_view(gs@);
    let ghost gops = |h: Seq<EcPoint>| comm_group_ops(h);
    proof {
        lemma_runs_nonempty(comms_rev_but_last(*set), |last: EcPoint, c: EcPoint| comm_joins(last, c));
    }
    let n = set.comms.len();
    let last = set.comms[n - 1];
    let mut p = Packer::new(0);
    p.put(last.x.as_usize() as u64, 16);
    p.put(last.y.as_usize() as u64, 16);
    let ghost head = point_ops(set.comms@.last());
    assert(p.ops() =~= head + concat_ops(g.take(0), gops));
    let mut k: usize = 0;
    while k < gs.len()
        invariant
            k <= gs.len(),
            g == comm_groups_view(gs@),
            g == comm_groups(*set),
            pair_encodable(*set),
            forall|i: int| 0 <= i < g.len() ==> #[trigger] g[i].len() > 0,
            gops == (|h: Seq<EcPoint>| comm_group_ops(h)),
            p.wf(),
            p.start() == 0,
            p.bit() <= 256,
            p.ops() == head + concat_ops(g.take(k as int), gops),
        decreases gs.len() - k,
    {
        proof {
            lemma_concat_ops_step(g, gops, k as int);
        }
        let grp = &gs[k];
        assert(g[k as int] == grp@);
        assert(grp.len() > 0);
        assert(!is_quotient(grp@) && grp.len() < 3 ==> forall|j: int|
            0 <= j < grp.len() ==> (#[trigger] grp@[j]).x.is_integer() && grp@[j].y.is_integer()) by {
            assert forall|j: int|
                !is_quotient(grp@) && grp.len() < 3 && 0 <= j < grp.len() implies (#[trigger] grp@[j]).x.is_integer()
                && grp@[j].y.is_integer() by {
                assert(g[k as int][j] == grp@[j]);
            }
        }
        assert(grp.len() >= 3 ==> grp@[0].x.is_integer()) by {
            if grp.len() >= 3 {
                assert(0x40 * g[k as int].len() <= g[k as int][0].x.offset());
                lemma_runs_joined(
                    comms_rev_but_last(*set),
                    |last: EcPoint, c: EcPoint| comm_joins(last, c),
                );
                assert(comm_joins(g[k as int][0], g[k as int][1]));
            }
        }
        put_comm_group(&mut p, grp);
        assert(p.ops() =~= head + concat_ops(g.take(k + 1), gops));
        k += 1;
    }
    assert(g.take(gs.len() as int) =~= g);
    let empty: Vec<(u64, usize, usize)> = Vec::new();
    let words = p.finish(&empty);
    assert(header_fields(empty@) =~= Seq::<crate::layout::Field>::empty());
    words
}

/// Whether `seg` are the words that encode set `s`'s commitments.
#[verifier::opaque]
spec fn pair_segment(seg: Seq<Word256>, sets: Seq<RotationSet>, s: int) -> bool {
    packed(seg, 0, pair_set_ops(sets[s]), Seq::empty())
}

/// Each set's commitments take a word or more, so the sets' words begin in order.
pub proof fn lemma_pair_start_mono(sets: Seq<RotationSet>, n0: int, a: int, b: int)
    requires
        0 <= a <= b,
    ensures
        pair_start(sets, n0, a) <= pair_start(sets, n0, b),
    decreases b - a,
{
    if a < b {
        lemma_pair_start_mono(sets, n0, a, b - 1);
        lemma_run_word_grows(start_state(0), pair_set_ops(sets[b - 1]));
    }
}

/// Whether `words` encode the pairing input, `W` being at byte `w` of calldata.
pub open spec fn encodes_pairing_input(superset: Seq<i32>, sets: Seq<RotationSet>, w: int, words: Seq<Word256>) -> bool {
    let ops = pairing_meta_ops(superset.len() as int, sets, w as int);
    let n0 = packed_len(8, ops);
    &&& words.len() == pair_start(sets, n0, sets.len() as int)
    &&& packed(words.take(n0), 8, ops, header_fields(seq![(n0 as u64, 0usize, 8usize)]))
    &&& forall|s: int|
        #![trigger pair_set_ops(sets[s])]
        0 <= s < sets.len() ==> packed(
            words.subrange(pair_start(sets, n0, s), pair_start(sets, n0, s + 1)),
            0,
            pair_set_ops(sets[s]),
            Seq::empty(),
        )
}

/// The encoded pairing input: metadata words (a byte with their number; the second set's
/// difference address, the offsets of `W` and `W'` and the vanishing address, two bytes
/// each; then 32 times each set's number of words, a byte each, packed greedily), then per
/// set the words that encode its commitments.
pub fn pairing_input_computations(superset: &Vec<i32>, sets: &Vec<RotationSet>, w: usize) -> (words: Vec<Word256>)
    requires
        pairing_encodable(superset@, sets@, w as int),
    ensures
        encodes_pairing_input(superset@, sets@, w as int, words@),
{
    let ghost ss = sets@;
    let f = free_slot_of(superset, sets);
    let n = superset.len();
    let ns = sets.len();
    // The words of each set, and 32 times their number.
    let mut data: Vec<Vec<Word256>> = Vec::new();
    let mut lens: Vec<u64> = Vec::new();
    let mut i: usize = 0;
    while i < ns
        invariant
            ns == sets.len(),
            ss == sets@,
            forall|s: int| 0 <= s < ss.len() ==> pair_encodable(#[trigger] ss[s]),
            i <= ns,
            data.len() == i,
            forall|t: int| 0 <= t < i ==> packed(#[trigger] data@[t]@, 0, pair_set_ops(ss[t]), Seq::empty()),
            lens@ == pair_word_lens(ss).take(i as int),
        decreases ns - i,
    {
        assert(pair_encodable(ss[i as int]));
        let ws = pair_set_words_of(&sets[i]);
        assert(32 * ws.len() < 256);
        lens.push((32 * ws.len()) as u64);
        data.push(ws);
        i += 1;
        assert(lens@ =~= pair_word_lens(ss).take(i as int));
    }
    assert(pair_word_lens(ss).take(ns as int) =~= pair_word_lens(ss));
    proof {
        lemma_num_coeffs_prefix(ss, 0);
    }
    let mut p = Packer::new(8);
    p.put((0x20 * (f + 2 * n + 1 + 1)) as u64, 16);
    p.put(w as u64, 16);
    p.put((w + 0x20) as u64, 16);
    p.put((0x20 * (f + 2 * n)) as u64, 16);
    p.put((w + 0x40) as u64, 16);
    p.put((w + 0x60) as u64, 16);
    greedy_extend(&mut p, &lens, 8);
    let ghost meta_ops = pairing_meta_ops(n as int, ss, w as int);
    assert(p.ops() =~= meta_ops);
    let ghost n0 = packed_len(8, meta_ops);
    let count = p.words_len();
    let mut header: Vec<(u64, usize, usize)> = Vec::new();
    header.push((count as u64, 0, 8));
    assert(header@ =~= seq![(n0 as u64, 0usize, 8usize)]);
    let mut words = p.finish(&header);
    let ghost meta = words@;
    proof {
        lemma_run_word_grows(start_state(8), meta_ops);
    }
    let mut s: usize = 0;
    while s < ns
        invariant
            ns == sets.len(),
            ns == data.len(),
            ss == sets@,
            s <= ns,
            meta.len() == n0,
            n0 >= 1,
            forall|t: int| 0 <= t < ns ==> packed(#[trigger] data@[t]@, 0, pair_set_ops(ss[t]), Seq::empty()),
            words.len() == pair_start(ss, n0, s as int),
            words@.take(n0) == meta,
            forall|t: int|
                0 <= t < s ==> #[trigger] pair_segment(
                    words@.subrange(pair_start(ss, n0, t), pair_start(ss, n0, t + 1)),
                    ss,
                    t,
                ),
        decreases ns - s,
    {
        proof {
            lemma_pair_start_mono(ss, n0, 0, s as int);
        }
        let ghost pre = words@;
        let ghost ws = data@[s as int]@;
        assert(packed(ws, 0, pair_set_ops(ss[s as int]), Seq::empty()));
        let mut j: usize = 0;
        while j < data[s].len()
            invariant
                s < ns == data.len(),
                ws == data@[s as int]@,
                j <= ws.len(),
                words@ == pre + ws.take(j as int),
            decreases ws.len() - j,
        {
            words.push(data[s][j]);
            j += 1;
            assert(words@ =~= pre + ws.take(j as int));
        }
        assert(ws.take(ws.len() as int) =~= ws);
        assert(words@.take(n0) =~= pre.take(n0));
        assert(words@.subrange(pair_start(ss, n0, s as int), pair_start(ss, n0, s + 1)) =~= ws);
        assert(pair_segment(ws, ss, s as int)) by {
            reveal(pair_segment);
        }
        assert forall|t: int|
            0 <= t < s + 1 implies #[trigger] pair_segment(
                words@.subrange(pair_start(ss, n0, t), pair_start(ss, n0, t + 1)),
                ss,
                t,
            ) by {
            if t < s {
                lemma_pair_start_mono(ss, n0, t + 1, s as int);
                lemma_pair_start_mono(ss, n0, t, t + 1);
                lemma_pair_start_mono(ss, n0, 0, t);
                assert(words@.subrange(pair_start(ss, n0, t), pair_start(ss, n0, t + 1))
                    =~= pre.subrange(pair_start(ss, n0, t), pair_start(ss, n0, t + 1)));
            }
        }
        s += 1;
    }
    assert forall|t: int|
        #![trigger pair_set_ops(ss[t])]
        0 <= t < ns implies packed(
            words@.subrange(pair_start(ss, n0, t), pair_start(ss, n0, t + 1)),
            0,
            pair_set_ops(ss[t]),
            Seq::empty(),
        ) by {
        reveal(pair_segment);
        assert(pair_segment(
            words@.subrange(pair_start(ss, n0, t), pair_start(ss, n0, t + 1)),
            ss,
            t,
        ));
    }
    words
}

} // verus!
