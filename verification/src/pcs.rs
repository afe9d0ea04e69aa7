use vstd::prelude::*;

use crate::location::{EcPoint, Ptr};
use crate::word::Word256;

verus! {

/// An opening query: the commitment opened, the rotation at which it is opened, and where
/// the claimed evaluation lies.
#[derive(Clone, Copy, Debug, PartialEq, Eq, Structural)]
pub struct Query {
    pub comm: EcPoint,
    pub rot: i32,
    pub eval: Ptr,
}

impl Query {
    pub fn new(comm: EcPoint, rot: i32, eval: Ptr) -> (q: Self)
        ensures
            q.comm == comm,
            q.rot == rot,
            q.eval == eval,
    {
        Query { comm, rot, eval }
    }
}

/// Whether the rotations are in strictly increasing order.
pub open spec fn strictly_sorted(s: Seq<i32>) -> bool {
    forall|i: int, j: int| 0 <= i < j < s.len() ==> s[i] < s[j]
}

/// Whether some query opens at rotation `r`.
pub open spec fn opened_at(qs: Seq<Query>, r: i32) -> bool {
    exists|j: int| 0 <= j < qs.len() && (#[trigger] qs[j]).rot == r
}

/// Whether some query opens commitment `c` at rotation `r`.
pub open spec fn opens(qs: Seq<Query>, c: EcPoint, r: i32) -> bool {
    exists|j: int| 0 <= j < qs.len() && (#[trigger] qs[j]).comm == c && qs[j].rot == r
}

/// Whether some query opens commitment `c` at rotation `r` with evaluation `e`.
pub open spec fn has_query(qs: Seq<Query>, c: EcPoint, r: i32, e: Ptr) -> bool {
    exists|j: int|
        0 <= j < qs.len() && (#[trigger] qs[j]).comm == c && qs[j].rot == r && qs[j].eval == e
}

/// Whether no commitment is opened twice at the same rotation.
pub open spec fn distinct_openings(qs: Seq<Query>) -> bool {
    forall|i: int, j: int|
        0 <= i < j < qs.len() && (#[trigger] qs[i]).comm == (#[trigger] qs[j]).comm ==> qs[i].rot
            != qs[j].rot
}

/// The commitments of the queries, each once, in order of first appearance.
pub open spec fn comm_order(qs: Seq<Query>) -> Seq<EcPoint>
    decreases qs.len(),
{
    if qs.len() == 0 {
        Seq::empty()
    } else {
        let prev = comm_order(qs.drop_last());
        if prev.contains(qs.last().comm) {
            prev
        } else {
            prev.push(qs.last().comm)
        }
    }
}

/// A commitment with the rotations it is opened at (increasing) and the matching
/// evaluations.
pub struct CommQueries {
    pub comm: EcPoint,
    pub rots: Vec<i32>,
    pub evals: Vec<Ptr>,
}

/// Whether `cq` records exactly the openings of its commitment among `qs`.
pub open spec fn records(cq: CommQueries, qs: Seq<Query>) -> bool {
    &&& strictly_sorted(cq.rots@)
    &&& cq.rots.len() == cq.evals.len()
    &&& forall|r: i32| cq.rots@.contains(r) <==> opens(qs, cq.comm, r)
    &&& forall|m: int|
        0 <= m < cq.rots.len() ==> has_query(qs, cq.comm, #[trigger] cq.rots@[m], cq.evals@[m])
}

/// Where `r` goes in the strictly increasing `s`: the number of elements below it, and
/// whether it is already there.
fn sorted_position(s: &Vec<i32>, r: i32) -> (res: (usize, bool))
    requires
        strictly_sorted(s@),
    ensures
        res.0 <= s.len(),
        forall|j: int| 0 <= j < res.0 ==> s@[j] < r,
        res.1 ==> res.0 < s.len() && s@[res.0 as int] == r,
        !res.1 ==> forall|j: int| res.0 <= j < s.len() ==> s@[j] > r,
        res.1 == s@.contains(r),
{
    let mut p: usize = 0;
    while p < s.len() && s[p] < r
        invariant
            p <= s.len(),
            strictly_sorted(s@),
            forall|j: int| 0 <= j < p ==> s@[j] < r,
        decreases s.len() - p,
    {
        p += 1;
    }
    let found = p < s.len() && s[p] == r;
    proof {
        if found {
            assert(s@.contains(r));
        } else {
            assert forall|j: int| p <= j < s.len() implies s@[j] > r by {
                assert(s@[p as int] > r);
                if j > p {
                    assert(s@[p as int] < s@[j]);
                }
            }
            if s@.contains(r) {
                let j = choose|j: int| 0 <= j < s.len() && s@[j] == r;
                assert(j < p || j >= p);
            }
        }
    }
    (p, found)
}

/// Inserting `r` at its position keeps `s` strictly increasing.
proof fn lemma_insert_sorted(s: Seq<i32>, p: int, r: i32)
    requires
        strictly_sorted(s),
        0 <= p <= s.len(),
        forall|j: int| 0 <= j < p ==> s[j] < r,
        forall|j: int| p <= j < s.len() ==> s[j] > r,
    ensures
        strictly_sorted(s.insert(p, r)),
        forall|x: i32| s.insert(p, r).contains(x) <==> (s.contains(x) || x == r),
{
    let t = s.insert(p, r);
    assert forall|x: i32| t.contains(x) <==> (s.contains(x) || x == r) by {
        if t.contains(x) {
            let j = choose|j: int| 0 <= j < t.len() && t[j] == x;
            if j < p {
                assert(s[j] == x);
            } else if j > p {
                assert(s[j - 1] == x);
            }
        }
        if s.contains(x) {
            let j = choose|j: int| 0 <= j < s.len() && s[j] == x;
            if j < p {
                assert(t[j] == x);
            } else {
                assert(t[j + 1] == x);
            }
        }
        if x == r {
            assert(t[p] == x);
        }
    }
}

/// Where commitment `c` is in `cq`, if it is.
fn comm_position(cq: &Vec<CommQueries>, c: EcPoint) -> (res: Option<usize>)
    ensures
        match res {
            Some(p) => p < cq.len() && cq@[p as int].comm == c,
            None => forall|k: int| 0 <= k < cq.len() ==> cq@[k].comm != c,
        },
{
    let mut p: usize = 0;
    while p < cq.len()
        invariant
            p <= cq.len(),
            forall|k: int| 0 <= k < p ==> cq@[k].comm != c,
        decreases cq.len() - p,
    {
        if cq[p].comm == c {
            return Some(p);
        }
        p += 1;
    }
    None
}

/// The rotations opened by the queries, increasing and each once, and for each commitment
/// in order of first appearance, its rotations and evaluations.
fn group_by_comm(queries: &[Query]) -> (res: (Vec<i32>, Vec<CommQueries>))
    requires
        distinct_openings(queries@),
    ensures
        strictly_sorted(res.0@),
        forall|r: i32| res.0@.contains(r) <==> opened_at(queries@, r),
        res.1.len() == comm_order(queries@).len(),
        forall|k: int| 0 <= k < res.1.len() ==> (#[trigger] res.1@[k]).comm == comm_order(queries@)[k],
        forall|k: int| 0 <= k < res.1.len() ==> records(#[trigger] res.1@[k], queries@),
{
    let ghost qs = queries@;
    let mut superset: Vec<i32> = Vec::new();
    let mut cq: Vec<CommQueries> = Vec::new();
    let mut i: usize = 0;
    while i < queries.len()
        invariant
            qs == queries@,
            distinct_openings(qs),
            i <= queries.len(),
            strictly_sorted(superset@),
            forall|r: i32| superset@.contains(r) <==> opened_at(qs.take(i as int), r),
            cq.len() == comm_order(qs.take(i as int)).len(),
            forall|k: int|
                0 <= k < cq.len() ==> (#[trigger] cq@[k]).comm == comm_order(qs.take(i as int))[k],
            forall|k: int| 0 <= k < cq.len() ==> records(#[trigger] cq@[k], qs.take(i as int)),
        decreases queries.len() - i,
    {
        let q = queries[i];
        let ghost pre = qs.take(i as int);
        let ghost post = qs.take(i + 1);
        assert(post.drop_last() =~= pre);
        assert(post.last() == q);
        // Facts about the prefix grown by one query.
        assert forall|r: i32| opened_at(post, r) <==> (opened_at(pre, r) || r == q.rot) by {
            if opened_at(post, r) {
                let j = choose|j: int| 0 <= j < post.len() && (#[trigger] post[j]).rot == r;
                if j < pre.len() {
                    assert(pre[j] == post[j]);
                }
            }
            if opened_at(pre, r) {
                let j = choose|j: int| 0 <= j < pre.len() && (#[trigger] pre[j]).rot == r;
                assert(post[j] == pre[j]);
            }
            assert(post[i as int] == q);
        }
        assert forall|c: EcPoint, r: i32| #[trigger] opens(post, c, r) <==> (opens(pre, c, r) || (c == q.comm
            && r == q.rot)) by {
            if opens(post, c, r) {
                let j = choose|j: int| 0 <= j < post.len() && (#[trigger] post[j]).comm == c && post[j].rot == r;
                if j < pre.len() {
                    assert(pre[j] == post[j]);
                }
            }
            if opens(pre, c, r) {
                let j = choose|j: int| 0 <= j < pre.len() && (#[trigger] pre[j]).comm == c && pre[j].rot == r;
                assert(post[j] == pre[j]);
            }
            assert(post[i as int] == q);
        }
        assert forall|c: EcPoint, r: i32, e: Ptr| #[trigger] has_query(pre, c, r, e) implies has_query(post, c, r, e) by {
            let j = choose|j: int|
                0 <= j < pre.len() && (#[trigger] pre[j]).comm == c && pre[j].rot == r && pre[j].eval == e;
            assert(post[j] == pre[j]);
        }
        assert(has_query(post, q.comm, q.rot, q.eval)) by {
            assert(post[i as int] == q);
        }
        // The rotation joins the superset.
        let (sp, sfound) = sorted_position(&superset, q.rot);
        let ghost old_sup = superset@;
        if !sfound {
            proof {
                lemma_insert_sorted(superset@, sp as int, q.rot);
            }
            superset.insert(sp, q.rot);
        }
        assert forall|r: i32| superset@.contains(r) <==> opened_at(post, r) by {
            assert(opened_at(post, r) <==> (opened_at(pre, r) || r == q.rot));
            assert(old_sup.contains(r) <==> opened_at(pre, r));
            if !sfound {
                assert(superset@ == old_sup.insert(sp as int, q.rot));
                assert(superset@.contains(r) <==> (old_sup.contains(r) || r == q.rot));
            }
        }
        // The opening joins its commitment's record.
        let ghost old_cq = cq@;
        match comm_position(&cq, q.comm) {
            Some(p) => {
                let ghost order = comm_order(pre);
                proof {
                    lemma_comm_order_distinct(pre);
                }
                assert(order.contains(q.comm)) by {
                    assert(order[p as int] == q.comm);
                }
                assert(comm_order(post) == order);
                let entry = cq.remove(p);
                let CommQueries { comm, mut rots, mut evals } = entry;
                assert(records(entry, pre));
                let (rp, rfound) = sorted_position(&rots, q.rot);
                if rfound {
                    // The commitment was opened at this rotation by an earlier query.
                    proof {
                        assert(rots@.contains(q.rot));
                        assert(opens(pre, q.comm, q.rot));
                        let j = choose|j: int| 0 <= j < pre.len() && (#[trigger] pre[j]).comm == q.comm
                            && pre[j].rot == q.rot;
                        assert(qs[j] == pre[j] && qs[i as int] == q);
                        assert(false);
                    }
                }
                proof {
                    lemma_insert_sorted(rots@, rp as int, q.rot);
                }
                let ghost old_rots = rots@;
                let ghost old_evals = evals@;
                rots.insert(rp, q.rot);
                evals.insert(rp, q.eval);
                let updated = CommQueries { comm, rots, evals };
                assert(records(updated, post)) by {
                    assert forall|m: int| 0 <= m < updated.rots.len() implies has_query(
                        post,
                        updated.comm,
                        #[trigger] updated.rots@[m],
                        updated.evals@[m],
                    ) by {
                        if m < rp {
                            assert(updated.rots@[m] == old_rots[m] && updated.evals@[m] == old_evals[m]);
                            assert(has_query(pre, comm, old_rots[m], old_evals[m]));
                        } else if m > rp {
                            assert(updated.rots@[m] == old_rots[m - 1] && updated.evals@[m]
                                == old_evals[m - 1]);
                            assert(has_query(pre, comm, old_rots[m - 1], old_evals[m - 1]));
                        }
                    }
                }
                cq.insert(p, updated);
                assert forall|k: int| 0 <= k < cq.len() implies records(#[trigger] cq@[k], post) by {
                    if k != p {
                        assert(cq@[k] == old_cq[k]);
                        assert(records(old_cq[k], pre));
                        assert(old_cq[k].comm != q.comm);
                        assert forall|r: i32| cq@[k].rots@.contains(r) <==> opens(post, cq@[k].comm, r) by {
                            assert(opens(post, cq@[k].comm, r) <==> opens(pre, cq@[k].comm, r));
                        }
                        assert forall|m: int| 0 <= m < cq@[k].rots.len() implies has_query(
                            post,
                            cq@[k].comm,
                            #[trigger] cq@[k].rots@[m],
                            cq@[k].evals@[m],
                        ) by {
                            assert(has_query(pre, cq@[k].comm, cq@[k].rots@[m], cq@[k].evals@[m]));
                        }
                    }
                }
                assert forall|k: int| 0 <= k < cq.len() implies (#[trigger] cq@[k]).comm == comm_order(post)[k] by {
                    if k != p {
                        assert(cq@[k] == old_cq[k]);
                    }
                }
            },
            None => {
                assert(forall|k: int| 0 <= k < old_cq.len() ==> (#[trigger] old_cq[k]).comm != q.comm);
                let ghost order = comm_order(pre);
                assert(!order.contains(q.comm)) by {
                    if order.contains(q.comm) {
                        let k = choose|k: int| 0 <= k < order.len() && order[k] == q.comm;
                        assert(cq@[k].comm == q.comm);
                    }
                }
                assert(comm_order(post) == order.push(q.comm));
                let mut rots: Vec<i32> = Vec::new();
                rots.push(q.rot);
                let mut evals: Vec<Ptr> = Vec::new();
                evals.push(q.eval);
                let fresh = CommQueries { comm: q.comm, rots, evals };
                assert(records(fresh, post)) by {
                    assert forall|r: i32| fresh.rots@.contains(r) <==> opens(post, fresh.comm, r) by {
                        if opens(pre, q.comm, r) {
                            let j = choose|j: int| 0 <= j < pre.len() && (#[trigger] pre[j]).comm == q.comm
                                && pre[j].rot == r;
                            assert(records(cq@[0], pre) || cq.len() == 0);
                            assert(order.contains(q.comm)) by {
                                lemma_comm_order_contains(pre, j);
                            }
                        }
                        if r == q.rot {
                            assert(fresh.rots@[0] == r);
                        }
                    }
                    assert(fresh.rots@[0] == q.rot && fresh.evals@[0] == q.eval);
                }
                cq.push(fresh);
                assert forall|k: int| 0 <= k < cq.len() implies records(#[trigger] cq@[k], post) by {
                    if k < old_cq.len() {
                        assert(cq@[k] == old_cq[k]);
                        assert(records(old_cq[k], pre));
                        assert(old_cq[k].comm != q.comm);
                        assert forall|r: i32| cq@[k].rots@.contains(r) <==> opens(post, cq@[k].comm, r) by {
                            assert(opens(post, cq@[k].comm, r) <==> opens(pre, cq@[k].comm, r));
                        }
                        assert forall|m: int| 0 <= m < cq@[k].rots.len() implies has_query(
                            post,
                            cq@[k].comm,
                            #[trigger] cq@[k].rots@[m],
                            cq@[k].evals@[m],
                        ) by {
                            assert(has_query(pre, cq@[k].comm, cq@[k].rots@[m], cq@[k].evals@[m]));
                        }
                    }
                }
                assert forall|k: int| 0 <= k < cq.len() implies (#[trigger] cq@[k]).comm == comm_order(post)[k] by {
                    if k < old_cq.len() {
                        assert(cq@[k] == old_cq[k]);
                    }
                }
            },
        }
        i += 1;
    }
    assert(qs.take(queries.len() as int) =~= qs);
    (superset, cq)
}

/// Commitments opened at the same rotations, with their evaluations.
pub struct RotationSet {
    /// The rotations, increasing.
    pub rots: Vec<i32>,
    /// The rotations of the superset that are not among `rots`, increasing.
    pub diffs: Vec<i32>,
    /// The commitments, in order of first appearance.
    pub comms: Vec<EcPoint>,
    /// For each commitment, its evaluations at `rots`.
    pub evals: Vec<Vec<Ptr>>,
}

impl RotationSet {
    pub fn rots(&self) -> (r: &Vec<i32>)
        ensures
            r == &self.rots,
    {
        &self.rots
    }

    pub fn diffs(&self) -> (r: &Vec<i32>)
        ensures
            r == &self.diffs,
    {
        &self.diffs
    }

    pub fn comms(&self) -> (r: &Vec<EcPoint>)
        ensures
            r == &self.comms,
    {
        &self.comms
    }

    pub fn evals(&self) -> (r: &Vec<Vec<Ptr>>)
        ensures
            r == &self.evals,
    {
        &self.evals
    }
}

fn copy_vec<T: Copy>(v: &Vec<T>) -> (c: Vec<T>)
    ensures
        c@ == v@,
{
    let mut c: Vec<T> = Vec::new();
    let mut i: usize = 0;
    while i < v.len()
        invariant
            i <= v.len(),
            c@ == v@.take(i as int),
        decreases v.len() - i,
    {
        c.push(v[i]);
        i += 1;
        assert(c@ =~= v@.take(i as int));
    }
    assert(v@.take(v.len() as int) =~= v@);
    c
}

fn same_rots(a: &Vec<i32>, b: &Vec<i32>) -> (eq: bool)
    ensures
        eq == (a@ == b@),
{
    if a.len() != b.len() {
        return false;
    }
    let mut i: usize = 0;
    while i < a.len()
        invariant
            a.len() == b.len(),
            i <= a.len(),
            forall|j: int| 0 <= j < i ==> a@[j] == b@[j],
        decreases a.len() - i,
    {
        if a[i] != b[i] {
            return false;
        }
        i += 1;
    }
    assert(a@ =~= b@);
    true
}

fn contains_comm(v: &Vec<EcPoint>, c: EcPoint) -> (found: bool)
    ensures
        found == v@.contains(c),
{
    let mut i: usize = 0;
    while i < v.len()
        invariant
            i <= v.len(),
            forall|j: int| 0 <= j < i ==> v@[j] != c,
        decreases v.len() - i,
    {
        if v[i] == c {
            return true;
        }
        i += 1;
    }
    false
}

fn contains_rot(v: &Vec<i32>, r: i32) -> (found: bool)
    ensures
        found == v@.contains(r),
{
    let mut i: usize = 0;
    while i < v.len()
        invariant
            i <= v.len(),
            forall|j: int| 0 <= j < i ==> v@[j] != r,
        decreases v.len() - i,
    {
        if v[i] == r {
            return true;
        }
        i += 1;
    }
    false
}

/// The rotations of the superset that are not in `rots`, in order.
fn rotation_diffs(superset: &Vec<i32>, rots: &Vec<i32>) -> (diffs: Vec<i32>)
    requires
        strictly_sorted(superset@),
    ensures
        strictly_sorted(diffs@),
        forall|r: i32| diffs@.contains(r) <==> (superset@.contains(r) && !rots@.contains(r)),
{
    let mut diffs: Vec<i32> = Vec::new();
    let mut i: usize = 0;
    while i < superset.len()
        invariant
            i <= superset.len(),
            strictly_sorted(superset@),
            strictly_sorted(diffs@),
            forall|j: int| #![trigger diffs@[j]] 0 <= j < diffs.len() ==> exists|k: int| 0 <= k < i && diffs@[j] == #[trigger] superset@[k],
            forall|r: i32|
                diffs@.contains(r) <==> (superset@.take(i as int).contains(r) && !rots@.contains(r)),
        decreases superset.len() - i,
    {
        let r = superset[i];
        let ghost pre = diffs@;
        assert(superset@.take(i + 1) =~= superset@.take(i as int).push(r));
        let keep = !contains_rot(rots, r);
        if keep {
            diffs.push(r);
            assert forall|a: int, b: int| 0 <= a < b < diffs.len() implies diffs@[a] < diffs@[b] by {
                if b == pre.len() {
                    let k = choose|k: int| 0 <= k < i && pre[a] == superset@[k];
                }
            }
            assert forall|j: int| #![trigger diffs@[j]] 0 <= j < diffs.len() implies exists|k: int| 0 <= k < i + 1 && diffs@[j] == #[trigger] superset@[k] by {
                if j < pre.len() {
                    let k = choose|k: int| 0 <= k < i && pre[j] == superset@[k];
                    assert(0 <= k < i + 1 && diffs@[j] == superset@[k]);
                } else {
                    assert(diffs@[j] == superset@[i as int]);
                }
            }
        }
        assert forall|x: i32| diffs@.contains(x) <==> (superset@.take(i + 1).contains(x)
            && !rots@.contains(x)) by {
            let t0 = superset@.take(i as int);
            let t1 = superset@.take(i + 1);
            if t1.contains(x) {
                let j = choose|j: int| 0 <= j < t1.len() && t1[j] == x;
                if j < i {
                    assert(t0[j] == x);
                }
            }
            if t0.contains(x) {
                let j = choose|j: int| 0 <= j < t0.len() && t0[j] == x;
                assert(t1[j] == x);
            }
            assert(t1[i as int] == r);
            if keep {
                if diffs@.contains(x) {
                    let j = choose|j: int| 0 <= j < diffs.len() && diffs@[j] == x;
                    if j < pre.len() {
                        assert(pre[j] == x);
                    }
                }
                if pre.contains(x) {
                    let j = choose|j: int| 0 <= j < pre.len() && pre[j] == x;
                    assert(diffs@[j] == x);
                }
                assert(diffs@[pre.len() as int] == r);
            }
        }
        i += 1;
    }
    assert(superset@.take(superset.len() as int) =~= superset@);
    diffs
}

/// Where the set opened at rotations `rots` is, if there is one.
fn find_set(sets: &Vec<RotationSet>, rots: &Vec<i32>) -> (res: Option<usize>)
    ensures
        match res {
            Some(p) => p < sets.len() && sets@[p as int].rots@ == rots@,
            None => forall|a: int| 0 <= a < sets.len() ==> (#[trigger] sets@[a]).rots@ != rots@,
        },
{
    let mut j: usize = 0;
    while j < sets.len()
        invariant
            j <= sets.len(),
            forall|a: int| 0 <= a < j ==> (#[trigger] sets@[a]).rots@ != rots@,
        decreases sets.len() - j,
    {
        if same_rots(&sets[j].rots, rots) {
            return Some(j);
        }
        j += 1;
    }
    None
}

/// Whether index `u` is among the member lists.
spec fn member(ms: Seq<Seq<int>>, u: int) -> bool {
    exists|a: int, m: int| 0 <= a < ms.len() && 0 <= m < ms[a].len() && #[trigger] ms[a][m] == u
}

/// Whether `sets`, with `ms[a]` the indices into `cq` of the commitments of set `a`, group
/// the first `t` records of `cq` by their rotations.
spec fn groups(
    superset: Seq<i32>,
    cq: Seq<CommQueries>,
    t: int,
    sets: Seq<RotationSet>,
    ms: Seq<Seq<int>>,
) -> bool {
    &&& sets.len() == ms.len()
    &&& forall|a: int|
        0 <= a < sets.len() ==> {
            &&& (#[trigger] ms[a]).len() == sets[a].comms.len()
            &&& ms[a].len() == sets[a].evals.len()
            &&& ms[a].len() > 0
            &&& strictly_sorted(sets[a].diffs@)
            &&& forall|r: i32|
                sets[a].diffs@.contains(r) <==> (superset.contains(r) && !sets[a].rots@.contains(r))
        }
    &&& forall|a: int, m: int|
        0 <= a < sets.len() && 0 <= m < ms[a].len() ==> {
            &&& 0 <= #[trigger] ms[a][m] < t
            &&& sets[a].comms@[m] == cq[ms[a][m]].comm
            &&& sets[a].evals@[m]@ == cq[ms[a][m]].evals@
            &&& sets[a].rots@ == cq[ms[a][m]].rots@
        }
    &&& forall|a: int, m1: int, m2: int|
        0 <= a < sets.len() && 0 <= m1 < m2 < ms[a].len() ==> #[trigger] ms[a][m1]
            < #[trigger] ms[a][m2]
    &&& forall|u: int| 0 <= u < t ==> #[trigger] member(ms, u)
    &&& forall|a: int, b: int|
        0 <= a < sets.len() && 0 <= b < sets.len() && a != b ==> (#[trigger] sets[a]).rots@
            != (#[trigger] sets[b]).rots@
    &&& forall|a: int, b: int|
        0 <= a < b < sets.len() ==> #[trigger] ms[a][0] < #[trigger] ms[b][0]
}

/// Groups the records, in order, into rotation sets: a record joins the set opened at
/// the same rotations, or starts a new set after the existing ones.
fn group_by_rots(superset: &Vec<i32>, cq: &Vec<CommQueries>) -> (res: (
    Vec<RotationSet>,
    Ghost<Seq<Seq<int>>>,
))
    requires
        strictly_sorted(superset@),
        forall|a: int, b: int| 0 <= a < b < cq.len() ==> cq@[a].comm != cq@[b].comm,
        forall|k: int| 0 <= k < cq.len() ==> (#[trigger] cq@[k]).rots.len() > 0,
    ensures
        groups(superset@, cq@, cq.len() as int, res.0@, res.1@),
{
    let mut sets: Vec<RotationSet> = Vec::new();
    let ghost mut ms: Seq<Seq<int>> = Seq::empty();
    let mut t: usize = 0;
    while t < cq.len()
        invariant
            t <= cq.len(),
            strictly_sorted(superset@),
            forall|a: int, b: int| 0 <= a < b < cq.len() ==> cq@[a].comm != cq@[b].comm,
            forall|k: int| 0 <= k < cq.len() ==> (#[trigger] cq@[k]).rots.len() > 0,
            groups(superset@, cq@, t as int, sets@, ms),
        decreases cq.len() - t,
    {
        let entry = &cq[t];
        let ghost old_sets = sets@;
        let ghost old_ms = ms;
        match find_set(&sets, &entry.rots) {
            Some(p) => {
                let mut set = sets.remove(p);
                assert(set == old_sets[p as int]);
                if contains_comm(&set.comms, entry.comm) {
                    proof {
                        let m = choose|m: int| 0 <= m < set.comms.len() && set.comms@[m] == entry.comm;
                        assert(0 <= old_ms[p as int][m] < t);
                        assert(cq@[old_ms[p as int][m]].comm == entry.comm);
                    }
                } else {
                    set.comms.push(entry.comm);
                    set.evals.push(copy_vec(&entry.evals));
                    proof {
                        ms = old_ms.update(p as int, old_ms[p as int].push(t as int));
                    }
                }
                let ghost new_set = set;
                sets.insert(p, set);
                assert(sets@ =~= old_sets.update(p as int, new_set));
                assert(groups(superset@, cq@, t + 1, sets@, ms)) by {
                    assert forall|a: int, m: int| 0 <= a < sets.len() && 0 <= m < ms[a].len() implies {
                        &&& 0 <= #[trigger] ms[a][m] < t + 1
                        &&& sets@[a].comms@[m] == cq@[ms[a][m]].comm
                        &&& sets@[a].evals@[m]@ == cq@[ms[a][m]].evals@
                        &&& sets@[a].rots@ == cq@[ms[a][m]].rots@
                    } by {
                        if a == p && m == old_ms[a].len() {
                            assert(ms[a][m] == t);
                        } else if a == p {
                            assert(ms[a][m] == old_ms[a][m]);
                        }
                    }
                    assert forall|a: int, m1: int, m2: int|
                        0 <= a < sets.len() && 0 <= m1 < m2 < ms[a].len() implies #[trigger] ms[a][m1]
                        < #[trigger] ms[a][m2] by {
                        if a == p && m2 == old_ms[a].len() {
                            assert(old_ms[a][m1] < t);
                        } else if a == p {
                            assert(old_ms[a][m1] < old_ms[a][m2]);
                        }
                    }
                    assert forall|u: int| 0 <= u < t + 1 implies #[trigger] member(ms, u) by {
                        if u == t {
                            assert(ms[p as int][old_ms[p as int].len() as int] == u);
                        } else {
                            assert(member(old_ms, u));
                            let (a, m) = choose|a: int, m: int|
                                0 <= a < old_ms.len() && 0 <= m < old_ms[a].len() && #[trigger] old_ms[a][m] == u;
                            assert(ms[a][m] == u);
                        }
                    }
                    assert forall|a: int, b: int| 0 <= a < b < sets.len() implies #[trigger] ms[a][0]
                        < #[trigger] ms[b][0] by {
                        assert(ms[a][0] == old_ms[a][0] && ms[b][0] == old_ms[b][0]);
                    }
                    assert forall|a: int| 0 <= a < sets.len() implies (#[trigger] ms[a]).len() == sets@[a].comms.len() by {}
                }
            },
            None => {
                let diffs = rotation_diffs(superset, &entry.rots);
                let mut comms: Vec<EcPoint> = Vec::new();
                comms.push(entry.comm);
                let mut evals: Vec<Vec<Ptr>> = Vec::new();
                evals.push(copy_vec(&entry.evals));
                let set = RotationSet { rots: copy_vec(&entry.rots), diffs, comms, evals };
                sets.push(set);
                proof {
                    ms = old_ms.push(seq![t as int]);
                }
                assert(groups(superset@, cq@, t + 1, sets@, ms)) by {
                    let n = old_sets.len() as int;
                    assert(sets@[n] == set);
                    assert forall|a: int| 0 <= a < sets.len() implies {
                        &&& (#[trigger] ms[a]).len() == sets@[a].comms.len()
                        &&& ms[a].len() == sets@[a].evals.len()
                        &&& ms[a].len() > 0
                        &&& strictly_sorted(sets@[a].diffs@)
                        &&& forall|r: i32|
                            sets@[a].diffs@.contains(r) <==> (superset@.contains(r)
                                && !sets@[a].rots@.contains(r))
                    } by {
                        if a < n {
                            assert(sets@[a] == old_sets[a] && ms[a] == old_ms[a]);
                        }
                    }
                    assert forall|a: int, m: int| 0 <= a < sets.len() && 0 <= m < ms[a].len() implies {
                        &&& 0 <= #[trigger] ms[a][m] < t + 1
                        &&& sets@[a].comms@[m] == cq@[ms[a][m]].comm
                        &&& sets@[a].evals@[m]@ == cq@[ms[a][m]].evals@
                        &&& sets@[a].rots@ == cq@[ms[a][m]].rots@
                    } by {
                        if a < n {
                            assert(sets@[a] == old_sets[a] && ms[a] == old_ms[a]);
                        }
                    }
                    assert forall|a: int, m1: int, m2: int|
                        0 <= a < sets.len() && 0 <= m1 < m2 < ms[a].len() implies #[trigger] ms[a][m1]
                        < #[trigger] ms[a][m2] by {
                        assert(a < n);
                        assert(ms[a] == old_ms[a]);
                    }
                    assert forall|u: int| 0 <= u < t + 1 implies #[trigger] member(ms, u) by {
                        if u == t {
                            assert(ms[n][0] == u);
                        } else {
                            assert(member(old_ms, u));
                            let (a, m) = choose|a: int, m: int|
                                0 <= a < old_ms.len() && 0 <= m < old_ms[a].len() && #[trigger] old_ms[a][m] == u;
                            assert(ms[a][m] == u);
                        }
                    }
                    assert forall|a: int, b: int|
                        0 <= a < sets.len() && 0 <= b < sets.len() && a != b implies (#[trigger] sets@[a]).rots@
                        != (#[trigger] sets@[b]).rots@ by {
                        if a < n && b < n {
                            assert(sets@[a] == old_sets[a] && sets@[b] == old_sets[b]);
                        } else if a < n {
                            assert(sets@[a] == old_sets[a]);
                        } else {
                            assert(sets@[b] == old_sets[b]);
                        }
                    }
                    assert forall|a: int, b: int| 0 <= a < b < sets.len() implies #[trigger] ms[a][0]
                        < #[trigger] ms[b][0] by {
                        assert(ms[a] == old_ms[a]);
                        assert(old_ms[a][0] < t);
                        if b < n {
                            assert(ms[b] == old_ms[b]);
                        }
                    }
                }
            },
        }
        t += 1;
    }
    (sets, Ghost(ms))
}

/// The encoded data of the BDFG21 opening computation that a verifying artifact carries.
#[derive(Debug, PartialEq, Eq)]
pub struct PcsDataEncoded {
    pub point_computations: Vec<Word256>,
    pub vanishing_computations: Vec<Word256>,
    pub coeff_computations: Vec<Word256>,
    pub normalized_coeff_computations: Word256,
    pub r_evals_computations: Vec<Word256>,
    pub coeff_sums_computation: Vec<Word256>,
    pub r_eval_computations: Word256,
    pub pairing_input_computations: Vec<Word256>,
}

impl PcsDataEncoded {
    /// Number of words of the encoded data.
    pub open spec fn spec_len(&self) -> int {
        self.point_computations.len() + self.vanishing_computations.len()
            + self.coeff_computations.len() + 1 + self.r_evals_computations.len()
            + self.coeff_sums_computation.len() + 1 + self.pairing_input_computations.len()
    }

    /// Number of words of the encoded data: one per word of each part.
    pub fn len(&self) -> (n: usize)
        requires
            self.spec_len() <= usize::MAX,
        ensures
            n == self.spec_len(),
    {
        self.point_computations.len() + self.vanishing_computations.len()
            + self.coeff_computations.len() + 1 + self.r_evals_computations.len()
            + self.coeff_sums_computation.len() + 1 + self.pairing_input_computations.len()
    }
}

/// Whether commitment `c1` appears before `c2` in `order`.
pub open spec fn before(order: Seq<EcPoint>, c1: EcPoint, c2: EcPoint) -> bool {
    exists|u1: int, u2: int|
        0 <= u1 < u2 < order.len() && #[trigger] order[u1] == c1 && #[trigger] order[u2] == c2
}

/// Whether set `s` is well formed for the queries: its rotations increase; its differences
/// are the other opened rotations, increasing; each of its commitments is opened exactly at
/// its rotations, with the evaluations it lists.
pub open spec fn rotation_set_of(qs: Seq<Query>, s: RotationSet) -> bool {
    &&& strictly_sorted(s.rots@)
    &&& s.rots.len() > 0
    &&& strictly_sorted(s.diffs@)
    &&& forall|r: i32| s.diffs@.contains(r) <==> (opened_at(qs, r) && !s.rots@.contains(r))
    &&& s.comms.len() == s.evals.len()
    &&& s.comms.len() > 0
    &&& forall|m: int, r: i32|
        0 <= m < s.comms.len() ==> (s.rots@.contains(r) <==> #[trigger] opens(qs, s.comms@[m], r))
    &&& forall|m: int|
        0 <= m < s.comms.len() ==> (#[trigger] s.evals@[m]).len() == s.rots.len()
    &&& forall|m: int, x: int|
        0 <= m < s.comms.len() && 0 <= x < s.rots.len() ==> has_query(
            qs,
            s.comms@[m],
            s.rots@[x],
            #[trigger] s.evals@[m]@[x],
        )
}

/// Whether `sets` group the commitments of the queries by the rotations they are opened at:
/// every set is well formed, no two sets have the same rotations, every commitment lies in a
/// set, and commitments keep the order of their first appearance, within a set and across the
/// sets' first commitments.
pub open spec fn rotation_sets_of(qs: Seq<Query>, sets: Seq<RotationSet>) -> bool {
    let order = comm_order(qs);
    &&& forall|a: int| 0 <= a < sets.len() ==> rotation_set_of(qs, #[trigger] sets[a])
    &&& forall|a: int, b: int|
        0 <= a < sets.len() && 0 <= b < sets.len() && a != b ==> (#[trigger] sets[a]).rots@
            != (#[trigger] sets[b]).rots@
    &&& forall|j: int|
        0 <= j < qs.len() ==> exists|a: int, m: int|
            0 <= a < sets.len() && 0 <= m < sets[a].comms.len() && #[trigger] sets[a].comms@[m]
                == (#[trigger] qs[j]).comm
    &&& forall|a: int, m1: int, m2: int|
        0 <= a < sets.len() && 0 <= m1 < m2 < sets[a].comms.len() ==> before(
            order,
            #[trigger] sets[a].comms@[m1],
            #[trigger] sets[a].comms@[m2],
        )
    &&& forall|a: int, b: int|
        0 <= a < b < sets.len() ==> before(
            order,
            (#[trigger] sets[a]).comms@[0],
            (#[trigger] sets[b]).comms@[0],
        )
}

/// Groups the queries into rotation sets. Returns the rotations opened by any query,
/// increasing and each once, and the rotation sets: the commitments grouped by the set of
/// rotations at which they are opened, in order of first appearance.
pub fn rotation_sets(queries: &[Query]) -> (res: (Vec<i32>, Vec<RotationSet>))
    requires
        distinct_openings(queries@),
    ensures
        strictly_sorted(res.0@),
        forall|r: i32| res.0@.contains(r) <==> opened_at(queries@, r),
        rotation_sets_of(queries@, res.1@),
{
    let ghost qs = queries@;
    let (superset, cq) = group_by_comm(queries);
    let ghost order = comm_order(qs);
    proof {
        lemma_comm_order_distinct(qs);
        assert forall|k: int| 0 <= k < cq.len() implies (#[trigger] cq@[k]).rots.len() > 0 by {
            lemma_comm_order_member(qs, k);
            let j = choose|j: int| 0 <= j < qs.len() && qs[j].comm == order[k];
            assert(opens(qs, cq@[k].comm, qs[j].rot));
            assert(records(cq@[k], qs));
            assert(cq@[k].rots@.contains(qs[j].rot));
        }
    }
    let (sets, Ghost(ms)) = group_by_rots(&superset, &cq);
    assert(rotation_sets_of(qs, sets@)) by {
        assert forall|a: int| 0 <= a < sets.len() implies rotation_set_of(qs, #[trigger] sets@[a]) by {
            let s = sets@[a];
            let e0 = cq@[ms[a][0]];
            assert(records(e0, qs));
            assert forall|r: i32| s.diffs@.contains(r) <==> (opened_at(qs, r) && !s.rots@.contains(r)) by {
                assert(superset@.contains(r) <==> opened_at(qs, r));
            }
            assert forall|m: int, r: i32|
                0 <= m < s.comms.len() implies (s.rots@.contains(r) <==> #[trigger] opens(qs, s.comms@[m], r)) by {
                assert(records(cq@[ms[a][m]], qs));
            }
            assert forall|m: int| 0 <= m < s.comms.len() implies (#[trigger] s.evals@[m]).len() == s.rots.len() by {
                assert(records(cq@[ms[a][m]], qs));
            }
            assert forall|m: int, x: int|
                0 <= m < s.comms.len() && 0 <= x < s.rots.len() implies has_query(
                qs,
                s.comms@[m],
                s.rots@[x],
                #[trigger] s.evals@[m]@[x],
            ) by {
                let e = cq@[ms[a][m]];
                assert(records(e, qs));
                assert(has_query(qs, e.comm, e.rots@[x], e.evals@[x]));
            }
        }
        assert forall|j: int| 0 <= j < qs.len() implies exists|a: int, m: int|
            0 <= a < sets.len() && 0 <= m < sets@[a].comms.len() && #[trigger] sets@[a].comms@[m]
                == (#[trigger] qs[j]).comm by {
            lemma_comm_order_contains(qs, j);
            let u = choose|u: int| 0 <= u < order.len() && order[u] == qs[j].comm;
            assert(member(ms, u));
            let (a, m) = choose|a: int, m: int| 0 <= a < ms.len() && 0 <= m < ms[a].len() && #[trigger] ms[a][m] == u;
            assert(sets@[a].comms@[m] == cq@[u].comm);
        }
        assert forall|a: int, m1: int, m2: int|
            0 <= a < sets.len() && 0 <= m1 < m2 < sets@[a].comms.len() implies before(
            order,
            #[trigger] sets@[a].comms@[m1],
            #[trigger] sets@[a].comms@[m2],
        ) by {
            let u1 = ms[a][m1];
            let u2 = ms[a][m2];
            assert(u1 < u2);
            assert(order[u1] == sets@[a].comms@[m1] && order[u2] == sets@[a].comms@[m2]);
        }
        assert forall|a: int, b: int| 0 <= a < b < sets.len() implies before(
            order,
            (#[trigger] sets@[a]).comms@[0],
            (#[trigger] sets@[b]).comms@[0],
        ) by {
            let u1 = ms[a][0];
            let u2 = ms[b][0];
            assert(u1 < u2);
            assert(order[u1] == sets@[a].comms@[0] && order[u2] == sets@[b].comms@[0]);
        }
    }
    (superset, sets)
}

/// Each commitment of the order is that of some query.
proof fn lemma_comm_order_member(qs: Seq<Query>, k: int)
    requires
        0 <= k < comm_order(qs).len(),
    ensures
        exists|j: int| 0 <= j < qs.len() && qs[j].comm == comm_order(qs)[k],
    decreases qs.len(),
{
    let prev = comm_order(qs.drop_last());
    if k < prev.len() {
        lemma_comm_order_member(qs.drop_last(), k);
        let j = choose|j: int| 0 <= j < qs.drop_last().len() && qs.drop_last()[j].comm == prev[k];
        assert(qs[j] == qs.drop_last()[j]);
    } else {
        assert(qs[qs.len() - 1].comm == comm_order(qs)[k]);
    }
}

/// The commitment order holds each commitment once.
pub(crate) proof fn lemma_comm_order_distinct(qs: Seq<Query>)
    ensures
        forall|a: int, b: int|
            0 <= a < b < comm_order(qs).len() ==> comm_order(qs)[a] != comm_order(qs)[b],
    decreases qs.len(),
{
    if qs.len() > 0 {
        lemma_comm_order_distinct(qs.drop_last());
        let prev = comm_order(qs.drop_last());
        if !prev.contains(qs.last().comm) {
            assert forall|a: int, b: int|
                0 <= a < b < comm_order(qs).len() implies comm_order(qs)[a] != comm_order(qs)[b] by {
                if b == prev.len() {
                    assert(comm_order(qs)[a] == prev[a]);
                }
            }
        }
    }
}

/// A commitment of a query is in the commitment order.
proof fn lemma_comm_order_contains(qs: Seq<Query>, j: int)
    requires
        0 <= j < qs.len(),
    ensures
        comm_order(qs).contains(qs[j].comm),
    decreases qs.len(),
{
    let prev = comm_order(qs.drop_last());
    if j == qs.len() - 1 {
        if !prev.contains(qs.last().comm) {
            assert(comm_order(qs).last() == qs[j].comm);
        }
    } else {
        lemma_comm_order_contains(qs.drop_last(), j);
        assert(qs.drop_last()[j] == qs[j]);
        if !prev.contains(qs.last().comm) {
            let k = choose|k: int| 0 <= k < prev.len() && prev[k] == qs[j].comm;
            assert(comm_order(qs)[k] == qs[j].comm);
        }
    }
}

} // verus!
