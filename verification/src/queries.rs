use vstd::prelude::*;

use crate::location::{EcPoint, Ptr};
use crate::pcs::Query;

verus! {

/// What the opening queries read of the constraint system: the queried advice and fixed
/// columns with their rotations, the columns of the permutation argument, and the rotation of
/// the last usable row.
pub struct CircuitMeta {
    /// (column, rotation) of each advice query, in order.
    pub advice_queries: Vec<(usize, i32)>,
    /// (column, rotation) of each fixed query, in order.
    pub fixed_queries: Vec<(usize, i32)>,
    /// The columns of the permutation argument, in order.
    pub permutation_columns: Vec<usize>,
    /// Rotation of the last usable row.
    pub rotation_last: i32,
}

/// Where the commitments and evaluations the queries open lie: commitments per column, and
/// the evaluation of each query (advice and fixed evaluations in the order of the queries,
/// permutation evaluations per column).
pub struct DataLayout {
    pub advice_comms: Vec<EcPoint>,
    /// The evaluation of each advice query, in the order of the advice queries.
    pub advice_evals: Vec<Ptr>,
    pub fixed_comms: Vec<EcPoint>,
    /// The evaluation of each fixed query, in the order of the fixed queries.
    pub fixed_evals: Vec<Ptr>,
    /// The permutation commitment and evaluation of each column, by column.
    pub permutation_comms: Vec<EcPoint>,
    pub permutation_evals: Vec<Ptr>,
    /// The grand-product commitments of the permutation argument, with their evaluations at
    /// the current row, the next row and the last usable row.
    pub permutation_z_comms: Vec<EcPoint>,
    pub permutation_z_evals: Vec<(Ptr, Ptr, Ptr)>,
    /// The permuted input and table commitments of each lookup, its grand-product
    /// commitment, and its five evaluations (grand product now and next, permuted input now
    /// and previous, permuted table now).
    pub lookup_permuted_comms: Vec<(EcPoint, EcPoint)>,
    pub lookup_z_comms: Vec<EcPoint>,
    pub lookup_evals: Vec<(Ptr, Ptr, Ptr, Ptr, Ptr)>,
    pub computed_quotient_comm: EcPoint,
    pub computed_quotient_eval: Ptr,
    pub random_comm: EcPoint,
    pub random_eval: Ptr,
}

/// The smaller of two lengths.
pub open spec fn min_len(a: nat, b: nat) -> nat {
    if a <= b {
        a
    } else {
        b
    }
}

/// The queries of the advice columns, in order.
pub open spec fn advice_queries_of(meta: CircuitMeta, data: DataLayout) -> Seq<Query> {
    Seq::new(
        meta.advice_queries@.len(),
        |i: int|
            Query {
                comm: data.advice_comms@[meta.advice_queries@[i].0 as int],
                rot: meta.advice_queries@[i].1,
                eval: data.advice_evals@[i],
            },
    )
}

/// The number of grand products of the permutation argument that have both a commitment and
/// evaluations.
pub open spec fn num_z(data: DataLayout) -> nat {
    min_len(data.permutation_z_comms@.len(), data.permutation_z_evals@.len())
}

/// Each grand product opened at the current and the next row.
pub open spec fn permutation_z_queries(data: DataLayout) -> Seq<Query> {
    Seq::new(
        2 * num_z(data),
        |t: int|
            if t % 2 == 0 {
                Query { comm: data.permutation_z_comms@[t / 2], rot: 0, eval: data.permutation_z_evals@[t / 2].0 }
            } else {
                Query { comm: data.permutation_z_comms@[t / 2], rot: 1, eval: data.permutation_z_evals@[t / 2].1 }
            },
    )
}

/// Every grand product but the last, last first, opened at the last usable row.
pub open spec fn permutation_last_queries(meta: CircuitMeta, data: DataLayout) -> Seq<Query> {
    let m = num_z(data) as int;
    Seq::new(
        if m > 0 {
            (m - 1) as nat
        } else {
            0
        },
        |t: int|
            Query {
                comm: data.permutation_z_comms@[m - 2 - t],
                rot: meta.rotation_last,
                eval: data.permutation_z_evals@[m - 2 - t].2,
            },
    )
}

/// The number of lookups that have all their commitments and evaluations.
pub open spec fn num_lookups(data: DataLayout) -> nat {
    min_len(min_len(data.lookup_permuted_comms@.len(), data.lookup_z_comms@.len()), data.lookup_evals@.len())
}

/// Each lookup's five queries: its grand product now, its permuted input and table now, its
/// permuted input at the previous row, and its grand product at the next row.
pub open spec fn lookup_queries(data: DataLayout) -> Seq<Query> {
    Seq::new(
        5 * num_lookups(data),
        |t: int|
            {
                let j = t / 5;
                let z = data.lookup_z_comms@[j];
                let p = data.lookup_permuted_comms@[j];
                let e = data.lookup_evals@[j];
                if t % 5 == 0 {
                    Query { comm: z, rot: 0, eval: e.0 }
                } else if t % 5 == 1 {
                    Query { comm: p.0, rot: 0, eval: e.2 }
                } else if t % 5 == 2 {
                    Query { comm: p.1, rot: 0, eval: e.4 }
                } else if t % 5 == 3 {
                    Query { comm: p.0, rot: -1i32, eval: e.3 }
                } else {
                    Query { comm: z, rot: 1, eval: e.1 }
                }
            },
    )
}

/// The queries of the fixed columns, in order.
pub open spec fn fixed_queries_of(meta: CircuitMeta, data: DataLayout) -> Seq<Query> {
    Seq::new(
        meta.fixed_queries@.len(),
        |i: int|
            Query {
                comm: data.fixed_comms@[meta.fixed_queries@[i].0 as int],
                rot: meta.fixed_queries@[i].1,
                eval: data.fixed_evals@[i],
            },
    )
}

/// The permutation commitments of the columns, opened at the current row.
pub open spec fn permutation_queries(meta: CircuitMeta, data: DataLayout) -> Seq<Query> {
    Seq::new(
        meta.permutation_columns@.len(),
        |i: int|
            Query {
                comm: data.permutation_comms@[meta.permutation_columns@[i] as int],
                rot: 0,
                eval: data.permutation_evals@[meta.permutation_columns@[i] as int],
            },
    )
}

/// All the opening queries, in order: advice, permutation grand products (current and next
/// row, then the last usable row), lookups, fixed, permutation columns, then the computed
/// quotient and the random commitment.
pub open spec fn spec_queries(meta: CircuitMeta, data: DataLayout) -> Seq<Query> {
    advice_queries_of(meta, data) + permutation_z_queries(data) + permutation_last_queries(meta, data)
        + lookup_queries(data) + fixed_queries_of(meta, data) + permutation_queries(meta, data)
        + seq![
        Query { comm: data.computed_quotient_comm, rot: 0, eval: data.computed_quotient_eval },
        Query { comm: data.random_comm, rot: 0, eval: data.random_eval },
    ]
}

/// Whether every column the queries name has its commitment and evaluation.
pub open spec fn queries_readable(meta: CircuitMeta, data: DataLayout) -> bool {
    &&& data.advice_evals@.len() >= meta.advice_queries@.len()
    &&& forall|i: int|
        0 <= i < meta.advice_queries@.len() ==> (#[trigger] meta.advice_queries@[i]).0 < data.advice_comms@.len()
    &&& data.fixed_evals@.len() >= meta.fixed_queries@.len()
    &&& forall|i: int|
        0 <= i < meta.fixed_queries@.len() ==> (#[trigger] meta.fixed_queries@[i]).0 < data.fixed_comms@.len()
    &&& forall|i: int|
        0 <= i < meta.permutation_columns@.len() ==> (#[trigger] meta.permutation_columns@[i])
            < data.permutation_comms@.len() && meta.permutation_columns@[i] < data.permutation_evals@.len()
}

/// The smaller of two lengths.
fn min_usize(a: usize, b: usize) -> (m: usize)
    ensures
        m == min_len(a as nat, b as nat),
{
    if a <= b {
        a
    } else {
        b
    }
}

/// Appends `b` to `a`.
fn append_queries(a: &mut Vec<Query>, b: Vec<Query>)
    ensures
        final(a)@ == old(a)@ + b@,
{
    let mut b = b;
    a.append(&mut b);
}

fn advice_part(meta: &CircuitMeta, data: &DataLayout) -> (qs: Vec<Query>)
    requires
        queries_readable(*meta, *data),
    ensures
        qs@ == advice_queries_of(*meta, *data),
{
    let mut qs: Vec<Query> = Vec::new();
    let mut i: usize = 0;
    while i < meta.advice_queries.len()
        invariant
            queries_readable(*meta, *data),
            i <= meta.advice_queries.len(),
            qs@ == advice_queries_of(*meta, *data).take(i as int),
        decreases meta.advice_queries.len() - i,
    {
        let (column, rot) = meta.advice_queries[i];
        assert(meta.advice_queries@[i as int].0 < data.advice_comms@.len());
        qs.push(Query { comm: data.advice_comms[column], rot, eval: data.advice_evals[i] });
        i += 1;
        assert(qs@ =~= advice_queries_of(*meta, *data).take(i as int));
    }
    assert(advice_queries_of(*meta, *data).take(i as int) =~= advice_queries_of(*meta, *data));
    qs
}

fn permutation_z_part(data: &DataLayout) -> (qs: Vec<Query>)
    ensures
        qs@ == permutation_z_queries(*data),
{
    let m = min_usize(data.permutation_z_comms.len(), data.permutation_z_evals.len());
    let mut qs: Vec<Query> = Vec::new();
    let mut j: usize = 0;
    while j < m
        invariant
            m == num_z(*data),
            j <= m,
            qs@ == permutation_z_queries(*data).take(2 * j),
        decreases m - j,
    {
        let comm = data.permutation_z_comms[j];
        let evals = data.permutation_z_evals[j];
        qs.push(Query { comm, rot: 0, eval: evals.0 });
        qs.push(Query { comm, rot: 1, eval: evals.1 });
        j += 1;
        assert(qs@ =~= permutation_z_queries(*data).take(2 * j)) by {
            assert((2 * j - 2) / 2 == j - 1);
            assert((2 * j - 1) / 2 == j - 1);
        }
    }
    assert(permutation_z_queries(*data).take(2 * m) =~= permutation_z_queries(*data));
    qs
}

fn permutation_last_part(meta: &CircuitMeta, data: &DataLayout) -> (qs: Vec<Query>)
    ensures
        qs@ == permutation_last_queries(*meta, *data),
{
    let m = min_usize(data.permutation_z_comms.len(), data.permutation_z_evals.len());
    let n: usize = if m > 0 {
        m - 1
    } else {
        0
    };
    let mut qs: Vec<Query> = Vec::new();
    let mut t: usize = 0;
    while t < n
        invariant
            m == num_z(*data),
            n == if m > 0 {
                m - 1
            } else {
                0
            },
            t <= n,
            qs@ == permutation_last_queries(*meta, *data).take(t as int),
        decreases n - t,
    {
        let j = m - 2 - t;
        qs.push(Query { comm: data.permutation_z_comms[j], rot: meta.rotation_last, eval: data.permutation_z_evals[j].2 });
        t += 1;
        assert(qs@ =~= permutation_last_queries(*meta, *data).take(t as int));
    }
    assert(permutation_last_queries(*meta, *data).take(n as int) =~= permutation_last_queries(*meta, *data));
    qs
}

fn lookup_part(data: &DataLayout) -> (qs: Vec<Query>)
    ensures
        qs@ == lookup_queries(*data),
{
    let l = min_usize(
        min_usize(data.lookup_permuted_comms.len(), data.lookup_z_comms.len()),
        data.lookup_evals.len(),
    );
    let mut qs: Vec<Query> = Vec::new();
    let mut j: usize = 0;
    while j < l
        invariant
            l == num_lookups(*data),
            j <= l,
            qs@ == lookup_queries(*data).take(5 * j),
        decreases l - j,
    {
        let z = data.lookup_z_comms[j];
        let p = data.lookup_permuted_comms[j];
        let e = data.lookup_evals[j];
        qs.push(Query { comm: z, rot: 0, eval: e.0 });
        qs.push(Query { comm: p.0, rot: 0, eval: e.2 });
        qs.push(Query { comm: p.1, rot: 0, eval: e.4 });
        qs.push(Query { comm: p.0, rot: -1, eval: e.3 });
        qs.push(Query { comm: z, rot: 1, eval: e.1 });
        j += 1;
        assert(qs@ =~= lookup_queries(*data).take(5 * j)) by {
            let b = 5 * (j - 1);
            assert(b / 5 == j - 1 && b % 5 == 0);
            assert((b + 1) / 5 == j - 1 && (b + 1) % 5 == 1);
            assert((b + 2) / 5 == j - 1 && (b + 2) % 5 == 2);
            assert((b + 3) / 5 == j - 1 && (b + 3) % 5 == 3);
            assert((b + 4) / 5 == j - 1 && (b + 4) % 5 == 4);
        }
    }
    assert(lookup_queries(*data).take(5 * l) =~= lookup_queries(*data));
    qs
}

fn fixed_part(meta: &CircuitMeta, data: &DataLayout) -> (qs: Vec<Query>)
    requires
        queries_readable(*meta, *data),
    ensures
        qs@ == fixed_queries_of(*meta, *data),
{
    let mut qs: Vec<Query> = Vec::new();
    let mut i: usize = 0;
    while i < meta.fixed_queries.len()
        invariant
            queries_readable(*meta, *data),
            i <= meta.fixed_queries.len(),
            qs@ == fixed_queries_of(*meta, *data).take(i as int),
        decreases meta.fixed_queries.len() - i,
    {
        let (column, rot) = meta.fixed_queries[i];
        assert(meta.fixed_queries@[i as int].0 < data.fixed_comms@.len());
        qs.push(Query { comm: data.fixed_comms[column], rot, eval: data.fixed_evals[i] });
        i += 1;
        assert(qs@ =~= fixed_queries_of(*meta, *data).take(i as int));
    }
    assert(fixed_queries_of(*meta, *data).take(i as int) =~= fixed_queries_of(*meta, *data));
    qs
}

fn permutation_part(meta: &CircuitMeta, data: &DataLayout) -> (qs: Vec<Query>)
    requires
        queries_readable(*meta, *data),
    ensures
        qs@ == permutation_queries(*meta, *data),
{
    let mut qs: Vec<Query> = Vec::new();
    let mut i: usize = 0;
    while i < meta.permutation_columns.len()
        invariant
            queries_readable(*meta, *data),
            i <= meta.permutation_columns.len(),
            qs@ == permutation_queries(*meta, *data).take(i as int),
        decreases meta.permutation_columns.len() - i,
    {
        let column = meta.permutation_columns[i];
        assert(meta.permutation_columns@[i as int] < data.permutation_comms@.len());
        qs.push(Query { comm: data.permutation_comms[column], rot: 0, eval: data.permutation_evals[column] });
        i += 1;
        assert(qs@ =~= permutation_queries(*meta, *data).take(i as int));
    }
    assert(permutation_queries(*meta, *data).take(i as int) =~= permutation_queries(*meta, *data));
    qs
}

/// The opening queries of a proof, in order: advice, permutation grand products (current and
/// next row, then every one but the last at the last usable row, last first), lookups, fixed,
/// permutation columns, then the computed quotient and the random commitment.
pub fn queries(meta: &CircuitMeta, data: &DataLayout) -> (qs: Vec<Query>)
    requires
        queries_readable(*meta, *data),
    ensures
        qs@ == spec_queries(*meta, *data),
{
    let mut qs = advice_part(meta, data);
    append_queries(&mut qs, permutation_z_part(data));
    append_queries(&mut qs, permutation_last_part(meta, data));
    append_queries(&mut qs, lookup_part(data));
    append_queries(&mut qs, fixed_part(meta, data));
    append_queries(&mut qs, permutation_part(meta, data));
    qs.push(Query { comm: data.computed_quotient_comm, rot: 0, eval: data.computed_quotient_eval });
    qs.push(Query { comm: data.random_comm, rot: 0, eval: data.random_eval });
    assert(qs@ =~= spec_queries(*meta, *data));
    qs
}

/// The lookups of the multiplicity-based lookup argument: each lookup's multiplicity and
/// grand-sum commitments and its three evaluations (grand sum now and next, multiplicity now).
pub struct MvLookupLayout {
    pub m_comms: Vec<EcPoint>,
    pub phi_comms: Vec<EcPoint>,
    pub evals: Vec<(Ptr, Ptr, Ptr)>,
}

/// The number of multiplicity-based lookups that have all their commitments and evaluations.
pub open spec fn num_mv_lookups(l: MvLookupLayout) -> nat {
    min_len(min_len(l.m_comms@.len(), l.phi_comms@.len()), l.evals@.len())
}

/// Each multiplicity-based lookup's three queries: its grand sum now and at the next row, and
/// its multiplicities now.
pub open spec fn mv_lookup_queries(l: MvLookupLayout) -> Seq<Query> {
    Seq::new(
        3 * num_mv_lookups(l),
        |t: int|
            {
                let j = t / 3;
                let e = l.evals@[j];
                if t % 3 == 0 {
                    Query { comm: l.phi_comms@[j], rot: 0, eval: e.0 }
                } else if t % 3 == 1 {
                    Query { comm: l.phi_comms@[j], rot: 1, eval: e.1 }
                } else {
                    Query { comm: l.m_comms@[j], rot: 0, eval: e.2 }
                }
            },
    )
}

/// All the opening queries of a circuit with multiplicity-based lookups, in the order of
/// `spec_queries` with those lookups' queries in place of the permuted-lookup ones.
pub open spec fn spec_queries_mv_lookup(meta: CircuitMeta, data: DataLayout, l: MvLookupLayout) -> Seq<Query> {
    advice_queries_of(meta, data) + permutation_z_queries(data) + permutation_last_queries(meta, data)
        + mv_lookup_queries(l) + fixed_queries_of(meta, data) + permutation_queries(meta, data)
        + seq![
        Query { comm: data.computed_quotient_comm, rot: 0, eval: data.computed_quotient_eval },
        Query { comm: data.random_comm, rot: 0, eval: data.random_eval },
    ]
}

fn mv_lookup_part(l: &MvLookupLayout) -> (qs: Vec<Query>)
    ensures
        qs@ == mv_lookup_queries(*l),
{
    let n = min_usize(min_usize(l.m_comms.len(), l.phi_comms.len()), l.evals.len());
    let mut qs: Vec<Query> = Vec::new();
    let mut j: usize = 0;
    while j < n
        invariant
            n == num_mv_lookups(*l),
            j <= n,
            qs@ == mv_lookup_queries(*l).take(3 * j),
        decreases n - j,
    {
        let e = l.evals[j];
        qs.push(Query { comm: l.phi_comms[j], rot: 0, eval: e.0 });
        qs.push(Query { comm: l.phi_comms[j], rot: 1, eval: e.1 });
        qs.push(Query { comm: l.m_comms[j], rot: 0, eval: e.2 });
        j += 1;
        assert(qs@ =~= mv_lookup_queries(*l).take(3 * j)) by {
            let b = 3 * (j - 1);
            assert(b / 3 == j - 1 && b % 3 == 0);
            assert((b + 1) / 3 == j - 1 && (b + 1) % 3 == 1);
            assert((b + 2) / 3 == j - 1 && (b + 2) % 3 == 2);
        }
    }
    assert(mv_lookup_queries(*l).take(3 * n) =~= mv_lookup_queries(*l));
    qs
}

/// The opening queries of a circuit with multiplicity-based lookups, in order: advice,
/// permutation grand products, lookups (grand sum now and next, multiplicities), fixed,
/// permutation columns, then the computed quotient and the random commitment.
pub fn queries_mv_lookup(meta: &CircuitMeta, data: &DataLayout, lookups: &MvLookupLayout) -> (qs: Vec<Query>)
    requires
        queries_readable(*meta, *data),
    ensures
        qs@ == spec_queries_mv_lookup(*meta, *data, *lookups),
{
    let mut qs = advice_part(meta, data);
    append_queries(&mut qs, permutation_z_part(data));
    append_queries(&mut qs, permutation_last_part(meta, data));
    append_queries(&mut qs, mv_lookup_part(lookups));
    append_queries(&mut qs, fixed_part(meta, data));
    append_queries(&mut qs, permutation_part(meta, data));
    qs.push(Query { comm: data.computed_quotient_comm, rot: 0, eval: data.computed_quotient_eval });
    qs.push(Query { comm: data.random_comm, rot: 0, eval: data.random_eval });
    assert(qs@ =~= spec_queries_mv_lookup(*meta, *data, *lookups));
    qs
}

} // verus!
