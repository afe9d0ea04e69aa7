use vstd::prelude::*;

use crate::bdfg21::{
    groups_queries,
    coeff_ptr, diff_ptr, find_rot, free_slot, free_slot_of, layout_fits, mu_ptr, point_ptr,
    r_eval_ptr, rot_index, sets_within, sum_ptr, vanishing_ptr,
};
use crate::evals::{eval_groups, eval_groups_of, first_evals_rev, first_evals_rev_of, lemma_long_eval_run_bounds};
use crate::generator::{lemma_num_coeffs_prefix, num_coeffs};
use crate::location::{EcPoint, Location, Ptr, Value};
use crate::pairing::{comm_groups, comm_groups_of, comm_groups_view, lemma_long_comm_run_bounds};
use crate::pcs::{
    distinct_openings, opened_at, opens, rotation_set_of, rotation_sets, strictly_sorted, Query, RotationSet,
};
use crate::yul::{
    append_lines, flat, groups_view, lemma_run_lines_append, lemma_run_lines_fixed, lemma_run_lines_one, push_group, run_lines, lemma_flat_step, lines_view, mem, push_for, push_plain, statements_view,
    txt, Line, LineView, Piece,
};

verus! {

/// The memory slot at byte `a`.
fn mem_ptr(a: usize) -> (p: Ptr)
    ensures
        p == mem(a as int),
{
    Ptr { loc: Location::Memory, value: Value::Integer(a) }
}

/// A statement of literal text alone.
fn text_line(out: &mut Vec<Line>, s: &'static str)
    ensures
        lines_view(final(out)@) == lines_view(old(out)@).push(txt(s)),
{
    let p = vec![Piece::Text(s)];
    assert(p@ =~= seq![Piece::Text(s)]);
    push_plain(out, p);
}

/// `mstore(a, v)` with `v` literal text.
pub open spec fn mstore_text(a: Ptr, v: &'static str) -> LineView {
    LineView::Plain(seq![Piece::Text("mstore("), Piece::Addr(a), Piece::Text(v)])
}

/// Appends `mstore(a` then `v`.
fn push_mstore_text(out: &mut Vec<Line>, a: Ptr, v: &'static str)
    ensures
        lines_view(final(out)@) == lines_view(old(out)@).push(mstore_text(a, v)),
{
    let p = vec![Piece::Text("mstore("), Piece::Addr(a), Piece::Text(v)];
    assert(p@ =~= seq![Piece::Text("mstore("), Piece::Addr(a), Piece::Text(v)]);
    push_plain(out, p);
}

/// `pre` then the value at `a` then `post`.
pub open spec fn load_line(pre: &'static str, a: Ptr, post: &'static str) -> LineView {
    LineView::Plain(seq![Piece::Text(pre), Piece::Load(a), Piece::Text(post)])
}

/// Appends `pre`, the value at `a`, `post`.
fn push_load_line(out: &mut Vec<Line>, pre: &'static str, a: Ptr, post: &'static str)
    ensures
        lines_view(final(out)@) == lines_view(old(out)@).push(load_line(pre, a, post)),
{
    let p = vec![Piece::Text(pre), Piece::Load(a), Piece::Text(post)];
    assert(p@ =~= seq![Piece::Text(pre), Piece::Load(a), Piece::Text(post)]);
    push_plain(out, p);
}

/// `pre` then the address `a` then `post`.
pub open spec fn addr_line(pre: &'static str, a: Ptr, post: &'static str) -> LineView {
    LineView::Plain(seq![Piece::Text(pre), Piece::Addr(a), Piece::Text(post)])
}

/// The statement `pre`, the address `a`, `post`.
fn addr_stmt(pre: &'static str, a: Ptr, post: &'static str) -> (p: Vec<Piece>)
    ensures
        p@ == seq![Piece::Text(pre), Piece::Addr(a), Piece::Text(post)],
{
    let p = vec![Piece::Text(pre), Piece::Addr(a), Piece::Text(post)];
    assert(p@ =~= seq![Piece::Text(pre), Piece::Addr(a), Piece::Text(post)]);
    p
}

/// The statement of literal text `s`.
fn text_stmt(s: &'static str) -> (p: Vec<Piece>)
    ensures
        p@ == seq![Piece::Text(s)],
{
    let p = vec![Piece::Text(s)];
    assert(p@ =~= seq![Piece::Text(s)]);
    p
}

/// Whether the rotations and sets suit the opening computation's lines: an increasing
/// superset holding 0, two sets or more, each with a rotation, all their rotations and
/// differences in the superset, and the layout within a machine word.
pub open spec fn static_layout_ok(superset: Seq<i32>, sets: Seq<RotationSet>) -> bool {
    &&& strictly_sorted(superset)
    &&& superset.contains(0)
    &&& sets.len() >= 2
    &&& forall|s: int| 0 <= s < sets.len() ==> (#[trigger] sets[s]).rots@.len() > 0
    &&& sets_within(superset, sets)
    &&& layout_fits(superset.len() as int, sets)
}

/// The point of rotation `r`, as its memory slot.
pub open spec fn point_slot(superset: Seq<i32>, sets: Seq<RotationSet>, r: i32) -> Ptr {
    mem(point_ptr(sets, rot_index(superset, r)))
}

/// `mu` minus the point of rotation `r`, as its memory slot.
pub open spec fn mu_slot(superset: Seq<i32>, sets: Seq<RotationSet>, r: i32) -> Ptr {
    mem(mu_ptr(superset.len() as int, sets, rot_index(superset, r)))
}

// ---------------------------------------------------------------------------------------
// The points.

/// The lines for rotation `r` on the positive side (`up`) or the negative side: store the
/// running power where a query opens at `r`, then step it, except at the last rotation.
pub open spec fn point_step(superset: Seq<i32>, sets: Seq<RotationSet>, r: int, last: int, up: bool) -> Seq<LineView> {
    (if superset.contains(r as i32) {
        seq![mstore_text(point_slot(superset, sets, r as i32), ", x_pow_of_omega)")]
    } else {
        Seq::empty()
    }) + (if r != last {
        if up {
            seq![txt("x_pow_of_omega := mulmod(x_pow_of_omega, omega, R)")]
        } else {
            seq![txt("x_pow_of_omega := mulmod(x_pow_of_omega, omega_inv, R)")]
        }
    } else {
        Seq::empty()
    })
}

/// The lines that compute the points `x * omega^r` of the opened rotations.
pub open spec fn point_lines(superset: Seq<i32>, sets: Seq<RotationSet>) -> Seq<LineView> {
    let hi = superset.last() as int;
    let lo = superset[0] as int;
    seq![
        txt("let x := mload(X_MPTR)"),
        txt("let omega := mload(OMEGA_MPTR)"),
        txt("let omega_inv := mload(OMEGA_INV_MPTR)"),
        txt("let x_pow_of_omega := mulmod(x, omega, R)"),
    ] + flat(
        Seq::new(
            if hi > 0 {
                hi as nat
            } else {
                0
            },
            |j: int| point_step(superset, sets, j + 1, hi, true),
        ),
    ) + seq![
        mstore_text(point_slot(superset, sets, 0), ", x)"),
        txt("x_pow_of_omega := mulmod(x, omega_inv, R)"),
    ] + flat(
        Seq::new(
            if lo < 0 {
                (-lo) as nat
            } else {
                0
            },
            |j: int| point_step(superset, sets, -1 - j, lo, false),
        ),
    )
}

/// The lines for rotation `r` of the point computation.
fn point_step_lines(
    superset: &Vec<i32>,
    f: usize,
    r: i32,
    last: i32,
    up: bool,
    Ghost(sets): Ghost<Seq<RotationSet>>,
) -> (out: Vec<Line>)
    requires
        strictly_sorted(superset@),
        f == free_slot(sets),
        0x20 * (f + superset.len()) <= usize::MAX,
    ensures
        lines_view(out@) == point_step(superset@, sets, r as int, last as int, up),
{
    let mut out: Vec<Line> = Vec::new();
    match find_rot(superset, r) {
        Some(k) => {
            push_mstore_text(&mut out, mem_ptr(0x20 * (f + k)), ", x_pow_of_omega)");
        },
        None => {},
    }
    let ghost a = lines_view(out@);
    if r != last {
        if up {
            text_line(&mut out, "x_pow_of_omega := mulmod(x_pow_of_omega, omega, R)");
        } else {
            text_line(&mut out, "x_pow_of_omega := mulmod(x_pow_of_omega, omega_inv, R)");
        }
    }
    assert(lines_view(out@) =~= point_step(superset@, sets, r as int, last as int, up));
    out
}

/// The point computation's lines.
fn point_computation_lines(superset: &Vec<i32>, sets: &Vec<RotationSet>) -> (out: Vec<Line>)
    requires
        static_layout_ok(superset@, sets@),
    ensures
        lines_view(out@) == point_lines(superset@, sets@),
{
    let ghost ss = sets@;
    let f = free_slot_of(superset, sets);
    let n = superset.len();
    let hi = superset[n - 1];
    let lo = superset[0];
    let mut out: Vec<Line> = Vec::new();
    text_line(&mut out, "let x := mload(X_MPTR)");
    text_line(&mut out, "let omega := mload(OMEGA_MPTR)");
    text_line(&mut out, "let omega_inv := mload(OMEGA_INV_MPTR)");
    text_line(&mut out, "let x_pow_of_omega := mulmod(x, omega, R)");
    let ghost head = lines_view(out@);
    let ghost ups = Seq::new(
        if hi > 0 {
            hi as nat
        } else {
            0
        },
        |j: int| point_step(superset@, ss, j + 1, hi as int, true),
    );
    let top: i64 = hi as i64;
    let mut r: i64 = 1;
    while r <= top
        invariant
            top == hi,
            1 <= r,
            hi >= 1 ==> r <= hi + 1,
            hi < 1 ==> r == 1,
            strictly_sorted(superset@),
            f == free_slot(ss),
            0x20 * (f + superset.len()) <= usize::MAX,
            ups == Seq::new(
                if hi > 0 {
                    hi as nat
                } else {
                    0
                },
                |j: int| point_step(superset@, ss, j + 1, hi as int, true),
            ),
            lines_view(out@) == head + flat(ups.take(r - 1)),
        decreases top + 1 - r,
    {
        proof {
            lemma_flat_step(ups, r - 1);
        }
        let step = point_step_lines(superset, f, r as i32, hi, true, Ghost(ss));
        append_lines(&mut out, step);
        assert(ups[r - 1] == point_step(superset@, ss, r as int, hi as int, true));
        r += 1;
    }
    assert(ups.take(ups.len() as int) =~= ups);
    assert(ups.take(r - 1) =~= ups);
    let k0 = match find_rot(superset, 0) {
        Some(k) => k,
        None => 0,
    };
    push_mstore_text(&mut out, mem_ptr(0x20 * (f + k0)), ", x)");
    text_line(&mut out, "x_pow_of_omega := mulmod(x, omega_inv, R)");
    let ghost mid = lines_view(out@);
    let ghost downs = Seq::new(
        if lo < 0 {
            (-lo) as nat
        } else {
            0
        },
        |j: int| point_step(superset@, ss, -1 - j, lo as int, false),
    );
    let bound: i64 = -(lo as i64);
    let mut j: i64 = 0;
    while j < bound
        invariant
            0 <= j,
            lo < 0 ==> j <= -lo,
            lo >= 0 ==> j == 0,
            bound == -lo,
            strictly_sorted(superset@),
            f == free_slot(ss),
            0x20 * (f + superset.len()) <= usize::MAX,
            downs == Seq::new(
                if lo < 0 {
                    (-lo) as nat
                } else {
                    0
                },
                |j: int| point_step(superset@, ss, -1 - j, lo as int, false),
            ),
            lines_view(out@) == mid + flat(downs.take(j as int)),
        decreases bound - j,
    {
        proof {
            lemma_flat_step(downs, j as int);
        }
        let step = point_step_lines(superset, f, (-1 - j) as i32, lo, false, Ghost(ss));
        append_lines(&mut out, step);
        j += 1;
    }
    assert(downs.take(j as int) =~= downs);
    assert(lines_view(out@) =~= point_lines(superset@, ss));
    out
}

/// The index of rotation `r` in the superset, where it is there.
fn index_of(superset: &Vec<i32>, r: i32) -> (k: usize)
    requires
        strictly_sorted(superset@),
        superset@.contains(r),
    ensures
        k == rot_index(superset@, r),
        k < superset.len(),
{
    match find_rot(superset, r) {
        Some(k) => k,
        None => 0,
    }
}

/// What a line of the point computation does to the running power `x_pow_of_omega`, kept as
/// the exponent `e` of `x * omega^e`: its definition sets `e` to 1, a step by `omega` adds 1,
/// a step by `omega_inv` takes 1 away, restarting from `x * omega_inv` sets it to -1;
/// `mstore(a, x_pow_of_omega)` stores `x * omega^e` at `a`, and `mstore(a, x)` stores `x`. The
/// state is `e` and the exponent of the value stored at each address.
pub open spec fn power_step(st: (int, Map<Ptr, int>), l: LineView) -> (int, Map<Ptr, int>) {
    match l {
        LineView::Plain(p) => {
            if p.len() == 1 && p[0] == Piece::Text("let x_pow_of_omega := mulmod(x, omega, R)") {
                (1, st.1)
            } else if p.len() == 1 && p[0] == Piece::Text("x_pow_of_omega := mulmod(x_pow_of_omega, omega, R)") {
                (st.0 + 1, st.1)
            } else if p.len() == 1 && p[0] == Piece::Text(
                "x_pow_of_omega := mulmod(x_pow_of_omega, omega_inv, R)",
            ) {
                (st.0 - 1, st.1)
            } else if p.len() == 1 && p[0] == Piece::Text("x_pow_of_omega := mulmod(x, omega_inv, R)") {
                (-1, st.1)
            } else if p.len() == 3 && p[0] == Piece::Text("mstore(") && addressed(p[1]).is_some() && p[2]
                == Piece::Text(", x_pow_of_omega)") {
                (st.0, st.1.insert(addressed(p[1]).unwrap(), st.0))
            } else if p.len() == 3 && p[0] == Piece::Text("mstore(") && addressed(p[1]).is_some() && p[2]
                == Piece::Text(", x)") {
                (st.0, st.1.insert(addressed(p[1]).unwrap(), 0))
            } else {
                st
            }
        },
        LineView::ForLoop(_, _, _, _) => st,
    }
}

/// The step of the point computation, as a function.
pub open spec fn power_stepper() -> spec_fn((int, Map<Ptr, int>), LineView) -> (int, Map<Ptr, int>) {
    |st: (int, Map<Ptr, int>), l: LineView| power_step(st, l)
}

/// The texts of the point computation differ from one another.
proof fn lemma_point_texts_differ()
    ensures
        "let x := mload(X_MPTR)"@ != "let x_pow_of_omega := mulmod(x, omega, R)"@,
        "let omega := mload(OMEGA_MPTR)"@ != "let x_pow_of_omega := mulmod(x, omega, R)"@,
        "let omega_inv := mload(OMEGA_INV_MPTR)"@ != "let x_pow_of_omega := mulmod(x, omega, R)"@,
        "let x := mload(X_MPTR)"@ != "x_pow_of_omega := mulmod(x_pow_of_omega, omega, R)"@,
        "let omega := mload(OMEGA_MPTR)"@ != "x_pow_of_omega := mulmod(x_pow_of_omega, omega, R)"@,
        "let omega_inv := mload(OMEGA_INV_MPTR)"@ != "x_pow_of_omega := mulmod(x_pow_of_omega, omega, R)"@,
        "let x := mload(X_MPTR)"@ != "x_pow_of_omega := mulmod(x_pow_of_omega, omega_inv, R)"@,
        "let omega := mload(OMEGA_MPTR)"@ != "x_pow_of_omega := mulmod(x_pow_of_omega, omega_inv, R)"@,
        "let omega_inv := mload(OMEGA_INV_MPTR)"@ != "x_pow_of_omega := mulmod(x_pow_of_omega, omega_inv, R)"@,
        "let x := mload(X_MPTR)"@ != "x_pow_of_omega := mulmod(x, omega_inv, R)"@,
        "let omega := mload(OMEGA_MPTR)"@ != "x_pow_of_omega := mulmod(x, omega_inv, R)"@,
        "let omega_inv := mload(OMEGA_INV_MPTR)"@ != "x_pow_of_omega := mulmod(x, omega_inv, R)"@,
        "x_pow_of_omega := mulmod(x_pow_of_omega, omega, R)"@ != "let x_pow_of_omega := mulmod(x, omega, R)"@,
        "x_pow_of_omega := mulmod(x_pow_of_omega, omega_inv, R)"@ != "let x_pow_of_omega := mulmod(x, omega, R)"@,
        "x_pow_of_omega := mulmod(x_pow_of_omega, omega_inv, R)"@ != "x_pow_of_omega := mulmod(x_pow_of_omega, omega, R)"@,
        "x_pow_of_omega := mulmod(x, omega_inv, R)"@ != "let x_pow_of_omega := mulmod(x, omega, R)"@,
        "x_pow_of_omega := mulmod(x, omega_inv, R)"@ != "x_pow_of_omega := mulmod(x_pow_of_omega, omega, R)"@,
        "x_pow_of_omega := mulmod(x, omega_inv, R)"@ != "x_pow_of_omega := mulmod(x_pow_of_omega, omega_inv, R)"@,
        ", x)"@ != ", x_pow_of_omega)"@,
{
    reveal_strlit("let x := mload(X_MPTR)");
    reveal_strlit("let omega := mload(OMEGA_MPTR)");
    reveal_strlit("let omega_inv := mload(OMEGA_INV_MPTR)");
    reveal_strlit("let x_pow_of_omega := mulmod(x, omega, R)");
    reveal_strlit("x_pow_of_omega := mulmod(x_pow_of_omega, omega, R)");
    reveal_strlit("x_pow_of_omega := mulmod(x_pow_of_omega, omega_inv, R)");
    reveal_strlit("x_pow_of_omega := mulmod(x, omega_inv, R)");
    reveal_strlit(", x)");
    reveal_strlit(", x_pow_of_omega)");
    assert("let x := mload(X_MPTR)"@.len() == 22);
    assert("let omega := mload(OMEGA_MPTR)"@.len() == 30);
    assert("let omega_inv := mload(OMEGA_INV_MPTR)"@.len() == 38);
    assert("let x_pow_of_omega := mulmod(x, omega, R)"@.len() == 41);
    assert("x_pow_of_omega := mulmod(x_pow_of_omega, omega, R)"@.len() == 50);
    assert("x_pow_of_omega := mulmod(x_pow_of_omega, omega_inv, R)"@.len() == 54);
    assert("x_pow_of_omega := mulmod(x, omega_inv, R)"@.len() == 41);
    assert(", x)"@.len() == 4);
    assert(", x_pow_of_omega)"@.len() == 17);
    assert("let x_pow_of_omega := mulmod(x, omega, R)"@[0] == 'l');
    assert("x_pow_of_omega := mulmod(x, omega_inv, R)"@[0] == 'x');
}

/// Distinct opened rotations have distinct point slots.
proof fn lemma_point_slots_differ(superset: Seq<i32>, sets: Seq<RotationSet>, r1: i32, r2: i32)
    requires
        static_layout_ok(superset, sets),
        superset.contains(r1),
        superset.contains(r2),
        r1 != r2,
    ensures
        point_slot(superset, sets, r1) != point_slot(superset, sets, r2),
{
    let k1 = rot_index(superset, r1);
    let k2 = rot_index(superset, r2);
    assert(0 <= k1 < superset.len() && superset[k1] == r1);
    assert(0 <= k2 < superset.len() && superset[k2] == r2);
    assert(num_coeffs(sets) >= 0) by {
        lemma_num_coeffs_prefix(sets, 0);
    }
    let a1 = point_ptr(sets, k1);
    let a2 = point_ptr(sets, k2);
    assert(0 <= a1 <= usize::MAX && 0 <= a2 <= usize::MAX);
    assert(a1 != a2);
}

/// One rotation's point lines store the running power at its point slot when it is opened,
/// then step the power up (or down) unless it is the last rotation.
proof fn lemma_power_point_step(superset: Seq<i32>, sets: Seq<RotationSet>, r: int, last: int, up: bool, st: (int, Map<Ptr, int>))
    ensures
        run_lines(st, point_step(superset, sets, r, last, up), power_stepper()) == (
            if r != last {
                if up {
                    st.0 + 1
                } else {
                    st.0 - 1
                }
            } else {
                st.0
            },
            if superset.contains(r as i32) {
                st.1.insert(point_slot(superset, sets, r as i32), st.0)
            } else {
                st.1
            },
        ),
{
    lemma_point_texts_differ();
    let step = power_stepper();
    let a: Seq<LineView> = if superset.contains(r as i32) {
        seq![mstore_text(point_slot(superset, sets, r as i32), ", x_pow_of_omega)")]
    } else {
        Seq::empty()
    };
    let b: Seq<LineView> = if r != last {
        if up {
            seq![txt("x_pow_of_omega := mulmod(x_pow_of_omega, omega, R)")]
        } else {
            seq![txt("x_pow_of_omega := mulmod(x_pow_of_omega, omega_inv, R)")]
        }
    } else {
        Seq::empty()
    };
    assert(point_step(superset, sets, r, last, up) == a + b);
    lemma_run_lines_append(st, a, b, step);
    if superset.contains(r as i32) {
        lemma_run_lines_one(st, a[0], step);
        assert(a =~= seq![a[0]]);
    }
    let st1 = run_lines(st, a, step);
    if r != last {
        lemma_run_lines_one(st1, b[0], step);
        assert(b =~= seq![b[0]]);
    }
}

/// After the positive steps up to rotation `j`, the running power is `x * omega^(j + 1)`
/// (while `j` is below the highest rotation) and every opened rotation from 1 to `j` has its
/// power stored at its point slot.
proof fn lemma_power_ups(superset: Seq<i32>, sets: Seq<RotationSet>, ups: Seq<Seq<LineView>>, hi: int, j: int, m0: Map<Ptr, int>)
    requires
        static_layout_ok(superset, sets),
        hi >= 1,
        hi <= i32::MAX,
        ups == Seq::new(hi as nat, |j: int| point_step(superset, sets, j + 1, hi, true)),
        0 <= j <= hi,
    ensures
        ({
            let st = run_lines((1, m0), flat(ups.take(j)), power_stepper());
            &&& j < hi ==> st.0 == j + 1
            &&& forall|r: i32| #![trigger superset.contains(r)]
                superset.contains(r) && 1 <= r <= j ==> st.1.dom().contains(point_slot(superset, sets, r))
                    && st.1[point_slot(superset, sets, r)] == r
        }),
    decreases j,
{
    let step = power_stepper();
    if j == 0 {
        assert(ups.take(0) =~= Seq::<Seq<LineView>>::empty());
        assert(flat(ups.take(0)) =~= Seq::<LineView>::empty());
    } else {
        lemma_power_ups(superset, sets, ups, hi, j - 1, m0);
        lemma_flat_step(ups, j - 1);
        let st = run_lines((1, m0), flat(ups.take(j - 1)), step);
        lemma_run_lines_append((1, m0), flat(ups.take(j - 1)), ups[j - 1], step);
        lemma_power_point_step(superset, sets, j, hi, true, st);
        let st2 = run_lines((1, m0), flat(ups.take(j)), step);
        assert forall|r: i32| #![trigger superset.contains(r)]
            superset.contains(r) && 1 <= r <= j implies st2.1.dom().contains(point_slot(superset, sets, r))
            && st2.1[point_slot(superset, sets, r)] == r by {
            if r != j {
                if superset.contains(j as i32) {
                    lemma_point_slots_differ(superset, sets, r, j as i32);
                }
            }
        }
    }
}

/// After the negative steps down to rotation `-j`, the running power is `x * omega^(-1 - j)`
/// (while `-j` is above the lowest rotation), every opened rotation from `-j` to -1 has its
/// power stored at its point slot, and the slots of the other opened rotations are untouched.
proof fn lemma_power_downs(superset: Seq<i32>, sets: Seq<RotationSet>, downs: Seq<Seq<LineView>>, lo: int, j: int, m0: Map<Ptr, int>)
    requires
        static_layout_ok(superset, sets),
        lo <= -1,
        lo >= i32::MIN,
        downs == Seq::new((-lo) as nat, |j: int| point_step(superset, sets, -1 - j, lo, false)),
        0 <= j <= -lo,
    ensures
        ({
            let st = run_lines((-1, m0), flat(downs.take(j)), power_stepper());
            &&& j < -lo ==> st.0 == -1 - j
            &&& forall|r: i32| #![trigger superset.contains(r)]
                superset.contains(r) && -j <= r <= -1 ==> st.1.dom().contains(point_slot(superset, sets, r))
                    && st.1[point_slot(superset, sets, r)] == r
            &&& forall|r: i32| #![trigger superset.contains(r)]
                superset.contains(r) && r >= 0 ==> st.1.dom().contains(point_slot(superset, sets, r))
                    == m0.dom().contains(point_slot(superset, sets, r)) && st.1[point_slot(superset, sets, r)]
                    == m0[point_slot(superset, sets, r)]
        }),
    decreases j,
{
    let step = power_stepper();
    if j == 0 {
        assert(downs.take(0) =~= Seq::<Seq<LineView>>::empty());
        assert(flat(downs.take(0)) =~= Seq::<LineView>::empty());
    } else {
        lemma_power_downs(superset, sets, downs, lo, j - 1, m0);
        lemma_flat_step(downs, j - 1);
        let st = run_lines((-1, m0), flat(downs.take(j - 1)), step);
        lemma_run_lines_append((-1, m0), flat(downs.take(j - 1)), downs[j - 1], step);
        lemma_power_point_step(superset, sets, -j, lo, false, st);
        let st2 = run_lines((-1, m0), flat(downs.take(j)), step);
        assert forall|r: i32| #![trigger superset.contains(r)]
            superset.contains(r) && (-j <= r <= -1 || r >= 0) && r != -j && superset.contains((-j) as i32)
            implies point_slot(superset, sets, r) != point_slot(superset, sets, (-j) as i32) by {
            lemma_point_slots_differ(superset, sets, r, (-j) as i32);
        }
    }
}

/// The point computation stores, at the point slot of every opened rotation `r`, the value
/// `x * omega^r`: steps by `omega` above rotation 0 and by `omega_inv` below it.
pub proof fn lemma_points_are_powers(superset: Seq<i32>, sets: Seq<RotationSet>)
    requires
        static_layout_ok(superset, sets),
    ensures
        forall|r: i32|
            #![trigger superset.contains(r)]
            superset.contains(r) ==> {
                let m = run_lines((0, Map::empty()), point_lines(superset, sets), power_stepper()).1;
                m.dom().contains(point_slot(superset, sets, r)) && m[point_slot(superset, sets, r)] == r
            },
{
    lemma_point_texts_differ();
    let step = power_stepper();
    let hi = superset.last() as int;
    let lo = superset[0] as int;
    let head = seq![
        txt("let x := mload(X_MPTR)"),
        txt("let omega := mload(OMEGA_MPTR)"),
        txt("let omega_inv := mload(OMEGA_INV_MPTR)"),
        txt("let x_pow_of_omega := mulmod(x, omega, R)"),
    ];
    let ups = Seq::new(
        if hi > 0 {
            hi as nat
        } else {
            0
        },
        |j: int| point_step(superset, sets, j + 1, hi, true),
    );
    let mid = seq![
        mstore_text(point_slot(superset, sets, 0), ", x)"),
        txt("x_pow_of_omega := mulmod(x, omega_inv, R)"),
    ];
    let downs = Seq::new(
        if lo < 0 {
            (-lo) as nat
        } else {
            0
        },
        |j: int| point_step(superset, sets, -1 - j, lo, false),
    );
    assert(point_lines(superset, sets) == head + flat(ups) + mid + flat(downs));
    let st0: (int, Map<Ptr, int>) = (0, Map::empty());
    // The head defines the running power as x * omega.
    let h3 = head.take(3);
    assert(head =~= h3.push(head[3]));
    assert forall|i: int| 0 <= i < h3.len() implies step(st0, #[trigger] h3[i]) == st0 by {}
    lemma_run_lines_fixed(st0, h3, step);
    assert(head.drop_last() =~= h3);
    let s1 = run_lines(st0, head, step);
    assert(s1 == (1int, Map::<Ptr, int>::empty()));
    // The positive side.
    lemma_run_lines_append(st0, head, flat(ups), step);
    let s2 = run_lines(st0, head + flat(ups), step);
    let k0 = rot_index(superset, 0);
    assert(superset.contains(0));
    if hi > 0 {
        lemma_power_ups(superset, sets, ups, hi, hi, Map::empty());
        assert(ups.take(hi) =~= ups);
    } else {
        assert(ups =~= Seq::<Seq<LineView>>::empty());
        assert(flat(ups) =~= Seq::<LineView>::empty());
    }
    // Rotation 0's point is x itself, then the power restarts at x * omega_inv.
    lemma_run_lines_append(st0, head + flat(ups), mid, step);
    lemma_run_lines_one(s2, mid[0], step);
    assert(mid.drop_last() =~= seq![mid[0]]);
    let s3 = run_lines(st0, head + flat(ups) + mid, step);
    assert(s3.0 == -1);
    assert(s3.1 == s2.1.insert(point_slot(superset, sets, 0), 0));
    // The negative side.
    lemma_run_lines_append(st0, head + flat(ups) + mid, flat(downs), step);
    if lo < 0 {
        lemma_power_downs(superset, sets, downs, lo, -lo, s3.1);
        assert(downs.take(-lo) =~= downs);
    } else {
        assert(downs =~= Seq::<Seq<LineView>>::empty());
        assert(flat(downs) =~= Seq::<LineView>::empty());
    }
    let m = run_lines(st0, point_lines(superset, sets), step).1;
    assert forall|r: i32| #![trigger superset.contains(r)] superset.contains(r) implies m.dom().contains(
        point_slot(superset, sets, r),
    ) && m[point_slot(superset, sets, r)] == r by {
        let k = choose|k: int| 0 <= k < superset.len() && superset[k] == r;
        assert(lo <= r <= hi) by {
            if k > 0 {
                assert(superset[0] < superset[k]);
            }
            if k < superset.len() - 1 {
                assert(superset[k] < superset[superset.len() - 1]);
            }
        }
        if r > 0 {
            lemma_point_slots_differ(superset, sets, r, 0);
        }
    }
}

// ---------------------------------------------------------------------------------------
// The vanishing value and the differences.

/// The lines of set `s`'s difference product: the product of `mu` minus its differences' points
/// (1 where it has none), stored in its slot, and for the first set in slot 0 too.
pub open spec fn diff_lines(superset: Seq<i32>, sets: Seq<RotationSet>, s: int) -> Seq<LineView> {
    let d = sets[s].diffs@;
    (if d.len() > 0 {
        seq![load_line("diff := ", mu_slot(superset, sets, d[0]), "")]
    } else {
        seq![txt("diff := 1")]
    }) + Seq::new(
        if d.len() > 0 {
            (d.len() - 1) as nat
        } else {
            0
        },
        |i: int| load_line("diff := mulmod(diff, ", mu_slot(superset, sets, d[i + 1]), ", R)"),
    ) + seq![addr_line("mstore(", mem(diff_ptr(superset.len() as int, sets, s)), ", diff)")] + (if s
        == 0 {
        seq![addr_line("mstore(", mem(0), ", diff)")]
    } else {
        Seq::empty()
    })
}

/// The lines that compute `mu` minus each point, the vanishing value of the first set, and
/// each set's difference product.
pub open spec fn vanishing_lines(superset: Seq<i32>, sets: Seq<RotationSet>) -> Seq<LineView> {
    let n = superset.len() as int;
    let r0 = sets[0].rots@;
    seq![
        txt("let mu := mload(MU_MPTR)"),
        LineView::ForLoop(
            seq![
                seq![Piece::Text("let mptr := "), Piece::Addr(mem(mu_ptr(n, sets, 0))), Piece::Text("")],
                seq![Piece::Text("let mptr_end := "), Piece::Addr(mem(vanishing_ptr(n, sets))), Piece::Text("")],
                seq![Piece::Text("let point_mptr := "), Piece::Addr(mem(0x20 * free_slot(sets))), Piece::Text("")],
            ],
            seq![Piece::Text("lt(mptr, mptr_end)")],
            seq![seq![Piece::Text("mptr := add(mptr, 0x20)")], seq![Piece::Text("point_mptr := add(point_mptr, 0x20)")]],
            seq![seq![Piece::Text("mstore(mptr, addmod(mu, sub(R, mload(point_mptr)), R))")]],
        ),
        txt("let s"),
        load_line("s := ", mu_slot(superset, sets, r0[0]), ""),
    ] + Seq::new(
        (r0.len() - 1) as nat,
        |i: int| load_line("s := mulmod(s, ", mu_slot(superset, sets, r0[i + 1]), ", R)"),
    ) + seq![addr_line("mstore(", mem(vanishing_ptr(n, sets)), ", s)"), txt("let diff")] + flat(
        Seq::new(sets.len(), |s: int| diff_lines(superset, sets, s)),
    )
}

/// Appends `pre`, the value of `mu` minus the point of each rotation of `rots[from..]`, `post`
/// lines.
fn mu_product_lines(
    out: &mut Vec<Line>,
    superset: &Vec<i32>,
    f: usize,
    rots: &Vec<i32>,
    pre: &'static str,
    post: &'static str,
    Ghost(sets): Ghost<Seq<RotationSet>>,
)
    requires
        strictly_sorted(superset@),
        f == free_slot(sets),
        0x20 * (f + 2 * superset.len()) <= usize::MAX,
        forall|r: i32| rots@.contains(r) ==> superset@.contains(r),
        rots.len() >= 1,
    ensures
        lines_view(final(out)@) == lines_view(old(out)@) + Seq::new(
            (rots@.len() - 1) as nat,
            |i: int| load_line(pre, mu_slot(superset@, sets, rots@[i + 1]), post),
        ),
{
    let ghost start = lines_view(out@);
    let ghost want = Seq::new(
        (rots@.len() - 1) as nat,
        |i: int| load_line(pre, mu_slot(superset@, sets, rots@[i + 1]), post),
    );
    let n = superset.len();
    let mut i: usize = 1;
    while i < rots.len()
        invariant
            1 <= i <= rots.len(),
            strictly_sorted(superset@),
            f == free_slot(sets),
            n == superset.len(),
            0x20 * (f + 2 * n) <= usize::MAX,
            forall|r: i32| rots@.contains(r) ==> superset@.contains(r),
            want == Seq::new(
                (rots@.len() - 1) as nat,
                |i: int| load_line(pre, mu_slot(superset@, sets, rots@[i + 1]), post),
            ),
            lines_view(out@) == start + want.take(i - 1),
        decreases rots.len() - i,
    {
        assert(rots@.contains(rots@[i as int]));
        let k = index_of(superset, rots[i]);
        push_load_line(out, pre, mem_ptr(0x20 * (f + n + k)), post);
        assert(want.take(i as int) =~= want.take(i - 1).push(want[i - 1]));
        i += 1;
    }
    assert(want.take(i - 1) =~= want);
}

/// The lines of set `s`'s difference product.
fn diff_group_lines(superset: &Vec<i32>, sets: &Vec<RotationSet>, f: usize, s: usize) -> (out: Vec<Line>)
    requires
        static_layout_ok(superset@, sets@),
        f == free_slot(sets@),
        s < sets.len(),
    ensures
        lines_view(out@) == diff_lines(superset@, sets@, s as int),
{
    let ghost ss = sets@;
    let n = superset.len();
    let set = &sets[s];
    assert(set == ss[s as int]);
    assert forall|r: i32| set.diffs@.contains(r) implies superset@.contains(r) by {
        assert(ss[s as int].diffs@.contains(r));
    }
    let mut out: Vec<Line> = Vec::new();
    if set.diffs.len() > 0 {
        assert(set.diffs@.contains(set.diffs@[0]));
        let k = index_of(superset, set.diffs[0]);
        push_load_line(&mut out, "diff := ", mem_ptr(0x20 * (f + n + k)), "");
        mu_product_lines(&mut out, superset, f, &set.diffs, "diff := mulmod(diff, ", ", R)", Ghost(ss));
    } else {
        text_line(&mut out, "diff := 1");
    }
    push_plain(&mut out, addr_stmt("mstore(", mem_ptr(0x20 * (f + 2 * n + 1 + s)), ", diff)"));
    if s == 0 {
        push_plain(&mut out, addr_stmt("mstore(", mem_ptr(0), ", diff)"));
    }
    assert(lines_view(out@) =~= diff_lines(superset@, ss, s as int));
    out
}

/// The vanishing computation's lines.
fn vanishing_computation_lines(superset: &Vec<i32>, sets: &Vec<RotationSet>) -> (out: Vec<Line>)
    requires
        static_layout_ok(superset@, sets@),
    ensures
        lines_view(out@) == vanishing_lines(superset@, sets@),
{
    let ghost ss = sets@;
    let f = free_slot_of(superset, sets);
    let n = superset.len();
    let mut out: Vec<Line> = Vec::new();
    text_line(&mut out, "let mu := mload(MU_MPTR)");
    let init = vec![
        addr_stmt("let mptr := ", mem_ptr(0x20 * (f + n)), ""),
        addr_stmt("let mptr_end := ", mem_ptr(0x20 * (f + 2 * n)), ""),
        addr_stmt("let point_mptr := ", mem_ptr(0x20 * f), ""),
    ];
    let advance = vec![text_stmt("mptr := add(mptr, 0x20)"), text_stmt("point_mptr := add(point_mptr, 0x20)")];
    let body = vec![text_stmt("mstore(mptr, addmod(mu, sub(R, mload(point_mptr)), R))")];
    let cond = text_stmt("lt(mptr, mptr_end)");
    let ghost nn = n as int;
    let ghost want_loop = LineView::ForLoop(
        seq![
            seq![Piece::Text("let mptr := "), Piece::Addr(mem(mu_ptr(nn, ss, 0))), Piece::Text("")],
            seq![Piece::Text("let mptr_end := "), Piece::Addr(mem(vanishing_ptr(nn, ss))), Piece::Text("")],
            seq![Piece::Text("let point_mptr := "), Piece::Addr(mem(0x20 * free_slot(ss))), Piece::Text("")],
        ],
        seq![Piece::Text("lt(mptr, mptr_end)")],
        seq![seq![Piece::Text("mptr := add(mptr, 0x20)")], seq![Piece::Text("point_mptr := add(point_mptr, 0x20)")]],
        seq![seq![Piece::Text("mstore(mptr, addmod(mu, sub(R, mload(point_mptr)), R))")]],
    );
    assert(statements_view(init@) =~= seq![
        seq![Piece::Text("let mptr := "), Piece::Addr(mem(mu_ptr(nn, ss, 0))), Piece::Text("")],
        seq![Piece::Text("let mptr_end := "), Piece::Addr(mem(vanishing_ptr(nn, ss))), Piece::Text("")],
        seq![Piece::Text("let point_mptr := "), Piece::Addr(mem(0x20 * free_slot(ss))), Piece::Text("")],
    ]);
    assert(statements_view(advance@) =~= seq![seq![Piece::Text("mptr := add(mptr, 0x20)")], seq![Piece::Text("point_mptr := add(point_mptr, 0x20)")]]);
    assert(statements_view(body@) =~= seq![seq![Piece::Text("mstore(mptr, addmod(mu, sub(R, mload(point_mptr)), R))")]]);
    push_for(&mut out, init, cond, advance, body);
    text_line(&mut out, "let s");
    let set0 = &sets[0];
    assert(set0 == ss[0]);
    assert(set0.rots@.len() > 0);
    assert forall|r: i32| set0.rots@.contains(r) implies superset@.contains(r) by {
        assert(ss[0].rots@.contains(r));
    }
    assert(set0.rots@.contains(set0.rots@[0]));
    let k0 = index_of(superset, set0.rots[0]);
    push_load_line(&mut out, "s := ", mem_ptr(0x20 * (f + n + k0)), "");
    let ghost r0 = ss[0].rots@;
    let ghost prefix = seq![
        txt("let mu := mload(MU_MPTR)"),
        want_loop,
        txt("let s"),
        load_line("s := ", mu_slot(superset@, ss, r0[0]), ""),
    ];
    assert(lines_view(out@) =~= prefix);
    mu_product_lines(&mut out, superset, f, &set0.rots, "s := mulmod(s, ", ", R)", Ghost(ss));
    push_plain(&mut out, addr_stmt("mstore(", mem_ptr(0x20 * (f + 2 * n)), ", s)"));
    text_line(&mut out, "let diff");
    let ghost head = lines_view(out@);
    assert(head =~= prefix + Seq::new(
        (r0.len() - 1) as nat,
        |i: int| load_line("s := mulmod(s, ", mu_slot(superset@, ss, r0[i + 1]), ", R)"),
    ) + seq![addr_line("mstore(", mem(vanishing_ptr(nn, ss)), ", s)"), txt("let diff")]);
    let ghost groups = Seq::new(ss.len(), |s: int| diff_lines(superset@, ss, s));
    let mut s: usize = 0;
    while s < sets.len()
        invariant
            static_layout_ok(superset@, ss),
            ss == sets@,
            f == free_slot(ss),
            s <= sets.len(),
            groups == Seq::new(ss.len(), |s: int| diff_lines(superset@, ss, s)),
            lines_view(out@) == head + flat(groups.take(s as int)),
        decreases sets.len() - s,
    {
        proof {
            lemma_flat_step(groups, s as int);
        }
        let g = diff_group_lines(superset, sets, f, s);
        append_lines(&mut out, g);
        s += 1;
    }
    assert(groups.take(s as int) =~= groups);
    assert(lines_view(out@) =~= vanishing_lines(superset@, ss));
    out
}

/// The address a load piece reads.
pub open spec fn loaded(x: Piece) -> Option<Ptr> {
    match x {
        Piece::Load(a) => Some(a),
        _ => None,
    }
}

/// The address an address piece names.
pub open spec fn addressed(x: Piece) -> Option<Ptr> {
    match x {
        Piece::Addr(a) => Some(a),
        _ => None,
    }
}

/// What a line of a difference product does: `diff := 1` empties the running product,
/// `diff := v` starts it with the value at `v`, `diff := mulmod(diff, v, R)` multiplies in the
/// value at `v`, and `mstore(a, diff)` stores the running product at `a`. The state is the
/// slots whose values the running product multiplies, and the slots stored at each address.
pub open spec fn diff_step(st: (Seq<Ptr>, Map<Ptr, Seq<Ptr>>), l: LineView) -> (Seq<Ptr>, Map<Ptr, Seq<Ptr>>) {
    match l {
        LineView::Plain(p) => {
            if p.len() == 1 && p[0] == Piece::Text("diff := 1") {
                (Seq::empty(), st.1)
            } else if p.len() == 3 && p[0] == Piece::Text("diff := mulmod(diff, ") && loaded(p[1]).is_some()
                && p[2] == Piece::Text(", R)") {
                (st.0.push(loaded(p[1]).unwrap()), st.1)
            } else if p.len() == 3 && p[0] == Piece::Text("diff := ") && loaded(p[1]).is_some() && p[2]
                == Piece::Text("") {
                (seq![loaded(p[1]).unwrap()], st.1)
            } else if p.len() == 3 && p[0] == Piece::Text("mstore(") && addressed(p[1]).is_some() && p[2]
                == Piece::Text(", diff)") {
                (st.0, st.1.insert(addressed(p[1]).unwrap(), st.0))
            } else {
                st
            }
        },
        LineView::ForLoop(_, _, _, _) => st,
    }
}

/// The step of a difference product, as a function.
pub open spec fn diff_stepper() -> spec_fn((Seq<Ptr>, Map<Ptr, Seq<Ptr>>), LineView) -> (Seq<Ptr>, Map<Ptr, Seq<Ptr>>) {
    |st: (Seq<Ptr>, Map<Ptr, Seq<Ptr>>), l: LineView| diff_step(st, l)
}

/// `diff := mulmod(diff, v, R)` lines, one per slot, multiply in each slot in order.
proof fn lemma_diff_mul_lines(st: (Seq<Ptr>, Map<Ptr, Seq<Ptr>>), slots: Seq<Ptr>)
    ensures
        run_lines(
            st,
            slots.map_values(|a: Ptr| load_line("diff := mulmod(diff, ", a, ", R)")),
            diff_stepper(),
        ) == (st.0 + slots, st.1),
    decreases slots.len(),
{
    let ls = slots.map_values(|a: Ptr| load_line("diff := mulmod(diff, ", a, ", R)"));
    if slots.len() == 0 {
        assert(st.0 + slots =~= st.0);
    } else {
        assert(ls.drop_last() =~= slots.drop_last().map_values(
            |a: Ptr| load_line("diff := mulmod(diff, ", a, ", R)"),
        ));
        lemma_diff_mul_lines(st, slots.drop_last());
        assert(st.0 + slots =~= (st.0 + slots.drop_last()).push(slots.last()));
    }
}

/// Set `s`'s difference lines store, at its difference slot, the product of `mu` minus the
/// point of every one of its differences, each once and in order (the empty product where it
/// has none); the first set's product is stored at slot 0 as well.
pub proof fn lemma_diff_lines_multiply_every_difference(superset: Seq<i32>, sets: Seq<RotationSet>, s: int)
    requires
        static_layout_ok(superset, sets),
        0 <= s < sets.len(),
    ensures
        ({
            let st = run_lines((Seq::empty(), Map::empty()), diff_lines(superset, sets, s), diff_stepper());
            let prod = sets[s].diffs@.map_values(|r: i32| mu_slot(superset, sets, r));
            let slot = mem(diff_ptr(superset.len() as int, sets, s));
            &&& st.1.dom().contains(slot)
            &&& st.1[slot] == prod
            &&& s == 0 ==> st.1.dom().contains(mem(0)) && st.1[mem(0)] == prod
        }),
{
    reveal_strlit("diff := ");
    reveal_strlit("diff := mulmod(diff, ");
    assert("diff := "@.len() == 8);
    assert("diff := mulmod(diff, "@.len() == 21);
    assert("diff := "@ != "diff := mulmod(diff, "@);
    let n = superset.len() as int;
    let d = sets[s].diffs@;
    let prod = d.map_values(|r: i32| mu_slot(superset, sets, r));
    let st0: (Seq<Ptr>, Map<Ptr, Seq<Ptr>>) = (Seq::empty(), Map::empty());
    let step = diff_stepper();
    let first = if d.len() > 0 {
        seq![load_line("diff := ", mu_slot(superset, sets, d[0]), "")]
    } else {
        seq![txt("diff := 1")]
    };
    let rest_slots = Seq::new(
        if d.len() > 0 {
            (d.len() - 1) as nat
        } else {
            0
        },
        |i: int| mu_slot(superset, sets, d[i + 1]),
    );
    let rest = rest_slots.map_values(|a: Ptr| load_line("diff := mulmod(diff, ", a, ", R)"));
    let slot = mem(diff_ptr(n, sets, s));
    let store = seq![addr_line("mstore(", slot, ", diff)")];
    let zero = if s == 0 {
        seq![addr_line("mstore(", mem(0), ", diff)")]
    } else {
        Seq::empty()
    };
    assert(diff_lines(superset, sets, s) =~= first + rest + store + zero);
    lemma_run_lines_one(st0, first[0], step);
    assert(first =~= seq![first[0]]);
    let st1 = run_lines(st0, first, step);
    if d.len() > 0 {
        assert(st1.0 =~= seq![mu_slot(superset, sets, d[0])]);
    } else {
        assert(st1.0 =~= Seq::<Ptr>::empty());
    }
    lemma_run_lines_append(st0, first, rest, step);
    lemma_diff_mul_lines(st1, rest_slots);
    let st2 = run_lines(st0, first + rest, step);
    assert(st2.0 =~= prod);
    lemma_run_lines_append(st0, first + rest, store, step);
    lemma_run_lines_one(st2, store[0], step);
    let st3 = run_lines(st0, first + rest + store, step);
    assert(st3.1 == st2.1.insert(slot, st2.0));
    lemma_run_lines_append(st0, first + rest + store, zero, step);
    if s == 0 {
        lemma_run_lines_one(st3, zero[0], step);
        assert(zero =~= seq![zero[0]]);
        assert(num_coeffs(sets) >= 0) by {
            lemma_num_coeffs_prefix(sets, 0);
        }
        assert(diff_ptr(n, sets, s) > 0);
        assert(slot != mem(0));
    } else {
        assert(run_lines(st3, zero, step) == st3);
    }
}

/// What a line of a running sum or product does: `pre v` (with `pre` being `start`) starts it
/// with the value at `v`, `more v, R)` folds in the value at `v`, and `mstore(a` then
/// `store_post` stores it at `a`. The state is the slots whose values it folds together, and
/// the slots folded into the value stored at each address.
pub open spec fn fold_step(
    start: &'static str,
    more: &'static str,
    store_post: &'static str,
    st: (Seq<Ptr>, Map<Ptr, Seq<Ptr>>),
    l: LineView,
) -> (Seq<Ptr>, Map<Ptr, Seq<Ptr>>) {
    match l {
        LineView::Plain(p) => {
            if p.len() == 3 && p[0] == Piece::Text(more) && loaded(p[1]).is_some() && p[2] == Piece::Text(
                ", R)",
            ) {
                (st.0.push(loaded(p[1]).unwrap()), st.1)
            } else if p.len() == 3 && p[0] == Piece::Text(start) && loaded(p[1]).is_some() && p[2]
                == Piece::Text("") {
                (seq![loaded(p[1]).unwrap()], st.1)
            } else if p.len() == 3 && p[0] == Piece::Text("mstore(") && addressed(p[1]).is_some() && p[2]
                == Piece::Text(store_post) {
                (st.0, st.1.insert(addressed(p[1]).unwrap(), st.0))
            } else {
                st
            }
        },
        LineView::ForLoop(_, _, _, _) => st,
    }
}

/// The step of a running sum or product, as a function.
pub open spec fn fold_stepper(start: &'static str, more: &'static str, store_post: &'static str) -> spec_fn(
    (Seq<Ptr>, Map<Ptr, Seq<Ptr>>),
    LineView,
) -> (Seq<Ptr>, Map<Ptr, Seq<Ptr>>) {
    |st: (Seq<Ptr>, Map<Ptr, Seq<Ptr>>), l: LineView| fold_step(start, more, store_post, st, l)
}

/// Lines `more v, R)`, one per slot, fold in each slot in order.
proof fn lemma_fold_more_lines(
    start: &'static str,
    more: &'static str,
    store_post: &'static str,
    st: (Seq<Ptr>, Map<Ptr, Seq<Ptr>>),
    slots: Seq<Ptr>,
)
    ensures
        run_lines(st, slots.map_values(|a: Ptr| load_line(more, a, ", R)")), fold_stepper(start, more, store_post))
            == (st.0 + slots, st.1),
    decreases slots.len(),
{
    let ls = slots.map_values(|a: Ptr| load_line(more, a, ", R)"));
    if slots.len() == 0 {
        assert(st.0 + slots =~= st.0);
    } else {
        assert(ls.drop_last() =~= slots.drop_last().map_values(|a: Ptr| load_line(more, a, ", R)")));
        lemma_fold_more_lines(start, more, store_post, st, slots.drop_last());
        assert(st.0 + slots =~= (st.0 + slots.drop_last()).push(slots.last()));
    }
}

/// Starting a fold at the value at `first`, folding in `rest` and storing at `a` stores the
/// fold of `first` then `rest` at `a`.
proof fn lemma_fold_lines(
    start: &'static str,
    more: &'static str,
    store_post: &'static str,
    st: (Seq<Ptr>, Map<Ptr, Seq<Ptr>>),
    first: Ptr,
    rest: Seq<Ptr>,
    a: Ptr,
)
    requires
        start@ != more@,
    ensures
        run_lines(
            st,
            seq![load_line(start, first, "")] + rest.map_values(|x: Ptr| load_line(more, x, ", R)")) + seq![
                addr_line("mstore(", a, store_post),
            ],
            fold_stepper(start, more, store_post),
        ) == (seq![first] + rest, st.1.insert(a, seq![first] + rest)),
{
    let step = fold_stepper(start, more, store_post);
    let l0 = seq![load_line(start, first, "")];
    let mid = rest.map_values(|x: Ptr| load_line(more, x, ", R)"));
    let l2 = seq![addr_line("mstore(", a, store_post)];
    lemma_run_lines_one(st, l0[0], step);
    let st1 = run_lines(st, l0, step);
    assert(st1.0 =~= seq![first]);
    lemma_run_lines_append(st, l0, mid, step);
    lemma_fold_more_lines(start, more, store_post, st1, rest);
    let st2 = run_lines(st, l0 + mid, step);
    lemma_run_lines_append(st, l0 + mid, l2, step);
    lemma_run_lines_one(st2, l2[0], step);
}

/// A fold's step leaves a state alone on every line of set `s`'s difference product.
proof fn lemma_diff_lines_fixed_for_s(superset: Seq<i32>, sets: Seq<RotationSet>, s: int, st: (Seq<Ptr>, Map<Ptr, Seq<Ptr>>))
    requires
        0 <= s < sets.len(),
        "s := "@ != "diff := "@,
        "s := mulmod(s, "@ != "diff := "@,
        "s := mulmod(s, "@ != "diff := mulmod(diff, "@,
        "s := "@ != "diff := mulmod(diff, "@,
        ", s)"@ != ", diff)"@,
    ensures
        run_lines(st, diff_lines(superset, sets, s), fold_stepper("s := ", "s := mulmod(s, ", ", s)")) == st,
{
    let step = fold_stepper("s := ", "s := mulmod(s, ", ", s)");
    let ls = diff_lines(superset, sets, s);
    assert forall|i: int| 0 <= i < ls.len() implies step(st, #[trigger] ls[i]) == st by {}
    lemma_run_lines_fixed(st, ls, step);
}

/// The first set's vanishing value is stored as the product of `mu` minus the point of every
/// one of its rotations, each once and in order.
pub proof fn lemma_vanishing_multiplies_every_rotation(superset: Seq<i32>, sets: Seq<RotationSet>)
    requires
        static_layout_ok(superset, sets),
    ensures
        ({
            let st = run_lines(
                (Seq::empty(), Map::empty()),
                vanishing_lines(superset, sets),
                fold_stepper("s := ", "s := mulmod(s, ", ", s)"),
            );
            let slot = mem(vanishing_ptr(superset.len() as int, sets));
            &&& st.1.dom().contains(slot)
            &&& st.1[slot] == sets[0].rots@.map_values(|r: i32| mu_slot(superset, sets, r))
        }),
{
    reveal_strlit("s := ");
    reveal_strlit("s := mulmod(s, ");
    reveal_strlit("diff := ");
    reveal_strlit("diff := mulmod(diff, ");
    reveal_strlit(", s)");
    reveal_strlit(", diff)");
    assert("s := "@.len() == 5);
    assert("s := mulmod(s, "@.len() == 15);
    assert("diff := "@.len() == 8);
    assert("diff := mulmod(diff, "@.len() == 21);
    assert(", s)"@.len() == 4);
    assert(", diff)"@.len() == 7);
    let step = fold_stepper("s := ", "s := mulmod(s, ", ", s)");
    let n = superset.len() as int;
    let r0 = sets[0].rots@;
    let st0: (Seq<Ptr>, Map<Ptr, Seq<Ptr>>) = (Seq::empty(), Map::empty());
    let ls = vanishing_lines(superset, sets);
    let pre = ls.take(3);
    let rest = Seq::new((r0.len() - 1) as nat, |i: int| mu_slot(superset, sets, r0[i + 1]));
    let slot = mem(vanishing_ptr(n, sets));
    let body = seq![load_line("s := ", mu_slot(superset, sets, r0[0]), "")] + rest.map_values(
        |x: Ptr| load_line("s := mulmod(s, ", x, ", R)"),
    ) + seq![addr_line("mstore(", slot, ", s)")];
    let groups = Seq::new(sets.len(), |s: int| diff_lines(superset, sets, s));
    let tail = seq![txt("let diff")] + flat(groups);
    assert(ls =~= pre + body + tail);
    assert forall|i: int| 0 <= i < pre.len() implies step(st0, #[trigger] pre[i]) == st0 by {}
    lemma_run_lines_fixed(st0, pre, step);
    lemma_run_lines_append(st0, pre, body, step);
    lemma_fold_lines("s := ", "s := mulmod(s, ", ", s)", st0, mu_slot(superset, sets, r0[0]), rest, slot);
    let st1 = run_lines(st0, pre + body, step);
    assert(seq![mu_slot(superset, sets, r0[0])] + rest =~= r0.map_values(|r: i32| mu_slot(superset, sets, r)));
    lemma_run_lines_append(st0, pre + body, tail, step);
    lemma_run_lines_append(st1, seq![txt("let diff")], flat(groups), step);
    lemma_run_lines_one(st1, txt("let diff"), step);
    lemma_flat_fixed_for_s(superset, sets, groups, sets.len() as int, st1);
    assert(groups.take(sets.len() as int) =~= groups);
}

/// A fold's step leaves a state alone on the difference products of the first `j` sets.
proof fn lemma_flat_fixed_for_s(
    superset: Seq<i32>,
    sets: Seq<RotationSet>,
    groups: Seq<Seq<LineView>>,
    j: int,
    st: (Seq<Ptr>, Map<Ptr, Seq<Ptr>>),
)
    requires
        groups == Seq::new(sets.len(), |s: int| diff_lines(superset, sets, s)),
        0 <= j <= sets.len(),
        "s := "@ != "diff := "@,
        "s := mulmod(s, "@ != "diff := "@,
        "s := mulmod(s, "@ != "diff := mulmod(diff, "@,
        "s := "@ != "diff := mulmod(diff, "@,
        ", s)"@ != ", diff)"@,
    ensures
        run_lines(st, flat(groups.take(j)), fold_stepper("s := ", "s := mulmod(s, ", ", s)")) == st,
    decreases j,
{
    let step = fold_stepper("s := ", "s := mulmod(s, ", ", s)");
    if j == 0 {
        assert(groups.take(0) =~= Seq::<Seq<LineView>>::empty());
        assert(flat(groups.take(0)) =~= Seq::<LineView>::empty());
    } else {
        lemma_flat_fixed_for_s(superset, sets, groups, j - 1, st);
        lemma_flat_step(groups, j - 1);
        lemma_run_lines_append(st, flat(groups.take(j - 1)), groups[j - 1], step);
        lemma_diff_lines_fixed_for_s(superset, sets, j - 1, st);
    }
}

/// Set `s`'s coefficient sum is stored as the sum of every one of its coefficients, each once
/// and in order.
pub proof fn lemma_sum_adds_every_coefficient(superset: Seq<i32>, sets: Seq<RotationSet>, s: int)
    requires
        static_layout_ok(superset, sets),
        0 <= s < sets.len(),
    ensures
        ({
            let st = run_lines(
                (Seq::empty(), Map::empty()),
                sum_lines(superset, sets, s),
                fold_stepper("let sum := ", "sum := addmod(sum, ", ", sum)"),
            );
            let slot = mem(sum_ptr(superset.len() as int, sets, s));
            &&& st.1.dom().contains(slot)
            &&& st.1[slot] == Seq::new(sets[s].rots@.len(), |m: int| mem(coeff_ptr(sets, s, m)))
        }),
{
    reveal_strlit("let sum := ");
    reveal_strlit("sum := addmod(sum, ");
    assert("let sum := "@.len() == 11);
    assert("sum := addmod(sum, "@.len() == 19);
    let len = sets[s].rots@.len() as int;
    assert(len > 0);
    let rest = Seq::new((len - 1) as nat, |i: int| mem(coeff_ptr(sets, s, i + 1)));
    let slot = mem(sum_ptr(superset.len() as int, sets, s));
    assert(sum_lines(superset, sets, s) =~= seq![load_line("let sum := ", mem(coeff_ptr(sets, s, 0)), "")]
        + rest.map_values(|x: Ptr| load_line("sum := addmod(sum, ", x, ", R)")) + seq![
        addr_line("mstore(", slot, ", sum)"),
    ]);
    lemma_fold_lines(
        "let sum := ",
        "sum := addmod(sum, ",
        ", sum)",
        (Seq::empty(), Map::empty()),
        mem(coeff_ptr(sets, s, 0)),
        rest,
        slot,
    );
    assert(seq![mem(coeff_ptr(sets, s, 0))] + rest =~= Seq::new(
        sets[s].rots@.len(),
        |m: int| mem(coeff_ptr(sets, s, m)),
    ));
}

// ---------------------------------------------------------------------------------------
// The coefficients.

/// The `t`-th index other than `i`.
pub open spec fn other_index(i: int, t: int) -> int {
    if t < i {
        t
    } else {
        t + 1
    }
}

/// `pre`, the point variable `a`, `", sub(R, "`, the point variable `b`, `post`.
pub open spec fn point_diff_line(pre: &'static str, a: usize, b: usize, post: &'static str) -> LineView {
    LineView::Plain(
        seq![Piece::Text(pre), Piece::PointVar(a), Piece::Text(", sub(R, "), Piece::PointVar(b), Piece::Text(post)],
    )
}

/// The index of the point variable of the `m`-th rotation of set `s`.
pub open spec fn point_var(superset: Seq<i32>, sets: Seq<RotationSet>, s: int, m: int) -> usize {
    rot_index(superset, sets[s].rots@[m]) as usize
}

/// The lines of the `i`-th coefficient of set `s`: the product of its point minus each other
/// point of the set (1 where there is none), times `mu` minus its point, stored in its slot.
pub open spec fn coeff_item_lines(superset: Seq<i32>, sets: Seq<RotationSet>, s: int, i: int) -> Seq<LineView> {
    let rots = sets[s].rots@;
    let n = rots.len() as int;
    let ki = point_var(superset, sets, s, i);
    (if n > 1 {
        seq![point_diff_line("coeff := addmod(", ki, point_var(superset, sets, s, other_index(i, 0)), "), R)")]
    } else {
        seq![txt("coeff := 1")]
    }) + Seq::new(
        if n > 1 {
            (n - 2) as nat
        } else {
            0
        },
        |t: int|
            point_diff_line(
                "coeff := mulmod(coeff, addmod(",
                ki,
                point_var(superset, sets, s, other_index(i, t + 1)),
                "), R), R)",
            ),
    ) + seq![
        load_line("coeff := mulmod(coeff, ", mu_slot(superset, sets, rots[i]), ", R)"),
        addr_line("mstore(", mem(coeff_ptr(sets, s, i)), ", coeff)"),
    ]
}

/// The line that loads the point of the `m`-th rotation of set `s` into its variable.
pub open spec fn point_var_line(superset: Seq<i32>, sets: Seq<RotationSet>, s: int, m: int) -> LineView {
    LineView::Plain(
        seq![
            Piece::Text("let "),
            Piece::PointVar(point_var(superset, sets, s, m)),
            Piece::Text(" := "),
            Piece::Load(point_slot(superset, sets, sets[s].rots@[m])),
        ],
    )
}

/// The lines of set `s`'s coefficients.
pub open spec fn coeff_lines(superset: Seq<i32>, sets: Seq<RotationSet>, s: int) -> Seq<LineView> {
    let n = sets[s].rots@.len();
    Seq::new(n, |m: int| point_var_line(superset, sets, s, m)) + seq![txt("let coeff")] + flat(
        Seq::new(n, |i: int| coeff_item_lines(superset, sets, s, i)),
    )
}

/// The point variable a piece names.
pub open spec fn point_var_of(x: Piece) -> Option<usize> {
    match x {
        Piece::PointVar(k) => Some(k),
        _ => None,
    }
}

/// The running coefficient: the pairs `(a, b)` of point variables whose differences
/// `point_a - point_b` it multiplies, and the slots whose values it multiplies; with the
/// running coefficient stored at each address.
pub type CoeffState = (Seq<(usize, usize)>, Seq<Ptr>, Map<Ptr, (Seq<(usize, usize)>, Seq<Ptr>)>);

/// What a line of the coefficients does: `coeff := 1` empties the running product,
/// `coeff := addmod(a, sub(R, b), R)` starts it with `a - b`, `coeff := mulmod(coeff,
/// addmod(a, sub(R, b), R), R)` multiplies in `a - b`, `coeff := mulmod(coeff, v, R)`
/// multiplies in the value at `v`, and `mstore(a, coeff)` stores it at `a`.
pub open spec fn coeff_step(st: CoeffState, l: LineView) -> CoeffState {
    match l {
        LineView::Plain(p) => {
            if p.len() == 1 && p[0] == Piece::Text("coeff := 1") {
                (Seq::empty(), Seq::empty(), st.2)
            } else if p.len() == 5 && p[0] == Piece::Text("coeff := addmod(") && point_var_of(p[1]).is_some()
                && p[2] == Piece::Text(", sub(R, ") && point_var_of(p[3]).is_some() && p[4] == Piece::Text(
                "), R)",
            ) {
                (seq![(point_var_of(p[1]).unwrap(), point_var_of(p[3]).unwrap())], Seq::empty(), st.2)
            } else if p.len() == 5 && p[0] == Piece::Text("coeff := mulmod(coeff, addmod(") && point_var_of(
                p[1],
            ).is_some() && p[2] == Piece::Text(", sub(R, ") && point_var_of(p[3]).is_some() && p[4]
                == Piece::Text("), R), R)") {
                (st.0.push((point_var_of(p[1]).unwrap(), point_var_of(p[3]).unwrap())), st.1, st.2)
            } else if p.len() == 3 && p[0] == Piece::Text("coeff := mulmod(coeff, ") && loaded(p[1]).is_some()
                && p[2] == Piece::Text(", R)") {
                (st.0, st.1.push(loaded(p[1]).unwrap()), st.2)
            } else if p.len() == 3 && p[0] == Piece::Text("mstore(") && addressed(p[1]).is_some() && p[2]
                == Piece::Text(", coeff)") {
                (st.0, st.1, st.2.insert(addressed(p[1]).unwrap(), (st.0, st.1)))
            } else {
                st
            }
        },
        LineView::ForLoop(_, _, _, _) => st,
    }
}

/// The step of the coefficients, as a function.
pub open spec fn coeff_stepper() -> spec_fn(CoeffState, LineView) -> CoeffState {
    |st: CoeffState, l: LineView| coeff_step(st, l)
}

/// The pairs of point variables of the `i`-th coefficient of set `s`: its point against each
/// other point of the set, in order.
spec fn coeff_pairs(superset: Seq<i32>, sets: Seq<RotationSet>, s: int, i: int) -> Seq<(usize, usize)> {
    let n = sets[s].rots@.len() as int;
    Seq::new(
        if n > 1 {
            (n - 1) as nat
        } else {
            0
        },
        |t: int| (point_var(superset, sets, s, i), point_var(superset, sets, s, other_index(i, t))),
    )
}

/// One coefficient's lines store the product of its point differences and `mu` minus its
/// point at its slot.
proof fn lemma_coeff_item_run(superset: Seq<i32>, sets: Seq<RotationSet>, s: int, i: int, st: CoeffState)
    requires
        0 <= s < sets.len(),
        0 <= i < sets[s].rots@.len(),
        "coeff := addmod("@ != "coeff := mulmod(coeff, addmod("@,
    ensures
        run_lines(st, coeff_item_lines(superset, sets, s, i), coeff_stepper()) == ({
            let pairs = coeff_pairs(superset, sets, s, i);
            let mus = seq![mu_slot(superset, sets, sets[s].rots@[i])];
            (pairs, mus, st.2.insert(mem(coeff_ptr(sets, s, i)), (pairs, mus)))
        }),
{
    let step = coeff_stepper();
    let rots = sets[s].rots@;
    let n = rots.len() as int;
    let ki = point_var(superset, sets, s, i);
    let pairs = coeff_pairs(superset, sets, s, i);
    let a: Seq<LineView> = if n > 1 {
        seq![point_diff_line("coeff := addmod(", ki, point_var(superset, sets, s, other_index(i, 0)), "), R)")]
    } else {
        seq![txt("coeff := 1")]
    };
    let b = Seq::new(
        if n > 1 {
            (n - 2) as nat
        } else {
            0
        },
        |t: int|
            point_diff_line(
                "coeff := mulmod(coeff, addmod(",
                ki,
                point_var(superset, sets, s, other_index(i, t + 1)),
                "), R), R)",
            ),
    );
    let c = seq![
        load_line("coeff := mulmod(coeff, ", mu_slot(superset, sets, rots[i]), ", R)"),
        addr_line("mstore(", mem(coeff_ptr(sets, s, i)), ", coeff)"),
    ];
    assert(coeff_item_lines(superset, sets, s, i) =~= a + b + c);
    lemma_run_lines_one(st, a[0], step);
    assert(a =~= seq![a[0]]);
    let st1 = run_lines(st, a, step);
    assert(st1.0 =~= pairs.take(if n > 1 { 1 } else { 0 }));
    assert(st1.1 =~= Seq::<Ptr>::empty());
    assert(st1.2 == st.2);
    // The other differences, one at a time.
    lemma_coeff_mids_run(superset, sets, s, i, b, st1, b.len() as int);
    assert(b.take(b.len() as int) =~= b);
    lemma_run_lines_append(st, a, b, step);
    let st2 = run_lines(st, a + b, step);
    assert(st2.0 =~= pairs);
    lemma_run_lines_append(st, a + b, c, step);
    assert(c.drop_last() =~= seq![c[0]]);
    lemma_run_lines_one(st2, c[0], step);
    assert(st2.1.push(mu_slot(superset, sets, rots[i])) =~= seq![mu_slot(superset, sets, rots[i])]);
}

/// The multiplying lines of a coefficient add its point differences one at a time.
proof fn lemma_coeff_mids_run(
    superset: Seq<i32>,
    sets: Seq<RotationSet>,
    s: int,
    i: int,
    b: Seq<LineView>,
    st: CoeffState,
    j: int,
)
    requires
        0 <= s < sets.len(),
        0 <= i < sets[s].rots@.len(),
        b == Seq::new(
            if sets[s].rots@.len() > 1 {
                (sets[s].rots@.len() - 2) as nat
            } else {
                0
            },
            |t: int|
                point_diff_line(
                    "coeff := mulmod(coeff, addmod(",
                    point_var(superset, sets, s, i),
                    point_var(superset, sets, s, other_index(i, t + 1)),
                    "), R), R)",
                ),
        ),
        0 <= j <= b.len(),
        st.0 == coeff_pairs(superset, sets, s, i).take(if sets[s].rots@.len() > 1 { 1 } else { 0 }),
    ensures
        ({
            let r = run_lines(st, b.take(j), coeff_stepper());
            &&& r.0 == coeff_pairs(superset, sets, s, i).take(
                if sets[s].rots@.len() > 1 {
                    1 + j
                } else {
                    0
                },
            )
            &&& r.1 == st.1
            &&& r.2 == st.2
        }),
    decreases j,
{
    let step = coeff_stepper();
    let pairs = coeff_pairs(superset, sets, s, i);
    if j == 0 {
        assert(b.take(0) =~= Seq::<LineView>::empty());
    } else {
        lemma_coeff_mids_run(superset, sets, s, i, b, st, j - 1);
        assert(b.take(j).drop_last() =~= b.take(j - 1));
        let r = run_lines(st, b.take(j - 1), step);
        assert(r.0.push(pairs[j]) =~= pairs.take(1 + j));
    }
}

/// Every coefficient of set `s` is stored as the product of its point minus each other point
/// of the set (each other point once) times `mu` minus its point.
pub proof fn lemma_coeffs_multiply_every_other_point(superset: Seq<i32>, sets: Seq<RotationSet>, s: int)
    requires
        static_layout_ok(superset, sets),
        0 <= s < sets.len(),
    ensures
        forall|i: int|
            #![trigger sets[s].rots@[i]]
            0 <= i < sets[s].rots@.len() ==> {
                let st = run_lines(
                    (Seq::empty(), Seq::empty(), Map::empty()),
                    coeff_lines(superset, sets, s),
                    coeff_stepper(),
                );
                let slot = mem(coeff_ptr(sets, s, i));
                let v = st.2[slot];
                let ki = point_var(superset, sets, s, i);
                &&& st.2.dom().contains(slot)
                &&& v.0.len() == sets[s].rots@.len() - 1
                &&& forall|t: int| 0 <= t < v.0.len() ==> (#[trigger] v.0[t]).0 == ki
                &&& forall|j: int|
                    0 <= j < sets[s].rots@.len() && j != i ==> v.0.contains(
                        (ki, #[trigger] point_var(superset, sets, s, j)),
                    )
                &&& v.1 == seq![mu_slot(superset, sets, sets[s].rots@[i])]
            },
{
    reveal_strlit("coeff := addmod(");
    reveal_strlit("coeff := mulmod(coeff, addmod(");
    reveal_strlit("let coeff");
    reveal_strlit("coeff := 1");
    assert("coeff := addmod("@.len() == 16);
    assert("coeff := mulmod(coeff, addmod("@.len() == 30);
    assert("let coeff"@.len() == 9);
    assert("coeff := 1"@.len() == 10);
    let step = coeff_stepper();
    let n = sets[s].rots@.len() as int;
    let st0: CoeffState = (Seq::empty(), Seq::empty(), Map::empty());
    let vars = Seq::new(n as nat, |m: int| point_var_line(superset, sets, s, m));
    let head = vars + seq![txt("let coeff")];
    let items = Seq::new(n as nat, |i: int| coeff_item_lines(superset, sets, s, i));
    assert(coeff_lines(superset, sets, s) == head + flat(items));
    assert forall|k: int| 0 <= k < head.len() implies step(st0, #[trigger] head[k]) == st0 by {}
    lemma_run_lines_fixed(st0, head, step);
    lemma_run_lines_append(st0, head, flat(items), step);
    lemma_coeff_items_run(superset, sets, s, items, n, st0);
    assert(items.take(n) =~= items);
    let st = run_lines(st0, coeff_lines(superset, sets, s), step);
    assert forall|i: int| #![trigger sets[s].rots@[i]] 0 <= i < n implies {
        let slot = mem(coeff_ptr(sets, s, i));
        let v = st.2[slot];
        let ki = point_var(superset, sets, s, i);
        &&& st.2.dom().contains(slot)
        &&& v.0.len() == n - 1
        &&& forall|t: int| 0 <= t < v.0.len() ==> (#[trigger] v.0[t]).0 == ki
        &&& forall|j: int|
            0 <= j < n && j != i ==> v.0.contains((ki, #[trigger] point_var(superset, sets, s, j)))
        &&& v.1 == seq![mu_slot(superset, sets, sets[s].rots@[i])]
    } by {
        assert(coeff_stored(run_lines(st0, flat(items.take(n)), step).2, superset, sets, s, i));
        assert(coeff_stored(st.2, superset, sets, s, i));
        let pairs = coeff_pairs(superset, sets, s, i);
        let ki = point_var(superset, sets, s, i);
        assert forall|j: int| 0 <= j < n && j != i implies pairs.contains((ki, #[trigger] point_var(superset, sets, s, j))) by {
            let t = if j < i { j } else { j - 1 };
            assert(other_index(i, t) == j);
            assert(pairs[t] == (ki, point_var(superset, sets, s, j)));
        }
    }
}

/// Whether `m` holds, at the slot of the `i`-th coefficient of set `s`, its point differences
/// and `mu` minus its point.
spec fn coeff_stored(m: Map<Ptr, (Seq<(usize, usize)>, Seq<Ptr>)>, superset: Seq<i32>, sets: Seq<RotationSet>, s: int, i: int) -> bool {
    &&& m.dom().contains(mem(coeff_ptr(sets, s, i)))
    &&& m[mem(coeff_ptr(sets, s, i))] == (
        coeff_pairs(superset, sets, s, i),
        seq![mu_slot(superset, sets, sets[s].rots@[i])],
    )
}

/// After the lines of the first `j` coefficients, each of them is stored at its slot.
proof fn lemma_coeff_items_run(
    superset: Seq<i32>,
    sets: Seq<RotationSet>,
    s: int,
    items: Seq<Seq<LineView>>,
    j: int,
    st0: CoeffState,
)
    requires
        static_layout_ok(superset, sets),
        0 <= s < sets.len(),
        items == Seq::new(sets[s].rots@.len(), |i: int| coeff_item_lines(superset, sets, s, i)),
        0 <= j <= items.len(),
        "coeff := addmod("@ != "coeff := mulmod(coeff, addmod("@,
    ensures
        forall|i: int|
            0 <= i < j ==> #[trigger] coeff_stored(
                run_lines(st0, flat(items.take(j)), coeff_stepper()).2,
                superset,
                sets,
                s,
                i,
            ),
    decreases j,
{
    let step = coeff_stepper();
    if j == 0 {
    } else {
        lemma_coeff_items_run(superset, sets, s, items, j - 1, st0);
        lemma_flat_step(items, j - 1);
        let st = run_lines(st0, flat(items.take(j - 1)), step);
        lemma_run_lines_append(st0, flat(items.take(j - 1)), items[j - 1], step);
        lemma_coeff_item_run(superset, sets, s, j - 1, st);
        lemma_num_coeffs_prefix(sets, s);
        lemma_num_coeffs_prefix(sets, s + 1);
        assert(sets.take(s + 1).drop_last() =~= sets.take(s));
        let m = run_lines(st0, flat(items.take(j)), step).2;
        let last = mem(coeff_ptr(sets, s, j - 1));
        assert(m == st.2.insert(
            last,
            (coeff_pairs(superset, sets, s, j - 1), seq![mu_slot(superset, sets, sets[s].rots@[j - 1])]),
        ));
        assert(num_coeffs(sets.take(s + 1)) == num_coeffs(sets.take(s)) + sets[s].rots@.len());
        assert(0x20 * (1 + num_coeffs(sets)) <= usize::MAX);
        assert forall|i: int| 0 <= i < j implies #[trigger] coeff_stored(m, superset, sets, s, i) by {
            if i != j - 1 {
                let mp = run_lines(st0, flat(items.take(j - 1)), step).2;
                assert(coeff_stored(mp, superset, sets, s, i));
                assert(mp.dom().contains(mem(coeff_ptr(sets, s, i))));
                assert(0 <= coeff_ptr(sets, s, i) <= usize::MAX);
                assert(0 <= coeff_ptr(sets, s, j - 1) <= usize::MAX);
                assert(mem(coeff_ptr(sets, s, i)) != last);
            }
        }
    }
}

/// Appends `pre`, point variable `a`, `", sub(R, "`, point variable `b`, `post`.
fn push_point_diff_line(out: &mut Vec<Line>, pre: &'static str, a: usize, b: usize, post: &'static str)
    ensures
        lines_view(final(out)@) == lines_view(old(out)@).push(point_diff_line(pre, a, b, post)),
{
    let p = vec![Piece::Text(pre), Piece::PointVar(a), Piece::Text(", sub(R, "), Piece::PointVar(b), Piece::Text(post)];
    assert(p@ =~= seq![Piece::Text(pre), Piece::PointVar(a), Piece::Text(", sub(R, "), Piece::PointVar(b), Piece::Text(post)]);
    push_plain(out, p);
}

/// The `t`-th index other than `i`.
fn exec_other_index(i: usize, t: usize) -> (j: usize)
    requires
        t < usize::MAX,
    ensures
        j == other_index(i as int, t as int),
{
    if t < i {
        t
    } else {
        t + 1
    }
}

/// The lines of the `i`-th coefficient of set `s`, whose first coefficient is number `base`.
fn coeff_item_group(
    superset: &Vec<i32>,
    sets: &Vec<RotationSet>,
    f: usize,
    s: usize,
    base: usize,
    i: usize,
) -> (out: Vec<Line>)
    requires
        static_layout_ok(superset@, sets@),
        f == free_slot(sets@),
        s < sets.len(),
        i < sets@[s as int].rots@.len(),
        base == num_coeffs(sets@.take(s as int)),
        base + sets@[s as int].rots@.len() <= num_coeffs(sets@),
    ensures
        lines_view(out@) == coeff_item_lines(superset@, sets@, s as int, i as int),
{
    let ghost ss = sets@;
    let n = superset.len();
    let set = &sets[s];
    let rots = &set.rots;
    let len = rots.len();
    assert(set == ss[s as int]);
    assert forall|m: int| 0 <= m < len implies superset@.contains(#[trigger] rots@[m]) by {
        assert(ss[s as int].rots@.contains(rots@[m]));
    }
    let ki = index_of(superset, rots[i]);
    let mut out: Vec<Line> = Vec::new();
    if len > 1 {
        let j0 = exec_other_index(i, 0);
        let kj = index_of(superset, rots[j0]);
        push_point_diff_line(&mut out, "coeff := addmod(", ki, kj, "), R)");
    } else {
        text_line(&mut out, "coeff := 1");
    }
    let ghost head = lines_view(out@);
    let ghost want = Seq::new(
        if len > 1 {
            (len - 2) as nat
        } else {
            0
        },
        |t: int|
            point_diff_line(
                "coeff := mulmod(coeff, addmod(",
                ki,
                point_var(superset@, ss, s as int, other_index(i as int, t + 1)),
                "), R), R)",
            ),
    );
    let mut t: usize = 1;
    while t + 1 < len
        invariant
            1 <= t,
            len > 1 ==> t <= len - 1,
            len <= 1 ==> t == 1,
            i < len,
            len == rots.len(),
            rots == ss[s as int].rots,
            strictly_sorted(superset@),
            forall|m: int| 0 <= m < len ==> superset@.contains(#[trigger] rots@[m]),
            ki == point_var(superset@, ss, s as int, i as int),
            want == Seq::new(
                if len > 1 {
                    (len - 2) as nat
                } else {
                    0
                },
                |t: int|
                    point_diff_line(
                        "coeff := mulmod(coeff, addmod(",
                        ki,
                        point_var(superset@, ss, s as int, other_index(i as int, t + 1)),
                        "), R), R)",
                    ),
            ),
            lines_view(out@) == head + want.take(t - 1),
        decreases len - t,
    {
        let j = exec_other_index(i, t);
        let kj = index_of(superset, rots[j]);
        push_point_diff_line(&mut out, "coeff := mulmod(coeff, addmod(", ki, kj, "), R), R)");
        assert(want.take(t as int) =~= want.take(t - 1).push(want[t - 1]));
        t += 1;
    }
    assert(want.take(t - 1) =~= want);
    proof {
        lemma_num_coeffs_prefix(ss, s as int);
    }
    let ghost mid = lines_view(out@);
    push_load_line(&mut out, "coeff := mulmod(coeff, ", mem_ptr(0x20 * (f + n + ki)), ", R)");
    push_plain(&mut out, addr_stmt("mstore(", mem_ptr(0x20 * (1 + base + i)), ", coeff)"));
    assert(lines_view(out@) =~= coeff_item_lines(superset@, ss, s as int, i as int));
    out
}

/// The lines of set `s`'s coefficients, the first of them number `base`.
fn coeff_group(superset: &Vec<i32>, sets: &Vec<RotationSet>, f: usize, s: usize, base: usize) -> (out: Vec<Line>)
    requires
        static_layout_ok(superset@, sets@),
        f == free_slot(sets@),
        s < sets.len(),
        base == num_coeffs(sets@.take(s as int)),
        base + sets@[s as int].rots@.len() <= num_coeffs(sets@),
    ensures
        lines_view(out@) == coeff_lines(superset@, sets@, s as int),
{
    let ghost ss = sets@;
    let set = &sets[s];
    let rots = &set.rots;
    let len = rots.len();
    assert(set == ss[s as int]);
    assert forall|m: int| 0 <= m < len implies superset@.contains(#[trigger] rots@[m]) by {
        assert(ss[s as int].rots@.contains(rots@[m]));
    }
    let mut out: Vec<Line> = Vec::new();
    let ghost vars = Seq::new(len as nat, |m: int| point_var_line(superset@, ss, s as int, m));
    let mut m: usize = 0;
    while m < len
        invariant
            m <= len,
            len == rots.len(),
            rots == ss[s as int].rots,
            ss == sets@,
            static_layout_ok(superset@, ss),
            f == free_slot(ss),
            forall|m: int| 0 <= m < len ==> superset@.contains(#[trigger] rots@[m]),
            vars == Seq::new(len as nat, |m: int| point_var_line(superset@, ss, s as int, m)),
            lines_view(out@) == vars.take(m as int),
        decreases len - m,
    {
        let k = index_of(superset, rots[m]);
        let p = vec![Piece::Text("let "), Piece::PointVar(k), Piece::Text(" := "), Piece::Load(mem_ptr(0x20 * (f + k)))];
        assert(p@ =~= seq![
            Piece::Text("let "),
            Piece::PointVar(point_var(superset@, ss, s as int, m as int)),
            Piece::Text(" := "),
            Piece::Load(point_slot(superset@, ss, ss[s as int].rots@[m as int])),
        ]);
        push_plain(&mut out, p);
        assert(vars.take(m + 1) =~= vars.take(m as int).push(vars[m as int]));
        m += 1;
    }
    assert(vars.take(m as int) =~= vars);
    text_line(&mut out, "let coeff");
    let ghost head = lines_view(out@);
    let ghost items = Seq::new(len as nat, |i: int| coeff_item_lines(superset@, ss, s as int, i));
    let mut i: usize = 0;
    while i < len
        invariant
            i <= len,
            len == ss[s as int].rots@.len(),
            ss == sets@,
            static_layout_ok(superset@, ss),
            f == free_slot(ss),
            s < sets.len(),
            base == num_coeffs(ss.take(s as int)),
            base + len <= num_coeffs(ss),
            items == Seq::new(len as nat, |i: int| coeff_item_lines(superset@, ss, s as int, i)),
            lines_view(out@) == head + flat(items.take(i as int)),
        decreases len - i,
    {
        proof {
            lemma_flat_step(items, i as int);
        }
        let g = coeff_item_group(superset, sets, f, s, base, i);
        append_lines(&mut out, g);
        i += 1;
    }
    assert(items.take(i as int) =~= items);
    assert(lines_view(out@) =~= coeff_lines(superset@, ss, s as int));
    out
}

// ---------------------------------------------------------------------------------------
// The normalised differences, the coefficient sums and the combined `r` evaluation.

/// A statement of `pre`, an address and `post`, as pieces.
pub open spec fn addr_stmt_view(pre: &'static str, a: Ptr, post: &'static str) -> Seq<Piece> {
    seq![Piece::Text(pre), Piece::Addr(a), Piece::Text(post)]
}

/// The lines that invert the coefficients and the first difference product together, and
/// divide every set's difference product by the first one.
pub open spec fn normalized_lines(superset: Seq<i32>, sets: Seq<RotationSet>) -> Seq<LineView> {
    let n = superset.len() as int;
    seq![
        addr_line("success := batch_invert(success, 0, ", mem(0x20 * (1 + num_coeffs(sets))), ")"),
        load_line("let diff_0_inv := ", mem(0), ""),
        addr_line("mstore(", mem(diff_ptr(n, sets, 0)), ", diff_0_inv)"),
        LineView::ForLoop(
            seq![
                addr_stmt_view("let mptr := ", mem(diff_ptr(n, sets, 1)), ""),
                addr_stmt_view("let mptr_end := ", mem(diff_ptr(n, sets, sets.len() as int)), ""),
            ],
            seq![Piece::Text("lt(mptr, mptr_end)")],
            seq![seq![Piece::Text("mptr := add(mptr, 0x20)")]],
            seq![seq![Piece::Text("mstore(mptr, mulmod(mload(mptr), diff_0_inv, R))")]],
        ),
    ]
}

/// The lines of the normalisation.
fn normalized_group(superset: &Vec<i32>, sets: &Vec<RotationSet>, f: usize) -> (out: Vec<Line>)
    requires
        static_layout_ok(superset@, sets@),
        f == free_slot(sets@),
    ensures
        lines_view(out@) == normalized_lines(superset@, sets@),
{
    let ghost ss = sets@;
    let n = superset.len();
    let ns = sets.len();
    proof {
        lemma_num_coeffs_prefix(ss, 0);
    }
    let nc = (f - 8) / 2;
    assert(nc == num_coeffs(ss));
    let mut out: Vec<Line> = Vec::new();
    push_plain(&mut out, addr_stmt("success := batch_invert(success, 0, ", mem_ptr(0x20 * (1 + nc)), ")"));
    push_load_line(&mut out, "let diff_0_inv := ", mem_ptr(0), "");
    push_plain(&mut out, addr_stmt("mstore(", mem_ptr(0x20 * (f + 2 * n + 1)), ", diff_0_inv)"));
    let init = vec![
        addr_stmt("let mptr := ", mem_ptr(0x20 * (f + 2 * n + 2)), ""),
        addr_stmt("let mptr_end := ", mem_ptr(0x20 * (f + 2 * n + 1 + ns)), ""),
    ];
    let advance = vec![text_stmt("mptr := add(mptr, 0x20)")];
    let body = vec![text_stmt("mstore(mptr, mulmod(mload(mptr), diff_0_inv, R))")];
    let cond = text_stmt("lt(mptr, mptr_end)");
    let ghost nn = n as int;
    assert(statements_view(init@) =~= seq![
        addr_stmt_view("let mptr := ", mem(diff_ptr(nn, ss, 1)), ""),
        addr_stmt_view("let mptr_end := ", mem(diff_ptr(nn, ss, ss.len() as int)), ""),
    ]);
    assert(statements_view(advance@) =~= seq![seq![Piece::Text("mptr := add(mptr, 0x20)")]]);
    assert(statements_view(body@) =~= seq![seq![Piece::Text("mstore(mptr, mulmod(mload(mptr), diff_0_inv, R))")]]);
    push_for(&mut out, init, cond, advance, body);
    assert(lines_view(out@) =~= normalized_lines(superset@, ss));
    out
}

/// The lines of set `s`'s coefficient sum.
pub open spec fn sum_lines(superset: Seq<i32>, sets: Seq<RotationSet>, s: int) -> Seq<LineView> {
    let len = sets[s].rots@.len() as int;
    seq![load_line("let sum := ", mem(coeff_ptr(sets, s, 0)), "")] + Seq::new(
        (len - 1) as nat,
        |i: int| load_line("sum := addmod(sum, ", mem(coeff_ptr(sets, s, i + 1)), ", R)"),
    ) + seq![addr_line("mstore(", mem(sum_ptr(superset.len() as int, sets, s)), ", sum)")]
}

/// The lines of set `s`'s coefficient sum, its first coefficient number `base`.
fn sum_group(superset: &Vec<i32>, sets: &Vec<RotationSet>, f: usize, s: usize, base: usize) -> (out: Vec<Line>)
    requires
        static_layout_ok(superset@, sets@),
        f == free_slot(sets@),
        s < sets.len(),
        base == num_coeffs(sets@.take(s as int)),
        base + sets@[s as int].rots@.len() <= num_coeffs(sets@),
    ensures
        lines_view(out@) == sum_lines(superset@, sets@, s as int),
{
    let ghost ss = sets@;
    let n = superset.len();
    let ns = sets.len();
    let len = sets[s].rots.len();
    assert(len > 0);
    let mut out: Vec<Line> = Vec::new();
    push_load_line(&mut out, "let sum := ", mem_ptr(0x20 * (1 + base)), "");
    let ghost head = lines_view(out@);
    let ghost want = Seq::new(
        (len - 1) as nat,
        |i: int| load_line("sum := addmod(sum, ", mem(coeff_ptr(ss, s as int, i + 1)), ", R)"),
    );
    let mut i: usize = 1;
    while i < len
        invariant
            1 <= i <= len,
            base + len <= num_coeffs(ss),
            base == num_coeffs(ss.take(s as int)),
            layout_fits(n as int, ss),
            want == Seq::new(
                (len - 1) as nat,
                |i: int| load_line("sum := addmod(sum, ", mem(coeff_ptr(ss, s as int, i + 1)), ", R)"),
            ),
            lines_view(out@) == head + want.take(i - 1),
        decreases len - i,
    {
        push_load_line(&mut out, "sum := addmod(sum, ", mem_ptr(0x20 * (1 + base + i)), ", R)");
        assert(want.take(i as int) =~= want.take(i - 1).push(want[i - 1]));
        i += 1;
    }
    assert(want.take(i - 1) =~= want);
    push_plain(&mut out, addr_stmt("mstore(", mem_ptr(0x20 * (f + 2 * n + 1 + 2 * ns + s)), ", sum)"));
    assert(lines_view(out@) =~= sum_lines(superset@, ss, s as int));
    out
}

/// The lines that invert the coefficient sums and fold the sets' `r` evaluations, each divided
/// by its sum, with powers of `nu`.
pub open spec fn r_eval_lines(superset: Seq<i32>, sets: Seq<RotationSet>) -> Seq<LineView> {
    let n = superset.len() as int;
    let ns = sets.len() as int;
    seq![
        LineView::ForLoop(
            seq![
                seq![Piece::Text("let mptr := 0x00")],
                addr_stmt_view("let mptr_end := ", mem(0x20 * ns), ""),
                addr_stmt_view("let sum_mptr := ", mem(sum_ptr(n, sets, 0)), ""),
            ],
            seq![Piece::Text("lt(mptr, mptr_end)")],
            seq![seq![Piece::Text("mptr := add(mptr, 0x20)")], seq![Piece::Text("sum_mptr := add(sum_mptr, 0x20)")]],
            seq![seq![Piece::Text("mstore(mptr, mload(sum_mptr))")]],
        ),
        addr_line("success := batch_invert(success, 0, ", mem(0x20 * ns), ")"),
        LineView::Plain(
            seq![
                Piece::Text("let r_eval := mulmod("),
                Piece::Load(mem(0x20 * (ns - 1))),
                Piece::Text(", "),
                Piece::Load(mem(r_eval_ptr(n, sets, ns - 1))),
                Piece::Text(", R)"),
            ],
        ),
        LineView::ForLoop(
            seq![
                addr_stmt_view("let sum_inv_mptr := ", mem(0x20 * (ns - 2)), ""),
                addr_stmt_view("let sum_inv_mptr_end := ", mem(0x20 * ns), ""),
                addr_stmt_view("let r_eval_mptr := ", mem(r_eval_ptr(n, sets, ns - 2)), ""),
            ],
            seq![Piece::Text("lt(sum_inv_mptr, sum_inv_mptr_end)")],
            seq![
                seq![Piece::Text("sum_inv_mptr := sub(sum_inv_mptr, 0x20)")],
                seq![Piece::Text("r_eval_mptr := sub(r_eval_mptr, 0x20)")],
            ],
            seq![
                seq![Piece::Text("r_eval := mulmod(r_eval, mload(NU_MPTR), R)")],
                seq![Piece::Text("r_eval := addmod(r_eval, mulmod(mload(sum_inv_mptr), mload(r_eval_mptr), R), R)")],
            ],
        ),
        txt("mstore(R_EVAL_MPTR, r_eval)"),
    ]
}

/// The lines of the combined `r` evaluation.
fn r_eval_group(superset: &Vec<i32>, sets: &Vec<RotationSet>, f: usize) -> (out: Vec<Line>)
    requires
        static_layout_ok(superset@, sets@),
        f == free_slot(sets@),
    ensures
        lines_view(out@) == r_eval_lines(superset@, sets@),
{
    let ghost ss = sets@;
    let n = superset.len();
    let ns = sets.len();
    let ghost nn = n as int;
    let ghost nns = ns as int;
    let mut out: Vec<Line> = Vec::new();
    let init = vec![
        text_stmt("let mptr := 0x00"),
        addr_stmt("let mptr_end := ", mem_ptr(0x20 * ns), ""),
        addr_stmt("let sum_mptr := ", mem_ptr(0x20 * (f + 2 * n + 1 + 2 * ns)), ""),
    ];
    let advance = vec![text_stmt("mptr := add(mptr, 0x20)"), text_stmt("sum_mptr := add(sum_mptr, 0x20)")];
    let body = vec![text_stmt("mstore(mptr, mload(sum_mptr))")];
    assert(statements_view(init@) =~= seq![
        seq![Piece::Text("let mptr := 0x00")],
        addr_stmt_view("let mptr_end := ", mem(0x20 * nns), ""),
        addr_stmt_view("let sum_mptr := ", mem(sum_ptr(nn, ss, 0)), ""),
    ]);
    assert(statements_view(advance@) =~= seq![seq![Piece::Text("mptr := add(mptr, 0x20)")], seq![Piece::Text("sum_mptr := add(sum_mptr, 0x20)")]]);
    assert(statements_view(body@) =~= seq![seq![Piece::Text("mstore(mptr, mload(sum_mptr))")]]);
    push_for(&mut out, init, text_stmt("lt(mptr, mptr_end)"), advance, body);
    push_plain(&mut out, addr_stmt("success := batch_invert(success, 0, ", mem_ptr(0x20 * ns), ")"));
    let p = vec![
        Piece::Text("let r_eval := mulmod("),
        Piece::Load(mem_ptr(0x20 * (ns - 1))),
        Piece::Text(", "),
        Piece::Load(mem_ptr(0x20 * (f + 2 * n + 1 + ns + (ns - 1)))),
        Piece::Text(", R)"),
    ];
    assert(p@ =~= seq![
        Piece::Text("let r_eval := mulmod("),
        Piece::Load(mem(0x20 * (nns - 1))),
        Piece::Text(", "),
        Piece::Load(mem(r_eval_ptr(nn, ss, nns - 1))),
        Piece::Text(", R)"),
    ]);
    push_plain(&mut out, p);
    let init2 = vec![
        addr_stmt("let sum_inv_mptr := ", mem_ptr(0x20 * (ns - 2)), ""),
        addr_stmt("let sum_inv_mptr_end := ", mem_ptr(0x20 * ns), ""),
        addr_stmt("let r_eval_mptr := ", mem_ptr(0x20 * (f + 2 * n + 1 + ns + (ns - 2))), ""),
    ];
    let advance2 = vec![text_stmt("sum_inv_mptr := sub(sum_inv_mptr, 0x20)"), text_stmt("r_eval_mptr := sub(r_eval_mptr, 0x20)")];
    let body2 = vec![
        text_stmt("r_eval := mulmod(r_eval, mload(NU_MPTR), R)"),
        text_stmt("r_eval := addmod(r_eval, mulmod(mload(sum_inv_mptr), mload(r_eval_mptr), R), R)"),
    ];
    assert(statements_view(init2@) =~= seq![
        addr_stmt_view("let sum_inv_mptr := ", mem(0x20 * (nns - 2)), ""),
        addr_stmt_view("let sum_inv_mptr_end := ", mem(0x20 * nns), ""),
        addr_stmt_view("let r_eval_mptr := ", mem(r_eval_ptr(nn, ss, nns - 2)), ""),
    ]);
    assert(statements_view(advance2@) =~= seq![
        seq![Piece::Text("sum_inv_mptr := sub(sum_inv_mptr, 0x20)")],
        seq![Piece::Text("r_eval_mptr := sub(r_eval_mptr, 0x20)")],
    ]);
    assert(statements_view(body2@) =~= seq![
        seq![Piece::Text("r_eval := mulmod(r_eval, mload(NU_MPTR), R)")],
        seq![Piece::Text("r_eval := addmod(r_eval, mulmod(mload(sum_inv_mptr), mload(r_eval_mptr), R), R)")],
    ]);
    push_for(&mut out, init2, text_stmt("lt(sum_inv_mptr, sum_inv_mptr_end)"), advance2, body2);
    text_line(&mut out, "mstore(R_EVAL_MPTR, r_eval)");
    assert(lines_view(out@) =~= r_eval_lines(superset@, ss));
    out
}

// ---------------------------------------------------------------------------------------
// The sets' `r` evaluations.

/// The slot `k` slots below the byte offset of `p`, in the same place.
pub open spec fn slots_below(p: Ptr, k: int) -> Ptr {
    Ptr { loc: p.loc, value: Value::Integer((p.offset() - 0x20 * k) as usize) }
}

/// The lines that fold the `e`-th evaluation of a run into `r_eval`: times `zeta` first,
/// except for the very first evaluation, then plus `coeff` times the evaluation.
pub open spec fn eval_step(first: bool, e: int, p: Ptr) -> Seq<LineView> {
    (if first && e == 0 {
        Seq::empty()
    } else {
        seq![txt("r_eval := mulmod(r_eval, zeta, R)")]
    }) + seq![load_line("r_eval := addmod(r_eval, mulmod(coeff, ", p, ", R), R)")]
}

/// The lines that fold a run of evaluations into `r_eval`: evaluation by evaluation for a
/// short run, a loop down the slots for a long one.
pub open spec fn eval_group_lines(g: Seq<Ptr>, first: bool) -> Seq<LineView> {
    if g.len() < 3 {
        flat(Seq::new(g.len(), |e: int| eval_step(first, e, g[e])))
    } else {
        seq![
            LineView::ForLoop(
                seq![
                    addr_stmt_view("let mptr := ", g[0], ""),
                    addr_stmt_view("let mptr_end := ", slots_below(g[0], g.len() as int), ""),
                ],
                seq![Piece::Text("lt(mptr_end, mptr)")],
                seq![seq![Piece::Text("mptr := sub(mptr, 0x20)")]],
                seq![
                    seq![
                        Piece::Text(
                            "r_eval := addmod(mulmod(r_eval, zeta, R), mulmod(coeff, calldataload(mptr), R), R)",
                        ),
                    ],
                ],
            ),
        ]
    }
}

/// The lines that fold the evaluations of a set of one rotation, run by run.
pub open spec fn single_eval_lines(set: RotationSet) -> Seq<LineView> {
    let gs = eval_groups(first_evals_rev(set));
    flat(Seq::new(gs.len(), |k: int| eval_group_lines(gs[k], k == 0)))
}

/// The lines that fold the evaluations of the `c`-th commitment of set `s` of several
/// rotations: each evaluation times its coefficient, then times `zeta` except for the
/// first commitment.
pub open spec fn multi_eval_step(sets: Seq<RotationSet>, s: int, c: int) -> Seq<LineView> {
    let ev = sets[s].evals@[c]@;
    Seq::new(
        ev.len(),
        |m: int|
            LineView::Plain(
                seq![
                    Piece::Text("r_eval := addmod(r_eval, mulmod("),
                    Piece::Load(mem(coeff_ptr(sets, s, m))),
                    Piece::Text(", "),
                    Piece::Load(ev[m]),
                    Piece::Text(", R), R)"),
                ],
            ),
    ) + (if c != 0 {
        seq![txt("r_eval := mulmod(r_eval, zeta, R)")]
    } else {
        Seq::empty()
    })
}

/// The lines that fold the evaluations of set `s` of several rotations, last commitment
/// first.
pub open spec fn multi_eval_lines(sets: Seq<RotationSet>, s: int) -> Seq<LineView> {
    let nc = sets[s].evals@.len() as int;
    flat(Seq::new(nc as nat, |t: int| multi_eval_step(sets, s, nc - 1 - t)))
}

/// The lines of set `s`'s `r` evaluation: its evaluations folded with powers of `zeta`,
/// times its difference product for every set but the first, stored in its slot.
pub open spec fn r_evals_lines(superset: Seq<i32>, sets: Seq<RotationSet>, s: int) -> Seq<LineView> {
    let n = superset.len() as int;
    let single = sets[s].rots@.len() == 1;
    (if single {
        seq![load_line("let coeff := ", mem(coeff_ptr(sets, s, 0)), "")]
    } else {
        Seq::empty()
    }) + seq![txt("let zeta := mload(ZETA_MPTR)"), txt("let r_eval := 0")] + (if single {
        single_eval_lines(sets[s])
    } else {
        multi_eval_lines(sets, s)
    }) + (if s != 0 {
        seq![load_line("r_eval := mulmod(r_eval, ", mem(diff_ptr(n, sets, s)), ", R)")]
    } else {
        Seq::empty()
    }) + seq![addr_line("mstore(", mem(r_eval_ptr(n, sets, s)), ", r_eval)")]
}

/// A run of three evaluations or more of a set of one rotation becomes one loop that walks
/// down one slot at a time from the run's first (highest) evaluation to the slot just below
/// its last, so the slots it reads are exactly the run's evaluations.
pub proof fn lemma_long_eval_run_loop(set: RotationSet, k: int, first: bool)
    requires
        0 <= k < eval_groups(first_evals_rev(set)).len(),
        eval_groups(first_evals_rev(set))[k].len() >= 3,
    ensures
        ({
            let g = eval_groups(first_evals_rev(set))[k];
            let below_last = Ptr {
                loc: g[0].loc,
                value: Value::Integer((g[g.len() - 1].offset() - 0x20) as usize),
            };
            &&& eval_group_lines(g, first).len() == 1
            &&& eval_group_lines(g, first)[0] matches LineView::ForLoop(init, cond, advance, _) && init
                == seq![
                addr_stmt_view("let mptr := ", g[0], ""),
                addr_stmt_view("let mptr_end := ", below_last, ""),
            ] && cond == seq![Piece::Text("lt(mptr_end, mptr)")] && advance == seq![
                seq![Piece::Text("mptr := sub(mptr, 0x20)")],
            ]
            &&& forall|i: int|
                0 <= i < g.len() ==> (#[trigger] g[i]).loc == g[0].loc && g[i].is_integer()
                    && g[i].offset() == g[0].offset() - 0x20 * i
        }),
{
    lemma_long_eval_run_bounds(first_evals_rev(set), k);
}

/// A run of three commitments or more becomes one loop that walks down one point (two slots)
/// at a time from the run's first (highest) commitment to the point just below its last, so
/// the points it reads are exactly the run's commitments.
pub proof fn lemma_long_comm_run_loop(set: RotationSet, k: int, first: bool)
    requires
        set.comms@.len() > 0,
        0 <= k < comm_groups(set).len(),
        comm_groups(set)[k].len() >= 3,
    ensures
        ({
            let g = comm_groups(set)[k];
            let below_last = Ptr {
                loc: g[0].x.loc,
                value: Value::Integer((g[g.len() - 1].x.offset() - 0x40) as usize),
            };
            &&& comm_group_lines(g, first).len() == 1
            &&& comm_group_lines(g, first)[0] matches LineView::ForLoop(init, cond, advance, _) && init
                == seq![
                addr_stmt_view("let mptr := ", g[0].x, ""),
                addr_stmt_view("let mptr_end := ", below_last, ""),
            ] && cond == seq![Piece::Text("lt(mptr_end, mptr)")] && advance == seq![
                seq![Piece::Text("mptr := sub(mptr, 0x40)")],
            ]
            &&& forall|i: int|
                0 <= i < g.len() ==> (#[trigger] g[i]).x.loc == g[0].x.loc && g[i].x.is_integer()
                    && g[i].x.offset() == g[0].x.offset() - 0x40 * i
        }),
{
    lemma_long_comm_run_bounds(set, k);
}

/// Whether every long run of the set's first evaluations starts at a byte offset no lower
/// than its length in slots.
pub open spec fn eval_runs_fit(set: RotationSet) -> bool {
    let gs = eval_groups(first_evals_rev(set));
    forall|k: int|
        0 <= k < gs.len() && (#[trigger] gs[k]).len() >= 3 ==> gs[k][0].is_integer() && 0x20 * gs[k].len()
            <= gs[k][0].offset()
}

/// The lines that fold a run of evaluations.
fn eval_run_of(g: &Vec<Ptr>, first: bool) -> (out: Vec<Line>)
    requires
        g.len() >= 3 ==> g@[0].is_integer() && 0x20 * g.len() <= g@[0].offset(),
    ensures
        lines_view(out@) == eval_group_lines(g@, first),
{
    let mut out: Vec<Line> = Vec::new();
    let len = g.len();
    if len < 3 {
        let ghost steps = Seq::new(len as nat, |e: int| eval_step(first, e, g@[e]));
        let mut e: usize = 0;
        while e < len
            invariant
                e <= len,
                len == g.len(),
                steps == Seq::new(len as nat, |e: int| eval_step(first, e, g@[e])),
                lines_view(out@) == flat(steps.take(e as int)),
            decreases len - e,
        {
            proof {
                lemma_flat_step(steps, e as int);
            }
            let ghost before = lines_view(out@);
            if !(first && e == 0) {
                text_line(&mut out, "r_eval := mulmod(r_eval, zeta, R)");
            }
            push_load_line(&mut out, "r_eval := addmod(r_eval, mulmod(coeff, ", g[e], ", R), R)");
            assert(lines_view(out@) =~= before + eval_step(first, e as int, g@[e as int]));
            e += 1;
        }
        assert(steps.take(e as int) =~= steps);
    } else {
        let p0 = g[0];
        let off = match p0.value {
            Value::Integer(a) => a,
            Value::Identifier(_) => 0,
        };
        let below = Ptr { loc: p0.loc, value: Value::Integer(off - 0x20 * len) };
        let init = vec![addr_stmt("let mptr := ", p0, ""), addr_stmt("let mptr_end := ", below, "")];
        let advance = vec![text_stmt("mptr := sub(mptr, 0x20)")];
        let body = vec![
            text_stmt(
                "r_eval := addmod(mulmod(r_eval, zeta, R), mulmod(coeff, calldataload(mptr), R), R)",
            ),
        ];
        assert(statements_view(init@) =~= seq![
            addr_stmt_view("let mptr := ", g@[0], ""),
            addr_stmt_view("let mptr_end := ", slots_below(g@[0], len as int), ""),
        ]);
        assert(statements_view(advance@) =~= seq![seq![Piece::Text("mptr := sub(mptr, 0x20)")]]);
        assert(statements_view(body@) =~= seq![
            seq![
                Piece::Text(
                    "r_eval := addmod(mulmod(r_eval, zeta, R), mulmod(coeff, calldataload(mptr), R), R)",
                ),
            ],
        ]);
        push_for(&mut out, init, text_stmt("lt(mptr_end, mptr)"), advance, body);
        assert(lines_view(out@) =~= eval_group_lines(g@, first));
    }
    out
}

/// The lines that fold the evaluations of a set of one rotation.
fn single_eval_group(set: &RotationSet) -> (out: Vec<Line>)
    requires
        forall|c: int| 0 <= c < set.evals@.len() ==> (#[trigger] set.evals@[c])@.len() > 0,
        eval_runs_fit(*set),
    ensures
        lines_view(out@) == single_eval_lines(*set),
{
    let xs = first_evals_rev_of(set);
    let gs = eval_groups_of(&xs);
    let ghost egs = eval_groups(first_evals_rev(*set));
    assert(crate::evals::groups_view(gs@) == egs);
    assert(gs@.len() == egs.len());
    let ghost parts = Seq::new(egs.len(), |k: int| eval_group_lines(egs[k], k == 0));
    let mut out: Vec<Line> = Vec::new();
    let mut k: usize = 0;
    while k < gs.len()
        invariant
            k <= gs.len(),
            gs@.len() == egs.len(),
            crate::evals::groups_view(gs@) == egs,
            egs == eval_groups(first_evals_rev(*set)),
            eval_runs_fit(*set),
            parts == Seq::new(egs.len(), |k: int| eval_group_lines(egs[k], k == 0)),
            lines_view(out@) == flat(parts.take(k as int)),
        decreases gs.len() - k,
    {
        proof {
            lemma_flat_step(parts, k as int);
        }
        assert(gs@[k as int]@ == crate::evals::groups_view(gs@)[k as int]);
        assert(gs@[k as int]@ == egs[k as int]);
        let g = eval_run_of(&gs[k], k == 0);
        append_lines(&mut out, g);
        k += 1;
    }
    assert(parts.take(k as int) =~= parts);
    out
}

/// The lines that fold the evaluations of set `s` of several rotations, its first coefficient
/// number `base`.
fn multi_eval_group(sets: &Vec<RotationSet>, s: usize, base: usize) -> (out: Vec<Line>)
    requires
        s < sets.len(),
        base == num_coeffs(sets@.take(s as int)),
        0x20 * (1 + base + sets@[s as int].rots@.len()) <= usize::MAX,
        forall|c: int|
            0 <= c < sets@[s as int].evals@.len() ==> (#[trigger] sets@[s as int].evals@[c])@.len()
                == sets@[s as int].rots@.len(),
    ensures
        lines_view(out@) == multi_eval_lines(sets@, s as int),
{
    let ghost ss = sets@;
    let set = &sets[s];
    let nc = set.evals.len();
    let ghost parts = Seq::new(nc as nat, |t: int| multi_eval_step(ss, s as int, nc - 1 - t));
    let mut out: Vec<Line> = Vec::new();
    let mut t: usize = 0;
    while t < nc
        invariant
            t <= nc,
            set == ss[s as int],
            ss == sets@,
            nc == set.evals@.len(),
            base == num_coeffs(ss.take(s as int)),
            0x20 * (1 + base + set.rots@.len()) <= usize::MAX,
            forall|c: int| 0 <= c < set.evals@.len() ==> (#[trigger] set.evals@[c])@.len() == set.rots@.len(),
            parts == Seq::new(nc as nat, |t: int| multi_eval_step(ss, s as int, nc - 1 - t)),
            lines_view(out@) == flat(parts.take(t as int)),
        decreases nc - t,
    {
        proof {
            lemma_flat_step(parts, t as int);
        }
        let c = nc - 1 - t;
        let ev = &set.evals[c];
        let ghost before = lines_view(out@);
        let ghost want = Seq::new(
            ev@.len(),
            |m: int|
                LineView::Plain(
                    seq![
                        Piece::Text("r_eval := addmod(r_eval, mulmod("),
                        Piece::Load(mem(coeff_ptr(ss, s as int, m))),
                        Piece::Text(", "),
                        Piece::Load(ev@[m]),
                        Piece::Text(", R), R)"),
                    ],
                ),
        );
        assert(ev@.len() == set.rots@.len());
        let mut m: usize = 0;
        while m < ev.len()
            invariant
                m <= ev.len(),
                ev.len() == set.rots@.len(),
                0x20 * (1 + base + set.rots@.len()) <= usize::MAX,
                base == num_coeffs(ss.take(s as int)),
                want == Seq::new(
                    ev@.len(),
                    |m: int|
                        LineView::Plain(
                            seq![
                                Piece::Text("r_eval := addmod(r_eval, mulmod("),
                                Piece::Load(mem(coeff_ptr(ss, s as int, m))),
                                Piece::Text(", "),
                                Piece::Load(ev@[m]),
                                Piece::Text(", R), R)"),
                            ],
                        ),
                ),
                lines_view(out@) == before + want.take(m as int),
            decreases ev.len() - m,
        {
            let p = vec![
                Piece::Text("r_eval := addmod(r_eval, mulmod("),
                Piece::Load(mem_ptr(0x20 * (1 + base + m))),
                Piece::Text(", "),
                Piece::Load(ev[m]),
                Piece::Text(", R), R)"),
            ];
            assert(p@ =~= seq![
                Piece::Text("r_eval := addmod(r_eval, mulmod("),
                Piece::Load(mem(coeff_ptr(ss, s as int, m as int))),
                Piece::Text(", "),
                Piece::Load(ev@[m as int]),
                Piece::Text(", R), R)"),
            ]);
            push_plain(&mut out, p);
            assert(want.take(m + 1) =~= want.take(m as int).push(want[m as int]));
            m += 1;
        }
        assert(want.take(m as int) =~= want);
        if c != 0 {
            text_line(&mut out, "r_eval := mulmod(r_eval, zeta, R)");
        }
        assert(parts[t as int] == multi_eval_step(ss, s as int, c as int));
        assert(lines_view(out@) =~= before + multi_eval_step(ss, s as int, c as int));
        t += 1;
    }
    assert(parts.take(t as int) =~= parts);
    out
}

/// The lines of set `s`'s `r` evaluation, its first coefficient number `base`.
fn r_evals_group(superset: &Vec<i32>, sets: &Vec<RotationSet>, f: usize, s: usize, base: usize) -> (out: Vec<Line>)
    requires
        static_layout_ok(superset@, sets@),
        f == free_slot(sets@),
        s < sets.len(),
        base == num_coeffs(sets@.take(s as int)),
        base + sets@[s as int].rots@.len() <= num_coeffs(sets@),
        forall|c: int|
            0 <= c < sets@[s as int].evals@.len() ==> (#[trigger] sets@[s as int].evals@[c])@.len()
                == sets@[s as int].rots@.len(),
        sets@[s as int].rots@.len() == 1 ==> eval_runs_fit(sets@[s as int]),
    ensures
        lines_view(out@) == r_evals_lines(superset@, sets@, s as int),
{
    let ghost ss = sets@;
    let n = superset.len();
    let ns = sets.len();
    let set = &sets[s];
    assert(set == ss[s as int]);
    assert(set.rots@.len() > 0);
    let single = set.rots.len() == 1;
    let mut out: Vec<Line> = Vec::new();
    if single {
        push_load_line(&mut out, "let coeff := ", mem_ptr(0x20 * (1 + base)), "");
    }
    text_line(&mut out, "let zeta := mload(ZETA_MPTR)");
    text_line(&mut out, "let r_eval := 0");
    if single {
        assert forall|c: int| 0 <= c < set.evals@.len() implies (#[trigger] set.evals@[c])@.len() > 0 by {
            assert(ss[s as int].evals@[c]@.len() == ss[s as int].rots@.len());
        }
        let g = single_eval_group(set);
        append_lines(&mut out, g);
    } else {
        let g = multi_eval_group(sets, s, base);
        append_lines(&mut out, g);
    }
    if s != 0 {
        push_load_line(&mut out, "r_eval := mulmod(r_eval, ", mem_ptr(0x20 * (f + 2 * n + 1 + s)), ", R)");
    }
    push_plain(&mut out, addr_stmt("mstore(", mem_ptr(0x20 * (f + 2 * n + 1 + ns + s)), ", r_eval)"));
    assert(lines_view(out@) =~= r_evals_lines(superset@, ss, s as int));
    out
}

// ---------------------------------------------------------------------------------------
// The pairing input.

/// The accumulator's `x` slot: the first set's at 0x00, the others' at 0x80.
pub open spec fn acc_x(first: bool) -> Ptr {
    mem(if first { 0 } else { 0x80 })
}

/// The accumulator's `y` slot, the slot after its `x`.
pub open spec fn acc_y(first: bool) -> Ptr {
    mem(if first { 0x20 } else { 0xa0 })
}

/// The statement that multiplies the accumulator by `zeta`.
pub open spec fn ec_mul_zeta(first: bool) -> Seq<Piece> {
    if first {
        seq![Piece::Text("success := ec_mul_acc(success, mload(ZETA_MPTR))")]
    } else {
        seq![Piece::Text("success := ec_mul_tmp(success, mload(ZETA_MPTR))")]
    }
}

/// The statement that adds the point with coordinates `x` and `y` to the accumulator.
pub open spec fn ec_add_point(first: bool, x: Piece, y: Piece) -> Seq<Piece> {
    seq![
        Piece::Text(if first { "success := ec_add_acc(success, " } else { "success := ec_add_tmp(success, " }),
        x,
        Piece::Text(", "),
        y,
        Piece::Text(")"),
    ]
}

/// The lines that fold the `i`-th commitment of a short run into the accumulator.
pub open spec fn comm_step(first: bool, c: EcPoint) -> Seq<LineView> {
    seq![
        LineView::Plain(ec_mul_zeta(first)),
        LineView::Plain(ec_add_point(first, Piece::Load(c.x), Piece::Load(c.y))),
    ]
}

/// The lines that fold a run of commitments into the accumulator: one by one for a short run,
/// a loop down the slots for a long one.
pub open spec fn comm_group_lines(g: Seq<EcPoint>, first: bool) -> Seq<LineView> {
    if g.len() < 3 {
        flat(Seq::new(g.len(), |i: int| comm_step(first, g[i])))
    } else {
        seq![
            LineView::ForLoop(
                seq![
                    addr_stmt_view("let mptr := ", g[0].x, ""),
                    addr_stmt_view("let mptr_end := ", slots_below(g[0].x, 2 * g.len() as int), ""),
                ],
                seq![Piece::Text("lt(mptr_end, mptr)")],
                seq![seq![Piece::Text("mptr := sub(mptr, 0x40)")]],
                seq![
                    ec_mul_zeta(first),
                    ec_add_point(
                        first,
                        Piece::LoadAt(g[0].x.loc, "mptr"),
                        Piece::LoadAt(g[0].x.loc, "add(mptr, 0x20)"),
                    ),
                ],
            ),
        ]
    }
}

/// The lines of set `s`'s part of the pairing input: its last commitment, then the others
/// folded in with powers of `zeta`; for every set but the first, the result times `nu` and
/// its difference product added to the first set's accumulator, and `nu` stepped but after
/// the last set.
pub open spec fn pairing_set_lines(superset: Seq<i32>, sets: Seq<RotationSet>, s: int) -> Seq<LineView> {
    let first = s == 0;
    let last = sets[s].comms@.last();
    let gs = comm_groups(sets[s]);
    seq![
        LineView::Plain(
            seq![Piece::Text("mstore("), Piece::Addr(acc_x(first)), Piece::Text(", "), Piece::Load(last.x), Piece::Text(")")],
        ),
        LineView::Plain(
            seq![Piece::Text("mstore("), Piece::Addr(acc_y(first)), Piece::Text(", "), Piece::Load(last.y), Piece::Text(")")],
        ),
    ] + flat(Seq::new(gs.len(), |k: int| comm_group_lines(gs[k], first))) + (if !first {
        seq![
            load_line("success := ec_mul_tmp(success, mulmod(nu, ", mem(diff_ptr(superset.len() as int, sets, s)), ", R))"),
            txt("success := ec_add_acc(success, mload(0x80), mload(0xa0))"),
        ] + (if s != sets.len() - 1 {
            seq![txt("nu := mulmod(nu, mload(NU_MPTR), R)")]
        } else {
            Seq::empty()
        })
    } else {
        Seq::empty()
    })
}

/// The slot at byte `a` of calldata.
pub open spec fn cd(a: int) -> Ptr {
    Ptr { loc: Location::Calldata, value: Value::Integer(a as usize) }
}

/// The closing lines of the pairing input: the `r` evaluation times the generator, `W` times
/// the vanishing value and `W'` times `mu` folded in, and the two pairing points stored.
pub open spec fn pairing_tail(superset: Seq<i32>, sets: Seq<RotationSet>, w: int) -> Seq<LineView> {
    seq![
        txt("mstore(0x80, mload(G1_X_MPTR))"),
        txt("mstore(0xa0, mload(G1_Y_MPTR))"),
        txt("success := ec_mul_tmp(success, sub(R, mload(R_EVAL_MPTR)))"),
        txt("success := ec_add_acc(success, mload(0x80), mload(0xa0))"),
        load_line("mstore(0x80, ", cd(w), ")"),
        load_line("mstore(0xa0, ", cd(w + 0x20), ")"),
        load_line("success := ec_mul_tmp(success, sub(R, ", mem(vanishing_ptr(superset.len() as int, sets)), "))"),
        txt("success := ec_add_acc(success, mload(0x80), mload(0xa0))"),
        load_line("mstore(0x80, ", cd(w + 0x40), ")"),
        load_line("mstore(0xa0, ", cd(w + 0x60), ")"),
        txt("success := ec_mul_tmp(success, mload(MU_MPTR))"),
        txt("success := ec_add_acc(success, mload(0x80), mload(0xa0))"),
        txt("mstore(PAIRING_LHS_X_MPTR, mload(0x00))"),
        txt("mstore(PAIRING_LHS_Y_MPTR, mload(0x20))"),
        load_line("mstore(PAIRING_RHS_X_MPTR, ", cd(w + 0x40), ")"),
        load_line("mstore(PAIRING_RHS_Y_MPTR, ", cd(w + 0x60), ")"),
    ]
}

/// The lines that compute the pairing input, `W` lying at byte `w` of calldata.
pub open spec fn pairing_lines(superset: Seq<i32>, sets: Seq<RotationSet>, w: int) -> Seq<LineView> {
    seq![txt("let nu := mload(NU_MPTR)")] + flat(
        Seq::new(sets.len(), |s: int| pairing_set_lines(superset, sets, s)),
    ) + pairing_tail(superset, sets, w)
}

/// Whether every long run of the set's commitments starts at a byte offset no lower than its
/// length in pairs of slots.
pub open spec fn comm_runs_fit(set: RotationSet) -> bool {
    let gs = comm_groups(set);
    forall|k: int|
        0 <= k < gs.len() && (#[trigger] gs[k]).len() >= 3 ==> gs[k][0].x.is_integer() && 0x40 * gs[k].len()
            <= gs[k][0].x.offset()
}

/// Appends the addition of the point `(x, y)` to the accumulator.
fn push_ec_add(out: &mut Vec<Line>, first: bool, x: Piece, y: Piece)
    ensures
        lines_view(final(out)@) == lines_view(old(out)@).push(LineView::Plain(ec_add_point(first, x, y))),
{
    let pre = if first { "success := ec_add_acc(success, " } else { "success := ec_add_tmp(success, " };
    let p = vec![Piece::Text(pre), x, Piece::Text(", "), y, Piece::Text(")")];
    assert(p@ =~= ec_add_point(first, x, y));
    push_plain(out, p);
}

/// The multiplication of the accumulator by `zeta`.
fn ec_mul_stmt(first: bool) -> (p: Vec<Piece>)
    ensures
        p@ == ec_mul_zeta(first),
{
    if first {
        text_stmt("success := ec_mul_acc(success, mload(ZETA_MPTR))")
    } else {
        text_stmt("success := ec_mul_tmp(success, mload(ZETA_MPTR))")
    }
}

/// The lines that fold a run of commitments.
fn comm_run_of(g: &Vec<EcPoint>, first: bool) -> (out: Vec<Line>)
    requires
        g.len() >= 3 ==> g@[0].x.is_integer() && 0x40 * g.len() <= g@[0].x.offset(),
    ensures
        lines_view(out@) == comm_group_lines(g@, first),
{
    let mut out: Vec<Line> = Vec::new();
    let len = g.len();
    if len < 3 {
        let ghost steps = Seq::new(len as nat, |i: int| comm_step(first, g@[i]));
        let mut i: usize = 0;
        while i < len
            invariant
                i <= len,
                len == g.len(),
                steps == Seq::new(len as nat, |i: int| comm_step(first, g@[i])),
                lines_view(out@) == flat(steps.take(i as int)),
            decreases len - i,
        {
            proof {
                lemma_flat_step(steps, i as int);
            }
            let ghost before = lines_view(out@);
            push_plain(&mut out, ec_mul_stmt(first));
            push_ec_add(&mut out, first, Piece::Load(g[i].x), Piece::Load(g[i].y));
            assert(lines_view(out@) =~= before + comm_step(first, g@[i as int]));
            i += 1;
        }
        assert(steps.take(i as int) =~= steps);
    } else {
        let p0 = g[0].x;
        let off = match p0.value {
            Value::Integer(a) => a,
            Value::Identifier(_) => 0,
        };
        let below = Ptr { loc: p0.loc, value: Value::Integer(off - 0x40 * len) };
        let init = vec![addr_stmt("let mptr := ", p0, ""), addr_stmt("let mptr_end := ", below, "")];
        let advance = vec![text_stmt("mptr := sub(mptr, 0x40)")];
        let pre = if first { "success := ec_add_acc(success, " } else { "success := ec_add_tmp(success, " };
        let add = vec![
            Piece::Text(pre),
            Piece::LoadAt(p0.loc, "mptr"),
            Piece::Text(", "),
            Piece::LoadAt(p0.loc, "add(mptr, 0x20)"),
            Piece::Text(")"),
        ];
        let body = vec![ec_mul_stmt(first), add];
        assert(statements_view(init@) =~= seq![
            addr_stmt_view("let mptr := ", g@[0].x, ""),
            addr_stmt_view("let mptr_end := ", slots_below(g@[0].x, 2 * len as int), ""),
        ]);
        assert(statements_view(advance@) =~= seq![seq![Piece::Text("mptr := sub(mptr, 0x40)")]]);
        assert(statements_view(body@) =~= seq![
            ec_mul_zeta(first),
            ec_add_point(first, Piece::LoadAt(g@[0].x.loc, "mptr"), Piece::LoadAt(g@[0].x.loc, "add(mptr, 0x20)")),
        ]);
        push_for(&mut out, init, text_stmt("lt(mptr_end, mptr)"), advance, body);
        assert(lines_view(out@) =~= comm_group_lines(g@, first));
    }
    out
}

/// The lines of set `s`'s part of the pairing input.
fn pairing_set_group(superset: &Vec<i32>, sets: &Vec<RotationSet>, f: usize, s: usize) -> (out: Vec<Line>)
    requires
        static_layout_ok(superset@, sets@),
        f == free_slot(sets@),
        s < sets.len(),
        sets@[s as int].comms@.len() > 0,
        comm_runs_fit(sets@[s as int]),
    ensures
        lines_view(out@) == pairing_set_lines(superset@, sets@, s as int),
{
    let ghost ss = sets@;
    let n = superset.len();
    let ns = sets.len();
    let set = &sets[s];
    assert(set == ss[s as int]);
    let first = s == 0;
    let last = set.comms[set.comms.len() - 1];
    let ax = if first { mem_ptr(0) } else { mem_ptr(0x80) };
    let ay = if first { mem_ptr(0x20) } else { mem_ptr(0xa0) };
    let mut out: Vec<Line> = Vec::new();
    let px = vec![Piece::Text("mstore("), Piece::Addr(ax), Piece::Text(", "), Piece::Load(last.x), Piece::Text(")")];
    let py = vec![Piece::Text("mstore("), Piece::Addr(ay), Piece::Text(", "), Piece::Load(last.y), Piece::Text(")")];
    assert(px@ =~= seq![Piece::Text("mstore("), Piece::Addr(acc_x(first)), Piece::Text(", "), Piece::Load(set.comms@.last().x), Piece::Text(")")]);
    assert(py@ =~= seq![Piece::Text("mstore("), Piece::Addr(acc_y(first)), Piece::Text(", "), Piece::Load(set.comms@.last().y), Piece::Text(")")]);
    push_plain(&mut out, px);
    push_plain(&mut out, py);
    let gs = comm_groups_of(set);
    let ghost cgs = comm_groups(*set);
    assert(comm_groups_view(gs@) == cgs);
    assert(gs@.len() == cgs.len());
    let ghost head = lines_view(out@);
    let ghost parts = Seq::new(cgs.len(), |k: int| comm_group_lines(cgs[k], first));
    let mut k: usize = 0;
    while k < gs.len()
        invariant
            k <= gs.len(),
            gs@.len() == cgs.len(),
            comm_groups_view(gs@) == cgs,
            cgs == comm_groups(*set),
            comm_runs_fit(*set),
            parts == Seq::new(cgs.len(), |k: int| comm_group_lines(cgs[k], first)),
            lines_view(out@) == head + flat(parts.take(k as int)),
        decreases gs.len() - k,
    {
        proof {
            lemma_flat_step(parts, k as int);
        }
        assert(gs@[k as int]@ == comm_groups_view(gs@)[k as int]);
        assert(gs@[k as int]@ == cgs[k as int]);
        let g = comm_run_of(&gs[k], first);
        append_lines(&mut out, g);
        k += 1;
    }
    assert(parts.take(k as int) =~= parts);
    if !first {
        push_load_line(&mut out, "success := ec_mul_tmp(success, mulmod(nu, ", mem_ptr(0x20 * (f + 2 * n + 1 + s)), ", R))");
        text_line(&mut out, "success := ec_add_acc(success, mload(0x80), mload(0xa0))");
        if s != ns - 1 {
            text_line(&mut out, "nu := mulmod(nu, mload(NU_MPTR), R)");
        }
    }
    assert(lines_view(out@) =~= pairing_set_lines(superset@, ss, s as int));
    out
}

/// The calldata slot at byte `a`.
fn cd_ptr(a: usize) -> (p: Ptr)
    ensures
        p == cd(a as int),
{
    Ptr { loc: Location::Calldata, value: Value::Integer(a) }
}

/// The pairing input's lines, `W` lying at byte `w` of calldata.
fn pairing_group(superset: &Vec<i32>, sets: &Vec<RotationSet>, f: usize, w: usize) -> (out: Vec<Line>)
    requires
        static_layout_ok(superset@, sets@),
        f == free_slot(sets@),
        w + 0x60 <= usize::MAX,
        forall|s: int| 0 <= s < sets@.len() ==> (#[trigger] sets@[s]).comms@.len() > 0 && comm_runs_fit(sets@[s]),
    ensures
        lines_view(out@) == pairing_lines(superset@, sets@, w as int),
{
    let ghost ss = sets@;
    let n = superset.len();
    let mut out: Vec<Line> = Vec::new();
    text_line(&mut out, "let nu := mload(NU_MPTR)");
    let ghost head = lines_view(out@);
    let ghost parts = Seq::new(ss.len(), |s: int| pairing_set_lines(superset@, ss, s));
    let mut s: usize = 0;
    while s < sets.len()
        invariant
            s <= sets.len(),
            ss == sets@,
            static_layout_ok(superset@, ss),
            f == free_slot(ss),
            forall|s: int| 0 <= s < ss.len() ==> (#[trigger] ss[s]).comms@.len() > 0 && comm_runs_fit(ss[s]),
            parts == Seq::new(ss.len(), |s: int| pairing_set_lines(superset@, ss, s)),
            lines_view(out@) == head + flat(parts.take(s as int)),
        decreases sets.len() - s,
    {
        proof {
            lemma_flat_step(parts, s as int);
        }
        assert(ss[s as int].comms@.len() > 0 && comm_runs_fit(ss[s as int]));
        let g = pairing_set_group(superset, sets, f, s);
        append_lines(&mut out, g);
        s += 1;
    }
    assert(parts.take(s as int) =~= parts);
    let ghost mid = lines_view(out@);
    text_line(&mut out, "mstore(0x80, mload(G1_X_MPTR))");
    text_line(&mut out, "mstore(0xa0, mload(G1_Y_MPTR))");
    text_line(&mut out, "success := ec_mul_tmp(success, sub(R, mload(R_EVAL_MPTR)))");
    text_line(&mut out, "success := ec_add_acc(success, mload(0x80), mload(0xa0))");
    push_load_line(&mut out, "mstore(0x80, ", cd_ptr(w), ")");
    push_load_line(&mut out, "mstore(0xa0, ", cd_ptr(w + 0x20), ")");
    push_load_line(&mut out, "success := ec_mul_tmp(success, sub(R, ", mem_ptr(0x20 * (f + 2 * n)), "))");
    text_line(&mut out, "success := ec_add_acc(success, mload(0x80), mload(0xa0))");
    push_load_line(&mut out, "mstore(0x80, ", cd_ptr(w + 0x40), ")");
    push_load_line(&mut out, "mstore(0xa0, ", cd_ptr(w + 0x60), ")");
    text_line(&mut out, "success := ec_mul_tmp(success, mload(MU_MPTR))");
    text_line(&mut out, "success := ec_add_acc(success, mload(0x80), mload(0xa0))");
    text_line(&mut out, "mstore(PAIRING_LHS_X_MPTR, mload(0x00))");
    text_line(&mut out, "mstore(PAIRING_LHS_Y_MPTR, mload(0x20))");
    push_load_line(&mut out, "mstore(PAIRING_RHS_X_MPTR, ", cd_ptr(w + 0x40), ")");
    push_load_line(&mut out, "mstore(PAIRING_RHS_Y_MPTR, ", cd_ptr(w + 0x60), ")");
    assert(lines_view(out@) =~= mid + pairing_tail(superset@, ss, w as int));
    out
}

// ---------------------------------------------------------------------------------------
// The whole opening computation.

/// Whether the rotations and sets suit the opening computation's lines, `W` lying at byte `w`
/// of calldata: the layout suits them, every set has a commitment and, for each commitment,
/// an evaluation per rotation, and every long run of evaluations or commitments starts no
/// lower than its length.
pub open spec fn static_encodable(superset: Seq<i32>, sets: Seq<RotationSet>, w: int) -> bool {
    &&& static_layout_ok(superset, sets)
    &&& 0 <= w
    &&& w + 0x60 <= usize::MAX
    &&& forall|s: int| 0 <= s < sets.len() ==> (#[trigger] sets[s]).comms@.len() > 0
    &&& forall|s: int, c: int|
        0 <= s < sets.len() && 0 <= c < sets[s].evals@.len() ==> (#[trigger] sets[s].evals@[c])@.len()
            == sets[s].rots@.len()
    &&& forall|s: int| 0 <= s < sets.len() && (#[trigger] sets[s]).rots@.len() == 1 ==> eval_runs_fit(sets[s])
    &&& forall|s: int| 0 <= s < sets.len() ==> comm_runs_fit(#[trigger] sets[s])
}

/// The opening computation's groups of lines, `W` lying at byte `w` of calldata: the points,
/// the vanishing value and differences, each set's coefficients, their normalisation, each
/// set's `r` evaluation, each set's coefficient sum, the combined `r` evaluation and the
/// pairing input.
pub open spec fn static_lines(superset: Seq<i32>, sets: Seq<RotationSet>, w: int) -> Seq<Seq<LineView>> {
    seq![point_lines(superset, sets), vanishing_lines(superset, sets)] + Seq::new(
        sets.len(),
        |s: int| coeff_lines(superset, sets, s),
    ) + seq![normalized_lines(superset, sets)] + Seq::new(
        sets.len(),
        |s: int| r_evals_lines(superset, sets, s),
    ) + Seq::new(sets.len(), |s: int| sum_lines(superset, sets, s)) + seq![
        r_eval_lines(superset, sets),
        pairing_lines(superset, sets, w),
    ]
}

/// The running coefficient count steps by each set's rotations, within the total.
proof fn lemma_coeffs_step(sets: Seq<RotationSet>, s: int)
    requires
        0 <= s < sets.len(),
    ensures
        num_coeffs(sets.take(s + 1)) == num_coeffs(sets.take(s)) + sets[s].rots@.len(),
        num_coeffs(sets.take(s + 1)) <= num_coeffs(sets),
{
    assert(sets.take(s + 1).drop_last() =~= sets.take(s));
    lemma_num_coeffs_prefix(sets, s + 1);
}

/// The groups of lines of the BDFG21 opening computation for the opened rotations and the
/// rotation sets, `W` lying at byte `w_cptr` of calldata.
pub fn static_computations(superset: &Vec<i32>, sets: &Vec<RotationSet>, w_cptr: usize) -> (lines: Vec<Vec<Line>>)
    requires
        static_encodable(superset@, sets@, w_cptr as int),
    ensures
        groups_view(lines@) == static_lines(superset@, sets@, w_cptr as int),
{
    let ghost ss = sets@;
    let ghost sup = superset@;
    let f = free_slot_of(superset, sets);
    let ns = sets.len();
    let mut out: Vec<Vec<Line>> = Vec::new();
    push_group(&mut out, point_computation_lines(superset, sets));
    push_group(&mut out, vanishing_computation_lines(superset, sets));
    let ghost p0 = groups_view(out@);
    let ghost coeffs = Seq::new(ss.len(), |s: int| coeff_lines(sup, ss, s));
    let mut s: usize = 0;
    let mut base: usize = 0;
    assert(ss.take(0) =~= Seq::<RotationSet>::empty());
    while s < ns
        invariant
            s <= ns,
            ns == ss.len(),
            ss == sets@,
            sup == superset@,
            static_encodable(sup, ss, w_cptr as int),
            f == free_slot(ss),
            base == num_coeffs(ss.take(s as int)),
            coeffs == Seq::new(ss.len(), |s: int| coeff_lines(sup, ss, s)),
            groups_view(out@) == p0 + coeffs.take(s as int),
        decreases ns - s,
    {
        proof {
            lemma_coeffs_step(ss, s as int);
        }
        push_group(&mut out, coeff_group(superset, sets, f, s, base));
        assert(coeffs.take(s + 1) =~= coeffs.take(s as int).push(coeffs[s as int]));
        base = base + sets[s].rots.len();
        s += 1;
    }
    assert(coeffs.take(s as int) =~= coeffs);
    push_group(&mut out, normalized_group(superset, sets, f));
    let ghost p1 = groups_view(out@);
    let ghost revals = Seq::new(ss.len(), |s: int| r_evals_lines(sup, ss, s));
    s = 0;
    base = 0;
    while s < ns
        invariant
            s <= ns,
            ns == ss.len(),
            ss == sets@,
            sup == superset@,
            static_encodable(sup, ss, w_cptr as int),
            f == free_slot(ss),
            base == num_coeffs(ss.take(s as int)),
            revals == Seq::new(ss.len(), |s: int| r_evals_lines(sup, ss, s)),
            groups_view(out@) == p1 + revals.take(s as int),
        decreases ns - s,
    {
        proof {
            lemma_coeffs_step(ss, s as int);
        }
        assert forall|c: int| 0 <= c < ss[s as int].evals@.len() implies (#[trigger] ss[s as int].evals@[c])@.len()
            == ss[s as int].rots@.len() by {}
        push_group(&mut out, r_evals_group(superset, sets, f, s, base));
        assert(revals.take(s + 1) =~= revals.take(s as int).push(revals[s as int]));
        base = base + sets[s].rots.len();
        s += 1;
    }
    assert(revals.take(s as int) =~= revals);
    let ghost p2 = groups_view(out@);
    let ghost sums = Seq::new(ss.len(), |s: int| sum_lines(sup, ss, s));
    s = 0;
    base = 0;
    while s < ns
        invariant
            s <= ns,
            ns == ss.len(),
            ss == sets@,
            sup == superset@,
            static_encodable(sup, ss, w_cptr as int),
            f == free_slot(ss),
            base == num_coeffs(ss.take(s as int)),
            sums == Seq::new(ss.len(), |s: int| sum_lines(sup, ss, s)),
            groups_view(out@) == p2 + sums.take(s as int),
        decreases ns - s,
    {
        proof {
            lemma_coeffs_step(ss, s as int);
        }
        push_group(&mut out, sum_group(superset, sets, f, s, base));
        assert(sums.take(s + 1) =~= sums.take(s as int).push(sums[s as int]));
        base = base + sets[s].rots.len();
        s += 1;
    }
    assert(sums.take(s as int) =~= sums);
    push_group(&mut out, r_eval_group(superset, sets, f));
    assert forall|s: int| 0 <= s < ss.len() implies (#[trigger] ss[s]).comms@.len() > 0 && comm_runs_fit(ss[s]) by {}
    push_group(&mut out, pairing_group(superset, sets, f, w_cptr));
    assert(groups_view(out@) =~= static_lines(sup, ss, w_cptr as int));
    out
}

/// Whether a grouping of queries suits the opening computation's lines, `W` lying at byte `w`
/// of calldata: a query opens at rotation 0, there are two sets or more, the layout fits a
/// machine word, and every long run of evaluations or commitments starts no lower than its
/// length.
pub open spec fn static_fits(superset: Seq<i32>, sets: Seq<RotationSet>, w: int) -> bool {
    &&& superset.contains(0)
    &&& sets.len() >= 2
    &&& layout_fits(superset.len() as int, sets)
    &&& 0 <= w
    &&& w + 0x60 <= usize::MAX
    &&& forall|s: int| 0 <= s < sets.len() && (#[trigger] sets[s]).rots@.len() == 1 ==> eval_runs_fit(sets[s])
    &&& forall|s: int| 0 <= s < sets.len() ==> comm_runs_fit(#[trigger] sets[s])
}

/// A grouping of queries that fits the opening computation's lines suits them: the rest of
/// what the lines need follows from the grouping.
pub proof fn lemma_grouping_suits_static(qs: Seq<Query>, superset: Seq<i32>, sets: Seq<RotationSet>, w: int)
    requires
        groups_queries(qs, superset, sets),
        static_fits(superset, sets, w),
    ensures
        static_encodable(superset, sets, w),
{
    assert forall|s: int| 0 <= s < sets.len() implies (#[trigger] sets[s]).rots@.len() > 0
        && sets[s].comms@.len() > 0 by {
        assert(rotation_set_of(qs, sets[s]));
    }
    assert forall|s: int, c: int|
        0 <= s < sets.len() && 0 <= c < sets[s].evals@.len() implies (#[trigger] sets[s].evals@[c])@.len()
        == sets[s].rots@.len() by {
        assert(rotation_set_of(qs, sets[s]));
    }
    assert forall|s: int, r: i32| 0 <= s < sets.len() && #[trigger] sets[s].rots@.contains(r) implies superset.contains(r) by {
        assert(rotation_set_of(qs, sets[s]));
        assert(opens(qs, sets[s].comms@[0], r));
        let j = choose|j: int| 0 <= j < qs.len() && (#[trigger] qs[j]).comm == sets[s].comms@[0] && qs[j].rot == r;
        assert(opened_at(qs, r));
    }
    assert forall|s: int, r: i32| 0 <= s < sets.len() && #[trigger] sets[s].diffs@.contains(r) implies superset.contains(r) by {
        assert(rotation_set_of(qs, sets[s]));
    }
}

/// The groups of lines of the BDFG21 opening computation of the queries, for a verifier with
/// the verifying key embedded, `W` lying at byte `w_cptr` of calldata.
pub fn bdfg21_computations_static(queries: &[Query], w_cptr: usize) -> (lines: Vec<Vec<Line>>)
    requires
        distinct_openings(queries@),
        forall|superset: Seq<i32>, sets: Seq<RotationSet>|
            #[trigger] groups_queries(queries@, superset, sets) ==> static_fits(
                superset,
                sets,
                w_cptr as int,
            ),
    ensures
        exists|superset: Seq<i32>, sets: Seq<RotationSet>|
            #[trigger] groups_queries(queries@, superset, sets) && groups_view(lines@) == static_lines(
                superset,
                sets,
                w_cptr as int,
            ),
{
    let (superset, sets) = rotation_sets(queries);
    assert(groups_queries(queries@, superset@, sets@));
    proof {
        lemma_grouping_suits_static(queries@, superset@, sets@, w_cptr as int);
    }
    static_computations(&superset, &sets, w_cptr)
}

} // verus!
