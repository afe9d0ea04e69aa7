use vstd::prelude::*;

use crate::location::{Location, Ptr, Value};

verus! {

/// A piece of a line of Yul: literal text, an address as the verifier writes it, the value
/// loaded from an address (`mload` in memory, `calldataload` in calldata), the value loaded
/// from a named address in a place, or the variable that holds the `k`-th point.
#[derive(Clone, Copy, Debug, PartialEq, Eq)]
pub enum Piece {
    Text(&'static str),
    Addr(Ptr),
    Load(Ptr),
    LoadAt(Location, &'static str),
    PointVar(usize),
}

/// A line of Yul: a statement made of pieces, or a `for` loop with its initialisation, its
/// condition, its advancement and its body.
#[derive(Clone, Debug, PartialEq, Eq)]
pub enum Line {
    Plain(Vec<Piece>),
    ForLoop(Vec<Vec<Piece>>, Vec<Piece>, Vec<Vec<Piece>>, Vec<Vec<Piece>>),
}

/// A line of Yul, as sequences.
pub enum LineView {
    Plain(Seq<Piece>),
    ForLoop(Seq<Seq<Piece>>, Seq<Piece>, Seq<Seq<Piece>>, Seq<Seq<Piece>>),
}

/// The pieces of each statement.
pub open spec fn statements_view(s: Seq<Vec<Piece>>) -> Seq<Seq<Piece>> {
    s.map_values(|p: Vec<Piece>| p@)
}

/// A line as sequences.
pub open spec fn line_view(l: Line) -> LineView {
    match l {
        Line::Plain(p) => LineView::Plain(p@),
        Line::ForLoop(i, c, a, b) => LineView::ForLoop(
            statements_view(i@),
            c@,
            statements_view(a@),
            statements_view(b@),
        ),
    }
}

/// Lines as sequences.
pub open spec fn lines_view(ls: Seq<Line>) -> Seq<LineView> {
    ls.map_values(|l: Line| line_view(l))
}

/// Groups of lines as sequences.
pub open spec fn groups_view(gs: Seq<Vec<Line>>) -> Seq<Seq<LineView>> {
    gs.map_values(|g: Vec<Line>| lines_view(g@))
}

/// The items of the sequences, one after the other.
pub open spec fn flat<T>(s: Seq<Seq<T>>) -> Seq<T>
    decreases s.len(),
{
    if s.len() == 0 {
        Seq::empty()
    } else {
        flat(s.drop_last()) + s.last()
    }
}

/// Flattening one more sequence appends its items.
pub proof fn lemma_flat_step<T>(s: Seq<Seq<T>>, i: int)
    requires
        0 <= i < s.len(),
    ensures
        flat(s.take(i + 1)) == flat(s.take(i)) + s[i],
{
    assert(s.take(i + 1).drop_last() =~= s.take(i));
}

/// A statement of literal text alone.
pub open spec fn txt(s: &'static str) -> LineView {
    LineView::Plain(seq![Piece::Text(s)])
}

/// The memory slot at byte `a`.
pub open spec fn mem(a: int) -> Ptr {
    Ptr { loc: Location::Memory, value: Value::Integer(a as usize) }
}

/// Appends a statement.
pub fn push_plain(out: &mut Vec<Line>, pieces: Vec<Piece>)
    ensures
        lines_view(final(out)@) == lines_view(old(out)@).push(LineView::Plain(pieces@)),
{
    let ghost p = pieces@;
    out.push(Line::Plain(pieces));
    assert(lines_view(out@) =~= lines_view(old(out)@).push(LineView::Plain(p)));
}

/// Appends a `for` loop.
pub fn push_for(
    out: &mut Vec<Line>,
    init: Vec<Vec<Piece>>,
    cond: Vec<Piece>,
    advance: Vec<Vec<Piece>>,
    body: Vec<Vec<Piece>>,
)
    ensures
        lines_view(final(out)@) == lines_view(old(out)@).push(
            LineView::ForLoop(
                statements_view(init@),
                cond@,
                statements_view(advance@),
                statements_view(body@),
            ),
        ),
{
    let ghost v = LineView::ForLoop(
        statements_view(init@),
        cond@,
        statements_view(advance@),
        statements_view(body@),
    );
    out.push(Line::ForLoop(init, cond, advance, body));
    assert(lines_view(out@) =~= lines_view(old(out)@).push(v));
}

/// Appends lines.
pub fn append_lines(out: &mut Vec<Line>, more: Vec<Line>)
    ensures
        lines_view(final(out)@) == lines_view(old(out)@) + lines_view(more@),
{
    let ghost m = more@;
    let mut more = more;
    out.append(&mut more);
    assert(lines_view(out@) =~= lines_view(old(out)@) + lines_view(m));
}

/// Appends a group of lines.
pub fn push_group(out: &mut Vec<Vec<Line>>, g: Vec<Line>)
    ensures
        groups_view(final(out)@) == groups_view(old(out)@).push(lines_view(g@)),
{
    let ghost gv = lines_view(g@);
    out.push(g);
    assert(groups_view(out@) =~= groups_view(old(out)@).push(gv));
}

/// Appends groups of lines.
pub fn append_groups(out: &mut Vec<Vec<Line>>, more: Vec<Vec<Line>>)
    ensures
        groups_view(final(out)@) == groups_view(old(out)@) + groups_view(more@),
{
    let ghost m = more@;
    let mut more = more;
    out.append(&mut more);
    assert(groups_view(out@) =~= groups_view(old(out)@) + groups_view(m));
}

/// The state reached from `st` by applying `step` to each line in turn.
pub open spec fn run_lines<S>(st: S, ls: Seq<LineView>, step: spec_fn(S, LineView) -> S) -> S
    decreases ls.len(),
{
    if ls.len() == 0 {
        st
    } else {
        step(run_lines(st, ls.drop_last(), step), ls.last())
    }
}

/// Running two pieces of lines one after the other runs their concatenation.
pub proof fn lemma_run_lines_append<S>(st: S, a: Seq<LineView>, b: Seq<LineView>, step: spec_fn(S, LineView) -> S)
    ensures
        run_lines(st, a + b, step) == run_lines(run_lines(st, a, step), b, step),
    decreases b.len(),
{
    if b.len() == 0 {
        assert(a + b =~= a);
    } else {
        assert((a + b).drop_last() =~= a + b.drop_last());
        lemma_run_lines_append(st, a, b.drop_last(), step);
    }
}

/// Running one line applies the step once.
pub proof fn lemma_run_lines_one<S>(st: S, l: LineView, step: spec_fn(S, LineView) -> S)
    ensures
        run_lines(st, seq![l], step) == step(st, l),
{
    assert(seq![l].drop_last() =~= Seq::<LineView>::empty());
    assert(run_lines(st, Seq::<LineView>::empty(), step) == st);
    assert(seq![l].last() == l);
    assert(run_lines(st, seq![l], step) == step(run_lines(st, seq![l].drop_last(), step), seq![l].last()));
}

/// Lines that each leave a state alone leave it alone together.
pub proof fn lemma_run_lines_fixed<S>(st: S, ls: Seq<LineView>, step: spec_fn(S, LineView) -> S)
    requires
        forall|i: int| 0 <= i < ls.len() ==> step(st, #[trigger] ls[i]) == st,
    ensures
        run_lines(st, ls, step) == st,
    decreases ls.len(),
{
    if ls.len() > 0 {
        lemma_run_lines_fixed(st, ls.drop_last(), step);
        assert(step(st, ls[ls.len() - 1]) == st);
    }
}

} // verus!
