use vstd::prelude::*;

use crate::layout::{holds, place, push_zero_word, Field};
use crate::word::Word256;

verus! {

/// One step of greedy packing: make room for `Reserve(n)` bits (starting a new word when the
/// current one has fewer than `n` bits left), or put a value in the next `width` bits.
pub enum PackOp {
    Reserve(int),
    Put(u64, int),
}

/// Where greedy packing stands: the current word, the next free bit in it, and the fields
/// placed so far.
pub struct PackState {
    pub word: int,
    pub bit: int,
    pub fields: Seq<Field>,
}

/// The effect of one packing step.
pub open spec fn step(st: PackState, op: PackOp) -> PackState {
    match op {
        PackOp::Reserve(n) => if st.bit + n > 256 {
            PackState { word: st.word + 1, bit: 0, fields: st.fields }
        } else {
            st
        },
        PackOp::Put(v, w) => PackState {
            word: st.word,
            bit: st.bit + w,
            fields: st.fields.push(Field { word: st.word, offset: st.bit, width: w, value: v }),
        },
    }
}

/// The state after running the steps from `st`.
pub open spec fn run(st: PackState, ops: Seq<PackOp>) -> PackState
    decreases ops.len(),
{
    if ops.len() == 0 {
        st
    } else {
        step(run(st, ops.drop_last()), ops.last())
    }
}

/// The state of packing from bit `start` of a first word.
pub open spec fn start_state(start: int) -> PackState {
    PackState { word: 0, bit: start, fields: Seq::empty() }
}

/// Whether `words` are the greedy packing of `ops` from bit `start`, with `extra` fields
/// or-ed in afterwards.
pub open spec fn packed(words: Seq<Word256>, start: int, ops: Seq<PackOp>, extra: Seq<Field>) -> bool {
    let st = run(start_state(start), ops);
    &&& words.len() == st.word + 1
    &&& holds(words, st.fields + extra)
}

/// Packing never moves back to an earlier word.
pub proof fn lemma_run_word_grows(st: PackState, ops: Seq<PackOp>)
    ensures
        run(st, ops).word >= st.word,
    decreases ops.len(),
{
    if ops.len() > 0 {
        lemma_run_word_grows(st, ops.drop_last());
    }
}

/// Running `a` then `b` is running their concatenation.
pub proof fn lemma_run_concat(st: PackState, a: Seq<PackOp>, b: Seq<PackOp>)
    ensures
        run(st, a + b) == run(run(st, a), b),
    decreases b.len(),
{
    if b.len() == 0 {
        assert(a + b =~= a);
    } else {
        lemma_run_concat(st, a, b.drop_last());
        assert((a + b).drop_last() =~= a + b.drop_last());
    }
}

/// The steps of `g` for each item, in order.
pub open spec fn concat_ops<T>(items: Seq<T>, g: spec_fn(T) -> Seq<PackOp>) -> Seq<PackOp>
    decreases items.len(),
{
    if items.len() == 0 {
        Seq::empty()
    } else {
        concat_ops(items.drop_last(), g) + g(items.last())
    }
}

/// The steps for one more item extend those for the items before it.
pub proof fn lemma_concat_ops_step<T>(items: Seq<T>, g: spec_fn(T) -> Seq<PackOp>, k: int)
    requires
        0 <= k < items.len(),
    ensures
        concat_ops(items.take(k + 1), g) == concat_ops(items.take(k), g) + g(items[k]),
{
    assert(items.take(k + 1).drop_last() =~= items.take(k));
}

/// A packer of words, greedy from a starting bit.
pub struct Packer {
    words: Vec<Word256>,
    word: usize,
    bit: usize,
    start: Ghost<int>,
    ops: Ghost<Seq<PackOp>>,
}

impl Packer {
    /// The steps run so far.
    pub closed spec fn ops(&self) -> Seq<PackOp> {
        self.ops@
    }

    /// The bit the packing started from.
    pub closed spec fn start(&self) -> int {
        self.start@
    }

    /// The next free bit.
    pub closed spec fn bit(&self) -> int {
        self.bit as int
    }

    pub closed spec fn wf(&self) -> bool {
        let st = run(start_state(self.start@), self.ops@);
        &&& st.word == self.word
        &&& st.bit == self.bit
        &&& self.words.len() == self.word + 1
        &&& holds(self.words@, st.fields)
    }

    /// An empty packing from bit `start` of a first, zero word.
    pub fn new(start: usize) -> (p: Packer)
        ensures
            p.wf(),
            p.ops() == Seq::<PackOp>::empty(),
            p.start() == start,
            p.bit() == start,
    {
        let mut words: Vec<Word256> = Vec::new();
        push_zero_word(&mut words, Ghost(Seq::empty()));
        Packer { words, word: 0, bit: start, start: Ghost(start as int), ops: Ghost(Seq::empty()) }
    }

    /// The number of words so far.
    pub fn words_len(&self) -> (n: usize)
        requires
            self.wf(),
        ensures
            n == run(start_state(self.start()), self.ops()).word + 1,
    {
        self.words.len()
    }

    /// Makes room for `n` bits.
    pub fn reserve(&mut self, n: usize)
        requires
            old(self).wf(),
            old(self).bit() + n <= usize::MAX,
        ensures
            final(self).wf(),
            final(self).ops() == old(self).ops().push(PackOp::Reserve(n as int)),
            final(self).start() == old(self).start(),
            final(self).bit() == if old(self).bit() + n > 256 {
                0
            } else {
                old(self).bit()
            },
    {
        let ghost st = run(start_state(self.start@), self.ops@);
        let ghost new_ops = self.ops@.push(PackOp::Reserve(n as int));
        assert(new_ops.drop_last() =~= self.ops@);
        if self.bit + n > 256 {
            push_zero_word(&mut self.words, Ghost(st.fields));
            self.word = self.word + 1;
            self.bit = 0;
        }
        self.ops = Ghost(new_ops);
    }

    /// Puts `v` in the next `width` bits (or-ing it in: a value wider than `width` spills
    /// into the bits after).
    pub fn put(&mut self, v: u64, width: usize)
        requires
            old(self).wf(),
            old(self).bit() + width <= usize::MAX,
        ensures
            final(self).wf(),
            final(self).ops() == old(self).ops().push(PackOp::Put(v, width as int)),
            final(self).start() == old(self).start(),
            final(self).bit() == old(self).bit() + width,
    {
        let ghost st = run(start_state(self.start@), self.ops@);
        let ghost new_ops = self.ops@.push(PackOp::Put(v, width as int));
        assert(new_ops.drop_last() =~= self.ops@);
        place(&mut self.words, Ghost(st.fields), self.word, self.bit, Ghost(width as int), v);
        self.bit = self.bit + width;
        self.ops = Ghost(new_ops);
    }

    /// The packed words, with the `extra` fields or-ed into the first word.
    pub fn finish(self, extra: &Vec<(u64, usize, usize)>) -> (words: Vec<Word256>)
        requires
            self.wf(),
        ensures
            packed(
                words@,
                self.start(),
                self.ops(),
                Seq::new(
                    extra.len() as nat,
                    |i: int| Field { word: 0, offset: extra@[i].1 as int, width: extra@[i].2 as int, value: extra@[i].0 },
                ),
            ),
    {
        let ghost st = run(start_state(self.start@), self.ops@);
        let ghost ex = Seq::new(
            extra.len() as nat,
            |i: int| Field { word: 0, offset: extra@[i].1 as int, width: extra@[i].2 as int, value: extra@[i].0 },
        );
        let mut words = self.words;
        let mut i: usize = 0;
        while i < extra.len()
            invariant
                i <= extra.len(),
                st.word >= 0,
                words.len() == st.word + 1,
                ex == Seq::new(
                    extra.len() as nat,
                    |i: int| Field { word: 0, offset: extra@[i].1 as int, width: extra@[i].2 as int, value: extra@[i].0 },
                ),
                holds(words@, st.fields + ex.take(i as int)),
            decreases extra.len() - i,
        {
            let (v, offset, width) = extra[i];
            place(&mut words, Ghost(st.fields + ex.take(i as int)), 0, offset, Ghost(width as int), v);
            assert((st.fields + ex.take(i as int)).push(ex[i as int]) =~= st.fields + ex.take(i + 1));
            i += 1;
        }
        assert(ex.take(extra.len() as int) =~= ex);
        words
    }
}

} // verus!
