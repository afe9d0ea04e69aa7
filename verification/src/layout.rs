use vstd::arithmetic::power2::pow2;
use vstd::prelude::*;

use crate::word::{u64_bit, Word256};

verus! {

/// A field of a sequence of 256-bit words: `value`, shifted left by `offset` bits, or-ed into
/// word `word`; `width` is the number of bits set aside for it.
pub struct Field {
    pub word: int,
    pub offset: int,
    pub width: int,
    pub value: u64,
}

/// Whether field `f` sets bit `b` of word `k`.
pub open spec fn sets_bit(f: Field, k: int, b: int) -> bool {
    f.word == k && f.offset <= b && u64_bit(f.value, b - f.offset)
}

/// Whether `v` fits in `width` bits.
pub open spec fn fits(v: u64, width: int) -> bool {
    forall|j: int| width <= j ==> !#[trigger] u64_bit(v, j)
}

/// Whether the field lies in one of `n` words (a field may start past bit 256, where it sets
/// no bit).
pub open spec fn in_bounds(f: Field, n: int) -> bool {
    0 <= f.word < n && 0 <= f.offset && 0 <= f.width
}

/// Whether two fields share no bit.
pub open spec fn disjoint(f: Field, g: Field) -> bool {
    f.word != g.word || f.offset + f.width <= g.offset || g.offset + g.width <= f.offset
}

/// The words are the or of their fields: a bit of a word is set exactly when some field
/// sets it (bits shifted past 256 being dropped).
pub open spec fn holds(words: Seq<Word256>, fields: Seq<Field>) -> bool {
    &&& forall|x: int| 0 <= x < fields.len() ==> #[trigger] in_bounds(fields[x], words.len() as int)
    &&& forall|k: int, b: int|
        0 <= k < words.len() ==> (#[trigger] words[k].bit(b) <==> (0 <= b < 256 && exists|x: int|
            0 <= x < fields.len() && #[trigger] sets_bit(fields[x], k, b)))
}

/// Whether the fields are pairwise disjoint and each value fits its width: then each field
/// reads back its value.
pub open spec fn well_laid(fields: Seq<Field>) -> bool {
    &&& forall|x: int|
        0 <= x < fields.len() ==> (#[trigger] fields[x]).width <= 64 && fields[x].offset
            + fields[x].width <= 256
    &&& forall|x: int| 0 <= x < fields.len() ==> fits(#[trigger] fields[x].value, fields[x].width)
    &&& forall|x: int, y: int|
        0 <= x < fields.len() && 0 <= y < fields.len() && x != y ==> disjoint(
            #[trigger] fields[x],
            #[trigger] fields[y],
        )
}

/// In well-laid words, each bit a field sets aside holds the matching bit of its value.
pub proof fn lemma_field_reads_back(words: Seq<Word256>, fields: Seq<Field>, x: int, j: int)
    requires
        holds(words, fields),
        well_laid(fields),
        0 <= x < fields.len(),
        0 <= j < fields[x].width,
    ensures
        words[fields[x].word].bit(fields[x].offset + j) == u64_bit(fields[x].value, j),
{
    let f = fields[x];
    let b = f.offset + j;
    assert(in_bounds(f, words.len() as int));
    assert(f.width <= 64 && f.offset + f.width <= 256);
    if u64_bit(f.value, j) {
        assert(sets_bit(fields[x], f.word, b));
    }
    if words[f.word].bit(b) {
        let y = choose|y: int| 0 <= y < fields.len() && #[trigger] sets_bit(fields[y], f.word, b);
        if y != x {
            assert(disjoint(fields[x], fields[y]));
            assert(in_bounds(fields[y], words.len() as int));
            assert(fits(fields[y].value, fields[y].width));
            assert(!u64_bit(fields[y].value, b - fields[y].offset));
        }
    }
}

/// The number the low `width` bits of `v` spell.
pub open spec fn bits_value(v: u64, width: nat) -> nat
    decreases width,
{
    if width == 0 {
        0
    } else {
        bits_value(v, (width - 1) as nat) + if u64_bit(v, width - 1) {
            pow2((width - 1) as nat)
        } else {
            0
        }
    }
}

/// The number that the `width` bits of `w` from bit `offset` on spell, least significant
/// first: how a reader decodes a field.
pub open spec fn read_bits(w: Word256, offset: int, width: nat) -> nat
    decreases width,
{
    if width == 0 {
        0
    } else {
        read_bits(w, offset, (width - 1) as nat) + if w.bit(offset + width - 1) {
            pow2((width - 1) as nat)
        } else {
            0
        }
    }
}

/// The low `width` bits of `v` spell `v` modulo `2^width`.
proof fn lemma_bits_value_mod(v: u64, width: nat)
    requires
        width <= 64,
    ensures
        bits_value(v, width) == v as nat % pow2(width),
    decreases width,
{
    vstd::arithmetic::power2::lemma_pow2_pos(width);
    if width == 0 {
        vstd::arithmetic::power2::lemma2_to64();
    } else {
        let w1 = (width - 1) as nat;
        lemma_bits_value_mod(v, w1);
        vstd::arithmetic::power2::lemma_pow2_unfold(width);
        vstd::arithmetic::power2::lemma_pow2_pos(w1);
        vstd::arithmetic::div_mod::lemma_mod_breakdown(v as int, pow2(w1) as int, 2);
        vstd::bits::lemma_u64_shr_is_div(v, w1 as u64);
        let t = v >> (w1 as u64);
        assert((t & 1u64 == 1u64) == (t % 2 == 1)) by (bit_vector);
        assert(pow2(w1) * 2 == pow2(width));
        let q = (v as int / pow2(w1) as int) % 2;
        assert(t as int == v as int / pow2(w1) as int);
        assert(u64_bit(v, w1 as int) == (q == 1));
        let p = pow2(w1) as int;
        if q == 1 {
            assert(p * q == p) by (nonlinear_arith)
                requires
                    q == 1,
            ;
        } else {
            assert(p * q == 0) by (nonlinear_arith)
                requires
                    q == 0,
            ;
        }
    }
}

/// A value that fits `width` bits is spelled by them.
pub proof fn lemma_bits_value_fits(v: u64, width: nat)
    requires
        width <= 64,
        fits(v, width as int),
    ensures
        bits_value(v, width) == v,
    decreases 64 - width,
{
    if width == 64 {
        lemma_bits_value_mod(v, 64);
        vstd::arithmetic::power2::lemma2_to64_rest();
    } else {
        lemma_bits_value_fits(v, width + 1);
        assert(!u64_bit(v, width as int));
    }
}

/// A field of well-laid words reads back its value.
pub proof fn lemma_field_value(words: Seq<Word256>, fields: Seq<Field>, x: int)
    requires
        holds(words, fields),
        well_laid(fields),
        0 <= x < fields.len(),
    ensures
        read_bits(words[fields[x].word], fields[x].offset, fields[x].width as nat) == fields[x].value,
{
    let f = fields[x];
    assert(in_bounds(f, words.len() as int));
    assert(f.width <= 64);
    assert(fits(fields[x].value, fields[x].width));
    lemma_read_prefix(words, fields, x, f.width as nat);
    lemma_bits_value_fits(f.value, f.width as nat);
}

proof fn lemma_read_prefix(words: Seq<Word256>, fields: Seq<Field>, x: int, n: nat)
    requires
        holds(words, fields),
        well_laid(fields),
        0 <= x < fields.len(),
        n <= fields[x].width,
    ensures
        read_bits(words[fields[x].word], fields[x].offset, n) == bits_value(fields[x].value, n),
    decreases n,
{
    if n > 0 {
        lemma_read_prefix(words, fields, x, (n - 1) as nat);
        lemma_field_reads_back(words, fields, x, n - 1);
    }
}

/// Appends a zero word, which no field touches.
pub(crate) fn push_zero_word(words: &mut Vec<Word256>, Ghost(fields): Ghost<Seq<Field>>)
    requires
        holds(old(words)@, fields),
    ensures
        final(words)@.len() == old(words)@.len() + 1,
        forall|i: int| 0 <= i < old(words)@.len() ==> final(words)@[i] == old(words)@[i],
        holds(final(words)@, fields),
{
    let z = Word256::zero();
    words.push(z);
    let ghost w = words@;
    let ghost n = old(words)@.len() as int;
    assert forall|x: int| 0 <= x < fields.len() implies #[trigger] in_bounds(
        fields[x],
        w.len() as int,
    ) by {
        assert(in_bounds(fields[x], n));
    }
    assert forall|k: int, b: int| 0 <= k < w.len() implies (#[trigger] w[k].bit(b) <==> (0 <= b
        < 256 && exists|x: int| 0 <= x < fields.len() && #[trigger] sets_bit(fields[x], k, b))) by {
        if k < n {
            assert(w[k] == old(words)@[k]);
        } else {
            assert(!w[k].bit(b));
            if exists|x: int| 0 <= x < fields.len() && #[trigger] sets_bit(fields[x], k, b) {
                let x = choose|x: int| 0 <= x < fields.len() && #[trigger] sets_bit(fields[x], k, b);
                assert(in_bounds(fields[x], n));
            }
        }
    }
}

/// `words[k] |= v << offset`: adds the field of `v` at bit `offset` of word `k`.
pub(crate) fn place(
    words: &mut Vec<Word256>,
    Ghost(fields): Ghost<Seq<Field>>,
    k: usize,
    offset: usize,
    Ghost(width): Ghost<int>,
    v: u64,
)
    requires
        holds(old(words)@, fields),
        k < old(words)@.len(),
        0 <= width,
    ensures
        final(words)@.len() == old(words)@.len(),
        holds(
            final(words)@,
            fields.push(Field { word: k as int, offset: offset as int, width, value: v }),
        ),
        forall|i: int| 0 <= i < final(words)@.len() && i != k ==> final(words)@[i] == old(words)@[i],
{
    let ghost f = Field { word: k as int, offset: offset as int, width, value: v };
    let ghost pre = old(words)@;
    let mut w = words[k];
    w.or_shl(v, offset);
    words.set(k, w);
    let ghost post = words@;
    let ghost nf = fields.push(f);
    assert forall|x: int| 0 <= x < nf.len() implies #[trigger] in_bounds(nf[x], post.len() as int) by {
        if x < fields.len() {
            assert(nf[x] == fields[x]);
            assert(in_bounds(fields[x], pre.len() as int));
        }
    }
    assert forall|kk: int, b: int| 0 <= kk < post.len() implies (#[trigger] post[kk].bit(b) <==> (0
        <= b < 256 && exists|x: int| 0 <= x < nf.len() && #[trigger] sets_bit(nf[x], kk, b))) by {
        let old_set = exists|x: int| 0 <= x < fields.len() && #[trigger] sets_bit(fields[x], kk, b);
        assert(pre[kk].bit(b) <==> (0 <= b < 256 && old_set));
        if old_set {
            let x = choose|x: int| 0 <= x < fields.len() && #[trigger] sets_bit(fields[x], kk, b);
            assert(nf[x] == fields[x]);
        }
        if exists|x: int| 0 <= x < nf.len() && #[trigger] sets_bit(nf[x], kk, b) {
            let x = choose|x: int| 0 <= x < nf.len() && #[trigger] sets_bit(nf[x], kk, b);
            if x < fields.len() {
                assert(nf[x] == fields[x]);
            }
        }
        assert(sets_bit(nf[fields.len() as int], kk, b) == sets_bit(f, kk, b));
        if kk != k {
            assert(post[kk] == pre[kk]);
        }
    }
}

} // verus!
