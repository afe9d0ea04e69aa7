use halo2curves::bn256::Fr;
use halo2curves::ff::{Field, FromUniformBytes, PrimeField};
use vstd::arithmetic::power::pow;
use vstd::arithmetic::power2::pow2;
use vstd::prelude::*;

use crate::word::Word256;

verus! {

/// The order of BN254's scalar field.
pub open spec fn fr_modulus() -> nat {
    0x30644e72e131a029b85045b68181585d2833e84879b9709143e1f593f0000001nat
}

/// The number that little-endian bytes spell.
pub open spec fn le_value(bytes: Seq<u8>) -> nat
    decreases bytes.len(),
{
    if bytes.len() == 0 {
        0
    } else {
        bytes[0] as nat + 256 * le_value(bytes.drop_first())
    }
}

/// `256^n`.
pub open spec fn pow256(n: nat) -> nat
    decreases n,
{
    if n == 0 {
        1
    } else {
        256 * pow256((n - 1) as nat)
    }
}

/// Little-endian bytes spell the number of their first part plus that of the rest, shifted
/// past the first part.
pub proof fn lemma_le_value_split(a: Seq<u8>, b: Seq<u8>)
    ensures
        le_value(a + b) == le_value(a) + pow256(a.len()) * le_value(b),
    decreases a.len(),
{
    if a.len() == 0 {
        assert(a + b =~= b);
        assert(le_value(a) == 0);
        assert(pow256(a.len()) == 1);
    } else {
        lemma_le_value_split(a.drop_first(), b);
        assert((a + b).drop_first() =~= a.drop_first() + b);
        assert((a + b)[0] == a[0]);
        let p = pow256(a.drop_first().len());
        assert(pow256(a.len()) == 256 * p);
        assert(256 * (le_value(a.drop_first()) + p * le_value(b)) == 256 * le_value(a.drop_first())
            + (256 * p) * le_value(b)) by (nonlinear_arith);
        assert(le_value(a + b) == (a + b)[0] as nat + 256 * le_value((a + b).drop_first()));
        assert(le_value(a) == a[0] as nat + 256 * le_value(a.drop_first()));
    }
}

/// `n` little-endian bytes spell a number below `256^n`.
proof fn lemma_le_value_bound(bytes: Seq<u8>)
    ensures
        le_value(bytes) < pow256(bytes.len()),
    decreases bytes.len(),
{
    if bytes.len() > 0 {
        lemma_le_value_bound(bytes.drop_first());
        let r = le_value(bytes.drop_first());
        let p = pow256(bytes.drop_first().len());
        assert(bytes[0] as nat + 256 * r < 256 * p) by (nonlinear_arith)
            requires
                r < p,
                bytes[0] < 256,
        ;
    }
}

/// Calls `halo2curves::bn256::Fr::from_uniform_bytes` (the `ff` crate's `FromUniformBytes`
/// for 64 bytes) and returns the element's `to_repr()` bytes. Claims what the trait's
/// documentation promises, a field element congruent to the little-endian value of the
/// bytes, together with what the crate's source shows of `to_repr`: the element's canonical
/// value, below the field's order, as 32 little-endian bytes.
#[verifier::external_body]
pub(crate) fn fr_from_uniform_bytes(bytes: &[u8]) -> (repr: Vec<u8>)
    requires
        bytes.len() == 64,
    ensures
        repr.len() == 32,
        le_value(repr@) == le_value(bytes@) % fr_modulus(),
{
    let mut wide = [0u8; 64];
    wide.copy_from_slice(bytes);
    <Fr as FromUniformBytes<64>>::from_uniform_bytes(&wide).to_repr().inner().to_vec()
}

/// The 64-bit number that eight little-endian bytes from `at` spell.
fn le_u64(bytes: &Vec<u8>, at: usize) -> (v: u64)
    requires
        at + 8 <= bytes.len(),
    ensures
        v == le_value(bytes@.subrange(at as int, at + 8)),
{
    let mut v: u64 = 0;
    let mut i: usize = 8;
    proof {
        assert(bytes@.subrange(at + 8, at + 8) =~= Seq::<u8>::empty());
    }
    while i > 0
        invariant
            i <= 8,
            at + 8 <= bytes.len(),
            v == le_value(bytes@.subrange(at + i, at + 8)),
            v < pow256((8 - i) as nat),
        decreases i,
    {
        i -= 1;
        let ghost rest = bytes@.subrange(at + i + 1, at + 8);
        assert(bytes@.subrange(at + i, at + 8).drop_first() =~= rest);
        proof {
            reveal_with_fuel(pow256, 9);
        }
        assert(pow256((8 - i) as nat) == 256 * pow256((7 - i) as nat));
        assert(pow256(8) == 0x1_0000_0000_0000_0000);
        assert(pow256((8 - i) as nat) <= pow256(8)) by {
            lemma_pow256_mono((8 - i) as nat, 8);
        }
        assert(v * 256 + bytes@[at + i] < 256 * pow256((7 - i) as nat)) by (nonlinear_arith)
            requires
                v < pow256((7 - i) as nat),
                bytes@[at + i] < 256,
        ;
        v = v * 256 + bytes[at + i] as u64;
    }
    v
}

/// `256^a <= 256^b` for `a <= b`.
proof fn lemma_pow256_mono(a: nat, b: nat)
    requires
        a <= b,
    ensures
        pow256(a) <= pow256(b),
    decreases b - a,
{
    if a < b {
        lemma_pow256_mono(a, (b - 1) as nat);
        lemma_pow256_pos((b - 1) as nat);
    }
}

/// `256^n` is positive.
proof fn lemma_pow256_pos(n: nat)
    ensures
        pow256(n) > 0,
    decreases n,
{
    if n > 0 {
        lemma_pow256_pos((n - 1) as nat);
    }
}

/// The word that 32 little-endian bytes spell.
pub fn word_from_le_bytes(bytes: &Vec<u8>) -> (w: Word256)
    requires
        bytes.len() == 32,
    ensures
        w.value() == le_value(bytes@),
{
    let w = Word256 {
        limb0: le_u64(bytes, 0),
        limb1: le_u64(bytes, 8),
        limb2: le_u64(bytes, 16),
        limb3: le_u64(bytes, 24),
    };
    proof {
        let b = bytes@;
        let c0 = b.subrange(0, 8);
        let c1 = b.subrange(8, 16);
        let c2 = b.subrange(16, 24);
        let c3 = b.subrange(24, 32);
        reveal_with_fuel(pow256, 9);
        assert(pow256(8) == 0x1_0000_0000_0000_0000nat);
        lemma_le_value_split(c2, c3);
        assert(c2 + c3 =~= b.subrange(16, 32));
        lemma_le_value_split(c1, b.subrange(16, 32));
        assert(c1 + b.subrange(16, 32) =~= b.subrange(8, 32));
        lemma_le_value_split(c0, b.subrange(8, 32));
        assert(c0 + b.subrange(8, 32) =~= b);
        let m: nat = 0x1_0000_0000_0000_0000nat;
        let v0 = le_value(c0);
        let v1 = le_value(c1);
        let v2 = le_value(c2);
        let v3 = le_value(c3);
        assert(v0 + m * (v1 + m * (v2 + m * v3)) == v0 + v1 * m + v2 * (m * m) + v3 * (m * m
            * m)) by (nonlinear_arith);
    }
    w
}

/// Whether `x` is the inverse of `a` in BN254's scalar field.
pub open spec fn is_fr_inverse(x: nat, a: nat) -> bool {
    x < fr_modulus() && (x * a) % fr_modulus() == 1
}

/// The inverse of `a` in BN254's scalar field.
pub open spec fn fr_inverse(a: nat) -> nat {
    choose|x: nat| #[trigger] is_fr_inverse(x, a)
}

/// An inverse modulo `r` below `r` is unique.
pub proof fn lemma_fr_inverse_unique(a: nat, x: nat)
    requires
        x < fr_modulus(),
        (x * a) % fr_modulus() == 1,
    ensures
        fr_inverse(a) == x,
{
    let r = fr_modulus() as int;
    assert(is_fr_inverse(x, a));
    let y = fr_inverse(a);
    assert(is_fr_inverse(y, a));
    let xi = x as int;
    let yi = y as int;
    let ai = a as int;
    assert((yi * ai) % r == 1);
    assert((xi * ai) % r == 1);
    vstd::arithmetic::div_mod::lemma_mul_mod_noop_right(xi, yi * ai, r);
    vstd::arithmetic::div_mod::lemma_small_mod(x, r as nat);
    vstd::arithmetic::div_mod::lemma_small_mod(y, r as nat);
    assert((xi * ((yi * ai) % r)) % r == xi);
    assert(xi * (yi * ai) == (xi * ai) * yi) by (nonlinear_arith);
    vstd::arithmetic::div_mod::lemma_mul_mod_noop_left(xi * ai, yi, r);
    assert(((xi * ai) % r * yi) % r == yi);
}

/// Calls `halo2curves::bn256::Fr::from(n)`, inverts it (`Field::invert`, which fails only on
/// zero, and a nonzero `u64` is below the field's order so not zero in the field) and returns
/// the inverse's `to_repr()` bytes. Claims the inverse's defining property, and what the
/// crate's source shows of `to_repr`: the canonical value, below the field's order, as 32
/// little-endian bytes.
#[verifier::external_body]
fn fr_inverse_u64(n: u64) -> (inv: Vec<u8>)
    requires
        n != 0,
    ensures
        inv.len() == 32,
        le_value(inv@) < fr_modulus(),
        (le_value(inv@) * (n as nat)) % fr_modulus() == 1,
{
    Fr::from(n).invert().unwrap().to_repr().inner().to_vec()
}

/// `2^k`, for `k < 64`.
fn pow2_u64(k: u32) -> (n: u64)
    requires
        k < 64,
    ensures
        n == pow2(k as nat),
        n != 0,
{
    let mut n: u64 = 1;
    let mut i: u32 = 0;
    proof {
        vstd::arithmetic::power2::lemma2_to64();
    }
    while i < k
        invariant
            i <= k < 64,
            n == pow2(i as nat),
        decreases k - i,
    {
        proof {
            vstd::arithmetic::power2::lemma_pow2_unfold((i + 1) as nat);
            vstd::arithmetic::power2::lemma_pow2_strictly_increases((i + 1) as nat, 64);
            vstd::arithmetic::power2::lemma2_to64_rest();
        }
        n = n * 2;
        i += 1;
    }
    proof {
        vstd::arithmetic::power2::lemma_pow2_pos(k as nat);
    }
    n
}

/// Reads the 32 little-endian bytes as a `halo2curves::bn256::Fr` (`PrimeField::from_repr`,
/// which refuses a value not below the field's order), raises it to `exp` with
/// `Field::pow_vartime` and returns the result's `to_repr()` bytes. Claims the power modulo
/// the field's order, as 32 little-endian bytes.
#[verifier::external_body]
fn fr_pow(base: &[u8], exp: u64) -> (res: Vec<u8>)
    requires
        base.len() == 32,
        le_value(base@) < fr_modulus(),
    ensures
        res.len() == 32,
        le_value(res@) == pow(le_value(base@) as int, exp as nat) % (fr_modulus() as int),
{
    let mut repr = [0u8; 32];
    repr.copy_from_slice(base);
    Fr::from_repr(repr.into()).unwrap().pow_vartime([exp]).to_repr().inner().to_vec()
}

/// Appends the eight little-endian bytes of `x`.
fn push_le_u64(out: &mut Vec<u8>, x: u64)
    ensures
        final(out)@.len() == old(out)@.len() + 8,
        final(out)@.subrange(0, old(out)@.len() as int) == old(out)@,
        le_value(final(out)@.subrange(old(out)@.len() as int, old(out)@.len() + 8 as int)) == x,
{
    let ghost start = out@;
    let ghost n = start.len() as int;
    let mut v: u64 = x;
    let mut i: usize = 0;
    proof {
        reveal_with_fuel(pow256, 9);
        assert(out@.subrange(n, n) =~= Seq::<u8>::empty());
        assert(le_value(out@.subrange(n, n)) == 0);
        assert(pow256(0) == 1);
    }
    while i < 8
        invariant
            i <= 8,
            n == start.len(),
            out@.len() == n + i,
            out@.subrange(0, n) == start,
            x == le_value(out@.subrange(n, n + i)) + pow256(i as nat) * v,
            v < pow256((8 - i) as nat),
        decreases 8 - i,
    {
        let b = (v % 256) as u8;
        let ghost before = out@.subrange(n, n + i);
        out.push(b);
        proof {
            assert(out@.subrange(n, n + i + 1) =~= before + seq![b]);
            lemma_le_value_split(before, seq![b]);
            assert(seq![b].drop_first() =~= Seq::<u8>::empty());
            assert(le_value(Seq::<u8>::empty()) == 0);
            assert(seq![b][0] == b);
            assert(le_value(seq![b]) == b as nat);
            assert(out@.subrange(0, n) =~= start);
            reveal_with_fuel(pow256, 2);
            let p = pow256(i as nat);
            assert(pow256((i + 1) as nat) == 256 * p);
            assert(pow256((8 - i) as nat) == 256 * pow256((7 - i) as nat)) by {
                reveal_with_fuel(pow256, 9);
            }
            assert(v == 256 * (v / 256) + b) by (nonlinear_arith)
                requires
                    b == v % 256,
            ;
            assert(p * v == p * b + (256 * p) * (v / 256)) by (nonlinear_arith)
                requires
                    v == 256 * (v / 256) + b,
            ;
            assert(v / 256 < pow256((7 - i) as nat)) by (nonlinear_arith)
                requires
                    v < 256 * pow256((7 - i) as nat),
            ;
        }
        v = v / 256;
        i += 1;
    }
    proof {
        reveal_with_fuel(pow256, 1);
    }
}

/// The 32 little-endian bytes of a word.
pub fn word_le_bytes(w: &Word256) -> (bytes: Vec<u8>)
    ensures
        bytes.len() == 32,
        le_value(bytes@) == w.value(),
{
    let mut out: Vec<u8> = Vec::new();
    push_le_u64(&mut out, w.limb0);
    let ghost s0 = out@;
    push_le_u64(&mut out, w.limb1);
    let ghost s1 = out@;
    push_le_u64(&mut out, w.limb2);
    let ghost s2 = out@;
    push_le_u64(&mut out, w.limb3);
    proof {
        let b = out@;
        assert(s0 =~= s0.subrange(0, 0) + s0.subrange(0, 8));
        assert(b.subrange(0, 8) == s0.subrange(0, 8)) by {
            assert(b.subrange(0, 8) =~= s1.subrange(0, 8));
            assert(s1.subrange(0, 8) =~= s0.subrange(0, 8));
            assert(b.subrange(0, 24) =~= s2);
            assert(s2.subrange(0, 16) =~= s1);
            assert(b.subrange(0, 8) =~= s2.subrange(0, 8));
        }
        assert(b.subrange(8, 16) =~= s1.subrange(8, 16)) by {
            assert(b.subrange(0, 24) =~= s2);
            assert(s2.subrange(0, 16) =~= s1);
        }
        assert(b.subrange(16, 24) =~= s2.subrange(16, 24));
        let c0 = b.subrange(0, 8);
        let c1 = b.subrange(8, 16);
        let c2 = b.subrange(16, 24);
        let c3 = b.subrange(24, 32);
        reveal_with_fuel(pow256, 9);
        assert(pow256(8) == 0x1_0000_0000_0000_0000nat);
        lemma_le_value_split(c2, c3);
        assert(c2 + c3 =~= b.subrange(16, 32));
        lemma_le_value_split(c1, b.subrange(16, 32));
        assert(c1 + b.subrange(16, 32) =~= b.subrange(8, 32));
        lemma_le_value_split(c0, b.subrange(8, 32));
        assert(c0 + b.subrange(8, 32) =~= b);
        let m: nat = 0x1_0000_0000_0000_0000nat;
        let v0 = le_value(c0);
        let v1 = le_value(c1);
        let v2 = le_value(c2);
        let v3 = le_value(c3);
        assert(v0 + m * (v1 + m * (v2 + m * v3)) == v0 + v1 * m + v2 * (m * m) + v3 * (m * m
            * m)) by (nonlinear_arith);
    }
    out
}

/// The inverse of `2^k` in BN254's scalar field, as a word.
pub fn fr_inverse_of_pow2(k: u32) -> (inv: Word256)
    requires
        k < 64,
    ensures
        inv.value() == fr_inverse(pow2(k as nat)),
        inv.value() < fr_modulus(),
        (inv.value() * pow2(k as nat)) % fr_modulus() == 1,
{
    let n = pow2_u64(k);
    let bytes = fr_inverse_u64(n);
    proof {
        lemma_fr_inverse_unique(pow2(k as nat), le_value(bytes@));
    }
    word_from_le_bytes(&bytes)
}

/// `base` raised to `exp` in BN254's scalar field, as a word.
pub fn fr_pow_word(base: &Word256, exp: u64) -> (res: Word256)
    requires
        base.value() < fr_modulus(),
    ensures
        res.value() == pow(base.value() as int, exp as nat) % (fr_modulus() as int),
{
    let bytes = word_le_bytes(base);
    let out = fr_pow(bytes.as_slice(), exp);
    word_from_le_bytes(&out)
}

} // verus!
