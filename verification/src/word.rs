use vstd::prelude::*;

verus! {

/// Bit `j` of a 64-bit integer (false outside `0..64`).
pub open spec fn u64_bit(x: u64, j: int) -> bool {
    0 <= j < 64 && (x >> (j as u64)) & 1u64 == 1u64
}

/// An unsigned 256-bit machine word, held as four 64-bit limbs, least significant first.
#[derive(Clone, Copy, Debug, PartialEq, Eq)]
pub struct Word256 {
    pub limb0: u64,
    pub limb1: u64,
    pub limb2: u64,
    pub limb3: u64,
}

impl Word256 {
    /// Limb `j` of the word (0 outside `0..4`).
    pub open spec fn limb(self, j: int) -> u64 {
        if j == 0 {
            self.limb0
        } else if j == 1 {
            self.limb1
        } else if j == 2 {
            self.limb2
        } else if j == 3 {
            self.limb3
        } else {
            0
        }
    }

    /// Bit `i` of the word, for `0 <= i < 256`.
    pub open spec fn bit(self, i: int) -> bool {
        0 <= i < 256 && u64_bit(self.limb(i / 64), i % 64)
    }

    /// The number the word denotes.
    pub open spec fn value(self) -> nat {
        self.limb0 as nat + self.limb1 as nat * 0x1_0000_0000_0000_0000nat
            + self.limb2 as nat * 0x1_0000_0000_0000_0000_0000_0000_0000_0000nat
            + self.limb3 as nat * 0x1_0000_0000_0000_0000_0000_0000_0000_0000_0000_0000_0000_0000nat
    }

    /// The word 0.
    pub fn zero() -> (w: Word256)
        ensures
            w.value() == 0,
            forall|i: int| !#[trigger] w.bit(i),
    {
        let w = Word256 { limb0: 0, limb1: 0, limb2: 0, limb3: 0 };
        assert forall|i: int| !#[trigger] w.bit(i) by {
            let t = (i % 64) as u64;
            assert((0u64 >> t) & 1u64 == 0u64) by (bit_vector);
        }
        w
    }

    /// The word holding `v`.
    pub fn from_u64(v: u64) -> (w: Word256)
        ensures
            w.value() == v,
            forall|i: int| #[trigger] w.bit(i) == (0 <= i && u64_bit(v, i)),
    {
        let mut w = Word256::zero();
        w.or_shl(v, 0);
        w
    }

    /// Whether the word is 0.
    pub fn is_zero(&self) -> (b: bool)
        ensures
            b == (self.value() == 0),
    {
        self.limb0 == 0 && self.limb1 == 0 && self.limb2 == 0 && self.limb3 == 0
    }

    /// The quotient and the remainder of the word divided by 16.
    pub fn div_rem16(&self) -> (res: (Word256, u64))
        ensures
            res.1 < 16,
            self.value() == 16 * res.0.value() + res.1,
    {
        proof {
            lemma_split_nibble(self.limb0, self.limb1);
            lemma_split_nibble(self.limb1, self.limb2);
            lemma_split_nibble(self.limb2, self.limb3);
            lemma_split_nibble(self.limb3, 0);
        }
        let q = Word256 {
            limb0: (self.limb0 >> 4) | (self.limb1 << 60),
            limb1: (self.limb1 >> 4) | (self.limb2 << 60),
            limb2: (self.limb2 >> 4) | (self.limb3 << 60),
            limb3: self.limb3 >> 4,
        };
        (q, self.limb0 & 15)
    }

    /// `self |= v << s`, the bits shifted beyond 256 being dropped (as a 256-bit shift does).
    pub fn or_shl(&mut self, v: u64, s: usize)
        ensures
            forall|i: int| #[trigger]
                final(self).bit(i) == (old(self).bit(i) || (0 <= i < 256 && s <= i && u64_bit(v, i - s))),
            s == 0 && old(self).value() == 0 ==> final(self).value() == v,
    {
        if s >= 256 {
            return;
        }
        let q: usize = s / 64;
        let r: u64 = (s % 64) as u64;
        let lo: u64 = v << r;
        let hi: u64 = if r == 0 { 0 } else { v >> (64 - r) };
        let ghost pre = *self;
        if q == 0 {
            self.limb0 = self.limb0 | lo;
            self.limb1 = self.limb1 | hi;
        } else if q == 1 {
            self.limb1 = self.limb1 | lo;
            self.limb2 = self.limb2 | hi;
        } else if q == 2 {
            self.limb2 = self.limb2 | lo;
            self.limb3 = self.limb3 | hi;
        } else {
            self.limb3 = self.limb3 | lo;
        }
        let ghost post = *self;
        assert forall|i: int| #[trigger]
            post.bit(i) == (pre.bit(i) || (0 <= i < 256 && s <= i && u64_bit(v, i - s))) by {
            if 0 <= i < 256 {
                let j = i / 64;
                let t = (i % 64) as u64;
                let x = pre.limb(j);
                if j == q {
                    lemma_or_shl_bit(x, v, r, t);
                } else if j == q + 1 {
                    if r == 0 {
                        assert((x | 0u64) == x) by (bit_vector);
                    } else {
                        lemma_or_shr_bit(x, v, r, t);
                    }
                }
            }
        }
        proof {
            if s == 0 && pre.value() == 0 {
                assert(r == 0 && q == 0);
                assert(v << 0u64 == v) by (bit_vector);
                assert((0u64 | v) == v) by (bit_vector);
                assert((0u64 | 0u64) == 0u64) by (bit_vector);
            }
        }
    }
}

/// How a limb splits at its lowest hex digit, and how the next limb's lowest digit joins it.
proof fn lemma_split_nibble(x: u64, y: u64)
    ensures
        x == 16 * (x >> 4u64) + (x & 15u64),
        (x & 15u64) < 16,
        ((x >> 4u64) | (y << 60u64)) == (x >> 4u64) + (y & 15u64) * 0x1000_0000_0000_0000,
        y == 16 * (y >> 4u64) + (y & 15u64),
        y == 0 ==> (y & 15u64) == 0,
{
    assert(x == 16 * (x >> 4u64) + (x & 15u64) && (x & 15u64) < 16 && ((x >> 4u64) | (y << 60u64))
        == (x >> 4u64) + (y & 15u64) * 0x1000_0000_0000_0000 && y == 16 * (y >> 4u64) + (y & 15u64)
        && (y == 0 ==> (y & 15u64) == 0)) by (bit_vector);
}

/// Bit `t` of `x | (v << r)`.
proof fn lemma_or_shl_bit(x: u64, v: u64, r: u64, t: u64)
    requires
        r < 64,
        t < 64,
    ensures
        (((x | (v << r)) >> t) & 1u64 == 1u64) == (((x >> t) & 1u64 == 1u64) || (t >= r && (v >> (
        (t - r) as u64)) & 1u64 == 1u64)),
{
    assert((((x | (v << r)) >> t) & 1u64 == 1u64) == (((x >> t) & 1u64 == 1u64) || (t >= r && (v
        >> ((t - r) as u64)) & 1u64 == 1u64))) by (bit_vector)
        requires
            r < 64,
            t < 64,
    ;
}

/// Bit `t` of `x | (v >> (64 - r))`.
proof fn lemma_or_shr_bit(x: u64, v: u64, r: u64, t: u64)
    requires
        0 < r < 64,
        t < 64,
    ensures
        (((x | (v >> ((64 - r) as u64))) >> t) & 1u64 == 1u64) == (((x >> t) & 1u64 == 1u64) || (t
            < r && (v >> ((t + 64 - r) as u64)) & 1u64 == 1u64)),
{
    assert((((x | (v >> ((64 - r) as u64))) >> t) & 1u64 == 1u64) == (((x >> t) & 1u64 == 1u64)
        || (t < r && (v >> ((t + 64 - r) as u64)) & 1u64 == 1u64))) by (bit_vector)
        requires
            0 < r < 64,
            t < 64,
    ;
}

} // verus!
