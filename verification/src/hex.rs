use vstd::prelude::*;

use crate::text::string_from_chars;
use crate::word::Word256;

verus! {

/// The lower-case hex digit of `d`, for `d < 16`.
pub open spec fn hex_char(d: nat) -> char {
    if d < 10 {
        (d + 48) as char
    } else {
        (d + 87) as char
    }
}

/// The shortest lower-case hex digits of `n` (`"0"` for 0), as `{:x}` prints it.
pub open spec fn hex_digits(n: nat) -> Seq<char>
    decreases n,
{
    if n < 16 {
        seq![hex_char(n)]
    } else {
        hex_digits(n / 16).push(hex_char(n % 16))
    }
}

/// `k` zero digits.
pub open spec fn zeros(k: nat) -> Seq<char> {
    Seq::new(k, |i: int| '0')
}

/// What `hex` renders for `n`: `0x` and the digits of `n`, with one leading zero added
/// when their number is odd, so that the digits form whole bytes.
pub open spec fn spec_hex(n: nat) -> Seq<char> {
    let d = hex_digits(n);
    if d.len() % 2 == 1 {
        seq!['0', 'x', '0'] + d
    } else {
        seq!['0', 'x'] + d
    }
}

/// What `hex_padded` renders for `n` and `pad`: `0x` and the digits of `n` left-padded with
/// zeros to `pad` digits; the bare `0x0` that 0 would give is widened to `pad` zeros.
pub open spec fn spec_hex_padded(n: nat, pad: nat) -> Seq<char> {
    let d = hex_digits(n);
    let padded = if d.len() < pad {
        zeros((pad - d.len()) as nat) + d
    } else {
        d
    };
    let s = seq!['0', 'x'] + padded;
    if s == seq!['0', 'x', '0'] {
        seq!['0', 'x'] + zeros(pad)
    } else {
        s
    }
}

/// The number that lower-case hex digits spell, most significant first.
pub open spec fn hex_number(s: Seq<char>) -> nat
    decreases s.len(),
{
    if s.len() == 0 {
        0
    } else {
        hex_number(s.drop_last()) * 16 + digit_value(s.last())
    }
}

/// The value of a lower-case hex digit.
pub open spec fn digit_value(c: char) -> nat {
    if '0' <= c <= '9' {
        (c as int - '0' as int) as nat
    } else {
        (c as int - 'a' as int + 10) as nat
    }
}

proof fn lemma_digit_value(d: nat)
    requires
        d < 16,
    ensures
        digit_value(hex_char(d)) == d,
        (hex_char(d) == '0') == (d == 0),
{
    let c = hex_char(d);
    if d < 10 {
        assert(c as int == d + 48);
    } else {
        assert(c as int == d + 87);
    }
}

/// The digits `hex_digits(n)` spell `n`, and the leading one is not zero unless `n` is.
pub proof fn lemma_hex_digits_spell(n: nat)
    ensures
        hex_number(hex_digits(n)) == n,
        hex_digits(n).len() >= 1,
        n > 0 ==> hex_digits(n)[0] != '0',
        n == 0 ==> hex_digits(n) == seq!['0'],
    decreases n,
{
    lemma_digit_value(n % 16);
    let d = hex_digits(n);
    if n < 16 {
        assert(d.drop_last() =~= Seq::<char>::empty());
        assert(d.last() == hex_char(n));
        assert(hex_number(d) == hex_number(d.drop_last()) * 16 + digit_value(d.last()));
    } else {
        lemma_hex_digits_spell(n / 16);
        assert(d.drop_last() =~= hex_digits(n / 16));
        assert(d.last() == hex_char(n % 16));
        assert(hex_number(d) == hex_number(d.drop_last()) * 16 + digit_value(d.last()));
        assert(hex_digits(n)[0] == hex_digits(n / 16)[0]);
    }
}

/// Zeros in front of digits do not change the number they spell.
pub proof fn lemma_leading_zeros(k: nat, d: Seq<char>)
    ensures
        hex_number(zeros(k) + d) == hex_number(d) + hex_number(zeros(k)) * pow16(d.len()),
        hex_number(zeros(k)) == 0,
    decreases d.len(),
{
    lemma_zeros_spell(k);
    if d.len() == 0 {
        assert(zeros(k) + d =~= zeros(k));
    } else {
        lemma_leading_zeros(k, d.drop_last());
        assert((zeros(k) + d).drop_last() =~= zeros(k) + d.drop_last());
    }
}

proof fn lemma_zeros_spell(k: nat)
    ensures
        hex_number(zeros(k)) == 0,
    decreases k,
{
    if k > 0 {
        lemma_zeros_spell((k - 1) as nat);
        assert(zeros(k).drop_last() =~= zeros((k - 1) as nat));
    }
}

/// `16^k`.
pub open spec fn pow16(k: nat) -> nat
    decreases k,
{
    if k == 0 {
        1
    } else {
        16 * pow16((k - 1) as nat)
    }
}

/// What `hex` renders is `0x` followed by an even number of digits that spell the value.
pub proof fn lemma_hex_spells_value(n: nat)
    ensures
        spec_hex(n).len() >= 4,
        spec_hex(n).len() % 2 == 0,
        spec_hex(n).take(2) == seq!['0', 'x'],
        hex_number(spec_hex(n).skip(2)) == n,
{
    lemma_hex_digits_spell(n);
    let d = hex_digits(n);
    if d.len() % 2 == 1 {
        assert(spec_hex(n).skip(2) =~= zeros(1) + d);
        lemma_leading_zeros(1, d);
    } else {
        assert(spec_hex(n).skip(2) =~= d);
    }
    assert(spec_hex(n).take(2) =~= seq!['0', 'x']);
}

/// What `hex_padded` renders is `0x` followed by at least `pad` digits that spell the value.
pub proof fn lemma_hex_padded_spells_value(n: nat, pad: nat)
    ensures
        spec_hex_padded(n, pad).take(2) == seq!['0', 'x'],
        spec_hex_padded(n, pad).len() >= pad + 2,
        hex_number(spec_hex_padded(n, pad).skip(2)) == n,
        hex_digits(n).len() <= pad ==> spec_hex_padded(n, pad).len() == pad + 2,
{
    lemma_hex_digits_spell(n);
    let d = hex_digits(n);
    let padded = if d.len() < pad {
        zeros((pad - d.len()) as nat) + d
    } else {
        d
    };
    if d.len() < pad {
        lemma_leading_zeros((pad - d.len()) as nat, d);
    }
    let s = seq!['0', 'x'] + padded;
    if s == seq!['0', 'x', '0'] {
        assert(spec_hex_padded(n, pad).skip(2) =~= zeros(pad));
        lemma_zeros_spell(pad);
        assert(padded =~= s.skip(2));
        assert(padded == seq!['0']);
        if d.len() < pad {
            assert(padded.len() == pad);
        }
        assert(hex_number(padded) == n);
        assert(hex_number(seq!['0']) == 0) by {
            assert(seq!['0'].drop_last() =~= Seq::<char>::empty());
        }
    } else {
        assert(spec_hex_padded(n, pad).skip(2) =~= padded);
    }
    assert(spec_hex_padded(n, pad).take(2) =~= seq!['0', 'x']);
}

fn digit_char(d: u64) -> (c: char)
    requires
        d < 16,
    ensures
        c == hex_char(d as nat),
{
    if d < 10 {
        ((d as u8) + 48u8) as char
    } else {
        ((d as u8) + 87u8) as char
    }
}

/// The shortest lower-case hex digits of the word's value.
fn word_hex_digits(value: &Word256) -> (digits: Vec<char>)
    ensures
        digits@ == hex_digits(value.value()),
{
    if value.is_zero() {
        let mut digits = Vec::new();
        digits.push('0');
        assert(digits@ =~= hex_digits(0));
        return digits;
    }
    // The digits, least significant first.
    let mut rev: Vec<char> = Vec::new();
    let mut cur = *value;
    let ghost n = value.value();
    while !cur.is_zero()
        invariant
            hex_digits(n) == (if cur.value() == 0 {
                Seq::<char>::empty()
            } else {
                hex_digits(cur.value())
            }) + rev@.reverse(),
        decreases cur.value(),
    {
        let (q, d) = cur.div_rem16();
        let c = digit_char(d);
        let ghost old_rev = rev@;
        let ghost cv = cur.value();
        rev.push(c);
        assert(rev@.reverse() =~= seq![c] + old_rev.reverse());
        proof {
            if q.value() == 0 {
                assert(hex_digits(cv) == seq![c]);
            } else {
                assert(cv / 16 == q.value() && cv % 16 == d as nat);
                assert(hex_digits(cv) == hex_digits(q.value()).push(c));
            }
        }
        cur = q;
        assert(hex_digits(n) =~= (if cur.value() == 0 {
            Seq::<char>::empty()
        } else {
            hex_digits(cur.value())
        }) + rev@.reverse());
    }
    let mut digits: Vec<char> = Vec::new();
    let len = rev.len();
    let mut k: usize = 0;
    while k < len
        invariant
            len == rev.len(),
            k <= len,
            digits@ == rev@.reverse().take(k as int),
        decreases len - k,
    {
        digits.push(rev[len - 1 - k]);
        k += 1;
        assert(digits@ =~= rev@.reverse().take(k as int));
    }
    assert(rev@.reverse().take(len as int) =~= rev@.reverse());
    digits
}

/// Renders the value as `0x` followed by its lower-case hex digits, with one leading zero
/// added when the number of digits is odd.
pub fn hex(value: &Word256) -> (s: String)
    ensures
        s@ == spec_hex(value.value()),
{
    let digits = word_hex_digits(value);
    let mut chars: Vec<char> = Vec::new();
    chars.push('0');
    chars.push('x');
    if digits.len() % 2 == 1 {
        chars.push('0');
    }
    let ghost head = chars@;
    let mut k: usize = 0;
    while k < digits.len()
        invariant
            k <= digits.len(),
            chars@ == head + digits@.take(k as int),
        decreases digits.len() - k,
    {
        chars.push(digits[k]);
        k += 1;
        assert(chars@ =~= head + digits@.take(k as int));
    }
    assert(digits@.take(digits.len() as int) =~= digits@);
    assert(chars@ =~= spec_hex(value.value()));
    string_from_chars(&chars)
}

/// Renders the value as `0x` followed by its lower-case hex digits left-padded with zeros to
/// `pad` digits; a zero value that would print as `0x0` prints as `0x` and `pad` zeros.
pub fn hex_padded(value: &Word256, pad: usize) -> (s: String)
    ensures
        s@ == spec_hex_padded(value.value(), pad as nat),
{
    let digits = word_hex_digits(value);
    let mut chars: Vec<char> = Vec::new();
    chars.push('0');
    chars.push('x');
    let fill: usize = if digits.len() < pad { pad - digits.len() } else { 0 };
    let mut k: usize = 0;
    while k < fill
        invariant
            k <= fill,
            chars@ == seq!['0', 'x'] + zeros(k as nat),
        decreases fill - k,
    {
        chars.push('0');
        k += 1;
        assert(chars@ =~= seq!['0', 'x'] + zeros(k as nat));
    }
    let ghost head = chars@;
    let mut k: usize = 0;
    while k < digits.len()
        invariant
            k <= digits.len(),
            chars@ == head + digits@.take(k as int),
        decreases digits.len() - k,
    {
        chars.push(digits[k]);
        k += 1;
        assert(chars@ =~= head + digits@.take(k as int));
    }
    assert(digits@.take(digits.len() as int) =~= digits@);
    let ghost d = hex_digits(value.value());
    let ghost padded = if d.len() < pad {
        zeros((pad - d.len()) as nat) + d
    } else {
        d
    };
    assert(chars@ =~= seq!['0', 'x'] + padded);
    if chars.len() == 3 && chars[2] == '0' {
        assert(chars@ =~= seq!['0', 'x', '0']);
        let mut zs: Vec<char> = Vec::new();
        zs.push('0');
        zs.push('x');
        let mut k: usize = 0;
        while k < pad
            invariant
                k <= pad,
                zs@ == seq!['0', 'x'] + zeros(k as nat),
            decreases pad - k,
        {
            zs.push('0');
            k += 1;
            assert(zs@ =~= seq!['0', 'x'] + zeros(k as nat));
        }
        string_from_chars(&zs)
    } else {
        assert(chars@ != seq!['0', 'x', '0']) by {
            if chars.len() == 3 {
                assert(chars@[2] != seq!['0', 'x', '0'][2]);
            }
        }
        string_from_chars(&chars)
    }
}

} // verus!
