use vstd::prelude::*;

use crate::hex::{
    digit_value, hex_char, hex_digits, hex_number, lemma_hex_digits_spell,
    lemma_hex_padded_spells_value, pow16, spec_hex_padded, zeros,
};
use crate::word::Word256;

verus! {

/// The texts of capture group `group` in the successive matches of the regular expression
/// `pattern` in `haystack` (None for a match in which the group took no part), or None when
/// the pattern does not compile.
pub uninterp spec fn regex_group_matches(
    pattern: Seq<char>,
    haystack: Seq<char>,
    group: usize,
) -> Option<Seq<Option<Seq<char>>>>;

/// The captures as character sequences.
pub open spec fn captures_view(c: Option<Vec<Option<String>>>) -> Option<Seq<Option<Seq<char>>>> {
    match c {
        None => None,
        Some(v) => Some(
            v@.map_values(
                |o: Option<String>|
                    match o {
                        Some(s) => Some(s@),
                        None => None,
                    },
            ),
        ),
    }
}

/// Calls `regex::Regex::new(pattern)` and, when it compiles, walks `captures_iter(haystack)`,
/// taking from each match the text of capture group `group` (`Captures::get`). The contract
/// claims only that the result is a function of the pattern, the haystack and the group,
/// which the regex crate's matching is; what it matches is left unsaid.
#[verifier::external_body]
fn regex_group_captures(pattern: &str, haystack: &str, group: usize) -> (res: Option<
    Vec<Option<String>>,
>)
    ensures
        captures_view(res) == regex_group_matches(pattern@, haystack@, group),
{
    match regex::Regex::new(pattern) {
        Ok(re) => Some(
            re.captures_iter(haystack).map(|c| c.get(group).map(|m| m.as_str().to_string())).collect(),
        ),
        Err(_) => None,
    }
}

/// The pattern of a word store in a rendered verifying artifact: `mstore(`, anything, a
/// comma, optional space, `0x`, and 64 hex digits, which group 1 captures.
pub open spec fn vka_word_pattern() -> Seq<char> {
    "mstore\\(.*?,\\s*0x([0-9a-fA-F]{64})"@
}

/// Whether `c` is a hex digit (either case).
pub open spec fn is_hex_digit(c: char) -> bool {
    ('0' <= c <= '9') || ('a' <= c <= 'f') || ('A' <= c <= 'F')
}

/// The value of hex digit `c`.
pub open spec fn hex_digit_value(c: char) -> int {
    if '0' <= c <= '9' {
        c as int - '0' as int
    } else if 'a' <= c <= 'f' {
        c as int - 'a' as int + 10
    } else {
        c as int - 'A' as int + 10
    }
}

/// Whether `s` is 64 hex digits.
pub open spec fn is_hex_word(s: Seq<char>) -> bool {
    s.len() == 64 && forall|i: int| 0 <= i < 64 ==> is_hex_digit(#[trigger] s[i])
}

/// The 32 bytes that 64 hex digits spell, two digits per byte, most significant digit first.
pub open spec fn hex_word_bytes(s: Seq<char>) -> Seq<u8> {
    Seq::new(32, |i: int| (16 * hex_digit_value(s[2 * i]) + hex_digit_value(s[2 * i + 1])) as u8)
}

/// The captured texts, in order, skipping matches without one.
pub open spec fn present(caps: Seq<Option<Seq<char>>>) -> Seq<Seq<char>>
    decreases caps.len(),
{
    if caps.len() == 0 {
        Seq::empty()
    } else {
        match caps.last() {
            Some(s) => present(caps.drop_last()).push(s),
            None => present(caps.drop_last()),
        }
    }
}

fn hex_digit(c: char) -> (d: u8)
    requires
        is_hex_digit(c),
    ensures
        d as int == hex_digit_value(c),
        d < 16,
{
    let v = c as u32;
    if '0' <= c && c <= '9' {
        (v - ('0' as u32)) as u8
    } else if 'a' <= c && c <= 'f' {
        (v - ('a' as u32) + 10) as u8
    } else {
        (v - ('A' as u32) + 10) as u8
    }
}

/// Whether the text is 64 hex digits.
fn check_hex_word(s: &str) -> (ok: bool)
    ensures
        ok == is_hex_word(s@),
{
    let n = s.unicode_len();
    if n != 64 {
        return false;
    }
    let mut i: usize = 0;
    while i < 64
        invariant
            s@.len() == 64,
            i <= 64,
            forall|j: int| 0 <= j < i ==> is_hex_digit(#[trigger] s@[j]),
        decreases 64 - i,
    {
        let c = s.get_char(i);
        if !(('0' <= c && c <= '9') || ('a' <= c && c <= 'f') || ('A' <= c && c <= 'F')) {
            return false;
        }
        i += 1;
    }
    true
}

/// The 32 bytes that 64 hex digits spell.
pub fn decode_hex_word(s: &str) -> (word: [u8; 32])
    requires
        is_hex_word(s@),
    ensures
        word@ == hex_word_bytes(s@),
{
    let mut word = [0u8; 32];
    let mut i: usize = 0;
    while i < 32
        invariant
            is_hex_word(s@),
            i <= 32,
            forall|j: int| 0 <= j < i ==> word@[j] == #[trigger] hex_word_bytes(s@)[j],
        decreases 32 - i,
    {
        let hi = hex_digit(s.get_char(2 * i));
        let lo = hex_digit(s.get_char(2 * i + 1));
        word[i] = 16 * hi + lo;
        i += 1;
    }
    assert(word@ =~= hex_word_bytes(s@));
    word
}

/// Whether `res` is what decoding the captured texts `caps` gives: the texts present, each
/// decoded from 64 hex digits to 32 bytes, in order; None when one is not 64 hex digits.
pub open spec fn decodes_captures(caps: Seq<Option<Seq<char>>>, res: Option<Vec<[u8; 32]>>) -> bool {
    let words = present(caps);
    if forall|k: int| 0 <= k < words.len() ==> is_hex_word(#[trigger] words[k]) {
        res matches Some(v) && v.len() == words.len() && forall|k: int|
            0 <= k < words.len() ==> (#[trigger] v@[k])@ == hex_word_bytes(words[k])
    } else {
        res is None
    }
}

/// Decodes the captured texts of the word stores: each present text of 64 hex digits becomes
/// its 32 bytes, in order; None when a present text is not 64 hex digits.
pub fn decode_vka_captures(caps: Vec<Option<String>>) -> (res: Option<Vec<[u8; 32]>>)
    ensures
        decodes_captures(captures_view(Some(caps))->0, res),
{
    let ghost cv = captures_view(Some(caps))->0;
    assert(cv.len() == caps.len());
    let mut words: Vec<[u8; 32]> = Vec::new();
    let mut i: usize = 0;
    while i < caps.len()
        invariant
            i <= caps.len(),
            cv == captures_view(Some(caps))->0,
            cv.len() == caps.len(),
            words.len() == present(cv.take(i as int)).len(),
            forall|k: int|
                0 <= k < present(cv.take(i as int)).len() ==> is_hex_word(
                    #[trigger] present(cv.take(i as int))[k],
                ),
            forall|k: int|
                0 <= k < words.len() ==> (#[trigger] words@[k])@ == hex_word_bytes(
                    present(cv.take(i as int))[k],
                ),
        decreases caps.len() - i,
    {
        let ghost p0 = present(cv.take(i as int));
        let ghost p1 = present(cv.take(i + 1));
        proof {
            lemma_present_extends(cv, i as int + 1);
        }
        match &caps[i] {
            Some(hex_str) => {
                assert(cv[i as int] == Some(hex_str@));
                assert(p1 == p0.push(hex_str@));
                if !check_hex_word(hex_str.as_str()) {
                    proof {
                        let k = p1.len() - 1;
                        assert(p1[k] == hex_str@);
                        lemma_present_prefix(cv, i + 1, k);
                        assert(!is_hex_word(present(cv)[k]));
                    }
                    return None;
                }
                let word = decode_hex_word(hex_str.as_str());
                let ghost pre = words@;
                words.push(word);
                assert forall|k: int| 0 <= k < p1.len() implies is_hex_word(#[trigger] p1[k]) by {
                    if k < p0.len() {
                        assert(p1[k] == p0[k]);
                    }
                }
                assert forall|k: int| 0 <= k < words.len() implies (#[trigger] words@[k])@
                    == hex_word_bytes(p1[k]) by {
                    if k < pre.len() {
                        assert(words@[k] == pre[k]);
                        assert(p1[k] == p0[k]);
                    }
                }
            },
            None => {
                assert(cv[i as int] is None);
                assert(p1 == p0);
            },
        }
        i += 1;
    }
    assert(cv.take(caps.len() as int) =~= cv);
    assert(forall|k: int| 0 <= k < present(cv).len() ==> is_hex_word(#[trigger] present(cv)[k]));
    Some(words)
}

/// The words that a rendered verifying artifact stores, in order: each `mstore(.., 0x..)`
/// with 64 hex digits, decoded to 32 bytes. None when a capture is not 64 hex digits or the
/// pattern does not compile, which the regex crate's matching rules out.
pub fn vka_words_from_artifact(vka_output: &str) -> (res: Option<Vec<[u8; 32]>>)
    ensures
        match regex_group_matches(vka_word_pattern(), vka_output@, 1) {
            None => res is None,
            Some(caps) => decodes_captures(caps, res),
        },
{
    let pattern = "mstore\\(.*?,\\s*0x([0-9a-fA-F]{64})";
    assert(pattern@ == vka_word_pattern());
    match regex_group_captures(pattern, vka_output, 1) {
        Some(caps) => decode_vka_captures(caps),
        None => None,
    }
}

/// Appending a capture extends the present texts by it.
proof fn lemma_present_extends(caps: Seq<Option<Seq<char>>>, n: int)
    requires
        0 < n <= caps.len(),
    ensures
        present(caps.take(n)) == match caps[n - 1] {
            Some(s) => present(caps.take(n - 1)).push(s),
            None => present(caps.take(n - 1)),
        },
{
    assert(caps.take(n).drop_last() =~= caps.take(n - 1));
}

/// The present texts of a prefix are a prefix of the present texts.
proof fn lemma_present_prefix(caps: Seq<Option<Seq<char>>>, n: int, k: int)
    requires
        0 <= n <= caps.len(),
        0 <= k < present(caps.take(n)).len(),
    ensures
        k < present(caps).len(),
        present(caps)[k] == present(caps.take(n))[k],
    decreases caps.len() - n,
{
    if n < caps.len() {
        lemma_present_extends(caps, n + 1);
        lemma_present_prefix(caps, n + 1, k);
    } else {
        assert(caps.take(n) =~= caps);
    }
}

/// The number that bytes spell, most significant first.
pub open spec fn be_value(bytes: Seq<u8>) -> nat
    decreases bytes.len(),
{
    if bytes.len() == 0 {
        0
    } else {
        be_value(bytes.drop_last()) * 256 + bytes.last() as nat
    }
}

/// Whether `c` is a lower-case hex digit.
pub open spec fn is_lower_hex_digit(c: char) -> bool {
    ('0' <= c <= '9') || ('a' <= c <= 'f')
}

/// `16^(a + b) == 16^a * 16^b`.
proof fn lemma_pow16_add(a: nat, b: nat)
    ensures
        pow16(a + b) == pow16(a) * pow16(b),
    decreases a,
{
    if a == 0 {
        assert(pow16(0) == 1);
        assert(a + b == b);
    } else {
        lemma_pow16_add((a - 1) as nat, b);
        assert(pow16(a) == 16 * pow16((a - 1) as nat));
        assert(pow16(a + b) == 16 * pow16((a - 1 + b) as nat));
        assert(16 * (pow16((a - 1) as nat) * pow16(b)) == (16 * pow16((a - 1) as nat)) * pow16(b))
            by (nonlinear_arith);
    }
}

/// A word's value is below `16^64`.
proof fn lemma_word_below_pow16(w: Word256)
    ensures
        w.value() < pow16(64),
{
    let m: nat = 0x1_0000_0000_0000_0000nat;
    assert(pow16(16) == m) by {
        reveal_with_fuel(pow16, 17);
    }
    lemma_pow16_add(16, 16);
    lemma_pow16_add(32, 16);
    lemma_pow16_add(48, 16);
    assert(pow16(64) == m * m * m * m);
    let l0 = w.limb0 as nat;
    let l1 = w.limb1 as nat;
    let l2 = w.limb2 as nat;
    let l3 = w.limb3 as nat;
    assert(l0 < m && l1 < m && l2 < m && l3 < m);
    assert(w.value() == l0 + m * (l1 + m * (l2 + m * l3))) by (nonlinear_arith)
        requires
            w.value() == l0 + l1 * 0x1_0000_0000_0000_0000nat + l2
                * 0x1_0000_0000_0000_0000_0000_0000_0000_0000nat + l3
                * 0x1_0000_0000_0000_0000_0000_0000_0000_0000_0000_0000_0000_0000nat,
            m == 0x1_0000_0000_0000_0000nat,
    ;
    assert(l2 + m * l3 < m * m) by (nonlinear_arith)
        requires
            l2 < m,
            l3 < m,
    ;
    assert(l1 + m * (l2 + m * l3) < m * (m * m)) by (nonlinear_arith)
        requires
            l1 < m,
            l2 + m * l3 < m * m,
    ;
    assert(l0 + m * (l1 + m * (l2 + m * l3)) < m * (m * (m * m))) by (nonlinear_arith)
        requires
            l0 < m,
            l1 + m * (l2 + m * l3) < m * (m * m),
    ;
    assert(m * (m * (m * m)) == m * m * m * m) by (nonlinear_arith);
}

/// A number below `16^k` (`k >= 1`) has at most `k` hex digits, all lower-case.
proof fn lemma_hex_digits_shape(n: nat, k: nat)
    requires
        k >= 1,
        n < pow16(k),
    ensures
        hex_digits(n).len() <= k,
        forall|i: int| 0 <= i < hex_digits(n).len() ==> is_lower_hex_digit(#[trigger] hex_digits(n)[i]),
    decreases n,
{
    if n < 16 {
        lemma_hex_char_lower(n);
    } else {
        assert(k >= 2) by {
            if k == 1 {
                assert(pow16(1) == 16) by {
                    reveal_with_fuel(pow16, 2);
                }
            }
        }
        assert(n / 16 < pow16((k - 1) as nat)) by (nonlinear_arith)
            requires
                n < pow16(k),
                pow16(k) == 16 * pow16((k - 1) as nat),
        ;
        lemma_hex_digits_shape(n / 16, (k - 1) as nat);
        lemma_hex_char_lower(n % 16);
        let d = hex_digits(n);
        assert forall|i: int| 0 <= i < d.len() implies is_lower_hex_digit(#[trigger] d[i]) by {
            if i < d.len() - 1 {
                assert(d[i] == hex_digits(n / 16)[i]);
            }
        }
    }
}

proof fn lemma_hex_char_lower(d: nat)
    requires
        d < 16,
    ensures
        is_lower_hex_digit(hex_char(d)),
{
    let c = hex_char(d);
    if d < 10 {
        assert(c as int == d + 48);
    } else {
        assert(c as int == d + 87);
    }
}

/// The bytes that the first `m` digit pairs of `p` spell.
pub open spec fn digit_pair_bytes(p: Seq<char>, m: nat) -> Seq<u8> {
    Seq::new(m, |i: int| (16 * hex_digit_value(p[2 * i]) + hex_digit_value(p[2 * i + 1])) as u8)
}

/// Lower-case hex digits taken two at a time spell, as bytes, the number they spell.
proof fn lemma_digit_pairs(p: Seq<char>, k: nat)
    requires
        2 * k <= p.len(),
        forall|i: int| 0 <= i < p.len() ==> is_lower_hex_digit(#[trigger] p[i]),
    ensures
        be_value(digit_pair_bytes(p, k)) == hex_number(p.take(2 * k as int)),
    decreases k,
{
    if k == 0 {
        assert(p.take(0) =~= Seq::<char>::empty());
        assert(digit_pair_bytes(p, 0) =~= Seq::<u8>::empty());
        assert(be_value(digit_pair_bytes(p, 0)) == 0);
        assert(hex_number(p.take(0)) == 0);
    } else {
        let j = k - 1;
        lemma_digit_pairs(p, j as nat);
        assert(digit_pair_bytes(p, k).drop_last() =~= digit_pair_bytes(p, j as nat));
        let a = p[2 * j];
        let b = p[2 * j + 1];
        assert(is_lower_hex_digit(a) && is_lower_hex_digit(b));
        assert(hex_digit_value(a) == digit_value(a) && digit_value(a) < 16);
        assert(hex_digit_value(b) == digit_value(b) && digit_value(b) < 16);
        assert(p.take(2 * k as int).drop_last() =~= p.take(2 * j + 1));
        assert(p.take(2 * j + 1).drop_last() =~= p.take(2 * j));
        assert(p.take(2 * k as int).last() == b);
        assert(p.take(2 * j + 1).last() == a);
        assert(digit_pair_bytes(p, k).last() as nat == 16 * digit_value(a) + digit_value(b));
        let h = hex_number(p.take(2 * j));
        assert(be_value(digit_pair_bytes(p, k)) == be_value(digit_pair_bytes(p, j as nat)) * 256
            + digit_pair_bytes(p, k).last() as nat);
        assert(hex_number(p.take(2 * k as int)) == hex_number(p.take(2 * j + 1)) * 16 + digit_value(b));
        assert(hex_number(p.take(2 * j + 1)) == h * 16 + digit_value(a));
        assert((h * 16 + digit_value(a)) * 16 + digit_value(b) == h * 256 + (16 * digit_value(a)
            + digit_value(b))) by (nonlinear_arith);
    }
}

/// A word rendered by `hex_padded` to 64 digits reads back: `0x` and then 64 hex digits,
/// whose 32 bytes, as `decode_hex_word` reads them, spell the word's value, most significant
/// byte first.
pub proof fn lemma_padded_word_reads_back(w: Word256)
    ensures
        ({
            let s = spec_hex_padded(w.value(), 64);
            &&& s.len() == 66
            &&& s.take(2) == seq!['0', 'x']
            &&& is_hex_word(s.skip(2))
            &&& be_value(hex_word_bytes(s.skip(2))) == w.value()
        }),
{
    let n = w.value();
    lemma_word_below_pow16(w);
    lemma_hex_digits_shape(n, 64);
    lemma_hex_padded_spells_value(n, 64);
    lemma_hex_digits_spell(n);
    let s = spec_hex_padded(n, 64);
    let p = s.skip(2);
    let d = hex_digits(n);
    assert(s.len() == 66);
    assert(p.len() == 64);
    let padded = if d.len() < 64 {
        zeros((64 - d.len()) as nat) + d
    } else {
        d
    };
    assert((seq!['0', 'x'] + padded).len() == 66);
    assert(seq!['0', 'x'] + padded != seq!['0', 'x', '0']);
    assert(s == seq!['0', 'x'] + padded);
    assert(p =~= padded);
    assert forall|i: int| 0 <= i < p.len() implies is_lower_hex_digit(#[trigger] p[i]) by {
        if d.len() < 64 {
            let z = (64 - d.len()) as nat;
            if i < z {
                assert(p[i] == zeros(z)[i]);
            } else {
                assert(p[i] == d[i - z]);
            }
        } else {
            assert(p[i] == d[i]);
        }
    }
    assert forall|i: int| 0 <= i < 64 implies is_hex_digit(#[trigger] p[i]) by {
        assert(is_lower_hex_digit(p[i]));
    }
    lemma_digit_pairs(p, 32);
    assert(hex_word_bytes(p) =~= digit_pair_bytes(p, 32));
    assert(p.take(64) =~= p);
}

} // verus!
