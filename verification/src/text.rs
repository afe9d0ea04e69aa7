use vstd::prelude::*;

verus! {

/// Appends `c` to `s`: calls `String::push`, which std documents as appending the character
/// to the end of the string.
#[verifier::external_body]
pub(crate) fn push_char(s: &mut String, c: char)
    ensures
        final(s)@ == old(s)@.push(c),
{
    s.push(c);
}

/// The string whose characters are `chars`.
pub(crate) fn string_from_chars(chars: &Vec<char>) -> (s: String)
    ensures
        s@ == chars@,
{
    let mut s = String::new();
    let mut k: usize = 0;
    while k < chars.len()
        invariant
            k <= chars.len(),
            s@ == chars@.take(k as int),
        decreases chars.len() - k,
    {
        push_char(&mut s, chars[k]);
        k += 1;
        assert(s@ =~= chars@.take(k as int));
    }
    assert(chars@.take(chars.len() as int) =~= chars@);
    s
}

} // verus!
