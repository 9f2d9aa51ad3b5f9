//! Character-level helpers for the text forms of cards and card sets.

use vstd::prelude::*;

verus! {

/// Appends one character to a string.
///
/// Calls `String::push`; the contract claims that the string's characters
/// afterwards are the old ones followed by `c`, as std documents.
#[verifier::external_body]
pub(crate) fn push_char(s: &mut String, c: char)
    ensures
        final(s)@ == old(s)@.push(c),
{
    s.push(c);
}

/// Whether `c` is one of the Unicode variation selectors that may follow a
/// suit glyph.
pub open spec fn is_selector(c: char) -> bool {
    c == '\u{FE0F}' || c == '\u{FE0E}'
}

/// The text with trailing variation selectors removed.
pub open spec fn trim_selectors(s: Seq<char>) -> Seq<char>
    decreases s.len(),
{
    if s.len() > 0 && is_selector(s.last()) {
        trim_selectors(s.drop_last())
    } else {
        s
    }
}

/// Copies the characters of a string slice into a vector.
pub(crate) fn chars_of(s: &str) -> (v: Vec<char>)
    ensures
        v@ == s@,
{
    let n = s.unicode_len();
    let mut v: Vec<char> = Vec::new();
    let mut i: usize = 0;
    while i < n
        invariant
            n == s@.len(),
            i <= n,
            v@ == s@.subrange(0, i as int),
        decreases n - i,
    {
        let c = s.get_char(i);
        v.push(c);
        i += 1;
        assert(v@ =~= s@.subrange(0, i as int));
    }
    assert(v@ =~= s@);
    v
}

/// Appends the characters of `t` to `s`.
pub(crate) fn push_all(s: &mut String, t: &String)
    ensures
        final(s)@ == old(s)@ + t@,
{
    let cs = chars_of(t.as_str());
    let mut i: usize = 0;
    while i < cs.len()
        invariant
            i <= cs@.len(),
            cs@ == t@,
            s@ == old(s)@ + cs@.subrange(0, i as int),
        decreases cs@.len() - i,
    {
        push_char(s, cs[i]);
        i += 1;
        assert(s@ =~= old(s)@ + cs@.subrange(0, i as int));
    }
    assert(cs@.subrange(0, cs@.len() as int) =~= cs@);
}

/// The number of characters of `s[..end]` left after trimming trailing
/// variation selectors.
pub(crate) fn trimmed_len(s: &Vec<char>, end: usize) -> (n: usize)
    requires
        end <= s@.len(),
    ensures
        n <= end,
        s@.subrange(0, n as int) == trim_selectors(s@.subrange(0, end as int)),
{
    let mut n = end;
    while n > 0 && (s[n - 1] == '\u{FE0F}' || s[n - 1] == '\u{FE0E}')
        invariant
            n <= end <= s@.len(),
            trim_selectors(s@.subrange(0, n as int)) == trim_selectors(
                s@.subrange(0, end as int),
            ),
        decreases n,
    {
        assert(s@.subrange(0, n as int).drop_last() =~= s@.subrange(0, n - 1));
        n -= 1;
    }
    n
}

} // verus!
