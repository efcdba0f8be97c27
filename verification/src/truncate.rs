//! Unicode-safe truncation: the longest prefix of a string that stays
//! within a character budget, never splitting a multi-byte character.

use vstd::prelude::*;
use vstd::string::StrSliceExecFns;

verus! {

/// The longest prefix of `s` with at most `max_chars` characters.
pub open spec fn truncate_spec(s: Seq<char>, max_chars: int) -> Seq<char> {
    if s.len() <= max_chars {
        s
    } else {
        s.take(max_chars)
    }
}

/// Returns the longest prefix of `s` holding at most `max_chars` characters.
/// The cut falls on a character boundary by construction, whatever the byte
/// widths of the characters involved.
pub fn truncate_chars(s: &str, max_chars: usize) -> (r: String)
    ensures
        r@ == truncate_spec(s@, max_chars as int),
        r@.len() <= max_chars,
        s@.len() <= max_chars ==> r@ == s@,
        r@ == s@.take(r@.len() as int),
{
    let n = s.unicode_len();
    let r = if n <= max_chars {
        s.to_owned()
    } else {
        let t = s.substring_char(0, max_chars);
        t.to_owned()
    };
    proof {
        assert(r@ =~= truncate_spec(s@, max_chars as int));
        assert(r@ =~= s@.take(r@.len() as int));
    }
    r
}

/// True when `p` is a prefix of `s`.
pub open spec fn is_prefix_of(p: Seq<char>, s: Seq<char>) -> bool {
    p.len() <= s.len() && p == s.take(p.len() as int)
}

/// Law: a truncation never exceeds its character budget, returns the input
/// unchanged when it already fits, and is always a prefix of the input.
pub proof fn lemma_truncate_law(s: Seq<char>, max_chars: int)
    requires
        max_chars >= 0,
    ensures
        truncate_spec(s, max_chars).len() <= max_chars,
        s.len() <= max_chars ==> truncate_spec(s, max_chars) == s,
        is_prefix_of(truncate_spec(s, max_chars), s),
{
    assert(truncate_spec(s, max_chars) =~= s.take(truncate_spec(s, max_chars).len() as int));
}

} // verus!
