//! Character-indexed string helpers.
//!
//! All indices here count characters, never bytes: the edit-operation stream
//! measures text in characters, so every split point the engine computes is a
//! character position.

use vstd::prelude::*;
use vstd::string::StrSliceExecFns;
use vstd::string::StringSliceAdditionalSpecFns;

verus! {

/// The characters of `s` from `start` up to `start + len`, with both bounds
/// clamped to the length of `s`: asking for more characters than the string
/// holds yields the remainder, never an error.
pub open spec fn substring_view(s: Seq<char>, start: int, len: int) -> Seq<char> {
    let lo = if start <= s.len() {
        start
    } else {
        s.len() as int
    };
    let hi = if start + len <= s.len() {
        start + len
    } else {
        s.len() as int
    };
    if lo <= hi {
        s.subrange(lo, hi)
    } else {
        Seq::empty()
    }
}

/// Returns the substring of `s` that starts at character `start` and holds at
/// most `len` characters.  Out-of-range requests are clamped, never an error.
pub fn substring<'a>(s: &'a str, start: usize, len: usize) -> (r: &'a str)
    ensures
        r@ == substring_view(s@, start as int, len as int),
{
    let total = s.unicode_len();
    let lo = if start <= total {
        start
    } else {
        total
    };
    let remain = total - lo;
    let l = if len <= remain {
        len
    } else {
        remain
    };
    let r = s.substring_char(lo, lo + l);
    proof {
        assert(r@ =~= substring_view(s@, start as int, len as int));
    }
    r
}

/// Splits the string in two at character `index`: the left part holds the
/// first `index` characters, the right part starts there and runs for the
/// byte length minus two minus `index` characters, clamped to the string's
/// end -- long enough for any string holding at least two multi-byte
/// characters.
pub fn split_at_char<'a>(s: &'a str, index: usize) -> (r: (&'a str, &'a str))
    requires
        index + 2 <= s.spec_bytes().len(),
        s.spec_bytes().len() <= usize::MAX,
    ensures
        r.0@ == substring_view(s@, 0, index as int),
        r.1@ == substring_view(s@, index as int, s.spec_bytes().len() - 2 - index),
{
    let first = substring(s, 0, index);
    let second = substring(s, index, s.len() - 2 - index);
    (first, second)
}

/// True when `s` holds a line terminator.
pub fn contains_newline(s: &str) -> (r: bool)
    ensures
        r == exists|i: int| 0 <= i < s@.len() && s@[i] == '\n',
{
    let n = s.unicode_len();
    let mut i: usize = 0;
    while i < n
        invariant
            n == s@.len(),
            i <= n,
            forall|j: int| 0 <= j < i ==> s@[j] != '\n',
        decreases n - i,
    {
        if s.get_char(i) == '\n' {
            return true;
        }
        i = i + 1;
    }
    false
}

} // verus!
