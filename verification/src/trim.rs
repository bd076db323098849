//! Decomposition of a string into leading whitespace, core text and
//! trailing whitespace.

use vstd::prelude::*;
use vstd::string::StrSliceExecFns;

verus! {

/// Whether `c` has the Unicode `White_Space` property, written out as the
/// explicit list of scalar values so that the classification is fully
/// visible to the verifier.
pub open spec fn is_whitespace_char(c: char) -> bool {
    let u = c as u32;
    ||| u == 0x09
    ||| u == 0x0A
    ||| u == 0x0B
    ||| u == 0x0C
    ||| u == 0x0D
    ||| u == 0x20
    ||| u == 0x85
    ||| u == 0xA0
    ||| u == 0x1680
    ||| (0x2000 <= u && u <= 0x200A)
    ||| u == 0x2028
    ||| u == 0x2029
    ||| u == 0x202F
    ||| u == 0x205F
    ||| u == 0x3000
}

/// Runtime test for [`is_whitespace_char`].
fn char_is_whitespace(c: char) -> (b: bool)
    ensures
        b == is_whitespace_char(c),
{
    let u = c as u32;
    u == 0x09 || u == 0x0A || u == 0x0B || u == 0x0C || u == 0x0D || u == 0x20 || u == 0x85
        || u == 0xA0 || u == 0x1680 || (0x2000 <= u && u <= 0x200A) || u == 0x2028 || u == 0x2029
        || u == 0x202F || u == 0x205F || u == 0x3000
}

/// Splits `s` into its leading whitespace, its core text and its trailing
/// whitespace; the three slices concatenate back to exactly `s`.
///
/// The trailing part is the maximal whitespace suffix of `s`; the leading
/// part is the maximal whitespace prefix of what remains. If `s` is nothing
/// but whitespace, the leading and core parts are empty and the trailing
/// part is the whole of `s`.
pub fn split_trim<'a>(s: &'a str) -> (r: (&'a str, &'a str, &'a str))
    ensures
        r.0@ + r.1@ + r.2@ == s@,
        forall|i: int| 0 <= i < r.0@.len() ==> is_whitespace_char(#[trigger] r.0@[i]),
        forall|i: int| 0 <= i < r.2@.len() ==> is_whitespace_char(#[trigger] r.2@[i]),
        r.1@.len() > 0 ==> !is_whitespace_char(r.1@.first()) && !is_whitespace_char(r.1@.last()),
        r.1@.len() == 0 ==> r.0@.len() == 0,
{
    let n = s.unicode_len();
    let mut end: usize = n;
    while end > 0 && char_is_whitespace(s.get_char(end - 1))
        invariant
            end <= n,
            n == s@.len(),
            forall|k: int| end <= k < n ==> is_whitespace_char(#[trigger] s@[k]),
        decreases end,
    {
        end = end - 1;
    }
    let mut front: usize = 0;
    while front < end && char_is_whitespace(s.get_char(front))
        invariant
            front <= end <= n,
            n == s@.len(),
            forall|k: int| 0 <= k < front ==> is_whitespace_char(#[trigger] s@[k]),
        decreases end - front,
    {
        front = front + 1;
    }
    let leading = s.substring_char(0, front);
    let core = s.substring_char(front, end);
    let trailing = s.substring_char(end, n);
    proof {
        assert(leading@ + core@ + trailing@ =~= s@);
    }
    (leading, core, trailing)
}

} // verus!
