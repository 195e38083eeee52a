//! Conversions between `String` and character vectors; the parser and the
//! serializer work over characters and cross to `String` at the API.

use vstd::prelude::*;
use vstd::string::StrSliceExecFns;

verus! {

/// Relies on `String::push`: appends exactly the one character.
#[verifier::external_body]
fn push_char(s: &mut String, c: char)
    ensures
        (*final(s))@ == (*old(s))@.push(c),
{
    s.push(c);
}

/// A `String` with exactly the given characters.
pub fn chars_to_string(v: &Vec<char>) -> (r: String)
    ensures
        r@ == v@,
{
    let mut out = String::new();
    let mut k: usize = 0;
    while k < v.len()
        invariant
            k <= v@.len(),
            out@ == v@.subrange(0, k as int),
        decreases v@.len() - k,
    {
        push_char(&mut out, v[k]);
        assert(v@.subrange(0, k + 1 as int) =~= v@.subrange(0, k as int).push(v@[k as int]));
        k += 1;
    }
    assert(v@.subrange(0, k as int) =~= v@);
    out
}

/// The characters of a text, in order.
pub fn str_to_chars(s: &str) -> (r: Vec<char>)
    ensures
        r@ == s@,
{
    let n = s.unicode_len();
    let mut out: Vec<char> = Vec::new();
    let mut k: usize = 0;
    while k < n
        invariant
            k <= n,
            n == s@.len(),
            out@ == s@.subrange(0, k as int),
        decreases n - k,
    {
        out.push(s.get_char(k));
        assert(s@.subrange(0, k + 1 as int) =~= s@.subrange(0, k as int).push(s@[k as int]));
        k += 1;
    }
    assert(s@.subrange(0, k as int) =~= s@);
    out
}

/// The characters of `v` between `lo` and `hi`, copied out.
pub(crate) fn copy_range(v: &Vec<char>, lo: usize, hi: usize) -> (r: Vec<char>)
    requires
        lo <= hi <= v@.len(),
    ensures
        r@ == v@.subrange(lo as int, hi as int),
{
    let mut out: Vec<char> = Vec::new();
    let mut k = lo;
    while k < hi
        invariant
            lo <= k <= hi <= v@.len(),
            out@ == v@.subrange(lo as int, k as int),
        decreases hi - k,
    {
        out.push(v[k]);
        assert(v@.subrange(lo as int, k + 1 as int) =~= v@.subrange(lo as int, k as int).push(
            v@[k as int],
        ));
        k += 1;
    }
    out
}

} // verus!
