//! The dialect's numeric literals: the signed 64-bit integer grammar with its
//! value, the decimal floating-point grammar (kept as text in the tree), and
//! canonical decimal rendering of integers.

use vstd::prelude::*;
use crate::scan::scan_until;
use crate::scan::find_char2;

verus! {

pub open spec fn is_digit(c: char) -> bool {
    '0' <= c && c <= '9'
}

pub open spec fn digit_val(c: char) -> int {
    c as int - '0' as int
}

pub open spec fn all_digits(s: Seq<char>) -> bool {
    forall|i: int| 0 <= i < s.len() ==> is_digit(s[i])
}

/// Value of a digit string, most significant digit first.
pub open spec fn digits_val(s: Seq<char>) -> int
    decreases s.len(),
{
    if s.len() == 0 {
        0
    } else {
        digits_val(s.drop_last()) * 10 + digit_val(s.last())
    }
}

pub open spec fn is_sign(c: char) -> bool {
    c == '+' || c == '-'
}

/// The literal with a single leading sign removed, if one is there.
pub open spec fn strip_sign(s: Seq<char>) -> Seq<char> {
    if s.len() > 0 && is_sign(s[0]) {
        s.subrange(1, s.len() as int)
    } else {
        s
    }
}

pub open spec fn sign_of(s: Seq<char>) -> int {
    if s.len() > 0 && s[0] == '-' {
        -1
    } else {
        1
    }
}

/// An integer literal: an optional sign followed by one or more digits.
pub open spec fn is_int_literal(s: Seq<char>) -> bool {
    strip_sign(s).len() > 0 && all_digits(strip_sign(s))
}

pub open spec fn int_literal_val(s: Seq<char>) -> int {
    sign_of(s) * digits_val(strip_sign(s))
}

/// What parsing a signed 64-bit integer from text yields: the literal's
/// value when the text is an integer literal and the value fits, nothing
/// otherwise.
pub open spec fn spec_parse_i64(s: Seq<char>) -> Option<int> {
    if is_int_literal(s) && i64::MIN <= int_literal_val(s) <= i64::MAX {
        Some(int_literal_val(s))
    } else {
        None
    }
}

/// A digit string's value is not negative.
pub proof fn lemma_digits_val_nonneg(s: Seq<char>)
    requires
        all_digits(s),
    ensures
        digits_val(s) >= 0,
    decreases s.len(),
{
    if s.len() > 0 {
        lemma_digits_val_nonneg(s.drop_last());
    }
}

/// Extending a digit string on the right multiplies its value by ten and
/// adds the new digit.
pub proof fn lemma_digits_val_snoc(s: Seq<char>, c: char)
    ensures
        digits_val(s.push(c)) == digits_val(s) * 10 + digit_val(c),
{
    assert(s.push(c).drop_last() =~= s);
}

/// A digit string's value dominates the value of any of its prefixes.
pub proof fn lemma_digits_val_prefix(s: Seq<char>, k: int)
    requires
        all_digits(s),
        0 <= k <= s.len(),
    ensures
        digits_val(s.subrange(0, k)) <= digits_val(s),
    decreases s.len() - k,
{
    if k < s.len() {
        let t = s.subrange(0, k + 1);
        assert(t.drop_last() =~= s.subrange(0, k));
        lemma_digits_val_nonneg(s.subrange(0, k));
        assert(digits_val(t) == digits_val(s.subrange(0, k)) * 10 + digit_val(s[k]));
        lemma_digits_val_prefix(s, k + 1);
    } else {
        assert(s.subrange(0, k) =~= s);
    }
}

/// Parse a signed 64-bit integer literal, exactly as [`spec_parse_i64`]
/// describes: `None` both on malformed text and on a value out of range.
pub fn parse_i64(t: &Vec<char>) -> (r: Option<i64>)
    ensures
        match r {
            Some(v) => spec_parse_i64(t@) == Some(v as int),
            None => spec_parse_i64(t@) is None,
        },
{
    let n = t.len();
    let mut start: usize = 0;
    let mut neg = false;
    if n > 0 && (t[0] == '-' || t[0] == '+') {
        start = 1;
        neg = t[0] == '-';
    }
    if start == n {
        // no digits at all
        return None;
    }
    assert(strip_sign(t@) =~= t@.subrange(start as int, n as int));
    let bound: u64 = 9223372036854775808u64;  // 2^63, the magnitude of i64::MIN
    let mut mag: u64 = 0;
    let mut k = start;
    while k < n
        invariant
            start <= k <= n,
            n == t@.len(),
            start <= 1,
            bound == 0x8000_0000_0000_0000u64,
            all_digits(t@.subrange(start as int, k as int)),
            mag as int == digits_val(t@.subrange(start as int, k as int)),
            mag <= bound,
            strip_sign(t@) == t@.subrange(start as int, n as int),
            neg <==> sign_of(t@) == -1,
        decreases n - k,
    {
        let c = t[k];
        if !('0' <= c && c <= '9') {
            assert(strip_sign(t@)[k - start as int] == t@[k as int]);
            assert(!is_digit(strip_sign(t@)[k - start as int]));
            return None;
        }
        let d: u64 = (c as u32 - '0' as u32) as u64;
        assert(d == digit_val(c) && d <= 9);
        let ghost pre = t@.subrange(start as int, k as int);
        let ghost ext = t@.subrange(start as int, k + 1 as int);
        assert(ext.drop_last() =~= pre && ext.last() == t@[k as int]);
        if mag > (bound - d) / 10 {
            // the value through this digit already exceeds 2^63, so the
            // whole literal (if it is one) is out of range either way
            proof {
                if spec_parse_i64(t@) is Some {
                    let body = strip_sign(t@);
                    assert(digits_val(ext) > bound);
                    assert(ext =~= body.subrange(0, k + 1 - start));
                    lemma_digits_val_prefix(body, k + 1 - start);
                    lemma_digits_val_nonneg(body);
                    assert(false);
                }
            }
            return None;
        }
        mag = mag * 10 + d;
        k += 1;
    }
    assert(t@.subrange(start as int, n as int) =~= strip_sign(t@));
    assert(is_int_literal(t@));
    if neg {
        if mag == bound {
            Some(i64::MIN)
        } else {
            Some(-(mag as i64))
        }
    } else {
        if mag == bound {
            // 2^63 exceeds i64::MAX
            return None;
        }
        Some(mag as i64)
    }
}

/// One digit character per value below ten.
pub open spec fn digit_char(n: int) -> char {
    if n == 0 {
        '0'
    } else if n == 1 {
        '1'
    } else if n == 2 {
        '2'
    } else if n == 3 {
        '3'
    } else if n == 4 {
        '4'
    } else if n == 5 {
        '5'
    } else if n == 6 {
        '6'
    } else if n == 7 {
        '7'
    } else if n == 8 {
        '8'
    } else {
        '9'
    }
}

/// Canonical decimal digits of a natural number, no leading zero except for
/// zero itself.
pub open spec fn dec_digits(n: nat) -> Seq<char>
    decreases n,
{
    if n < 10 {
        seq![digit_char(n as int)]
    } else {
        dec_digits(n / 10).push(digit_char((n % 10) as int))
    }
}

/// Canonical decimal text of a signed integer.
pub open spec fn spec_i64_str(i: int) -> Seq<char> {
    if i < 0 {
        seq!['-'] + dec_digits((-i) as nat)
    } else {
        dec_digits(i as nat)
    }
}

/// The canonical digits of `n` are digits and read back as `n`.
pub proof fn lemma_dec_digits(n: nat)
    ensures
        dec_digits(n).len() >= 1,
        all_digits(dec_digits(n)),
        digits_val(dec_digits(n)) == n,
    decreases n,
{
    if n < 10 {
        assert(dec_digits(n).drop_last() =~= Seq::<char>::empty());
        assert(digits_val(Seq::<char>::empty()) == 0);
        assert(dec_digits(n).last() == digit_char(n as int));
    } else {
        lemma_dec_digits(n / 10);
        lemma_digits_val_snoc(dec_digits(n / 10), digit_char((n % 10) as int));
        let old = dec_digits(n / 10);
        let ext = dec_digits(n);
        assert(all_digits(ext)) by {
            assert(forall|i: int| 0 <= i < old.len() ==> ext[i] == old[i]);
        }
    }
}

/// Reading the canonical decimal text of a 64-bit integer gives the integer
/// back.
pub proof fn lemma_i64_str_round_trip(i: int)
    requires
        i64::MIN <= i <= i64::MAX,
    ensures
        spec_parse_i64(spec_i64_str(i)) == Some(i),
{
    if i < 0 {
        let s = seq!['-'] + dec_digits((-i) as nat);
        lemma_dec_digits((-i) as nat);
        assert(s[0] == '-');
        assert(strip_sign(s) =~= dec_digits((-i) as nat));
        assert(int_literal_val(s) == -1 * digits_val(dec_digits((-i) as nat)));
    } else {
        let s = dec_digits(i as nat);
        lemma_dec_digits(i as nat);
        assert(is_digit(s[0]) && !is_sign(s[0]) && s[0] != '-');
        assert(strip_sign(s) == s);
        assert(int_literal_val(s) == 1 * digits_val(s));
    }
}

/// Every character of a canonical integer text is a digit or the leading
/// minus sign.
pub proof fn lemma_i64_str_charset(i: int)
    ensures
        forall|k: int|
            0 <= k < spec_i64_str(i).len() ==> is_digit(#[trigger] spec_i64_str(i)[k])
                || spec_i64_str(i)[k] == '-',
{
    if i < 0 {
        lemma_dec_digits((-i) as nat);
        assert(forall|k: int|
            1 <= k < spec_i64_str(i).len() ==> spec_i64_str(i)[k] == dec_digits((-i) as nat)[k
                - 1]);
    } else {
        lemma_dec_digits(i as nat);
    }
}

/// Canonical decimal digits, executable.
pub fn u64_to_chars(n: u64) -> (r: Vec<char>)
    ensures
        r@ == dec_digits(n as nat),
    decreases n,
{
    let d: u64 = n % 10;
    let c: char = if d == 0 {
        '0'
    } else if d == 1 {
        '1'
    } else if d == 2 {
        '2'
    } else if d == 3 {
        '3'
    } else if d == 4 {
        '4'
    } else if d == 5 {
        '5'
    } else if d == 6 {
        '6'
    } else if d == 7 {
        '7'
    } else if d == 8 {
        '8'
    } else {
        '9'
    };
    assert(c == digit_char(d as int));
    if n < 10 {
        let mut v: Vec<char> = Vec::new();
        v.push(c);
        assert(v@ =~= dec_digits(n as nat));
        v
    } else {
        let mut v = u64_to_chars(n / 10);
        v.push(c);
        v
    }
}

/// Canonical decimal text of a signed 64-bit integer, executable.
pub fn i64_to_chars(i: i64) -> (r: Vec<char>)
    ensures
        r@ == spec_i64_str(i as int),
{
    if i >= 0 {
        u64_to_chars(i as u64)
    } else {
        let mag: u64 = if i == i64::MIN {
            9223372036854775808u64
        } else {
            (-i) as u64
        };
        let mut v: Vec<char> = Vec::new();
        v.push('-');
        let mut d = u64_to_chars(mag);
        v.append(&mut d);
        assert(v@ =~= spec_i64_str(i as int));
        v
    }
}

/// A mantissa: digits with at most one decimal point and at least one digit
/// somewhere.
pub open spec fn is_mantissa(m: Seq<char>) -> bool {
    match scan_until(m, crate::scan::eq_pred('.')) {
        None => m.len() > 0 && all_digits(m),
        Some(d) => {
            &&& all_digits(m.subrange(0, d))
            &&& all_digits(m.subrange(d + 1, m.len() as int))
            &&& m.len() > 1
        },
    }
}

/// A float literal of the dialect: an optional sign, then a mantissa, then
/// an optional exponent part `e`/`E` with an optionally signed nonempty
/// digit string.
///
/// Integer literals match this grammar too; the parser only reaches it after
/// the integer reading has failed, so a plain in-range integer never becomes
/// a `Double`.
pub open spec fn is_float_literal(s: Seq<char>) -> bool {
    let b = strip_sign(s);
    match scan_until(b, crate::scan::eq2_pred('e', 'E')) {
        None => is_mantissa(b),
        Some(e) => {
            &&& is_mantissa(b.subrange(0, e))
            &&& is_int_literal(b.subrange(e + 1, b.len() as int))
        },
    }
}

/// Whether all characters in `[lo, hi)` are decimal digits.
fn all_digits_range(t: &Vec<char>, lo: usize, hi: usize) -> (r: bool)
    requires
        lo <= hi <= t@.len(),
    ensures
        r == all_digits(t@.subrange(lo as int, hi as int)),
{
    let ghost sub = t@.subrange(lo as int, hi as int);
    let mut k = lo;
    while k < hi
        invariant
            lo <= k <= hi <= t@.len(),
            sub == t@.subrange(lo as int, hi as int),
            forall|j: int| 0 <= j < k - lo ==> is_digit(sub[j]),
        decreases hi - k,
    {
        let c = t[k];
        if !('0' <= c && c <= '9') {
            assert(!is_digit(sub[k - lo]));
            return false;
        }
        k += 1;
    }
    true
}

/// Decide the dialect's float grammar, exactly as [`is_float_literal`]
/// describes.
pub fn is_float_chars(t: &Vec<char>) -> (r: bool)
    ensures
        r == is_float_literal(t@),
{
    let n = t.len();
    let mut start: usize = 0;
    if n > 0 && (t[0] == '-' || t[0] == '+') {
        start = 1;
    }
    assert(strip_sign(t@) =~= t@.subrange(start as int, n as int));
    let ghost b = strip_sign(t@);
    // split at the exponent marker, if any
    let (mant_hi, has_exp) = match find_char2(t, start, 'e', 'E') {
        Some(e) => (e, true),
        None => (n, false),
    };
    assert(has_exp ==> scan_until(b, crate::scan::eq2_pred('e', 'E')) == Some(
        mant_hi - start as int,
    ));
    assert(!has_exp ==> scan_until(b, crate::scan::eq2_pred('e', 'E')) is None);
    // the mantissa is t[start .. mant_hi]
    let ghost m = t@.subrange(start as int, mant_hi as int);
    assert(has_exp ==> m =~= b.subrange(0, mant_hi - start as int));
    assert(!has_exp ==> m =~= b);
    let mantissa_ok: bool = match find_char2(t, start, '.', '.') {
        Some(d) if d < mant_hi => {
            proof {
                crate::scan::lemma_eq2_pred_same('.');
                let g = crate::scan::eq_pred('.');
                assert(forall|c: char| #[trigger] g(c) == (c == '.'));
                let whole = t@.subrange(start as int, n as int);
                crate::scan::lemma_scan_until(whole, g);
                assert(m =~= whole.subrange(0, mant_hi - start as int));
                assert(m[d - start as int] == whole[d - start as int]);
                assert(forall|j: int| 0 <= j < d - start ==> m[j] == whole[j]);
                crate::scan::lemma_scan_until_unique(m, g, Some(d - start as int));
            }
            let before = all_digits_range(t, start, d);
            let after = all_digits_range(t, d + 1, mant_hi);
            assert(m.subrange(0, d - start as int) =~= t@.subrange(start as int, d as int));
            assert(m.subrange(d - start + 1 as int, m.len() as int) =~= t@.subrange(
                d + 1 as int,
                mant_hi as int,
            ));
            before && after && mant_hi - start > 1
        },
        found_dot => {
            proof {
                crate::scan::lemma_eq2_pred_same('.');
                let g = crate::scan::eq_pred('.');
                assert(forall|c: char| #[trigger] g(c) == (c == '.'));
                let whole = t@.subrange(start as int, n as int);
                crate::scan::lemma_scan_until(whole, g);
                assert(forall|j: int| 0 <= j < m.len() ==> m[j] == whole[j]);
                match found_dot {
                    Some(d) => {
                        assert(scan_until(whole, g) == Some(d - start as int));
                        assert(d >= mant_hi);
                        crate::scan::lemma_scan_until_unique(m, g, None);
                    },
                    None => {
                        crate::scan::lemma_scan_until_unique(m, g, None);
                    },
                }
            }
            mant_hi > start && all_digits_range(t, start, mant_hi)
        },
    };
    if !has_exp {
        return mantissa_ok;
    }
    // the exponent tail is t[mant_hi + 1 .. n]
    let ghost tail = b.subrange(mant_hi - start + 1 as int, b.len() as int);
    let mut exp_lo = mant_hi + 1;
    if exp_lo < n && (t[exp_lo] == '-' || t[exp_lo] == '+') {
        exp_lo += 1;
    }
    assert(strip_sign(tail) =~= t@.subrange(exp_lo as int, n as int));
    let exp_ok = exp_lo < n && all_digits_range(t, exp_lo, n);
    assert(exp_ok == is_int_literal(tail));
    mantissa_ok && exp_ok
}

} // verus!
