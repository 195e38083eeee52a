//! Left-to-right first-occurrence scans over character sequences, shared by
//! the pre-tokenizer, the numeric grammar and the parser.

use vstd::prelude::*;

verus! {

/// Holds of one fixed character.
pub open spec fn eq_pred(a: char) -> spec_fn(char) -> bool {
    |c: char| c == a
}

/// Holds of two fixed characters.
pub open spec fn eq2_pred(a: char, b: char) -> spec_fn(char) -> bool {
    |c: char| c == a || c == b
}

/// With both characters the same, the two-character test is the
/// one-character test.
pub proof fn lemma_eq2_pred_same(a: char)
    ensures
        eq2_pred(a, a) == eq_pred(a),
{
    assert(forall|c: char| #[trigger] eq2_pred(a, a)(c) == eq_pred(a)(c));
    assert(eq2_pred(a, a) =~= eq_pred(a));
}

/// Index of the leftmost character satisfying `f`, if any.
pub open spec fn scan_until(s: Seq<char>, f: spec_fn(char) -> bool) -> Option<int>
    decreases s.len(),
{
    if s.len() == 0 {
        None
    } else if f(s[0]) {
        Some(0)
    } else {
        match scan_until(s.subrange(1, s.len() as int), f) {
            Some(i) => Some(i + 1),
            None => None,
        }
    }
}

/// What it means for `r` to point at the leftmost character satisfying `f`.
pub open spec fn is_scan_result(s: Seq<char>, f: spec_fn(char) -> bool, r: Option<int>) -> bool {
    match r {
        Some(i) => {
            &&& 0 <= i < s.len()
            &&& f(s[i])
            &&& forall|j: int| 0 <= j < i ==> !f(s[j])
        },
        None => forall|j: int| 0 <= j < s.len() ==> !f(s[j]),
    }
}

/// `scan_until` returns the leftmost satisfying index.
pub proof fn lemma_scan_until(s: Seq<char>, f: spec_fn(char) -> bool)
    ensures
        is_scan_result(s, f, scan_until(s, f)),
    decreases s.len(),
{
    if s.len() > 0 && !f(s[0]) {
        let tail = s.subrange(1, s.len() as int);
        lemma_scan_until(tail, f);
        assert(forall|j: int| 1 <= j < s.len() ==> s[j] == tail[j - 1]);
    }
}

/// The leftmost satisfying index is unique, so any witness pins `scan_until`
/// down.
pub proof fn lemma_scan_until_unique(s: Seq<char>, f: spec_fn(char) -> bool, r: Option<int>)
    requires
        is_scan_result(s, f, r),
    ensures
        scan_until(s, f) == r,
{
    lemma_scan_until(s, f);
    match (r, scan_until(s, f)) {
        (Some(i), Some(k)) => {
            if i < k {
                assert(f(s[i]));
                assert(false);
            }
            if k < i {
                assert(f(s[k]));
                assert(false);
            }
        },
        (Some(i), None) => {
            assert(f(s[i]));
            assert(false);
        },
        (None, Some(k)) => {
            assert(f(s[k]));
            assert(false);
        },
        (None, None) => {},
    }
}

/// A scan over a concatenation: a hit inside the left part stays put; with
/// the left part clean, a hit in the right part shifts by the left length.
pub proof fn lemma_scan_until_concat(s1: Seq<char>, s2: Seq<char>, f: spec_fn(char) -> bool)
    ensures
        scan_until(s1, f) is Some ==> scan_until(s1 + s2, f) == scan_until(s1, f),
        scan_until(s1, f) is None ==> scan_until(s1 + s2, f) == (match scan_until(s2, f) {
            Some(i) => Some(i + s1.len()),
            None => None::<int>,
        }),
{
    lemma_scan_until(s1, f);
    lemma_scan_until(s2, f);
    match scan_until(s1, f) {
        Some(i) => {
            assert((s1 + s2)[i] == s1[i]);
            assert(forall|j: int| 0 <= j < i ==> (s1 + s2)[j] == s1[j]);
            lemma_scan_until_unique(s1 + s2, f, Some(i));
        },
        None => {
            match scan_until(s2, f) {
                Some(i) => {
                    assert((s1 + s2)[i + s1.len()] == s2[i]);
                    assert(forall|j: int|
                        0 <= j < i + s1.len() ==> (s1 + s2)[j] == (if j < s1.len() {
                            s1[j]
                        } else {
                            s2[j - s1.len()]
                        }));
                    lemma_scan_until_unique(s1 + s2, f, Some(i + s1.len()));
                },
                None => {
                    assert(forall|j: int|
                        0 <= j < s1.len() + s2.len() ==> (s1 + s2)[j] == (if j < s1.len() {
                            s1[j]
                        } else {
                            s2[j - s1.len()]
                        }));
                    lemma_scan_until_unique(s1 + s2, f, None);
                },
            }
        },
    }
}

/// First index at or after `start` holding `c1` or `c2`, as a plain scan.
pub(crate) fn find_char2(t: &Vec<char>, start: usize, c1: char, c2: char) -> (r: Option<usize>)
    requires
        start <= t@.len(),
    ensures
        ({
            let sub = t@.subrange(start as int, t@.len() as int);
            let f = eq2_pred(c1, c2);
            match r {
                Some(i) => start <= i < t@.len() && scan_until(sub, f) == Some(i - start as int),
                None => scan_until(sub, f) is None,
            }
        }),
{
    let ghost sub = t@.subrange(start as int, t@.len() as int);
    let ghost f = eq2_pred(c1, c2);
    proof {
        assert(forall|c: char| #[trigger] f(c) == (c == c1 || c == c2));
    }
    let mut k = start;
    while k < t.len()
        invariant
            start <= k <= t@.len(),
            sub == t@.subrange(start as int, t@.len() as int),
            f == eq2_pred(c1, c2),
            forall|c: char| #[trigger] f(c) == (c == c1 || c == c2),
            forall|j: int| 0 <= j < k - start ==> !f(sub[j]),
        decreases t@.len() - k,
    {
        let c = t[k];
        if c == c1 || c == c2 {
            proof {
                lemma_scan_until_unique(sub, f, Some(k - start as int));
            }
            return Some(k);
        }
        k += 1;
    }
    proof {
        lemma_scan_until_unique(sub, f, None);
    }
    None
}

} // verus!
