//! The pre-tokenizer: strips whitespace outside quoted spans and keeps
//! quoted spans (delimiters included) verbatim, producing the dense text the
//! parser consumes.

use vstd::prelude::*;
use crate::scan::scan_until;
use crate::value::JsonError;

verus! {

/// The whitespace the dialect ignores outside quoted spans.
pub open spec fn is_ws(c: char) -> bool {
    c == ' ' || c == '\t' || c == '\n'
}

/// The two quote delimiters; a span closes only at its own kind.
pub open spec fn is_quote(c: char) -> bool {
    c == '"' || c == '\''
}

/// The dense text of a raw text: quoted spans kept verbatim, whitespace
/// outside them dropped, everything else kept, in order. A span that never
/// closes is the error `UnterminatedQuote`.
pub open spec fn spec_dense(s: Seq<char>) -> Result<Seq<char>, JsonError>
    decreases s.len(),
{
    if s.len() == 0 {
        Ok(Seq::empty())
    } else if is_quote(s[0]) {
        match scan_until(s.subrange(1, s.len() as int), crate::scan::eq_pred(s[0])) {
            None => Err(JsonError::UnterminatedQuote),
            Some(i) => {
                if 0 <= i && i + 2 <= s.len() {
                    match spec_dense(s.subrange(i + 2, s.len() as int)) {
                        Ok(r) => Ok(s.subrange(0, i + 2) + r),
                        Err(e) => Err(e),
                    }
                } else {
                    // a scan hit is always inside the text; never taken
                    Err(JsonError::UnterminatedQuote)
                }
            },
        }
    } else if is_ws(s[0]) {
        spec_dense(s.subrange(1, s.len() as int))
    } else {
        match spec_dense(s.subrange(1, s.len() as int)) {
            Ok(r) => Ok(seq![s[0]] + r),
            Err(e) => Err(e),
        }
    }
}

/// The suffix `rest` together with the output written so far accounts for
/// the dense text of the whole input.
pub open spec fn dense_continues(full: Seq<char>, rest: Seq<char>, done: Seq<char>) -> bool {
    match spec_dense(rest) {
        Ok(r) => spec_dense(full) == Ok::<Seq<char>, JsonError>(done + r),
        Err(e) => spec_dense(full) == Err::<Seq<char>, JsonError>(e),
    }
}

/// Materialize the dense text of `input`, exactly as [`spec_dense`]
/// describes it.
pub fn densify(input: &Vec<char>) -> (r: Result<Vec<char>, JsonError>)
    ensures
        match r {
            Ok(out) => spec_dense(input@) == Ok::<Seq<char>, JsonError>(out@),
            Err(e) => spec_dense(input@) == Err::<Seq<char>, JsonError>(e),
        },
{
    let n = input.len();
    let mut out: Vec<char> = Vec::new();
    let mut k: usize = 0;
    assert(input@.subrange(0, n as int) =~= input@);
    proof {
        match spec_dense(input@) {
            Ok(r0) => {
                assert(Seq::<char>::empty() + r0 =~= r0);
            },
            Err(_) => {},
        }
    }
    while k < n
        invariant
            k <= n,
            n == input@.len(),
            dense_continues(input@, input@.subrange(k as int, n as int), out@),
        decreases n - k,
    {
        let ghost rest = input@.subrange(k as int, n as int);
        let ghost done = out@;
        let c = input[k];
        assert(rest[0] == c);
        if c == '"' || c == '\'' {
            assert(rest.subrange(1, rest.len() as int) =~= input@.subrange(k + 1 as int, n as int));
            match crate::scan::find_char2(input, k + 1, c, c) {
                None => {
                    proof {
                        crate::scan::lemma_eq2_pred_same(c);
                    }
                    return Err(JsonError::UnterminatedQuote);
                },
                Some(j) => {
                    proof {
                        crate::scan::lemma_eq2_pred_same(c);
                    }
                    let ghost i = j - (k + 1) as int;
                    assert(scan_until(rest.subrange(1, rest.len() as int), crate::scan::eq_pred(
                        rest[0],
                    )) == Some(i));
                    // copy the span, delimiters included
                    let mut t = k;
                    while t <= j
                        invariant
                            k <= t <= j + 1,
                            j < n,
                            n == input@.len(),
                            out@ == done + input@.subrange(k as int, t as int),
                        decreases j + 1 - t,
                    {
                        out.push(input[t]);
                        assert(input@.subrange(k as int, t + 1 as int) =~= input@.subrange(
                            k as int,
                            t as int,
                        ).push(input@[t as int]));
                        t += 1;
                    }
                    assert(rest.subrange(0, i + 2) =~= input@.subrange(k as int, j + 1 as int));
                    assert(rest.subrange(i + 2, rest.len() as int) =~= input@.subrange(
                        j + 1 as int,
                        n as int,
                    ));
                    k = j + 1;
                    proof {
                        let rest2 = input@.subrange(k as int, n as int);
                        match spec_dense(rest2) {
                            Ok(r2) => {
                                assert(done + (rest.subrange(0, i + 2) + r2) =~= out@ + r2);
                            },
                            Err(_) => {},
                        }
                    }
                },
            }
        } else if c == ' ' || c == '\t' || c == '\n' {
            assert(rest.subrange(1, rest.len() as int) =~= input@.subrange(k + 1 as int, n as int));
            k += 1;
        } else {
            assert(rest.subrange(1, rest.len() as int) =~= input@.subrange(k + 1 as int, n as int));
            out.push(c);
            k += 1;
            proof {
                let rest2 = input@.subrange(k as int, n as int);
                match spec_dense(rest2) {
                    Ok(r2) => {
                        assert(done + (seq![rest[0]] + r2) =~= out@ + r2);
                    },
                    Err(_) => {},
                }
            }
        }
    }
    assert(input@.subrange(k as int, n as int) =~= Seq::<char>::empty());
    assert(out@ + Seq::<char>::empty() =~= out@);
    Ok(out)
}

} // verus!
