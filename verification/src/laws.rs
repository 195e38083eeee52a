//! The round-trip law: parsing the rendered text of a well-formed tree gives
//! the tree back. Well-formed means free of the characters that the dialect
//! cannot re-read (a quote inside a string does not round-trip, nor a
//! separator character, since scalar tokens are cut at separators before
//! quotes are interpreted).

use vstd::prelude::*;
use crate::scan::scan_until;
use crate::scan::eq_pred;
use crate::scan::eq2_pred;
use crate::scan::is_scan_result;
use crate::scan::lemma_scan_until;
use crate::scan::lemma_scan_until_unique;
use crate::value::JsonError;
use crate::value::JsonModel;
use crate::dense::is_ws;
use crate::dense::is_quote;
use crate::dense::spec_dense;
use crate::num::is_digit;
use crate::num::is_sign;
use crate::num::strip_sign;
use crate::num::is_mantissa;
use crate::num::is_float_literal;
use crate::num::spec_parse_i64;
use crate::num::spec_i64_str;
use crate::num::lemma_i64_str_charset;
use crate::num::lemma_dec_digits;
use crate::render::spec_render_value;
use crate::render::spec_render_items;
use crate::render::spec_render_entries;
use crate::parser::null_chars;
use crate::parser::classify_scalar;
use crate::parser::spec_parse_key;
use crate::parser::spec_parse_value;
use crate::parser::spec_parse_entries;
use crate::parser::spec_parse_map;
use crate::parser::spec_parse_vec;
use crate::parser::spec_parse_items;
use crate::parser::spec_parse_text;
use crate::value::assoc_insert;
use crate::value::lemma_key_index;
use crate::parser::true_chars;
use crate::parser::false_chars;

verus! {

/// An object key the dialect can re-read: no double quote (the serializer's
/// delimiter) inside it.
pub open spec fn wf_key(k: Seq<char>) -> bool {
    forall|i: int| 0 <= i < k.len() ==> k[i] != '"'
}

/// A string value the dialect can re-read: no double quote, and none of the
/// characters at which a scalar token is cut (`,`, `}`, `]`).
pub open spec fn wf_text(t: Seq<char>) -> bool {
    forall|i: int|
        0 <= i < t.len() ==> (t[i] != '"' && t[i] != ',' && t[i] != '}' && t[i] != ']')
}

/// A tree built purely from the supported variants: integers in 64-bit
/// range, float literals that the integer reading rejects, re-readable
/// strings and keys, and unique keys per object.
pub open spec fn wf_value(m: JsonModel) -> bool
    decreases m,
{
    match m {
        JsonModel::Null => true,
        JsonModel::Bool(_) => true,
        JsonModel::Int(i) => i64::MIN <= i <= i64::MAX,
        JsonModel::Double(t) => is_float_literal(t) && spec_parse_i64(t) is None,
        JsonModel::Text(t) => wf_text(t),
        JsonModel::List(es) => forall|i: int| 0 <= i < es.len() ==> wf_value(#[trigger] es[i]),
        JsonModel::Dict(es) => {
            &&& forall|i: int|
                0 <= i < es.len() ==> wf_key(#[trigger] es[i].0) && wf_value(es[i].1)
            &&& forall|i: int, j: int| 0 <= i < j < es.len() ==> es[i].0 != es[j].0
        },
    }
}

/// A character a scalar token may hold without confusing any later reading:
/// not a separator, closer, opener, quote or whitespace.
pub open spec fn scalar_char_ok(c: char) -> bool {
    &&& c != ','
    &&& c != '}'
    &&& c != ']'
    &&& c != '{'
    &&& c != '['
    &&& !is_ws(c)
    &&& !is_quote(c)
}

pub open spec fn all_scalar_ok(s: Seq<char>) -> bool {
    forall|i: int| 0 <= i < s.len() ==> scalar_char_ok(s[i])
}

/// Keyword tokens hold only letters.
pub proof fn lemma_keyword_charset()
    ensures
        all_scalar_ok(null_chars()),
        all_scalar_ok(true_chars()),
        all_scalar_ok(false_chars()),
{
    assert forall|i: int| 0 <= i < null_chars().len() implies scalar_char_ok(
        null_chars()[i],
    ) by {
        if i == 0 {
        } else if i == 1 {
        } else if i == 2 {
        }
    }
    assert forall|i: int| 0 <= i < true_chars().len() implies scalar_char_ok(
        true_chars()[i],
    ) by {
        if i == 0 {
        } else if i == 1 {
        } else if i == 2 {
        }
    }
    assert forall|i: int| 0 <= i < false_chars().len() implies scalar_char_ok(
        false_chars()[i],
    ) by {
        if i == 0 {
        } else if i == 1 {
        } else if i == 2 {
        } else if i == 3 {
        }
    }
}

/// The canonical text of an integer holds only plain scalar characters.
pub proof fn lemma_int_text_scalar_ok(i: int)
    ensures
        all_scalar_ok(spec_i64_str(i)),
{
    lemma_i64_str_charset(i);
}

/// A mantissa holds only digits and dots.
proof fn lemma_mantissa_charset(m: Seq<char>)
    requires
        is_mantissa(m),
    ensures
        forall|j: int| 0 <= j < m.len() ==> is_digit(#[trigger] m[j]) || m[j] == '.',
{
    lemma_scan_until(m, eq_pred('.'));
    assert(forall|c: char| #[trigger] eq_pred('.')(c) == (c == '.'));
    match scan_until(m, eq_pred('.')) {
        None => {},
        Some(d) => {
            let before = m.subrange(0, d);
            let after = m.subrange(d + 1, m.len() as int);
            assert forall|j: int| 0 <= j < m.len() implies is_digit(#[trigger] m[j]) || m[j]
                == '.' by {
                if j < d {
                    assert(m[j] == before[j]);
                } else if j > d {
                    assert(m[j] == after[j - d - 1]);
                }
            }
        },
    }
}

/// A float literal holds only digits, signs, dots and exponent markers —
/// all plain scalar characters.
pub proof fn lemma_float_charset(t: Seq<char>)
    requires
        is_float_literal(t),
    ensures
        all_scalar_ok(t),
        t.len() >= 1,
        is_digit(t[0]) || is_sign(t[0]) || t[0] == '.',
{
    let b = strip_sign(t);
    lemma_scan_until(b, eq2_pred('e', 'E'));
    assert(forall|c: char| #[trigger] eq2_pred('e', 'E')(c) == (c == 'e' || c == 'E'));
    let off: int = if t.len() > 0 && is_sign(t[0]) {
        1
    } else {
        0
    };
    assert(forall|j: int| 0 <= j < b.len() ==> #[trigger] b[j] == t[j + off]);
    assert forall|j: int| 0 <= j < b.len() implies is_digit(#[trigger] b[j]) || b[j] == '.' || b[j]
        == 'e' || b[j] == 'E' || is_sign(b[j]) by {
        match scan_until(b, eq2_pred('e', 'E')) {
            None => {
                lemma_mantissa_charset(b);
            },
            Some(e) => {
                let mant = b.subrange(0, e);
                lemma_mantissa_charset(mant);
                let exp = b.subrange(e + 1, b.len() as int);
                let body = strip_sign(exp);
                assert(forall|x: int|
                    0 <= x < body.len() ==> is_digit(#[trigger] body[x]));
                if j < e {
                    assert(b[j] == mant[j]);
                } else if j > e {
                    let x = j - e - 1;
                    assert(b[j] == exp[x]);
                    if exp.len() > 0 && is_sign(exp[0]) {
                        if x > 0 {
                            assert(exp[x] == body[x - 1]);
                        }
                    } else {
                        assert(exp[x] == body[x]);
                    }
                }
            },
        }
    }
    if b.len() == 0 {
        match scan_until(b, eq2_pred('e', 'E')) {
            None => {
                assert(!is_mantissa(b));
            },
            Some(_) => {},
        }
        assert(false);
    }
    assert forall|i: int| 0 <= i < t.len() implies scalar_char_ok(#[trigger] t[i]) by {
        if off == 1 && i == 0 {
        } else {
            assert(t[i] == b[i - off]);
        }
    }
    if off == 0 {
        // the mantissa's first character decides
        match scan_until(b, eq2_pred('e', 'E')) {
            None => {
                lemma_mantissa_charset(b);
                if is_mantissa(b) {
                    lemma_scan_until(b, eq_pred('.'));
                    assert(forall|c: char| #[trigger] eq_pred('.')(c) == (c == '.'));
                    match scan_until(b, eq_pred('.')) {
                        None => {},
                        Some(d) => {
                            if d > 0 {
                                assert(b[0] == b.subrange(0, d)[0]);
                            } else {
                                assert(b[0] == '.');
                            }
                        },
                    }
                }
            },
            Some(e) => {
                let mant = b.subrange(0, e);
                lemma_mantissa_charset(mant);
                if e == 0 {
                    assert(!is_mantissa(mant)) by {
                        assert(mant.len() == 0);
                        lemma_scan_until(mant, eq_pred('.'));
                    }
                    assert(false);
                }
                assert(t[0] == mant[0]);
            },
        }
    }
}

/// Plain characters pass the pre-tokenizer unchanged.
pub proof fn lemma_dense_plain(s: Seq<char>)
    requires
        forall|i: int| 0 <= i < s.len() ==> !is_ws(#[trigger] s[i]) && !is_quote(s[i]),
    ensures
        spec_dense(s) == Ok::<Seq<char>, JsonError>(s),
    decreases s.len(),
{
    if s.len() > 0 {
        assert(!is_ws(s[0]) && !is_quote(s[0]));
        let tail = s.subrange(1, s.len() as int);
        assert forall|j: int| 0 <= j < tail.len() implies !is_ws(#[trigger] tail[j]) && !is_quote(
            tail[j],
        ) by {
            assert(tail[j] == s[j + 1]);
        }
        lemma_dense_plain(tail);
        assert(seq![s[0]] + tail =~= s);
    } else {
        assert(s =~= Seq::<char>::empty());
    }
}

/// A quoted span whose content is free of its delimiter passes the
/// pre-tokenizer unchanged.
pub proof fn lemma_dense_quoted(q: char, content: Seq<char>)
    requires
        is_quote(q),
        forall|i: int| 0 <= i < content.len() ==> content[i] != q,
    ensures
        spec_dense(seq![q] + content + seq![q]) == Ok::<Seq<char>, JsonError>(
            seq![q] + content + seq![q],
        ),
{
    let s = seq![q] + content + seq![q];
    assert(s[0] == q);
    let inner = s.subrange(1, s.len() as int);
    assert(inner =~= content + seq![q]);
    assert(inner[content.len() as int] == q);
    assert(forall|c: char| #[trigger] eq_pred(s[0])(c) == (c == q));
    assert forall|j: int| 0 <= j < content.len() implies !eq_pred(s[0])(inner[j]) by {
        assert(inner[j] == content[j]);
        assert(content[j] != q);
    }
    assert(is_scan_result(inner, eq_pred(s[0]), Some(content.len() as int)));
    lemma_scan_until_unique(inner, eq_pred(s[0]), Some(content.len() as int));
    let i = content.len() as int;
    assert(s.subrange(i + 2, s.len() as int) =~= Seq::<char>::empty());
    assert(spec_dense(Seq::<char>::empty()) == Ok::<Seq<char>, JsonError>(Seq::<char>::empty()));
    assert(s.subrange(0, i + 2) =~= s);
    assert(s + Seq::<char>::empty() =~= s);
}

/// The pre-tokenizer distributes over concatenation when the left part is
/// well formed (all its quoted spans close inside it).
pub proof fn lemma_dense_concat(s1: Seq<char>, s2: Seq<char>)
    requires
        spec_dense(s1) is Ok,
    ensures
        spec_dense(s1 + s2) == (match spec_dense(s2) {
            Ok(d2) => Ok::<Seq<char>, JsonError>(spec_dense(s1)->Ok_0 + d2),
            Err(e) => Err::<Seq<char>, JsonError>(e),
        }),
    decreases s1.len(),
{
    let s = s1 + s2;
    if s1.len() == 0 {
        assert(s =~= s2);
        assert(spec_dense(s1)->Ok_0 == Seq::<char>::empty());
        match spec_dense(s2) {
            Ok(d2) => {
                assert(Seq::<char>::empty() + d2 =~= d2);
            },
            Err(_) => {},
        }
    } else {
        assert(s[0] == s1[0]);
        if is_quote(s1[0]) {
            let inner1 = s1.subrange(1, s1.len() as int);
            let inner = s.subrange(1, s.len() as int);
            assert(inner =~= inner1 + s2);
            crate::scan::lemma_scan_until_concat(inner1, s2, eq_pred(s1[0]));
            match scan_until(inner1, eq_pred(s1[0])) {
                None => {
                    assert(spec_dense(s1) is Err);
                    assert(false);
                },
                Some(i) => {
                    lemma_scan_until(inner1, eq_pred(s1[0]));
                    assert(scan_until(inner, eq_pred(s[0])) == Some(i));
                    assert(i + 2 <= s1.len());
                    let rest1 = s1.subrange(i + 2, s1.len() as int);
                    let rest = s.subrange(i + 2, s.len() as int);
                    assert(rest =~= rest1 + s2);
                    assert(spec_dense(rest1) is Ok) by {
                        if spec_dense(rest1) is Err {
                            assert(spec_dense(s1) is Err);
                        }
                    }
                    lemma_dense_concat(rest1, s2);
                    assert(s1.subrange(0, i + 2) =~= s.subrange(0, i + 2));
                    match spec_dense(s2) {
                        Ok(d2) => {
                            assert(s1.subrange(0, i + 2) + (spec_dense(rest1)->Ok_0 + d2) =~= (
                            s1.subrange(0, i + 2) + spec_dense(rest1)->Ok_0) + d2);
                        },
                        Err(_) => {},
                    }
                },
            }
        } else if is_ws(s1[0]) {
            let tail1 = s1.subrange(1, s1.len() as int);
            assert(s.subrange(1, s.len() as int) =~= tail1 + s2);
            lemma_dense_concat(tail1, s2);
        } else {
            let tail1 = s1.subrange(1, s1.len() as int);
            assert(s.subrange(1, s.len() as int) =~= tail1 + s2);
            assert(spec_dense(tail1) is Ok) by {
                if spec_dense(tail1) is Err {
                    assert(spec_dense(s1) is Err);
                }
            }
            lemma_dense_concat(tail1, s2);
            match spec_dense(s2) {
                Ok(d2) => {
                    assert(seq![s1[0]] + (spec_dense(tail1)->Ok_0 + d2) =~= (seq![s1[0]]
                        + spec_dense(tail1)->Ok_0) + d2);
                },
                Err(_) => {},
            }
        }
    }
}

/// Two texts the pre-tokenizer keeps whole stay whole when joined.
pub proof fn lemma_dense_cat2(a: Seq<char>, b: Seq<char>)
    requires
        spec_dense(a) == Ok::<Seq<char>, JsonError>(a),
        spec_dense(b) == Ok::<Seq<char>, JsonError>(b),
    ensures
        spec_dense(a + b) == Ok::<Seq<char>, JsonError>(a + b),
{
    lemma_dense_concat(a, b);
}

/// A rendered value holds at least one character.
pub proof fn lemma_render_nonempty(m: JsonModel)
    requires
        wf_value(m),
    ensures
        spec_render_value(m).len() >= 1,
{
    match m {
        JsonModel::Int(i) => {
            if i < 0 {
                lemma_dec_digits((-i) as nat);
            } else {
                lemma_dec_digits(i as nat);
            }
        },
        JsonModel::Double(t) => {
            lemma_float_charset(t);
        },
        _ => {},
    }
}

/// The first character of a rendered value is never a separator or closer.
pub proof fn lemma_render_first_char(m: JsonModel)
    requires
        wf_value(m),
    ensures
        spec_render_value(m).len() >= 1,
        spec_render_value(m)[0] != ']',
        spec_render_value(m)[0] != '}',
        spec_render_value(m)[0] != ',',
{
    lemma_render_nonempty(m);
    match m {
        JsonModel::Int(i) => {
            if i < 0 {
            } else {
                lemma_dec_digits(i as nat);
                assert(is_digit(spec_i64_str(i)[0]));
            }
        },
        JsonModel::Double(t) => {
            lemma_float_charset(t);
        },
        _ => {},
    }
}

/// No separator (`,` or the closer) occurs anywhere in the text.
pub open spec fn sep_free(s: Seq<char>, end: char) -> bool {
    forall|i: int| 0 <= i < s.len() ==> (#[trigger] s[i] != ',' && s[i] != end)
}

/// Scanning a separator-free text followed by a separator finds exactly the
/// boundary.
pub proof fn lemma_scalar_scan(r: Seq<char>, tail: Seq<char>, end: char)
    requires
        sep_free(r, end),
        tail.len() >= 1,
        tail[0] == ',' || tail[0] == end,
    ensures
        scan_until(r + tail, eq2_pred(',', end)) == Some(r.len() as int),
        (r + tail).subrange(0, r.len() as int) == r,
{
    let s = r + tail;
    assert(forall|c: char| #[trigger] eq2_pred(',', end)(c) == (c == ',' || c == end));
    assert(s[r.len() as int] == tail[0]);
    assert forall|j: int| 0 <= j < r.len() implies !eq2_pred(',', end)(s[j]) by {
        assert(s[j] == r[j]);
    }
    assert(is_scan_result(s, eq2_pred(',', end), Some(r.len() as int)));
    lemma_scan_until_unique(s, eq2_pred(',', end), Some(r.len() as int));
    assert(s.subrange(0, r.len() as int) =~= r);
}

/// Plain scalar characters are in particular free of separators.
pub proof fn lemma_scalar_ok_sep_free(r: Seq<char>, end: char)
    requires
        all_scalar_ok(r),
        end == '}' || end == ']',
    ensures
        sep_free(r, end),
{
}

/// A scalar-ok text also passes the pre-tokenizer unchanged.
pub proof fn lemma_scalar_ok_dense(r: Seq<char>)
    requires
        all_scalar_ok(r),
    ensures
        spec_dense(r) == Ok::<Seq<char>, JsonError>(r),
{
    lemma_dense_plain(r);
}

/// The rendered text of a well-formed tree passes the pre-tokenizer
/// unchanged: it has no whitespace outside quoted spans, and every span it
/// opens it also closes.
pub proof fn lemma_render_dense(m: JsonModel)
    requires
        wf_value(m),
    ensures
        spec_dense(spec_render_value(m)) == Ok::<Seq<char>, JsonError>(spec_render_value(m)),
    decreases m,
{
    match m {
        JsonModel::Null => {
            lemma_keyword_charset();
            lemma_scalar_ok_dense(null_chars());
        },
        JsonModel::Bool(b) => {
            lemma_keyword_charset();
            if b {
                lemma_scalar_ok_dense(true_chars());
            } else {
                lemma_scalar_ok_dense(false_chars());
            }
        },
        JsonModel::Int(i) => {
            lemma_int_text_scalar_ok(i);
            lemma_scalar_ok_dense(spec_i64_str(i));
        },
        JsonModel::Double(t) => {
            lemma_float_charset(t);
            lemma_scalar_ok_dense(t);
        },
        JsonModel::Text(t) => {
            lemma_dense_quoted('"', t);
        },
        JsonModel::List(es) => {
            lemma_render_items_dense(es);
            let items = spec_render_items(es);
            lemma_dense_plain(seq!['[']);
            lemma_dense_plain(seq![']']);
            lemma_dense_cat2(seq!['['], items);
            lemma_dense_cat2(seq!['['] + items, seq![']']);
        },
        JsonModel::Dict(es) => {
            lemma_render_entries_dense(es);
            let entries = spec_render_entries(es);
            lemma_dense_plain(seq!['{']);
            lemma_dense_plain(seq!['}']);
            lemma_dense_cat2(seq!['{'], entries);
            lemma_dense_cat2(seq!['{'] + entries, seq!['}']);
        },
    }
}

/// As [`lemma_render_dense`], for an array's joined element texts.
pub proof fn lemma_render_items_dense(es: Seq<JsonModel>)
    requires
        forall|i: int| 0 <= i < es.len() ==> wf_value(#[trigger] es[i]),
    ensures
        spec_dense(spec_render_items(es)) == Ok::<Seq<char>, JsonError>(spec_render_items(es)),
    decreases es,
{
    if es.len() == 0 {
        assert(spec_dense(Seq::<char>::empty()) == Ok::<Seq<char>, JsonError>(
            Seq::<char>::empty(),
        ));
    } else if es.len() == 1 {
        lemma_render_dense(es[0]);
    } else {
        lemma_render_dense(es[0]);
        let rest = es.subrange(1, es.len() as int);
        lemma_render_items_dense(rest);
        lemma_dense_plain(seq![',']);
        lemma_dense_cat2(spec_render_value(es[0]), seq![',']);
        lemma_dense_cat2(spec_render_value(es[0]) + seq![','], spec_render_items(rest));
    }
}

/// As [`lemma_render_dense`], for an object's joined entry texts.
pub proof fn lemma_render_entries_dense(es: Seq<(Seq<char>, JsonModel)>)
    requires
        forall|i: int| 0 <= i < es.len() ==> wf_key(#[trigger] es[i].0) && wf_value(es[i].1),
    ensures
        spec_dense(spec_render_entries(es)) == Ok::<Seq<char>, JsonError>(
            spec_render_entries(es),
        ),
    decreases es,
{
    if es.len() == 0 {
        assert(spec_dense(Seq::<char>::empty()) == Ok::<Seq<char>, JsonError>(
            Seq::<char>::empty(),
        ));
    } else {
        let head = seq!['"'] + es[0].0 + seq!['"', ':'] + spec_render_value(es[0].1);
        let quoted = seq!['"'] + es[0].0 + seq!['"'];
        lemma_dense_quoted('"', es[0].0);
        lemma_render_dense(es[0].1);
        lemma_dense_plain(seq![':']);
        lemma_dense_cat2(seq![':'], spec_render_value(es[0].1));
        lemma_dense_cat2(quoted, seq![':'] + spec_render_value(es[0].1));
        assert(head =~= quoted + (seq![':'] + spec_render_value(es[0].1)));
        if es.len() == 1 {
        } else {
            let rest = es.subrange(1, es.len() as int);
            lemma_render_entries_dense(rest);
            lemma_dense_plain(seq![',']);
            lemma_dense_cat2(head, seq![',']);
            lemma_dense_cat2(head + seq![','], spec_render_entries(rest));
        }
    }
}

/// Reading back the rendered text of a well-formed scalar classifies to the
/// scalar itself.
pub proof fn lemma_classify_render(m: JsonModel)
    requires
        wf_value(m),
        !(m is Dict),
        !(m is List),
    ensures
        classify_scalar(spec_render_value(m)) == Ok::<JsonModel, JsonError>(m),
{
    let r = spec_render_value(m);
    assert(null_chars()[0] == 'n' && true_chars()[0] == 't' && false_chars()[0] == 'f');
    assert(null_chars().len() == 4 && true_chars().len() == 4 && false_chars().len() == 5);
    match m {
        JsonModel::Null => {},
        JsonModel::Bool(b) => {
            if b {
                assert(true_chars()[0] != null_chars()[0]);
            } else {
                assert(false_chars().len() != null_chars().len());
                assert(false_chars()[0] != true_chars()[0]);
            }
        },
        JsonModel::Int(i) => {
            crate::num::lemma_i64_str_charset(i);
            lemma_render_nonempty(m);
            assert(is_digit(r[0]) || r[0] == '-');
            assert(r != null_chars() && r != true_chars() && r != false_chars());
            assert(!is_quote(r[0]));
            crate::num::lemma_i64_str_round_trip(i);
        },
        JsonModel::Double(t) => {
            lemma_float_charset(t);
            assert(is_digit(t[0]) || is_sign(t[0]) || t[0] == '.');
            assert(r != null_chars() && r != true_chars() && r != false_chars());
            assert(!is_quote(r[0]));
        },
        JsonModel::Text(t) => {
            assert(r[0] == '"');
            assert(r != null_chars() && r != true_chars() && r != false_chars());
            let inner = r.subrange(1, r.len() as int);
            assert(inner =~= t + seq!['"']);
            assert(forall|c: char| #[trigger] eq_pred(r[0])(c) == (c == '"'));
            assert(inner[t.len() as int] == '"');
            assert forall|j: int| 0 <= j < t.len() implies !eq_pred(r[0])(inner[j]) by {
                assert(inner[j] == t[j]);
            }
            assert(is_scan_result(inner, eq_pred(r[0]), Some(t.len() as int)));
            lemma_scan_until_unique(inner, eq_pred(r[0]), Some(t.len() as int));
            assert(r.subrange(1, 1 + t.len() as int) =~= t);
        },
        _ => {},
    }
}

/// Reading a rendered key (with whatever follows the colon) yields the key
/// and consumes through the colon.
pub proof fn lemma_parse_key_render(key: Seq<char>, rest: Seq<char>)
    requires
        wf_key(key),
    ensures
        crate::parser::spec_parse_key((seq!['"'] + key + seq!['"', ':']) + rest) == Ok::<
            (Seq<char>, int),
            JsonError,
        >((key, key.len() + 3int)),
{
    let s = (seq!['"'] + key + seq!['"', ':']) + rest;
    assert(s[0] == '"');
    let inner = s.subrange(1, s.len() as int);
    assert(inner =~= key + seq!['"', ':'] + rest);
    assert(inner[key.len() as int] == '"');
    assert(forall|c: char| #[trigger] eq_pred(s[0])(c) == (c == '"'));
    assert forall|j: int| 0 <= j < key.len() implies !eq_pred(s[0])(inner[j]) by {
        assert(inner[j] == key[j]);
    }
    assert(is_scan_result(inner, eq_pred(s[0]), Some(key.len() as int)));
    lemma_scan_until_unique(inner, eq_pred(s[0]), Some(key.len() as int));
    assert(s[2 + key.len() as int] == ':');
    assert(2 + key.len() < s.len());
    assert(s.subrange(1, 1 + key.len() as int) =~= key);
}

/// Inserting a key absent from the list appends the entry.
pub proof fn lemma_assoc_insert_fresh(
    acc: Seq<(Seq<char>, JsonModel)>,
    key: Seq<char>,
    v: JsonModel,
)
    requires
        forall|i: int| 0 <= i < acc.len() ==> (#[trigger] acc[i]).0 != key,
    ensures
        assoc_insert(acc, key, v) == acc.push((key, v)),
{
    lemma_key_index(acc, key);
}

/// A well-formed scalar, rendered and followed by a separator, parses back
/// to itself.
proof fn lemma_scalar_case(m: JsonModel, end: char, tail: Seq<char>)
    requires
        wf_value(m),
        !(m is Dict),
        !(m is List),
        sep_free(spec_render_value(m), end),
        spec_render_value(m).len() >= 1,
        spec_render_value(m)[0] != '{',
        spec_render_value(m)[0] != '[',
        end == '}' || end == ']',
        tail.len() >= 1,
        tail[0] == ',' || tail[0] == end,
    ensures
        spec_parse_value(spec_render_value(m) + tail, end) == Ok::<(JsonModel, int), JsonError>((
            m,
            spec_render_value(m).len() as int,
        )),
{
    let r = spec_render_value(m);
    let s = r + tail;
    assert(s[0] == r[0]);
    lemma_scalar_scan(r, tail, end);
    lemma_classify_render(m);
}

/// Parsing one value out of the rendered text of a well-formed tree,
/// followed by a separator or the enclosing closer, yields the tree and
/// consumes exactly its text.
pub proof fn lemma_parse_render_value(m: JsonModel, end: char, tail: Seq<char>)
    requires
        wf_value(m),
        end == '}' || end == ']',
        tail.len() >= 1,
        tail[0] == ',' || tail[0] == end,
    ensures
        spec_parse_value(spec_render_value(m) + tail, end) == Ok::<(JsonModel, int), JsonError>((
            m,
            spec_render_value(m).len() as int,
        )),
    decreases m,
{
    let r = spec_render_value(m);
    let s = r + tail;
    lemma_render_nonempty(m);
    assert(s[0] == r[0]);
    match m {
        JsonModel::Null => {
            lemma_keyword_charset();
            lemma_scalar_ok_sep_free(r, end);
            lemma_scalar_case(m, end, tail);
        },
        JsonModel::Bool(_) => {
            lemma_keyword_charset();
            lemma_scalar_ok_sep_free(r, end);
            lemma_scalar_case(m, end, tail);
        },
        JsonModel::Int(i) => {
            lemma_int_text_scalar_ok(i);
            lemma_scalar_ok_sep_free(r, end);
            lemma_scalar_case(m, end, tail);
        },
        JsonModel::Double(t) => {
            lemma_float_charset(t);
            lemma_scalar_ok_sep_free(r, end);
            lemma_scalar_case(m, end, tail);
        },
        JsonModel::Text(t) => {
            assert(r =~= seq!['"'] + t + seq!['"']);
            assert forall|i: int| 0 <= i < r.len() implies (#[trigger] r[i] != ',' && r[i]
                != end) by {
                if 1 <= i < r.len() - 1 {
                    assert(r[i] == t[i - 1]);
                }
            }
            lemma_scalar_case(m, end, tail);
        },
        JsonModel::List(es) => {
            let itext = spec_render_items(es);
            assert(r == seq!['['] + itext + seq![']']);
            assert(r[0] == '[');
            if es.len() == 0 {
                assert(r =~= seq!['[', ']']);
                assert(s[1] == ']');
                assert(es =~= Seq::<JsonModel>::empty());
                assert(spec_parse_vec(s) == Ok::<(JsonModel, int), JsonError>((m, 2)));
            } else {
                lemma_render_first_char(es[0]);
                assert(itext[0] == spec_render_value(es[0])[0]) by {
                    if es.len() > 1 {
                        assert(itext == spec_render_value(es[0]) + seq![','] + spec_render_items(
                            es.subrange(1, es.len() as int),
                        ));
                    }
                }
                assert(s[1] == itext[0]);
                assert(s[1] != ']');
                lemma_parse_render_items(es, Seq::empty(), tail);
                assert(s.subrange(1, s.len() as int) =~= (itext + seq![']']) + tail);
                assert(Seq::<JsonModel>::empty() + es =~= es);
                assert(spec_parse_vec(s) == Ok::<(JsonModel, int), JsonError>((
                    m,
                    r.len() as int,
                )));
            }
        },
        JsonModel::Dict(es) => {
            let etext = spec_render_entries(es);
            assert(r == seq!['{'] + etext + seq!['}']);
            assert(r[0] == '{');
            if es.len() == 0 {
                assert(r =~= seq!['{', '}']);
                assert(s[1] == '}');
                assert(es =~= Seq::<(Seq<char>, JsonModel)>::empty());
                assert(spec_parse_map(s) == Ok::<(JsonModel, int), JsonError>((m, 2)));
            } else {
                let head = seq!['"'] + es[0].0 + seq!['"', ':'] + spec_render_value(es[0].1);
                assert(head[0] == '"');
                assert(etext[0] == '"') by {
                    if es.len() > 1 {
                        assert(etext == head + seq![','] + spec_render_entries(
                            es.subrange(1, es.len() as int),
                        ));
                    }
                }
                assert(s[1] == etext[0]);
                assert(s[1] != '}');
                lemma_parse_render_entries(es, Seq::empty(), tail);
                assert(s.subrange(1, s.len() as int) =~= (etext + seq!['}']) + tail);
                assert(Seq::<(Seq<char>, JsonModel)>::empty() + es =~= es);
                assert(spec_parse_map(s) == Ok::<(JsonModel, int), JsonError>((
                    m,
                    r.len() as int,
                )));
            }
        },
    }
}

/// Parsing the rendered entries of a well-formed object (closer and
/// whatever follows appended) folds them onto `acc` in order and consumes
/// through the closer.
pub proof fn lemma_parse_render_entries(
    es: Seq<(Seq<char>, JsonModel)>,
    acc: Seq<(Seq<char>, JsonModel)>,
    tail2: Seq<char>,
)
    requires
        es.len() >= 1,
        forall|i: int| 0 <= i < es.len() ==> wf_key(#[trigger] es[i].0) && wf_value(es[i].1),
        forall|i: int, j: int|
            #![trigger es[i], es[j]]
            0 <= i < j < es.len() ==> es[i].0 != es[j].0,
        forall|i: int, j: int|
            #![trigger acc[i], es[j]]
            0 <= i < acc.len() && 0 <= j < es.len() ==> acc[i].0 != es[j].0,
    ensures
        spec_parse_entries(spec_render_entries(es) + seq!['}'] + tail2, acc) == Ok::<
            (Seq<(Seq<char>, JsonModel)>, int),
            JsonError,
        >((acc + es, spec_render_entries(es).len() + 1int)),
    decreases es,
{
    let etext = spec_render_entries(es);
    let s = etext + seq!['}'] + tail2;
    let key = es[0].0;
    let v = es[0].1;
    let rv = spec_render_value(v);
    let head = seq!['"'] + key + seq!['"', ':'] + rv;
    assert(wf_key(key) && wf_value(v)) by {
        assert(wf_key(es[0].0) && wf_value(es[0].1));
    }
    lemma_render_nonempty(v);
    let k = key.len() + 3int;
    let c = rv.len() as int;
    assert forall|i: int| 0 <= i < acc.len() implies (#[trigger] acc[i]).0 != key by {
        assert(acc[i].0 != es[0].0);
    }
    lemma_assoc_insert_fresh(acc, key, v);
    assert((key, v) == es[0]);
    if es.len() == 1 {
        let after = seq!['}'] + tail2;
        assert(etext == head);
        assert(s =~= (seq!['"'] + key + seq!['"', ':']) + (rv + after));
        lemma_parse_key_render(key, rv + after);
        assert(spec_parse_key(s) == Ok::<(Seq<char>, int), JsonError>((key, k)));
        assert(1 <= k <= s.len());
        assert(s.subrange(k, s.len() as int) =~= rv + after);
        assert(after[0] == '}');
        lemma_parse_render_value(v, '}', after);
        assert(1 <= c && k + c < s.len());
        assert(s[k + c] == '}') by {
            assert(s[k + c] == (rv + after)[c]);
        }
        assert(assoc_insert(acc, key, v) =~= acc + es) by {
            assert(es =~= seq![es[0]]);
        }
        assert(k + c + 1 == etext.len() + 1);
    } else {
        let rest = es.subrange(1, es.len() as int);
        let rtext = spec_render_entries(rest);
        assert(etext == head + seq![','] + rtext);
        let after = seq![','] + (rtext + seq!['}'] + tail2);
        assert(s =~= (seq!['"'] + key + seq!['"', ':']) + (rv + after));
        lemma_parse_key_render(key, rv + after);
        assert(spec_parse_key(s) == Ok::<(Seq<char>, int), JsonError>((key, k)));
        assert(1 <= k <= s.len());
        assert(s.subrange(k, s.len() as int) =~= rv + after);
        assert(after[0] == ',');
        lemma_parse_render_value(v, '}', after);
        assert(1 <= c && k + c < s.len());
        assert(s[k + c] == ',') by {
            assert(s[k + c] == (rv + after)[c]);
        }
        let acc2 = acc.push(es[0]);
        assert forall|i: int| 0 <= i < rest.len() implies wf_key(#[trigger] rest[i].0)
            && wf_value(rest[i].1) by {
            assert(rest[i] == es[i + 1]);
        }
        assert forall|i: int, j: int|
            #![trigger rest[i], rest[j]]
            0 <= i < j < rest.len() implies rest[i].0 != rest[j].0 by {
            assert(rest[i] == es[i + 1] && rest[j] == es[j + 1]);
        }
        assert forall|i: int, j: int|
            #![trigger acc2[i], rest[j]]
            0 <= i < acc2.len() && 0 <= j < rest.len() implies acc2[i].0 != rest[j].0 by {
            assert(rest[j] == es[j + 1]);
            if i < acc.len() {
                assert(acc2[i] == acc[i]);
                assert(acc[i].0 != es[j + 1].0);
            } else {
                assert(acc2[i] == es[0]);
                assert(es[0].0 != es[j + 1].0);
            }
        }
        lemma_parse_render_entries(rest, acc2, tail2);
        assert(s.subrange(k + c + 1, s.len() as int) =~= (rtext + seq!['}']) + tail2);
        assert(acc2 + rest =~= acc + es);
        assert(k + c + 1 + (rtext.len() + 1) == etext.len() + 1);
    }
}

/// Parsing the rendered elements of a well-formed array (closer and
/// whatever follows appended) appends them to `acc` in order and consumes
/// through the closer.
pub proof fn lemma_parse_render_items(es: Seq<JsonModel>, acc: Seq<JsonModel>, tail2: Seq<char>)
    requires
        es.len() >= 1,
        forall|i: int| 0 <= i < es.len() ==> wf_value(#[trigger] es[i]),
    ensures
        spec_parse_items(spec_render_items(es) + seq![']'] + tail2, acc) == Ok::<
            (Seq<JsonModel>, int),
            JsonError,
        >((acc + es, spec_render_items(es).len() + 1int)),
    decreases es,
{
    let itext = spec_render_items(es);
    let s = itext + seq![']'] + tail2;
    let v = es[0];
    let rv = spec_render_value(v);
    let c = rv.len() as int;
    lemma_render_nonempty(v);
    if es.len() == 1 {
        let after = seq![']'] + tail2;
        assert(itext == rv);
        assert(s =~= rv + after);
        assert(after[0] == ']');
        lemma_parse_render_value(v, ']', after);
        assert(1 <= c && c < s.len());
        assert(s[c] == ']') by {
            assert(s[c] == (rv + after)[c]);
        }
        assert(acc.push(v) =~= acc + es) by {
            assert(es =~= seq![es[0]]);
        }
        assert(c + 1 == itext.len() + 1);
    } else {
        let rest = es.subrange(1, es.len() as int);
        let rtext = spec_render_items(rest);
        assert(itext == rv + seq![','] + rtext);
        let after = seq![','] + (rtext + seq![']'] + tail2);
        assert(s =~= rv + after);
        assert(after[0] == ',');
        lemma_parse_render_value(v, ']', after);
        assert(1 <= c && c < s.len());
        assert(s[c] == ',') by {
            assert(s[c] == (rv + after)[c]);
        }
        assert forall|i: int| 0 <= i < rest.len() implies wf_value(#[trigger] rest[i]) by {
            assert(rest[i] == es[i + 1]);
        }
        lemma_parse_render_items(rest, acc.push(v), tail2);
        assert(s.subrange(c + 1, s.len() as int) =~= (rtext + seq![']']) + tail2);
        assert(acc.push(v) + rest =~= acc + es);
        assert(c + 1 + (rtext.len() + 1) == itext.len() + 1);
    }
}

/// The round-trip law: for every well-formed document — a tree whose root
/// is an object or an array, built purely from the supported variants —
/// parsing the rendered text yields the document back, structurally equal.
pub proof fn lemma_parse_render_round_trip(m: JsonModel)
    requires
        wf_value(m),
        m is Dict || m is List,
    ensures
        spec_parse_text(spec_render_value(m)) == Ok::<JsonModel, JsonError>(m),
{
    let r = spec_render_value(m);
    lemma_render_dense(m);
    lemma_render_nonempty(m);
    match m {
        JsonModel::Dict(es) => {
            let etext = spec_render_entries(es);
            assert(r[0] == '{');
            if es.len() == 0 {
                assert(r =~= seq!['{', '}']);
                assert(es =~= Seq::<(Seq<char>, JsonModel)>::empty());
                assert(spec_parse_map(r) == Ok::<(JsonModel, int), JsonError>((m, 2)));
            } else {
                let head = seq!['"'] + es[0].0 + seq!['"', ':'] + spec_render_value(es[0].1);
                assert(head[0] == '"');
                assert(etext[0] == '"') by {
                    if es.len() > 1 {
                        assert(etext == head + seq![','] + spec_render_entries(
                            es.subrange(1, es.len() as int),
                        ));
                    }
                }
                assert(r[1] == etext[0]);
                assert(r[1] != '}');
                lemma_parse_render_entries(es, Seq::empty(), Seq::empty());
                assert(r.subrange(1, r.len() as int) =~= (etext + seq!['}'])
                    + Seq::<char>::empty());
                assert(Seq::<(Seq<char>, JsonModel)>::empty() + es =~= es);
                assert(spec_parse_map(r) == Ok::<(JsonModel, int), JsonError>((
                    m,
                    r.len() as int,
                )));
            }
        },
        JsonModel::List(es) => {
            let itext = spec_render_items(es);
            assert(r[0] == '[');
            if es.len() == 0 {
                assert(r =~= seq!['[', ']']);
                assert(es =~= Seq::<JsonModel>::empty());
                assert(spec_parse_vec(r) == Ok::<(JsonModel, int), JsonError>((m, 2)));
            } else {
                lemma_render_first_char(es[0]);
                assert(itext[0] == spec_render_value(es[0])[0]) by {
                    if es.len() > 1 {
                        assert(itext == spec_render_value(es[0]) + seq![','] + spec_render_items(
                            es.subrange(1, es.len() as int),
                        ));
                    }
                }
                assert(r[1] == itext[0]);
                assert(r[1] != ']');
                lemma_parse_render_items(es, Seq::empty(), Seq::empty());
                assert(r.subrange(1, r.len() as int) =~= (itext + seq![']'])
                    + Seq::<char>::empty());
                assert(Seq::<JsonModel>::empty() + es =~= es);
                assert(spec_parse_vec(r) == Ok::<(JsonModel, int), JsonError>((
                    m,
                    r.len() as int,
                )));
            }
        },
        _ => {},
    }
}

/// Inserting one whitespace character at any position outside quoted spans
/// (that is, after a prefix whose spans all close) leaves the dense text,
/// and with it the parse, unchanged.
pub proof fn lemma_ws_insertion(a: Seq<char>, w: char, b: Seq<char>)
    requires
        is_ws(w),
        spec_dense(a) is Ok,
    ensures
        spec_dense(a + seq![w] + b) == spec_dense(a + b),
        spec_parse_text(a + seq![w] + b) == spec_parse_text(a + b),
{
    lemma_dense_concat(a, seq![w] + b);
    lemma_dense_concat(a, b);
    assert((a + seq![w]) + b =~= a + (seq![w] + b));
    assert((seq![w] + b)[0] == w);
    assert((seq![w] + b).subrange(1, (seq![w] + b).len() as int) =~= b);
}

/// Whitespace insensitivity: the parse of a text depends on the text only
/// through its dense form, so any two texts that densify alike — in
/// particular, texts differing only in whitespace outside quoted spans —
/// parse alike.
pub proof fn lemma_whitespace_insensitive(s1: Seq<char>, s2: Seq<char>)
    requires
        spec_dense(s1) == spec_dense(s2),
    ensures
        spec_parse_text(s1) == spec_parse_text(s2),
{
}

} // verus!
