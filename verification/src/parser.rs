//! The recursive-descent parser. Spec functions define exactly what each
//! construct of the dialect parses to (value and number of characters
//! consumed, or a typed error); the executable functions are proved to
//! return precisely that.

use vstd::prelude::*;
use crate::scan::scan_until;
use crate::value::JsonError;
use crate::value::JsonModel;
use crate::value::JsonValue;
use crate::value::assoc_insert;
use crate::dense::is_quote;
use crate::dense::spec_dense;
use crate::num::spec_parse_i64;
use crate::num::is_float_literal;
use crate::num::parse_i64;
use crate::num::is_float_chars;
use crate::scan::find_char2;
use crate::text::copy_range;
use crate::text::chars_to_string;
use crate::text::str_to_chars;

verus! {

/// The suffix of `s` from position `i` on: the parser's remaining text.
pub open spec fn tail_from(s: Seq<char>, i: int) -> Seq<char> {
    s.subrange(i, s.len() as int)
}

pub open spec fn null_chars() -> Seq<char> {
    seq!['n', 'u', 'l', 'l']
}

pub open spec fn true_chars() -> Seq<char> {
    seq!['t', 'r', 'u', 'e']
}

pub open spec fn false_chars() -> Seq<char> {
    seq!['f', 'a', 'l', 's', 'e']
}

/// What extracting a string literal from a scalar token yields: the content
/// between the opening quote and the first closing quote of the same kind;
/// `MalformedString` when the token does not open with a quote or the quote
/// never closes.
pub open spec fn spec_parse_str_value(t: Seq<char>) -> Result<Seq<char>, JsonError> {
    if t.len() > 0 && is_quote(t[0]) {
        match scan_until(t.subrange(1, t.len() as int), crate::scan::eq_pred(t[0])) {
            Some(i) => Ok(t.subrange(1, 1 + i)),
            None => Err(JsonError::MalformedString),
        }
    } else {
        Err(JsonError::MalformedString)
    }
}

/// What a scalar token means: `null`, `true`, `false`, a string literal, an
/// in-range integer literal, or a float literal, in that order of
/// preference; anything else is `MalformedNumber`.
pub open spec fn classify_scalar(t: Seq<char>) -> Result<JsonModel, JsonError> {
    if t == null_chars() {
        Ok(JsonModel::Null)
    } else if t == true_chars() {
        Ok(JsonModel::Bool(true))
    } else if t == false_chars() {
        Ok(JsonModel::Bool(false))
    } else if t.len() > 0 && is_quote(t[0]) {
        match spec_parse_str_value(t) {
            Ok(content) => Ok(JsonModel::Text(content)),
            Err(e) => Err(e),
        }
    } else {
        match spec_parse_i64(t) {
            Some(v) => Ok(JsonModel::Int(v)),
            None => if is_float_literal(t) {
                Ok(JsonModel::Double(t))
            } else {
                Err(JsonError::MalformedNumber)
            },
        }
    }
}

/// A classified token holds at least one character.
pub proof fn lemma_classify_scalar_nonempty(t: Seq<char>)
    requires
        classify_scalar(t) is Ok,
    ensures
        t.len() >= 1,
{
    if t.len() == 0 {
        assert(null_chars().len() == 4);
        assert(true_chars().len() == 4);
        assert(false_chars().len() == 5);
        assert(crate::num::strip_sign(t) == t);
        assert(spec_parse_i64(t) is None);
        assert(scan_until(t, crate::scan::eq2_pred('e', 'E')) is None);
        assert(scan_until(t, crate::scan::eq_pred('.')) is None);
        assert(!is_float_literal(t));
    }
}

/// What parsing an object key yields: the characters between a quote and the
/// first closing quote of the same kind, which must be followed directly by
/// `:`; the count consumed includes both quotes and the colon. Everything
/// else is `MalformedKey`.
pub open spec fn spec_parse_key(s: Seq<char>) -> Result<(Seq<char>, int), JsonError> {
    if s.len() > 0 && is_quote(s[0]) {
        match scan_until(s.subrange(1, s.len() as int), crate::scan::eq_pred(s[0])) {
            Some(i) => {
                if 2 + i < s.len() && s[2 + i] == ':' {
                    Ok((s.subrange(1, 1 + i), 3 + i))
                } else {
                    Err(JsonError::MalformedKey)
                }
            },
            None => Err(JsonError::MalformedKey),
        }
    } else {
        Err(JsonError::MalformedKey)
    }
}

/// What parsing one value yields, given the closer of the enclosing
/// container: a nested object or array by dispatch on the first character,
/// otherwise the scalar token running up to (but not including) the next
/// `,` or closer.
pub open spec fn spec_parse_value(s: Seq<char>, end: char) -> Result<(JsonModel, int), JsonError>
    decreases s.len(), 1int,
{
    if s.len() == 0 {
        Err(JsonError::UnterminatedValue)
    } else if s[0] == '{' {
        spec_parse_map(s)
    } else if s[0] == '[' {
        spec_parse_vec(s)
    } else {
        match scan_until(s, crate::scan::eq2_pred(',', end)) {
            None => Err(JsonError::UnterminatedValue),
            Some(i) => match classify_scalar(s.subrange(0, i)) {
                Ok(m) => Ok((m, i)),
                Err(e) => Err(e),
            },
        }
    }
}

/// What parsing an object yields: `{}` is the empty object; otherwise `{`
/// followed by its entries, whose count includes the closing `}`.
pub open spec fn spec_parse_map(s: Seq<char>) -> Result<(JsonModel, int), JsonError>
    decreases s.len(), 0int,
{
    if s.len() >= 2 && s[0] == '{' && s[1] == '}' {
        Ok((JsonModel::Dict(Seq::empty()), 2))
    } else if s.len() >= 1 && s[0] == '{' {
        match spec_parse_entries(s.subrange(1, s.len() as int), Seq::empty()) {
            Ok((es, c)) => Ok((JsonModel::Dict(es), 1 + c)),
            Err(e) => Err(e),
        }
    } else {
        Err(JsonError::MalformedObject)
    }
}

/// What parsing an array yields, symmetric to [`spec_parse_map`].
pub open spec fn spec_parse_vec(s: Seq<char>) -> Result<(JsonModel, int), JsonError>
    decreases s.len(), 0int,
{
    if s.len() >= 2 && s[0] == '[' && s[1] == ']' {
        Ok((JsonModel::List(Seq::empty()), 2))
    } else if s.len() >= 1 && s[0] == '[' {
        match spec_parse_items(s.subrange(1, s.len() as int), Seq::empty()) {
            Ok((es, c)) => Ok((JsonModel::List(es), 1 + c)),
            Err(e) => Err(e),
        }
    } else {
        Err(JsonError::MalformedArray)
    }
}

/// What parsing the entries of an object (after its `{`) yields: key, value,
/// then a separator — `,` continues, `}` ends, anything else (or running
/// out of text) is `MalformedObject`. A repeated key overwrites the earlier
/// entry in place.
pub open spec fn spec_parse_entries(
    s: Seq<char>,
    acc: Seq<(Seq<char>, JsonModel)>,
) -> Result<(Seq<(Seq<char>, JsonModel)>, int), JsonError>
    decreases s.len(), 2int,
{
    match spec_parse_key(s) {
        Err(e) => Err(e),
        Ok((key, k)) => {
            if 1 <= k && k <= s.len() {
                match spec_parse_value(s.subrange(k, s.len() as int), '}') {
                    Err(e) => Err(e),
                    Ok((v, c)) => {
                        if 1 <= c && k + c < s.len() {
                            let acc2 = assoc_insert(acc, key, v);
                            let sep = s[k + c];
                            if sep == ',' {
                                match spec_parse_entries(
                                    s.subrange(k + c + 1, s.len() as int),
                                    acc2,
                                ) {
                                    Ok((es, c2)) => Ok((es, k + c + 1 + c2)),
                                    Err(e) => Err(e),
                                }
                            } else if sep == '}' {
                                Ok((acc2, k + c + 1))
                            } else {
                                Err(JsonError::MalformedObject)
                            }
                        } else {
                            Err(JsonError::MalformedObject)
                        }
                    },
                }
            } else {
                // a successful key parse always consumes within bounds;
                // never taken
                Err(JsonError::MalformedKey)
            }
        },
    }
}

/// What parsing the elements of an array (after its `[`) yields, symmetric
/// to [`spec_parse_entries`] with `MalformedArray` for a bad separator.
pub open spec fn spec_parse_items(
    s: Seq<char>,
    acc: Seq<JsonModel>,
) -> Result<(Seq<JsonModel>, int), JsonError>
    decreases s.len(), 2int,
{
    match spec_parse_value(s, ']') {
        Err(e) => Err(e),
        Ok((v, c)) => {
            if 1 <= c && c < s.len() {
                let acc2 = acc.push(v);
                let sep = s[c];
                if sep == ',' {
                    match spec_parse_items(s.subrange(c + 1, s.len() as int), acc2) {
                        Ok((es, c2)) => Ok((es, c + 1 + c2)),
                        Err(e) => Err(e),
                    }
                } else if sep == ']' {
                    Ok((acc2, c + 1))
                } else {
                    Err(JsonError::MalformedArray)
                }
            } else {
                Err(JsonError::MalformedArray)
            }
        },
    }
}

/// What parsing a dense document yields: an object or an array by its first
/// character, `InvalidDocument` otherwise. Text after the root container's
/// closer is ignored.
pub open spec fn spec_parse_root(d: Seq<char>) -> Result<JsonModel, JsonError> {
    if d.len() > 0 && d[0] == '{' {
        match spec_parse_map(d) {
            Ok((m, _)) => Ok(m),
            Err(e) => Err(e),
        }
    } else if d.len() > 0 && d[0] == '[' {
        match spec_parse_vec(d) {
            Ok((m, _)) => Ok(m),
            Err(e) => Err(e),
        }
    } else {
        Err(JsonError::InvalidDocument)
    }
}

/// What parsing a raw text yields: its dense text's root value.
pub open spec fn spec_parse_text(s: Seq<char>) -> Result<JsonModel, JsonError> {
    match spec_dense(s) {
        Ok(d) => spec_parse_root(d),
        Err(e) => Err(e),
    }
}

/// The executable result `r` is exactly what the spec result `sp` says,
/// with positions relative to start `i` in a text of length `n`.
pub open spec fn value_result_matches(
    r: Result<(JsonValue, usize), JsonError>,
    sp: Result<(JsonModel, int), JsonError>,
    i: int,
    n: int,
) -> bool {
    match r {
        Ok((val, j)) => sp == Ok::<(JsonModel, int), JsonError>((val@, j - i)) && i < j <= n,
        Err(e) => sp == Err::<(JsonModel, int), JsonError>(e),
    }
}

/// Extract an object key at `i`: quote, content, closing quote, colon.
pub fn parse_key(v: &Vec<char>, i: usize) -> (r: Result<(String, usize), JsonError>)
    requires
        i <= v@.len(),
    ensures
        match r {
            Ok((key, j)) => spec_parse_key(tail_from(v@, i as int)) == Ok::<
                (Seq<char>, int),
                JsonError,
            >((key@, j - i as int)) && i < j <= v@.len(),
            Err(e) => spec_parse_key(tail_from(v@, i as int)) == Err::<
                (Seq<char>, int),
                JsonError,
            >(e),
        },
{
    let ghost s = tail_from(v@, i as int);
    let n = v.len();
    if i == n {
        return Err(JsonError::MalformedKey);
    }
    let q = v[i];
    assert(s[0] == q);
    if !(q == '"' || q == '\'') {
        return Err(JsonError::MalformedKey);
    }
    assert(s.subrange(1, s.len() as int) =~= tail_from(v@, i + 1 as int));
    match find_char2(v, i + 1, q, q) {
        None => {
            proof {
                crate::scan::lemma_eq2_pred_same(q);
            }
            Err(JsonError::MalformedKey)
        },
        Some(cl) => {
            proof {
                crate::scan::lemma_eq2_pred_same(q);
            }
            let ghost sci = cl - (i + 1) as int;
            assert(scan_until(s.subrange(1, s.len() as int), crate::scan::eq_pred(s[0])) == Some(
                sci,
            ));
            if cl + 1 < n && v[cl + 1] == ':' {
                assert(2 + sci < s.len() && s[2 + sci] == ':');
                let content = copy_range(v, i + 1, cl);
                let key = chars_to_string(&content);
                assert(key@ =~= s.subrange(1, 1 + sci));
                Ok((key, cl + 2))
            } else {
                assert(!(2 + sci < s.len() && s[2 + sci] == ':'));
                Err(JsonError::MalformedKey)
            }
        },
    }
}

/// Extract the content of a string-literal scalar token.
pub fn parse_str_value(token: &Vec<char>) -> (r: Result<String, JsonError>)
    ensures
        match r {
            Ok(content) => spec_parse_str_value(token@) == Ok::<Seq<char>, JsonError>(content@),
            Err(e) => spec_parse_str_value(token@) == Err::<Seq<char>, JsonError>(e),
        },
{
    let n = token.len();
    if n == 0 {
        return Err(JsonError::MalformedString);
    }
    let q = token[0];
    if !(q == '"' || q == '\'') {
        return Err(JsonError::MalformedString);
    }
    match find_char2(token, 1, q, q) {
        None => {
            proof {
                crate::scan::lemma_eq2_pred_same(q);
            }
            Err(JsonError::MalformedString)
        },
        Some(cl) => {
            proof {
                crate::scan::lemma_eq2_pred_same(q);
            }
            let content = copy_range(token, 1, cl);
            let out = chars_to_string(&content);
            assert(out@ =~= token@.subrange(1, 1 + (cl - 1) as int));
            Ok(out)
        },
    }
}

/// Turn a scalar token into a leaf value, exactly as [`classify_scalar`]
/// says.
fn classify_token(token: &Vec<char>) -> (r: Result<JsonValue, JsonError>)
    ensures
        match r {
            Ok(val) => classify_scalar(token@) == Ok::<JsonModel, JsonError>(val@),
            Err(e) => classify_scalar(token@) == Err::<JsonModel, JsonError>(e),
        },
{
    let n = token.len();
    proof {
        assert(null_chars().len() == 4 && null_chars()[0] == 'n' && null_chars()[1] == 'u'
            && null_chars()[2] == 'l' && null_chars()[3] == 'l');
        assert(true_chars().len() == 4 && true_chars()[0] == 't' && true_chars()[1] == 'r'
            && true_chars()[2] == 'u' && true_chars()[3] == 'e');
        assert(false_chars().len() == 5 && false_chars()[0] == 'f' && false_chars()[1] == 'a'
            && false_chars()[2] == 'l' && false_chars()[3] == 's' && false_chars()[4] == 'e');
    }
    if n == 4 && token[0] == 'n' && token[1] == 'u' && token[2] == 'l' && token[3] == 'l' {
        assert(token@ =~= null_chars());
        return Ok(JsonValue::Null);
    }
    assert(token@ != null_chars());
    if n == 4 && token[0] == 't' && token[1] == 'r' && token[2] == 'u' && token[3] == 'e' {
        assert(token@ =~= true_chars());
        return Ok(JsonValue::Bool(true));
    }
    assert(token@ != true_chars());
    if n == 5 && token[0] == 'f' && token[1] == 'a' && token[2] == 'l' && token[3] == 's'
        && token[4] == 'e' {
        assert(token@ =~= false_chars());
        return Ok(JsonValue::Bool(false));
    }
    assert(token@ != false_chars());
    if n > 0 && (token[0] == '"' || token[0] == '\'') {
        return match parse_str_value(token) {
            Ok(content) => Ok(JsonValue::Text(content)),
            Err(e) => Err(e),
        };
    }
    match parse_i64(token) {
        Some(x) => Ok(JsonValue::Int(x)),
        None => {
            if is_float_chars(token) {
                Ok(JsonValue::Double(chars_to_string(token)))
            } else {
                Err(JsonError::MalformedNumber)
            }
        },
    }
}

/// Parse one value at `i`, where `end` closes the enclosing container.
pub fn parse_value(v: &Vec<char>, i: usize, end: char) -> (r: Result<
    (JsonValue, usize),
    JsonError,
>)
    requires
        i <= v@.len(),
    ensures
        value_result_matches(r, spec_parse_value(tail_from(v@, i as int), end), i as int, v@.len() as int),
    decreases v@.len() - i, 1int,
{
    let ghost s = tail_from(v@, i as int);
    let n = v.len();
    if i == n {
        return Err(JsonError::UnterminatedValue);
    }
    let c = v[i];
    assert(s[0] == c);
    if c == '{' {
        parse_map(v, i)
    } else if c == '[' {
        parse_vec(v, i)
    } else {
        match find_char2(v, i, ',', end) {
            None => Err(JsonError::UnterminatedValue),
            Some(t) => {
                let token = copy_range(v, i, t);
                assert(token@ =~= s.subrange(0, t - i as int));
                match classify_token(&token) {
                    Ok(val) => {
                        proof {
                            lemma_classify_scalar_nonempty(token@);
                        }
                        Ok((val, t))
                    },
                    Err(e) => Err(e),
                }
            },
        }
    }
}

/// Parse an object at `i` (its `{` included).
pub fn parse_map(v: &Vec<char>, i: usize) -> (r: Result<(JsonValue, usize), JsonError>)
    requires
        i <= v@.len(),
    ensures
        value_result_matches(r, spec_parse_map(tail_from(v@, i as int)), i as int, v@.len() as int),
    decreases v@.len() - i, 0int,
{
    let ghost s = tail_from(v@, i as int);
    let n = v.len();
    if i == n || v[i] != '{' {
        return Err(JsonError::MalformedObject);
    }
    assert(s[0] == '{');
    if i + 1 < n && v[i + 1] == '}' {
        let empty: Vec<(String, JsonValue)> = Vec::new();
        let out = JsonValue::Dict(empty);
        assert(out@ == JsonModel::Dict(Seq::<(Seq<char>, JsonModel)>::empty()));
        return Ok((out, i + 2));
    }
    assert(!(s.len() >= 2 && s[1] == '}'));
    assert(s.subrange(1, s.len() as int) =~= tail_from(v@, i + 1 as int));
    let start: Vec<(String, JsonValue)> = Vec::new();
    let acc = JsonValue::Dict(start);
    assert(acc@->Dict_0 =~= Seq::<(Seq<char>, JsonModel)>::empty());
    match parse_entries(v, i + 1, acc) {
        Ok((d, j)) => Ok((d, j)),
        Err(e) => Err(e),
    }
}

/// Parse an array at `i` (its `[` included).
pub fn parse_vec(v: &Vec<char>, i: usize) -> (r: Result<(JsonValue, usize), JsonError>)
    requires
        i <= v@.len(),
    ensures
        value_result_matches(r, spec_parse_vec(tail_from(v@, i as int)), i as int, v@.len() as int),
    decreases v@.len() - i, 0int,
{
    let ghost s = tail_from(v@, i as int);
    let n = v.len();
    if i == n || v[i] != '[' {
        return Err(JsonError::MalformedArray);
    }
    assert(s[0] == '[');
    if i + 1 < n && v[i + 1] == ']' {
        let empty: Vec<JsonValue> = Vec::new();
        let out = JsonValue::List(empty);
        assert(out@ == JsonModel::List(Seq::<JsonModel>::empty()));
        return Ok((out, i + 2));
    }
    assert(!(s.len() >= 2 && s[1] == ']'));
    assert(s.subrange(1, s.len() as int) =~= tail_from(v@, i + 1 as int));
    let start: Vec<JsonValue> = Vec::new();
    let acc = JsonValue::List(start);
    assert(acc@->List_0 =~= Seq::<JsonModel>::empty());
    match parse_items(v, i + 1, acc) {
        Ok((d, j)) => Ok((d, j)),
        Err(e) => Err(e),
    }
}

/// Parse the entries of an object from `i` (after its `{`), folding them
/// into `acc`; consumes through the closing `}`.
fn parse_entries(v: &Vec<char>, i: usize, acc: JsonValue) -> (r: Result<
    (JsonValue, usize),
    JsonError,
>)
    requires
        i <= v@.len(),
        acc is Dict,
    ensures
        match r {
            Ok((d, j)) => d is Dict && spec_parse_entries(tail_from(v@, i as int), acc@->Dict_0)
                == Ok::<(Seq<(Seq<char>, JsonModel)>, int), JsonError>((d@->Dict_0, j - i as int))
                && i < j <= v@.len(),
            Err(e) => spec_parse_entries(tail_from(v@, i as int), acc@->Dict_0) == Err::<
                (Seq<(Seq<char>, JsonModel)>, int),
                JsonError,
            >(e),
        },
    decreases v@.len() - i, 2int,
{
    let ghost s = tail_from(v@, i as int);
    let n = v.len();
    match parse_key(v, i) {
        Err(e) => Err(e),
        Ok((key, j1)) => {
            let ghost k = j1 - i as int;
            assert(s.subrange(k, s.len() as int) =~= tail_from(v@, j1 as int));
            match parse_value(v, j1, '}') {
                Err(e) => Err(e),
                Ok((val, j2)) => {
                    let ghost c = j2 - j1 as int;
                    if j2 == n {
                        assert(!(k + c < s.len()));
                        return Err(JsonError::MalformedObject);
                    }
                    let mut acc2 = acc;
                    let ghost acc_entries = acc2@->Dict_0;
                    match acc2.insert_map(key, val) {
                        Ok(_) => {},
                        Err(_) => {
                            assert(false);
                            return Err(JsonError::TypeMismatch);
                        },
                    }
                    assert(acc2@ == JsonModel::Dict(
                        assoc_insert(acc_entries, key@, val@),
                    ));
                    let sep = v[j2];
                    assert(s[k + c] == sep);
                    if sep == ',' {
                        assert(s.subrange(k + c + 1, s.len() as int) =~= tail_from(
                            v@,
                            j2 + 1 as int,
                        ));
                        match parse_entries(v, j2 + 1, acc2) {
                            Ok((d, j)) => Ok((d, j)),
                            Err(e) => Err(e),
                        }
                    } else if sep == '}' {
                        Ok((acc2, j2 + 1))
                    } else {
                        Err(JsonError::MalformedObject)
                    }
                },
            }
        },
    }
}

/// Parse the elements of an array from `i` (after its `[`), appending them
/// to `acc`; consumes through the closing `]`.
fn parse_items(v: &Vec<char>, i: usize, acc: JsonValue) -> (r: Result<
    (JsonValue, usize),
    JsonError,
>)
    requires
        i <= v@.len(),
        acc is List,
    ensures
        match r {
            Ok((d, j)) => d is List && spec_parse_items(tail_from(v@, i as int), acc@->List_0)
                == Ok::<(Seq<JsonModel>, int), JsonError>((d@->List_0, j - i as int)) && i < j
                <= v@.len(),
            Err(e) => spec_parse_items(tail_from(v@, i as int), acc@->List_0) == Err::<
                (Seq<JsonModel>, int),
                JsonError,
            >(e),
        },
    decreases v@.len() - i, 2int,
{
    let ghost s = tail_from(v@, i as int);
    let n = v.len();
    match parse_value(v, i, ']') {
        Err(e) => Err(e),
        Ok((val, j2)) => {
            let ghost c = j2 - i as int;
            if j2 == n {
                assert(!(c < s.len()));
                return Err(JsonError::MalformedArray);
            }
            let mut acc2 = acc;
            let ghost acc_elems = acc2@->List_0;
            match acc2.insert_vec(val) {
                Ok(_) => {},
                Err(_) => {
                    assert(false);
                    return Err(JsonError::TypeMismatch);
                },
            }
            assert(acc2@ == JsonModel::List(acc_elems.push(val@)));
            let sep = v[j2];
            assert(s[c] == sep);
            if sep == ',' {
                assert(s.subrange(c + 1, s.len() as int) =~= tail_from(v@, j2 + 1 as int));
                match parse_items(v, j2 + 1, acc2) {
                    Ok((d, j)) => Ok((d, j)),
                    Err(e) => Err(e),
                }
            } else if sep == ']' {
                Ok((acc2, j2 + 1))
            } else {
                Err(JsonError::MalformedArray)
            }
        },
    }
}

/// Parse a document: pre-tokenize, then read the root container. Exactly
/// [`spec_parse_text`]: a typed error on malformed input, the tree
/// otherwise.
pub fn parse(text: &str) -> (r: Result<JsonValue, JsonError>)
    ensures
        match r {
            Ok(val) => spec_parse_text(text@) == Ok::<JsonModel, JsonError>(val@),
            Err(e) => spec_parse_text(text@) == Err::<JsonModel, JsonError>(e),
        },
{
    let chars = str_to_chars(text);
    let dense = match crate::dense::densify(&chars) {
        Ok(d) => d,
        Err(e) => {
            return Err(e);
        },
    };
    let n = dense.len();
    if n == 0 {
        return Err(JsonError::InvalidDocument);
    }
    assert(tail_from(dense@, 0) =~= dense@);
    let c = dense[0];
    if c == '{' {
        match parse_map(&dense, 0) {
            Ok((val, _)) => Ok(val),
            Err(e) => Err(e),
        }
    } else if c == '[' {
        match parse_vec(&dense, 0) {
            Ok((val, _)) => Ok(val),
            Err(e) => Err(e),
        }
    } else {
        Err(JsonError::InvalidDocument)
    }
}

} // verus!
