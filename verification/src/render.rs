//! The serializer: dialect text for a tree — double-quoted keys and strings,
//! comma-separated entries, no trailing comma, `{}` and `[]` for empty
//! containers. The numeric text of an `Int` is its canonical decimal form; a
//! `Double` reproduces its stored literal.

use vstd::prelude::*;
use crate::value::JsonError;
use crate::value::JsonModel;
use crate::value::JsonValue;
use crate::value::view_elems;
use crate::value::view_entries;
use crate::value::lemma_view_elems_index;
use crate::value::lemma_view_entries_index;
use crate::num::spec_i64_str;
use crate::num::i64_to_chars;
use crate::parser::null_chars;
use crate::parser::true_chars;
use crate::parser::false_chars;
use crate::text::str_to_chars;
use crate::text::chars_to_string;

verus! {

/// The dialect text of a value.
pub open spec fn spec_render_value(m: JsonModel) -> Seq<char>
    decreases m,
{
    match m {
        JsonModel::Null => null_chars(),
        JsonModel::Bool(b) => if b {
            true_chars()
        } else {
            false_chars()
        },
        JsonModel::Int(i) => spec_i64_str(i),
        JsonModel::Double(t) => t,
        JsonModel::Text(t) => seq!['"'] + t + seq!['"'],
        JsonModel::List(es) => seq!['['] + spec_render_items(es) + seq![']'],
        JsonModel::Dict(es) => seq!['{'] + spec_render_entries(es) + seq!['}'],
    }
}

/// The comma-joined texts of an array's elements.
pub open spec fn spec_render_items(es: Seq<JsonModel>) -> Seq<char>
    decreases es,
{
    if es.len() == 0 {
        Seq::empty()
    } else if es.len() == 1 {
        spec_render_value(es[0])
    } else {
        spec_render_value(es[0]) + seq![','] + spec_render_items(es.subrange(1, es.len() as int))
    }
}

/// The comma-joined `"key":value` texts of an object's entries.
pub open spec fn spec_render_entries(es: Seq<(Seq<char>, JsonModel)>) -> Seq<char>
    decreases es,
{
    if es.len() == 0 {
        Seq::empty()
    } else {
        let head = seq!['"'] + es[0].0 + seq!['"', ':'] + spec_render_value(es[0].1);
        if es.len() == 1 {
            head
        } else {
            head + seq![','] + spec_render_entries(es.subrange(1, es.len() as int))
        }
    }
}

/// Joining two nonempty element lists puts one comma between their texts.
pub proof fn lemma_render_items_concat(a: Seq<JsonModel>, b: Seq<JsonModel>)
    requires
        a.len() > 0,
        b.len() > 0,
    ensures
        spec_render_items(a + b) == spec_render_items(a) + seq![','] + spec_render_items(b),
    decreases a.len(),
{
    let ab = a + b;
    assert(ab[0] == a[0]);
    if a.len() == 1 {
        assert(ab.subrange(1, ab.len() as int) =~= b);
        assert(spec_render_items(ab) == spec_render_value(a[0]) + seq![','] + spec_render_items(
            b,
        ));
    } else {
        assert(ab.subrange(1, ab.len() as int) =~= a.subrange(1, a.len() as int) + b);
        lemma_render_items_concat(a.subrange(1, a.len() as int), b);
        assert(spec_render_value(a[0]) + seq![','] + (spec_render_items(
            a.subrange(1, a.len() as int),
        ) + seq![','] + spec_render_items(b)) =~= (spec_render_value(a[0]) + seq![',']
            + spec_render_items(a.subrange(1, a.len() as int))) + seq![','] + spec_render_items(
            b,
        ));
    }
}

/// Joining two nonempty entry lists puts one comma between their texts.
pub proof fn lemma_render_entries_concat(
    a: Seq<(Seq<char>, JsonModel)>,
    b: Seq<(Seq<char>, JsonModel)>,
)
    requires
        a.len() > 0,
        b.len() > 0,
    ensures
        spec_render_entries(a + b) == spec_render_entries(a) + seq![','] + spec_render_entries(b),
    decreases a.len(),
{
    let ab = a + b;
    assert(ab[0] == a[0]);
    let head = seq!['"'] + a[0].0 + seq!['"', ':'] + spec_render_value(a[0].1);
    if a.len() == 1 {
        assert(ab.subrange(1, ab.len() as int) =~= b);
        assert(spec_render_entries(ab) == head + seq![','] + spec_render_entries(b));
    } else {
        assert(ab.subrange(1, ab.len() as int) =~= a.subrange(1, a.len() as int) + b);
        lemma_render_entries_concat(a.subrange(1, a.len() as int), b);
        assert(head + seq![','] + (spec_render_entries(a.subrange(1, a.len() as int)) + seq![',']
            + spec_render_entries(b)) =~= (head + seq![','] + spec_render_entries(
            a.subrange(1, a.len() as int),
        )) + seq![','] + spec_render_entries(b));
    }
}

/// Dialect text of one value, over characters.
fn render_value(v: &JsonValue) -> (out: Vec<char>)
    ensures
        out@ == spec_render_value(v@),
    decreases v,
{
    match v {
        JsonValue::Null => {
            let mut out: Vec<char> = Vec::new();
            out.push('n');
            out.push('u');
            out.push('l');
            out.push('l');
            assert(out@ =~= null_chars());
            out
        },
        JsonValue::Bool(b) => {
            let mut out: Vec<char> = Vec::new();
            if *b {
                out.push('t');
                out.push('r');
                out.push('u');
                out.push('e');
                assert(out@ =~= true_chars());
            } else {
                out.push('f');
                out.push('a');
                out.push('l');
                out.push('s');
                out.push('e');
                assert(out@ =~= false_chars());
            }
            out
        },
        JsonValue::Int(i) => i64_to_chars(*i),
        JsonValue::Double(t) => str_to_chars(t.as_str()),
        JsonValue::Text(t) => {
            let mut out: Vec<char> = Vec::new();
            out.push('"');
            let mut content = str_to_chars(t.as_str());
            out.append(&mut content);
            out.push('"');
            assert(out@ =~= seq!['"'] + t@ + seq!['"']);
            out
        },
        JsonValue::List(elems) => list_to_string(elems),
        JsonValue::Dict(entries) => dict_to_string(entries),
    }
}

/// `[` + comma-joined element texts + `]`.
fn list_to_string(elems: &Vec<JsonValue>) -> (out: Vec<char>)
    ensures
        out@ == seq!['['] + spec_render_items(view_elems(elems@)) + seq![']'],
    decreases elems,
{
    proof {
        lemma_view_elems_index(elems@);
    }
    let ghost whole = view_elems(elems@);
    let mut out: Vec<char> = Vec::new();
    out.push('[');
    let n = elems.len();
    let mut j: usize = 0;
    while j < n
        invariant
            j <= n,
            n == elems@.len(),
            whole == view_elems(elems@),
            whole.len() == n,
            forall|i: int| 0 <= i < n ==> #[trigger] whole[i] == crate::value::view_value(
                elems@[i],
            ),
            j == 0 ==> out@ == seq!['['],
            j > 0 ==> out@ == seq!['['] + spec_render_items(whole.subrange(0, j as int)),
        decreases n - j,
    {
        if j > 0 {
            out.push(',');
        }
        let mut piece = render_value(&elems[j]);
        out.append(&mut piece);
        proof {
            let pre = whole.subrange(0, j as int);
            let one = whole.subrange(j as int, j + 1 as int);
            assert(one =~= seq![whole[j as int]]);
            assert(spec_render_items(one) == spec_render_value(whole[j as int]));
            if j > 0 {
                lemma_render_items_concat(pre, one);
                assert(pre + one =~= whole.subrange(0, j + 1 as int));
                assert(out@ =~= seq!['['] + spec_render_items(whole.subrange(0, j + 1 as int)));
            } else {
                assert(whole.subrange(0, 1) =~= one);
                assert(out@ =~= seq!['['] + spec_render_items(whole.subrange(0, 1)));
            }
        }
        j += 1;
    }
    out.push(']');
    proof {
        if n == 0 {
            assert(spec_render_items(whole) == Seq::<char>::empty());
            assert(out@ =~= seq!['['] + spec_render_items(whole) + seq![']']);
        } else {
            assert(whole.subrange(0, n as int) =~= whole);
            assert(out@ =~= seq!['['] + spec_render_items(whole) + seq![']']);
        }
    }
    out
}

/// `{` + comma-joined `"key":value` texts + `}`.
fn dict_to_string(entries: &Vec<(String, JsonValue)>) -> (out: Vec<char>)
    ensures
        out@ == seq!['{'] + spec_render_entries(view_entries(entries@)) + seq!['}'],
    decreases entries,
{
    proof {
        lemma_view_entries_index(entries@);
    }
    let ghost whole = view_entries(entries@);
    let mut out: Vec<char> = Vec::new();
    out.push('{');
    let n = entries.len();
    let mut j: usize = 0;
    while j < n
        invariant
            j <= n,
            n == entries@.len(),
            whole == view_entries(entries@),
            whole.len() == n,
            forall|i: int| 0 <= i < n ==> #[trigger] whole[i] == (
                entries@[i].0@,
                crate::value::view_value(entries@[i].1),
            ),
            j == 0 ==> out@ == seq!['{'],
            j > 0 ==> out@ == seq!['{'] + spec_render_entries(whole.subrange(0, j as int)),
        decreases n - j,
    {
        if j > 0 {
            out.push(',');
        }
        out.push('"');
        let mut key = str_to_chars(entries[j].0.as_str());
        out.append(&mut key);
        out.push('"');
        out.push(':');
        let mut piece = render_value(&entries[j].1);
        out.append(&mut piece);
        proof {
            let pre = whole.subrange(0, j as int);
            let one = whole.subrange(j as int, j + 1 as int);
            assert(one =~= seq![whole[j as int]]);
            let head = seq!['"'] + whole[j as int].0 + seq!['"', ':'] + spec_render_value(
                whole[j as int].1,
            );
            assert(spec_render_entries(one) == head);
            if j > 0 {
                lemma_render_entries_concat(pre, one);
                assert(pre + one =~= whole.subrange(0, j + 1 as int));
                assert(out@ =~= seq!['{'] + spec_render_entries(whole.subrange(0, j + 1 as int)));
            } else {
                assert(whole.subrange(0, 1) =~= one);
                assert(out@ =~= seq!['{'] + spec_render_entries(whole.subrange(0, 1)));
            }
        }
        j += 1;
    }
    out.push('}');
    proof {
        if n == 0 {
            assert(spec_render_entries(whole) == Seq::<char>::empty());
            assert(out@ =~= seq!['{'] + spec_render_entries(whole) + seq!['}']);
        } else {
            assert(whole.subrange(0, n as int) =~= whole);
            assert(out@ =~= seq!['{'] + spec_render_entries(whole) + seq!['}']);
        }
    }
    out
}

impl JsonValue {
    /// The dialect text of this value and all its descendants; serialization
    /// never fails.
    pub fn to_string(self) -> (r: Result<String, JsonError>)
        ensures
            match r {
                Ok(text) => text@ == spec_render_value(self@),
                Err(_) => false,
            },
    {
        let chars = render_value(&self);
        Ok(chars_to_string(&chars))
    }
}

} // verus!
