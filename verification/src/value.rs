//! The tagged value model: the tree type produced by the parser, its
//! mathematical model, and the mutation / read-accessor operations.

use vstd::prelude::*;

verus! {

/// The error categories a caller must distinguish.
///
/// Every parse failure and every misapplied accessor surfaces as exactly one
/// of these; reading the source text itself is the host's concern and not
/// represented here.
#[derive(Clone, Copy, Debug, PartialEq, Eq, Structural)]
pub enum JsonError {
    /// The top-level character is neither `{` nor `[` (or the input is empty).
    InvalidDocument,
    /// A quoted span opened in the raw text never closes.
    UnterminatedQuote,
    /// An object key is not a quoted string immediately followed by `:`.
    MalformedKey,
    /// A string-literal value's quote is never closed.
    MalformedString,
    /// A bare scalar token is neither `null`, `true`, `false`, a quoted
    /// string, nor a numeric literal of the dialect.
    MalformedNumber,
    /// End of input was reached while scanning a scalar token.
    UnterminatedValue,
    /// The character after an object entry is neither `,` nor `}`.
    MalformedObject,
    /// The character after an array element is neither `,` nor `]`.
    MalformedArray,
    /// A mutation or accessor was applied to a variant that does not
    /// support it.
    TypeMismatch,
}

/// The mathematical model of a tree value: the same shape as [`JsonValue`],
/// over `Seq` and `int`. All contracts in this crate speak of this type.
pub enum JsonModel {
    Dict(Seq<(Seq<char>, JsonModel)>),
    List(Seq<JsonModel>),
    Bool(bool),
    Int(int),
    Double(Seq<char>),
    Text(Seq<char>),
    Null,
}

/// A parsed tree node: exactly one variant is active, and the active variant
/// decides which operations are legal.
///
/// `Dict` keys are unique and keep insertion order; `Double` holds the
/// numeric literal's text rather than a floating-point value, so rendering
/// reproduces the literal exactly.
#[derive(Debug, PartialEq)]
pub enum JsonValue {
    Dict(Vec<(String, JsonValue)>),
    List(Vec<JsonValue>),
    Bool(bool),
    Int(i64),
    Double(String),
    Text(String),
    Null,
}

/// Model of a `Dict`'s entry vector: each key as a `Seq<char>`, each value
/// as its model.
pub open spec fn view_entries(es: Seq<(String, JsonValue)>) -> Seq<(Seq<char>, JsonModel)>
    decreases es,
{
    if es.len() == 0 {
        Seq::empty()
    } else {
        seq![(es[0].0@, view_value(es[0].1))] + view_entries(es.subrange(1, es.len() as int))
    }
}

/// Model of a `List`'s element vector.
pub open spec fn view_elems(es: Seq<JsonValue>) -> Seq<JsonModel>
    decreases es,
{
    if es.len() == 0 {
        Seq::empty()
    } else {
        seq![view_value(es[0])] + view_elems(es.subrange(1, es.len() as int))
    }
}

/// Model of a single node.
pub open spec fn view_value(v: JsonValue) -> JsonModel
    decreases v,
{
    match v {
        JsonValue::Dict(entries) => JsonModel::Dict(view_entries(entries@)),
        JsonValue::List(elems) => JsonModel::List(view_elems(elems@)),
        JsonValue::Bool(b) => JsonModel::Bool(b),
        JsonValue::Int(i) => JsonModel::Int(i as int),
        JsonValue::Double(t) => JsonModel::Double(t@),
        JsonValue::Text(t) => JsonModel::Text(t@),
        JsonValue::Null => JsonModel::Null,
    }
}

impl View for JsonValue {
    type V = JsonModel;

    open spec fn view(&self) -> JsonModel {
        view_value(*self)
    }
}

/// `view_entries` keeps length and maps each entry pointwise.
pub proof fn lemma_view_entries_index(es: Seq<(String, JsonValue)>)
    ensures
        view_entries(es).len() == es.len(),
        forall|i: int| 0 <= i < es.len() ==> #[trigger] view_entries(es)[i] == (
            es[i].0@,
            view_value(es[i].1),
        ),
    decreases es,
{
    if es.len() > 0 {
        lemma_view_entries_index(es.subrange(1, es.len() as int));
    }
}

/// `view_elems` keeps length and maps each element pointwise.
pub proof fn lemma_view_elems_index(es: Seq<JsonValue>)
    ensures
        view_elems(es).len() == es.len(),
        forall|i: int| 0 <= i < es.len() ==> #[trigger] view_elems(es)[i] == view_value(es[i]),
    decreases es,
{
    if es.len() > 0 {
        lemma_view_elems_index(es.subrange(1, es.len() as int));
    }
}

/// Index of the first entry with the given key, or `-1` if the key is absent.
pub open spec fn key_index(es: Seq<(Seq<char>, JsonModel)>, key: Seq<char>) -> int
    decreases es.len(),
{
    if es.len() == 0 {
        -1
    } else if es[0].0 == key {
        0
    } else {
        let r = key_index(es.subrange(1, es.len() as int), key);
        if r < 0 {
            -1
        } else {
            r + 1
        }
    }
}

/// Whether some entry carries the given key.
pub open spec fn has_key(es: Seq<(Seq<char>, JsonModel)>, key: Seq<char>) -> bool {
    key_index(es, key) >= 0
}

/// What an object-insert does to the entry list: overwrite in place if the
/// key is present, append otherwise.
pub open spec fn assoc_insert(
    es: Seq<(Seq<char>, JsonModel)>,
    key: Seq<char>,
    v: JsonModel,
) -> Seq<(Seq<char>, JsonModel)> {
    if has_key(es, key) {
        es.update(key_index(es, key), (key, v))
    } else {
        es.push((key, v))
    }
}

/// What an object-lookup returns: the value under the key, if any.
pub open spec fn assoc_get(es: Seq<(Seq<char>, JsonModel)>, key: Seq<char>) -> Option<JsonModel> {
    if has_key(es, key) {
        Some(es[key_index(es, key)].1)
    } else {
        None
    }
}

/// `key_index` names a real first occurrence: in range, carrying the key,
/// and nothing before it does.
pub proof fn lemma_key_index(es: Seq<(Seq<char>, JsonModel)>, key: Seq<char>)
    ensures
        key_index(es, key) >= 0 ==> {
            &&& key_index(es, key) < es.len()
            &&& es[key_index(es, key)].0 == key
            &&& forall|j: int| 0 <= j < key_index(es, key) ==> es[j].0 != key
        },
        key_index(es, key) < 0 ==> forall|j: int| 0 <= j < es.len() ==> es[j].0 != key,
    decreases es.len(),
{
    if es.len() > 0 && es[0].0 != key {
        lemma_key_index(es.subrange(1, es.len() as int), key);
        assert(forall|j: int|
            1 <= j < es.len() ==> es[j] == es.subrange(1, es.len() as int)[j - 1]);
    }
}

/// An occurrence with nothing equal before it is the one `key_index` names.
pub proof fn lemma_key_index_first(es: Seq<(Seq<char>, JsonModel)>, key: Seq<char>, j: int)
    requires
        0 <= j < es.len(),
        es[j].0 == key,
        forall|t: int| 0 <= t < j ==> es[t].0 != key,
    ensures
        key_index(es, key) == j,
    decreases es.len(),
{
    if j > 0 {
        assert(forall|t: int|
            1 <= t < es.len() ==> es[t] == es.subrange(1, es.len() as int)[t - 1]);
        lemma_key_index_first(es.subrange(1, es.len() as int), key, j - 1);
    }
}

/// First index whose entry carries `key`, scanning front to back.
fn find_key(entries: &Vec<(String, JsonValue)>, key: &String) -> (r: Option<usize>)
    ensures
        match r {
            Some(j) => {
                &&& j < entries@.len()
                &&& entries@[j as int].0@ == key@
                &&& forall|t: int| 0 <= t < j ==> entries@[t].0@ != key@
            },
            None => forall|t: int| 0 <= t < entries@.len() ==> entries@[t].0@ != key@,
        },
{
    let mut j: usize = 0;
    while j < entries.len()
        invariant
            j <= entries@.len(),
            forall|t: int| 0 <= t < j ==> entries@[t].0@ != key@,
        decreases entries@.len() - j,
    {
        if entries[j].0 == *key {
            return Some(j);
        }
        j += 1;
    }
    None
}

impl JsonValue {
    /// Insert or overwrite an entry of an object; on any other variant the
    /// value is left unchanged and the call fails with `TypeMismatch`.
    pub fn insert_map(&mut self, key: String, value: JsonValue) -> (r: Result<(), JsonError>)
        ensures
            *old(self) is Dict ==> r is Ok && (*final(self))@ == JsonModel::Dict(
                assoc_insert((*old(self))@->Dict_0, key@, value@),
            ),
            !(*old(self) is Dict) ==> r == Result::<(), JsonError>::Err(JsonError::TypeMismatch)
                && *final(self) == *old(self),
    {
        match self {
            JsonValue::Dict(entries) => {
                let ghost es0 = view_entries(entries@);
                proof {
                    lemma_view_entries_index(entries@);
                }
                match find_key(entries, &key) {
                    Some(j) => {
                        proof {
                            lemma_key_index_first(es0, key@, j as int);
                        }
                        entries[j] = (key, value);
                        proof {
                            lemma_view_entries_index(entries@);
                            assert(view_entries(entries@) =~= assoc_insert(es0, key@, value@));
                        }
                    },
                    None => {
                        proof {
                            lemma_key_index(es0, key@);
                        }
                        entries.push((key, value));
                        proof {
                            lemma_view_entries_index(entries@);
                            assert(view_entries(entries@) =~= assoc_insert(es0, key@, value@));
                        }
                    },
                }
                Ok(())
            },
            _ => Err(JsonError::TypeMismatch),
        }
    }

    /// Append an element to an array; on any other variant the value is left
    /// unchanged and the call fails with `TypeMismatch`.
    pub fn insert_vec(&mut self, value: JsonValue) -> (r: Result<(), JsonError>)
        ensures
            *old(self) is List ==> r is Ok && (*final(self))@ == JsonModel::List(
                (*old(self))@->List_0.push(value@),
            ),
            !(*old(self) is List) ==> r == Result::<(), JsonError>::Err(JsonError::TypeMismatch)
                && *final(self) == *old(self),
    {
        match self {
            JsonValue::List(elems) => {
                let ghost e0 = elems@;
                elems.push(value);
                proof {
                    lemma_view_elems_push(e0, value);
                }
                Ok(())
            },
            _ => Err(JsonError::TypeMismatch),
        }
    }

    /// Look a key up in an object. Absence of the key is not an error: it is
    /// the `Ok(None)` result. On any other variant the call fails with
    /// `TypeMismatch`.
    pub fn get_map(&self, key: &String) -> (r: Result<Option<&JsonValue>, JsonError>)
        ensures
            self is Dict ==> match r {
                Ok(found) => match assoc_get(self@->Dict_0, key@) {
                    Some(m) => found is Some && found->0@ == m,
                    None => found is None,
                },
                Err(_) => false,
            },
            !(self is Dict) ==> r == Result::<Option<&JsonValue>, JsonError>::Err(
                JsonError::TypeMismatch,
            ),
    {
        match self {
            JsonValue::Dict(entries) => {
                proof {
                    lemma_view_entries_index(entries@);
                }
                match find_key(entries, key) {
                    Some(j) => {
                        proof {
                            lemma_key_index_first(view_entries(entries@), key@, j as int);
                        }
                        Ok(Some(&entries[j].1))
                    },
                    None => {
                        proof {
                            lemma_key_index(view_entries(entries@), key@);
                        }
                        Ok(None)
                    },
                }
            },
            _ => Err(JsonError::TypeMismatch),
        }
    }

    /// Look an index up in an array. An out-of-range index is not an error:
    /// it is the `Ok(None)` result. On any other variant the call fails with
    /// `TypeMismatch`.
    pub fn get_vec(&self, index: usize) -> (r: Result<Option<&JsonValue>, JsonError>)
        ensures
            self is List ==> match r {
                Ok(found) => if index < self@->List_0.len() {
                    found is Some && found->0@ == self@->List_0[index as int]
                } else {
                    found is None
                },
                Err(_) => false,
            },
            !(self is List) ==> r == Result::<Option<&JsonValue>, JsonError>::Err(
                JsonError::TypeMismatch,
            ),
    {
        match self {
            JsonValue::List(elems) => {
                proof {
                    lemma_view_elems_index(elems@);
                }
                if index < elems.len() {
                    Ok(Some(&elems[index]))
                } else {
                    Ok(None)
                }
            },
            _ => Err(JsonError::TypeMismatch),
        }
    }
}

/// Pushing an element extends the model of an element vector by its model.
pub proof fn lemma_view_elems_push(es: Seq<JsonValue>, v: JsonValue)
    ensures
        view_elems(es.push(v)) == view_elems(es).push(view_value(v)),
{
    lemma_view_elems_index(es);
    lemma_view_elems_index(es.push(v));
    assert(view_elems(es.push(v)) =~= view_elems(es).push(view_value(v)));
}

} // verus!
