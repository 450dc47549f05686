//! JSON values as the scenario language reads them.
//!
//! Scenario payloads, patterns and bound variables are JSON documents.
//! [`JsonValue`] holds such a document as plain data; its view [`Json`] is
//! the mathematical value that contracts speak of.
use vstd::prelude::*;
use vstd::string::*;

verus! {

/// A JSON number, held the way the JSON data model distinguishes them:
/// a non-negative integer, a negative integer, or a finite float.
///
/// A float is held by the bits of its IEEE-754 encoding, with negative zero
/// normalised to positive zero, so that two floats are equal exactly when
/// their encodings are.
#[derive(Debug, Clone, Copy, PartialEq, Eq, Structural)]
pub enum JsonNumber {
    PosInt(u64),
    NegInt(i64),
    Float(u64),
}

/// A JSON document.
///
/// The entries of an object are held in the order of their keys, each key
/// once.
#[derive(Debug)]
pub enum JsonValue {
    Null,
    Bool(bool),
    Number(JsonNumber),
    String(String),
    Array(Vec<JsonValue>),
    Object(Vec<(String, JsonValue)>),
}

/// The mathematical JSON document: strings are sequences of characters.
pub enum Json {
    Null,
    Bool(bool),
    Number(JsonNumber),
    Str(Seq<char>),
    Array(Seq<Json>),
    Object(Seq<(Seq<char>, Json)>),
}

impl JsonValue {
    pub open spec fn to_json(self) -> Json
        decreases self,
    {
        match self {
            JsonValue::Null => Json::Null,
            JsonValue::Bool(b) => Json::Bool(b),
            JsonValue::Number(n) => Json::Number(n),
            JsonValue::String(s) => Json::Str(s@),
            JsonValue::Array(items) => Json::Array(items_view(items@)),
            JsonValue::Object(entries) => Json::Object(entries_view(entries@)),
        }
    }
}

/// The views of a sequence of JSON values.
pub open spec fn items_view(s: Seq<JsonValue>) -> Seq<Json>
    decreases s,
{
    if s.len() == 0 {
        Seq::empty()
    } else {
        items_view(s.drop_last()).push(s.last().to_json())
    }
}

/// The views of a sequence of object entries.
pub open spec fn entries_view(s: Seq<(String, JsonValue)>) -> Seq<(Seq<char>, Json)>
    decreases s,
{
    if s.len() == 0 {
        Seq::empty()
    } else {
        entries_view(s.drop_last()).push((s.last().0@, s.last().1.to_json()))
    }
}

impl View for JsonValue {
    type V = Json;

    open spec fn view(&self) -> Json {
        self.to_json()
    }
}

pub proof fn lemma_items_view(s: Seq<JsonValue>)
    ensures
        items_view(s).len() == s.len(),
        forall|i: int| 0 <= i < s.len() ==> #[trigger] items_view(s)[i] == s[i]@,
    decreases s.len(),
{
    if s.len() > 0 {
        lemma_items_view(s.drop_last());
    }
}

pub proof fn lemma_entries_view(s: Seq<(String, JsonValue)>)
    ensures
        entries_view(s).len() == s.len(),
        forall|i: int|
            0 <= i < s.len() ==> #[trigger] entries_view(s)[i] == (s[i].0@, s[i].1@),
    decreases s.len(),
{
    if s.len() > 0 {
        lemma_entries_view(s.drop_last());
    }
}

/// `"$_"`, the pattern that matches anything and binds nothing.
pub open spec fn wildcard() -> Seq<char> {
    seq!['$', '_']
}

/// A string that names a variable: it starts with `$`.
pub open spec fn is_var_name(s: Seq<char>) -> bool {
    s.len() > 0 && s[0] == '$'
}

/// Whether `s` is `"$_"`.
pub fn is_wildcard(s: &str) -> (r: bool)
    ensures
        r == (s@ == wildcard()),
{
    let n = s.unicode_len();
    if n != 2 {
        return false;
    }
    let c0 = s.get_char(0);
    let c1 = s.get_char(1);
    let r = c0 == '$' && c1 == '_';
    proof {
        if r {
            assert(s@ =~= wildcard());
        }
    }
    r
}

/// Whether `s` names a variable, i.e. starts with `$`.
pub fn starts_with_dollar(s: &str) -> (r: bool)
    ensures
        r == is_var_name(s@),
{
    let n = s.unicode_len();
    if n == 0 {
        return false;
    }
    s.get_char(0) == '$'
}

/// Whether two strings hold the same characters.
pub fn str_eq(a: &str, b: &str) -> (r: bool)
    ensures
        r == (a@ == b@),
{
    let na = a.unicode_len();
    let nb = b.unicode_len();
    if na != nb {
        return false;
    }
    let mut i: usize = 0;
    while i < na
        invariant
            na == a@.len(),
            nb == b@.len(),
            na == nb,
            i <= na,
            forall|j: int| 0 <= j < i ==> a@[j] == b@[j],
        decreases na - i,
    {
        if a.get_char(i) != b.get_char(i) {
            return false;
        }
        i = i + 1;
    }
    assert(a@ =~= b@);
    true
}

/// A copy of `s` with the same characters.
pub fn copy_string(s: &String) -> (r: String)
    ensures
        r@ == s@,
{
    s.clone()
}

impl JsonValue {
    /// A copy of this document.
    #[verifier::loop_isolation(false)]
    pub fn deep_clone(&self) -> (r: JsonValue)
        ensures
            r@ == self@,
        decreases self,
    {
        match self {
            JsonValue::Null => JsonValue::Null,
            JsonValue::Bool(b) => JsonValue::Bool(*b),
            JsonValue::Number(n) => JsonValue::Number(*n),
            JsonValue::String(s) => JsonValue::String(copy_string(s)),
            JsonValue::Array(items) => {
                let mut out: Vec<JsonValue> = Vec::new();
                let mut i: usize = 0;
                while i < items.len()
                    invariant
                        i <= items@.len(),
                        out@.len() == i,
                        forall|j: int| 0 <= j < i ==> #[trigger] out@[j]@ == items@[j]@,
                    decreases items@.len() - i,
                {
                    proof {
                        assert(decreases_to!(*self => items@[i as int]));
                    }
                    let c = items[i].deep_clone();
                    out.push(c);
                    i = i + 1;
                }
                proof {
                    lemma_items_view(items@);
                    lemma_items_view(out@);
                    assert(items_view(out@) =~= items_view(items@));
                }
                JsonValue::Array(out)
            },
            JsonValue::Object(entries) => {
                let mut out: Vec<(String, JsonValue)> = Vec::new();
                let mut i: usize = 0;
                while i < entries.len()
                    invariant
                        i <= entries@.len(),
                        out@.len() == i,
                        forall|j: int|
                            0 <= j < i ==> #[trigger] out@[j].0@ == entries@[j].0@ && out@[j].1@
                                == entries@[j].1@,
                    decreases entries@.len() - i,
                {
                    let k = copy_string(&entries[i].0);
                    proof {
                        assert(decreases_to!(*self => entries@[i as int].1));
                    }
                    let v = entries[i].1.deep_clone();
                    out.push((k, v));
                    i = i + 1;
                }
                proof {
                    lemma_entries_view(entries@);
                    lemma_entries_view(out@);
                    assert(entries_view(out@) =~= entries_view(entries@));
                }
                JsonValue::Object(out)
            },
        }
    }

    /// Whether two documents are equal.
    #[verifier::loop_isolation(false)]
    pub fn equals(&self, other: &JsonValue) -> (r: bool)
        ensures
            r == (self@ == other@),
        decreases self,
    {
        match (self, other) {
            (JsonValue::Null, JsonValue::Null) => true,
            (JsonValue::Bool(a), JsonValue::Bool(b)) => *a == *b,
            (JsonValue::Number(a), JsonValue::Number(b)) => *a == *b,
            (JsonValue::String(a), JsonValue::String(b)) => str_eq(a.as_str(), b.as_str()),
            (JsonValue::Array(a), JsonValue::Array(b)) => {
                proof {
                    lemma_items_view(a@);
                    lemma_items_view(b@);
                }
                if a.len() != b.len() {
                    return false;
                }
                let mut i: usize = 0;
                while i < a.len()
                    invariant
                        a@.len() == b@.len(),
                        i <= a@.len(),
                        forall|j: int| 0 <= j < i ==> #[trigger] a@[j]@ == b@[j]@,
                    decreases a@.len() - i,
                {
                    proof {
                        assert(decreases_to!(*self => a@[i as int]));
                    }
                    if !a[i].equals(&b[i]) {
                        proof {
                            assert(items_view(a@)[i as int] != items_view(b@)[i as int]);
                        }
                        return false;
                    }
                    i = i + 1;
                }
                assert(items_view(a@) =~= items_view(b@));
                true
            },
            (JsonValue::Object(a), JsonValue::Object(b)) => {
                proof {
                    lemma_entries_view(a@);
                    lemma_entries_view(b@);
                }
                if a.len() != b.len() {
                    return false;
                }
                let mut i: usize = 0;
                while i < a.len()
                    invariant
                        a@.len() == b@.len(),
                        i <= a@.len(),
                        forall|j: int|
                            #![trigger a@[j]]
                            0 <= j < i ==> a@[j].0@ == b@[j].0@ && a@[j].1@ == b@[j].1@,
                    decreases a@.len() - i,
                {
                    proof {
                        assert(decreases_to!(*self => a@[i as int].1));
                    }
                    if !str_eq(a[i].0.as_str(), b[i].0.as_str()) || !a[i].1.equals(&b[i].1) {
                        proof {
                            assert(entries_view(a@)[i as int] != entries_view(b@)[i as int]);
                        }
                        return false;
                    }
                    assert(a@[i as int].0@ == b@[i as int].0@ && a@[i as int].1@ == b@[i as int].1@);
                    i = i + 1;
                }
                assert(entries_view(a@) =~= entries_view(b@));
                true
            },
            _ => false,
        }
    }
}

} // verus!
