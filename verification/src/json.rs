//! A JSON value as the library reads it: the request bodies of the Messages
//! API are parsed elsewhere and handed over in this form.
use vstd::prelude::*;
use crate::assoc::{assoc_get, lemma_assoc_index_at, lemma_assoc_index_none};

verus! {

/// A JSON value. Numbers keep their text; objects keep their members in order.
#[derive(Debug)]
pub enum Json {
    Null,
    Bool(bool),
    Number(String),
    Str(String),
    Array(Vec<Json>),
    Object(Vec<(String, Json)>),
}

/// A JSON value as plain values.
pub enum JsonView {
    Null,
    Bool(bool),
    Number(Seq<char>),
    Str(Seq<char>),
    Array(Seq<JsonView>),
    Object(Seq<(Seq<char>, JsonView)>),
}

pub open spec fn json_view(j: Json) -> JsonView
    decreases j,
{
    match j {
        Json::Null => JsonView::Null,
        Json::Bool(b) => JsonView::Bool(b),
        Json::Number(n) => JsonView::Number(n@),
        Json::Str(s) => JsonView::Str(s@),
        Json::Array(v) => JsonView::Array(
            Seq::new(v@.len(), |i: int| if 0 <= i < v@.len() { json_view(v@[i]) } else { JsonView::Null }),
        ),
        Json::Object(es) => JsonView::Object(
            Seq::new(
                es@.len(),
                |i: int| if 0 <= i < es@.len() { (es@[i].0@, json_view(es@[i].1)) } else { (Seq::empty(), JsonView::Null) },
            ),
        ),
    }
}

impl View for Json {
    type V = JsonView;

    open spec fn view(&self) -> JsonView {
        json_view(*self)
    }
}

/// The member `key` of an object (the first one, should there be several).
pub open spec fn member(j: JsonView, key: Seq<char>) -> Option<JsonView> {
    match j {
        JsonView::Object(es) => assoc_get(es, key),
        _ => None,
    }
}

pub open spec fn str_of(j: JsonView) -> Option<Seq<char>> {
    match j {
        JsonView::Str(s) => Some(s),
        _ => None,
    }
}

pub open spec fn bool_of(j: JsonView) -> Option<bool> {
    match j {
        JsonView::Bool(b) => Some(b),
        _ => None,
    }
}

pub open spec fn array_of(j: JsonView) -> Option<Seq<JsonView>> {
    match j {
        JsonView::Array(a) => Some(a),
        _ => None,
    }
}

/// `member(j, key)` read as a string, if it is one.
pub open spec fn member_str(j: JsonView, key: Seq<char>) -> Option<Seq<char>> {
    match member(j, key) {
        Some(v) => str_of(v),
        None => None,
    }
}

impl Json {
    /// The member `key` of an object; `None` for a non-object or a missing key.
    pub fn get(&self, key: &str) -> (r: Option<&Json>)
        ensures
            match r {
                Some(v) => member(self@, key@) == Some(v@),
                None => member(self@, key@) is None,
            },
    {
        match self {
            Json::Object(es) => {
                let k = key.to_owned();
                let ghost vs = match self@ {
                    JsonView::Object(vs) => vs,
                    _ => Seq::empty(),
                };
                assert(self@ == JsonView::Object(vs));
                assert(vs.len() == es@.len());
                assert(forall|j: int| 0 <= j < es@.len() ==> #[trigger] vs[j] == (es@[j].0@, json_view(es@[j].1)));
                let n = es.len();
                for i in 0..n
                    invariant
                        n == es@.len(),
                        vs.len() == n,
                        forall|j: int| 0 <= j < n ==> #[trigger] vs[j] == (es@[j].0@, json_view(es@[j].1)),
                        forall|j: int| 0 <= j < i ==> vs[j].0 != k@,
                        k@ == key@,
                        self@ == JsonView::Object(vs),
                {
                    if es[i].0 == k {
                        proof {
                            lemma_assoc_index_at(vs, key@, i as int);
                        }
                        return Some(&es[i].1);
                    }
                }
                proof {
                    lemma_assoc_index_none(vs, key@);
                }
                None
            },
            _ => None,
        }
    }

    pub fn as_str(&self) -> (r: Option<&String>)
        ensures
            match r {
                Some(s) => str_of(self@) == Some(s@),
                None => str_of(self@) is None,
            },
    {
        match self {
            Json::Str(s) => Some(s),
            _ => None,
        }
    }

    pub fn as_bool(&self) -> (r: Option<bool>)
        ensures
            r == bool_of(self@),
    {
        match self {
            Json::Bool(b) => Some(*b),
            _ => None,
        }
    }

    pub fn as_array(&self) -> (r: Option<&Vec<Json>>)
        ensures
            match r {
                Some(v) => array_of(self@) matches Some(a) && a.len() == v@.len()
                    && forall|i: int| 0 <= i < a.len() ==> #[trigger] a[i] == v@[i]@,
                None => array_of(self@) is None,
            },
    {
        match self {
            Json::Array(v) => Some(v),
            _ => None,
        }
    }
}

} // verus!
