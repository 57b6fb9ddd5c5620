//! JSON values.

use vstd::prelude::*;

use crate::text::{str_eq, views};

verus! {

broadcast use vstd::seq::group_seq_axioms;

/// A JSON value. The members of an object stand in some order; a number is kept as it is written.
#[derive(Debug, PartialEq, Eq)]
pub enum Json {
    Null,
    Bool(bool),
    Number(String),
    Text(String),
    Array(Vec<Json>),
    Object(Vec<(String, Json)>),
}

/// What a JSON value is.
pub enum JsonV {
    Null,
    Bool(bool),
    Number(Seq<char>),
    Text(Seq<char>),
    Array(Seq<JsonV>),
    Object(Seq<(Seq<char>, JsonV)>),
}

/// What a JSON value is.
pub open spec fn shown(j: Json) -> JsonV
    decreases j,
{
    match j {
        Json::Null => JsonV::Null,
        Json::Bool(b) => JsonV::Bool(b),
        Json::Number(n) => JsonV::Number(n@),
        Json::Text(t) => JsonV::Text(t@),
        Json::Array(v) => JsonV::Array(
            Seq::new(
                v@.len(),
                |i: int|
                    if 0 <= i < v@.len() {
                        shown(v@[i])
                    } else {
                        JsonV::Null
                    },
            ),
        ),
        Json::Object(m) => JsonV::Object(
            Seq::new(
                m@.len(),
                |i: int|
                    if 0 <= i < m@.len() {
                        (m@[i].0@, shown(m@[i].1))
                    } else {
                        (Seq::empty(), JsonV::Null)
                    },
            ),
        ),
    }
}

impl View for Json {
    type V = JsonV;

    open spec fn view(&self) -> JsonV {
        shown(*self)
    }
}

/// The values of an array.
pub open spec fn values(v: Seq<Json>) -> Seq<JsonV> {
    v.map_values(|j: Json| j@)
}

/// The members of an object.
pub open spec fn members(m: Seq<(String, Json)>) -> Seq<(Seq<char>, JsonV)> {
    m.map_values(|e: (String, Json)| (e.0@, e.1@))
}

/// What an array is.
pub proof fn lemma_array(v: Vec<Json>)
    ensures
        Json::Array(v)@ == JsonV::Array(values(v@)),
{
    assert(Json::Array(v)@->Array_0 =~= values(v@));
}

/// What an object is.
pub proof fn lemma_object(m: Vec<(String, Json)>)
    ensures
        Json::Object(m)@ == JsonV::Object(members(m@)),
{
    assert(Json::Object(m)@->Object_0 =~= members(m@));
}

/// Where the member with the key `k` stands among the members of an object, or their number where
/// there is none.
pub open spec fn position(o: Seq<(Seq<char>, JsonV)>, k: Seq<char>) -> int
    decreases o.len(),
{
    if o.len() == 0 || o[0].0 == k {
        0
    } else {
        1 + position(o.drop_first(), k)
    }
}

/// The members of an object hold the key `k`.
pub open spec fn has_key(o: Seq<(Seq<char>, JsonV)>, k: Seq<char>) -> bool {
    position(o, k) < o.len()
}

/// The member of a value with the key `k`. Only an object has members.
pub open spec fn member(j: JsonV, k: Seq<char>) -> Option<JsonV> {
    match j {
        JsonV::Object(o) => if has_key(o, k) {
            Some(o[position(o, k)].1)
        } else {
            None
        },
        _ => None,
    }
}

/// What the position of a key is: that of the first member that has it.
pub proof fn lemma_position(o: Seq<(Seq<char>, JsonV)>, k: Seq<char>)
    ensures
        0 <= position(o, k) <= o.len(),
        has_key(o, k) ==> o[position(o, k)].0 == k,
        forall|i: int| 0 <= i < position(o, k) ==> (#[trigger] o[i]).0 != k,
    decreases o.len(),
{
    if o.len() > 0 && o[0].0 != k {
        let rest = o.drop_first();
        lemma_position(rest, k);
        assert forall|i: int| 0 <= i < position(o, k) implies (#[trigger] o[i]).0 != k by {
            if i > 0 {
                assert(rest[i - 1] == o[i]);
            }
        }
    }
}

/// The first member with the key `k` is at `i`.
pub proof fn lemma_position_is(o: Seq<(Seq<char>, JsonV)>, k: Seq<char>, i: int)
    requires
        0 <= i <= o.len(),
        i < o.len() ==> o[i].0 == k,
        forall|j: int| 0 <= j < i ==> (#[trigger] o[j]).0 != k,
    ensures
        position(o, k) == i,
{
    lemma_position(o, k);
    let p = position(o, k);
    if p < i {
        assert(o[p].0 != k);
    } else if i < p {
        assert(o[i].0 != k);
    }
}

/// Where the member with the key `k` stands.
pub fn position_of(m: &Vec<(String, Json)>, k: &str) -> (i: usize)
    ensures
        i == position(members(m@), k@),
        i <= m@.len(),
{
    let ghost o = members(m@);
    let mut i: usize = 0;
    while i < m.len() && !str_eq(m[i].0.as_str(), k)
        invariant
            i <= m@.len(),
            o == members(m@),
            forall|j: int| 0 <= j < i ==> (#[trigger] o[j]).0 != k@,
        decreases m@.len() - i,
    {
        assert(o[i as int].0 == m@[i as int].0@);
        i += 1;
    }
    proof {
        if i < m@.len() {
            assert(o[i as int].0 == m@[i as int].0@);
        }
        lemma_position_is(o, k@, i as int);
    }
    i
}

impl Json {
    /// The member of an object with the key `k`. Only an object has members.
    pub fn get(&self, k: &str) -> (r: Option<&Json>)
        ensures
            match r {
                Some(j) => member(self@, k@) == Some(j@),
                None => member(self@, k@) is None,
            },
    {
        match self {
            Json::Object(m) => {
                let i = position_of(m, k);
                proof {
                    lemma_object(*m);
                }
                if i < m.len() {
                    Some(&m[i].1)
                } else {
                    None
                }
            },
            _ => None,
        }
    }

    /// The characters of a text.
    pub fn as_text(&self) -> (r: Option<&str>)
        ensures
            match r {
                Some(t) => self@ == JsonV::Text(t@),
                None => !(self@ is Text),
            },
    {
        match self {
            Json::Text(t) => Some(t.as_str()),
            _ => None,
        }
    }

    /// The value of a truth value.
    pub fn as_bool(&self) -> (r: Option<bool>)
        ensures
            match r {
                Some(b) => self@ == JsonV::Bool(b),
                None => !(self@ is Bool),
            },
    {
        match self {
            Json::Bool(b) => Some(*b),
            _ => None,
        }
    }

    /// A text.
    pub fn text(t: &str) -> (j: Json)
        ensures
            j@ == JsonV::Text(t@),
    {
        Json::Text(t.to_owned())
    }

    /// An array of texts.
    pub fn texts(v: &Vec<String>) -> (j: Json)
        ensures
            j@ == text_array(views(v@)),
    {
        let mut a: Vec<Json> = Vec::new();
        let mut i: usize = 0;
        while i < v.len()
            invariant
                i <= v@.len(),
                a@.len() == i,
                forall|k: int| 0 <= k < i ==> (#[trigger] a@[k])@ == JsonV::Text(v@[k]@),
            decreases v@.len() - i,
        {
            a.push(Json::text(v[i].as_str()));
            i += 1;
        }
        proof {
            lemma_array(a);
            assert(values(a@) =~= text_array(views(v@))->Array_0);
        }
        Json::Array(a)
    }
}

/// An array of texts.
pub open spec fn text_array(v: Seq<Seq<char>>) -> JsonV {
    JsonV::Array(v.map_values(|t: Seq<char>| JsonV::Text(t)))
}

/// The member of a value by a key is the first with that key of an object; without one, or where the
/// value is no object, there is none.
pub proof fn law_member_is_first(o: Seq<(Seq<char>, JsonV)>, k: Seq<char>, i: int, j: JsonV)
    ensures
        0 <= i < o.len() && o[i].0 == k && (forall|a: int| 0 <= a < i ==> (#[trigger] o[a]).0 != k)
            ==> member(JsonV::Object(o), k) == Some(o[i].1),
        member(JsonV::Object(o), k) is None <==> forall|a: int|
            0 <= a < o.len() ==> (#[trigger] o[a]).0 != k,
        !(j is Object) ==> member(j, k) is None,
{
    lemma_position(o, k);
    if 0 <= i < o.len() && o[i].0 == k && (forall|a: int| 0 <= a < i ==> (#[trigger] o[a]).0 != k) {
        lemma_position_is(o, k, i);
    }
    if has_key(o, k) {
        assert(o[position(o, k)].0 == k);
    } else {
        assert forall|a: int| 0 <= a < o.len() implies (#[trigger] o[a]).0 != k by {}
    }
}

/// A list of texts holds each of them, in order.
pub proof fn law_text_array(v: Seq<Seq<char>>, i: int)
    requires
        0 <= i < v.len(),
    ensures
        text_array(v) is Array,
        text_array(v)->Array_0.len() == v.len(),
        text_array(v)->Array_0[i] == JsonV::Text(v[i]),
{
}

} // verus!
