//! JSON values.

use crate::double::Double;
use vstd::prelude::*;

verus! {

/// A JSON value. An integer is held as such where it fits 64 bits; an object
/// holds its members in the order in which they are read.
#[derive(Debug)]
pub enum Json {
    Null,
    Bool(bool),
    /// An integer that is not negative.
    Unsigned(u64),
    /// An integer below zero.
    Negative(i64),
    Float(Double),
    Text(String),
    List(Vec<Json>),
    Object(Vec<(String, Json)>),
}

/// Mathematical model of a [`Json`] value.
#[verifier::ext_equal]
pub ghost enum JsonView {
    Null,
    Bool(bool),
    Unsigned(u64),
    Negative(i64),
    Float(Double),
    Text(Seq<char>),
    List(Seq<JsonView>),
    Object(Seq<(Seq<char>, JsonView)>),
}

impl View for Json {
    type V = JsonView;

    open spec fn view(&self) -> JsonView
        decreases self,
    {
        match *self {
            Json::Null => JsonView::Null,
            Json::Bool(b) => JsonView::Bool(b),
            Json::Unsigned(n) => JsonView::Unsigned(n),
            Json::Negative(n) => JsonView::Negative(n),
            Json::Float(d) => JsonView::Float(d),
            Json::Text(s) => JsonView::Text(s@),
            Json::List(v) => JsonView::List(
                Seq::new(
                    v@.len(),
                    |i: int|
                        if 0 <= i < v@.len() {
                            v@[i].view()
                        } else {
                            JsonView::Null
                        },
                ),
            ),
            Json::Object(v) => JsonView::Object(
                Seq::new(
                    v@.len(),
                    |i: int|
                        if 0 <= i < v@.len() {
                            (v@[i].0@, v@[i].1.view())
                        } else {
                            (Seq::empty(), JsonView::Null)
                        },
                ),
            ),
        }
    }
}

pub open spec fn json_views(v: Seq<Json>) -> Seq<JsonView> {
    Seq::new(v.len(), |i: int| v[i]@)
}

pub open spec fn member_views(v: Seq<(String, Json)>) -> Seq<(Seq<char>, JsonView)> {
    Seq::new(v.len(), |i: int| (v[i].0@, v[i].1@))
}

/// The models of a list and of an object are those of what they hold.
pub proof fn lemma_json_views(j: Json)
    ensures
        j matches Json::List(v) ==> j@ == JsonView::List(json_views(v@)),
        j matches Json::Object(v) ==> j@ == JsonView::Object(member_views(v@)),
{
    reveal_with_fuel(<Json as View>::view, 2);
    match j {
        Json::List(v) => {
            assert(j@->List_0 =~= json_views(v@));
        },
        Json::Object(v) => {
            assert(j@->Object_0 =~= member_views(v@));
        },
        _ => {},
    }
}

impl JsonView {
    /// The value of the first member with a name; none where this is no object.
    pub open spec fn field(self, key: Seq<char>) -> Option<JsonView> {
        match self {
            JsonView::Object(m) => first_member(m, key, 0),
            _ => None,
        }
    }

    /// The value as an integer that is not negative.
    pub open spec fn as_index(self) -> Option<u64> {
        match self {
            JsonView::Unsigned(n) => Some(n),
            _ => None,
        }
    }

    /// The value as a number.
    pub open spec fn as_number(self) -> Option<Double> {
        match self {
            JsonView::Unsigned(n) => Some(Double::from_u64(n)),
            JsonView::Negative(n) => Some(Double::from_u64(magnitude(n)).negated()),
            JsonView::Float(d) => Some(d),
            _ => None,
        }
    }

    pub open spec fn as_text(self) -> Option<Seq<char>> {
        match self {
            JsonView::Text(s) => Some(s),
            _ => None,
        }
    }

    pub open spec fn as_list(self) -> Option<Seq<JsonView>> {
        match self {
            JsonView::List(v) => Some(v),
            _ => None,
        }
    }

    pub open spec fn index_at(self, key: Seq<char>) -> Option<u64> {
        match self.field(key) {
            Some(v) => v.as_index(),
            None => None,
        }
    }

    pub open spec fn number_at(self, key: Seq<char>) -> Option<Double> {
        match self.field(key) {
            Some(v) => v.as_number(),
            None => None,
        }
    }

    pub open spec fn text_at(self, key: Seq<char>) -> Option<Seq<char>> {
        match self.field(key) {
            Some(v) => v.as_text(),
            None => None,
        }
    }

    pub open spec fn list_at(self, key: Seq<char>) -> Option<Seq<JsonView>> {
        match self.field(key) {
            Some(v) => v.as_list(),
            None => None,
        }
    }
}

/// The size of an integer below zero.
pub open spec fn magnitude(n: i64) -> u64 {
    if n < 0 {
        (-n) as u64
    } else {
        n as u64
    }
}

/// The value of the first member, from place `i` on, with a name.
pub open spec fn first_member(m: Seq<(Seq<char>, JsonView)>, key: Seq<char>, i: nat) -> Option<
    JsonView,
>
    decreases m.len() - i,
{
    if i >= m.len() {
        None
    } else if m[i as int].0 == key {
        Some(m[i as int].1)
    } else {
        first_member(m, key, i + 1)
    }
}

pub open spec fn json_option(j: Option<&Json>) -> Option<JsonView> {
    match j {
        Some(v) => Some(v@),
        None => None,
    }
}

pub open spec fn text_views(v: Seq<String>) -> Seq<Seq<char>> {
    v.map_values(|s: String| s@)
}

/// The first place, from `i` on, at which a text stands.
pub open spec fn text_place(v: Seq<Seq<char>>, t: Seq<char>, i: nat) -> Option<usize>
    decreases v.len() - i,
{
    if i >= v.len() {
        None
    } else if v[i as int] == t {
        Some(i as usize)
    } else {
        text_place(v, t, i + 1)
    }
}

/// The first place at which a text stands.
pub fn find_text(v: &Vec<String>, t: &String) -> (r: Option<usize>)
    ensures
        r == text_place(text_views(v@), t@, 0),
{
    let ghost views = text_views(v@);
    let mut i: usize = 0;
    while i < v.len()
        invariant
            i <= v@.len(),
            views == text_views(v@),
            text_place(views, t@, 0) == text_place(views, t@, i as nat),
        decreases v@.len() - i,
    {
        assert(views[i as int] == v@[i as int]@);
        if v[i] == *t {
            return Some(i);
        }
        i = i + 1;
    }
    None
}

/// Whether two texts are the same.
pub(crate) fn same_text(a: &String, b: &str) -> (r: bool)
    ensures
        r == (a@ == b@),
{
    *a == b.to_string()
}

impl Json {
    /// The value of the member with a name; none where this is no object.
    pub fn get(&self, key: &str) -> (r: Option<&Json>)
        ensures
            json_option(r) == self@.field(key@),
    {
        match self {
            Json::Object(m) => {
                proof {
                    lemma_json_views(*self);
                }
                let ghost views = member_views(m@);
                let mut i: usize = 0;
                while i < m.len()
                    invariant
                        i <= m@.len(),
                        views == member_views(m@),
                        self@ == JsonView::Object(views),
                        first_member(views, key@, 0) == first_member(views, key@, i as nat),
                    decreases m@.len() - i,
                {
                    assert(views[i as int] == (m@[i as int].0@, m@[i as int].1@));
                    if same_text(&m[i].0, key) {
                        return Some(&m[i].1);
                    }
                    i = i + 1;
                }
                None
            },
            _ => None,
        }
    }

    /// The value as an integer that is not negative.
    pub fn as_u64(&self) -> (r: Option<u64>)
        ensures
            r == self@.as_index(),
    {
        match self {
            Json::Unsigned(n) => Some(*n),
            _ => None,
        }
    }

    /// The value as a number.
    pub fn as_number(&self) -> (r: Option<Double>)
        ensures
            r == self@.as_number(),
    {
        match self {
            Json::Unsigned(n) => Some(Double::from_u64(*n)),
            Json::Negative(n) => {
                let size: u64 = if *n < 0 {
                    if *n == i64::MIN {
                        0x8000_0000_0000_0000
                    } else {
                        (-*n) as u64
                    }
                } else {
                    *n as u64
                };
                Some(Double::from_u64(size).negated())
            },
            Json::Float(d) => Some(*d),
            _ => None,
        }
    }

    pub fn as_str(&self) -> (r: Option<&String>)
        ensures
            match r {
                Some(s) => self@.as_text() == Some(s@),
                None => self@.as_text() is None,
            },
    {
        match self {
            Json::Text(s) => Some(s),
            _ => None,
        }
    }

    pub fn as_array(&self) -> (r: Option<&Vec<Json>>)
        ensures
            match r {
                Some(v) => self@.as_list() == Some(json_views(v@)),
                None => self@.as_list() is None,
            },
    {
        match self {
            Json::List(v) => {
                proof {
                    lemma_json_views(*self);
                }
                Some(v)
            },
            _ => None,
        }
    }

    /// The member with a name, as an integer that is not negative.
    pub fn index_at(&self, key: &str) -> (r: Option<u64>)
        ensures
            r == self@.index_at(key@),
    {
        match self.get(key) {
            Some(v) => v.as_u64(),
            None => None,
        }
    }

    /// The member with a name, as a number.
    pub fn number_at(&self, key: &str) -> (r: Option<Double>)
        ensures
            r == self@.number_at(key@),
    {
        match self.get(key) {
            Some(v) => v.as_number(),
            None => None,
        }
    }

    /// The member with a name, as a text.
    pub fn text_at(&self, key: &str) -> (r: Option<&String>)
        ensures
            match r {
                Some(s) => self@.text_at(key@) == Some(s@),
                None => self@.text_at(key@) is None,
            },
    {
        match self.get(key) {
            Some(v) => v.as_str(),
            None => None,
        }
    }

    /// A copy of the whole value.
    pub fn copy(&self) -> (r: Json)
        ensures
            r@ == self@,
        decreases self,
    {
        match self {
            Json::Null => Json::Null,
            Json::Bool(b) => Json::Bool(*b),
            Json::Unsigned(n) => Json::Unsigned(*n),
            Json::Negative(n) => Json::Negative(*n),
            Json::Float(d) => Json::Float(*d),
            Json::Text(s) => Json::Text(s.clone()),
            Json::List(v) => {
                let mut out: Vec<Json> = Vec::new();
                let mut i: usize = 0;
                while i < v.len()
                    invariant
                        *self == Json::List(*v),
                        i <= v@.len(),
                        out@.len() == i,
                        forall|k: int| 0 <= k < i ==> (#[trigger] out@[k])@ == v@[k]@,
                    decreases v@.len() - i,
                {
                    assert(decreases_to!(*self => self->List_0));
                    assert(decreases_to!(*v => v@));
                    assert(decreases_to!(v@ => v@[i as int]));
                    out.push(v[i].copy());
                    i = i + 1;
                }
                let r = Json::List(out);
                proof {
                    lemma_json_views(*self);
                    lemma_json_views(r);
                    assert(json_views(out@) =~= json_views(v@));
                }
                r
            },
            Json::Object(v) => {
                let mut out: Vec<(String, Json)> = Vec::new();
                let mut i: usize = 0;
                while i < v.len()
                    invariant
                        *self == Json::Object(*v),
                        i <= v@.len(),
                        out@.len() == i,
                        forall|k: int|
                            0 <= k < i ==> (#[trigger] out@[k]).0@ == v@[k].0@ && out@[k].1@
                                == v@[k].1@,
                    decreases v@.len() - i,
                {
                    assert(decreases_to!(*self => self->Object_0));
                    assert(decreases_to!(*v => v@));
                    assert(decreases_to!(v@ => v@[i as int]));
                    assert(decreases_to!(v@[i as int] => v@[i as int].1));
                    out.push((v[i].0.clone(), v[i].1.copy()));
                    i = i + 1;
                }
                let r = Json::Object(out);
                proof {
                    lemma_json_views(*self);
                    lemma_json_views(r);
                    assert(member_views(out@) =~= member_views(v@));
                }
                r
            },
        }
    }
}

} // verus!
