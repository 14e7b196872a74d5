//! The library's own model of a JSON document.

use vstd::prelude::*;
use crate::text::str_eq;

verus! {

/// A JSON value as the library's logic reads it. Object members keep the
/// order in which they were read; numbers keep their textual form.
#[derive(Debug, PartialEq)]
pub enum Json {
    Null,
    Bool(bool),
    Number(String),
    Str(String),
    Array(Vec<Json>),
    Object(Vec<(String, Json)>),
}

/// Mathematical model of [`Json`].
pub enum JsonView {
    Null,
    Bool(bool),
    Number(Seq<char>),
    Str(Seq<char>),
    Array(Seq<JsonView>),
    Object(Seq<(Seq<char>, JsonView)>),
}

pub open spec fn json_view(j: Json) -> JsonView
    decreases j,
{
    match j {
        Json::Null => JsonView::Null,
        Json::Bool(b) => JsonView::Bool(b),
        Json::Number(n) => JsonView::Number(n@),
        Json::Str(s) => JsonView::Str(s@),
        Json::Array(items) => JsonView::Array(
            Seq::new(
                items@.len(),
                |i: int|
                    if 0 <= i < items@.len() {
                        json_view(items@[i])
                    } else {
                        JsonView::Null
                    },
            ),
        ),
        Json::Object(fields) => JsonView::Object(
            Seq::new(
                fields@.len(),
                |i: int|
                    if 0 <= i < fields@.len() {
                        (fields@[i].0@, json_view(fields@[i].1))
                    } else {
                        (Seq::empty(), JsonView::Null)
                    },
            ),
        ),
    }
}

impl View for Json {
    type V = JsonView;

    open spec fn view(&self) -> JsonView {
        json_view(*self)
    }
}

/// Position of the first member named `key`, or -1.
pub open spec fn key_pos(fields: Seq<(Seq<char>, JsonView)>, key: Seq<char>) -> int
    decreases fields.len(),
{
    if fields.len() == 0 {
        -1
    } else if fields[0].0 == key {
        0
    } else {
        let r = key_pos(fields.drop_first(), key);
        if r < 0 {
            -1
        } else {
            r + 1
        }
    }
}

/// The member `key` of an object (the first one with that name); `None`
/// for a missing member or a value that is not an object.
pub open spec fn get_field(m: JsonView, key: Seq<char>) -> Option<JsonView> {
    match m {
        JsonView::Object(fields) => {
            let p = key_pos(fields, key);
            if 0 <= p < fields.len() {
                Some(fields[p].1)
            } else {
                None
            }
        },
        _ => None,
    }
}

/// The text of a string value.
pub open spec fn str_of(m: Option<JsonView>) -> Option<Seq<char>> {
    match m {
        Some(JsonView::Str(s)) => Some(s),
        _ => None,
    }
}

/// The items of an array value.
pub open spec fn items_of(m: Option<JsonView>) -> Option<Seq<JsonView>> {
    match m {
        Some(JsonView::Array(items)) => Some(items),
        _ => None,
    }
}

/// The item at `i` of an array value.
pub open spec fn item_at(m: Option<JsonView>, i: int) -> Option<JsonView> {
    match m {
        Some(JsonView::Array(items)) => {
            if 0 <= i < items.len() {
                Some(items[i])
            } else {
                None
            }
        },
        _ => None,
    }
}

/// The string member `key` of an object.
pub open spec fn str_field(m: JsonView, key: Seq<char>) -> Option<Seq<char>> {
    str_of(get_field(m, key))
}

/// The object with its member `key` set to `v`; the member keeps its
/// place. A value without that member is returned unchanged.
pub open spec fn set_field(m: JsonView, key: Seq<char>, v: JsonView) -> JsonView {
    match m {
        JsonView::Object(fields) => {
            let p = key_pos(fields, key);
            if 0 <= p < fields.len() {
                JsonView::Object(fields.update(p, (key, v)))
            } else {
                m
            }
        },
        _ => m,
    }
}

/// The model of an optional owned value.
pub open spec fn json_opt_view(o: Option<Json>) -> Option<JsonView> {
    match o {
        Some(j) => Some(j@),
        None => None,
    }
}

/// View of an optional reference to a value.
pub open spec fn opt_json(o: Option<&Json>) -> Option<JsonView> {
    match o {
        Some(j) => Some(j@),
        None => None,
    }
}

/// The member `key` of an optional value.
pub open spec fn field_of(o: Option<JsonView>, key: Seq<char>) -> Option<JsonView> {
    match o {
        Some(m) => get_field(m, key),
        None => None,
    }
}

/// `choices[0]` of a completion response.
pub open spec fn first_choice(v: JsonView) -> Option<JsonView> {
    item_at(get_field(v, "choices"@), 0)
}

/// The member `key` of an optional value.
pub fn get_in<'a>(o: Option<&'a Json>, key: &str) -> (r: Option<&'a Json>)
    ensures
        opt_json(r) == field_of(opt_json(o), key@),
{
    match o {
        Some(j) => j.get(key),
        None => None,
    }
}

/// The item at `i` of an optional array value.
pub fn item_in<'a>(o: Option<&'a Json>, i: usize) -> (r: Option<&'a Json>)
    ensures
        opt_json(r) == item_at(opt_json(o), i as int),
{
    match o {
        Some(j) => match j {
            Json::Array(items) => {
                if i < items.len() {
                    Some(&items[i])
                } else {
                    None
                }
            },
            _ => None,
        },
        None => None,
    }
}

/// The text of an optional string value.
pub fn str_in<'a>(o: Option<&'a Json>) -> (r: Option<&'a String>)
    ensures
        match r {
            Some(s) => str_of(opt_json(o)) == Some(s@),
            None => str_of(opt_json(o)) is None,
        },
{
    match o {
        Some(j) => j.as_str(),
        None => None,
    }
}

pub proof fn lemma_key_pos_bound(fields: Seq<(Seq<char>, JsonView)>, key: Seq<char>)
    ensures
        -1 <= key_pos(fields, key) < fields.len(),
        key_pos(fields, key) >= 0 ==> fields[key_pos(fields, key)].0 == key,
        key_pos(fields, key) < 0 ==> forall|j: int| 0 <= j < fields.len() ==> fields[j].0 != key,
        forall|j: int| 0 <= j < key_pos(fields, key) ==> fields[j].0 != key,
    decreases fields.len(),
{
    if fields.len() > 0 {
        lemma_key_pos_bound(fields.drop_first(), key);
        if fields[0].0 != key {
            assert forall|j: int| 1 <= j < fields.len() implies fields[j].0 == fields.drop_first()[j
                - 1].0 by {}
        }
    }
}

/// `key_pos` reads only the member names.
pub proof fn lemma_key_pos_names(f: Seq<(Seq<char>, JsonView)>, g: Seq<(Seq<char>, JsonView)>, key: Seq<char>)
    requires
        f.len() == g.len(),
        forall|j: int| 0 <= j < f.len() ==> (#[trigger] f[j]).0 == g[j].0,
    ensures
        key_pos(f, key) == key_pos(g, key),
    decreases f.len(),
{
    if f.len() > 0 {
        assert(f[0].0 == g[0].0);
        lemma_key_pos_names(f.drop_first(), g.drop_first(), key);
    }
}

/// Setting a member that exists: it reads back as the new value, and every
/// other member reads as before.
pub proof fn lemma_set_field_get(m: JsonView, key: Seq<char>, v: JsonView, other: Seq<char>)
    requires
        get_field(m, key) is Some,
    ensures
        get_field(set_field(m, key, v), key) == Some(v),
        other != key ==> get_field(set_field(m, key, v), other) == get_field(m, other),
{
    let fields = m->Object_0;
    let p = key_pos(fields, key);
    lemma_key_pos_bound(fields, key);
    let g = fields.update(p, (key, v));
    lemma_key_pos_names(fields, g, key);
    lemma_key_pos_names(fields, g, other);
    lemma_key_pos_bound(fields, other);
}

impl Json {
    /// Position of the first member named `key` of an object.
    pub fn member_pos(&self, key: &str) -> (r: Option<usize>)
        ensures
            match self@ {
                JsonView::Object(fields) => match r {
                    Some(p) => key_pos(fields, key@) == p && p < fields.len(),
                    None => key_pos(fields, key@) < 0,
                },
                _ => r is None,
            },
    {
        match self {
            Json::Object(fields) => {
                let ghost fs = self@->Object_0;
                proof {
                    lemma_key_pos_bound(fs, key@);
                }
                let mut k: usize = 0;
                while k < fields.len()
                    invariant
                        self@ == JsonView::Object(fs),
                        *self == Json::Object(*fields),
                        fs.len() == fields@.len(),
                        forall|j: int| 0 <= j < fields@.len() ==> fs[j].0 == fields@[j].0@,
                        k <= fields@.len(),
                        forall|j: int| 0 <= j < k ==> fs[j].0 != key@,
                        -1 <= key_pos(fs, key@) < fs.len(),
                        key_pos(fs, key@) >= 0 ==> fs[key_pos(fs, key@)].0 == key@,
                        key_pos(fs, key@) < 0 ==> forall|j: int| 0 <= j < fs.len() ==> fs[j].0 != key@,
                        forall|j: int| 0 <= j < key_pos(fs, key@) ==> fs[j].0 != key@,
                    decreases fields@.len() - k,
                {
                    if str_eq(fields[k].0.as_str(), key) {
                        proof {
                            assert(fs[k as int].0 == key@);
                            if key_pos(fs, key@) < k {
                                assert(fs[key_pos(fs, key@)].0 != key@);
                            }
                            if key_pos(fs, key@) > k {
                                assert(fs[k as int].0 != key@);
                            }
                        }
                        return Some(k);
                    }
                    k = k + 1;
                }
                None
            },
            _ => None,
        }
    }

    /// The object with its member at `pos` (named `key`) replaced by `v`.
    pub fn with_member(self, key: &str, pos: usize, v: Json) -> (r: Json)
        requires
            self@ matches JsonView::Object(fields) && key_pos(fields, key@) == pos && pos
                < fields.len(),
        ensures
            r@ == set_field(self@, key@, v@),
    {
        match self {
            Json::Object(fields) => {
                let ghost old_fields = fields@;
                let ghost fs = self@->Object_0;
                proof {
                    lemma_key_pos_bound(fs, key@);
                }
                let mut fields = fields;
                let name = fields[pos].0.clone();
                fields.set(pos, (name, v));
                let r = Json::Object(fields);
                proof {
                    assert(r@->Object_0 =~= fs.update(pos as int, (key@, v@)));
                }
                r
            },
            _ => self,
        }
    }

    /// The object with the member `key` set to `v` (in place where it
    /// exists, added at the end otherwise). Not an object: unchanged.
    pub fn with_inserted(self, key: &str, v: Json) -> (r: Json)
        ensures
            match self@ {
                JsonView::Object(fields) => {
                    let p = key_pos(fields, key@);
                    r@ == JsonView::Object(
                        if 0 <= p < fields.len() {
                            fields.update(p, (key@, v@))
                        } else {
                            fields.push((key@, v@))
                        },
                    )
                },
                _ => r@ == self@,
            },
    {
        match self.member_pos(key) {
            Some(p) => self.with_member(key, p, v),
            None => match self {
                Json::Object(fields) => {
                    let ghost fs = self@->Object_0;
                    let mut fields = fields;
                    fields.push((key.to_owned(), v));
                    let r = Json::Object(fields);
                    proof {
                        assert(r@->Object_0 =~= fs.push((key@, v@)));
                    }
                    r
                },
                _ => self,
            },
        }
    }

    /// The member `key` of an object.
    pub fn get(&self, key: &str) -> (r: Option<&Json>)
        ensures
            match r {
                Some(j) => get_field(self@, key@) == Some(j@),
                None => get_field(self@, key@) is None,
            },
    {
        match self.member_pos(key) {
            Some(p) => match self {
                Json::Object(fields) => Some(&fields[p].1),
                _ => None,
            },
            None => None,
        }
    }

    /// Whether the member `key` is the string `value`.
    pub fn field_str_is(&self, key: &str, value: &str) -> (r: bool)
        ensures
            r == (str_field(self@, key@) == Some(value@)),
    {
        match self.get(key) {
            Some(j) => match j.as_str() {
                Some(s) => str_eq(s.as_str(), value),
                None => false,
            },
            None => false,
        }
    }

    /// The text of a string value.
    pub fn as_str(&self) -> (r: Option<&String>)
        ensures
            match r {
                Some(s) => str_of(Some(self@)) == Some(s@),
                None => str_of(Some(self@)) is None,
            },
    {
        match self {
            Json::Str(s) => Some(s),
            _ => None,
        }
    }

    /// The items of an array value.
    pub fn as_array(&self) -> (r: Option<&Vec<Json>>)
        ensures
            match r {
                Some(v) => items_of(Some(self@)) == Some(
                    Seq::new(v@.len(), |i: int| v@[i]@),
                ),
                None => items_of(Some(self@)) is None,
            },
    {
        match self {
            Json::Array(v) => {
                assert(self@->Array_0 =~= Seq::new(v@.len(), |i: int| v@[i]@));
                Some(v)
            },
            _ => None,
        }
    }

    /// A copy of the value.
    pub fn deep_clone(&self) -> (r: Json)
        ensures
            r@ == self@,
        decreases self,
    {
        match self {
            Json::Null => Json::Null,
            Json::Bool(b) => Json::Bool(*b),
            Json::Number(n) => Json::Number(n.clone()),
            Json::Str(s) => Json::Str(s.clone()),
            Json::Array(items) => {
                let mut out: Vec<Json> = Vec::new();
                let mut k: usize = 0;
                while k < items.len()
                    invariant
                        *self == Json::Array(*items),
                        k <= items@.len(),
                        out@.len() == k,
                        forall|j: int| 0 <= j < k ==> out@[j]@ == items@[j]@,
                    decreases items@.len() - k,
                {
                    proof {
                        assert(decreases_to!(*self => self->Array_0));
                        assert(decreases_to!(*items => items[k as int]));
                        assert(decreases_to!(*self => items[k as int]));
                    }
                    out.push(items[k].deep_clone());
                    k = k + 1;
                }
                let r = Json::Array(out);
                assert(r@->Array_0 =~= self@->Array_0);
                r
            },
            Json::Object(fields) => {
                let mut out: Vec<(String, Json)> = Vec::new();
                let mut k: usize = 0;
                while k < fields.len()
                    invariant
                        *self == Json::Object(*fields),
                        k <= fields@.len(),
                        out@.len() == k,
                        forall|j: int|
                            0 <= j < k ==> out@[j].0@ == fields@[j].0@ && out@[j].1@
                                == fields@[j].1@,
                    decreases fields@.len() - k,
                {
                    proof {
                        assert(decreases_to!(*self => self->Object_0));
                        assert(decreases_to!(*fields => fields[k as int]));
                        assert(decreases_to!(fields[k as int] => fields[k as int].1));
                        assert(decreases_to!(*self => fields[k as int].1));
                    }
                    out.push((fields[k].0.clone(), fields[k].1.deep_clone()));
                    k = k + 1;
                }
                let r = Json::Object(out);
                assert(r@->Object_0 =~= self@->Object_0);
                r
            },
        }
    }
}

} // verus!

verus! {

/// `serde_json::Value`, carried through the library unopened.
#[verifier::external_type_specification]
#[verifier::external_body]
pub struct ExJsonValue(serde_json::Value);

/// What a `serde_json::Value` holds, in the library's model: the variant
/// it is, with its scalar text, its items or its members in map order.
pub uninterp spec fn value_model(v: serde_json::Value) -> JsonView;

/// What `serde_json::from_str::<serde_json::Value>` makes of a text: the
/// model of the parsed value, or `None` where the text is not one JSON
/// document (surrounded by optional whitespace).
pub uninterp spec fn json_parse(text: Seq<char>) -> Option<JsonView>;

/// What `serde_json::to_string` makes of a value with the given model:
/// its compact text, or `None` where serialisation reports an error.
pub uninterp spec fn json_compact_text(m: JsonView) -> Option<Seq<char>>;

/// One level of a `serde_json::Value`: its variant, with the children still
/// as `serde_json::Value`s.
pub enum ValueParts {
    Null,
    Bool(bool),
    Number(String),
    Str(String),
    Array(Vec<serde_json::Value>),
    Object(Vec<(String, serde_json::Value)>),
}

/// Opens one level of a `serde_json::Value` (a `match` on its variants).
/// Claims that the model of the value is that variant with these contents;
/// a number is given by its `Display` text, and object members come in the
/// order in which `serde_json::Map` yields them.
#[verifier::external_body]
fn value_parts(v: serde_json::Value) -> (r: ValueParts)
    ensures
        match r {
            ValueParts::Null => value_model(v) == JsonView::Null,
            ValueParts::Bool(b) => value_model(v) == JsonView::Bool(b),
            ValueParts::Number(n) => value_model(v) == JsonView::Number(n@),
            ValueParts::Str(s) => value_model(v) == JsonView::Str(s@),
            ValueParts::Array(items) => value_model(v) == JsonView::Array(
                Seq::new(items@.len(), |i: int| value_model(items@[i])),
            ),
            ValueParts::Object(fields) => value_model(v) == JsonView::Object(
                Seq::new(fields@.len(), |i: int| (fields@[i].0@, value_model(fields@[i].1))),
            ),
        },
{
    match v {
        serde_json::Value::Null => ValueParts::Null,
        serde_json::Value::Bool(b) => ValueParts::Bool(b),
        serde_json::Value::Number(n) => ValueParts::Number(n.to_string()),
        serde_json::Value::String(s) => ValueParts::Str(s),
        serde_json::Value::Array(items) => ValueParts::Array(items),
        serde_json::Value::Object(map) => ValueParts::Object(map.into_iter().collect()),
    }
}

/// The items of `v` in reverse order.
pub fn reversed<T>(v: Vec<T>) -> (r: Vec<T>)
    ensures
        r@.len() == v@.len(),
        forall|j: int| 0 <= j < v@.len() ==> r@[j] == v@[v@.len() - 1 - j],
{
    let ghost src = v@;
    let mut v = v;
    let mut r: Vec<T> = Vec::new();
    while v.len() > 0
        invariant
            v@.len() + r@.len() == src.len(),
            v@ == src.take(v@.len() as int),
            forall|j: int| 0 <= j < r@.len() ==> r@[j] == src[src.len() - 1 - j],
        decreases v@.len(),
    {
        let x = v.pop().unwrap();
        r.push(x);
    }
    r
}

/// Converts a `serde_json::Value` into the library's [`Json`].
pub fn json_from_value(v: serde_json::Value) -> (r: Json)
    ensures
        r@ == value_model(v),
    decreases value_model(v),
{
    let ghost m = value_model(v);
    match value_parts(v) {
        ValueParts::Null => Json::Null,
        ValueParts::Bool(b) => Json::Bool(b),
        ValueParts::Number(n) => Json::Number(n),
        ValueParts::Str(s) => Json::Str(s),
        ValueParts::Array(items) => {
            let ghost src = items@;
            let mut out: Vec<Json> = Vec::new();
            let mut k: usize = 0;
            let n = items.len();
            let mut rest = reversed(items);
            while k < n
                invariant
                    n == src.len(),
                    k <= n,
                    rest@.len() == n - k,
                    forall|j: int| 0 <= j < n - k ==> rest@[j] == src[n - 1 - j],
                    out@.len() == k,
                    forall|j: int| 0 <= j < k ==> out@[j]@ == value_model(src[j]),
                    m == value_model(v),
                    m == JsonView::Array(Seq::new(src.len(), |i: int| value_model(src[i]))),
                decreases n - k,
            {
                let item = rest.pop().unwrap();
                proof {
                    let s = Seq::new(src.len(), |i: int| value_model(src[i]));
                    assert(s[k as int] == value_model(item));
                    assert(m->Array_0 == s);
                    assert(decreases_to!(m => m->Array_0));
                    assert(decreases_to!(s => s[k as int]));
                    assert(decreases_to!(m => value_model(item)));
                }
                let converted = json_from_value(item);
                out.push(converted);
                k = k + 1;
            }
            let r = Json::Array(out);
            assert(r@->Array_0 =~= m->Array_0);
            r
        },
        ValueParts::Object(fields) => {
            let ghost src = fields@;
            let mut out: Vec<(String, Json)> = Vec::new();
            let mut k: usize = 0;
            let n = fields.len();
            let mut rest = reversed(fields);
            while k < n
                invariant
                    n == src.len(),
                    k <= n,
                    rest@.len() == n - k,
                    forall|j: int| 0 <= j < n - k ==> rest@[j] == src[n - 1 - j],
                    out@.len() == k,
                    forall|j: int|
                        0 <= j < k ==> out@[j].0@ == src[j].0@ && out@[j].1@ == value_model(
                            src[j].1,
                        ),
                    m == value_model(v),
                    m == JsonView::Object(
                        Seq::new(src.len(), |i: int| (src[i].0@, value_model(src[i].1))),
                    ),
                decreases n - k,
            {
                let (key, item) = rest.pop().unwrap();
                proof {
                    let s = Seq::new(src.len(), |i: int| (src[i].0@, value_model(src[i].1)));
                    assert(s[k as int].1 == value_model(item));
                    assert(m->Object_0 == s);
                    assert(decreases_to!(m => m->Object_0));
                    assert(decreases_to!(s => s[k as int]));
                    assert(decreases_to!(s[k as int] => s[k as int].1));
                    assert(decreases_to!(m => value_model(item)));
                }
                let converted = json_from_value(item);
                out.push((key, converted));
                k = k + 1;
            }
            let r = Json::Object(out);
            assert(r@->Object_0 =~= m->Object_0);
            r
        },
    }
}

/// `serde_json::from_str::<serde_json::Value>`. Claims that the outcome is
/// the named parse of the text.
#[verifier::external_body]
fn value_from_str(text: &str) -> (r: Option<serde_json::Value>)
    ensures
        match r {
            Some(v) => json_parse(text@) == Some(value_model(v)),
            None => json_parse(text@) is None,
        },
{
    serde_json::from_str::<serde_json::Value>(text).ok()
}

/// Parses one JSON document into the library's [`Json`].
pub fn parse_json(text: &str) -> (r: Option<Json>)
    ensures
        match r {
            Some(j) => json_parse(text@) == Some(j@),
            None => json_parse(text@) is None,
        },
{
    match value_from_str(text) {
        Some(v) => Some(json_from_value(v)),
        None => None,
    }
}

/// What `serde_json::from_slice::<serde_json::Value>` makes of bytes: the
/// model of the parsed value, or `None` where the bytes are not one JSON
/// document in UTF-8.
pub uninterp spec fn json_parse_bytes(bytes: Seq<u8>) -> Option<JsonView>;

/// `serde_json::from_slice::<serde_json::Value>`. Claims that the outcome
/// is the named parse of the bytes.
#[verifier::external_body]
fn value_from_slice(bytes: &[u8]) -> (r: Option<serde_json::Value>)
    ensures
        match r {
            Some(v) => json_parse_bytes(bytes@) == Some(value_model(v)),
            None => json_parse_bytes(bytes@) is None,
        },
{
    serde_json::from_slice::<serde_json::Value>(bytes).ok()
}

/// Parses one JSON document from bytes into the library's [`Json`].
pub fn parse_json_bytes(bytes: &[u8]) -> (r: Option<Json>)
    ensures
        match r {
            Some(j) => json_parse_bytes(bytes@) == Some(j@),
            None => json_parse_bytes(bytes@) is None,
        },
{
    match value_from_slice(bytes) {
        Some(v) => Some(json_from_value(v)),
        None => None,
    }
}

/// `serde_json::to_string` on a `serde_json::Value`. Claims that the
/// outcome is the named compact text of the value's model.
#[verifier::external_body]
pub(crate) fn value_to_string(v: &serde_json::Value) -> (r: Option<String>)
    ensures
        match r {
            Some(s) => json_compact_text(value_model(*v)) == Some(s@),
            None => json_compact_text(value_model(*v)) is None,
        },
{
    serde_json::to_string(v).ok()
}

} // verus!
