//! JSON values, read and written with `serde_json`.

use crate::text::{same, text_of, trimmed, views};
use serde_json::Value;
use vstd::prelude::*;

verus! {

/// `serde_json::Number`, as a value that is only handed on.
#[verifier::external_type_specification]
#[verifier::external_body]
pub struct ExJsonNumber(serde_json::Number);

/// `serde_json::Value`, as a value that is only handed on.
#[verifier::external_type_specification]
#[verifier::external_body]
pub struct ExJsonValue(serde_json::Value);

/// A JSON value. An object keeps its members in order.
pub enum Json {
    Null,
    Bool(bool),
    /// A number that was read.
    Number(serde_json::Number),
    /// A number that was counted here.
    Count(u64),
    Text(String),
    Array(Vec<Json>),
    Object(Vec<(String, Json)>),
}

/// What a JSON value holds.
pub enum JsonView {
    Null,
    Bool(bool),
    Number(serde_json::Number),
    Count(u64),
    Text(Seq<char>),
    Array(Seq<JsonView>),
    Object(Seq<(Seq<char>, JsonView)>),
}

/// What a JSON value holds.
pub open spec fn holding(j: Json) -> JsonView
    decreases j,
{
    match j {
        Json::Null => JsonView::Null,
        Json::Bool(b) => JsonView::Bool(b),
        Json::Number(n) => JsonView::Number(n),
        Json::Count(n) => JsonView::Count(n),
        Json::Text(s) => JsonView::Text(s@),
        Json::Array(v) => JsonView::Array(
            Seq::new(
                v@.len(),
                |i: int|
                    if 0 <= i < v@.len() {
                        holding(v@[i])
                    } else {
                        JsonView::Null
                    },
            ),
        ),
        Json::Object(v) => JsonView::Object(
            Seq::new(
                v@.len(),
                |i: int|
                    if 0 <= i < v@.len() {
                        (v@[i].0@, holding(v@[i].1))
                    } else {
                        (Seq::empty(), JsonView::Null)
                    },
            ),
        ),
    }
}

impl View for Json {
    type V = JsonView;

    open spec fn view(&self) -> JsonView {
        holding(*self)
    }
}

/// What the values of a list hold.
pub open spec fn elements(v: Seq<Json>) -> Seq<JsonView> {
    v.map_values(|j: Json| j@)
}

/// What the members of a list hold.
pub open spec fn members(v: Seq<(String, Json)>) -> Seq<(Seq<char>, JsonView)> {
    v.map_values(|p: (String, Json)| (p.0@, p.1@))
}

/// What arrays and objects hold, in terms of their lists.
pub proof fn lemma_holding(j: Json)
    ensures
        j matches Json::Array(v) ==> j@ == JsonView::Array(elements(v@)),
        j matches Json::Object(v) ==> j@ == JsonView::Object(members(v@)),
{
    match j {
        Json::Array(v) => {
            assert(holding(j)->Array_0 =~= elements(v@));
        },
        Json::Object(v) => {
            assert(holding(j)->Object_0 =~= members(v@));
        },
        _ => {},
    }
}

/// The index, at or after `i`, of the first member with this name.
pub open spec fn member_from(m: Seq<(Seq<char>, JsonView)>, name: Seq<char>, i: int) -> Option<int>
    decreases m.len() - i,
{
    if i < 0 || i >= m.len() {
        None
    } else if m[i].0 == name {
        Some(i)
    } else {
        member_from(m, name, i + 1)
    }
}

/// What `member_from` gives is a member with the name, and none comes before.
pub proof fn lemma_member_from(m: Seq<(Seq<char>, JsonView)>, name: Seq<char>, i: int)
    requires
        0 <= i,
    ensures
        (match member_from(m, name, i) {
            Some(k) => i <= k < m.len() && m[k].0 == name && forall|j: int| i <= j < k ==> (#[trigger] m[j]).0 != name,
            None => forall|j: int| i <= j < m.len() ==> (#[trigger] m[j]).0 != name,
        }),
    decreases m.len() - i,
{
    if i < m.len() && m[i].0 != name {
        lemma_member_from(m, name, i + 1);
    }
}

/// The member of an object with this name; other values have none.
pub open spec fn member(j: JsonView, name: Seq<char>) -> Option<JsonView> {
    match j {
        JsonView::Object(m) => match member_from(m, name, 0) {
            Some(i) => Some(m[i].1),
            None => None,
        },
        _ => None,
    }
}

/// The text of a value, where it is one.
pub open spec fn text_value(j: Option<JsonView>) -> Option<Seq<char>> {
    match j {
        Some(JsonView::Text(s)) => Some(s),
        _ => None,
    }
}

/// The text of the member of an object with this name.
pub open spec fn text_member(j: JsonView, name: Seq<char>) -> Option<Seq<char>> {
    text_value(member(j, name))
}

/// The member of an object with this name; other values have none.
pub fn get<'a>(j: &'a Json, name: &str) -> (r: Option<&'a Json>)
    ensures
        r is Some == member(j@, name@) is Some,
        r matches Some(v) ==> member(j@, name@) == Some(v@),
{
    proof {
        lemma_holding(*j);
    }
    let Json::Object(m) = j else {
        return None;
    };
    let mut i: usize = 0;
    while i < m.len()
        invariant
            0 <= i <= m@.len(),
            j@ == JsonView::Object(members(m@)),
            member_from(members(m@), name@, 0) == member_from(members(m@), name@, i as int),
        decreases m.len() - i,
    {
        assert(members(m@)[i as int] == (m@[i as int].0@, m@[i as int].1@));
        if same(m[i].0.as_str(), name) {
            return Some(&m[i].1);
        }
        i = i + 1;
    }
    None
}

/// The text of the member of an object with this name.
pub fn get_text<'a>(j: &'a Json, name: &str) -> (r: Option<&'a String>)
    ensures
        r is Some == text_member(j@, name@) is Some,
        r matches Some(s) ==> text_member(j@, name@) == Some(s@),
{
    match get(j, name) {
        Some(Json::Text(s)) => Some(s),
        _ => None,
    }
}

/// An object with these members.
pub fn object(m: Vec<(String, Json)>) -> (r: Json)
    ensures
        r@ == JsonView::Object(members(m@)),
{
    let r = Json::Object(m);
    proof {
        lemma_holding(r);
    }
    r
}

/// An array of these values.
pub fn array(v: Vec<Json>) -> (r: Json)
    ensures
        r@ == JsonView::Array(elements(v@)),
{
    let r = Json::Array(v);
    proof {
        lemma_holding(r);
    }
    r
}

/// A text.
pub fn text(s: &str) -> (r: Json)
    ensures
        r@ == JsonView::Text(s@),
{
    Json::Text(s.to_owned())
}

/// The value for an optional text: the text, or null.
pub open spec fn text_or_null(s: Option<Seq<char>>) -> JsonView {
    match s {
        Some(t) => JsonView::Text(t),
        None => JsonView::Null,
    }
}

/// A text, or null.
pub fn optional_text(s: &Option<String>) -> (r: Json)
    ensures
        r@ == text_or_null(text_of(*s)),
{
    match s {
        Some(t) => text(t.as_str()),
        None => Json::Null,
    }
}

/// The array of these texts.
pub open spec fn text_array(s: Seq<Seq<char>>) -> JsonView {
    JsonView::Array(s.map_values(|t: Seq<char>| JsonView::Text(t)))
}

/// The array of these texts.
pub fn texts(v: &Vec<String>) -> (r: Json)
    ensures
        r@ == text_array(views(v@)),
{
    let mut out: Vec<Json> = Vec::new();
    let mut i: usize = 0;
    while i < v.len()
        invariant
            0 <= i <= v@.len(),
            out@.len() == i,
            forall|k: int| 0 <= k < i ==> (#[trigger] out@[k])@ == JsonView::Text(v@[k]@),
        decreases v.len() - i,
    {
        out.push(Json::Text(v[i].clone()));
        i = i + 1;
    }
    assert(elements(out@) =~= text_array(views(v@))->Array_0);
    array(out)
}

/// Adds a member at the end of a list.
pub fn push_member(m: &mut Vec<(String, Json)>, name: &str, value: Json)
    ensures
        members(final(m)@) == members(old(m)@).push((name@, value@)),
{
    let ghost before = m@;
    m.push((name.to_owned(), value));
    assert(members(m@) =~= members(before).push((name@, value@)));
}

/// The members with this value under this name: in the place of the value that
/// was there, or at the end.
pub open spec fn with_member(m: Seq<(Seq<char>, JsonView)>, name: Seq<char>, value: JsonView) -> Seq<
    (Seq<char>, JsonView),
> {
    match member_from(m, name, 0) {
        Some(i) => m.update(i, (name, value)),
        None => m.push((name, value)),
    }
}

/// Puts a value under a name: in the place of the value that was there, or at
/// the end.
pub fn put_member(m: &mut Vec<(String, Json)>, name: &str, value: Json)
    ensures
        members(final(m)@) == with_member(members(old(m)@), name@, value@),
{
    let ghost before = m@;
    let mut i: usize = 0;
    while i < m.len()
        invariant
            0 <= i <= m@.len(),
            m@ == before,
            before == old(m)@,
            member_from(members(before), name@, 0) == member_from(members(before), name@, i as int),
        decreases m.len() - i,
    {
        assert(members(before)[i as int] == (before[i as int].0@, before[i as int].1@));
        if same(m[i].0.as_str(), name) {
            let (k, _) = m.remove(i);
            m.insert(i, (k, value));
            assert(members(m@) =~= members(before).update(i as int, (name@, value@)));
            return ;
        }
        i = i + 1;
    }
    push_member(m, name, value);
}

/// What is put under a name is found under it, and what is found under any
/// other name stays as it was.
pub proof fn law_member_after_put(m: Seq<(Seq<char>, JsonView)>, name: Seq<char>, value: JsonView, other: Seq<char>)
    ensures
        member(JsonView::Object(with_member(m, name, value)), name) == Some(value),
        other != name ==> member(JsonView::Object(with_member(m, name, value)), other) == member(
            JsonView::Object(m),
            other,
        ),
{
    let q = with_member(m, name, value);
    lemma_member_from(m, name, 0);
    lemma_member_from(m, other, 0);
    lemma_member_from(q, name, 0);
    lemma_member_from(q, other, 0);
    match member_from(m, name, 0) {
        Some(i) => {
            assert(q[i].0 == name);
            match member_from(q, name, 0) {
                Some(j) => {
                    if j < i {
                        assert(q[j] == m[j]);
                    }
                    if i < j {
                        assert(q[i].0 != name);
                    }
                },
                None => {},
            }
        },
        None => {
            assert(q[m.len() as int].0 == name);
            match member_from(q, name, 0) {
                Some(j) => {
                    if j < m.len() {
                        assert(q[j] == m[j]);
                    }
                },
                None => {},
            }
        },
    }
    if other != name {
        match member_from(m, other, 0) {
            Some(i) => {
                assert(q[i] == m[i]);
                match member_from(q, other, 0) {
                    Some(j) => {
                        if j < i {
                            assert(q[j] == m[j] || q[j].0 == name);
                        }
                        if i < j {
                            assert(q[i].0 != other);
                        }
                    },
                    None => {},
                }
            },
            None => {
                match member_from(q, other, 0) {
                    Some(j) => {
                        if j < m.len() {
                            assert(q[j] == m[j] || q[j].0 == name);
                        }
                    },
                    None => {},
                }
            },
        }
    }
}

/// Whether no name occurs twice.
pub open spec fn distinct_names(m: Seq<(Seq<char>, JsonView)>) -> bool {
    forall|i: int, j: int| 0 <= i < j < m.len() ==> (#[trigger] m[i]).0 != (#[trigger] m[j]).0
}

/// Whether a value has no object with a name that occurs twice, and at most
/// `depth` levels of arrays and objects.
pub open spec fn proper(j: JsonView, depth: nat) -> bool
    decreases j,
{
    match j {
        JsonView::Array(v) => depth > 0 && forall|i: int| 0 <= i < v.len() ==> proper(#[trigger] v[i], (depth - 1) as nat),
        JsonView::Object(m) => depth > 0 && distinct_names(m) && forall|i: int|
            0 <= i < m.len() ==> proper((#[trigger] m[i]).1, (depth - 1) as nat),
        _ => true,
    }
}

/// The levels that a value which `serde_json` reads may have.
pub const MOST_LEVELS: usize = 127;

/// Whether two values are the same but for their numbers.
pub open spec fn alike(a: JsonView, b: JsonView) -> bool
    decreases a,
{
    match (a, b) {
        (JsonView::Number(_), _) => b is Number || b is Count,
        (JsonView::Count(_), _) => b is Number || b is Count,
        (JsonView::Array(x), JsonView::Array(y)) => x.len() == y.len() && forall|i: int|
            0 <= i < x.len() ==> alike(#[trigger] x[i], y[i]),
        (JsonView::Object(x), JsonView::Object(y)) => x.len() == y.len() && forall|i: int|
            0 <= i < x.len() ==> (#[trigger] x[i]).0 == y[i].0 && alike(x[i].1, y[i].1),
        _ => a == b,
    }
}

/// What is alike has like members under the same names, and so the same texts.
pub proof fn lemma_alike_member(a: JsonView, b: JsonView, name: Seq<char>)
    requires
        alike(a, b),
    ensures
        member(a, name) is Some == member(b, name) is Some,
        member(a, name) matches Some(v) ==> alike(v, member(b, name)->0),
        text_member(a, name) == text_member(b, name),
{
    match (a, b) {
        (JsonView::Object(x), JsonView::Object(y)) => {
            lemma_like_names(a, b, name, 0);
            lemma_member_from(x, name, 0);
            if let Some(i) = member_from(x, name, 0) {
                assert(alike(x[i].1, y[i].1));
            }
        },
        _ => {},
    }
}

proof fn lemma_like_names(a: JsonView, b: JsonView, name: Seq<char>, i: int)
    requires
        alike(a, b),
        a is Object,
        0 <= i,
    ensures
        b is Object,
        member_from(a->Object_0, name, i) == member_from(b->Object_0, name, i),
    decreases a->Object_0.len() - i,
{
    if i < a->Object_0.len() {
        assert(a->Object_0[i].0 == b->Object_0[i].0);
        lemma_like_names(a, b, name, i + 1);
    }
}

/// The items of arrays that are alike are alike.
pub proof fn lemma_alike_items(a: JsonView, b: JsonView)
    requires
        alike(a, b),
        a is Array,
    ensures
        b is Array,
        a->Array_0.len() == b->Array_0.len(),
        forall|i: int| 0 <= i < a->Array_0.len() ==> alike(#[trigger] a->Array_0[i], b->Array_0[i]),
{
}

/// An object stays proper when a proper value is put into it.
pub proof fn lemma_proper_put(m: Seq<(Seq<char>, JsonView)>, name: Seq<char>, value: JsonView, depth: nat)
    requires
        depth > 0,
        proper(JsonView::Object(m), depth),
        proper(value, (depth - 1) as nat),
    ensures
        proper(JsonView::Object(with_member(m, name, value)), depth),
{
    let j = JsonView::Object(m);
    let q = with_member(m, name, value);
    lemma_member_from(m, name, 0);
    assert(j->Object_0 == m);
    assert forall|i: int, k: int| 0 <= i < k < q.len() implies (#[trigger] q[i]).0 != (#[trigger] q[k]).0 by {
        if k < m.len() {
            assert(m[i].0 != m[k].0);
        } else {
            assert(m[i].0 != name);
        }
    }
    assert forall|i: int| 0 <= i < q.len() implies proper((#[trigger] q[i]).1, (depth - 1) as nat) by {
        if i < m.len() {
            assert(proper(m[i].1, (depth - 1) as nat));
        }
    }
}

/// An object of texts under different names is proper.
pub proof fn lemma_proper_flat(m: Seq<(Seq<char>, JsonView)>, depth: nat)
    requires
        depth > 0,
        distinct_names(m),
        forall|i: int| 0 <= i < m.len() ==> proper((#[trigger] m[i]).1, (depth - 1) as nat),
    ensures
        proper(JsonView::Object(m), depth),
{
}

/// An array of proper values is proper.
pub proof fn lemma_proper_array(v: Seq<JsonView>, depth: nat)
    requires
        depth > 0,
        forall|i: int| 0 <= i < v.len() ==> proper(#[trigger] v[i], (depth - 1) as nat),
    ensures
        proper(JsonView::Array(v), depth),
{
}

/// What `serde_json` reads from a text, or the error message.
pub uninterp spec fn json_document(text: Seq<char>) -> Result<JsonView, Seq<char>>;

/// `serde_json::from_str` into `serde_json::Value`: the same text gives the
/// same value or message. A value that is read has each name of an object once,
/// and no more levels than the reader goes down.
#[verifier::external_body]
pub(crate) fn parse_json(text: &str) -> (r: Result<Json, String>)
    ensures
        (match r {
            Ok(j) => json_document(text@) == Ok::<JsonView, Seq<char>>(j@) && proper(j@, MOST_LEVELS as nat),
            Err(e) => json_document(text@) == Err::<JsonView, Seq<char>>(e@),
        }),
{
    match serde_json::from_str::<Value>(text) {
        Ok(v) => Ok(json_of(v)),
        Err(e) => Err(e.to_string()),
    }
}

/// What `serde_json` reads from bytes, or the error message.
pub uninterp spec fn json_in_bytes(bytes: Seq<u8>) -> Result<JsonView, Seq<char>>;

/// `serde_json::from_slice` into `serde_json::Value`: the same bytes give the
/// same value or message.
#[verifier::external_body]
pub(crate) fn parse_json_bytes(bytes: &Vec<u8>) -> (r: Result<Json, String>)
    ensures
        (match r {
            Ok(j) => json_in_bytes(bytes@) == Ok::<JsonView, Seq<char>>(j@),
            Err(e) => json_in_bytes(bytes@) == Err::<JsonView, Seq<char>>(e@),
        }),
{
    match serde_json::from_slice::<Value>(bytes) {
        Ok(v) => Ok(json_of(v)),
        Err(e) => Err(e.to_string()),
    }
}

/// The array that `serde_json` reads from a text, or the error message.
pub uninterp spec fn json_list(text: Seq<char>) -> Result<Seq<JsonView>, Seq<char>>;

/// `serde_json::from_str` into a `Vec` of `serde_json::Value`: the same text
/// gives the same values or message. What is read has each name of an object
/// once, and no more levels than the reader goes down.
#[verifier::external_body]
pub(crate) fn parse_json_list(text: &str) -> (r: Result<Vec<Json>, String>)
    ensures
        (match r {
            Ok(v) => json_list(text@) == Ok::<Seq<JsonView>, Seq<char>>(elements(v@)) && proper(
                JsonView::Array(elements(v@)),
                MOST_LEVELS as nat,
            ),
            Err(e) => json_list(text@) == Err::<Seq<JsonView>, Seq<char>>(e@),
        }),
{
    match serde_json::from_str::<Vec<Value>>(text) {
        Ok(v) => Ok(v.into_iter().map(json_of).collect()),
        Err(e) => Err(e.to_string()),
    }
}

/// The parts of a `serde_json::Value`, one for one.
#[verifier::external_body]
fn json_of(v: serde_json::Value) -> Json {
    match v {
        Value::Null => Json::Null,
        Value::Bool(b) => Json::Bool(b),
        Value::Number(n) => Json::Number(n),
        Value::String(s) => Json::Text(s),
        Value::Array(a) => Json::Array(a.into_iter().map(json_of).collect()),
        Value::Object(m) => Json::Object(m.into_iter().map(|(k, x)| (k, json_of(x))).collect()),
    }
}

/// The text that `serde_json` writes for a value, over several lines.
pub uninterp spec fn pretty_text(value: JsonView) -> Seq<char>;

/// Whether a text is not of white space alone, and a value like `j` is read
/// from it with a line break behind it, as a value and, where it is an array,
/// as a list.
pub open spec fn tells(text: Seq<char>, j: JsonView) -> bool {
    trimmed(text + "\n"@).len() > 0 && (match json_document(text + "\n"@) {
        Ok(v) => alike(j, v),
        Err(_) => false,
    }) && (j is Array ==> match json_list(text + "\n"@) {
        Ok(v) => alike(j, JsonView::Array(v)),
        Err(_) => false,
    })
}

/// `serde_json::to_string_pretty` of a `serde_json::Value`, through its
/// alternate `Display`: the same value gives the same text. From the text of a
/// proper value `serde_json::from_str` reads the same value, but for numbers:
/// nothing is said of what becomes of those.
#[verifier::external_body]
pub(crate) fn render_pretty(j: &Json) -> (r: String)
    ensures
        r@ == pretty_text(j@),
        proper(j@, MOST_LEVELS as nat) ==> tells(r@, j@),
{
    format!("{:#}", value_of(j))
}

/// The text that `serde_json` writes for a value, on one line.
pub uninterp spec fn compact_text(value: JsonView) -> Seq<char>;

/// `Display` of a `serde_json::Value`: the same value gives the same text.
#[verifier::external_body]
pub(crate) fn render_compact(j: &Json) -> (r: String)
    ensures
        r@ == compact_text(j@),
{
    format!("{}", value_of(j))
}

/// The `serde_json::Value` with these parts, one for one.
#[verifier::external_body]
pub(crate) fn value_of(j: &Json) -> serde_json::Value {
    match j {
        Json::Null => Value::Null,
        Json::Bool(b) => Value::Bool(*b),
        Json::Number(n) => Value::Number(n.clone()),
        Json::Count(n) => Value::from(*n),
        Json::Text(s) => Value::String(s.clone()),
        Json::Array(v) => Value::Array(v.iter().map(value_of).collect()),
        Json::Object(v) => Value::Object(v.iter().map(|(k, x)| (k.clone(), value_of(x))).collect()),
    }
}

/// A member of an object is the first with its name; what is no object has none.
pub proof fn law_first_member(m: Seq<(Seq<char>, JsonView)>, name: Seq<char>, k: int, v: Seq<JsonView>, s: Seq<char>)
    requires
        0 <= k <= m.len(),
        forall|j: int| 0 <= j < k ==> (#[trigger] m[j]).0 != name,
        k < m.len() ==> m[k].0 == name,
    ensures
        member(JsonView::Object(m), name) == (if k < m.len() {
            Some(m[k].1)
        } else {
            None
        }),
        member(JsonView::Array(v), name) is None,
        member(JsonView::Text(s), name) is None,
        member(JsonView::Null, name) is None,
        k < m.len() && m[k].1 == JsonView::Text(s) ==> text_member(JsonView::Object(m), name) == Some(s),
        k < m.len() && !(m[k].1 is Text) ==> text_member(JsonView::Object(m), name) is None,
{
    lemma_member_from(m, name, 0);
}

/// A list of texts is told text by text; a text that is not there is null.
pub proof fn law_texts(v: Seq<Seq<char>>, i: int, t: Seq<char>)
    requires
        0 <= i < v.len(),
    ensures
        text_array(v) matches JsonView::Array(a) && a.len() == v.len() && a[i] == JsonView::Text(v[i]),
        text_or_null(Some(t)) == JsonView::Text(t),
        text_or_null(None) == JsonView::Null,
{
}

} // verus!
