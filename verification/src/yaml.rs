//! YAML values, read and written with `serde_yaml`.

use crate::spacing::{is_steady_text, marks_items, spaced_text, steady_text, unspaced};
use crate::text::{same, trimmed};
use serde_yaml::value::TaggedValue;
use serde_yaml::Value;
use vstd::prelude::*;

verus! {

/// `serde_yaml::Number`, as a value that is only handed on.
#[verifier::external_type_specification]
#[verifier::external_body]
pub struct ExYamlNumber(serde_yaml::Number);

/// `serde_yaml::value::Tag`, as a value that is only handed on.
#[verifier::external_type_specification]
#[verifier::external_body]
pub struct ExYamlTag(serde_yaml::value::Tag);

/// `serde_yaml::Value`, as a value that is only handed on.
#[verifier::external_type_specification]
#[verifier::external_body]
pub struct ExYamlValue(serde_yaml::Value);

/// A YAML value. A mapping keeps its pairs in order.
pub enum Yaml {
    Null,
    Bool(bool),
    Number(serde_yaml::Number),
    Text(String),
    Sequence(Vec<Yaml>),
    Mapping(Vec<(Yaml, Yaml)>),
    Tagged(serde_yaml::value::Tag, Box<Yaml>),
}

/// What a YAML value holds.
pub enum YamlView {
    Null,
    Bool(bool),
    Number(serde_yaml::Number),
    Text(Seq<char>),
    Sequence(Seq<YamlView>),
    Mapping(Seq<(YamlView, YamlView)>),
    Tagged(serde_yaml::value::Tag, Box<YamlView>),
}

/// What a YAML value holds.
pub open spec fn held(y: Yaml) -> YamlView
    decreases y,
{
    match y {
        Yaml::Null => YamlView::Null,
        Yaml::Bool(b) => YamlView::Bool(b),
        Yaml::Number(n) => YamlView::Number(n),
        Yaml::Text(s) => YamlView::Text(s@),
        Yaml::Sequence(v) => YamlView::Sequence(
            Seq::new(
                v@.len(),
                |i: int|
                    if 0 <= i < v@.len() {
                        held(v@[i])
                    } else {
                        YamlView::Null
                    },
            ),
        ),
        Yaml::Mapping(v) => YamlView::Mapping(
            Seq::new(
                v@.len(),
                |i: int|
                    if 0 <= i < v@.len() {
                        (held(v@[i].0), held(v@[i].1))
                    } else {
                        (YamlView::Null, YamlView::Null)
                    },
            ),
        ),
        Yaml::Tagged(t, inner) => YamlView::Tagged(t, Box::new(held(*inner))),
    }
}

impl View for Yaml {
    type V = YamlView;

    open spec fn view(&self) -> YamlView {
        held(*self)
    }
}

/// What the values of a list hold.
pub open spec fn items(v: Seq<Yaml>) -> Seq<YamlView> {
    v.map_values(|y: Yaml| y@)
}

/// What the pairs of a list hold.
pub open spec fn pairs(v: Seq<(Yaml, Yaml)>) -> Seq<(YamlView, YamlView)> {
    v.map_values(|p: (Yaml, Yaml)| (p.0@, p.1@))
}

/// The index, at or after `i`, of the first pair with this text as its key.
pub open spec fn position_from(p: Seq<(YamlView, YamlView)>, key: Seq<char>, i: int) -> Option<int>
    decreases p.len() - i,
{
    if i < 0 || i >= p.len() {
        None
    } else if p[i].0 == YamlView::Text(key) {
        Some(i)
    } else {
        position_from(p, key, i + 1)
    }
}

/// The value that the pairs hold under this text.
pub open spec fn lookup(p: Seq<(YamlView, YamlView)>, key: Seq<char>) -> Option<YamlView> {
    match position_from(p, key, 0) {
        Some(i) => Some(p[i].1),
        None => None,
    }
}

/// The pairs with this value under this text: in the place of the value that
/// was there, or at the end.
pub open spec fn with_value(p: Seq<(YamlView, YamlView)>, key: Seq<char>, value: YamlView) -> Seq<
    (YamlView, YamlView),
> {
    match position_from(p, key, 0) {
        Some(i) => p.update(i, (p[i].0, value)),
        None => p.push((YamlView::Text(key), value)),
    }
}

/// What `position_from` gives is a pair with the key, and none comes before it.
pub proof fn lemma_position(p: Seq<(YamlView, YamlView)>, key: Seq<char>, i: int)
    requires
        0 <= i,
    ensures
        position_from(p, key, i) matches Some(k) ==> i <= k < p.len() && p[k].0 == YamlView::Text(key) && forall|j: int|
            i <= j < k ==> (#[trigger] p[j]).0 != YamlView::Text(key),
        position_from(p, key, i) is None ==> forall|j: int|
            i <= j < p.len() ==> (#[trigger] p[j]).0 != YamlView::Text(key),
    decreases p.len() - i,
{
    if i < p.len() && p[i].0 != YamlView::Text(key) {
        lemma_position(p, key, i + 1);
    }
}

/// The position is the one place with the key that has none before it.
pub proof fn lemma_position_is(p: Seq<(YamlView, YamlView)>, key: Seq<char>, k: int)
    requires
        0 <= k < p.len(),
        p[k].0 == YamlView::Text(key),
        forall|j: int| 0 <= j < k ==> (#[trigger] p[j]).0 != YamlView::Text(key),
    ensures
        position_from(p, key, 0) == Some(k),
{
    lemma_position(p, key, 0);
    match position_from(p, key, 0) {
        Some(j) => {
            assert(p[j].0 == YamlView::Text(key));
        },
        None => {},
    }
}

/// What is put under a text is found under it, and what is found under any
/// other text stays as it was.
pub proof fn law_lookup_after_put(p: Seq<(YamlView, YamlView)>, key: Seq<char>, value: YamlView, other: Seq<char>)
    ensures
        lookup(with_value(p, key, value), key) == Some(value),
        other != key ==> lookup(with_value(p, key, value), other) == lookup(p, other),
{
    let q = with_value(p, key, value);
    lemma_position(p, key, 0);
    lemma_position(p, other, 0);
    lemma_position(q, other, 0);
    match position_from(p, key, 0) {
        Some(i) => {
            lemma_position_is(q, key, i);
            assert forall|j: int| 0 <= j < p.len() implies (#[trigger] q[j]).0 == p[j].0 by {}
        },
        None => {
            lemma_position_is(q, key, p.len() as int);
        },
    }
    if other != key {
        match position_from(p, other, 0) {
            Some(i) => {
                assert forall|j: int| 0 <= j < i implies (#[trigger] q[j]).0 != YamlView::Text(other) by {
                    assert(p[j].0 != YamlView::Text(other));
                }
                lemma_position_is(q, other, i);
            },
            None => {
                if let Some(k) = position_from(q, other, 0) {
                    assert(q[k].0 == YamlView::Text(other));
                    if k < p.len() {
                        assert(p[k].0 != YamlView::Text(other));
                    }
                }
            },
        }
    }
}

/// A value without the tags around it.
pub open spec fn untagged(y: YamlView) -> YamlView
    decreases y,
{
    match y {
        YamlView::Tagged(_, inner) => untagged(*inner),
        _ => y,
    }
}

/// What sequences and mappings hold, in terms of their lists.
pub broadcast proof fn lemma_held(y: Yaml)
    ensures
        (#[trigger] held(y)) == (match y {
            Yaml::Sequence(v) => YamlView::Sequence(items(v@)),
            Yaml::Mapping(v) => YamlView::Mapping(pairs(v@)),
            _ => held(y),
        }),
{
    match y {
        Yaml::Sequence(v) => {
            assert(held(y)->Sequence_0 =~= items(v@));
        },
        Yaml::Mapping(v) => {
            assert(held(y)->Mapping_0 =~= pairs(v@));
        },
        _ => {},
    }
}

/// A value without the tags around it.
pub fn untag(y: &Yaml) -> (r: &Yaml)
    ensures
        r@ == untagged(y@),
        !(r is Tagged),
    decreases y,
{
    match y {
        Yaml::Tagged(_, inner) => untag(inner),
        _ => y,
    }
}

/// The text of a value, where it is one, whatever tags stand around it.
pub open spec fn text_in(y: YamlView) -> Option<Seq<char>> {
    match untagged(y) {
        YamlView::Text(s) => Some(s),
        _ => None,
    }
}

/// The text of a value, where it is one, whatever tags stand around it.
pub fn as_str(y: &Yaml) -> (r: Option<&String>)
    ensures
        r is Some == text_in(y@) is Some,
        r matches Some(s) ==> text_in(y@) == Some(s@),
{
    match untag(y) {
        Yaml::Text(s) => Some(s),
        _ => None,
    }
}

/// The index of the first pair with this text as its key.
pub fn position(v: &Vec<(Yaml, Yaml)>, key: &str) -> (r: Option<usize>)
    ensures
        r is Some == position_from(pairs(v@), key@, 0) is Some,
        r matches Some(i) ==> i < v@.len() && position_from(pairs(v@), key@, 0) == Some(i as int),
{
    let mut i: usize = 0;
    while i < v.len()
        invariant
            0 <= i <= v@.len(),
            position_from(pairs(v@), key@, 0) == position_from(pairs(v@), key@, i as int),
        decreases v.len() - i,
    {
        assert(pairs(v@)[i as int] == (v@[i as int].0@, v@[i as int].1@));
        if let Yaml::Text(s) = &v[i].0 {
            if same(s.as_str(), key) {
                return Some(i);
            }
        }
        i = i + 1;
    }
    None
}

/// Puts a value under a text: in the place of the value that was there, or at
/// the end.
pub fn put(v: &mut Vec<(Yaml, Yaml)>, key: &str, value: Yaml)
    ensures
        pairs(final(v)@) == with_value(pairs(old(v)@), key@, value@),
{
    let ghost before = v@;
    match position(v, key) {
        Some(i) => {
            let (k, _) = v.remove(i);
            v.insert(i, (k, value));
            assert(pairs(v@) =~= pairs(before).update(i as int, (k@, value@)));
        },
        None => {
            v.push((Yaml::Text(key.to_owned()), value));
            assert(pairs(v@) =~= pairs(before).push((YamlView::Text(key@), value@)));
        },
    }
}

/// What `serde_yaml` reads from a text, or the error message.
pub uninterp spec fn yaml_document(text: Seq<char>) -> Result<YamlView, Seq<char>>;

/// `serde_yaml::from_str` into `serde_yaml::Value`: the same text gives the
/// same value or message.
#[verifier::external_body]
pub(crate) fn parse_yaml(text: &str) -> (r: Result<Yaml, String>)
    ensures
        (match r {
            Ok(y) => yaml_document(text@) == Ok::<YamlView, Seq<char>>(y@),
            Err(e) => yaml_document(text@) == Err::<YamlView, Seq<char>>(e@),
        }),
{
    match serde_yaml::from_str::<Value>(text) {
        Ok(v) => Ok(yaml_of(v)),
        Err(e) => Err(e.to_string()),
    }
}

/// The parts of a `serde_yaml::Value`, one for one.
#[verifier::external_body]
fn yaml_of(v: serde_yaml::Value) -> Yaml {
    match v {
        Value::Null => Yaml::Null,
        Value::Bool(b) => Yaml::Bool(b),
        Value::Number(n) => Yaml::Number(n),
        Value::String(s) => Yaml::Text(s),
        Value::Sequence(s) => Yaml::Sequence(s.into_iter().map(yaml_of).collect()),
        Value::Mapping(m) => Yaml::Mapping(m.into_iter().map(|(k, v)| (yaml_of(k), yaml_of(v))).collect()),
        Value::Tagged(t) => Yaml::Tagged(t.tag, Box::new(yaml_of(t.value))),
    }
}

/// Whether a text is short enough for the columns of its lines to be counted.
pub open spec fn plain_text(s: Seq<char>) -> bool {
    s.len() < 0x1000_0000
}

/// Whether every text in a value is steady.
pub open spec fn steady(y: YamlView) -> bool
    decreases y,
{
    match y {
        YamlView::Text(s) => steady_text(s),
        YamlView::Sequence(v) => forall|i: int| 0 <= i < v.len() ==> steady(#[trigger] v[i]),
        YamlView::Mapping(p) => forall|i: int|
            0 <= i < p.len() ==> steady((#[trigger] p[i]).0) && steady(p[i].1),
        YamlView::Tagged(_, inner) => steady(*inner),
        _ => true,
    }
}

proof fn lemma_steady_part(y: YamlView, i: int)
    requires
        steady(y),
    ensures
        y matches YamlView::Sequence(v) ==> (0 <= i < v.len() ==> steady(v[i])),
        y matches YamlView::Mapping(p) ==> (0 <= i < p.len() ==> steady(p[i].0) && steady(p[i].1)),
{
}

/// Whether every text in a value is steady.
pub fn is_steady(y: &Yaml) -> (r: bool)
    ensures
        r == steady(y@),
    decreases *y, 0int,
{
    proof {
        lemma_held(*y);
    }
    match y {
        Yaml::Text(s) => is_steady_text(s.as_str()),
        Yaml::Sequence(v) => are_steady(v),
        Yaml::Mapping(v) => pairs_steady(v),
        Yaml::Tagged(_, inner) => is_steady(inner),
        _ => true,
    }
}

fn are_steady(v: &Vec<Yaml>) -> (r: bool)
    ensures
        r == steady(YamlView::Sequence(items(v@))),
    decreases *v, 1int,
{
    let mut i: usize = 0;
    while i < v.len()
        invariant
            0 <= i <= v@.len(),
            forall|k: int| 0 <= k < i ==> steady(#[trigger] items(v@)[k]),
        decreases v.len() - i,
    {
        assert(items(v@)[i as int] == v@[i as int]@);
        if !is_steady(&v[i]) {
            proof {
                if steady(YamlView::Sequence(items(v@))) {
                    lemma_steady_part(YamlView::Sequence(items(v@)), i as int);
                }
            }
            return false;
        }
        i = i + 1;
    }
    true
}

/// Whether every text in the pairs is steady.
pub fn pairs_steady(v: &Vec<(Yaml, Yaml)>) -> (r: bool)
    ensures
        r == steady(YamlView::Mapping(pairs(v@))),
    decreases *v, 1int,
{
    let mut i: usize = 0;
    while i < v.len()
        invariant
            0 <= i <= v@.len(),
            forall|k: int| 0 <= k < i ==> steady((#[trigger] pairs(v@)[k]).0) && steady(pairs(v@)[k].1),
        decreases v.len() - i,
    {
        assert(pairs(v@)[i as int] == (v@[i as int].0@, v@[i as int].1@));
        if !is_steady(&v[i].0) || !is_steady(&v[i].1) {
            proof {
                if steady(YamlView::Mapping(pairs(v@))) {
                    lemma_steady_part(YamlView::Mapping(pairs(v@)), i as int);
                }
            }
            return false;
        }
        i = i + 1;
    }
    true
}

/// Whether no key occurs twice. Two numbers count as the same key: `0.0` and
/// `-0.0` are equal.
pub open spec fn distinct_keys(p: Seq<(YamlView, YamlView)>) -> bool {
    forall|i: int, j: int|
        0 <= i < j < p.len() ==> (#[trigger] p[i]).0 != (#[trigger] p[j]).0 && !(p[i].0 is Number && p[j].0 is Number)
}

/// Whether a key is a plain text, a null, a boolean or a number.
pub open spec fn plain_key(k: YamlView) -> bool {
    match k {
        YamlView::Text(s) => plain_text(s),
        YamlView::Null => true,
        YamlView::Bool(_) => true,
        YamlView::Number(_) => true,
        _ => false,
    }
}

/// Whether a value is made of nulls, booleans, numbers and plain texts, in
/// sequences and in mappings with plain keys, of at most `depth` levels.
pub open spec fn plain(y: YamlView, depth: nat) -> bool
    decreases y,
{
    match y {
        YamlView::Null => true,
        YamlView::Bool(_) => true,
        YamlView::Number(_) => true,
        YamlView::Text(s) => plain_text(s),
        YamlView::Sequence(v) => depth > 0 && forall|i: int| 0 <= i < v.len() ==> plain(#[trigger] v[i], (depth - 1) as nat),
        YamlView::Mapping(p) => depth > 0 && distinct_keys(p) && forall|i: int|
            0 <= i < p.len() ==> plain_key((#[trigger] p[i]).0) && plain(p[i].1, (depth - 1) as nat),
        _ => false,
    }
}

/// The levels that the reader goes down.
pub const PLAIN_DEPTH: usize = 128;

/// The text that `serde_yaml` writes for a value, or the error message.
pub uninterp spec fn yaml_text(value: YamlView) -> Result<Seq<char>, Seq<char>>;

/// Whether these pairs are read from a text, which is not of white space alone.
pub open spec fn reads_as(text: Seq<char>, p: Seq<(YamlView, YamlView)>) -> bool {
    trimmed(text).len() > 0 && yaml_document(text) == Ok::<YamlView, Seq<char>>(YamlView::Mapping(p))
}

/// Whether a text was written from which these pairs are read.
pub open spec fn gives_back(written: Result<String, String>, p: Seq<(YamlView, YamlView)>) -> bool {
    match written {
        Ok(s) => reads_as(s@, p),
        Err(_) => false,
    }
}

/// Whether a text was written from which these pairs are read, whatever blank
/// lines are put before its items.
pub open spec fn bears_blank_lines(written: Result<String, String>, p: Seq<(YamlView, YamlView)>) -> bool {
    match written {
        Ok(s) => forall|v: Seq<Seq<char>>, marks: Seq<bool>, rest: Seq<char>|
            marks_items(v, marks) && s@ == unspaced(v) + rest ==> reads_as(#[trigger] spaced_text(v, marks, rest), p),
        Err(_) => false,
    }
}

/// `serde_yaml::to_string` of a `serde_yaml::Value` that is a mapping: the
/// same pairs give the same text or message. For plain pairs a text is written,
/// and `serde_yaml::from_str` reads the same pairs from it. Where the texts are
/// steady, it does so too once blank lines are put before lines that look like
/// items: no such line lies inside a text, and none comes directly after a text
/// that keeps the breaks at its end.
/// Nothing is said of how tags, sequences and mappings as keys, and several
/// numbers as keys of one mapping are read back.
#[verifier::external_body]
pub(crate) fn render_mapping(m: &Vec<(Yaml, Yaml)>) -> (r: Result<String, String>)
    ensures
        (match r {
            Ok(s) => yaml_text(YamlView::Mapping(pairs(m@))) == Ok::<Seq<char>, Seq<char>>(s@),
            Err(e) => yaml_text(YamlView::Mapping(pairs(m@))) == Err::<Seq<char>, Seq<char>>(e@),
        }),
        plain(YamlView::Mapping(pairs(m@)), PLAIN_DEPTH as nat) ==> gives_back(r, pairs(m@)),
        plain(YamlView::Mapping(pairs(m@)), PLAIN_DEPTH as nat) && steady(YamlView::Mapping(pairs(m@)))
            ==> bears_blank_lines(r, pairs(m@)),
{
    let value = Value::Mapping(m.iter().map(|(k, x)| (value_of(k), value_of(x))).collect());
    serde_yaml::to_string(&value).map_err(|e| e.to_string())
}

/// The `serde_yaml::Value` with these parts, one for one.
#[verifier::external_body]
fn value_of(y: &Yaml) -> serde_yaml::Value {
    match y {
        Yaml::Null => Value::Null,
        Yaml::Bool(b) => Value::Bool(*b),
        Yaml::Number(n) => Value::Number(n.clone()),
        Yaml::Text(s) => Value::String(s.clone()),
        Yaml::Sequence(v) => Value::Sequence(v.iter().map(value_of).collect()),
        Yaml::Mapping(v) => Value::Mapping(v.iter().map(|(k, x)| (value_of(k), value_of(x))).collect()),
        Yaml::Tagged(t, x) => Value::Tagged(Box::new(TaggedValue { tag: t.clone(), value: value_of(x) })),
    }
}

/// A value is found under the first key that is its text, and a text is read
/// from behind any tags.
pub proof fn law_lookup(p: Seq<(YamlView, YamlView)>, key: Seq<char>, k: int, s: Seq<char>, tag: serde_yaml::value::Tag, y: YamlView)
    requires
        0 <= k <= p.len(),
        forall|j: int| 0 <= j < k ==> (#[trigger] p[j]).0 != YamlView::Text(key),
        k < p.len() ==> p[k].0 == YamlView::Text(key),
    ensures
        lookup(p, key) == (if k < p.len() {
            Some(p[k].1)
        } else {
            None
        }),
        text_in(YamlView::Text(s)) == Some(s),
        text_in(YamlView::Tagged(tag, Box::new(y))) == text_in(y),
        text_in(YamlView::Null) is None,
{
    lemma_position(p, key, 0);
    reveal_with_fuel(untagged, 2);
}

} // verus!
