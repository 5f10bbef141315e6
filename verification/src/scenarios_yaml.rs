//! The scenario manifest `docs/test-scenarios.yaml`.
//!
//! ```yaml
//! domains:
//!   billing:                    # one API type: a flat list
//!     - endpoint: ...
//!       id: ...
//!       description: ...
//!   payment:                    # several API types: a list for each
//!     web-api:
//!       - ...
//!     microservice-api:
//!       - ...
//! ```

pub use crate::scenario::ScenarioEntry;

use crate::contracts::{keeps_places, lemma_places_more};
use crate::path::{below, join_path};
use crate::scenario::{entries, Scenario};
use crate::spacing::{law_spaced_before_items, space_entries, spaced};
use crate::text::{decimal, digits, same, shown, text_of, trim, trimmed, views};
use crate::yaml::{
    as_str, distinct_keys, items, law_lookup_after_put, lemma_held, lemma_position, lookup, pairs, pairs_steady,
    parse_yaml, plain, plain_key, plain_text, position, position_from, put, render_mapping, steady, text_in, untag, untagged,
    with_value, yaml_document, yaml_text, Yaml, YamlView, PLAIN_DEPTH,
};
use vstd::prelude::*;

verus! {

/// Where the manifest lies below the project root.
pub const FILE_RELATIVE: &'static str = "docs/test-scenarios.yaml";

/// The scenarios of a domain: one list, or one list for each API type.
#[derive(Debug, PartialEq, Eq)]
pub enum SlugSection {
    Flat(Vec<ScenarioEntry>),
    PerApiType(Vec<(String, Vec<ScenarioEntry>)>),
}

/// The texts of the scenarios of a domain.
pub enum Section {
    Flat(Seq<Scenario>),
    PerApiType(Seq<(Seq<char>, Seq<Scenario>)>),
}

/// The texts of the lists of several API types.
pub open spec fn buckets(v: Seq<(String, Vec<ScenarioEntry>)>) -> Seq<(Seq<char>, Seq<Scenario>)> {
    v.map_values(|b: (String, Vec<ScenarioEntry>)| (b.0@, entries(b.1@)))
}

impl View for SlugSection {
    type V = Section;

    open spec fn view(&self) -> Section {
        match self {
            SlugSection::Flat(v) => Section::Flat(entries(v@)),
            SlugSection::PerApiType(v) => Section::PerApiType(buckets(v@)),
        }
    }
}

/// The scenarios of one API type, each with the name of the type.
pub open spec fn typed(ty: Option<Seq<char>>, v: Seq<Scenario>) -> Seq<(Option<Seq<char>>, Scenario)> {
    v.map_values(|e: Scenario| (ty, e))
}

/// The scenarios of several API types, each with the name of its type.
pub open spec fn typed_buckets(v: Seq<(Seq<char>, Seq<Scenario>)>) -> Seq<(Option<Seq<char>>, Scenario)>
    decreases v.len(),
{
    if v.len() == 0 {
        Seq::empty()
    } else {
        typed_buckets(v.drop_last()) + typed(Some(v.last().0), v.last().1)
    }
}

/// The scenarios of a section, each with its API type, if any.
pub open spec fn with_types(s: Section) -> Seq<(Option<Seq<char>>, Scenario)> {
    match s {
        Section::Flat(v) => typed(None, v),
        Section::PerApiType(v) => typed_buckets(v),
    }
}

/// The texts of scenarios with their API types.
pub open spec fn typed_views(v: Seq<(Option<&str>, &ScenarioEntry)>) -> Seq<(Option<Seq<char>>, Scenario)> {
    v.map_values(
        |p: (Option<&str>, &ScenarioEntry)|
            (
                match p.0 {
                    Some(t) => Some(t@),
                    None => None,
                },
                p.1@,
            ),
    )
}

impl SlugSection {
    /// Each scenario of the section with its API type; a flat list has none.
    pub fn iter_with_type(&self) -> (r: Vec<(Option<&str>, &ScenarioEntry)>)
        ensures
            typed_views(r@) == with_types(self@),
    {
        let mut out: Vec<(Option<&str>, &ScenarioEntry)> = Vec::new();
        match self {
            SlugSection::Flat(v) => {
                let mut i: usize = 0;
                while i < v.len()
                    invariant
                        0 <= i <= v@.len(),
                        typed_views(out@) =~= typed(None, entries(v@).take(i as int)),
                    decreases v.len() - i,
                {
                    let ghost before = out@;
                    let ghost sofar = entries(v@).take(i as int);
                    out.push((None, &v[i]));
                    assert(typed_views(out@) =~= typed_views(before).push((None, v@[i as int]@)));
                    assert(entries(v@).take(i + 1) =~= sofar.push(v@[i as int]@));
                    assert(typed(None, sofar.push(v@[i as int]@)) =~= typed(None, sofar).push((None, v@[i as int]@)));
                    i = i + 1;
                }
                assert(entries(v@).take(v@.len() as int) =~= entries(v@));
            },
            SlugSection::PerApiType(lists) => {
                let mut i: usize = 0;
                assert(buckets(lists@).take(0) =~= Seq::<(Seq<char>, Seq<Scenario>)>::empty());
                assert(typed_views(out@) =~= Seq::<(Option<Seq<char>>, Scenario)>::empty());
                while i < lists.len()
                    invariant
                        0 <= i <= lists@.len(),
                        typed_views(out@) == typed_buckets(buckets(lists@).take(i as int)),
                    decreases lists.len() - i,
                {
                    let ghost done = typed_views(out@);
                    let ty = lists[i].0.as_str();
                    let v = &lists[i].1;
                    let mut j: usize = 0;
                    while j < v.len()
                        invariant
                            0 <= j <= v@.len(),
                            typed_views(out@) =~= done + typed(Some(ty@), entries(v@).take(j as int)),
                        decreases v.len() - j,
                    {
                        let ghost before = out@;
                        let ghost sofar = entries(v@).take(j as int);
                        let ghost e = v@[j as int]@;
                        out.push((Some(ty), &v[j]));
                        assert(typed_views(out@) =~= typed_views(before).push((Some(ty@), e)));
                        assert(entries(v@).take(j + 1) =~= sofar.push(e));
                        assert(typed(Some(ty@), sofar.push(e)) =~= typed(Some(ty@), sofar).push((Some(ty@), e)));
                        j = j + 1;
                    }
                    assert(entries(v@).take(v@.len() as int) =~= entries(v@));
                    assert(buckets(lists@).take(i + 1).drop_last() =~= buckets(lists@).take(i as int));
                    assert(buckets(lists@)[i as int] == (ty@, entries(v@)));
                    i = i + 1;
                }
                assert(buckets(lists@).take(lists@.len() as int) =~= buckets(lists@));
            },
        }
        out
    }
}

/// The fields of a scenario that have been found so far.
#[verifier::ext_equal]
pub struct Found {
    pub endpoint: Option<Seq<char>>,
    pub id: Option<Seq<char>>,
    pub description: Option<Seq<char>>,
}

/// The text of a field that was not found before.
pub open spec fn field_value(before: Option<Seq<char>>, name: Seq<char>, value: YamlView) -> Result<
    Option<Seq<char>>,
    Seq<char>,
> {
    if before is Some {
        Err("duplicate field `"@ + name + "`"@)
    } else {
        match text_in(value) {
            Some(s) => Ok(Some(s)),
            None => Err("field `"@ + name + "` is not a string"@),
        }
    }
}

/// The fields found when one more pair is read. Other fields are left alone.
pub open spec fn found_with(f: Found, pair: (YamlView, YamlView)) -> Result<Found, Seq<char>> {
    match text_in(pair.0) {
        None => Err("a field name is not a string"@),
        Some(k) => if k == "endpoint"@ {
            match field_value(f.endpoint, k, pair.1) {
                Ok(v) => Ok(Found { endpoint: v, ..f }),
                Err(e) => Err(e),
            }
        } else if k == "id"@ {
            match field_value(f.id, k, pair.1) {
                Ok(v) => Ok(Found { id: v, ..f }),
                Err(e) => Err(e),
            }
        } else if k == "description"@ {
            match field_value(f.description, k, pair.1) {
                Ok(v) => Ok(Found { description: v, ..f }),
                Err(e) => Err(e),
            }
        } else {
            Ok(f)
        },
    }
}

/// The fields found in the pairs, or what is wrong with the first bad one.
pub open spec fn found_in(p: Seq<(YamlView, YamlView)>) -> Result<Found, Seq<char>>
    decreases p.len(),
{
    if p.len() == 0 {
        Ok(Found { endpoint: None, id: None, description: None })
    } else {
        match found_in(p.drop_last()) {
            Ok(f) => found_with(f, p.last()),
            Err(e) => Err(e),
        }
    }
}

/// The scenario made of the fields, all of which must be there.
pub open spec fn complete(f: Found) -> Result<Scenario, Seq<char>> {
    match (f.endpoint, f.id, f.description) {
        (None, _, _) => Err("missing field `endpoint`"@),
        (_, None, _) => Err("missing field `id`"@),
        (_, _, None) => Err("missing field `description`"@),
        (Some(endpoint), Some(id), Some(description)) => Ok(Scenario { endpoint, id, description }),
    }
}

/// The scenario that a value stands for, or what is wrong with it.
pub open spec fn entry_in(y: YamlView) -> Result<Scenario, Seq<char>> {
    match untagged(y) {
        YamlView::Mapping(p) => match found_in(p) {
            Ok(f) => complete(f),
            Err(e) => Err(e),
        },
        YamlView::Null => Err("missing field `endpoint`"@),
        _ => Err("not a mapping"@),
    }
}

/// Where an entry stands.
pub open spec fn place(slug: Seq<char>, ty: Option<Seq<char>>, i: nat) -> Seq<char> {
    match ty {
        Some(t) => "domains."@ + slug + "."@ + t + "["@ + digits(i) + "]"@,
        None => "domains."@ + slug + "["@ + digits(i) + "]"@,
    }
}

/// The message for a bad entry.
pub open spec fn bad_entry(slug: Seq<char>, ty: Option<Seq<char>>, i: nat, why: Seq<char>) -> Seq<char> {
    FILE_RELATIVE@ + ": malformed entry at "@ + place(slug, ty, i) + ": "@ + why
}

/// The scenarios that the values stand for, or the message for the first bad
/// one.
pub open spec fn entries_in(s: Seq<YamlView>, slug: Seq<char>, ty: Option<Seq<char>>) -> Result<Seq<Scenario>, Seq<char>>
    decreases s.len(),
{
    if s.len() == 0 {
        Ok(Seq::empty())
    } else {
        match entries_in(s.drop_last(), slug, ty) {
            Err(e) => Err(e),
            Ok(v) => match entry_in(s.last()) {
                Ok(e) => Ok(v.push(e)),
                Err(why) => Err(bad_entry(slug, ty, (s.len() - 1) as nat, why)),
            },
        }
    }
}

/// The scenarios of one API type of a domain.
pub open spec fn bucket_in(pair: (YamlView, YamlView), slug: Seq<char>) -> Result<
    (Seq<char>, Seq<Scenario>),
    Seq<char>,
> {
    match text_in(pair.0) {
        None => Err(FILE_RELATIVE@ + ": domains."@ + slug + " has a non-string api-type key"@),
        Some(ty) => {
            let list = match pair.1 {
                YamlView::Sequence(s) => Some(s),
                YamlView::Null => Some(Seq::empty()),
                _ => None,
            };
            match list {
                None => Err(
                    FILE_RELATIVE@ + ": domains."@ + slug + "."@ + ty + " must be a list of scenario entries"@,
                ),
                Some(s) => match entries_in(s, slug, Some(ty)) {
                    Ok(v) => Ok((ty, v)),
                    Err(e) => Err(e),
                },
            }
        },
    }
}

/// The scenarios of the API types of a domain, or the message for the first
/// bad one.
pub open spec fn buckets_in(p: Seq<(YamlView, YamlView)>, slug: Seq<char>) -> Result<
    Seq<(Seq<char>, Seq<Scenario>)>,
    Seq<char>,
>
    decreases p.len(),
{
    if p.len() == 0 {
        Ok(Seq::empty())
    } else {
        match buckets_in(p.drop_last(), slug) {
            Err(e) => Err(e),
            Ok(v) => match bucket_in(p.last(), slug) {
                Ok(b) => Ok(v.push(b)),
                Err(e) => Err(e),
            },
        }
    }
}

/// The pairs under `domains`; none where there is no mapping.
pub open spec fn domains_in(top: Seq<(YamlView, YamlView)>) -> Seq<(YamlView, YamlView)> {
    match lookup(top, "domains"@) {
        Some(YamlView::Mapping(m)) => m,
        _ => Seq::empty(),
    }
}

/// The section of a domain, from the value that stands under its name.
pub open spec fn section_in(raw: YamlView, slug: Seq<char>) -> Result<Section, Seq<char>> {
    match raw {
        YamlView::Null => Ok(Section::Flat(Seq::empty())),
        YamlView::Sequence(s) => match entries_in(s, slug, None) {
            Ok(v) => Ok(Section::Flat(v)),
            Err(e) => Err(e),
        },
        YamlView::Mapping(p) => match buckets_in(p, slug) {
            Ok(v) => Ok(Section::PerApiType(v)),
            Err(e) => Err(e),
        },
        _ => Err(
            FILE_RELATIVE@ + ": domains."@ + slug + " must be either a list (single api-type) or mapping"@,
        ),
    }
}

/// The section of a domain, where the manifest has one.
pub open spec fn section_of(top: Seq<(YamlView, YamlView)>, slug: Seq<char>) -> Result<Option<Section>, Seq<char>> {
    match lookup(domains_in(top), slug) {
        None => Ok(None),
        Some(raw) => match section_in(raw, slug) {
            Ok(s) => Ok(Some(s)),
            Err(e) => Err(e),
        },
    }
}

fn duplicate_field(name: &str) -> (r: String)
    ensures
        r@ == "duplicate field `"@ + name@ + "`"@,
{
    let mut e: String = "duplicate field `".to_owned();
    e.append(name);
    e.append("`");
    e
}

fn read_field(before: &Option<String>, name: &str, value: &Yaml) -> (r: Result<String, String>)
    ensures
        (match r {
            Ok(s) => field_value(text_of(*before), name@, value@) == Ok::<Option<Seq<char>>, Seq<char>>(Some(s@)),
            Err(e) => field_value(text_of(*before), name@, value@) == Err::<Option<Seq<char>>, Seq<char>>(e@),
        }),
{
    if before.is_some() {
        return Err(duplicate_field(name));
    }
    match as_str(value) {
        Some(s) => Ok(s.clone()),
        None => {
            let mut e: String = "field `".to_owned();
            e.append(name);
            e.append("` is not a string");
            Err(e)
        },
    }
}

/// The scenario that a value stands for, or what is wrong with it.
fn parse_entry(y: &Yaml) -> (r: Result<ScenarioEntry, String>)
    ensures
        (match r {
            Ok(e) => entry_in(y@) == Ok::<Scenario, Seq<char>>(e@),
            Err(e) => entry_in(y@) == Err::<Scenario, Seq<char>>(e@),
        }),
{
    let inner = untag(y);
    proof {
        lemma_held(*inner);
    }
    let p = match inner {
        Yaml::Mapping(p) => p,
        Yaml::Null => {
            return Err("missing field `endpoint`".to_owned());
        },
        _ => {
            return Err("not a mapping".to_owned());
        },
    };
    let mut endpoint: Option<String> = None;
    let mut id: Option<String> = None;
    let mut description: Option<String> = None;
    let mut i: usize = 0;
    assert(pairs(p@).take(0) =~= Seq::<(YamlView, YamlView)>::empty());
    assert(pairs(p@).take(p@.len() as int) =~= pairs(p@));
    while i < p.len()
        invariant
            0 <= i <= p@.len(),
            untagged(y@) == YamlView::Mapping(pairs(p@)),
            found_in(pairs(p@).take(i as int)) == Ok::<Found, Seq<char>>(
                Found { endpoint: text_of(endpoint), id: text_of(id), description: text_of(description) },
            ),
        decreases p.len() - i,
    {
        let ghost here = Found { endpoint: text_of(endpoint), id: text_of(id), description: text_of(description) };
        let ghost pair = pairs(p@)[i as int];
        assert(pairs(p@).take(i + 1).drop_last() =~= pairs(p@).take(i as int));
        assert(pair == (p@[i as int].0@, p@[i as int].1@));
        assert(found_in(pairs(p@).take(i + 1)) == found_with(here, pair));
        proof {
            if found_with(here, pair) is Err {
                lemma_found_err(pairs(p@), i + 1);
            }
        }
        let Some(key) = as_str(&p[i].0) else {
            return Err("a field name is not a string".to_owned());
        };
        if same(key.as_str(), "endpoint") {
            match read_field(&endpoint, "endpoint", &p[i].1) {
                Ok(s) => {
                    endpoint = Some(s);
                },
                Err(e) => {
                    return Err(e);
                },
            }
        } else if same(key.as_str(), "id") {
            match read_field(&id, "id", &p[i].1) {
                Ok(s) => {
                    id = Some(s);
                },
                Err(e) => {
                    return Err(e);
                },
            }
        } else if same(key.as_str(), "description") {
            match read_field(&description, "description", &p[i].1) {
                Ok(s) => {
                    description = Some(s);
                },
                Err(e) => {
                    return Err(e);
                },
            }
        }
        i = i + 1;
    }
    let Some(endpoint) = endpoint else {
        return Err("missing field `endpoint`".to_owned());
    };
    let Some(id) = id else {
        return Err("missing field `id`".to_owned());
    };
    let Some(description) = description else {
        return Err("missing field `description`".to_owned());
    };
    Ok(ScenarioEntry { endpoint, id, description })
}

fn place_text(slug: &str, ty: Option<&str>, i: usize) -> (r: String)
    ensures
        r@ == place(slug@, shown(ty), i as nat),
{
    let mut out: String = "domains.".to_owned();
    out.append(slug);
    if let Some(t) = ty {
        out.append(".");
        out.append(t);
    }
    out.append("[");
    out.append(decimal(i as u64).as_str());
    out.append("]");
    out
}

/// The scenarios that the values stand for, or the message for the first bad
/// one.
pub fn parse_entries(seq: &Vec<Yaml>, slug: &str, ty: Option<&str>) -> (r: Result<Vec<ScenarioEntry>, String>)
    ensures
        (match r {
            Ok(v) => entries_in(items(seq@), slug@, shown(ty)) == Ok::<Seq<Scenario>, Seq<char>>(entries(v@)),
            Err(e) => entries_in(items(seq@), slug@, shown(ty)) == Err::<Seq<Scenario>, Seq<char>>(e@),
        }),
{
    let ghost all = items(seq@);
    let mut out: Vec<ScenarioEntry> = Vec::new();
    let mut i: usize = 0;
    assert(all.take(0) =~= Seq::<YamlView>::empty());
    assert(entries(out@) =~= Seq::<Scenario>::empty());
    while i < seq.len()
        invariant
            0 <= i <= seq@.len(),
            all == items(seq@),
            entries_in(all.take(i as int), slug@, shown(ty)) == Ok::<Seq<Scenario>, Seq<char>>(entries(out@)),
        decreases seq.len() - i,
    {
        assert(all.take(i + 1).drop_last() =~= all.take(i as int));
        assert(all[i as int] == seq@[i as int]@);
        match parse_entry(&seq[i]) {
            Ok(e) => {
                let ghost before = out@;
                out.push(e);
                assert(entries(out@) =~= entries(before).push(e@));
            },
            Err(why) => {
                let mut e: String = FILE_RELATIVE.to_owned();
                e.append(": malformed entry at ");
                e.append(place_text(slug, ty, i).as_str());
                e.append(": ");
                e.append(why.as_str());
                proof {
                    lemma_entries_err(all, slug@, shown(ty), i + 1);
                }
                return Err(e);
            },
        }
        i = i + 1;
    }
    assert(all.take(all.len() as int) =~= all);
    Ok(out)
}

proof fn lemma_entries_err(s: Seq<YamlView>, slug: Seq<char>, ty: Option<Seq<char>>, n: int)
    requires
        0 <= n <= s.len(),
        entries_in(s.take(n), slug, ty) is Err,
    ensures
        entries_in(s, slug, ty) == entries_in(s.take(n), slug, ty),
    decreases s.len() - n,
{
    if n == s.len() {
        assert(s.take(n) =~= s);
    } else {
        assert(s.take(n + 1).drop_last() =~= s.take(n));
        lemma_entries_err(s, slug, ty, n + 1);
    }
}

proof fn lemma_buckets_err(p: Seq<(YamlView, YamlView)>, slug: Seq<char>, n: int)
    requires
        0 <= n <= p.len(),
        buckets_in(p.take(n), slug) is Err,
    ensures
        buckets_in(p, slug) == buckets_in(p.take(n), slug),
    decreases p.len() - n,
{
    if n == p.len() {
        assert(p.take(n) =~= p);
    } else {
        assert(p.take(n + 1).drop_last() =~= p.take(n));
        lemma_buckets_err(p, slug, n + 1);
    }
}

/// The scenarios of one API type of a domain.
fn parse_bucket(key: &Yaml, value: &Yaml, slug: &str) -> (r: Result<(String, Vec<ScenarioEntry>), String>)
    ensures
        (match r {
            Ok(b) => bucket_in((key@, value@), slug@) == Ok::<(Seq<char>, Seq<Scenario>), Seq<char>>(
                (b.0@, entries(b.1@)),
            ),
            Err(e) => bucket_in((key@, value@), slug@) == Err::<(Seq<char>, Seq<Scenario>), Seq<char>>(e@),
        }),
{
    proof {
        lemma_held(*value);
    }
    let Some(ty) = as_str(key) else {
        let mut e: String = FILE_RELATIVE.to_owned();
        e.append(": domains.");
        e.append(slug);
        e.append(" has a non-string api-type key");
        return Err(e);
    };
    match value {
        Yaml::Sequence(seq) => match parse_entries(seq, slug, Some(ty.as_str())) {
            Ok(v) => Ok((ty.clone(), v)),
            Err(e) => Err(e),
        },
        Yaml::Null => {
            let none: Vec<ScenarioEntry> = Vec::new();
            assert(entries(none@) =~= Seq::<Scenario>::empty());
            Ok((ty.clone(), none))
        },
        _ => {
            let mut e: String = FILE_RELATIVE.to_owned();
            e.append(": domains.");
            e.append(slug);
            e.append(".");
            e.append(ty.as_str());
            e.append(" must be a list of scenario entries");
            Err(e)
        },
    }
}

/// The section of a domain, from the value that stands under its name.
fn parse_section(raw: &Yaml, slug: &str) -> (r: Result<SlugSection, String>)
    ensures
        (match r {
            Ok(s) => section_in(raw@, slug@) == Ok::<Section, Seq<char>>(s@),
            Err(e) => section_in(raw@, slug@) == Err::<Section, Seq<char>>(e@),
        }),
{
    proof {
        lemma_held(*raw);
    }
    match raw {
        Yaml::Null => {
            let none: Vec<ScenarioEntry> = Vec::new();
            assert(entries(none@) =~= Seq::<Scenario>::empty());
            Ok(SlugSection::Flat(none))
        },
        Yaml::Sequence(seq) => match parse_entries(seq, slug, None) {
            Ok(v) => Ok(SlugSection::Flat(v)),
            Err(e) => Err(e),
        },
        Yaml::Mapping(p) => {
            let ghost all = pairs(p@);
            let mut out: Vec<(String, Vec<ScenarioEntry>)> = Vec::new();
            let mut i: usize = 0;
            assert(all.take(0) =~= Seq::<(YamlView, YamlView)>::empty());
            assert(buckets(out@) =~= Seq::<(Seq<char>, Seq<Scenario>)>::empty());
            while i < p.len()
                invariant
                    0 <= i <= p@.len(),
                    all == pairs(p@),
                    raw@ == YamlView::Mapping(all),
                    buckets_in(all.take(i as int), slug@) == Ok::<Seq<(Seq<char>, Seq<Scenario>)>, Seq<char>>(
                        buckets(out@),
                    ),
                decreases p.len() - i,
            {
                assert(all.take(i + 1).drop_last() =~= all.take(i as int));
                assert(all[i as int] == (p@[i as int].0@, p@[i as int].1@));
                match parse_bucket(&p[i].0, &p[i].1, slug) {
                    Ok(b) => {
                        let ghost before = out@;
                        out.push(b);
                        assert(buckets(out@) =~= buckets(before).push((b.0@, entries(b.1@))));
                    },
                    Err(e) => {
                        proof {
                            lemma_buckets_err(all, slug@, i + 1);
                        }
                        return Err(e);
                    },
                }
                i = i + 1;
            }
            assert(all.take(all.len() as int) =~= all);
            Ok(SlugSection::PerApiType(out))
        },
        _ => {
            let mut e: String = FILE_RELATIVE.to_owned();
            e.append(": domains.");
            e.append(slug);
            e.append(" must be either a list (single api-type) or mapping");
            Err(e)
        },
    }
}

/// The manifest: where it lies and what it holds.
pub struct ScenariosFile {
    pub path: String,
    pub top: Vec<(Yaml, Yaml)>,
}

/// The top-level pairs of a manifest text, or the message where it has none.
pub open spec fn manifest_pairs(path: Seq<char>, text: Option<Seq<char>>) -> Result<
    Seq<(YamlView, YamlView)>,
    Seq<char>,
> {
    match text {
        None => Ok(Seq::empty()),
        Some(t) => if trimmed(t).len() == 0 {
            Ok(Seq::empty())
        } else {
            pairs_at_top(path, yaml_document(t))
        },
    }
}

/// The top-level pairs of a manifest, from what was read.
pub open spec fn pairs_at_top(path: Seq<char>, read: Result<YamlView, Seq<char>>) -> Result<
    Seq<(YamlView, YamlView)>,
    Seq<char>,
> {
    match read {
        Err(e) => Err("parsing "@ + path + " as YAML: "@ + e),
        Ok(YamlView::Null) => Ok(Seq::empty()),
        Ok(YamlView::Mapping(m)) => Ok(m),
        Ok(_) => Err(path + ": expected a YAML mapping at the top level"@),
    }
}

/// The texts of the keys that are texts, in order.
pub open spec fn text_keys(p: Seq<(YamlView, YamlView)>) -> Seq<Seq<char>>
    decreases p.len(),
{
    if p.len() == 0 {
        Seq::empty()
    } else {
        match text_in(p.last().0) {
            Some(k) => text_keys(p.drop_last()).push(k),
            None => text_keys(p.drop_last()),
        }
    }
}

/// The mapping that stands for a scenario.
pub open spec fn entry_value(e: Scenario) -> YamlView {
    YamlView::Mapping(
        seq![
            (YamlView::Text("endpoint"@), YamlView::Text(e.endpoint)),
            (YamlView::Text("id"@), YamlView::Text(e.id)),
            (YamlView::Text("description"@), YamlView::Text(e.description)),
        ],
    )
}

/// The values that stand for scenarios.
pub open spec fn entry_values(es: Seq<Scenario>) -> Seq<YamlView> {
    es.map_values(|e: Scenario| entry_value(e))
}

/// The message for a flat list where one list for each API type is asked for.
pub open spec fn flat_message(slug: Seq<char>) -> Seq<char> {
    "domains."@ + slug
        + " is currently a flat list with entries; cannot append api-type-keyed entries without an explicit layout migration"@
}

/// The message for lists by API type where one flat list is asked for.
pub open spec fn keyed_message(slug: Seq<char>) -> Seq<char> {
    "domains."@ + slug
        + " is currently keyed by api-type with entries; cannot append flat entries without an explicit layout migration"@
}

/// The message for a section that is neither.
pub open spec fn malformed_message(slug: Seq<char>) -> Seq<char> {
    "domains."@ + slug + " is malformed; cannot update"@
}

/// What stands under a domain once the scenarios of one API type, or its flat
/// list, are replaced.
pub open spec fn replaced(raw: Option<YamlView>, slug: Seq<char>, ty: Option<Seq<char>>, es: Seq<Scenario>) -> Result<
    YamlView,
    Seq<char>,
> {
    let list = YamlView::Sequence(entry_values(es));
    match ty {
        None => Ok(list),
        Some(t) => match raw {
            Some(YamlView::Mapping(m)) => Ok(YamlView::Mapping(with_value(m, t, list))),
            None | Some(YamlView::Null) => Ok(YamlView::Mapping(with_value(Seq::empty(), t, list))),
            Some(YamlView::Sequence(s)) => if s.len() == 0 {
                Ok(YamlView::Mapping(with_value(Seq::empty(), t, list)))
            } else {
                Err(flat_message(slug))
            },
            _ => Err(malformed_message(slug)),
        },
    }
}

/// The manifest with this value under a domain.
pub open spec fn with_domain(top: Seq<(YamlView, YamlView)>, slug: Seq<char>, value: YamlView) -> Seq<
    (YamlView, YamlView),
> {
    with_value(top, "domains"@, YamlView::Mapping(with_value(domains_in(top), slug, value)))
}

/// Whether this is the text that a manifest is saved as: what is written for
/// its pairs, with a blank line between the entries of each list, unless a text
/// among the values would not stay as it is. A plain manifest is read back from
/// it as it is.
pub open spec fn saved_as(top: Seq<(YamlView, YamlView)>, t: Seq<char>) -> bool {
    &&& yaml_text(YamlView::Mapping(top)) matches Ok(y) && t == (if steady(YamlView::Mapping(top)) {
        spaced(y)
    } else {
        y
    })
    &&& plain(YamlView::Mapping(top), PLAIN_DEPTH as nat) ==> forall|path: Seq<char>|
        #[trigger] manifest_pairs(path, Some(t)) == Ok::<Seq<(YamlView, YamlView)>, Seq<char>>(top)
}

fn value_of_entry(e: &ScenarioEntry) -> (r: Yaml)
    ensures
        r@ == entry_value(e@),
{
    let mut m: Vec<(Yaml, Yaml)> = Vec::new();
    m.push((Yaml::Text("endpoint".to_owned()), Yaml::Text(e.endpoint.clone())));
    m.push((Yaml::Text("id".to_owned()), Yaml::Text(e.id.clone())));
    m.push((Yaml::Text("description".to_owned()), Yaml::Text(e.description.clone())));
    let r = Yaml::Mapping(m);
    proof {
        lemma_held(r);
        assert(pairs(m@) =~= entry_value(e@)->Mapping_0);
    }
    r
}

fn values_of_entries(es: &Vec<ScenarioEntry>) -> (r: Vec<Yaml>)
    ensures
        items(r@) == entry_values(entries(es@)),
{
    let mut out: Vec<Yaml> = Vec::new();
    let mut i: usize = 0;
    while i < es.len()
        invariant
            0 <= i <= es@.len(),
            out@.len() == i,
            forall|k: int| 0 <= k < i ==> (#[trigger] out@[k])@ == entry_value(es@[k]@),
        decreases es.len() - i,
    {
        let y = value_of_entry(&es[i]);
        out.push(y);
        i = i + 1;
    }
    assert(items(out@) =~= entry_values(entries(es@)));
    out
}

impl ScenariosFile {
    /// The top-level pairs.
    pub open spec fn pairs(&self) -> Seq<(YamlView, YamlView)> {
        pairs(self.top@)
    }

    /// The manifest of a project from the text of its file, where it has one.
    /// A text of white space is an empty manifest.
    pub fn load(project_root: &str, text: Option<&str>) -> (r: Result<ScenariosFile, String>)
        ensures
            (match r {
                Ok(f) => f.path@ == below(project_root@, FILE_RELATIVE@) && manifest_pairs(f.path@, shown(text)) == Ok::<
                    Seq<(YamlView, YamlView)>,
                    Seq<char>,
                >(f.pairs()),
                Err(e) => manifest_pairs(below(project_root@, FILE_RELATIVE@), shown(text)) == Err::<
                    Seq<(YamlView, YamlView)>,
                    Seq<char>,
                >(e@),
            }),
    {
        let path = join_path(project_root, FILE_RELATIVE);
        let empty: Vec<(Yaml, Yaml)> = Vec::new();
        assert(pairs(empty@) =~= Seq::<(YamlView, YamlView)>::empty());
        let Some(t) = text else {
            return Ok(ScenariosFile { path, top: empty });
        };
        if trim(t).as_str().is_empty() {
            return Ok(ScenariosFile { path, top: empty });
        }
        let read = parse_yaml(t);
        ScenariosFile::from_read(path, read)
    }

    /// The manifest from what was read of its file.
    pub fn from_read(path: String, read: Result<Yaml, String>) -> (r: Result<ScenariosFile, String>)
        ensures
            (match r {
                Ok(f) => f.path == path && pairs_at_top(path@, read_view(read)) == Ok::<
                    Seq<(YamlView, YamlView)>,
                    Seq<char>,
                >(f.pairs()),
                Err(e) => pairs_at_top(path@, read_view(read)) == Err::<Seq<(YamlView, YamlView)>, Seq<char>>(e@),
            }),
    {
        let empty: Vec<(Yaml, Yaml)> = Vec::new();
        assert(pairs(empty@) =~= Seq::<(YamlView, YamlView)>::empty());
        match read {
            Err(why) => {
                let mut e: String = "parsing ".to_owned();
                e.append(path.as_str());
                e.append(" as YAML: ");
                e.append(why.as_str());
                Err(e)
            },
            Ok(y) => {
                proof {
                    lemma_held(y);
                }
                match y {
                    Yaml::Null => Ok(ScenariosFile { path, top: empty }),
                    Yaml::Mapping(m) => Ok(ScenariosFile { path, top: m }),
                    _ => {
                        let mut e: String = path;
                        e.append(": expected a YAML mapping at the top level");
                        Err(e)
                    },
                }
            },
        }
    }
}

/// Whether no list under these API types holds an entry.
pub open spec fn no_entries(m: Seq<(YamlView, YamlView)>) -> bool {
    forall|i: int|
        0 <= i < m.len() ==> ((#[trigger] m[i]).1 is Null || m[i].1 == YamlView::Sequence(Seq::empty()))
}

/// The index, at or after `i`, of the first pair whose key is this text,
/// whatever tags stand around it.
pub open spec fn type_position(p: Seq<(YamlView, YamlView)>, ty: Seq<char>, i: int) -> Option<int>
    decreases p.len() - i,
{
    if i < 0 || i >= p.len() {
        None
    } else if text_in(p[i].0) == Some(ty) {
        Some(i)
    } else {
        type_position(p, ty, i + 1)
    }
}

/// A mapping with one list of values.
pub open spec fn only_type(ty: Seq<char>, values: Seq<YamlView>) -> YamlView {
    YamlView::Mapping(seq![(YamlView::Text(ty), YamlView::Sequence(values))])
}

/// What stands under a domain once scenarios are added at the end of the list
/// of one API type, or of its flat list. The values that stand there already
/// stay as they are.
pub open spec fn extended(raw: Option<YamlView>, slug: Seq<char>, ty: Option<Seq<char>>, es: Seq<Scenario>) -> Result<
    YamlView,
    Seq<char>,
> {
    let more = entry_values(es);
    match ty {
        None => match raw {
            None => Ok(YamlView::Sequence(more)),
            Some(YamlView::Null) => Ok(YamlView::Sequence(more)),
            Some(YamlView::Sequence(s)) => Ok(YamlView::Sequence(s + more)),
            Some(YamlView::Mapping(m)) => if no_entries(m) {
                Ok(YamlView::Sequence(more))
            } else {
                Err(keyed_message(slug))
            },
            _ => Err(malformed_message(slug)),
        },
        Some(t) => match raw {
            None => Ok(only_type(t, more)),
            Some(YamlView::Null) => Ok(only_type(t, more)),
            Some(YamlView::Sequence(s)) => if s.len() == 0 {
                Ok(only_type(t, more))
            } else {
                Err(flat_message(slug))
            },
            Some(YamlView::Mapping(m)) => match type_position(m, t, 0) {
                None => Ok(YamlView::Mapping(m.push((YamlView::Text(t), YamlView::Sequence(more))))),
                Some(i) => match m[i].1 {
                    YamlView::Null => Ok(YamlView::Mapping(m.update(i, (m[i].0, YamlView::Sequence(more))))),
                    YamlView::Sequence(s) => Ok(
                        YamlView::Mapping(m.update(i, (m[i].0, YamlView::Sequence(s + more)))),
                    ),
                    _ => Err(malformed_message(slug)),
                },
            },
            _ => Err(malformed_message(slug)),
        },
    }
}

/// What stands under a domain once its scenarios are replaced or added to.
pub open spec fn changed(
    extend: bool,
    raw: Option<YamlView>,
    slug: Seq<char>,
    ty: Option<Seq<char>>,
    es: Seq<Scenario>,
) -> Result<YamlView, Seq<char>> {
    if extend {
        extended(raw, slug, ty, es)
    } else {
        replaced(raw, slug, ty, es)
    }
}

fn message(before: &str, slug: &str, after: &str) -> (r: String)
    ensures
        r@ == before@ + slug@ + after@,
{
    let mut e: String = before.to_owned();
    e.append(slug);
    e.append(after);
    e
}

fn flat_error(slug: &str) -> (r: String)
    ensures
        r@ == flat_message(slug@),
{
    message(
        "domains.",
        slug,
        " is currently a flat list with entries; cannot append api-type-keyed entries without an explicit layout migration",
    )
}

fn keyed_error(slug: &str) -> (r: String)
    ensures
        r@ == keyed_message(slug@),
{
    message(
        "domains.",
        slug,
        " is currently keyed by api-type with entries; cannot append flat entries without an explicit layout migration",
    )
}

fn malformed_error(slug: &str) -> (r: String)
    ensures
        r@ == malformed_message(slug@),
{
    message("domains.", slug, " is malformed; cannot update")
}

fn holds_no_entries(m: &Vec<(Yaml, Yaml)>) -> (r: bool)
    ensures
        r == no_entries(pairs(m@)),
{
    let mut i: usize = 0;
    while i < m.len()
        invariant
            0 <= i <= m@.len(),
            forall|k: int|
                0 <= k < i ==> ((#[trigger] pairs(m@)[k]).1 is Null || pairs(m@)[k].1 == YamlView::Sequence(
                    Seq::empty(),
                )),
        decreases m.len() - i,
    {
        proof {
            lemma_held(m@[i as int].1);
        }
        assert(pairs(m@)[i as int].1 == m@[i as int].1@);
        let empty = match &m[i].1 {
            Yaml::Null => true,
            Yaml::Sequence(s) => {
                assert(s@.len() == 0 ==> items(s@) =~= Seq::<YamlView>::empty());
                assert(s@.len() == items(s@).len());
                s.len() == 0
            },
            _ => false,
        };
        if !empty {
            assert(!(pairs(m@)[i as int].1 is Null || pairs(m@)[i as int].1 == YamlView::Sequence(Seq::empty())));
            return false;
        }
        i = i + 1;
    }
    true
}

fn find_type(m: &Vec<(Yaml, Yaml)>, ty: &str) -> (r: Option<usize>)
    ensures
        r is Some == type_position(pairs(m@), ty@, 0) is Some,
        r matches Some(i) ==> i < m@.len() && type_position(pairs(m@), ty@, 0) == Some(i as int),
{
    let mut i: usize = 0;
    while i < m.len()
        invariant
            0 <= i <= m@.len(),
            type_position(pairs(m@), ty@, 0) == type_position(pairs(m@), ty@, i as int),
        decreases m.len() - i,
    {
        assert(pairs(m@)[i as int].0 == m@[i as int].0@);
        if let Some(k) = as_str(&m[i].0) {
            if same(k.as_str(), ty) {
                return Some(i);
            }
        }
        i = i + 1;
    }
    None
}

fn sequence_of(list: Vec<Yaml>) -> (r: Yaml)
    ensures
        r@ == YamlView::Sequence(items(list@)),
{
    let r = Yaml::Sequence(list);
    proof {
        lemma_held(r);
    }
    r
}

fn mapping_of(m: Vec<(Yaml, Yaml)>) -> (r: Yaml)
    ensures
        r@ == YamlView::Mapping(pairs(m@)),
{
    let r = Yaml::Mapping(m);
    proof {
        lemma_held(r);
    }
    r
}

fn mapping_of_type(ty: &str, list: Vec<Yaml>) -> (r: Yaml)
    ensures
        r@ == only_type(ty@, items(list@)),
{
    let mut m: Vec<(Yaml, Yaml)> = Vec::new();
    m.push((Yaml::Text(ty.to_owned()), sequence_of(list)));
    assert(pairs(m@) =~= seq![(YamlView::Text(ty@), YamlView::Sequence(items(list@)))]);
    mapping_of(m)
}

fn joined_values(list: Vec<Yaml>, more: Vec<Yaml>) -> (r: Yaml)
    ensures
        r@ == YamlView::Sequence(items(list@) + items(more@)),
{
    let mut all = list;
    let mut rest = more;
    all.append(&mut rest);
    assert(items(all@) =~= items(list@) + items(more@));
    sequence_of(all)
}

/// What an optional value holds.
pub open spec fn raw_view(raw: Option<Yaml>) -> Option<YamlView> {
    match raw {
        Some(y) => Some(y@),
        None => None,
    }
}

/// Why the scenarios of a domain cannot be replaced or added to, if so.
fn refusal(extend: bool, raw: Option<&Yaml>, slug: &str, ty: Option<&str>, es: Ghost<Seq<Scenario>>) -> (r: Option<String>)
    ensures
        (match r {
            Some(e) => changed(extend, ref_view(raw), slug@, shown(ty), es@) == Err::<YamlView, Seq<char>>(e@),
            None => changed(extend, ref_view(raw), slug@, shown(ty), es@) is Ok,
        }),
{
    let Some(y) = raw else {
        return None;
    };
    proof {
        lemma_held(*y);
    }
    match ty {
        None => if !extend {
            None
        } else {
            match y {
                Yaml::Null => None,
                Yaml::Sequence(_) => None,
                Yaml::Mapping(m) => if holds_no_entries(m) {
                    None
                } else {
                    Some(keyed_error(slug))
                },
                _ => Some(malformed_error(slug)),
            }
        },
        Some(t) => match y {
            Yaml::Null => None,
            Yaml::Sequence(s) => {
                assert(s@.len() == items(s@).len());
                if s.len() == 0 {
                    None
                } else {
                    Some(flat_error(slug))
                }
            },
            Yaml::Mapping(m) => if !extend {
                None
            } else {
                match find_type(m, t) {
                    None => None,
                    Some(i) => {
                        assert(pairs(m@)[i as int].1 == m@[i as int].1@);
                        proof {
                            lemma_held(m@[i as int].1);
                        }
                        match &m[i].1 {
                            Yaml::Null => None,
                            Yaml::Sequence(_) => None,
                            _ => Some(malformed_error(slug)),
                        }
                    },
                }
            },
            _ => Some(malformed_error(slug)),
        },
    }
}

/// What an optional borrowed value holds.
pub open spec fn ref_view(raw: Option<&Yaml>) -> Option<YamlView> {
    match raw {
        Some(y) => Some(y@),
        None => None,
    }
}

/// The value under a domain once its scenarios are replaced or added to.
fn change(extend: bool, raw: Option<Yaml>, slug: Ghost<Seq<char>>, ty: Option<&str>, es: &Vec<ScenarioEntry>) -> (r: Yaml)
    requires
        changed(extend, raw_view(raw), slug@, shown(ty), entries(es@)) is Ok,
    ensures
        changed(extend, raw_view(raw), slug@, shown(ty), entries(es@)) == Ok::<YamlView, Seq<char>>(r@),
{
    let list = values_of_entries(es);
    let ghost raw0 = raw;
    proof {
        if raw0 is Some {
            lemma_held(raw0->0);
        }
    }
    match ty {
        None => match raw {
            Some(Yaml::Sequence(s)) => if extend {
                joined_values(s, list)
            } else {
                sequence_of(list)
            },
            _ => sequence_of(list),
        },
        Some(t) => match raw {
            Some(Yaml::Mapping(m)) => {
                let mut m = m;
                let ghost before = m@;
                if !extend {
                    let value = sequence_of(list);
                    put(&mut m, t, value);
                    return mapping_of(m);
                }
                match find_type(&m, t) {
                    None => {
                        m.push((Yaml::Text(t.to_owned()), sequence_of(list)));
                        assert(pairs(m@) =~= pairs(before).push(
                            (YamlView::Text(t@), YamlView::Sequence(entry_values(entries(es@)))),
                        ));
                    },
                    Some(i) => {
                        assert(pairs(before)[i as int] == (before[i as int].0@, before[i as int].1@));
                        proof {
                            lemma_held(before[i as int].1);
                        }
                        let (k, v) = m.remove(i);
                        let value = match v {
                            Yaml::Sequence(s) => joined_values(s, list),
                            _ => sequence_of(list),
                        };
                        m.insert(i, (k, value));
                        assert(pairs(m@) =~= pairs(before).update(i as int, (k@, value@)));
                    },
                }
                mapping_of(m)
            },
            _ => {
                let r = mapping_of_type(t, list);
                proof {
                    let empty = Seq::<(YamlView, YamlView)>::empty();
                    let value = YamlView::Sequence(items(list@));
                    assert(with_value(empty, t@, value) =~= seq![(YamlView::Text(t@), value)]);
                    if raw0 is Some && raw0->0 is Sequence {
                        assert((raw0->0)->Sequence_0@.len() == items((raw0->0)->Sequence_0@).len());
                    }
                }
                r
            },
        },
    }
}

impl ScenariosFile {
    /// The value under a domain, where there is one.
    fn raw(&self, slug: &str) -> (r: Option<&Yaml>)
        ensures
            ref_view(r) == lookup(domains_in(self.pairs()), slug@),
    {
        let Some(i) = position(&self.top, "domains") else {
            return None;
        };
        assert(pairs(self.top@)[i as int] == (self.top@[i as int].0@, self.top@[i as int].1@));
        proof {
            lemma_held(self.top@[i as int].1);
        }
        let Yaml::Mapping(d) = &self.top[i].1 else {
            return None;
        };
        let Some(j) = position(d, slug) else {
            return None;
        };
        assert(pairs(d@)[j as int] == (d@[j as int].0@, d@[j as int].1@));
        Some(&d[j].1)
    }

    /// The names of the domains that have a section, in order.
    pub fn slugs(&self) -> (r: Vec<String>)
        ensures
            views(r@) == text_keys(domains_in(self.pairs())),
    {
        let mut out: Vec<String> = Vec::new();
        assert(views(out@) =~= Seq::<Seq<char>>::empty());
        let Some(i) = position(&self.top, "domains") else {
            return out;
        };
        assert(pairs(self.top@)[i as int] == (self.top@[i as int].0@, self.top@[i as int].1@));
        proof {
            lemma_held(self.top@[i as int].1);
        }
        let Yaml::Mapping(d) = &self.top[i].1 else {
            return out;
        };
        let mut j: usize = 0;
        assert(pairs(d@).take(0) =~= Seq::<(YamlView, YamlView)>::empty());
        while j < d.len()
            invariant
                0 <= j <= d@.len(),
                views(out@) == text_keys(pairs(d@).take(j as int)),
            decreases d.len() - j,
        {
            assert(pairs(d@).take(j + 1).drop_last() =~= pairs(d@).take(j as int));
            assert(pairs(d@)[j as int].0 == d@[j as int].0@);
            if let Some(k) = as_str(&d[j].0) {
                let ghost before = out@;
                out.push(k.clone());
                assert(views(out@) =~= views(before).push(k@));
            }
            j = j + 1;
        }
        assert(pairs(d@).take(d@.len() as int) =~= pairs(d@));
        out
    }

    /// The section of a domain, where the manifest has one.
    pub fn section(&self, slug: &str) -> (r: Result<Option<SlugSection>, String>)
        ensures
            (match r {
                Ok(None) => section_of(self.pairs(), slug@) == Ok::<Option<Section>, Seq<char>>(None),
                Ok(Some(s)) => section_of(self.pairs(), slug@) == Ok::<Option<Section>, Seq<char>>(Some(s@)),
                Err(e) => section_of(self.pairs(), slug@) == Err::<Option<Section>, Seq<char>>(e@),
            }),
    {
        match self.raw(slug) {
            None => Ok(None),
            Some(y) => match parse_section(y, slug) {
                Ok(s) => Ok(Some(s)),
                Err(e) => Err(e),
            },
        }
    }

    fn update(&mut self, extend: bool, slug: &str, ty: Option<&str>, es: &Vec<ScenarioEntry>) -> (r: Result<(), String>)
        ensures
            final(self).path == old(self).path,
            (match r {
                Ok(_) => match changed(
                    extend,
                    lookup(domains_in(old(self).pairs()), slug@),
                    slug@,
                    shown(ty),
                    entries(es@),
                ) {
                    Ok(v) => final(self).pairs() == with_domain(old(self).pairs(), slug@, v),
                    Err(_) => false,
                },
                Err(e) => *final(self) == *old(self) && changed(
                    extend,
                    lookup(domains_in(old(self).pairs()), slug@),
                    slug@,
                    shown(ty),
                    entries(es@),
                ) == Err::<YamlView, Seq<char>>(e@),
            }),
    {
        if let Some(e) = refusal(extend, self.raw(slug), slug, ty, Ghost(entries(es@))) {
            return Err(e);
        }
        let ghost top0 = self.top@;
        let mut d: Vec<(Yaml, Yaml)> = Vec::new();
        assert(pairs(d@) =~= Seq::<(YamlView, YamlView)>::empty());
        let place = position(&self.top, "domains");
        let mut key: Yaml = Yaml::Text("domains".to_owned());
        if let Some(i) = place {
            assert(pairs(top0)[i as int] == (top0[i as int].0@, top0[i as int].1@));
            proof {
                lemma_held(top0[i as int].1);
            }
            let (k, v) = self.top.remove(i);
            key = k;
            if let Yaml::Mapping(m) = v {
                d = m;
            }
        }
        assert(pairs(d@) == domains_in(pairs(top0)));
        let ghost d0 = d@;
        let domain_place = position(&d, slug);
        let mut domain_key: Yaml = Yaml::Text(slug.to_owned());
        let mut raw: Option<Yaml> = None;
        if let Some(j) = domain_place {
            assert(pairs(d0)[j as int] == (d0[j as int].0@, d0[j as int].1@));
            let (k, v) = d.remove(j);
            domain_key = k;
            raw = Some(v);
        }
        assert(raw_view(raw) == lookup(pairs(d0), slug@));
        let value = change(extend, raw, Ghost(slug@), ty, es);
        match domain_place {
            Some(j) => {
                d.insert(j, (domain_key, value));
                assert(pairs(d@) =~= pairs(d0).update(j as int, (domain_key@, value@)));
            },
            None => {
                d.push((domain_key, value));
                assert(pairs(d@) =~= pairs(d0).push((domain_key@, value@)));
            },
        }
        assert(pairs(d@) == with_value(pairs(d0), slug@, value@));
        let whole = mapping_of(d);
        match place {
            Some(i) => {
                self.top.insert(i, (key, whole));
                assert(pairs(self.top@) =~= pairs(top0).update(i as int, (key@, whole@)));
            },
            None => {
                self.top.push((key, whole));
                assert(pairs(self.top@) =~= pairs(top0).push((key@, whole@)));
            },
        }
        Ok(())
    }

    /// Replaces the scenarios of one API type of a domain, or with no API type
    /// those of the domain as a flat list. Refuses to put lists by API type in
    /// the place of a flat list that has entries.
    pub fn put_entries(&mut self, slug: &str, ty: Option<&str>, es: &Vec<ScenarioEntry>) -> (r: Result<(), String>)
        ensures
            final(self).path == old(self).path,
            (match r {
                Ok(_) => match replaced(lookup(domains_in(old(self).pairs()), slug@), slug@, shown(ty), entries(es@)) {
                    Ok(v) => final(self).pairs() == with_domain(old(self).pairs(), slug@, v),
                    Err(_) => false,
                },
                Err(e) => *final(self) == *old(self) && replaced(
                    lookup(domains_in(old(self).pairs()), slug@),
                    slug@,
                    shown(ty),
                    entries(es@),
                ) == Err::<YamlView, Seq<char>>(e@),
            }),
    {
        self.update(false, slug, ty, es)
    }

    /// Adds scenarios at the end of the list of one API type of a domain, or
    /// with no API type at the end of its flat list. What stands there stays
    /// as it is; a layout that would lose entries is refused.
    pub fn append_entries(&mut self, slug: &str, ty: Option<&str>, es: &Vec<ScenarioEntry>) -> (r: Result<(), String>)
        ensures
            final(self).path == old(self).path,
            (match r {
                Ok(_) => match extended(lookup(domains_in(old(self).pairs()), slug@), slug@, shown(ty), entries(es@)) {
                    Ok(v) => final(self).pairs() == with_domain(old(self).pairs(), slug@, v),
                    Err(_) => false,
                },
                Err(e) => *final(self) == *old(self) && extended(
                    lookup(domains_in(old(self).pairs()), slug@),
                    slug@,
                    shown(ty),
                    entries(es@),
                ) == Err::<YamlView, Seq<char>>(e@),
            }),
    {
        self.update(true, slug, ty, es)
    }

    /// The text to write for the manifest: a blank line is put between the
    /// entries of each list, unless a text among the values would not stay as
    /// it is. A manifest of plain values is read back from it as it is.
    pub fn save(&self) -> (r: Result<String, String>)
        ensures
            plain(YamlView::Mapping(self.pairs()), PLAIN_DEPTH as nat) ==> r is Ok,
            (match r {
                Ok(s) => saved_as(self.pairs(), s@),
                Err(e) => match yaml_text(YamlView::Mapping(self.pairs())) {
                    Err(why) => e@ == "serializing docs/test-scenarios.yaml: "@ + why,
                    Ok(_) => false,
                },
            }),
    {
        match render_mapping(&self.top) {
            Ok(s) => if pairs_steady(&self.top) {
                proof {
                    law_spaced_before_items(s@);
                }
                Ok(space_entries(s.as_str()))
            } else {
                Ok(s)
            },
            Err(why) => {
                let mut e: String = "serializing docs/test-scenarios.yaml: ".to_owned();
                e.append(why.as_str());
                Err(e)
            },
        }
    }
}

/// What was read, as views.
pub open spec fn read_view(read: Result<Yaml, String>) -> Result<YamlView, Seq<char>> {
    match read {
        Ok(y) => Ok(y@),
        Err(e) => Err(e@),
    }
}

proof fn lemma_entry_round_trip(e: Scenario)
    ensures
        entry_in(entry_value(e)) == Ok::<Scenario, Seq<char>>(e),
{
    reveal_strlit("endpoint");
    reveal_strlit("id");
    reveal_strlit("description");
    assert("endpoint"@.len() == 8 && "id"@.len() == 2 && "description"@.len() == 11);
    let p = entry_value(e)->Mapping_0;
    let a = p.take(1);
    let b = p.take(2);
    assert(p.drop_last() =~= b);
    assert(b.drop_last() =~= a);
    assert(a.drop_last() =~= Seq::<(YamlView, YamlView)>::empty());
    let f0 = Found { endpoint: None, id: None, description: None };
    assert(found_in(a.drop_last()) == Ok::<Found, Seq<char>>(f0));
    let f1 = Found { endpoint: Some(e.endpoint), id: None, description: None };
    assert(found_with(f0, a.last()) == Ok::<Found, Seq<char>>(f1));
    assert(found_in(a) == Ok::<Found, Seq<char>>(f1));
    let f2 = Found { endpoint: Some(e.endpoint), id: Some(e.id), description: None };
    assert(found_with(f1, b.last()) == Ok::<Found, Seq<char>>(f2));
    assert(found_in(b) == Ok::<Found, Seq<char>>(f2));
    let f3 = Found { endpoint: Some(e.endpoint), id: Some(e.id), description: Some(e.description) };
    assert(found_with(f2, p.last()) == Ok::<Found, Seq<char>>(f3));
    assert(found_in(p) == Ok::<Found, Seq<char>>(f3));
}

proof fn lemma_entries_added(
    s: Seq<YamlView>,
    v: Seq<Scenario>,
    es: Seq<Scenario>,
    slug: Seq<char>,
    ty: Option<Seq<char>>,
)
    requires
        entries_in(s, slug, ty) == Ok::<Seq<Scenario>, Seq<char>>(v),
    ensures
        entries_in(s + entry_values(es), slug, ty) == Ok::<Seq<Scenario>, Seq<char>>(v + es),
    decreases es.len(),
{
    if es.len() == 0 {
        assert(s + entry_values(es) =~= s);
        assert(v + es =~= v);
    } else {
        let less = es.drop_last();
        lemma_entries_added(s, v, less, slug, ty);
        let whole = s + entry_values(es);
        assert(whole.drop_last() =~= s + entry_values(less));
        assert(whole.last() == entry_value(es.last()));
        lemma_entry_round_trip(es.last());
        assert((v + less).push(es.last()) =~= v + es);
    }
}

proof fn lemma_entries_of_values(es: Seq<Scenario>, slug: Seq<char>, ty: Option<Seq<char>>)
    ensures
        entries_in(entry_values(es), slug, ty) == Ok::<Seq<Scenario>, Seq<char>>(es),
{
    let none = Seq::<YamlView>::empty();
    lemma_entries_added(none, Seq::empty(), es, slug, ty);
    assert(none + entry_values(es) =~= entry_values(es));
    assert(Seq::<Scenario>::empty() + es =~= es);
}

proof fn lemma_buckets_each(p: Seq<(YamlView, YamlView)>, slug: Seq<char>, b: Seq<(Seq<char>, Seq<Scenario>)>)
    ensures
        buckets_in(p, slug) == Ok::<Seq<(Seq<char>, Seq<Scenario>)>, Seq<char>>(b) <==> (b.len() == p.len() && forall|
            i: int,
        |
            0 <= i < p.len() ==> bucket_in(#[trigger] p[i], slug) == Ok::<(Seq<char>, Seq<Scenario>), Seq<char>>(b[i])),
    decreases p.len(),
{
    if p.len() == 0 {
        if b.len() == 0 {
            assert(b =~= Seq::empty());
        }
    } else {
        let less = p.drop_last();
        let is_ok = buckets_in(p, slug) == Ok::<Seq<(Seq<char>, Seq<Scenario>)>, Seq<char>>(b);
        let each = b.len() == p.len() && forall|i: int|
            0 <= i < p.len() ==> bucket_in(#[trigger] p[i], slug) == Ok::<(Seq<char>, Seq<Scenario>), Seq<char>>(b[i]);
        if is_ok {
            let c = b.drop_last();
            assert(b =~= c.push(b.last()));
            assert(buckets_in(less, slug) == Ok::<Seq<(Seq<char>, Seq<Scenario>)>, Seq<char>>(c)) by {
                let d = buckets_in(less, slug)->Ok_0;
                assert(b.drop_last() =~= d);
            }
            lemma_buckets_each(less, slug, c);
            assert forall|i: int| 0 <= i < p.len() implies bucket_in(#[trigger] p[i], slug) == Ok::<
                (Seq<char>, Seq<Scenario>),
                Seq<char>,
            >(b[i]) by {
                if i < less.len() {
                    assert(bucket_in(less[i], slug) == Ok::<(Seq<char>, Seq<Scenario>), Seq<char>>(c[i]));
                }
            }
        }
        if each {
            let c = b.drop_last();
            assert forall|i: int| 0 <= i < less.len() implies bucket_in(#[trigger] less[i], slug) == Ok::<
                (Seq<char>, Seq<Scenario>),
                Seq<char>,
            >(c[i]) by {
                assert(bucket_in(p[i], slug) == Ok::<(Seq<char>, Seq<Scenario>), Seq<char>>(b[i]));
            }
            lemma_buckets_each(less, slug, c);
            assert(bucket_in(p[p.len() - 1], slug) == Ok::<(Seq<char>, Seq<Scenario>), Seq<char>>(b[p.len() - 1]));
            assert(c.push(b.last()) =~= b);
        }
    }
}

/// What stands under one domain has no bearing on any other.
pub proof fn law_other_domains_untouched(
    top: Seq<(YamlView, YamlView)>,
    slug: Seq<char>,
    value: YamlView,
    other: Seq<char>,
)
    requires
        other != slug,
    ensures
        section_of(with_domain(top, slug, value), other) == section_of(top, other),
{
    lemma_domain_value(top, slug, value, other);
}

proof fn lemma_domain_value(top: Seq<(YamlView, YamlView)>, slug: Seq<char>, value: YamlView, other: Seq<char>)
    ensures
        lookup(domains_in(with_domain(top, slug, value)), slug) == Some(value),
        other != slug ==> lookup(domains_in(with_domain(top, slug, value)), other) == lookup(domains_in(top), other),
{
    let inner = YamlView::Mapping(with_value(domains_in(top), slug, value));
    law_lookup_after_put(top, "domains"@, inner, "domains"@);
    law_lookup_after_put(domains_in(top), slug, value, other);
}

/// A flat list that was put under a domain is what its section then holds.
pub proof fn law_flat_section_after_put(top: Seq<(YamlView, YamlView)>, slug: Seq<char>, es: Seq<Scenario>)
    ensures
        replaced(lookup(domains_in(top), slug), slug, None, es) matches Ok(v) && section_of(
            with_domain(top, slug, v),
            slug,
        ) == Ok::<Option<Section>, Seq<char>>(Some(Section::Flat(es))),
{
    let v = replaced(lookup(domains_in(top), slug), slug, None, es)->Ok_0;
    lemma_domain_value(top, slug, v, slug);
    lemma_entries_of_values(es, slug, None);
}

/// The lists of a section by API type.
pub open spec fn typed_lists(s: Option<Section>) -> Seq<(Seq<char>, Seq<Scenario>)> {
    match s {
        Some(Section::PerApiType(b)) => b,
        _ => Seq::empty(),
    }
}

/// Whether `after` is `before` with the list of one API type changed, or with
/// that type added at the end.
pub open spec fn one_changed(
    before: Seq<(Seq<char>, Seq<Scenario>)>,
    after: Seq<(Seq<char>, Seq<Scenario>)>,
    t: Seq<char>,
    es: Seq<Scenario>,
) -> bool {
    ||| after == before.push((t, es))
    ||| exists|i: int| 0 <= i < before.len() && (#[trigger] before[i]).0 == t && after == before.update(i, (t, es))
}

/// A list that was put under an API type of a domain is what its section then
/// holds for the type, and the other types hold what they held.
pub proof fn law_typed_section_after_put(
    top: Seq<(YamlView, YamlView)>,
    slug: Seq<char>,
    t: Seq<char>,
    es: Seq<Scenario>,
)
    requires
        section_of(top, slug) is Ok,
        replaced(lookup(domains_in(top), slug), slug, Some(t), es) is Ok,
    ensures
        ({
            let v = replaced(lookup(domains_in(top), slug), slug, Some(t), es)->Ok_0;
            let after = section_of(with_domain(top, slug, v), slug);
            after matches Ok(Some(Section::PerApiType(b))) && one_changed(
                typed_lists(section_of(top, slug)->Ok_0),
                b,
                t,
                es,
            )
        }),
{
    let raw = lookup(domains_in(top), slug);
    let v = replaced(raw, slug, Some(t), es)->Ok_0;
    let list = YamlView::Sequence(entry_values(es));
    lemma_domain_value(top, slug, v, slug);
    lemma_entries_of_values(es, slug, Some(t));
    let m = match raw {
        Some(YamlView::Mapping(m)) => m,
        _ => Seq::empty(),
    };
    let before = typed_lists(section_of(top, slug)->Ok_0);
    lemma_buckets_each(m, slug, before);
    lemma_position(m, t, 0);
    let q = with_value(m, t, list);
    assert(v == YamlView::Mapping(q));
    match position_from(m, t, 0) {
        Some(i) => {
            let b = before.update(i, (t, es));
            assert forall|k: int| 0 <= k < q.len() implies bucket_in(#[trigger] q[k], slug) == Ok::<
                (Seq<char>, Seq<Scenario>),
                Seq<char>,
            >(b[k]) by {
                if k != i {
                    assert(q[k] == m[k]);
                }
            }
            lemma_buckets_each(q, slug, b);
            assert(bucket_in(m[i], slug) == Ok::<(Seq<char>, Seq<Scenario>), Seq<char>>(before[i]));
            assert(before[i].0 == t);
        },
        None => {
            let b = before.push((t, es));
            assert forall|k: int| 0 <= k < q.len() implies bucket_in(#[trigger] q[k], slug) == Ok::<
                (Seq<char>, Seq<Scenario>),
                Seq<char>,
            >(b[k]) by {
                if k < m.len() {
                    assert(q[k] == m[k]);
                }
            }
            lemma_buckets_each(q, slug, b);
        },
    }
}

/// The scenarios of a section that belong to one API type, or to none.
pub open spec fn listed(s: Option<Section>, ty: Option<Seq<char>>) -> Seq<Scenario> {
    match s {
        Some(Section::Flat(v)) => if ty is None {
            v
        } else {
            Seq::empty()
        },
        Some(Section::PerApiType(b)) => match ty {
            Some(t) => bucket_named(b, t, 0),
            None => Seq::empty(),
        },
        None => Seq::empty(),
    }
}

/// The scenarios of the first API type at or after `i` with this name.
pub open spec fn bucket_named(b: Seq<(Seq<char>, Seq<Scenario>)>, t: Seq<char>, i: int) -> Seq<Scenario>
    decreases b.len() - i,
{
    if i < 0 || i >= b.len() {
        Seq::empty()
    } else if b[i].0 == t {
        b[i].1
    } else {
        bucket_named(b, t, i + 1)
    }
}

proof fn lemma_bucket_named(
    m: Seq<(YamlView, YamlView)>,
    slug: Seq<char>,
    b: Seq<(Seq<char>, Seq<Scenario>)>,
    t: Seq<char>,
    i: int,
)
    requires
        0 <= i,
        buckets_in(m, slug) == Ok::<Seq<(Seq<char>, Seq<Scenario>)>, Seq<char>>(b),
    ensures
        (match type_position(m, t, i) {
            Some(k) => i <= k < m.len() && bucket_named(b, t, i) == b[k].1 && b[k].0 == t,
            None => bucket_named(b, t, i) == Seq::<Scenario>::empty(),
        }),
    decreases m.len() - i,
{
    lemma_buckets_each(m, slug, b);
    if i < m.len() {
        assert(bucket_in(m[i], slug) == Ok::<(Seq<char>, Seq<Scenario>), Seq<char>>(b[i]));
        if text_in(m[i].0) != Some(t) {
            lemma_bucket_named(m, slug, b, t, i + 1);
        }
    }
}

proof fn lemma_bucket_is(b: Seq<(Seq<char>, Seq<Scenario>)>, t: Seq<char>, i: int, k: int)
    requires
        0 <= i <= k < b.len(),
        b[k].0 == t,
        forall|j: int| i <= j < k ==> (#[trigger] b[j]).0 != t,
    ensures
        bucket_named(b, t, i) == b[k].1,
    decreases k - i,
{
    if i < k {
        assert(b[i].0 != t);
        lemma_bucket_is(b, t, i + 1, k);
    }
}

proof fn lemma_type_position(m: Seq<(YamlView, YamlView)>, t: Seq<char>, i: int)
    requires
        0 <= i,
    ensures
        (match type_position(m, t, i) {
            Some(k) => i <= k < m.len() && text_in(m[k].0) == Some(t) && forall|j: int|
                i <= j < k ==> text_in((#[trigger] m[j]).0) != Some(t),
            None => forall|j: int| i <= j < m.len() ==> text_in((#[trigger] m[j]).0) != Some(t),
        }),
    decreases m.len() - i,
{
    if i < m.len() && text_in(m[i].0) != Some(t) {
        lemma_type_position(m, t, i + 1);
    }
}

/// The lists of a mapping once scenarios are added to one of them.
proof fn lemma_buckets_after_append(m: Seq<(YamlView, YamlView)>, slug: Seq<char>, t: Seq<char>, es: Seq<Scenario>)
    requires
        buckets_in(m, slug) is Ok,
        extended(Some(YamlView::Mapping(m)), slug, Some(t), es) is Ok,
    ensures
        ({
            let b0 = buckets_in(m, slug)->Ok_0;
            let q = extended(Some(YamlView::Mapping(m)), slug, Some(t), es)->Ok_0->Mapping_0;
            let i = match type_position(m, t, 0) {
                Some(i) => i,
                None => b0.len() as int,
            };
            &&& buckets_in(q, slug) == Ok::<Seq<(Seq<char>, Seq<Scenario>)>, Seq<char>>(
                match type_position(m, t, 0) {
                    None => b0.push((t, es)),
                    Some(i) => b0.update(i, (t, b0[i].1 + es)),
                },
            )
            &&& b0.len() == m.len()
            &&& 0 <= i <= b0.len()
            &&& i < b0.len() ==> b0[i].0 == t
            &&& forall|j: int| 0 <= j < i ==> (#[trigger] b0[j]).0 != t
        }),
{
    let b0 = buckets_in(m, slug)->Ok_0;
    let q = extended(Some(YamlView::Mapping(m)), slug, Some(t), es)->Ok_0->Mapping_0;
    let none = Seq::<Scenario>::empty();
    lemma_buckets_each(m, slug, b0);
    lemma_type_position(m, t, 0);
    lemma_entries_of_values(es, slug, Some(t));
    assert(none + es =~= es);
    assert forall|j: int| 0 <= j < m.len() implies text_in((#[trigger] m[j]).0) == Some(b0[j].0) by {
        assert(bucket_in(m[j], slug) == Ok::<(Seq<char>, Seq<Scenario>), Seq<char>>(b0[j]));
    }
    match type_position(m, t, 0) {
        None => {
            let b1 = b0.push((t, es));
            assert forall|k: int| 0 <= k < q.len() implies bucket_in(#[trigger] q[k], slug) == Ok::<
                (Seq<char>, Seq<Scenario>),
                Seq<char>,
            >(b1[k]) by {
                if k < m.len() {
                    assert(q[k] == m[k]);
                }
            }
            lemma_buckets_each(q, slug, b1);
            assert forall|j: int| 0 <= j < m.len() implies (#[trigger] b0[j]).0 != t by {
                assert(text_in(m[j].0) != Some(t));
            }
        },
        Some(i) => {
            assert(bucket_in(m[i], slug) == Ok::<(Seq<char>, Seq<Scenario>), Seq<char>>(b0[i]));
            let was = b0[i].1;
            if let YamlView::Sequence(s) = m[i].1 {
                lemma_entries_added(s, was, es, slug, Some(t));
            } else {
                assert(was =~= none);
            }
            let b1 = b0.update(i, (t, was + es));
            assert forall|k: int| 0 <= k < q.len() implies bucket_in(#[trigger] q[k], slug) == Ok::<
                (Seq<char>, Seq<Scenario>),
                Seq<char>,
            >(b1[k]) by {
                if k != i {
                    assert(q[k] == m[k]);
                }
            }
            lemma_buckets_each(q, slug, b1);
            assert forall|j: int| 0 <= j < i implies (#[trigger] b0[j]).0 != t by {
                assert(text_in(m[j].0) != Some(t));
            }
        },
    }
}

/// A list that is added, or changed in its place, has no bearing on the lists
/// with other names.
proof fn lemma_bucket_other(
    b: Seq<(Seq<char>, Seq<Scenario>)>,
    c: Seq<(Seq<char>, Seq<Scenario>)>,
    t: Seq<char>,
    u: Seq<char>,
    i: int,
)
    requires
        t != u,
        0 <= i,
        b.len() <= c.len(),
        forall|k: int| 0 <= k < b.len() ==> #[trigger] c[k] == b[k] || (c[k].0 == t && b[k].0 == t),
        forall|k: int| b.len() <= k < c.len() ==> (#[trigger] c[k]).0 == t,
    ensures
        bucket_named(c, u, i) == bucket_named(b, u, i),
    decreases c.len() - i,
{
    if i < c.len() {
        assert(c[i].0 == t || c[i] == b[i]);
        lemma_bucket_other(b, c, t, u, i + 1);
    }
}

proof fn lemma_no_entries(m: Seq<(YamlView, YamlView)>, slug: Seq<char>, u: Seq<char>, i: int)
    requires
        no_entries(m),
        buckets_in(m, slug) is Ok,
        0 <= i,
    ensures
        bucket_named(buckets_in(m, slug)->Ok_0, u, i) == Seq::<Scenario>::empty(),
    decreases m.len() - i,
{
    let b = buckets_in(m, slug)->Ok_0;
    lemma_buckets_each(m, slug, b);
    if i < m.len() {
        assert(bucket_in(m[i], slug) == Ok::<(Seq<char>, Seq<Scenario>), Seq<char>>(b[i]));
        assert(entries_in(Seq::empty(), slug, Some(b[i].0)) == Ok::<Seq<Scenario>, Seq<char>>(Seq::empty()));
        lemma_no_entries(m, slug, u, i + 1);
    }
}

/// Scenarios that are added for one API type of a domain leave its other API
/// types as they were.
pub proof fn law_other_types_untouched(
    top: Seq<(YamlView, YamlView)>,
    slug: Seq<char>,
    ty: Option<Seq<char>>,
    es: Seq<Scenario>,
    other: Option<Seq<char>>,
)
    requires
        section_of(top, slug) is Ok,
        extended(lookup(domains_in(top), slug), slug, ty, es) is Ok,
        other != ty,
    ensures
        ({
            let v = extended(lookup(domains_in(top), slug), slug, ty, es)->Ok_0;
            section_of(with_domain(top, slug, v), slug) matches Ok(after) && listed(after, other) == listed(
                section_of(top, slug)->Ok_0,
                other,
            )
        }),
{
    let raw = lookup(domains_in(top), slug);
    let v = extended(raw, slug, ty, es)->Ok_0;
    law_section_after_append(top, slug, ty, es);
    lemma_domain_value(top, slug, v, slug);
    match ty {
        None => {
            if let Some(YamlView::Mapping(m)) = raw {
                lemma_no_entries(m, slug, other->0, 0);
            }
        },
        Some(t) => {
            if let Some(YamlView::Mapping(m)) = raw {
                lemma_buckets_after_append(m, slug, t, es);
                lemma_type_position(m, t, 0);
                if let Some(u) = other {
                    let b0 = buckets_in(m, slug)->Ok_0;
                    let b1 = match type_position(m, t, 0) {
                        None => b0.push((t, es)),
                        Some(i) => b0.update(i, (t, b0[i].1 + es)),
                    };
                    assert(buckets_in(v->Mapping_0, slug) == Ok::<Seq<(Seq<char>, Seq<Scenario>)>, Seq<char>>(b1));
                    lemma_bucket_other(b0, b1, t, u, 0);
                }
            } else if let Some(u) = other {
                let q = v->Mapping_0;
                let b1 = seq![(t, es)];
                lemma_entries_of_values(es, slug, ty);
                assert(bucket_in(q[0], slug) == Ok::<(Seq<char>, Seq<Scenario>), Seq<char>>(b1[0]));
                lemma_buckets_each(q, slug, b1);
                lemma_bucket_other(Seq::empty(), b1, t, u, 0);
            } else if let Some(YamlView::Sequence(s)) = raw {
                assert(s =~= Seq::<YamlView>::empty());
            }
        },
    }
}

/// Scenarios that are added to a domain come after those that its section
/// held for the API type, and nothing else of them changes.
pub proof fn law_section_after_append(
    top: Seq<(YamlView, YamlView)>,
    slug: Seq<char>,
    ty: Option<Seq<char>>,
    es: Seq<Scenario>,
)
    requires
        section_of(top, slug) is Ok,
        extended(lookup(domains_in(top), slug), slug, ty, es) is Ok,
    ensures
        ({
            let v = extended(lookup(domains_in(top), slug), slug, ty, es)->Ok_0;
            section_of(with_domain(top, slug, v), slug) matches Ok(Some(s)) && listed(Some(s), ty) == listed(
                section_of(top, slug)->Ok_0,
                ty,
            ) + es
        }),
{
    let raw = lookup(domains_in(top), slug);
    let v = extended(raw, slug, ty, es)->Ok_0;
    lemma_domain_value(top, slug, v, slug);
    lemma_entries_of_values(es, slug, ty);
    let none = Seq::<Scenario>::empty();
    assert(none + es =~= es);
    match ty {
        None => {
            if let Some(YamlView::Sequence(s)) = raw {
                let old_list = entries_in(s, slug, None)->Ok_0;
                lemma_entries_added(s, old_list, es, slug, None);
            }
        },
        Some(t) => {
            if let Some(YamlView::Mapping(m)) = raw {
                let b0 = buckets_in(m, slug)->Ok_0;
                let q = v->Mapping_0;
                let b1 = buckets_in(q, slug)->Ok_0;
                lemma_buckets_after_append(m, slug, t, es);
                lemma_bucket_named(m, slug, b0, t, 0);
                match type_position(m, t, 0) {
                    None => {
                        lemma_bucket_is(b1, t, 0, m.len() as int);
                    },
                    Some(i) => {
                        lemma_bucket_is(b1, t, 0, i);
                    },
                }
            } else {
                let q = v->Mapping_0;
                let b1 = seq![(t, es)];
                assert(bucket_in(q[0], slug) == Ok::<(Seq<char>, Seq<Scenario>), Seq<char>>(b1[0]));
                lemma_buckets_each(q, slug, b1);
                lemma_bucket_is(b1, t, 0, 0);
            }
        },
    }
}

proof fn lemma_found_err(p: Seq<(YamlView, YamlView)>, n: int)
    requires
        0 <= n <= p.len(),
        found_in(p.take(n)) is Err,
    ensures
        found_in(p) == found_in(p.take(n)),
    decreases p.len() - n,
{
    if n == p.len() {
        assert(p.take(n) =~= p);
    } else {
        assert(p.take(n + 1).drop_last() =~= p.take(n));
        lemma_found_err(p, n + 1);
    }
}

/// Whether a scenario is made of plain texts.
pub open spec fn plain_scenario(e: Scenario) -> bool {
    plain_text(e.endpoint) && plain_text(e.id) && plain_text(e.description)
}

proof fn lemma_plain_entry(e: Scenario, depth: nat)
    requires
        plain_scenario(e),
        depth > 0,
    ensures
        plain(entry_value(e), depth),
{
    let m = entry_value(e)->Mapping_0;
    reveal_strlit("endpoint");
    reveal_strlit("id");
    reveal_strlit("description");
    assert("endpoint"@.len() == 8 && "id"@.len() == 2 && "description"@.len() == 11);
    assert(plain_text("endpoint"@));
    assert(plain_text("id"@));
    assert(plain_text("description"@));
    assert(m[0] == (YamlView::Text("endpoint"@), YamlView::Text(e.endpoint)));
    assert(m[1] == (YamlView::Text("id"@), YamlView::Text(e.id)));
    assert(m[2] == (YamlView::Text("description"@), YamlView::Text(e.description)));
    assert(distinct_keys(m));
    assert forall|i: int| 0 <= i < m.len() implies plain_key((#[trigger] m[i]).0)
        && plain(m[i].1, (depth - 1) as nat) by {
        assert(i == 0 || i == 1 || i == 2);
    }
}

proof fn lemma_plain_put(p: Seq<(YamlView, YamlView)>, key: Seq<char>, value: YamlView, depth: nat)
    requires
        depth > 0,
        plain(YamlView::Mapping(p), depth),
        plain_text(key),
        plain(value, (depth - 1) as nat),
    ensures
        plain(YamlView::Mapping(with_value(p, key, value)), depth),
{
    let q = with_value(p, key, value);
    lemma_position(p, key, 0);
    assert forall|i: int, j: int| 0 <= i < j < q.len() implies (#[trigger] q[i]).0 != (#[trigger] q[j]).0
        && !(q[i].0 is Number && q[j].0 is Number) by {
        if j < p.len() {
            assert(p[i].0 != p[j].0 && !(p[i].0 is Number && p[j].0 is Number));
        } else {
            assert(p[i].0 != YamlView::Text(key));
        }
    }
    assert forall|i: int| 0 <= i < q.len() implies plain_key((#[trigger] q[i]).0) && plain(
        q[i].1,
        (depth - 1) as nat,
    ) by {
        if i < p.len() {
            assert(plain_key(p[i].0));
            assert(plain(p[i].1, (depth - 1) as nat));
        }
    }
}

/// Whether every scenario of a list is made of plain texts.
pub open spec fn plain_scenarios(es: Seq<Scenario>) -> bool {
    forall|i: int| 0 <= i < es.len() ==> plain_scenario(#[trigger] es[i])
}

proof fn lemma_plain_list(es: Seq<Scenario>, depth: nat)
    requires
        plain_scenarios(es),
        depth > 1,
    ensures
        plain(YamlView::Sequence(entry_values(es)), depth),
{
    let v = entry_values(es);
    assert forall|i: int| 0 <= i < v.len() implies plain(#[trigger] v[i], (depth - 1) as nat) by {
        lemma_plain_entry(es[i], (depth - 1) as nat);
    }
}

proof fn lemma_plain_lookup(p: Seq<(YamlView, YamlView)>, key: Seq<char>, depth: nat)
    requires
        plain(YamlView::Mapping(p), depth),
    ensures
        lookup(p, key) matches Some(v) ==> plain(v, (depth - 1) as nat),
{
    lemma_position(p, key, 0);
}

/// A plain manifest stays plain when plain scenarios are put into it, so that
/// it can be saved and read back as it is.
pub proof fn law_plain_after_put(
    top: Seq<(YamlView, YamlView)>,
    slug: Seq<char>,
    ty: Option<Seq<char>>,
    es: Seq<Scenario>,
)
    requires
        plain(YamlView::Mapping(top), PLAIN_DEPTH as nat),
        plain_text(slug),
        ty matches Some(t) ==> plain_text(t),
        plain_scenarios(es),
        replaced(lookup(domains_in(top), slug), slug, ty, es) is Ok,
    ensures
        plain(
            YamlView::Mapping(
                with_domain(top, slug, replaced(lookup(domains_in(top), slug), slug, ty, es)->Ok_0),
            ),
            PLAIN_DEPTH as nat,
        ),
{
    let raw = lookup(domains_in(top), slug);
    let v = replaced(raw, slug, ty, es)->Ok_0;
    let n = PLAIN_DEPTH as nat;
    let domains = domains_in(top);
    lemma_plain_lookup(top, "domains"@, n);
    assert(plain(YamlView::Mapping(domains), (n - 1) as nat));
    lemma_plain_lookup(domains, slug, (n - 1) as nat);
    lemma_plain_list(es, (n - 2) as nat);
    lemma_plain_list(es, (n - 3) as nat);
    if let Some(t) = ty {
        let none = Seq::<(YamlView, YamlView)>::empty();
        assert(plain(YamlView::Mapping(none), (n - 2) as nat));
        let m = match raw {
            Some(YamlView::Mapping(m)) => m,
            _ => none,
        };
        lemma_plain_put(m, t, YamlView::Sequence(entry_values(es)), (n - 2) as nat);
    }
    lemma_plain_domain(top, slug, v);
}

/// The lists of a plain mapping have different names.
proof fn lemma_bucket_names(m: Seq<(YamlView, YamlView)>, slug: Seq<char>, b: Seq<(Seq<char>, Seq<Scenario>)>, depth: nat)
    requires
        plain(YamlView::Mapping(m), depth),
        buckets_in(m, slug) == Ok::<Seq<(Seq<char>, Seq<Scenario>)>, Seq<char>>(b),
    ensures
        forall|i: int, j: int| 0 <= i < j < b.len() ==> (#[trigger] b[i]).0 != (#[trigger] b[j]).0,
{
    lemma_buckets_each(m, slug, b);
    assert forall|i: int| 0 <= i < m.len() implies (#[trigger] m[i]).0 == YamlView::Text(b[i].0) by {
        assert(bucket_in(m[i], slug) == Ok::<(Seq<char>, Seq<Scenario>), Seq<char>>(b[i]));
        assert(plain_key(m[i].0));
    }
    assert forall|i: int, j: int| 0 <= i < j < b.len() implies (#[trigger] b[i]).0 != (#[trigger] b[j]).0 by {
        assert(m[i].0 != m[j].0);
    }
}

/// Scenarios that were put into a plain manifest are there once it is saved and
/// read again: as the flat list of the domain, or as the one list of their API
/// type, beside the other types as they were. Every other domain is as it was.
pub proof fn law_put_saved_and_read(
    top: Seq<(YamlView, YamlView)>,
    slug: Seq<char>,
    ty: Option<Seq<char>>,
    es: Seq<Scenario>,
    path: Seq<char>,
    t: Seq<char>,
)
    requires
        plain(YamlView::Mapping(top), PLAIN_DEPTH as nat),
        plain_text(slug),
        ty matches Some(u) ==> plain_text(u),
        plain_scenarios(es),
        section_of(top, slug) is Ok,
        replaced(lookup(domains_in(top), slug), slug, ty, es) is Ok,
        saved_as(with_domain(top, slug, replaced(lookup(domains_in(top), slug), slug, ty, es)->Ok_0), t),
    ensures
        manifest_pairs(path, Some(t)) matches Ok(read) && {
            &&& ty is None ==> section_of(read, slug) == Ok::<Option<Section>, Seq<char>>(Some(Section::Flat(es)))
            &&& ty matches Some(u) ==> (section_of(read, slug) matches Ok(Some(Section::PerApiType(b))) && {
                &&& one_changed(typed_lists(section_of(top, slug)->Ok_0), b, u, es)
                &&& forall|i: int| 0 <= i < b.len() && (#[trigger] b[i]).0 == u ==> b[i].1 == es
            })
            &&& forall|other: Seq<char>| other != slug ==> #[trigger] section_of(read, other) == section_of(top, other)
        },
{
    let v = replaced(lookup(domains_in(top), slug), slug, ty, es)->Ok_0;
    let read = with_domain(top, slug, v);
    let n = PLAIN_DEPTH as nat;
    law_plain_after_put(top, slug, ty, es);
    assert(manifest_pairs(path, Some(t)) == Ok::<Seq<(YamlView, YamlView)>, Seq<char>>(read));
    assert forall|other: Seq<char>| other != slug implies #[trigger] section_of(read, other) == section_of(top, other) by {
        law_other_domains_untouched(top, slug, v, other);
    }
    match ty {
        None => {
            law_flat_section_after_put(top, slug, es);
        },
        Some(u) => {
            law_typed_section_after_put(top, slug, u, es);
            lemma_domain_value(top, slug, v, slug);
            lemma_plain_lookup(read, "domains"@, n);
            lemma_plain_lookup(domains_in(read), slug, (n - 1) as nat);
            let b = section_of(read, slug)->Ok_0->0->PerApiType_0;
            let before = typed_lists(section_of(top, slug)->Ok_0);
            lemma_bucket_names(v->Mapping_0, slug, b, (n - 2) as nat);
            assert forall|i: int| 0 <= i < b.len() && (#[trigger] b[i]).0 == u implies b[i].1 == es by {
                let k = if b == before.push((u, es)) {
                    before.len() as int
                } else {
                    choose|k: int| 0 <= k < before.len() && (#[trigger] before[k]).0 == u && b == before.update(k, (u, es))
                };
                assert(b[k] == (u, es));
                assert(i == k);
            }
        },
    }
}

proof fn lemma_plain_domain(top: Seq<(YamlView, YamlView)>, slug: Seq<char>, v: YamlView)
    requires
        plain(YamlView::Mapping(top), PLAIN_DEPTH as nat),
        plain_text(slug),
        plain(v, (PLAIN_DEPTH - 2) as nat),
    ensures
        plain(YamlView::Mapping(with_domain(top, slug, v)), PLAIN_DEPTH as nat),
{
    let n = PLAIN_DEPTH as nat;
    let domains = domains_in(top);
    lemma_plain_lookup(top, "domains"@, n);
    assert(plain(YamlView::Mapping(domains), (n - 1) as nat));
    lemma_plain_put(domains, slug, v, (n - 1) as nat);
    reveal_strlit("domains");
    assert("domains"@.len() == 7);
    assert(plain_text("domains"@));
    lemma_plain_put(top, "domains"@, YamlView::Mapping(with_value(domains, slug, v)), n);
}

proof fn lemma_plain_items(y: YamlView, depth: nat)
    requires
        plain(y, depth),
        y is Sequence,
    ensures
        depth > 0,
        forall|i: int| 0 <= i < y->Sequence_0.len() ==> plain(#[trigger] y->Sequence_0[i], (depth - 1) as nat),
{
}

proof fn lemma_plain_both(a: Seq<YamlView>, b: Seq<YamlView>, depth: nat)
    requires
        plain(YamlView::Sequence(a), depth),
        plain(YamlView::Sequence(b), depth),
    ensures
        plain(YamlView::Sequence(a + b), depth),
{
    lemma_plain_items(YamlView::Sequence(a), depth);
    lemma_plain_items(YamlView::Sequence(b), depth);
    assert forall|i: int| 0 <= i < (a + b).len() implies plain(#[trigger] (a + b)[i], (depth - 1) as nat) by {
        if i < a.len() {
            assert((a + b)[i] == a[i]);
        } else {
            assert((a + b)[i] == b[i - a.len()]);
        }
    }
}

/// A plain manifest stays plain when plain scenarios are added to it, so that
/// it can be saved and read back as it is.
pub proof fn law_plain_after_append(
    top: Seq<(YamlView, YamlView)>,
    slug: Seq<char>,
    ty: Option<Seq<char>>,
    es: Seq<Scenario>,
)
    requires
        plain(YamlView::Mapping(top), PLAIN_DEPTH as nat),
        plain_text(slug),
        ty matches Some(t) ==> plain_text(t),
        plain_scenarios(es),
        extended(lookup(domains_in(top), slug), slug, ty, es) is Ok,
    ensures
        plain(
            YamlView::Mapping(
                with_domain(top, slug, extended(lookup(domains_in(top), slug), slug, ty, es)->Ok_0),
            ),
            PLAIN_DEPTH as nat,
        ),
{
    let raw = lookup(domains_in(top), slug);
    let v = extended(raw, slug, ty, es)->Ok_0;
    let n = PLAIN_DEPTH as nat;
    let more = entry_values(es);
    lemma_plain_lookup(top, "domains"@, n);
    assert(plain(YamlView::Mapping(domains_in(top)), (n - 1) as nat));
    lemma_plain_lookup(domains_in(top), slug, (n - 1) as nat);
    lemma_plain_list(es, (n - 2) as nat);
    lemma_plain_list(es, (n - 3) as nat);
    match ty {
        None => {
            if let Some(YamlView::Sequence(s)) = raw {
                lemma_plain_both(s, more, (n - 2) as nat);
            }
        },
        Some(t) => {
            let none = Seq::<(YamlView, YamlView)>::empty();
            let list = YamlView::Sequence(more);
            assert(plain(YamlView::Mapping(none), (n - 2) as nat));
            match raw {
                Some(YamlView::Mapping(m)) => match type_position(m, t, 0) {
                    None => {
                        lemma_plain_type_position(m, t, (n - 2) as nat);
                        lemma_plain_put(m, t, list, (n - 2) as nat);
                    },
                    Some(i) => {
                        lemma_plain_type_position(m, t, (n - 2) as nat);
                        if let YamlView::Sequence(s) = m[i].1 {
                            assert(plain(m[i].1, (n - 3) as nat));
                            lemma_plain_both(s, more, (n - 3) as nat);
                            lemma_plain_put(m, t, YamlView::Sequence(s + more), (n - 2) as nat);
                        } else {
                            lemma_plain_put(m, t, list, (n - 2) as nat);
                        }
                    },
                },
                _ => {
                    lemma_plain_put(none, t, list, (n - 2) as nat);
                    assert(with_value(none, t, list) =~= seq![(YamlView::Text(t), list)]);
                },
            }
        },
    }
    lemma_plain_domain(top, slug, v);
}

/// In plain pairs the place of an API type is the place of its text.
proof fn lemma_plain_type_position(m: Seq<(YamlView, YamlView)>, t: Seq<char>, depth: nat)
    requires
        plain(YamlView::Mapping(m), depth),
    ensures
        type_position(m, t, 0) == position_from(m, t, 0),
        type_position(m, t, 0) matches Some(i) ==> 0 <= i < m.len() && m[i].0 == YamlView::Text(t),
{
    lemma_plain_type_from(m, t, 0, depth);
    lemma_position(m, t, 0);
}

proof fn lemma_plain_type_from(m: Seq<(YamlView, YamlView)>, t: Seq<char>, i: int, depth: nat)
    requires
        plain(YamlView::Mapping(m), depth),
        0 <= i,
    ensures
        type_position(m, t, i) == position_from(m, t, i),
    decreases m.len() - i,
{
    if i < m.len() {
        assert(plain_key(m[i].0));
        lemma_plain_type_from(m, t, i + 1, depth);
    }
}

/// Whether this is the one field with this name, and holds this text.
pub open spec fn only_field(p: Seq<(YamlView, YamlView)>, i: int, name: Seq<char>, value: Seq<char>) -> bool {
    &&& 0 <= i < p.len()
    &&& text_in(p[i].0) == Some(name)
    &&& text_in(p[i].1) == Some(value)
    &&& forall|j: int| 0 <= j < p.len() && j != i ==> text_in((#[trigger] p[j]).0) != Some(name)
}

proof fn lemma_field_names()
    ensures
        "endpoint"@ != "id"@,
        "endpoint"@ != "description"@,
        "id"@ != "description"@,
{
    reveal_strlit("endpoint");
    reveal_strlit("id");
    reveal_strlit("description");
    assert("endpoint"@.len() == 8 && "id"@.len() == 2 && "description"@.len() == 11);
}

proof fn lemma_found_so_far(p: Seq<(YamlView, YamlView)>, e: Scenario, a: int, b: int, c: int, n: int)
    requires
        forall|j: int| 0 <= j < p.len() ==> text_in((#[trigger] p[j]).0) is Some,
        only_field(p, a, "endpoint"@, e.endpoint),
        only_field(p, b, "id"@, e.id),
        only_field(p, c, "description"@, e.description),
        0 <= n <= p.len(),
    ensures
        found_in(p.take(n)) == Ok::<Found, Seq<char>>(
            Found {
                endpoint: if a < n {
                    Some(e.endpoint)
                } else {
                    None
                },
                id: if b < n {
                    Some(e.id)
                } else {
                    None
                },
                description: if c < n {
                    Some(e.description)
                } else {
                    None
                },
            },
        ),
    decreases n,
{
    if n > 0 {
        lemma_found_so_far(p, e, a, b, c, n - 1);
        lemma_field_names();
        assert(p.take(n).drop_last() =~= p.take(n - 1));
        assert(p.take(n).last() == p[n - 1]);
        assert(text_in(p[n - 1].0) is Some);
    }
}

/// An entry is read from its three fields, in whatever order they stand and
/// whatever else stands beside them.
pub proof fn law_entry_read(p: Seq<(YamlView, YamlView)>, e: Scenario, a: int, b: int, c: int)
    requires
        forall|j: int| 0 <= j < p.len() ==> text_in((#[trigger] p[j]).0) is Some,
        only_field(p, a, "endpoint"@, e.endpoint),
        only_field(p, b, "id"@, e.id),
        only_field(p, c, "description"@, e.description),
    ensures
        entry_in(YamlView::Mapping(p)) == Ok::<Scenario, Seq<char>>(e),
{
    lemma_found_so_far(p, e, a, b, c, p.len() as int);
    assert(p.take(p.len() as int) =~= p);
}

/// Whether a field is not there, or there once with this text.
pub open spec fn field_found(p: Seq<(YamlView, YamlView)>, name: Seq<char>, value: Option<Seq<char>>) -> bool {
    match value {
        None => forall|j: int| 0 <= j < p.len() ==> text_in((#[trigger] p[j]).0) != Some(name),
        Some(s) => exists|i: int| #[trigger] only_field(p, i, name, s),
    }
}

proof fn lemma_field_more(
    p: Seq<(YamlView, YamlView)>,
    name: Seq<char>,
    before: Option<Seq<char>>,
    after: Option<Seq<char>>,
)
    requires
        p.len() > 0,
        field_found(p.drop_last(), name, before),
        text_in(p.last().0) == Some(name) ==> before is None && after is Some && text_in(p.last().1) == after,
        text_in(p.last().0) != Some(name) ==> after == before,
    ensures
        field_found(p, name, after),
{
    let less = p.drop_last();
    let n = p.len() - 1;
    if text_in(p.last().0) == Some(name) {
        assert forall|j: int| 0 <= j < p.len() && j != n implies text_in((#[trigger] p[j]).0) != Some(name) by {
            assert(less[j] == p[j]);
        }
        assert(only_field(p, n, name, after->0));
    } else if let Some(s) = before {
        let i = choose|i: int| #[trigger] only_field(less, i, name, s);
        assert(less[i] == p[i]);
        assert forall|j: int| 0 <= j < p.len() && j != i implies text_in((#[trigger] p[j]).0) != Some(name) by {
            if j < n {
                assert(less[j] == p[j]);
            }
        }
        assert(only_field(p, i, name, s));
    } else {
        assert forall|j: int| 0 <= j < p.len() implies text_in((#[trigger] p[j]).0) != Some(name) by {
            if j < n {
                assert(less[j] == p[j]);
            }
        }
    }
}

proof fn lemma_found_fields(p: Seq<(YamlView, YamlView)>)
    requires
        found_in(p) is Ok,
    ensures
        field_found(p, "endpoint"@, found_in(p)->Ok_0.endpoint),
        field_found(p, "id"@, found_in(p)->Ok_0.id),
        field_found(p, "description"@, found_in(p)->Ok_0.description),
    decreases p.len(),
{
    if p.len() > 0 {
        lemma_found_fields(p.drop_last());
        lemma_field_names();
        let f = found_in(p.drop_last())->Ok_0;
        let g = found_in(p)->Ok_0;
        lemma_field_more(p, "endpoint"@, f.endpoint, g.endpoint);
        lemma_field_more(p, "id"@, f.id, g.id);
        lemma_field_more(p, "description"@, f.description, g.description);
    }
}

/// An entry is read only where each of its three fields is there once, with a
/// text, which it has.
pub proof fn law_entry_has_its_fields(p: Seq<(YamlView, YamlView)>, e: Scenario)
    requires
        entry_in(YamlView::Mapping(p)) == Ok::<Scenario, Seq<char>>(e),
    ensures
        exists|i: int| #[trigger] only_field(p, i, "endpoint"@, e.endpoint),
        exists|i: int| #[trigger] only_field(p, i, "id"@, e.id),
        exists|i: int| #[trigger] only_field(p, i, "description"@, e.description),
{
    lemma_found_fields(p);
    let f = found_in(p)->Ok_0;
    assert(complete(f) == Ok::<Scenario, Seq<char>>(e));
    assert(f.endpoint == Some(e.endpoint) && f.id == Some(e.id) && f.description == Some(e.description));
    assert(field_found(p, "endpoint"@, Some(e.endpoint)));
    assert(field_found(p, "id"@, Some(e.id)));
    assert(field_found(p, "description"@, Some(e.description)));
}

/// A list is read entry by entry, in order; the first entry that is wrong is
/// told with its place.
pub proof fn law_entries_read(s: Seq<YamlView>, slug: Seq<char>, ty: Option<Seq<char>>, v: Seq<Scenario>)
    ensures
        entries_in(s, slug, ty) == Ok::<Seq<Scenario>, Seq<char>>(v) <==> (v.len() == s.len() && forall|i: int|
            0 <= i < s.len() ==> entry_in(#[trigger] s[i]) == Ok::<Scenario, Seq<char>>(v[i])),
    decreases s.len(),
{
    if s.len() == 0 {
        if v.len() == 0 {
            assert(v =~= Seq::<Scenario>::empty());
        }
    } else {
        let less = s.drop_last();
        if v.len() == s.len() {
            law_entries_read(less, slug, ty, v.drop_last());
            if forall|i: int| 0 <= i < s.len() ==> entry_in(#[trigger] s[i]) == Ok::<Scenario, Seq<char>>(v[i]) {
                assert forall|i: int| 0 <= i < less.len() implies entry_in(#[trigger] less[i]) == Ok::<
                    Scenario,
                    Seq<char>,
                >(v.drop_last()[i]) by {
                    assert(less[i] == s[i]);
                }
                assert(entry_in(s[s.len() - 1]) == Ok::<Scenario, Seq<char>>(v[s.len() - 1]));
                assert(v.drop_last().push(v.last()) =~= v);
            }
        }
        if entries_in(s, slug, ty) == Ok::<Seq<Scenario>, Seq<char>>(v) {
            let w = entries_in(less, slug, ty)->Ok_0;
            law_entries_read(less, slug, ty, w);
            assert(v =~= w.push(entry_in(s.last())->Ok_0));
            assert forall|i: int| 0 <= i < s.len() implies entry_in(#[trigger] s[i]) == Ok::<Scenario, Seq<char>>(v[i]) by {
                if i < less.len() {
                    assert(less[i] == s[i]);
                }
            }
        }
    }
}

/// The first entry of a list that is wrong is told with its place: the domain,
/// the type if there is one, and its number from zero.
pub proof fn law_wrong_entry_told(s: Seq<YamlView>, slug: Seq<char>, t: Seq<char>, k: int, why: Seq<char>)
    requires
        0 <= k < s.len(),
        forall|i: int| 0 <= i < k ==> entry_in(#[trigger] s[i]) is Ok,
        entry_in(s[k]) == Err::<Scenario, Seq<char>>(why),
    ensures
        entries_in(s, slug, None) == Err::<Seq<Scenario>, Seq<char>>(
            "docs/test-scenarios.yaml"@ + ": malformed entry at "@ + ("domains."@ + slug + "["@ + digits(k as nat) + "]"@)
                + ": "@ + why,
        ),
        entries_in(s, slug, Some(t)) == Err::<Seq<Scenario>, Seq<char>>(
            "docs/test-scenarios.yaml"@ + ": malformed entry at "@ + ("domains."@ + slug + "."@ + t + "["@ + digits(
                k as nat,
            ) + "]"@) + ": "@ + why,
        ),
{
    let before = s.take(k);
    let v = Seq::new(k as nat, |i: int| entry_in(s[i])->Ok_0);
    assert forall|i: int| 0 <= i < k implies entry_in(#[trigger] before[i]) == Ok::<Scenario, Seq<char>>(v[i]) by {
        assert(before[i] == s[i]);
    }
    law_entries_read(before, slug, None, v);
    law_entries_read(before, slug, Some(t), v);
    let upto = s.take(k + 1);
    assert(upto.drop_last() =~= before);
    assert(upto.last() == s[k]);
    lemma_entries_err(s, slug, None, k + 1);
    lemma_entries_err(s, slug, Some(t), k + 1);
}

/// What is wrong with an entry is told.
pub proof fn law_entry_refused(p: Seq<(YamlView, YamlView)>, f: Found, name: Seq<char>, y: YamlView)
    ensures
        entry_in(YamlView::Null) == Err::<Scenario, Seq<char>>("missing field `endpoint`"@),
        found_in(p) == Ok::<Found, Seq<char>>(f) && f.endpoint is None ==> entry_in(YamlView::Mapping(p)) == Err::<
            Scenario,
            Seq<char>,
        >("missing field `endpoint`"@),
        found_in(p) == Ok::<Found, Seq<char>>(f) && f.endpoint is Some && f.id is None ==> entry_in(YamlView::Mapping(p))
            == Err::<Scenario, Seq<char>>("missing field `id`"@),
        found_in(p) == Ok::<Found, Seq<char>>(f) && f.endpoint is Some && f.id is Some && f.description is None
            ==> entry_in(YamlView::Mapping(p)) == Err::<Scenario, Seq<char>>("missing field `description`"@),
        text_in(y) is None ==> field_value(None, name, y) == Err::<Option<Seq<char>>, Seq<char>>(
            "field `"@ + name + "` is not a string"@,
        ),
        field_value(Some(name), name, y) == Err::<Option<Seq<char>>, Seq<char>>("duplicate field `"@ + name + "`"@),
{
}

/// A domain without a value has an empty list; a list is a domain without API
/// types; a mapping has a list, or nothing, for each type, in order. Anything
/// else is refused.
pub proof fn law_section_read(slug: Seq<char>, s: Seq<YamlView>, p: Seq<(YamlView, YamlView)>, raw: YamlView)
    ensures
        section_in(YamlView::Null, slug) == Ok::<Section, Seq<char>>(Section::Flat(Seq::empty())),
        entries_in(s, slug, None) matches Ok(v) ==> section_in(YamlView::Sequence(s), slug) == Ok::<Section, Seq<char>>(
            Section::Flat(v),
        ),
        entries_in(s, slug, None) matches Err(e) ==> section_in(YamlView::Sequence(s), slug) == Err::<Section, Seq<char>>(e),
        section_in(YamlView::Mapping(p), slug) matches Ok(x) ==> (x matches Section::PerApiType(b) && b.len() == p.len()
            && forall|i: int|
            0 <= i < p.len() ==> text_in((#[trigger] p[i]).0) == Some(b[i].0) && (p[i].1 is Null ==> b[i].1.len() == 0) && (
            p[i].1 matches YamlView::Sequence(l) ==> entries_in(l, slug, Some(b[i].0)) == Ok::<Seq<Scenario>, Seq<char>>(
                b[i].1,
            )) && (p[i].1 is Null || p[i].1 is Sequence)),
        !(raw is Null) && !(raw is Sequence) && !(raw is Mapping) ==> section_in(raw, slug) == Err::<Section, Seq<char>>(
            "docs/test-scenarios.yaml"@ + ": domains."@ + slug
                + " must be either a list (single api-type) or mapping"@,
        ),
{
    if let Ok(x) = section_in(YamlView::Mapping(p), slug) {
        let b = x->PerApiType_0;
        lemma_buckets_each(p, slug, b);
        assert forall|i: int| 0 <= i < p.len() implies text_in((#[trigger] p[i]).0) == Some(b[i].0) && (p[i].1 is Null
            ==> b[i].1.len() == 0) && (p[i].1 matches YamlView::Sequence(l) ==> entries_in(l, slug, Some(b[i].0)) == Ok::<
            Seq<Scenario>,
            Seq<char>,
        >(b[i].1)) && (p[i].1 is Null || p[i].1 is Sequence) by {
            assert(bucket_in(p[i], slug) == Ok::<(Seq<char>, Seq<Scenario>), Seq<char>>(b[i]));
        }
    }
}

/// A domain that is not listed has no section, and a manifest without domains
/// lists none.
pub proof fn law_domain_read(top: Seq<(YamlView, YamlView)>, slug: Seq<char>, m: Seq<(YamlView, YamlView)>, raw: YamlView)
    ensures
        lookup(top, "domains"@) is None ==> section_of(top, slug) == Ok::<Option<Section>, Seq<char>>(None),
        lookup(top, "domains"@) == Some(YamlView::Mapping(m)) && lookup(m, slug) is None ==> section_of(top, slug) == Ok::<
            Option<Section>,
            Seq<char>,
        >(None),
        lookup(top, "domains"@) == Some(YamlView::Mapping(m)) && lookup(m, slug) == Some(raw) ==> (match section_in(
            raw,
            slug,
        ) {
            Ok(s) => section_of(top, slug) == Ok::<Option<Section>, Seq<char>>(Some(s)),
            Err(e) => section_of(top, slug) == Err::<Option<Section>, Seq<char>>(e),
        }),
{
    assert(lookup(Seq::<(YamlView, YamlView)>::empty(), slug) is None);
}

/// The entries of a section are told each with the type of its list, in order.
pub proof fn law_entries_typed(v: Seq<Scenario>, t: Seq<char>, a: Seq<(Seq<char>, Seq<Scenario>)>, i: int)
    requires
        0 <= i < v.len(),
    ensures
        with_types(Section::Flat(v)).len() == v.len(),
        with_types(Section::Flat(v))[i] == (None::<Seq<char>>, v[i]),
        with_types(Section::PerApiType(Seq::empty())).len() == 0,
        ({
            let before = with_types(Section::PerApiType(a));
            let after = with_types(Section::PerApiType(a.push((t, v))));
            &&& after.len() == before.len() + v.len()
            &&& before.is_prefix_of(after)
            &&& after[before.len() + i] == (Some(t), v[i])
        }),
{
    assert(a.push((t, v)).drop_last() =~= a);
}

/// A manifest that is missing, blank or null has nothing in it; one that holds
/// anything but a mapping, or no YAML, is refused.
pub proof fn law_manifest_read(path: Seq<char>, t: Seq<char>)
    ensures
        manifest_pairs(path, None) == Ok::<Seq<(YamlView, YamlView)>, Seq<char>>(Seq::empty()),
        trimmed(t).len() == 0 ==> manifest_pairs(path, Some(t)) == Ok::<Seq<(YamlView, YamlView)>, Seq<char>>(
            Seq::empty(),
        ),
        trimmed(t).len() > 0 ==> (match yaml_document(t) {
            Ok(YamlView::Null) => manifest_pairs(path, Some(t)) == Ok::<Seq<(YamlView, YamlView)>, Seq<char>>(
                Seq::empty(),
            ),
            Ok(YamlView::Mapping(m)) => manifest_pairs(path, Some(t)) == Ok::<Seq<(YamlView, YamlView)>, Seq<char>>(m),
            Ok(_) => manifest_pairs(path, Some(t)) == Err::<Seq<(YamlView, YamlView)>, Seq<char>>(
                path + ": expected a YAML mapping at the top level"@,
            ),
            Err(e) => manifest_pairs(path, Some(t)) == Err::<Seq<(YamlView, YamlView)>, Seq<char>>(
                "parsing "@ + path + " as YAML: "@ + e,
            ),
        }),
{
}

/// The names in a mapping are told in order; keys that are no texts are left out.
pub proof fn law_names_told(p: Seq<(YamlView, YamlView)>) -> (at: Seq<int>)
    ensures
        keeps_places(at, p.len(), |k: int| text_in(p[k].0) is Some),
        text_keys(p).len() == at.len(),
        forall|i: int| 0 <= i < at.len() ==> text_in(p[at[i]].0) == Some(#[trigger] text_keys(p)[i]),
    decreases p.len(),
{
    let keep = |k: int| text_in(p[k].0) is Some;
    if p.len() == 0 {
        let at = Seq::<int>::empty();
        assert(keeps_places(at, 0, keep));
        at
    } else {
        let less = p.drop_last();
        let fewer = |k: int| text_in(less[k].0) is Some;
        let before = law_names_told(less);
        assert forall|k: int| 0 <= k < less.len() implies fewer(k) == #[trigger] keep(k) by {
            assert(less[k] == p[k]);
        }
        let at = lemma_places_more(before, less.len(), fewer, keep);
        assert forall|i: int| 0 <= i < at.len() implies text_in(p[at[i]].0) == Some(#[trigger] text_keys(p)[i]) by {
            if i < before.len() {
                assert(text_keys(less)[i] == text_keys(p)[i]);
                assert(less[before[i]] == p[at[i]]);
            }
        }
        at
    }
}

/// Entries are added to a domain exactly where its layout is the same, or where
/// it has no entries yet: a list with entries takes none with a type, and a
/// mapping with entries none without.
pub proof fn law_layout_kept(slug: Seq<char>, t: Seq<char>, es: Seq<Scenario>, s: Seq<YamlView>, m: Seq<(YamlView, YamlView)>)
    ensures
        extended(Some(YamlView::Sequence(s)), slug, None, es) is Ok,
        extended(Some(YamlView::Sequence(s)), slug, Some(t), es) is Ok <==> s.len() == 0,
        extended(Some(YamlView::Mapping(m)), slug, None, es) is Ok <==> forall|i: int|
            0 <= i < m.len() ==> ((#[trigger] m[i]).1 is Null || (m[i].1 matches YamlView::Sequence(l) && l.len() == 0)),
        extended(None, slug, None, es) is Ok && extended(None, slug, Some(t), es) is Ok,
        extended(Some(YamlView::Null), slug, None, es) is Ok && extended(Some(YamlView::Null), slug, Some(t), es) is Ok,
        s.len() > 0 ==> extended(Some(YamlView::Sequence(s)), slug, Some(t), es) == Err::<YamlView, Seq<char>>(
            "domains."@ + slug
                + " is currently a flat list with entries; cannot append api-type-keyed entries without an explicit layout migration"@,
        ),
        extended(Some(YamlView::Mapping(m)), slug, None, es) matches Err(e) ==> e == "domains."@ + slug
            + " is currently keyed by api-type with entries; cannot append flat entries without an explicit layout migration"@,
        replaced(Some(YamlView::Sequence(s)), slug, Some(t), es) is Ok <==> s.len() == 0,
        replaced(Some(YamlView::Mapping(m)), slug, Some(t), es) is Ok,
        replaced(Some(YamlView::Mapping(m)), slug, None, es) is Ok,
{
    assert forall|i: int| 0 <= i < m.len() implies ((#[trigger] m[i]).1 == YamlView::Sequence(Seq::empty()) <==> (
    m[i].1 matches YamlView::Sequence(l) && l.len() == 0)) by {
        if let YamlView::Sequence(l) = m[i].1 {
            if l.len() == 0 {
                assert(l =~= Seq::<YamlView>::empty());
            }
        }
    }
}

/// An entry is written with its three fields, in this order.
pub proof fn law_entry_written(e: Scenario)
    ensures
        entry_value(e) == YamlView::Mapping(
            seq![
                (YamlView::Text("endpoint"@), YamlView::Text(e.endpoint)),
                (YamlView::Text("id"@), YamlView::Text(e.id)),
                (YamlView::Text("description"@), YamlView::Text(e.description)),
            ],
        ),
        entry_in(entry_value(e)) == Ok::<Scenario, Seq<char>>(e),
{
    lemma_entry_round_trip(e);
}

/// The list of a type is the first with its name; a section of the other layout,
/// or none, lists nothing.
pub proof fn law_listed(v: Seq<Scenario>, b: Seq<(Seq<char>, Seq<Scenario>)>, t: Seq<char>, k: int)
    requires
        0 <= k < b.len(),
        b[k].0 == t,
        forall|j: int| 0 <= j < k ==> (#[trigger] b[j]).0 != t,
    ensures
        listed(Some(Section::Flat(v)), None) == v,
        listed(Some(Section::Flat(v)), Some(t)).len() == 0,
        listed(Some(Section::PerApiType(b)), Some(t)) == b[k].1,
        listed(Some(Section::PerApiType(b)), None).len() == 0,
        listed(None, Some(t)).len() == 0 && listed(None, None).len() == 0,
{
    lemma_bucket_is(b, t, 0, k);
}

} // verus!
