//! Keeping the scenario manifest in step with API documents, and recording
//! scenarios that a run skips.

pub use crate::scenario::{derive_scenarios, ScenarioEntry};

use crate::contracts::{keeps_places, lemma_places_more};
use crate::json::{
    alike, array, compact_text, distinct_names, elements, get, get_text, json_in_bytes, json_list, lemma_alike_items,
    lemma_alike_member, lemma_holding, lemma_proper_array, lemma_proper_flat, member, member_from, members, object,
    optional_text, parse_json_bytes, parse_json_list, pretty_text, proper, push_member, render_compact, render_pretty,
    tells, text, text_member, text_or_null, Json, JsonView, MOST_LEVELS,
};
use crate::openapi::ApiSpec;
use crate::openapi_source::{openapi_document, openapi_value, read_openapi, read_openapi_value};
use crate::path::{below, join_path};
use crate::scenario::{
    add_entry, added, all_repeats, derived, duplicate_slugs, entries, has_key, law_merge_appends,
    law_merge_idempotent, lemma_merge_of_present, merged, same_key, Scenario,
};
use crate::scenarios_yaml::{
    bucket_named, buckets, domains_in, extended, law_other_domains_untouched, law_other_types_untouched,
    law_plain_after_append, law_section_after_append, listed, manifest_pairs, plain_scenario, plain_scenarios,
    saved_as, section_of, typed_views, with_domain, with_types, ScenariosFile, Section, SlugSection,
};
use crate::text::{
    borrowed, decimal, digits, from_utf8_lossy, join, joined, lossy_text, owned, same, shown, text_of, trim, trimmed,
    views,
};
use crate::yaml::{lookup, plain, plain_text, YamlView, PLAIN_DEPTH};
use vstd::prelude::*;

verus! {

/// The scenario commands.
pub enum ScenarioCmd {
    /// Derive the scenarios of a domain and add them to the manifest.
    Sync {
        /// The domain whose section gets the scenarios.
        domain: String,
        /// Take the API from the running controllers.
        from_code: bool,
        /// Take the API from this document.
        proposed: Option<String>,
    },
    /// Record that a run skips a scenario.
    Skip {
        /// The run directory.
        run: String,
        /// The domain of the scenario.
        domain: String,
        /// The id of the scenario.
        id: String,
        /// The API type, where the id alone does not tell.
        api_type: Option<String>,
    },
}

/// What a scenario command asks for.
pub enum Action {
    SyncFromCode(String),
    SyncFromProposed(String, String),
    SyncDomain(String),
    Skip(String, String, String, Option<String>),
}

/// What a scenario command asks for: `--from-code` comes first, then
/// `--proposed`, and with neither the documents of the domain are read.
pub fn action(cmd: ScenarioCmd) -> (r: Action)
    ensures
        r == (match cmd {
            ScenarioCmd::Sync { domain, from_code, proposed } => if from_code {
                Action::SyncFromCode(domain)
            } else {
                match proposed {
                    Some(path) => Action::SyncFromProposed(domain, path),
                    None => Action::SyncDomain(domain),
                }
            },
            ScenarioCmd::Skip { run, domain, id, api_type } => Action::Skip(run, domain, id, api_type),
        }),
{
    match cmd {
        ScenarioCmd::Sync { domain, from_code, proposed } => if from_code {
            Action::SyncFromCode(domain)
        } else {
            match proposed {
                Some(path) => Action::SyncFromProposed(domain, path),
                None => Action::SyncDomain(domain),
            }
        },
        ScenarioCmd::Skip { run, domain, id, api_type } => Action::Skip(run, domain, id, api_type),
    }
}

/// One document of a domain: its API type, if any, and where it lies.
pub struct DomainBucket {
    pub api_type: Option<String>,
    pub spec_path: String,
}

/// The texts of a bucket.
pub open spec fn bucket_view(b: DomainBucket) -> (Option<Seq<char>>, Seq<char>) {
    (text_of(b.api_type), b.spec_path@)
}

/// The texts of a list of buckets.
pub open spec fn bucket_views(v: Seq<DomainBucket>) -> Seq<(Option<Seq<char>>, Seq<char>)> {
    v.map_values(|b: DomainBucket| bucket_view(b))
}

/// Where the document of an API type lies below the domain.
pub open spec fn typed_path(dir: Seq<char>, ty: Seq<char>) -> Seq<char> {
    below(below(dir, ty), "api-spec.yaml"@)
}

/// The bucket of an API type, where its document is there.
pub open spec fn typed_bucket(dir: Seq<char>, ty: Seq<char>, there: bool) -> Seq<(Option<Seq<char>>, Seq<char>)> {
    if there {
        seq![(Some(ty), typed_path(dir, ty))]
    } else {
        Seq::empty()
    }
}

/// The documents of a domain: one for each API type that has one, or else the
/// one at the top of the domain.
pub open spec fn layout(dir: Seq<char>, web: bool, micro: bool, open_api: bool) -> Seq<(Option<Seq<char>>, Seq<char>)> {
    if web || micro || open_api {
        typed_bucket(dir, "web-api"@, web) + typed_bucket(dir, "microservice-api"@, micro) + typed_bucket(
            dir,
            "open-api"@,
            open_api,
        )
    } else {
        seq![(None, below(dir, "api-spec.yaml"@))]
    }
}

fn push_bucket(out: &mut Vec<DomainBucket>, dir: &str, ty: &str)
    ensures
        bucket_views(final(out)@) == bucket_views(old(out)@) + typed_bucket(dir@, ty@, true),
{
    let ghost before = out@;
    let sub = join_path(dir, ty);
    let b = DomainBucket { api_type: Some(ty.to_owned()), spec_path: join_path(sub.as_str(), "api-spec.yaml") };
    out.push(b);
    assert(bucket_views(out@) =~= bucket_views(before) + seq![bucket_view(b)]);
}

/// The documents of a domain directory, given which of the API types have one.
pub fn buckets_for(domain_dir: &str, web: bool, micro: bool, open_api: bool) -> (r: Vec<DomainBucket>)
    ensures
        bucket_views(r@) == layout(domain_dir@, web, micro, open_api),
{
    let mut out: Vec<DomainBucket> = Vec::new();
    assert(bucket_views(out@) =~= Seq::<(Option<Seq<char>>, Seq<char>)>::empty());
    if web || micro || open_api {
        if web {
            push_bucket(&mut out, domain_dir, "web-api");
        }
        if micro {
            push_bucket(&mut out, domain_dir, "microservice-api");
        }
        if open_api {
            push_bucket(&mut out, domain_dir, "open-api");
        }
        assert(bucket_views(out@) =~= layout(domain_dir@, web, micro, open_api));
    } else {
        out.push(DomainBucket { api_type: None, spec_path: join_path(domain_dir, "api-spec.yaml") });
        assert(bucket_views(out@) =~= layout(domain_dir@, web, micro, open_api));
    }
    out
}

/// Why a domain cannot be synced at all, if so: it has only the document at
/// its top, and that is not there.
pub fn missing_spec(buckets: &Vec<DomainBucket>, flat_is_file: bool) -> (r: Option<String>)
    ensures
        r is Some == (buckets@.len() == 1 && buckets@[0].api_type is None && !flat_is_file),
        r matches Some(e) ==> e@ == "missing api-spec.yaml at "@ + buckets@[0].spec_path@
            + " — neither flat nor any per-type subdir found"@,
{
    if buckets.len() == 1 && buckets[0].api_type.is_none() && !flat_is_file {
        let mut e: String = "missing api-spec.yaml at ".to_owned();
        e.append(buckets[0].spec_path.as_str());
        e.append(" — neither flat nor any per-type subdir found");
        Some(e)
    } else {
        None
    }
}

/// What could be read of a document.
pub enum SpecText {
    /// There is no such file.
    Absent,
    /// Reading failed, with this message.
    Unreadable(String),
    Text(String),
}

/// The document in a text that was read, or the message for what went wrong;
/// `None` where there is no file.
pub open spec fn document_in(path: Seq<char>, read: SpecText) -> Result<Option<ApiSpec>, Seq<char>> {
    match read {
        SpecText::Absent => Ok(None),
        SpecText::Unreadable(e) => Err("failed to read "@ + path + ": "@ + e@),
        SpecText::Text(t) => match openapi_document(t@) {
            Ok(spec) => Ok(Some(spec)),
            Err(e) => Err("failed to parse OpenAPI v3 from "@ + path + ": "@ + e@),
        },
    }
}

/// The document in a text that was read.
pub fn read_document(path: &str, read: &SpecText) -> (r: Result<Option<ApiSpec>, String>)
    ensures
        (match r {
            Ok(d) => document_in(path@, *read) == Ok::<Option<ApiSpec>, Seq<char>>(d),
            Err(e) => document_in(path@, *read) == Err::<Option<ApiSpec>, Seq<char>>(e@),
        }),
{
    match read {
        SpecText::Absent => Ok(None),
        SpecText::Unreadable(why) => {
            let mut e: String = "failed to read ".to_owned();
            e.append(path);
            e.append(": ");
            e.append(why.as_str());
            Err(e)
        },
        SpecText::Text(t) => match read_openapi(t.as_str()) {
            Ok(spec) => Ok(Some(spec)),
            Err(why) => {
                let mut e: String = "failed to parse OpenAPI v3 from ".to_owned();
                e.append(path);
                e.append(": ");
                e.append(why.as_str());
                Err(e)
            },
        },
    }
}

/// The document that `--proposed` names, or the message for what is wrong:
/// `given` is the path as it was given, `path` the same seen from the root.
pub open spec fn proposed_in(given: Seq<char>, path: Seq<char>, read: SpecText) -> Result<ApiSpec, Seq<char>> {
    match read {
        SpecText::Absent => Err("proposed-api.yaml not found: "@ + given),
        SpecText::Unreadable(e) => Err("reading "@ + path + ": "@ + e@),
        SpecText::Text(t) => match openapi_document(t@) {
            Ok(spec) => Ok(spec),
            Err(e) => Err("parsing "@ + path + " as OpenAPI 3.x: "@ + e@),
        },
    }
}

/// The document that `--proposed` names.
pub fn proposed_document(given: &str, path: &str, read: &SpecText) -> (r: Result<ApiSpec, String>)
    ensures
        (match r {
            Ok(spec) => proposed_in(given@, path@, *read) == Ok::<ApiSpec, Seq<char>>(spec),
            Err(e) => proposed_in(given@, path@, *read) == Err::<ApiSpec, Seq<char>>(e@),
        }),
{
    match read {
        SpecText::Absent => {
            let mut e: String = "proposed-api.yaml not found: ".to_owned();
            e.append(given);
            Err(e)
        },
        SpecText::Unreadable(why) => {
            let mut e: String = "reading ".to_owned();
            e.append(path);
            e.append(": ");
            e.append(why.as_str());
            Err(e)
        },
        SpecText::Text(t) => match read_openapi(t.as_str()) {
            Ok(spec) => Ok(spec),
            Err(why) => {
                let mut e: String = "parsing ".to_owned();
                e.append(path);
                e.append(" as OpenAPI 3.x: ");
                e.append(why.as_str());
                Err(e)
            },
        },
    }
}

/// The `spec` member of what `jkit api-spec show` printed, or the message for
/// what is wrong with it.
pub open spec fn shown_spec(domain: Seq<char>, printed: Result<JsonView, Seq<char>>) -> Result<JsonView, Seq<char>> {
    match printed {
        Err(e) => Err("parsing jkit api-spec show output as JSON: "@ + e),
        Ok(v) => if member(v, "ok"@) != Some(JsonView::Bool(true)) {
            Err("jkit api-spec show "@ + domain + " returned ok:false: "@ + compact_text(v))
        } else {
            match member(v, "spec"@) {
                None => Err("jkit api-spec show output missing `spec` field"@),
                Some(s) => Ok(s),
            }
        },
    }
}

/// The document that `jkit api-spec show` printed, or the message for what
/// went wrong.
pub open spec fn shown_document(domain: Seq<char>, success: bool, stdout: Seq<u8>) -> Result<ApiSpec, Seq<char>> {
    if !success {
        Err("jkit api-spec show "@ + domain + " failed: "@ + trimmed(lossy_text(stdout)))
    } else {
        match shown_spec(domain, json_in_bytes(stdout)) {
            Err(e) => Err(e),
            Ok(s) => match openapi_value(s) {
                Ok(spec) => Ok(spec),
                Err(e) => Err("parsing api-spec output as OpenAPI 3.x: "@ + e@),
            },
        }
    }
}

fn is_true(j: Option<&Json>) -> (r: bool)
    ensures
        r == (j matches Some(v) && v@ == JsonView::Bool(true)),
{
    match j {
        Some(Json::Bool(b)) => *b,
        Some(v) => {
            proof {
                lemma_holding(*v);
            }
            false
        },
        None => false,
    }
}

/// The `spec` member of a value that `jkit api-spec show` printed.
pub fn spec_member<'a>(domain: &str, printed: &'a Json) -> (r: Result<&'a Json, String>)
    ensures
        (match r {
            Ok(s) => shown_spec(domain@, Ok(printed@)) == Ok::<JsonView, Seq<char>>(s@),
            Err(e) => shown_spec(domain@, Ok(printed@)) == Err::<JsonView, Seq<char>>(e@),
        }),
{
    if !is_true(get(printed, "ok")) {
        let mut e: String = "jkit api-spec show ".to_owned();
        e.append(domain);
        e.append(" returned ok:false: ");
        e.append(render_compact(printed).as_str());
        return Err(e);
    }
    match get(printed, "spec") {
        Some(s) => Ok(s),
        None => Err("jkit api-spec show output missing `spec` field".to_owned()),
    }
}

/// The document that `jkit api-spec show` printed.
pub fn code_document(domain: &str, success: bool, stdout: &Vec<u8>) -> (r: Result<ApiSpec, String>)
    ensures
        (match r {
            Ok(spec) => shown_document(domain@, success, stdout@) == Ok::<ApiSpec, Seq<char>>(spec),
            Err(e) => shown_document(domain@, success, stdout@) == Err::<ApiSpec, Seq<char>>(e@),
        }),
{
    if !success {
        let mut e: String = "jkit api-spec show ".to_owned();
        e.append(domain);
        e.append(" failed: ");
        e.append(trim(from_utf8_lossy(stdout).as_str()).as_str());
        return Err(e);
    }
    let printed = match parse_json_bytes(stdout) {
        Ok(j) => j,
        Err(why) => {
            let mut e: String = "parsing jkit api-spec show output as JSON: ".to_owned();
            e.append(why.as_str());
            return Err(e);
        },
    };
    let spec_value = match spec_member(domain, &printed) {
        Ok(s) => s,
        Err(e) => {
            return Err(e);
        },
    };
    match read_openapi_value(spec_value) {
        Ok(spec) => Ok(spec),
        Err(why) => {
            let mut e: String = "parsing api-spec output as OpenAPI 3.x: ".to_owned();
            e.append(why.as_str());
            Err(e)
        },
    }
}

/// The scenarios that a document asks for and the list does not hold.
pub open spec fn additions(existing: Seq<Scenario>, want: Seq<Scenario>) -> Seq<Scenario> {
    merged(existing, want).skip(existing.len() as int)
}

proof fn lemma_additions(existing: Seq<Scenario>, want: Seq<Scenario>)
    ensures
        merged(existing, want) == existing + additions(existing, want),
        additions(existing, want).len() <= want.len(),
    decreases want.len(),
{
    law_merge_appends(existing, want);
    let m = merged(existing, want);
    assert(existing + m.skip(existing.len() as int) =~= m);
    if want.len() > 0 {
        lemma_additions(existing, want.drop_last());
    }
}

/// Whether a scenario of the list has this endpoint.
pub open spec fn has_endpoint(list: Seq<Scenario>, endpoint: Seq<char>) -> bool {
    exists|i: int| 0 <= i < list.len() && (#[trigger] list[i]).endpoint == endpoint
}

/// ` [type]`, or nothing where there is no API type.
pub open spec fn type_mark(ty: Option<Seq<char>>) -> Seq<char> {
    match ty {
        Some(t) => " ["@ + t + "]"@,
        None => Seq::empty(),
    }
}

/// The note for a scenario whose endpoint is no longer asked for.
pub open spec fn orphan_note(ty: Option<Seq<char>>, e: Scenario) -> Seq<char> {
    "sync"@ + type_mark(ty) + ": orphaned entry — endpoint '"@ + e.endpoint + "' (id '"@ + e.id
        + "') no longer in spec"@
}

/// The notes for the scenarios whose endpoints are no longer asked for.
pub open spec fn orphan_notes(ty: Option<Seq<char>>, existing: Seq<Scenario>, want: Seq<Scenario>) -> Seq<Seq<char>>
    decreases existing.len(),
{
    if existing.len() == 0 {
        Seq::empty()
    } else {
        let rest = orphan_notes(ty, existing.drop_last(), want);
        if has_endpoint(want, existing.last().endpoint) {
            rest
        } else {
            rest.push(orphan_note(ty, existing.last()))
        }
    }
}

/// What syncing one document came to.
pub struct BucketReport {
    pub api_type: Option<String>,
    pub added: usize,
    pub already_present: usize,
    pub orphaned: usize,
}

/// What syncing one document came to, as numbers.
#[verifier::ext_equal]
pub struct Outcome {
    pub api_type: Option<Seq<char>>,
    pub added: nat,
    pub already_present: nat,
    pub orphaned: nat,
}

impl View for BucketReport {
    type V = Outcome;

    open spec fn view(&self) -> Outcome {
        Outcome {
            api_type: text_of(self.api_type),
            added: self.added as nat,
            already_present: self.already_present as nat,
            orphaned: self.orphaned as nat,
        }
    }
}

/// What syncing a document comes to, given the list that it is held against.
pub open spec fn outcome(ty: Option<Seq<char>>, existing: Seq<Scenario>, want: Seq<Scenario>) -> Outcome {
    Outcome {
        api_type: ty,
        added: additions(existing, want).len(),
        already_present: (want.len() - additions(existing, want).len()) as nat,
        orphaned: orphan_notes(ty, existing, want).len(),
    }
}

/// The line that sums up a sync.
pub open spec fn summary(o: Outcome, orphans: bool) -> Seq<char> {
    let line = "sync"@ + type_mark(o.api_type) + ": "@ + digits(o.added) + " added, "@ + digits(o.already_present)
        + " already present"@;
    if orphans {
        line + ", "@ + digits(o.orphaned) + " orphaned"@
    } else {
        line
    }
}

/// The manifest and the outcome once a document is synced into a domain: the
/// scenarios that are missing are added, and with none missing nothing
/// changes.
pub open spec fn synced(
    top: Seq<(YamlView, YamlView)>,
    domain: Seq<char>,
    ty: Option<Seq<char>>,
    want: Seq<Scenario>,
) -> Result<(Seq<(YamlView, YamlView)>, Outcome), Seq<char>> {
    match section_of(top, domain) {
        Err(e) => Err(e),
        Ok(section) => {
            let existing = listed(section, ty);
            let more = additions(existing, want);
            if more.len() == 0 {
                Ok((top, outcome(ty, existing, want)))
            } else {
                match extended(lookup(domains_in(top), domain), domain, ty, more) {
                    Ok(v) => Ok((with_domain(top, domain, v), outcome(ty, existing, want))),
                    Err(e) => Err(e),
                }
            }
        },
    }
}

/// The notes of a sync, in order: repeated ids, orphans if asked for, and the
/// summing-up if nothing went wrong.
pub open spec fn sync_notes(
    top: Seq<(YamlView, YamlView)>,
    domain: Seq<char>,
    ty: Option<Seq<char>>,
    spec: ApiSpec,
    orphans: bool,
) -> Seq<Seq<char>> {
    let repeated = all_repeats(spec.paths@);
    match section_of(top, domain) {
        Err(_) => repeated,
        Ok(section) => {
            let lost = if orphans {
                orphan_notes(ty, listed(section, ty), derived(spec))
            } else {
                Seq::empty()
            };
            match synced(top, domain, ty, derived(spec)) {
                Ok(r) => (repeated + lost).push(summary(r.1, orphans)),
                Err(_) => repeated + lost,
            }
        },
    }
}

fn endpoint_listed(list: &Vec<ScenarioEntry>, endpoint: &str) -> (r: bool)
    ensures
        r == has_endpoint(entries(list@), endpoint@),
{
    let mut i: usize = 0;
    while i < list.len()
        invariant
            0 <= i <= list@.len(),
            forall|k: int| 0 <= k < i ==> (#[trigger] entries(list@)[k]).endpoint != endpoint@,
        decreases list.len() - i,
    {
        assert(entries(list@)[i as int] == list@[i as int]@);
        if same(list[i].endpoint.as_str(), endpoint) {
            return true;
        }
        i = i + 1;
    }
    false
}

fn mark_type(out: &mut String, ty: Option<&str>)
    ensures
        final(out)@ == old(out)@ + type_mark(shown(ty)),
{
    match ty {
        Some(t) => {
            out.append(" [");
            out.append(t);
            out.append("]");
            assert(out@ =~= old(out)@ + type_mark(shown(ty)));
        },
        None => {
            assert(old(out)@ + Seq::<char>::empty() =~= old(out)@);
        },
    }
}

fn orphans_of(ty: Option<&str>, existing: &Vec<ScenarioEntry>, want: &Vec<ScenarioEntry>) -> (r: Vec<String>)
    ensures
        views(r@) == orphan_notes(shown(ty), entries(existing@), entries(want@)),
{
    let ghost all = entries(existing@);
    let mut out: Vec<String> = Vec::new();
    let mut i: usize = 0;
    assert(all.take(0) =~= Seq::<Scenario>::empty());
    assert(views(out@) =~= Seq::<Seq<char>>::empty());
    while i < existing.len()
        invariant
            0 <= i <= existing@.len(),
            all == entries(existing@),
            views(out@) == orphan_notes(shown(ty), all.take(i as int), entries(want@)),
        decreases existing.len() - i,
    {
        assert(all.take(i + 1).drop_last() =~= all.take(i as int));
        assert(all[i as int] == existing@[i as int]@);
        let e = &existing[i];
        if !endpoint_listed(want, e.endpoint.as_str()) {
            let mut note: String = "sync".to_owned();
            mark_type(&mut note, ty);
            note.append(": orphaned entry — endpoint '");
            note.append(e.endpoint.as_str());
            note.append("' (id '");
            note.append(e.id.as_str());
            note.append("') no longer in spec");
            assert(note@ == orphan_note(shown(ty), e@));
            let ghost before = out@;
            out.push(note);
            assert(views(out@) =~= views(before).push(note@));
        }
        i = i + 1;
    }
    assert(all.take(all.len() as int) =~= all);
    out
}

/// The scenarios of a section that belong to one API type, or to none.
pub fn listed_entries(section: Option<SlugSection>, ty: Option<&str>) -> (r: Vec<ScenarioEntry>)
    ensures
        entries(r@) == listed(section_view(section), shown(ty)),
{
    let none: Vec<ScenarioEntry> = Vec::new();
    assert(entries(none@) =~= Seq::<Scenario>::empty());
    let ghost wanted = listed(section_view(section), shown(ty));
    match (section, ty) {
        (Some(SlugSection::Flat(v)), None) => v,
        (Some(SlugSection::PerApiType(b)), Some(t)) => {
            let mut b = b;
            let mut i: usize = 0;
            let ghost all = buckets(b@);
            while i < b.len()
                invariant
                    0 <= i <= b@.len(),
                    all == buckets(b@),
                    wanted == bucket_named(all, t@, i as int),
                    wanted == listed(section_view(section), shown(ty)),
                    entries(none@) == Seq::<Scenario>::empty(),
                decreases b.len() - i,
            {
                assert(all[i as int] == (b@[i as int].0@, entries(b@[i as int].1@)));
                if same(b[i].0.as_str(), t) {
                    let (_, v) = b.remove(i);
                    return v;
                }
                i = i + 1;
            }
            none
        },
        _ => none,
    }
}

/// The texts of an optional section.
pub open spec fn section_view(s: Option<SlugSection>) -> Option<Section> {
    match s {
        Some(v) => Some(v@),
        None => None,
    }
}

fn missing_entries(existing: &Vec<ScenarioEntry>, want: Vec<ScenarioEntry>) -> (r: Vec<ScenarioEntry>)
    ensures
        entries(r@) == additions(entries(existing@), entries(want@)),
{
    let ghost have = entries(existing@);
    let ghost all = entries(want@);
    let n: usize = existing.len();
    let mut both: Vec<ScenarioEntry> = Vec::new();
    let mut k: usize = 0;
    while k < n
        invariant
            0 <= k <= n == existing@.len(),
            both@.len() == k,
            forall|j: int| 0 <= j < k ==> (#[trigger] both@[j])@ == existing@[j]@,
        decreases n - k,
    {
        both.push(existing[k].clone());
        k = k + 1;
    }
    assert(entries(both@) =~= have);
    let mut out: Vec<ScenarioEntry> = Vec::new();
    let mut i: usize = 0;
    assert(all.take(0) =~= Seq::<Scenario>::empty());
    assert(have + entries(out@) =~= have);
    while i < want.len()
        invariant
            0 <= i <= want@.len(),
            all == entries(want@),
            entries(both@) == merged(have, all.take(i as int)),
            entries(both@) == have + entries(out@),
        decreases want.len() - i,
    {
        assert(all.take(i + 1).drop_last() =~= all.take(i as int));
        assert(all[i as int] == want@[i as int]@);
        let ghost before = out@;
        let ghost was = both@;
        if add_entry(&mut both, want[i].clone()) {
            out.push(want[i].clone());
            assert(entries(out@) =~= entries(before).push(want@[i as int]@));
            assert(entries(both@) =~= entries(was).push(want@[i as int]@));
            assert(have + entries(before).push(want@[i as int]@) =~= (have + entries(before)).push(want@[i as int]@));
        }
        i = i + 1;
    }
    assert(all.take(all.len() as int) =~= all);
    assert((have + entries(out@)).skip(have.len() as int) =~= entries(out@));
    out
}

fn summary_text(o: &BucketReport, orphans: bool) -> (r: String)
    ensures
        r@ == summary(o@, orphans),
{
    let mut line: String = "sync".to_owned();
    if let Some(t) = &o.api_type {
        mark_type(&mut line, Some(t.as_str()));
    } else {
        mark_type(&mut line, None);
    }
    line.append(": ");
    line.append(decimal(o.added as u64).as_str());
    line.append(" added, ");
    line.append(decimal(o.already_present as u64).as_str());
    line.append(" already present");
    if orphans {
        line.append(", ");
        line.append(decimal(o.orphaned as u64).as_str());
        line.append(" orphaned");
    }
    line
}

fn append_notes(notes: &mut Vec<String>, more: Vec<String>)
    ensures
        views(final(notes)@) == views(old(notes)@) + views(more@),
{
    let mut more = more;
    let ghost a = notes@;
    let ghost b = more@;
    notes.append(&mut more);
    assert(views(notes@) =~= views(a) + views(b));
}

/// Syncs a document into a domain of the manifest: adds the scenarios that it
/// asks for and that are missing, each at the end of the list. Notes for the
/// user are added to `notes`.
pub fn sync_spec(
    file: &mut ScenariosFile,
    domain: &str,
    api_type: Option<&str>,
    spec: &ApiSpec,
    orphans: bool,
    notes: &mut Vec<String>,
) -> (r: Result<BucketReport, String>)
    ensures
        final(file).path == old(file).path,
        views(final(notes)@) == views(old(notes)@) + sync_notes(
            old(file).pairs(),
            domain@,
            shown(api_type),
            *spec,
            orphans,
        ),
        (match r {
            Ok(o) => synced(old(file).pairs(), domain@, shown(api_type), derived(*spec)) == Ok::<
                (Seq<(YamlView, YamlView)>, Outcome),
                Seq<char>,
            >((final(file).pairs(), o@)),
            Err(e) => *final(file) == *old(file) && synced(old(file).pairs(), domain@, shown(api_type), derived(*spec))
                == Err::<(Seq<(YamlView, YamlView)>, Outcome), Seq<char>>(e@),
        }),
{
    let ghost notes0 = views(notes@);
    let ghost top0 = file.pairs();
    let want = derive_scenarios(spec);
    append_notes(notes, duplicate_slugs(spec));
    let section = match file.section(domain) {
        Ok(s) => s,
        Err(e) => {
            return Err(e);
        },
    };
    assert(section_of(top0, domain@) == Ok::<Option<Section>, Seq<char>>(section_view(section)));
    let existing = listed_entries(section, api_type);
    let ghost have = entries(existing@);
    let lost = orphans_of(api_type, &existing, &want);
    let n_lost: usize = lost.len();
    assert(views(lost@).len() == n_lost);
    let ghost repeated = all_repeats(spec.paths@);
    let ghost shown_lost = if orphans {
        orphan_notes(shown(api_type), have, derived(*spec))
    } else {
        Seq::empty()
    };
    if orphans {
        append_notes(notes, lost);
    }
    assert(views(notes@) =~= notes0 + (repeated + shown_lost));
    let n_want: usize = want.len();
    assert(entries(want@).len() == n_want);
    let more = missing_entries(&existing, want);
    assert(entries(more@).len() == more@.len());
    proof {
        lemma_additions(have, derived(*spec));
    }
    let n_more: usize = more.len();
    if n_more > 0 {
        if let Err(e) = file.append_entries(domain, api_type, &more) {
            return Err(e);
        }
    }
    let report = BucketReport {
        api_type: owned(api_type),
        added: n_more,
        already_present: n_want - n_more,
        orphaned: n_lost,
    };
    assert(report@ =~= outcome(shown(api_type), have, derived(*spec)));
    let line = summary_text(&report, orphans);
    let ghost before = notes@;
    notes.push(line);
    assert(views(notes@) =~= views(before).push(line@));
    assert(views(notes@) =~= notes0 + (repeated + shown_lost).push(line@));
    Ok(report)
}

/// After a sync the domain lists what it listed before, followed by the
/// scenarios that were missing: existing entries stay as and where they were,
/// and every scenario that the document asks for is there.
pub proof fn law_sync_appends(
    top: Seq<(YamlView, YamlView)>,
    domain: Seq<char>,
    ty: Option<Seq<char>>,
    want: Seq<Scenario>,
)
    requires
        synced(top, domain, ty, want) is Ok,
    ensures
        section_of(top, domain) matches Ok(before) && (section_of(synced(top, domain, ty, want)->Ok_0.0, domain) matches Ok(
            after,
        ) && {
            &&& listed(after, ty) == merged(listed(before, ty), want)
            &&& listed(before, ty).is_prefix_of(listed(after, ty))
            &&& forall|i: int| 0 <= i < want.len() ==> has_key(listed(after, ty), #[trigger] want[i])
        }),
{
    let before = section_of(top, domain)->Ok_0;
    let existing = listed(before, ty);
    let more = additions(existing, want);
    lemma_additions(existing, want);
    law_merge_appends(existing, want);
    if more.len() == 0 {
        assert(existing + more =~= existing);
    } else {
        law_section_after_append(top, domain, ty, more);
    }
}

/// Syncing the same document a second time adds nothing and leaves the
/// manifest as it is.
pub proof fn law_sync_idempotent(
    top: Seq<(YamlView, YamlView)>,
    domain: Seq<char>,
    ty: Option<Seq<char>>,
    want: Seq<Scenario>,
)
    requires
        synced(top, domain, ty, want) is Ok,
    ensures
        ({
            let once = synced(top, domain, ty, want)->Ok_0.0;
            synced(once, domain, ty, want) matches Ok(twice) && twice.0 == once && twice.1.added == 0
                && twice.1.already_present == want.len()
        }),
{
    let once = synced(top, domain, ty, want)->Ok_0.0;
    let existing = listed(section_of(top, domain)->Ok_0, ty);
    law_sync_appends(top, domain, ty, want);
    law_merge_idempotent(existing, want);
    let now = listed(section_of(once, domain)->Ok_0, ty);
    assert(merged(now, want) == now);
    assert(additions(now, want) =~= Seq::<Scenario>::empty());
}

/// Syncing one domain leaves every other domain as it was.
pub proof fn law_sync_other_domains(
    top: Seq<(YamlView, YamlView)>,
    domain: Seq<char>,
    ty: Option<Seq<char>>,
    want: Seq<Scenario>,
    other: Seq<char>,
)
    requires
        synced(top, domain, ty, want) is Ok,
        other != domain,
    ensures
        section_of(synced(top, domain, ty, want)->Ok_0.0, other) == section_of(top, other),
{
    let existing = listed(section_of(top, domain)->Ok_0, ty);
    let more = additions(existing, want);
    if more.len() > 0 {
        let v = extended(lookup(domains_in(top), domain), domain, ty, more)->Ok_0;
        law_other_domains_untouched(top, domain, v, other);
    }
}

/// Syncing a document for one API type of a domain leaves its other API types
/// as they were.
pub proof fn law_sync_other_types(
    top: Seq<(YamlView, YamlView)>,
    domain: Seq<char>,
    ty: Option<Seq<char>>,
    want: Seq<Scenario>,
    other: Option<Seq<char>>,
)
    requires
        synced(top, domain, ty, want) is Ok,
        other != ty,
    ensures
        section_of(top, domain) matches Ok(before) && (section_of(synced(top, domain, ty, want)->Ok_0.0, domain) matches Ok(
            after,
        ) && listed(after, other) == listed(before, other)),
{
    let more = additions(listed(section_of(top, domain)->Ok_0, ty), want);
    if more.len() > 0 {
        law_other_types_untouched(top, domain, ty, more, other);
    }
}

/// How far the sync of the documents of a domain has come.
pub struct Progress {
    pub top: Seq<(YamlView, YamlView)>,
    pub notes: Seq<Seq<char>>,
    pub done: Seq<Outcome>,
    pub failed: Option<Seq<char>>,
}

/// The progress once one more document is taken: a document that is not there
/// is passed over, and the first that fails is the last that is taken.
pub open spec fn step(domain: Seq<char>, p: Progress, source: (DomainBucket, SpecText)) -> Progress {
    let ty = text_of(source.0.api_type);
    if p.failed is Some {
        p
    } else {
        match document_in(source.0.spec_path@, source.1) {
            Err(e) => Progress { failed: Some(e), ..p },
            Ok(None) => p,
            Ok(Some(spec)) => {
                let notes = p.notes + sync_notes(p.top, domain, ty, spec, true);
                match synced(p.top, domain, ty, derived(spec)) {
                    Err(e) => Progress { notes, failed: Some(e), ..p },
                    Ok(r) => Progress { top: r.0, notes, done: p.done.push(r.1), failed: None },
                }
            },
        }
    }
}

/// The progress once all documents are taken, in order.
pub open spec fn progress(
    domain: Seq<char>,
    top: Seq<(YamlView, YamlView)>,
    sources: Seq<(DomainBucket, SpecText)>,
) -> Progress
    decreases sources.len(),
{
    if sources.len() == 0 {
        Progress { top, notes: Seq::empty(), done: Seq::empty(), failed: None }
    } else {
        step(domain, progress(domain, top, sources.drop_last()), sources.last())
    }
}

proof fn lemma_progress_failed(
    domain: Seq<char>,
    top: Seq<(YamlView, YamlView)>,
    sources: Seq<(DomainBucket, SpecText)>,
    n: int,
)
    requires
        0 <= n <= sources.len(),
        progress(domain, top, sources.take(n)).failed is Some,
    ensures
        progress(domain, top, sources) == progress(domain, top, sources.take(n)),
    decreases sources.len() - n,
{
    if n == sources.len() {
        assert(sources.take(n) =~= sources);
    } else {
        assert(sources.take(n + 1).drop_last() =~= sources.take(n));
        lemma_progress_failed(domain, top, sources, n + 1);
    }
}

/// Whether a domain lists a scenario for everything that a document asks for;
/// so does it for a document that is not there.
pub open spec fn covered(top: Seq<(YamlView, YamlView)>, domain: Seq<char>, source: (DomainBucket, SpecText)) -> bool {
    document_in(source.0.spec_path@, source.1) matches Ok(doc) && (doc matches Some(spec) ==> (section_of(
        top,
        domain,
    ) matches Ok(section) && forall|i: int|
        0 <= i < derived(spec).len() ==> has_key(
            listed(section, text_of(source.0.api_type)),
            #[trigger] derived(spec)[i],
        )))
}

proof fn lemma_covered_step(domain: Seq<char>, p: Progress, source: (DomainBucket, SpecText), earlier: (DomainBucket, SpecText))
    requires
        step(domain, p, source).failed is None,
        earlier != source ==> covered(p.top, domain, earlier),
    ensures
        covered(step(domain, p, source).top, domain, earlier),
{
    let ty = text_of(source.0.api_type);
    if let Ok(Some(spec)) = document_in(source.0.spec_path@, source.1) {
        let after = step(domain, p, source).top;
        law_sync_appends(p.top, domain, ty, derived(spec));
        if earlier != source {
            if let Ok(Some(had)) = document_in(earlier.0.spec_path@, earlier.1) {
                let u = text_of(earlier.0.api_type);
                let was = listed(section_of(p.top, domain)->Ok_0, u);
                let now = listed(section_of(after, domain)->Ok_0, u);
                if u != ty {
                    law_sync_other_types(p.top, domain, ty, derived(spec), u);
                }
                assert(was.is_prefix_of(now));
                assert forall|i: int| 0 <= i < derived(had).len() implies has_key(now, #[trigger] derived(had)[i]) by {
                    assert(has_key(was, derived(had)[i]));
                    let k = choose|k: int| 0 <= k < was.len() && same_key(#[trigger] was[k], derived(had)[i]);
                    assert(same_key(now[k], derived(had)[i]));
                }
            }
        }
    }
}

proof fn lemma_all_covered(domain: Seq<char>, top: Seq<(YamlView, YamlView)>, sources: Seq<(DomainBucket, SpecText)>)
    requires
        progress(domain, top, sources).failed is None,
    ensures
        forall|i: int|
            0 <= i < sources.len() ==> covered(progress(domain, top, sources).top, domain, #[trigger] sources[i]),
    decreases sources.len(),
{
    if sources.len() > 0 {
        let less = sources.drop_last();
        let p = progress(domain, top, less);
        lemma_all_covered(domain, top, less);
        assert forall|i: int| 0 <= i < sources.len() implies covered(
            progress(domain, top, sources).top,
            domain,
            #[trigger] sources[i],
        ) by {
            if i < less.len() {
                assert(covered(p.top, domain, less[i]));
            }
            lemma_covered_step(domain, p, sources.last(), sources[i]);
        }
    }
}

proof fn lemma_run_of_covered(domain: Seq<char>, top: Seq<(YamlView, YamlView)>, sources: Seq<(DomainBucket, SpecText)>)
    requires
        forall|i: int| 0 <= i < sources.len() ==> covered(top, domain, #[trigger] sources[i]),
    ensures
        ({
            let p = progress(domain, top, sources);
            &&& p.failed is None
            &&& p.top == top
            &&& total_added(p.done) == 0
        }),
    decreases sources.len(),
{
    if sources.len() > 0 {
        let less = sources.drop_last();
        assert forall|i: int| 0 <= i < less.len() implies covered(top, domain, #[trigger] less[i]) by {
            assert(covered(top, domain, sources[i]));
        }
        lemma_run_of_covered(domain, top, less);
        let p = progress(domain, top, less);
        let source = sources.last();
        assert(covered(top, domain, sources[sources.len() - 1]));
        if let Ok(Some(spec)) = document_in(source.0.spec_path@, source.1) {
            let now = listed(section_of(top, domain)->Ok_0, text_of(source.0.api_type));
            lemma_merge_of_present(now, derived(spec));
            assert(additions(now, derived(spec)) =~= Seq::<Scenario>::empty());
            let done = progress(domain, top, sources).done;
            assert(done.drop_last() =~= p.done);
        }
    }
}

/// Syncing all documents of a domain a second time adds nothing and leaves the
/// manifest as it is.
pub proof fn law_run_idempotent(domain: Seq<char>, top: Seq<(YamlView, YamlView)>, sources: Seq<(DomainBucket, SpecText)>)
    requires
        progress(domain, top, sources).failed is None,
    ensures
        ({
            let once = progress(domain, top, sources).top;
            let again = progress(domain, once, sources);
            &&& again.failed is None
            &&& again.top == once
            &&& total_added(again.done) == 0
        }),
{
    lemma_all_covered(domain, top, sources);
    lemma_run_of_covered(domain, progress(domain, top, sources).top, sources);
}

/// Whether the API type and all that a document asks for are plain texts.
pub open spec fn plain_source(source: (DomainBucket, SpecText)) -> bool {
    &&& text_of(source.0.api_type) matches Some(t) ==> plain_text(t)
    &&& document_in(source.0.spec_path@, source.1) matches Ok(doc) ==> (doc matches Some(spec) ==> plain_scenarios(
        derived(spec),
    ))
}

/// Syncing documents of plain texts keeps a plain manifest plain.
proof fn lemma_run_plain(domain: Seq<char>, top: Seq<(YamlView, YamlView)>, sources: Seq<(DomainBucket, SpecText)>)
    requires
        plain(YamlView::Mapping(top), PLAIN_DEPTH as nat),
        plain_text(domain),
        forall|i: int| 0 <= i < sources.len() ==> plain_source(#[trigger] sources[i]),
    ensures
        plain(YamlView::Mapping(progress(domain, top, sources).top), PLAIN_DEPTH as nat),
    decreases sources.len(),
{
    if sources.len() > 0 {
        let less = sources.drop_last();
        let source = sources.last();
        assert forall|i: int| 0 <= i < less.len() implies plain_source(#[trigger] less[i]) by {
            assert(plain_source(sources[i]));
        }
        lemma_run_plain(domain, top, less);
        assert(plain_source(sources[sources.len() - 1]));
        let p = progress(domain, top, less);
        let ty = text_of(source.0.api_type);
        if let Ok(Some(spec)) = document_in(source.0.spec_path@, source.1) {
            let want = derived(spec);
            if synced(p.top, domain, ty, want) is Ok {
                let existing = listed(section_of(p.top, domain)->Ok_0, ty);
                let more = additions(existing, want);
                law_merge_appends(existing, want);
                assert forall|i: int| 0 <= i < more.len() implies plain_scenario(#[trigger] more[i]) by {
                    assert(more[i] == merged(existing, want)[existing.len() + i]);
                    assert(want.contains(merged(existing, want)[existing.len() + i]));
                    let k = choose|k: int| 0 <= k < want.len() && want[k] == more[i];
                    assert(plain_scenario(want[k]));
                }
                if more.len() > 0 {
                    law_plain_after_append(p.top, domain, ty, more);
                }
            }
        }
    }
}

/// A manifest that was synced, saved and read again has everything that the
/// documents ask for: syncing them once more adds nothing and leaves it as it
/// is.
pub proof fn law_saved_run_idempotent(
    domain: Seq<char>,
    top: Seq<(YamlView, YamlView)>,
    sources: Seq<(DomainBucket, SpecText)>,
    path: Seq<char>,
    t: Seq<char>,
)
    requires
        plain(YamlView::Mapping(top), PLAIN_DEPTH as nat),
        plain_text(domain),
        forall|i: int| 0 <= i < sources.len() ==> plain_source(#[trigger] sources[i]),
        progress(domain, top, sources).failed is None,
        saved_as(progress(domain, top, sources).top, t),
    ensures
        manifest_pairs(path, Some(t)) matches Ok(read) && {
            let again = progress(domain, read, sources);
            &&& again.failed is None
            &&& again.top == read
            &&& total_added(again.done) == 0
        },
{
    lemma_run_plain(domain, top, sources);
    law_run_idempotent(domain, top, sources);
    assert(manifest_pairs(path, Some(t)) == Ok::<Seq<(YamlView, YamlView)>, Seq<char>>(
        progress(domain, top, sources).top,
    ));
}

/// What the reports say.
pub open spec fn outcomes(v: Seq<BucketReport>) -> Seq<Outcome> {
    v.map_values(|o: BucketReport| o@)
}

/// What syncing a domain came to: the notes for the user, and the reports or
/// what went wrong.
pub struct SyncRun {
    pub notes: Vec<String>,
    pub result: Result<Vec<BucketReport>, String>,
}

/// Syncs the documents of a domain into the manifest, in order.
pub fn sync(file: &mut ScenariosFile, domain: &str, sources: &Vec<(DomainBucket, SpecText)>) -> (r: SyncRun)
    ensures
        final(file).path == old(file).path,
        ({
            let p = progress(domain@, old(file).pairs(), sources@);
            &&& final(file).pairs() == p.top
            &&& views(r.notes@) == p.notes
            &&& match r.result {
                Ok(v) => p.failed is None && outcomes(v@) == p.done,
                Err(e) => p.failed == Some(e@),
            }
        }),
{
    let ghost top0 = file.pairs();
    let mut notes: Vec<String> = Vec::new();
    let mut done: Vec<BucketReport> = Vec::new();
    let mut i: usize = 0;
    assert(sources@.take(0) =~= Seq::<(DomainBucket, SpecText)>::empty());
    assert(views(notes@) =~= Seq::<Seq<char>>::empty());
    assert(outcomes(done@) =~= Seq::<Outcome>::empty());
    while i < sources.len()
        invariant
            0 <= i <= sources@.len(),
            file.path == old(file).path,
            top0 == old(file).pairs(),
            progress(domain@, top0, sources@.take(i as int)) == (Progress {
                top: file.pairs(),
                notes: views(notes@),
                done: outcomes(done@),
                failed: None,
            }),
        decreases sources.len() - i,
    {
        let ghost p = progress(domain@, top0, sources@.take(i as int));
        assert(sources@.take(i + 1).drop_last() =~= sources@.take(i as int));
        assert(progress(domain@, top0, sources@.take(i + 1)) == step(domain@, p, sources@[i as int]));
        let bucket = &sources[i].0;
        match read_document(bucket.spec_path.as_str(), &sources[i].1) {
            Err(e) => {
                proof {
                    lemma_progress_failed(domain@, top0, sources@, i + 1);
                }
                return SyncRun { notes, result: Err(e) };
            },
            Ok(None) => {},
            Ok(Some(spec)) => {
                let ty = borrowed(&bucket.api_type);
                match sync_spec(file, domain, ty, &spec, true, &mut notes) {
                    Err(e) => {
                        proof {
                            lemma_progress_failed(domain@, top0, sources@, i + 1);
                        }
                        return SyncRun { notes, result: Err(e) };
                    },
                    Ok(o) => {
                        let ghost before = done@;
                        done.push(o);
                        assert(outcomes(done@) =~= outcomes(before).push(o@));
                    },
                }
            },
        }
        i = i + 1;
    }
    assert(sources@.take(sources@.len() as int) =~= sources@);
    SyncRun { notes, result: Ok(done) }
}

/// The largest number that can be shown, for numbers above it.
pub open spec fn capped(n: nat) -> u64 {
    if n <= u64::MAX {
        n as u64
    } else {
        u64::MAX
    }
}

/// The sum of the scenarios that were added.
pub open spec fn total_added(v: Seq<Outcome>) -> nat
    decreases v.len(),
{
    if v.len() == 0 {
        0
    } else {
        total_added(v.drop_last()) + v.last().added
    }
}

/// The sum of the scenarios that were there already.
pub open spec fn total_present(v: Seq<Outcome>) -> nat
    decreases v.len(),
{
    if v.len() == 0 {
        0
    } else {
        total_present(v.drop_last()) + v.last().already_present
    }
}

/// The sum of the scenarios that were orphaned.
pub open spec fn total_orphaned(v: Seq<Outcome>) -> nat
    decreases v.len(),
{
    if v.len() == 0 {
        0
    } else {
        total_orphaned(v.drop_last()) + v.last().orphaned
    }
}

fn plus(a: u64, b: usize) -> (r: u64)
    ensures
        r == capped((a + b) as nat),
{
    let b: u64 = b as u64;
    if b <= u64::MAX - a {
        a + b
    } else {
        u64::MAX
    }
}

/// The numbers of added, present and orphaned scenarios in all.
pub fn totals(v: &Vec<BucketReport>) -> (r: (u64, u64, u64))
    ensures
        r.0 == capped(total_added(outcomes(v@))),
        r.1 == capped(total_present(outcomes(v@))),
        r.2 == capped(total_orphaned(outcomes(v@))),
{
    let ghost all = outcomes(v@);
    let mut a: u64 = 0;
    let mut b: u64 = 0;
    let mut c: u64 = 0;
    let mut i: usize = 0;
    while i < v.len()
        invariant
            0 <= i <= v@.len(),
            all == outcomes(v@),
            a == capped(total_added(all.take(i as int))),
            b == capped(total_present(all.take(i as int))),
            c == capped(total_orphaned(all.take(i as int))),
        decreases v.len() - i,
    {
        assert(all.take(i + 1).drop_last() =~= all.take(i as int));
        assert(all[i as int] == v@[i as int]@);
        a = plus(a, v[i].added);
        b = plus(b, v[i].already_present);
        c = plus(c, v[i].orphaned);
        i = i + 1;
    }
    assert(all.take(all.len() as int) =~= all);
    (a, b, c)
}

/// Whether the manifest has to be written: where nothing was added, the file
/// stays as it is.
pub fn needs_save(v: &Vec<BucketReport>) -> (r: bool)
    ensures
        r == (total_added(outcomes(v@)) > 0),
{
    totals(v).0 > 0
}

/// A run that adds nothing leaves the manifest as it is, so that there is
/// nothing to write.
pub proof fn law_nothing_to_save(domain: Seq<char>, top: Seq<(YamlView, YamlView)>, sources: Seq<(DomainBucket, SpecText)>)
    requires
        total_added(progress(domain, top, sources).done) == 0,
    ensures
        progress(domain, top, sources).top == top,
    decreases sources.len(),
{
    if sources.len() > 0 {
        let less = sources.drop_last();
        let p = progress(domain, top, less);
        let q = progress(domain, top, sources);
        if q.done.len() > p.done.len() {
            assert(q.done.drop_last() =~= p.done);
        }
        law_nothing_to_save(domain, top, less);
    }
}

/// The report on one document, as JSON.
pub open spec fn outcome_json(o: Outcome) -> JsonView {
    let counts = seq![
        ("added"@, JsonView::Count(capped(o.added))),
        ("already_present"@, JsonView::Count(capped(o.already_present))),
        ("orphaned"@, JsonView::Count(capped(o.orphaned))),
    ];
    JsonView::Object(
        match o.api_type {
            Some(t) => seq![("api_type"@, JsonView::Text(t))] + counts,
            None => counts,
        },
    )
}

/// The report on a domain, as JSON.
pub open spec fn sync_json(domain: Seq<char>, multi_type: bool, v: Seq<Outcome>) -> JsonView {
    JsonView::Object(
        seq![
            ("domain"@, JsonView::Text(domain)),
            ("multi_type"@, JsonView::Bool(multi_type)),
            ("buckets"@, JsonView::Array(v.map_values(|o: Outcome| outcome_json(o)))),
            ("added"@, JsonView::Count(capped(total_added(v)))),
            ("already_present"@, JsonView::Count(capped(total_present(v)))),
            ("orphaned"@, JsonView::Count(capped(total_orphaned(v)))),
            ("scenarios_path"@, JsonView::Text("docs/test-scenarios.yaml"@)),
        ],
    )
}

fn report_json(o: &BucketReport) -> (r: Json)
    ensures
        r@ == outcome_json(o@),
{
    let mut m: Vec<(String, Json)> = Vec::new();
    assert(members(m@) =~= Seq::<(Seq<char>, JsonView)>::empty());
    if let Some(t) = &o.api_type {
        push_member(&mut m, "api_type", text(t.as_str()));
    }
    push_member(&mut m, "added", Json::Count(o.added as u64));
    push_member(&mut m, "already_present", Json::Count(o.already_present as u64));
    push_member(&mut m, "orphaned", Json::Count(o.orphaned as u64));
    assert(members(m@) =~= outcome_json(o@)->Object_0);
    object(m)
}

/// Whether the documents of a domain are split by API type.
pub fn is_multi_type(buckets: &Vec<DomainBucket>) -> (r: bool)
    ensures
        r == (buckets@.len() > 1 || (buckets@.len() == 1 && buckets@[0].api_type is Some)),
{
    buckets.len() > 1 || (buckets.len() == 1 && buckets[0].api_type.is_some())
}

/// The report on a domain, as JSON.
pub fn sync_report(domain: &str, multi_type: bool, v: &Vec<BucketReport>) -> (r: Json)
    ensures
        r@ == sync_json(domain@, multi_type, outcomes(v@)),
{
    let mut list: Vec<Json> = Vec::new();
    let mut i: usize = 0;
    while i < v.len()
        invariant
            0 <= i <= v@.len(),
            list@.len() == i,
            forall|k: int| 0 <= k < i ==> (#[trigger] list@[k])@ == outcome_json(v@[k]@),
        decreases v.len() - i,
    {
        list.push(report_json(&v[i]));
        i = i + 1;
    }
    assert(elements(list@) =~= outcomes(v@).map_values(|o: Outcome| outcome_json(o)));
    let t = totals(v);
    let mut m: Vec<(String, Json)> = Vec::new();
    push_member(&mut m, "domain", text(domain));
    push_member(&mut m, "multi_type", Json::Bool(multi_type));
    push_member(&mut m, "buckets", array(list));
    push_member(&mut m, "added", Json::Count(t.0));
    push_member(&mut m, "already_present", Json::Count(t.1));
    push_member(&mut m, "orphaned", Json::Count(t.2));
    push_member(&mut m, "scenarios_path", text("docs/test-scenarios.yaml"));
    assert(members(m@) =~= sync_json(domain@, multi_type, outcomes(v@))->Object_0);
    object(m)
}

/// The report on one document given by hand or by the code, as JSON.
pub open spec fn one_json(domain: Seq<char>, o: Outcome) -> JsonView {
    JsonView::Object(
        seq![
            ("domain"@, JsonView::Text(domain)),
            ("api_type"@, text_or_null(o.api_type)),
            ("added"@, JsonView::Count(capped(o.added))),
            ("already_present"@, JsonView::Count(capped(o.already_present))),
            ("scenarios_path"@, JsonView::Text("docs/test-scenarios.yaml"@)),
        ],
    )
}

/// The report on one document given by hand or by the code, as JSON.
pub fn one_report(domain: &str, o: &BucketReport) -> (r: Json)
    ensures
        r@ == one_json(domain@, o@),
{
    let mut m: Vec<(String, Json)> = Vec::new();
    push_member(&mut m, "domain", text(domain));
    push_member(&mut m, "api_type", optional_text(&o.api_type));
    push_member(&mut m, "added", Json::Count(o.added as u64));
    push_member(&mut m, "already_present", Json::Count(o.already_present as u64));
    push_member(&mut m, "scenarios_path", text("docs/test-scenarios.yaml"));
    assert(members(m@) =~= one_json(domain@, o@)->Object_0);
    object(m)
}

/// The scenarios of a section with this id, under this API type if one is
/// given.
pub open spec fn matching(
    v: Seq<(Option<Seq<char>>, Scenario)>,
    id: Seq<char>,
    ty: Option<Seq<char>>,
) -> Seq<(Option<Seq<char>>, Scenario)>
    decreases v.len(),
{
    if v.len() == 0 {
        Seq::empty()
    } else {
        let rest = matching(v.drop_last(), id, ty);
        if v.last().1.id == id && (ty is None || v.last().0 == ty) {
            rest.push(v.last())
        } else {
            rest
        }
    }
}

/// The API types of scenarios that have one, in order.
pub open spec fn types_in(v: Seq<(Option<Seq<char>>, Scenario)>) -> Seq<Seq<char>>
    decreases v.len(),
{
    if v.len() == 0 {
        Seq::empty()
    } else {
        match v.last().0 {
            Some(t) => types_in(v.drop_last()).push(t),
            None => types_in(v.drop_last()),
        }
    }
}

/// The one scenario of a domain that a skip means, or the message for why
/// there is none.
pub open spec fn meant(
    section: Result<Option<Section>, Seq<char>>,
    domain: Seq<char>,
    id: Seq<char>,
    ty: Option<Seq<char>>,
) -> Result<(Option<Seq<char>>, Scenario), Seq<char>> {
    match section {
        Err(e) => Err(e),
        Ok(None) => Err("domain '"@ + domain + "' has no entry in docs/test-scenarios.yaml"@),
        Ok(Some(s)) => {
            let found = matching(with_types(s), id, ty);
            if found.len() == 0 {
                let place = match ty {
                    Some(t) => " under api-type '"@ + t + "'"@,
                    None => Seq::empty(),
                };
                Err("scenario id '"@ + id + "' not found in domain '"@ + domain + "'"@ + place)
            } else if found.len() > 1 {
                Err(
                    "scenario id '"@ + id + "' is ambiguous in domain '"@ + domain + "' across api-types: "@ + joined(
                        types_in(found),
                        ", "@,
                    ) + " — pass --api-type to disambiguate"@,
                )
            } else {
                Ok(found[0])
            }
        },
    }
}

/// Whether a record is of this scenario.
pub open spec fn records(r: JsonView, domain: Seq<char>, id: Seq<char>, ty: Option<Seq<char>>) -> bool {
    text_member(r, "domain"@) == Some(domain) && text_member(r, "id"@) == Some(id) && text_member(r, "api_type"@) == ty
}

/// Whether one of the records is of this scenario.
pub open spec fn recorded(v: Seq<JsonView>, domain: Seq<char>, id: Seq<char>, ty: Option<Seq<char>>) -> bool {
    exists|i: int| 0 <= i < v.len() && records(#[trigger] v[i], domain, id, ty)
}

/// The members that name a scenario.
pub open spec fn skip_members(domain: Seq<char>, e: Scenario, id: Seq<char>, ty: Option<Seq<char>>) -> Seq<
    (Seq<char>, JsonView),
> {
    let named = seq![
        ("domain"@, JsonView::Text(domain)),
        ("endpoint"@, JsonView::Text(e.endpoint)),
        ("id"@, JsonView::Text(id)),
    ];
    match ty {
        Some(t) => named.push(("api_type"@, JsonView::Text(t))),
        None => named,
    }
}

/// The record of a skip.
pub open spec fn skip_record(domain: Seq<char>, e: Scenario, id: Seq<char>, ty: Option<Seq<char>>) -> JsonView {
    JsonView::Object(skip_members(domain, e, id, ty))
}

/// The records once a skip is recorded; one that is there stays alone.
pub open spec fn records_after(v: Seq<JsonView>, domain: Seq<char>, e: Scenario, id: Seq<char>, ty: Option<Seq<char>>) -> Seq<
    JsonView,
> {
    if recorded(v, domain, id, ty) {
        v
    } else {
        v.push(skip_record(domain, e, id, ty))
    }
}

/// A skip that was recorded is found, so that recording it again changes
/// nothing; the records that were there stay as they were.
pub proof fn law_skip_idempotent(v: Seq<JsonView>, domain: Seq<char>, e: Scenario, id: Seq<char>, ty: Option<Seq<char>>)
    ensures
        recorded(records_after(v, domain, e, id, ty), domain, id, ty),
        v.is_prefix_of(records_after(v, domain, e, id, ty)),
        records_after(records_after(v, domain, e, id, ty), domain, e, id, ty) == records_after(v, domain, e, id, ty),
{
    let after = records_after(v, domain, e, id, ty);
    if !recorded(v, domain, id, ty) {
        let r = skip_record(domain, e, id, ty);
        let m = skip_members(domain, e, id, ty);
        reveal_strlit("domain");
        reveal_strlit("endpoint");
        reveal_strlit("id");
        reveal_strlit("api_type");
        assert("domain"@.len() == 6 && "endpoint"@.len() == 8 && "id"@.len() == 2 && "api_type"@.len() == 8);
        assert("endpoint"@[0] != "api_type"@[0]);
        assert(m[0].0 == "domain"@ && m[1].0 == "endpoint"@ && m[2].0 == "id"@);
        assert(member_from(m, "domain"@, 0) == Some(0int));
        assert(member_from(m, "id"@, 2) == Some(2int));
        assert(member_from(m, "id"@, 1) == Some(2int));
        assert(member_from(m, "id"@, 0) == Some(2int));
        assert(member_from(m, "api_type"@, 4) is None);
        assert(member_from(m, "api_type"@, 3) == (if ty is Some {
            Some(3int)
        } else {
            None
        }));
        assert(member_from(m, "api_type"@, 2) == member_from(m, "api_type"@, 3));
        assert(member_from(m, "api_type"@, 1) == member_from(m, "api_type"@, 3));
        assert(member_from(m, "api_type"@, 0) == member_from(m, "api_type"@, 3));
        assert(records(r, domain, id, ty));
        assert(records(after[v.len() as int], domain, id, ty));
    }
}

fn matching_entries<'a>(v: &Vec<(Option<&'a str>, &'a ScenarioEntry)>, id: &str, ty: Option<&str>) -> (r: Vec<
    (Option<&'a str>, &'a ScenarioEntry),
>)
    ensures
        typed_views(r@) == matching(typed_views(v@), id@, shown(ty)),
{
    let ghost all = typed_views(v@);
    let mut out: Vec<(Option<&'a str>, &'a ScenarioEntry)> = Vec::new();
    let mut i: usize = 0;
    assert(all.take(0) =~= Seq::<(Option<Seq<char>>, Scenario)>::empty());
    assert(typed_views(out@) =~= Seq::<(Option<Seq<char>>, Scenario)>::empty());
    while i < v.len()
        invariant
            0 <= i <= v@.len(),
            all == typed_views(v@),
            typed_views(out@) == matching(all.take(i as int), id@, shown(ty)),
        decreases v.len() - i,
    {
        assert(all.take(i + 1).drop_last() =~= all.take(i as int));
        assert(all[i as int] == (shown(v@[i as int].0), v@[i as int].1@));
        let right_type = match (ty, v[i].0) {
            (None, _) => true,
            (Some(t), Some(u)) => same(t, u),
            (Some(_), None) => false,
        };
        if right_type && same(v[i].1.id.as_str(), id) {
            let ghost before = out@;
            out.push((v[i].0, v[i].1));
            assert(typed_views(out@) =~= typed_views(before).push(all[i as int]));
        }
        i = i + 1;
    }
    assert(all.take(all.len() as int) =~= all);
    out
}

fn types_of(v: &Vec<(Option<&str>, &ScenarioEntry)>) -> (r: Vec<String>)
    ensures
        views(r@) == types_in(typed_views(v@)),
{
    let ghost all = typed_views(v@);
    let mut out: Vec<String> = Vec::new();
    let mut i: usize = 0;
    assert(all.take(0) =~= Seq::<(Option<Seq<char>>, Scenario)>::empty());
    assert(views(out@) =~= Seq::<Seq<char>>::empty());
    while i < v.len()
        invariant
            0 <= i <= v@.len(),
            all == typed_views(v@),
            views(out@) == types_in(all.take(i as int)),
        decreases v.len() - i,
    {
        assert(all.take(i + 1).drop_last() =~= all.take(i as int));
        assert(all[i as int] == (shown(v@[i as int].0), v@[i as int].1@));
        if let Some(t) = v[i].0 {
            let ghost before = out@;
            out.push(t.to_owned());
            assert(views(out@) =~= views(before).push(t@));
        }
        i = i + 1;
    }
    assert(all.take(all.len() as int) =~= all);
    out
}

/// The one scenario of a domain that a skip means.
pub fn find_scenario(file: &ScenariosFile, domain: &str, id: &str, ty: Option<&str>) -> (r: Result<
    (Option<String>, ScenarioEntry),
    String,
>)
    ensures
        (match r {
            Ok(p) => meant(section_of(file.pairs(), domain@), domain@, id@, shown(ty)) == Ok::<
                (Option<Seq<char>>, Scenario),
                Seq<char>,
            >((text_of(p.0), p.1@)),
            Err(e) => meant(section_of(file.pairs(), domain@), domain@, id@, shown(ty)) == Err::<
                (Option<Seq<char>>, Scenario),
                Seq<char>,
            >(e@),
        }),
{
    let section = match file.section(domain) {
        Err(e) => {
            return Err(e);
        },
        Ok(None) => {
            let mut e: String = "domain '".to_owned();
            e.append(domain);
            e.append("' has no entry in docs/test-scenarios.yaml");
            return Err(e);
        },
        Ok(Some(s)) => s,
    };
    let all = section.iter_with_type();
    let found = matching_entries(&all, id, ty);
    assert(typed_views(found@).len() == found@.len());
    if found.len() == 0 {
        let mut e: String = "scenario id '".to_owned();
        e.append(id);
        e.append("' not found in domain '");
        e.append(domain);
        e.append("'");
        match ty {
            Some(t) => {
                let mut place: String = " under api-type '".to_owned();
                place.append(t);
                place.append("'");
                e.append(place.as_str());
            },
            None => {
                assert(e@ + Seq::<char>::empty() =~= e@);
            },
        }
        return Err(e);
    }
    if found.len() > 1 {
        let mut e: String = "scenario id '".to_owned();
        e.append(id);
        e.append("' is ambiguous in domain '");
        e.append(domain);
        e.append("' across api-types: ");
        e.append(join(&types_of(&found), ", ").as_str());
        e.append(" — pass --api-type to disambiguate");
        return Err(e);
    }
    assert(typed_views(found@)[0] == (shown(found@[0].0), found@[0].1@));
    Ok((owned(found[0].0), found[0].1.clone()))
}

fn same_optional(a: Option<&String>, b: Option<&str>) -> (r: bool)
    ensures
        r == (match (a, b) {
            (Some(x), Some(y)) => x@ == y@,
            (None, None) => true,
            _ => false,
        }),
{
    match (a, b) {
        (Some(x), Some(y)) => same(x.as_str(), y),
        (None, None) => true,
        _ => false,
    }
}

/// Whether one of the records is of this scenario.
pub fn is_recorded(v: &Vec<Json>, domain: &str, id: &str, ty: Option<&str>) -> (r: bool)
    ensures
        r == recorded(elements(v@), domain@, id@, shown(ty)),
{
    let mut i: usize = 0;
    while i < v.len()
        invariant
            0 <= i <= v@.len(),
            forall|k: int| 0 <= k < i ==> !records(#[trigger] elements(v@)[k], domain@, id@, shown(ty)),
        decreases v.len() - i,
    {
        assert(elements(v@)[i as int] == v@[i as int]@);
        if same_optional(get_text(&v[i], "domain"), Some(domain)) && same_optional(get_text(&v[i], "id"), Some(id))
            && same_optional(get_text(&v[i], "api_type"), ty) {
            assert(records(elements(v@)[i as int], domain@, id@, shown(ty)));
            return true;
        }
        i = i + 1;
    }
    false
}

fn named_members(domain: &str, endpoint: &str, id: &str, ty: Option<&str>, e: Ghost<Scenario>) -> (r: Vec<(String, Json)>)
    requires
        e@.endpoint == endpoint@,
    ensures
        members(r@) == skip_members(domain@, e@, id@, shown(ty)),
{
    let mut m: Vec<(String, Json)> = Vec::new();
    push_member(&mut m, "domain", text(domain));
    push_member(&mut m, "endpoint", text(endpoint));
    push_member(&mut m, "id", text(id));
    if let Some(t) = ty {
        push_member(&mut m, "api_type", text(t));
    }
    assert(members(m@) =~= skip_members(domain@, e@, id@, shown(ty)));
    m
}

/// The records once a skip is recorded, and whether it was there already.
pub fn record_skip(v: Vec<Json>, domain: &str, e: &ScenarioEntry, id: &str, ty: Option<&str>) -> (r: (Vec<Json>, bool))
    ensures
        elements(r.0@) == records_after(elements(v@), domain@, e@, id@, shown(ty)),
        r.1 == recorded(elements(v@), domain@, id@, shown(ty)),
        r.1 ==> r.0 == v,
{
    if is_recorded(&v, domain, id, ty) {
        return (v, true);
    }
    let mut out = v;
    let record = object(named_members(domain, e.endpoint.as_str(), id, ty, Ghost(e@)));
    out.push(record);
    assert(elements(out@) =~= elements(v@).push(record@));
    (out, false)
}

/// The records in the text of `skipped-scenarios.json`, where there is one.
pub open spec fn skipped_in(t: Option<Seq<char>>) -> Result<Seq<JsonView>, Seq<char>> {
    match t {
        None => Ok(Seq::empty()),
        Some(s) => if trimmed(s).len() == 0 {
            Ok(Seq::empty())
        } else {
            json_list(s)
        },
    }
}

/// What a skip comes to: the text to write, if there is any to write, and the
/// answer.
pub struct SkipRun {
    pub write: Option<String>,
    pub response: Json,
}

/// The answer to a skip.
pub open spec fn skip_json(
    domain: Seq<char>,
    e: Scenario,
    id: Seq<char>,
    ty: Option<Seq<char>>,
    already: bool,
    path: Seq<char>,
) -> JsonView {
    JsonView::Object(
        skip_members(domain, e, id, ty).push(("already_present"@, JsonView::Bool(already))).push(
            ("path"@, JsonView::Text(path)),
        ),
    )
}

/// What a skip comes to, as texts.
pub open spec fn skipping(
    section: Result<Option<Section>, Seq<char>>,
    run: Seq<char>,
    domain: Seq<char>,
    id: Seq<char>,
    ty: Option<Seq<char>>,
    skipped: Option<Seq<char>>,
) -> Result<(Option<Seq<char>>, JsonView), Seq<char>> {
    match meant(section, domain, id, ty) {
        Err(e) => Err(e),
        Ok(found) => match skipped_in(skipped) {
            Err(e) => Err(e),
            Ok(v) => {
                let already = recorded(v, domain, id, found.0);
                let after = records_after(v, domain, found.1, id, found.0);
                let write = if already {
                    None
                } else {
                    Some(pretty_text(JsonView::Array(after)) + "\n"@)
                };
                Ok(
                    (
                        write,
                        skip_json(
                            domain,
                            found.1,
                            id,
                            found.0,
                            already,
                            below(run, "skipped-scenarios.json"@),
                        ),
                    ),
                )
            },
        },
    }
}

/// The directory of a run, given as `run`, where it is one.
pub fn skip_run_dir(cwd: &str, run: &str, is_dir: bool) -> (r: Result<String, String>)
    ensures
        (match r {
            Ok(dir) => is_dir && dir@ == below(cwd@, run@),
            Err(e) => !is_dir && e@ == "run dir missing: "@ + run@,
        }),
{
    if is_dir {
        return Ok(join_path(cwd, run));
    }
    let mut e: String = "run dir missing: ".to_owned();
    e.append(run);
    Err(e)
}

/// Records that are alike are of the same scenarios.
proof fn lemma_alike_recorded(a: JsonView, b: JsonView, domain: Seq<char>, id: Seq<char>, ty: Option<Seq<char>>)
    requires
        a is Array,
        alike(a, b),
        recorded(a->Array_0, domain, id, ty),
    ensures
        b is Array,
        recorded(b->Array_0, domain, id, ty),
{
    lemma_alike_items(a, b);
    let v = a->Array_0;
    let w = b->Array_0;
    let i = choose|i: int| 0 <= i < v.len() && records(#[trigger] v[i], domain, id, ty);
    assert(alike(v[i], w[i]));
    lemma_alike_member(v[i], w[i], "domain"@);
    lemma_alike_member(v[i], w[i], "id"@);
    lemma_alike_member(v[i], w[i], "api_type"@);
    assert(records(w[i], domain, id, ty));
}

proof fn lemma_proper_records(v: JsonView, domain: Seq<char>, e: Scenario, id: Seq<char>, ty: Option<Seq<char>>)
    requires
        v is Array,
        proper(v, MOST_LEVELS as nat),
    ensures
        proper(JsonView::Array(records_after(v->Array_0, domain, e, id, ty)), MOST_LEVELS as nat),
{
    let before = v->Array_0;
    let after = records_after(before, domain, e, id, ty);
    let m = skip_members(domain, e, id, ty);
    reveal_strlit("domain");
    reveal_strlit("endpoint");
    reveal_strlit("id");
    reveal_strlit("api_type");
    assert("domain"@.len() == 6 && "endpoint"@.len() == 8 && "id"@.len() == 2 && "api_type"@.len() == 8);
    assert("endpoint"@[0] != "api_type"@[0]);
    assert(distinct_names(m));
    lemma_proper_flat(m, (MOST_LEVELS - 1) as nat);
    assert forall|i: int| 0 <= i < after.len() implies proper(#[trigger] after[i], (MOST_LEVELS - 1) as nat) by {
        if i < before.len() {
            assert(after[i] == before[i]);
        }
    }
    lemma_proper_array(after, MOST_LEVELS as nat);
}

/// Records that a run skips a scenario, given the text of the run's
/// `skipped-scenarios.json`, where it has one. A skip that is recorded already
/// has nothing written, and once what is to be written is there, the skip is
/// recorded.
pub fn skip(
    file: &ScenariosFile,
    run: &str,
    domain: &str,
    id: &str,
    api_type: Option<&str>,
    skipped: Option<&str>,
) -> (r: Result<SkipRun, String>)
    ensures
        (match r {
            Ok(s) => skipping(section_of(file.pairs(), domain@), run@, domain@, id@, shown(api_type), shown(skipped))
                == Ok::<(Option<Seq<char>>, JsonView), Seq<char>>((text_of(s.write), s.response@)),
            Err(e) => skipping(section_of(file.pairs(), domain@), run@, domain@, id@, shown(api_type), shown(skipped))
                == Err::<(Option<Seq<char>>, JsonView), Seq<char>>(e@),
        }),
        r matches Ok(s) ==> (s.write matches Some(t) ==> skipping(
            section_of(file.pairs(), domain@),
            run@,
            domain@,
            id@,
            shown(api_type),
            Some(t@),
        ) matches Ok((None, _))),
{
    let (ty, entry) = match find_scenario(file, domain, id, api_type) {
        Ok(p) => p,
        Err(e) => {
            return Err(e);
        },
    };
    let mut current: Vec<Json> = Vec::new();
    assert(elements(current@) =~= Seq::<JsonView>::empty());
    proof {
        lemma_proper_array(elements(current@), MOST_LEVELS as nat);
    }
    if let Some(t) = skipped {
        if !trim(t).as_str().is_empty() {
            match parse_json_list(t) {
                Ok(v) => {
                    current = v;
                },
                Err(e) => {
                    return Err(e);
                },
            }
        }
    }
    let path = join_path(run, "skipped-scenarios.json");
    let ghost before = JsonView::Array(elements(current@));
    let (after, already) = record_skip(current, domain, &entry, id, borrowed(&ty));
    proof {
        lemma_proper_records(before, domain@, entry@, id@, text_of(ty));
        law_skip_idempotent(elements(current@), domain@, entry@, id@, text_of(ty));
    }
    let write = if already {
        None
    } else {
        let mut out = render_pretty(&array(after));
        let ghost told = out@;
        let ghost list = JsonView::Array(records_after(elements(current@), domain@, entry@, id@, text_of(ty)));
        out.append("\n");
        proof {
            assert(tells(told, list));
            lemma_alike_recorded(list, JsonView::Array(json_list(out@)->Ok_0), domain@, id@, text_of(ty));
        }
        Some(out)
    };
    let mut m = named_members(domain, entry.endpoint.as_str(), id, borrowed(&ty), Ghost(entry@));
    push_member(&mut m, "already_present", Json::Bool(already));
    push_member(&mut m, "path", text(path.as_str()));
    Ok(SkipRun { write, response: object(m) })
}

/// A domain has a document for each API type that has a directory, in this
/// order, and a single one without a type where none has.
pub proof fn law_layout(dir: Seq<char>, web: bool, micro: bool, open_api: bool)
    ensures
        ({
            let v = layout(dir, web, micro, open_api);
            let first = (Some("web-api"@), below(below(dir, "web-api"@), "api-spec.yaml"@));
            let second = (Some("microservice-api"@), below(below(dir, "microservice-api"@), "api-spec.yaml"@));
            let third = (Some("open-api"@), below(below(dir, "open-api"@), "api-spec.yaml"@));
            let flat = (None::<Seq<char>>, below(dir, "api-spec.yaml"@));
            let n = (if web {
                1int
            } else {
                0
            }) + (if micro {
                1int
            } else {
                0
            }) + (if open_api {
                1int
            } else {
                0
            });
            &&& n > 0 ==> v.len() == n
            &&& n == 0 ==> v == seq![flat]
            &&& web ==> v[0] == first
            &&& micro ==> v[if web {
                1
            } else {
                0
            }] == second
            &&& open_api ==> v.last() == third
        }),
{
}

/// A document that is not there is nothing wrong for a domain, and is for a
/// proposal; one that cannot be read or parsed is told with its path.
pub proof fn law_documents(given: Seq<char>, path: Seq<char>, e: String, t: String)
    ensures
        document_in(path, SpecText::Absent) == Ok::<Option<ApiSpec>, Seq<char>>(None),
        document_in(path, SpecText::Unreadable(e)) == Err::<Option<ApiSpec>, Seq<char>>(
            "failed to read "@ + path + ": "@ + e@,
        ),
        proposed_in(given, path, SpecText::Absent) == Err::<ApiSpec, Seq<char>>(
            "proposed-api.yaml not found: "@ + given,
        ),
        proposed_in(given, path, SpecText::Unreadable(e)) == Err::<ApiSpec, Seq<char>>(
            "reading "@ + path + ": "@ + e@,
        ),
        openapi_document(t@) matches Ok(spec) ==> document_in(path, SpecText::Text(t)) == Ok::<
            Option<ApiSpec>,
            Seq<char>,
        >(Some(spec)) && proposed_in(given, path, SpecText::Text(t)) == Ok::<ApiSpec, Seq<char>>(spec),
        openapi_document(t@) matches Err(w) ==> document_in(path, SpecText::Text(t)) == Err::<
            Option<ApiSpec>,
            Seq<char>,
        >("failed to parse OpenAPI v3 from "@ + path + ": "@ + w@) && proposed_in(given, path, SpecText::Text(t)) == Err::<
            ApiSpec,
            Seq<char>,
        >("parsing "@ + path + " as OpenAPI 3.x: "@ + w@),
{
}

/// What the running controllers tell counts only where the command succeeded
/// and its answer says so and holds a document.
pub proof fn law_shown_document(domain: Seq<char>, stdout: Seq<u8>, v: JsonView, s: JsonView)
    ensures
        shown_document(domain, false, stdout) == Err::<ApiSpec, Seq<char>>(
            "jkit api-spec show "@ + domain + " failed: "@ + trimmed(lossy_text(stdout)),
        ),
        member(v, "ok"@) == Some(JsonView::Bool(true)) && member(v, "spec"@) == Some(s) ==> shown_spec(domain, Ok(v)) == Ok::<
            JsonView,
            Seq<char>,
        >(s),
        member(v, "ok"@) == Some(JsonView::Bool(true)) && member(v, "spec"@) is None ==> shown_spec(domain, Ok(v)) == Err::<
            JsonView,
            Seq<char>,
        >("jkit api-spec show output missing `spec` field"@),
        member(v, "ok"@) != Some(JsonView::Bool(true)) ==> shown_spec(domain, Ok(v)) == Err::<JsonView, Seq<char>>(
            "jkit api-spec show "@ + domain + " returned ok:false: "@ + compact_text(v),
        ),
        json_in_bytes(stdout) == Ok::<JsonView, Seq<char>>(v) && member(v, "ok"@) == Some(JsonView::Bool(true))
            && member(v, "spec"@) == Some(s) ==> (match openapi_value(s) {
            Ok(spec) => shown_document(domain, true, stdout) == Ok::<ApiSpec, Seq<char>>(spec),
            Err(e) => shown_document(domain, true, stdout) == Err::<ApiSpec, Seq<char>>(
                "parsing api-spec output as OpenAPI 3.x: "@ + e@,
            ),
        }),
        shown_document(domain, true, stdout) is Ok ==> json_in_bytes(stdout) is Ok,
{
}

/// An entry is told as orphaned exactly where no scenario of the document has
/// its endpoint; each is told once, in order, with its endpoint and its id.
pub proof fn law_orphans_at_their_places(ty: Option<Seq<char>>, existing: Seq<Scenario>, want: Seq<Scenario>) -> (at: Seq<
    int,
>)
    ensures
        keeps_places(
            at,
            existing.len(),
            |k: int| forall|i: int| 0 <= i < want.len() ==> (#[trigger] want[i]).endpoint != existing[k].endpoint,
        ),
        orphan_notes(ty, existing, want).len() == at.len(),
        forall|i: int|
            0 <= i < at.len() ==> #[trigger] orphan_notes(ty, existing, want)[i] == "sync"@ + type_mark(ty)
                + ": orphaned entry — endpoint '"@ + existing[at[i]].endpoint + "' (id '"@ + existing[at[i]].id
                + "') no longer in spec"@,
    decreases existing.len(),
{
    let keep = |k: int| forall|i: int| 0 <= i < want.len() ==> (#[trigger] want[i]).endpoint != existing[k].endpoint;
    if existing.len() == 0 {
        let at = Seq::<int>::empty();
        assert(keeps_places(at, 0, keep));
        at
    } else {
        let less = existing.drop_last();
        let fewer = |k: int| forall|i: int| 0 <= i < want.len() ==> (#[trigger] want[i]).endpoint != less[k].endpoint;
        let before = law_orphans_at_their_places(ty, less, want);
        assert forall|k: int| 0 <= k < less.len() implies fewer(k) == #[trigger] keep(k) by {
            assert(less[k] == existing[k]);
        }
        let at = lemma_places_more(before, less.len(), fewer, keep);
        let n = existing.len() - 1;
        assert(keep(n) == !has_endpoint(want, existing.last().endpoint));
        assert forall|i: int| 0 <= i < at.len() implies #[trigger] orphan_notes(ty, existing, want)[i] == "sync"@
            + type_mark(ty) + ": orphaned entry — endpoint '"@ + existing[at[i]].endpoint + "' (id '"@
            + existing[at[i]].id + "') no longer in spec"@ by {
            if i < before.len() {
                assert(orphan_notes(ty, less, want)[i] == orphan_notes(ty, existing, want)[i]);
                assert(less[before[i]] == existing[at[i]]);
            }
        }
        at
    }
}

/// The type of an API is told in brackets, and not at all where there is none.
pub proof fn law_type_mark(t: Seq<char>)
    ensures
        type_mark(Some(t)) == " ["@ + t + "]"@,
        type_mark(None) == Seq::<char>::empty(),
{
}

/// Every wanted scenario is either added or was there: the two counts add up.
/// What is added is what the list grows by, and nothing is added exactly where
/// every wanted scenario was there.
pub proof fn law_outcome(ty: Option<Seq<char>>, existing: Seq<Scenario>, want: Seq<Scenario>)
    ensures
        ({
            let o = outcome(ty, existing, want);
            &&& o.api_type == ty
            &&& o.added + o.already_present == want.len()
            &&& merged(existing, want).len() == existing.len() + o.added
            &&& o.orphaned == orphan_notes(ty, existing, want).len()
            &&& o.added == 0 <==> forall|i: int| 0 <= i < want.len() ==> has_key(existing, #[trigger] want[i])
        }),
{
    lemma_additions(existing, want);
    if additions(existing, want).len() == 0 {
        assert(merged(existing, want) =~= existing);
        law_merge_appends(existing, want);
    }
    if forall|i: int| 0 <= i < want.len() ==> has_key(existing, #[trigger] want[i]) {
        lemma_merge_of_present(existing, want);
    }
}

/// The line that sums up a sync tells each count as a number, with the orphans
/// where they were looked for.
pub proof fn law_summary(o: Outcome)
    ensures
        summary(o, false) == "sync"@ + type_mark(o.api_type) + ": "@ + digits(o.added) + " added, "@ + digits(
            o.already_present,
        ) + " already present"@,
        summary(o, true) == summary(o, false) + ", "@ + digits(o.orphaned) + " orphaned"@,
{
}

/// The totals of a run are the sums over its documents.
pub proof fn law_totals(a: Seq<Outcome>, b: Seq<Outcome>, o: Outcome)
    ensures
        total_added(seq![o]) == o.added && total_present(seq![o]) == o.already_present && total_orphaned(seq![o])
            == o.orphaned,
        total_added(Seq::empty()) == 0 && total_present(Seq::empty()) == 0 && total_orphaned(Seq::empty()) == 0,
        total_added(a + b) == total_added(a) + total_added(b),
        total_present(a + b) == total_present(a) + total_present(b),
        total_orphaned(a + b) == total_orphaned(a) + total_orphaned(b),
    decreases b.len(),
{
    assert(seq![o].drop_last() =~= Seq::<Outcome>::empty());
    reveal_with_fuel(total_added, 2);
    reveal_with_fuel(total_present, 2);
    reveal_with_fuel(total_orphaned, 2);
    if b.len() == 0 {
        assert(a + b =~= a);
    } else {
        assert((a + b).drop_last() =~= a + b.drop_last());
        law_totals(a, b.drop_last(), o);
    }
}

/// The answer for one document tells each count under its own name.
pub proof fn law_outcome_told(domain: Seq<char>, o: Outcome)
    requires
        o.added <= u64::MAX && o.already_present <= u64::MAX && o.orphaned <= u64::MAX,
    ensures
        member(outcome_json(o), "api_type"@) == (match o.api_type {
            Some(t) => Some(JsonView::Text(t)),
            None => None,
        }),
        member(outcome_json(o), "added"@) == Some(JsonView::Count(o.added as u64)),
        member(outcome_json(o), "already_present"@) == Some(JsonView::Count(o.already_present as u64)),
        member(outcome_json(o), "orphaned"@) == Some(JsonView::Count(o.orphaned as u64)),
        member(one_json(domain, o), "domain"@) == Some(JsonView::Text(domain)),
        member(one_json(domain, o), "api_type"@) == Some(
            match o.api_type {
                Some(t) => JsonView::Text(t),
                None => JsonView::Null,
            },
        ),
        member(one_json(domain, o), "added"@) == Some(JsonView::Count(o.added as u64)),
        member(one_json(domain, o), "already_present"@) == Some(JsonView::Count(o.already_present as u64)),
        member(one_json(domain, o), "scenarios_path"@) == Some(JsonView::Text("docs/test-scenarios.yaml"@)),
{
    reveal_strlit("api_type");
    reveal_strlit("added");
    reveal_strlit("already_present");
    reveal_strlit("orphaned");
    reveal_strlit("domain");
    reveal_strlit("scenarios_path");
    assert("api_type"@[0] == 'a' && "orphaned"@[0] == 'o');
    let m = outcome_json(o)->Object_0;
    let n: int = if o.api_type is Some {
        1
    } else {
        0
    };
    if n == 1 {
        assert(m[0].0 == "api_type"@);
    }
    assert(m[n].0 == "added"@ && m[n + 1].0 == "already_present"@ && m[n + 2].0 == "orphaned"@);
    let q = one_json(domain, o)->Object_0;
    assert(q[0].0 == "domain"@ && q[1].0 == "api_type"@ && q[2].0 == "added"@ && q[3].0 == "already_present"@);
    assert(q[4].0 == "scenarios_path"@);
    reveal_with_fuel(member_from, 6);
}

/// The answer to a sync tells the totals, and what was done for each document,
/// in order.
pub proof fn law_sync_told(domain: Seq<char>, multi_type: bool, v: Seq<Outcome>, i: int)
    requires
        0 <= i < v.len(),
    ensures
        ({
            let j = sync_json(domain, multi_type, v);
            &&& member(j, "domain"@) == Some(JsonView::Text(domain))
            &&& member(j, "multi_type"@) == Some(JsonView::Bool(multi_type))
            &&& member(j, "buckets"@) matches Some(JsonView::Array(a)) && a.len() == v.len() && a[i] == outcome_json(v[i])
            &&& total_added(v) <= u64::MAX ==> member(j, "added"@) == Some(JsonView::Count(total_added(v) as u64))
            &&& total_present(v) <= u64::MAX ==> member(j, "already_present"@) == Some(
                JsonView::Count(total_present(v) as u64),
            )
            &&& total_orphaned(v) <= u64::MAX ==> member(j, "orphaned"@) == Some(
                JsonView::Count(total_orphaned(v) as u64),
            )
            &&& member(j, "scenarios_path"@) == Some(JsonView::Text("docs/test-scenarios.yaml"@))
        }),
{
    reveal_strlit("domain");
    reveal_strlit("multi_type");
    reveal_strlit("buckets");
    reveal_strlit("added");
    reveal_strlit("already_present");
    reveal_strlit("orphaned");
    reveal_strlit("scenarios_path");
    let m = sync_json(domain, multi_type, v)->Object_0;
    assert(m[0].0 == "domain"@ && m[1].0 == "multi_type"@ && m[2].0 == "buckets"@ && m[3].0 == "added"@);
    assert(m[4].0 == "already_present"@ && m[5].0 == "orphaned"@ && m[6].0 == "scenarios_path"@);
    reveal_with_fuel(member_from, 8);
}

/// Whether an entry is one that is looked for: it has the id, and the type where
/// one is given.
pub open spec fn looked_for(v: Seq<(Option<Seq<char>>, Scenario)>, id: Seq<char>, ty: Option<Seq<char>>, k: int) -> bool {
    v[k].1.id == id && (ty matches Some(t) ==> v[k].0 == Some(t))
}

/// The entries that are looked for are all those with the id and the type, in
/// order.
pub proof fn law_matching_at_their_places(
    v: Seq<(Option<Seq<char>>, Scenario)>,
    id: Seq<char>,
    ty: Option<Seq<char>>,
) -> (at: Seq<int>)
    ensures
        keeps_places(at, v.len(), |k: int| looked_for(v, id, ty, k)),
        matching(v, id, ty).len() == at.len(),
        forall|i: int| 0 <= i < at.len() ==> #[trigger] matching(v, id, ty)[i] == v[at[i]],
    decreases v.len(),
{
    let keep = |k: int| looked_for(v, id, ty, k);
    if v.len() == 0 {
        let at = Seq::<int>::empty();
        assert(keeps_places(at, 0, keep));
        at
    } else {
        let less = v.drop_last();
        let fewer = |k: int| looked_for(less, id, ty, k);
        let before = law_matching_at_their_places(less, id, ty);
        assert forall|k: int| 0 <= k < less.len() implies fewer(k) == #[trigger] keep(k) by {
            assert(less[k] == v[k]);
        }
        let at = lemma_places_more(before, less.len(), fewer, keep);
        assert forall|i: int| 0 <= i < at.len() implies #[trigger] matching(v, id, ty)[i] == v[at[i]] by {
            if i < before.len() {
                assert(matching(less, id, ty)[i] == less[before[i]]);
            }
        }
        at
    }
}

/// A scenario is found exactly where one entry of the domain is looked for, and
/// is that entry; several are refused, and so is none.
pub proof fn law_scenario_meant(section: Section, domain: Seq<char>, id: Seq<char>, ty: Option<Seq<char>>, k: int)
    requires
        0 <= k < with_types(section).len(),
        looked_for(with_types(section), id, ty, k),
    ensures
        ({
            let v = with_types(section);
            let r = meant(Ok(Some(section)), domain, id, ty);
            &&& (forall|j: int| 0 <= j < v.len() && j != k ==> !looked_for(v, id, ty, j)) ==> r == Ok::<
                (Option<Seq<char>>, Scenario),
                Seq<char>,
            >(v[k])
            &&& forall|j: int| 0 <= j < v.len() && j != k && #[trigger] looked_for(v, id, ty, j) ==> r is Err
        }),
{
    let v = with_types(section);
    let keep = |i: int| looked_for(v, id, ty, i);
    let at = law_matching_at_their_places(v, id, ty);
    let found = matching(v, id, ty);
    assert(keep(k));
    assert(at.contains(k));
    let a = choose|a: int| 0 <= a < at.len() && at[a] == k;
    if forall|j: int| 0 <= j < v.len() && j != k ==> !looked_for(v, id, ty, j) {
        if at.len() > 1 {
            let b: int = if a == 0 {
                1
            } else {
                0
            };
            assert(at[b] != at[a]);
            assert(at.contains(at[b]));
            assert(keep(at[b]));
        }
        assert(found[0] == v[at[0]]);
    }
    assert forall|j: int| 0 <= j < v.len() && j != k && #[trigger] looked_for(v, id, ty, j) implies meant(
        Ok(Some(section)),
        domain,
        id,
        ty,
    ) is Err by {
        assert(keep(j));
        assert(at.contains(j));
        let b = choose|b: int| 0 <= b < at.len() && at[b] == j;
        assert(a != b);
    }
}

/// Where no entry is looked for, or the domain has none, that is told.
pub proof fn law_scenario_not_found(section: Section, domain: Seq<char>, id: Seq<char>, ty: Option<Seq<char>>)
    requires
        forall|j: int| 0 <= j < with_types(section).len() ==> !looked_for(with_types(section), id, ty, j),
    ensures
        meant(Ok(Some(section)), domain, id, ty) == Err::<(Option<Seq<char>>, Scenario), Seq<char>>(
            "scenario id '"@ + id + "' not found in domain '"@ + domain + "'"@ + (match ty {
                Some(t) => " under api-type '"@ + t + "'"@,
                None => Seq::empty(),
            }),
        ),
        meant(Ok(None), domain, id, ty) == Err::<(Option<Seq<char>>, Scenario), Seq<char>>(
            "domain '"@ + domain + "' has no entry in docs/test-scenarios.yaml"@,
        ),
{
    let v = with_types(section);
    let keep = |i: int| looked_for(v, id, ty, i);
    let at = law_matching_at_their_places(v, id, ty);
    if at.len() > 0 {
        assert(at.contains(at[0]));
        assert(keep(at[0]));
    }
}

/// What a record of a skipped scenario tells, and the answer to the request:
/// the domain, the endpoint, the id and the type, if any; and in the answer
/// whether it was recorded before, and where.
pub proof fn law_skip_told(domain: Seq<char>, e: Scenario, id: Seq<char>, ty: Option<Seq<char>>, already: bool, path: Seq<char>)
    ensures
        ({
            let r = skip_record(domain, e, id, ty);
            let j = skip_json(domain, e, id, ty, already, path);
            let told = match ty {
                Some(t) => Some(JsonView::Text(t)),
                None => None,
            };
            &&& member(r, "domain"@) == Some(JsonView::Text(domain)) && member(j, "domain"@) == Some(JsonView::Text(domain))
            &&& member(r, "endpoint"@) == Some(JsonView::Text(e.endpoint)) && member(j, "endpoint"@) == Some(
                JsonView::Text(e.endpoint),
            )
            &&& member(r, "id"@) == Some(JsonView::Text(id)) && member(j, "id"@) == Some(JsonView::Text(id))
            &&& member(r, "api_type"@) == told && member(j, "api_type"@) == told
            &&& member(j, "already_present"@) == Some(JsonView::Bool(already))
            &&& member(j, "path"@) == Some(JsonView::Text(path))
        }),
{
    reveal_strlit("domain");
    reveal_strlit("endpoint");
    reveal_strlit("id");
    reveal_strlit("api_type");
    reveal_strlit("already_present");
    reveal_strlit("path");
    assert("endpoint"@[0] == 'e' && "api_type"@[0] == 'a');
    let m = skip_record(domain, e, id, ty)->Object_0;
    assert(m[0].0 == "domain"@ && m[1].0 == "endpoint"@ && m[2].0 == "id"@);
    let n: int = if ty is Some {
        4
    } else {
        3
    };
    if ty is Some {
        assert(m[3].0 == "api_type"@);
    }
    let q = skip_json(domain, e, id, ty, already, path)->Object_0;
    assert(q[0].0 == "domain"@ && q[1].0 == "endpoint"@ && q[2].0 == "id"@);
    if ty is Some {
        assert(q[3].0 == "api_type"@);
    }
    assert(q[n].0 == "already_present"@ && q[n + 1].0 == "path"@);
    reveal_with_fuel(member_from, 7);
}

/// A record is one of a scenario exactly where the domain, the id and the type
/// are the same: a scenario of another type is not taken for it.
pub proof fn law_record_names_one(
    domain: Seq<char>,
    e: Scenario,
    id: Seq<char>,
    ty: Option<Seq<char>>,
    other: Seq<char>,
    other_id: Seq<char>,
    other_ty: Option<Seq<char>>,
)
    ensures
        records(skip_record(domain, e, id, ty), other, other_id, other_ty) <==> domain == other && id == other_id && ty
            == other_ty,
{
    law_skip_told(domain, e, id, ty, false, Seq::empty());
}

/// A scenario that is skipped is recorded once more than before exactly where it
/// was not recorded; the file is then written with the record at its end, and
/// else left alone. Either way the answer is that of the scenario that was found.
pub proof fn law_skip_written(
    section: Result<Option<Section>, Seq<char>>,
    run: Seq<char>,
    domain: Seq<char>,
    id: Seq<char>,
    ty: Option<Seq<char>>,
    skipped: Option<Seq<char>>,
)
    ensures
        (meant(section, domain, id, ty) matches Err(e) ==> skipping(section, run, domain, id, ty, skipped) == Err::<
            (Option<Seq<char>>, JsonView),
            Seq<char>,
        >(e)),
        meant(section, domain, id, ty) matches Ok(found) ==> (skipped_in(skipped) matches Ok(v) ==> (skipping(
            section,
            run,
            domain,
            id,
            ty,
            skipped,
        ) matches Ok(r) && {
            let already = exists|i: int| 0 <= i < v.len() && records(#[trigger] v[i], domain, id, found.0);
            &&& already ==> r.0 is None
            &&& !already ==> r.0 == Some(
                pretty_text(JsonView::Array(v.push(skip_record(domain, found.1, id, found.0)))) + "\n"@,
            )
            &&& r.1 == skip_json(domain, found.1, id, found.0, already, below(run, "skipped-scenarios.json"@))
        })),
{
}

/// A file of skipped scenarios that is missing or blank holds none.
pub proof fn law_skipped_read(t: Seq<char>)
    ensures
        skipped_in(None) == Ok::<Seq<JsonView>, Seq<char>>(Seq::empty()),
        trimmed(t).len() == 0 ==> skipped_in(Some(t)) == Ok::<Seq<JsonView>, Seq<char>>(Seq::empty()),
        trimmed(t).len() > 0 ==> skipped_in(Some(t)) == json_list(t),
{
}

/// A run goes through its documents in order. One that is not there changes
/// nothing, the first that fails ends the run, and each other is synced into
/// what the ones before have left.
pub proof fn law_run_in_order(
    domain: Seq<char>,
    top: Seq<(YamlView, YamlView)>,
    sources: Seq<(DomainBucket, SpecText)>,
    next: (DomainBucket, SpecText),
)
    ensures
        progress(domain, top, Seq::empty()) == (Progress { top, notes: Seq::empty(), done: Seq::empty(), failed: None }),
        ({
            let p = progress(domain, top, sources);
            let q = progress(domain, top, sources.push(next));
            let ty = text_of(next.0.api_type);
            &&& p.failed is Some ==> q == p
            &&& p.failed is None && next.1 is Absent ==> q == p
            &&& p.failed is None ==> (document_in(next.0.spec_path@, next.1) matches Err(e) ==> q.failed == Some(e)
                && q.top == p.top && q.done == p.done && q.notes == p.notes)
            &&& p.failed is None ==> (document_in(next.0.spec_path@, next.1) matches Ok(Some(spec)) ==> {
                &&& p.notes.is_prefix_of(q.notes)
                &&& synced(p.top, domain, ty, derived(spec)) matches Ok(r) ==> q.failed is None && q.top == r.0 && q.done
                    == p.done.push(r.1)
                &&& synced(p.top, domain, ty, derived(spec)) matches Err(e) ==> q.failed == Some(e) && q.top == p.top
                    && q.done == p.done
            })
        }),
{
    assert(sources.push(next).drop_last() =~= sources);
}

/// What is noted of a document: first each scenario that it would make twice,
/// then each orphan where they are looked for, and at last one line that sums
/// up, where the manifest could be extended.
pub proof fn law_notes_in_order(
    top: Seq<(YamlView, YamlView)>,
    domain: Seq<char>,
    ty: Option<Seq<char>>,
    spec: ApiSpec,
    section: Option<Section>,
    o: Outcome,
)
    requires
        section_of(top, domain) == Ok::<Option<Section>, Seq<char>>(section),
        synced(top, domain, ty, derived(spec)) matches Ok(r) && r.1 == o,
    ensures
        sync_notes(top, domain, ty, spec, true) == all_repeats(spec.paths@) + orphan_notes(
            ty,
            listed(section, ty),
            derived(spec),
        ) + seq![summary(o, true)],
        sync_notes(top, domain, ty, spec, false) == all_repeats(spec.paths@) + seq![summary(o, false)],
        o == outcome(ty, listed(section, ty), derived(spec)),
{
    let r = all_repeats(spec.paths@);
    let lost = orphan_notes(ty, listed(section, ty), derived(spec));
    assert((r + lost).push(summary(o, true)) =~= r + lost + seq![summary(o, true)]);
    assert((r + Seq::<Seq<char>>::empty()).push(summary(o, false)) =~= r + seq![summary(o, false)]);
}

} // verus!
