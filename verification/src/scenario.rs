//! Test scenarios, and the scenarios that an API document asks for.

use crate::contracts::{keeps_places, lemma_places_more};
use crate::openapi::{
    body_fields, body_schemas, field_required, law_body_fields, required_body_fields, ApiSpec, Location, OpSpec,
    ParamNode, PathNode, PathOps, ResponseNode, Shared, Status,
};
use crate::text::{digit, digits, same, trim, trimmed, views};
use heck::ToKebabCase;
use vstd::prelude::*;

verus! {

/// One entry of the scenario manifest.
#[derive(Debug, PartialEq, Eq)]
pub struct ScenarioEntry {
    pub endpoint: String,
    pub id: String,
    pub description: String,
}

/// The texts of a scenario.
#[verifier::ext_equal]
pub struct Scenario {
    pub endpoint: Seq<char>,
    pub id: Seq<char>,
    pub description: Seq<char>,
}

impl View for ScenarioEntry {
    type V = Scenario;

    open spec fn view(&self) -> Scenario {
        Scenario { endpoint: self.endpoint@, id: self.id@, description: self.description@ }
    }
}

impl Clone for ScenarioEntry {
    fn clone(&self) -> (r: Self)
        ensures
            r == *self,
    {
        ScenarioEntry { endpoint: self.endpoint.clone(), id: self.id.clone(), description: self.description.clone() }
    }
}

/// The texts of a list of scenarios.
pub open spec fn entries(v: Seq<ScenarioEntry>) -> Seq<Scenario> {
    v.map_values(|e: ScenarioEntry| e@)
}

/// Whether two scenarios have the same endpoint and id.
pub open spec fn same_key(a: Scenario, b: Scenario) -> bool {
    a.endpoint == b.endpoint && a.id == b.id
}

/// Whether the list holds a scenario with the key of `e`.
pub open spec fn has_key(s: Seq<Scenario>, e: Scenario) -> bool {
    exists|i: int| 0 <= i < s.len() && same_key(#[trigger] s[i], e)
}

/// The list with `e` at its end, unless its key is already there.
pub open spec fn added(s: Seq<Scenario>, e: Scenario) -> Seq<Scenario> {
    if has_key(s, e) {
        s
    } else {
        s.push(e)
    }
}

/// The list with each scenario of `more` at its end, in order, whose key is
/// not yet there.
pub open spec fn merged(s: Seq<Scenario>, more: Seq<Scenario>) -> Seq<Scenario>
    decreases more.len(),
{
    if more.len() == 0 {
        s
    } else {
        added(merged(s, more.drop_last()), more.last())
    }
}

/// Merging two lists one after the other is merging them as one.
pub proof fn lemma_merged_concat(s: Seq<Scenario>, a: Seq<Scenario>, b: Seq<Scenario>)
    ensures
        merged(s, a + b) == merged(merged(s, a), b),
    decreases b.len(),
{
    if b.len() == 0 {
        assert(a + b =~= a);
    } else {
        assert((a + b).drop_last() =~= a + b.drop_last());
        assert((a + b).last() == b.last());
        lemma_merged_concat(s, a, b.drop_last());
    }
}

/// Whether no two scenarios of the list have the same key.
pub open spec fn keys_distinct(s: Seq<Scenario>) -> bool {
    forall|i: int, j: int| 0 <= i < j < s.len() ==> !same_key(#[trigger] s[i], #[trigger] s[j])
}

/// What merging keeps and gives: the list it started from is a prefix, what
/// comes after it was asked for, every key that was asked for is there, and no
/// key is there twice that was not there twice before.
pub proof fn law_merge_appends(s: Seq<Scenario>, more: Seq<Scenario>)
    ensures
        s.is_prefix_of(merged(s, more)),
        forall|i: int| s.len() <= i < merged(s, more).len() ==> more.contains(#[trigger] merged(s, more)[i]),
        forall|i: int| 0 <= i < more.len() ==> has_key(merged(s, more), #[trigger] more[i]),
        keys_distinct(s) ==> keys_distinct(merged(s, more)),
    decreases more.len(),
{
    if more.len() > 0 {
        let less = more.drop_last();
        let m = merged(s, less);
        let t = merged(s, more);
        law_merge_appends(s, less);
        assert(t =~= m || t =~= m.push(more.last()));
        assert forall|i: int| s.len() <= i < t.len() implies more.contains(#[trigger] t[i]) by {
            if i < m.len() {
                assert(less.contains(m[i]));
                let k = choose|k: int| 0 <= k < less.len() && less[k] == m[i];
                assert(more[k] == t[i]);
            } else {
                assert(more[more.len() - 1] == t[i]);
            }
        }
        assert forall|i: int| 0 <= i < more.len() implies has_key(t, #[trigger] more[i]) by {
            if i < less.len() {
                assert(has_key(m, less[i]));
                let k = choose|k: int| 0 <= k < m.len() && same_key(#[trigger] m[k], less[i]);
                assert(same_key(t[k], more[i]));
            } else if !has_key(m, more.last()) {
                assert(same_key(t[m.len() as int], more[i]));
            }
        }
    }
}

/// Merging the same list a second time changes nothing.
pub proof fn law_merge_idempotent(s: Seq<Scenario>, more: Seq<Scenario>)
    ensures
        merged(merged(s, more), more) == merged(s, more),
{
    law_merge_appends(s, more);
    lemma_merge_of_present(merged(s, more), more);
}

/// Merging scenarios whose keys are all there changes nothing.
pub proof fn lemma_merge_of_present(s: Seq<Scenario>, more: Seq<Scenario>)
    requires
        forall|i: int| 0 <= i < more.len() ==> has_key(s, #[trigger] more[i]),
    ensures
        merged(s, more) == s,
    decreases more.len(),
{
    if more.len() > 0 {
        let less = more.drop_last();
        assert forall|i: int| 0 <= i < less.len() implies has_key(s, #[trigger] less[i]) by {
            assert(has_key(s, more[i]));
        }
        lemma_merge_of_present(s, less);
        assert(has_key(s, more[more.len() - 1]));
    }
}

/// Whether the list holds a scenario with this endpoint and id.
pub fn holds_key(list: &Vec<ScenarioEntry>, endpoint: &str, id: &str) -> (r: bool)
    ensures
        forall|e: Scenario| e.endpoint == endpoint@ && e.id == id@ ==> r == has_key(entries(list@), e),
{
    let mut i: usize = 0;
    while i < list.len()
        invariant
            0 <= i <= list@.len(),
            forall|k: int| 0 <= k < i ==> !((#[trigger] list@[k]).endpoint@ == endpoint@ && list@[k].id@ == id@),
        decreases list.len() - i,
    {
        if same(list[i].endpoint.as_str(), endpoint) && same(list[i].id.as_str(), id) {
            assert(entries(list@)[i as int] == list@[i as int]@);
            return true;
        }
        i = i + 1;
    }
    assert forall|e: Scenario| e.endpoint == endpoint@ && e.id == id@ implies !has_key(entries(list@), e) by {
        if has_key(entries(list@), e) {
            let k = choose|k: int| 0 <= k < entries(list@).len() && same_key(#[trigger] entries(list@)[k], e);
            assert(entries(list@)[k] == list@[k]@);
        }
    }
    false
}

/// Adds a scenario to the list unless its key is already there, and says
/// whether it did.
pub fn add_entry(list: &mut Vec<ScenarioEntry>, e: ScenarioEntry) -> (r: bool)
    ensures
        entries(final(list)@) == added(entries(old(list)@), e@),
        final(list)@ == old(list)@ || final(list)@ == old(list)@.push(e),
        r == !has_key(entries(old(list)@), e@),
{
    if holds_key(list, e.endpoint.as_str(), e.id.as_str()) {
        return false;
    }
    let ghost before = list@;
    list.push(e);
    assert(entries(list@) =~= entries(before).push(e@));
    true
}

/// What `heck` makes of a text in kebab case.
pub uninterp spec fn kebab(s: Seq<char>) -> Seq<char>;

/// `heck::ToKebabCase::to_kebab_case`: the same text gives the same result.
#[verifier::external_body]
fn to_kebab_case(s: &str) -> (r: String)
    ensures
        r@ == kebab(s@),
{
    s.to_kebab_case()
}

/// The scenario for a missing field of the request body; `slug` stands for the
/// field in the id.
pub open spec fn missing_field(endpoint: Seq<char>, field: Seq<char>, slug: Seq<char>) -> Scenario {
    Scenario {
        endpoint,
        id: "validation-"@ + slug + "-missing"@,
        description: "missing required field '"@ + field + "' → 4xx"@,
    }
}

/// The scenario for a missing field of the request body.
pub open spec fn field_scenario(endpoint: Seq<char>, field: Seq<char>) -> Scenario {
    missing_field(endpoint, field, kebab(field))
}

/// The word for where a parameter is sent.
pub open spec fn location_word(l: Location) -> Seq<char> {
    match l {
        Location::Query => "query"@,
        Location::Path => "path"@,
        Location::Header => "header"@,
        Location::Cookie => "cookie"@,
    }
}

/// The scenario for a missing parameter; `slug` stands for its name in the id.
pub open spec fn missing_param(endpoint: Seq<char>, loc: Location, name: Seq<char>, slug: Seq<char>) -> Scenario {
    Scenario {
        endpoint,
        id: "validation-"@ + location_word(loc) + "-"@ + slug + "-missing"@,
        description: "missing required "@ + location_word(loc) + " param '"@ + name + "' → 4xx"@,
    }
}

/// The scenario for a missing parameter, where the parameter asks for one: a
/// query or path parameter that is required.
pub open spec fn param_scenario(endpoint: Seq<char>, p: ParamNode) -> Option<Scenario> {
    match p {
        ParamNode::Item(loc, name, required) if required && (loc is Query || loc is Path) => Some(
            missing_param(endpoint, loc, name@, kebab(name@)),
        ),
        _ => None,
    }
}

/// The id that a response with this description asks for: `prefix` and the slug
/// of the description, or `fallback` where either is empty.
pub open spec fn slug_id(prefix: Seq<char>, fallback: Seq<char>, description: Seq<char>, slug: Seq<char>) -> Seq<char> {
    if description.len() == 0 || slug.len() == 0 {
        fallback
    } else {
        prefix + slug
    }
}

/// The id that a response code asks for, with a trimmed description and its
/// slug.
pub open spec fn response_id(code: u16, description: Seq<char>, slug: Seq<char>) -> Option<Seq<char>> {
    if code == 400 || code == 422 {
        Some(slug_id("validation-"@, "validation-bad-request"@, description, slug))
    } else if code == 401 {
        Some("auth-missing-token"@)
    } else if code == 403 {
        Some(slug_id("auth-"@, "auth-forbidden"@, description, slug))
    } else if code == 404 {
        Some("not-found"@)
    } else if code == 409 {
        Some(slug_id("business-"@, "business-conflict"@, description, slug))
    } else {
        None
    }
}

/// The description of a response that has none of its own.
pub open spec fn response_text(code: u16) -> Seq<char> {
    if code == 400 {
        "response 400"@
    } else if code == 422 {
        "response 422"@
    } else if code == 401 {
        "response 401"@
    } else if code == 403 {
        "response 403"@
    } else if code == 404 {
        "response 404"@
    } else {
        "response 409"@
    }
}

/// The scenario that a response code asks for, with a trimmed description and
/// its slug.
pub open spec fn answered(endpoint: Seq<char>, code: u16, description: Seq<char>, slug: Seq<char>) -> Option<Scenario> {
    match response_id(code, description, slug) {
        Some(id) => Some(
            Scenario {
                endpoint,
                id,
                description: if description.len() == 0 {
                    response_text(code)
                } else {
                    description
                },
            },
        ),
        None => None,
    }
}

/// The scenario that a response asks for, if any.
pub open spec fn response_scenario(endpoint: Seq<char>, r: (Status, ResponseNode)) -> Option<Scenario> {
    match r {
        (Status::Code(code), ResponseNode::Item(text)) => answered(
            endpoint,
            code,
            trimmed(text@),
            kebab(trimmed(text@)),
        ),
        _ => None,
    }
}

/// The scenarios that are there, in order.
pub open spec fn those<T>(s: Seq<T>, f: spec_fn(T) -> Option<Scenario>) -> Seq<Scenario>
    decreases s.len(),
{
    if s.len() == 0 {
        Seq::empty()
    } else {
        match f(s.last()) {
            Some(e) => those(s.drop_last(), f).push(e),
            None => those(s.drop_last(), f),
        }
    }
}

/// The scenarios for the fields that the body of an operation requires.
pub open spec fn field_scenarios(endpoint: Seq<char>, op: OpSpec, shared: Option<Shared>) -> Seq<Scenario> {
    body_fields(op, shared).map_values(|f: Seq<char>| field_scenario(endpoint, f))
}

/// The scenarios for the parameters of an operation.
pub open spec fn param_scenarios(endpoint: Seq<char>, op: OpSpec) -> Seq<Scenario> {
    those(op.parameters@, |p: ParamNode| param_scenario(endpoint, p))
}

/// The scenarios for the responses of an operation.
pub open spec fn response_scenarios(endpoint: Seq<char>, op: OpSpec) -> Seq<Scenario> {
    those(op.responses@, |r: (Status, ResponseNode)| response_scenario(endpoint, r))
}

/// The scenario that every operation asks for.
pub open spec fn happy_path(endpoint: Seq<char>) -> Scenario {
    Scenario { endpoint, id: "happy-path"@, description: "happy path"@ }
}

/// All scenarios that an operation asks for, in order.
pub open spec fn op_scenarios(endpoint: Seq<char>, op: OpSpec, shared: Option<Shared>) -> Seq<Scenario> {
    seq![happy_path(endpoint)] + field_scenarios(endpoint, op, shared) + param_scenarios(endpoint, op)
        + response_scenarios(endpoint, op)
}

/// The method and path of an operation.
pub open spec fn endpoint_text(method: Seq<char>, path: Seq<char>) -> Seq<char> {
    method + " "@ + path
}

/// The scenarios of an operation that may be absent.
pub open spec fn method_scenarios(
    method: Seq<char>,
    path: Seq<char>,
    op: Option<OpSpec>,
    shared: Option<Shared>,
) -> Seq<Scenario> {
    match op {
        Some(o) => op_scenarios(endpoint_text(method, path), o, shared),
        None => Seq::empty(),
    }
}

/// The scenarios of all operations of a path.
pub open spec fn item_scenarios(path: Seq<char>, ops: PathOps, shared: Option<Shared>) -> Seq<Scenario> {
    method_scenarios("GET"@, path, ops.get, shared) + method_scenarios("PUT"@, path, ops.put, shared)
        + method_scenarios("POST"@, path, ops.post, shared) + method_scenarios("DELETE"@, path, ops.delete, shared)
        + method_scenarios("OPTIONS"@, path, ops.options, shared) + method_scenarios("HEAD"@, path, ops.head, shared)
        + method_scenarios("PATCH"@, path, ops.patch, shared) + method_scenarios("TRACE"@, path, ops.trace, shared)
}

/// The scenarios of a path; a `$ref` asks for none.
pub open spec fn path_scenarios(p: (String, PathNode), shared: Option<Shared>) -> Seq<Scenario> {
    match p.1 {
        PathNode::Item(ops) => item_scenarios(p.0@, ops, shared),
        PathNode::Reference(_) => Seq::empty(),
    }
}

/// The scenarios of a list of paths.
pub open spec fn all_scenarios(paths: Seq<(String, PathNode)>, shared: Option<Shared>) -> Seq<Scenario>
    decreases paths.len(),
{
    if paths.len() == 0 {
        Seq::empty()
    } else {
        all_scenarios(paths.drop_last(), shared) + path_scenarios(paths.last(), shared)
    }
}

/// The scenarios that a document asks for, the first of each key.
pub open spec fn derived(spec: ApiSpec) -> Seq<Scenario> {
    merged(Seq::empty(), all_scenarios(spec.paths@, spec.components))
}

/// The scenario for a missing field of the request body; `slug` stands for the
/// field in the id.
pub fn field_entry(endpoint: &str, field: &str, slug: &str) -> (r: ScenarioEntry)
    ensures
        r@ == missing_field(endpoint@, field@, slug@),
{
    let mut id: String = "validation-".to_owned();
    id.append(slug);
    id.append("-missing");
    let mut description: String = "missing required field '".to_owned();
    description.append(field);
    description.append("' → 4xx");
    ScenarioEntry { endpoint: endpoint.to_owned(), id, description }
}

/// The scenario for a missing parameter; `slug` stands for its name in the id.
pub fn param_entry(endpoint: &str, loc: &Location, name: &str, slug: &str) -> (r: ScenarioEntry)
    ensures
        r@ == missing_param(endpoint@, *loc, name@, slug@),
{
    let word = match loc {
        Location::Query => "query",
        Location::Path => "path",
        Location::Header => "header",
        Location::Cookie => "cookie",
    };
    let mut id: String = "validation-".to_owned();
    id.append(word);
    id.append("-");
    id.append(slug);
    id.append("-missing");
    let mut description: String = "missing required ".to_owned();
    description.append(word);
    description.append(" param '");
    description.append(name);
    description.append("' → 4xx");
    ScenarioEntry { endpoint: endpoint.to_owned(), id, description }
}

fn add_fields(out: &mut Vec<ScenarioEntry>, endpoint: &str, op: &OpSpec, shared: &Option<Shared>)
    ensures
        entries(final(out)@) == merged(entries(old(out)@), field_scenarios(endpoint@, *op, *shared)),
{
    let fields = required_body_fields(op, shared);
    let ghost all = field_scenarios(endpoint@, *op, *shared);
    let ghost start = entries(out@);
    let mut i: usize = 0;
    assert(all.take(0) =~= Seq::<Scenario>::empty());
    while i < fields.len()
        invariant
            0 <= i <= fields@.len(),
            views(fields@) == body_fields(*op, *shared),
            all == field_scenarios(endpoint@, *op, *shared),
            entries(out@) == merged(start, all.take(i as int)),
        decreases fields.len() - i,
    {
        let field = fields[i].as_str();
        let e = field_entry(endpoint, field, to_kebab_case(field).as_str());
        assert(views(fields@)[i as int] == field@);
        assert(e@ =~= all[i as int]);
        add_entry(out, e);
        assert(all.take(i + 1).drop_last() =~= all.take(i as int));
        i = i + 1;
    }
    assert(all.take(all.len() as int) =~= all);
}

fn add_params(out: &mut Vec<ScenarioEntry>, endpoint: &str, op: &OpSpec)
    ensures
        entries(final(out)@) == merged(entries(old(out)@), param_scenarios(endpoint@, *op)),
{
    let ghost start = entries(out@);
    let ghost f = |p: ParamNode| param_scenario(endpoint@, p);
    let mut i: usize = 0;
    assert(op.parameters@.take(0) =~= Seq::<ParamNode>::empty());
    while i < op.parameters.len()
        invariant
            0 <= i <= op.parameters@.len(),
            f == |p: ParamNode| param_scenario(endpoint@, p),
            entries(out@) == merged(start, those(op.parameters@.take(i as int), f)),
        decreases op.parameters.len() - i,
    {
        assert(op.parameters@.take(i + 1).drop_last() =~= op.parameters@.take(i as int));
        let ghost done = those(op.parameters@.take(i as int), f);
        let p = &op.parameters[i];
        if let ParamNode::Item(loc, name, required) = p {
            let wanted = match loc {
                Location::Query => true,
                Location::Path => true,
                _ => false,
            };
            if *required && wanted {
                let e = param_entry(endpoint, loc, name.as_str(), to_kebab_case(name.as_str()).as_str());
                assert(param_scenario(endpoint@, *p) == Some(e@));
                add_entry(out, e);
                assert(done.push(e@).drop_last() =~= done);
            }
        }
        i = i + 1;
    }
    assert(op.parameters@.take(op.parameters@.len() as int) =~= op.parameters@);
}

fn slug_of(prefix: &str, fallback: &str, description: &str, slug: &str) -> (r: String)
    ensures
        r@ == slug_id(prefix@, fallback@, description@, slug@),
{
    if description.is_empty() || slug.is_empty() {
        fallback.to_owned()
    } else {
        let mut id: String = prefix.to_owned();
        id.append(slug);
        id
    }
}

fn id_of_response(code: u16, description: &str, slug: &str) -> (r: Option<String>)
    ensures
        r is Some == response_id(code, description@, slug@) is Some,
        r matches Some(id) ==> response_id(code, description@, slug@) == Some(id@),
{
    if code == 400 || code == 422 {
        Some(slug_of("validation-", "validation-bad-request", description, slug))
    } else if code == 401 {
        Some("auth-missing-token".to_owned())
    } else if code == 403 {
        Some(slug_of("auth-", "auth-forbidden", description, slug))
    } else if code == 404 {
        Some("not-found".to_owned())
    } else if code == 409 {
        Some(slug_of("business-", "business-conflict", description, slug))
    } else {
        None
    }
}

/// The scenario that a response code asks for, with a trimmed description and
/// its slug.
pub fn response_entry(endpoint: &str, code: u16, description: &str, slug: &str) -> (r: Option<ScenarioEntry>)
    ensures
        r is Some == answered(endpoint@, code, description@, slug@) is Some,
        r matches Some(e) ==> answered(endpoint@, code, description@, slug@) == Some(e@),
{
    let Some(id) = id_of_response(code, description, slug) else {
        return None;
    };
    let shown_text: String = if !description.is_empty() {
        description.to_owned()
    } else if code == 400 {
        "response 400".to_owned()
    } else if code == 422 {
        "response 422".to_owned()
    } else if code == 401 {
        "response 401".to_owned()
    } else if code == 403 {
        "response 403".to_owned()
    } else if code == 404 {
        "response 404".to_owned()
    } else {
        "response 409".to_owned()
    };
    Some(ScenarioEntry { endpoint: endpoint.to_owned(), id, description: shown_text })
}

/// The scenario that a response asks for, if any.
pub fn scenario_of_response(endpoint: &str, status: &Status, response: &ResponseNode) -> (r: Option<ScenarioEntry>)
    ensures
        r is Some == response_scenario(endpoint@, (*status, *response)) is Some,
        r matches Some(e) ==> response_scenario(endpoint@, (*status, *response)) == Some(e@),
{
    let Status::Code(code) = status else {
        return None;
    };
    let ResponseNode::Item(text) = response else {
        return None;
    };
    let description = trim(text.as_str());
    let slug = to_kebab_case(description.as_str());
    response_entry(endpoint, *code, description.as_str(), slug.as_str())
}

fn add_responses(out: &mut Vec<ScenarioEntry>, endpoint: &str, op: &OpSpec)
    ensures
        entries(final(out)@) == merged(entries(old(out)@), response_scenarios(endpoint@, *op)),
{
    let ghost start = entries(out@);
    let ghost f = |r: (Status, ResponseNode)| response_scenario(endpoint@, r);
    let mut i: usize = 0;
    assert(op.responses@.take(0) =~= Seq::<(Status, ResponseNode)>::empty());
    while i < op.responses.len()
        invariant
            0 <= i <= op.responses@.len(),
            f == |r: (Status, ResponseNode)| response_scenario(endpoint@, r),
            entries(out@) == merged(start, those(op.responses@.take(i as int), f)),
        decreases op.responses.len() - i,
    {
        assert(op.responses@.take(i + 1).drop_last() =~= op.responses@.take(i as int));
        let ghost done = those(op.responses@.take(i as int), f);
        if let Some(e) = scenario_of_response(endpoint, &op.responses[i].0, &op.responses[i].1) {
            assert(f(op.responses@[i as int]) == Some(e@));
            add_entry(out, e);
            assert(done.push(e@).drop_last() =~= done);
        }
        i = i + 1;
    }
    assert(op.responses@.take(op.responses@.len() as int) =~= op.responses@);
}

/// Adds the scenarios of an operation that may be absent.
fn add_method(
    out: &mut Vec<ScenarioEntry>,
    method: &str,
    path: &str,
    op: &Option<OpSpec>,
    shared: &Option<Shared>,
)
    ensures
        entries(final(out)@) == merged(entries(old(out)@), method_scenarios(method@, path@, *op, *shared)),
{
    let ghost start = entries(out@);
    let Some(op) = op else {
        return ;
    };
    let mut endpoint: String = method.to_owned();
    endpoint.append(" ");
    endpoint.append(path);
    let e = ScenarioEntry {
        endpoint: endpoint.clone(),
        id: "happy-path".to_owned(),
        description: "happy path".to_owned(),
    };
    let ghost first = seq![happy_path(endpoint@)];
    assert(e@ =~= happy_path(endpoint@));
    add_entry(out, e);
    assert(first.drop_last() =~= Seq::<Scenario>::empty());
    assert(merged(start, first.drop_last()) == start);
    assert(entries(out@) == merged(start, first));
    add_fields(out, endpoint.as_str(), op, shared);
    add_params(out, endpoint.as_str(), op);
    add_responses(out, endpoint.as_str(), op);
    proof {
        let a = field_scenarios(endpoint@, *op, *shared);
        let b = param_scenarios(endpoint@, *op);
        let c = response_scenarios(endpoint@, *op);
        lemma_merged_concat(start, first, a);
        lemma_merged_concat(start, first + a, b);
        lemma_merged_concat(start, first + a + b, c);
    }
}

fn add_operations(out: &mut Vec<ScenarioEntry>, path: &str, ops: &PathOps, shared: &Option<Shared>)
    ensures
        entries(final(out)@) == merged(entries(old(out)@), item_scenarios(path@, *ops, *shared)),
{
    let ghost start = entries(out@);
    add_method(out, "GET", path, &ops.get, shared);
    add_method(out, "PUT", path, &ops.put, shared);
    add_method(out, "POST", path, &ops.post, shared);
    add_method(out, "DELETE", path, &ops.delete, shared);
    add_method(out, "OPTIONS", path, &ops.options, shared);
    add_method(out, "HEAD", path, &ops.head, shared);
    add_method(out, "PATCH", path, &ops.patch, shared);
    add_method(out, "TRACE", path, &ops.trace, shared);
    proof {
        let a = method_scenarios("GET"@, path@, ops.get, *shared);
        let b = method_scenarios("PUT"@, path@, ops.put, *shared);
        let c = method_scenarios("POST"@, path@, ops.post, *shared);
        let d = method_scenarios("DELETE"@, path@, ops.delete, *shared);
        let e = method_scenarios("OPTIONS"@, path@, ops.options, *shared);
        let f = method_scenarios("HEAD"@, path@, ops.head, *shared);
        let g = method_scenarios("PATCH"@, path@, ops.patch, *shared);
        let h = method_scenarios("TRACE"@, path@, ops.trace, *shared);
        lemma_merged_concat(start, a, b);
        lemma_merged_concat(start, a + b, c);
        lemma_merged_concat(start, a + b + c, d);
        lemma_merged_concat(start, a + b + c + d, e);
        lemma_merged_concat(start, a + b + c + d + e, f);
        lemma_merged_concat(start, a + b + c + d + e + f, g);
        lemma_merged_concat(start, a + b + c + d + e + f + g, h);
    }
}

/// The scenarios that a document asks for: for each operation the happy path,
/// the missing body fields and parameters, and the error responses.
pub fn derive_scenarios(spec: &ApiSpec) -> (r: Vec<ScenarioEntry>)
    ensures
        entries(r@) == derived(*spec),
{
    let mut out: Vec<ScenarioEntry> = Vec::new();
    let mut i: usize = 0;
    assert(spec.paths@.take(0) =~= Seq::<(String, PathNode)>::empty());
    assert(entries(out@) =~= Seq::<Scenario>::empty());
    while i < spec.paths.len()
        invariant
            0 <= i <= spec.paths@.len(),
            entries(out@) == merged(Seq::empty(), all_scenarios(spec.paths@.take(i as int), spec.components)),
        decreases spec.paths.len() - i,
    {
        let ghost done = all_scenarios(spec.paths@.take(i as int), spec.components);
        let ghost here = path_scenarios(spec.paths@[i as int], spec.components);
        assert(spec.paths@.take(i + 1).drop_last() =~= spec.paths@.take(i as int));
        if let PathNode::Item(ops) = &spec.paths[i].1 {
            add_operations(&mut out, spec.paths[i].0.as_str(), ops, &spec.components);
        }
        proof {
            lemma_merged_concat(Seq::empty(), done, here);
        }
        i = i + 1;
    }
    assert(spec.paths@.take(spec.paths@.len() as int) =~= spec.paths@);
    out
}

/// The warning for a response whose id an earlier one has already taken.
pub open spec fn repeat_text(e: Scenario) -> Seq<char> {
    "sync: duplicate scenario slug '"@ + e.id + "' under "@ + e.endpoint + "; keeping first"@
}

/// The warnings for the responses of an operation whose ids earlier responses
/// of it have already taken.
pub open spec fn repeats(endpoint: Seq<char>, responses: Seq<(Status, ResponseNode)>) -> Seq<Seq<char>>
    decreases responses.len(),
{
    if responses.len() == 0 {
        Seq::empty()
    } else {
        let less = responses.drop_last();
        let earlier = those(less, |r: (Status, ResponseNode)| response_scenario(endpoint, r));
        match response_scenario(endpoint, responses.last()) {
            Some(e) if has_key(earlier, e) => repeats(endpoint, less).push(repeat_text(e)),
            _ => repeats(endpoint, less),
        }
    }
}

/// The warnings for an operation that may be absent.
pub open spec fn method_repeats(method: Seq<char>, path: Seq<char>, op: Option<OpSpec>) -> Seq<Seq<char>> {
    match op {
        Some(o) => repeats(endpoint_text(method, path), o.responses@),
        None => Seq::empty(),
    }
}

/// The warnings for all operations of a path.
pub open spec fn item_repeats(path: Seq<char>, ops: PathOps) -> Seq<Seq<char>> {
    method_repeats("GET"@, path, ops.get) + method_repeats("PUT"@, path, ops.put) + method_repeats(
        "POST"@,
        path,
        ops.post,
    ) + method_repeats("DELETE"@, path, ops.delete) + method_repeats("OPTIONS"@, path, ops.options) + method_repeats(
        "HEAD"@,
        path,
        ops.head,
    ) + method_repeats("PATCH"@, path, ops.patch) + method_repeats("TRACE"@, path, ops.trace)
}

/// The warnings for a list of paths.
pub open spec fn all_repeats(paths: Seq<(String, PathNode)>) -> Seq<Seq<char>>
    decreases paths.len(),
{
    if paths.len() == 0 {
        Seq::empty()
    } else {
        match paths.last().1 {
            PathNode::Item(ops) => all_repeats(paths.drop_last()) + item_repeats(paths.last().0@, ops),
            PathNode::Reference(_) => all_repeats(paths.drop_last()),
        }
    }
}

fn warn_method(out: &mut Vec<String>, method: &str, path: &str, op: &Option<OpSpec>)
    ensures
        views(final(out)@) == views(old(out)@) + method_repeats(method@, path@, *op),
{
    let ghost start = views(out@);
    let Some(op) = op else {
        assert(start + Seq::<Seq<char>>::empty() =~= start);
        return ;
    };
    let mut endpoint: String = method.to_owned();
    endpoint.append(" ");
    endpoint.append(path);
    let ghost f = |r: (Status, ResponseNode)| response_scenario(endpoint@, r);
    let mut earlier: Vec<ScenarioEntry> = Vec::new();
    let mut i: usize = 0;
    assert(op.responses@.take(0) =~= Seq::<(Status, ResponseNode)>::empty());
    assert(entries(earlier@) =~= Seq::<Scenario>::empty());
    assert(start + Seq::<Seq<char>>::empty() =~= start);
    while i < op.responses.len()
        invariant
            0 <= i <= op.responses@.len(),
            f == |r: (Status, ResponseNode)| response_scenario(endpoint@, r),
            entries(earlier@) == those(op.responses@.take(i as int), f),
            views(out@) == start + repeats(endpoint@, op.responses@.take(i as int)),
        decreases op.responses.len() - i,
    {
        let ghost done = op.responses@.take(i as int);
        assert(op.responses@.take(i + 1).drop_last() =~= done);
        assert(op.responses@.take(i + 1).last() == op.responses@[i as int]);
        if let Some(e) = scenario_of_response(endpoint.as_str(), &op.responses[i].0, &op.responses[i].1) {
            assert(f(op.responses@[i as int]) == Some(e@));
            if holds_key(&earlier, e.endpoint.as_str(), e.id.as_str()) {
                let mut text: String = "sync: duplicate scenario slug '".to_owned();
                text.append(e.id.as_str());
                text.append("' under ");
                text.append(e.endpoint.as_str());
                text.append("; keeping first");
                let ghost before = out@;
                out.push(text);
                assert(views(out@) =~= views(before).push(text@));
                assert(views(out@) =~= start + repeats(endpoint@, done).push(text@));
            }
            let ghost before = earlier@;
            earlier.push(e);
            assert(entries(earlier@) =~= entries(before).push(e@));
        }
        i = i + 1;
    }
    assert(op.responses@.take(op.responses@.len() as int) =~= op.responses@);
}

/// The warnings for responses whose id an earlier response of the same
/// operation has already taken.
pub fn duplicate_slugs(spec: &ApiSpec) -> (r: Vec<String>)
    ensures
        views(r@) == all_repeats(spec.paths@),
{
    let mut out: Vec<String> = Vec::new();
    let mut i: usize = 0;
    assert(spec.paths@.take(0) =~= Seq::<(String, PathNode)>::empty());
    assert(views(out@) =~= Seq::<Seq<char>>::empty());
    while i < spec.paths.len()
        invariant
            0 <= i <= spec.paths@.len(),
            views(out@) == all_repeats(spec.paths@.take(i as int)),
        decreases spec.paths.len() - i,
    {
        let ghost done = views(out@);
        assert(spec.paths@.take(i + 1).drop_last() =~= spec.paths@.take(i as int));
        if let PathNode::Item(ops) = &spec.paths[i].1 {
            let path = spec.paths[i].0.as_str();
            warn_method(&mut out, "GET", path, &ops.get);
            warn_method(&mut out, "PUT", path, &ops.put);
            warn_method(&mut out, "POST", path, &ops.post);
            warn_method(&mut out, "DELETE", path, &ops.delete);
            warn_method(&mut out, "OPTIONS", path, &ops.options);
            warn_method(&mut out, "HEAD", path, &ops.head);
            warn_method(&mut out, "PATCH", path, &ops.patch);
            warn_method(&mut out, "TRACE", path, &ops.trace);
            assert(views(out@) =~= done + item_repeats(path@, *ops));
        }
        i = i + 1;
    }
    assert(spec.paths@.take(spec.paths@.len() as int) =~= spec.paths@);
    out
}

/// No two derived scenarios have the same endpoint and id.
pub proof fn law_derived_keys_distinct(spec: ApiSpec)
    ensures
        keys_distinct(derived(spec)),
{
    law_merge_appends(Seq::empty(), all_scenarios(spec.paths@, spec.components));
}

/// The operation of a path for a method name, where it has one.
pub open spec fn operation(ops: PathOps, method: Seq<char>) -> Option<OpSpec> {
    if method == "GET"@ {
        ops.get
    } else if method == "PUT"@ {
        ops.put
    } else if method == "POST"@ {
        ops.post
    } else if method == "DELETE"@ {
        ops.delete
    } else if method == "OPTIONS"@ {
        ops.options
    } else if method == "HEAD"@ {
        ops.head
    } else if method == "PATCH"@ {
        ops.patch
    } else if method == "TRACE"@ {
        ops.trace
    } else {
        None
    }
}

/// Every scenario of every operation is derived, or another with its key is:
/// in particular every operation has its happy path.
pub proof fn law_derived_complete(spec: ApiSpec, p: int, method: Seq<char>, e: Scenario)
    requires
        0 <= p < spec.paths@.len(),
        spec.paths@[p].1 is Item,
        operation(spec.paths@[p].1->Item_0, method) is Some,
        op_scenarios(
            endpoint_text(method, spec.paths@[p].0@),
            operation(spec.paths@[p].1->Item_0, method)->0,
            spec.components,
        ).contains(e),
    ensures
        has_key(derived(spec), e),
{
    let ops = spec.paths@[p].1->Item_0;
    let path = spec.paths@[p].0@;
    let shared = spec.components;
    let here = item_scenarios(path, ops, shared);
    lemma_item_holds(path, ops, shared, method, e);
    lemma_all_hold(spec.paths@, shared, p, e);
    let all = all_scenarios(spec.paths@, shared);
    law_merge_appends(Seq::empty(), all);
    let i = choose|i: int| 0 <= i < all.len() && all[i] == e;
    assert(has_key(derived(spec), all[i]));
}

/// Every operation of a document has its happy path.
pub proof fn law_happy_path_present(spec: ApiSpec, p: int, method: Seq<char>)
    requires
        0 <= p < spec.paths@.len(),
        spec.paths@[p].1 is Item,
        operation(spec.paths@[p].1->Item_0, method) is Some,
    ensures
        has_key(derived(spec), happy_path(endpoint_text(method, spec.paths@[p].0@))),
{
    let endpoint = endpoint_text(method, spec.paths@[p].0@);
    let s = op_scenarios(endpoint, operation(spec.paths@[p].1->Item_0, method)->0, spec.components);
    assert(s[0] == happy_path(endpoint));
    law_derived_complete(spec, p, method, happy_path(endpoint));
}

/// The first derived scenario of an endpoint is its happy path.
pub proof fn law_happy_path_first(spec: ApiSpec, i: int)
    requires
        0 <= i < derived(spec).len(),
        forall|j: int| 0 <= j < i ==> (#[trigger] derived(spec)[j]).endpoint != derived(spec)[i].endpoint,
    ensures
        derived(spec)[i] == happy_path(derived(spec)[i].endpoint),
{
    let all = all_scenarios(spec.paths@, spec.components);
    lemma_all_led(spec.paths@, spec.components);
    lemma_merged_led(all);
    assert(led_at(derived(spec), i));
    let j = choose|j: int| 0 <= j <= i && #[trigger] derived(spec)[j] == happy_path(derived(spec)[i].endpoint);
    assert(derived(spec)[j].endpoint == derived(spec)[i].endpoint);
}

/// Whether the happy path of a scenario's endpoint is there, and not after it.
pub open spec fn led_at(s: Seq<Scenario>, i: int) -> bool {
    exists|j: int| 0 <= j <= i && #[trigger] s[j] == happy_path(s[i].endpoint)
}

/// Whether no scenario comes before the happy path of its endpoint.
pub open spec fn led(s: Seq<Scenario>) -> bool {
    forall|i: int| 0 <= i < s.len() ==> #[trigger] led_at(s, i)
}

proof fn lemma_led_concat(a: Seq<Scenario>, b: Seq<Scenario>)
    requires
        led(a),
        led(b),
    ensures
        led(a + b),
{
    let s = a + b;
    assert forall|i: int| 0 <= i < s.len() implies #[trigger] led_at(s, i) by {
        if i < a.len() {
            assert(led_at(a, i));
            let j = choose|j: int| 0 <= j <= i && #[trigger] a[j] == happy_path(a[i].endpoint);
            assert(s[j] == happy_path(s[i].endpoint));
        } else {
            let k = i - a.len();
            assert(led_at(b, k));
            let j = choose|j: int| 0 <= j <= k && #[trigger] b[j] == happy_path(b[k].endpoint);
            assert(s[a.len() + j] == happy_path(s[i].endpoint));
        }
    }
}

proof fn lemma_those_at<T>(s: Seq<T>, f: spec_fn(T) -> Option<Scenario>, endpoint: Seq<char>)
    requires
        forall|x: T| #[trigger] f(x) is Some ==> f(x)->0.endpoint == endpoint,
    ensures
        forall|i: int| 0 <= i < those(s, f).len() ==> (#[trigger] those(s, f)[i]).endpoint == endpoint,
    decreases s.len(),
{
    if s.len() > 0 {
        let less = those(s.drop_last(), f);
        lemma_those_at(s.drop_last(), f, endpoint);
        let all = those(s, f);
        assert forall|i: int| 0 <= i < all.len() implies (#[trigger] all[i]).endpoint == endpoint by {
            if i < less.len() {
                assert(all[i] == less[i]);
            } else {
                assert(f(s.last()) is Some);
            }
        }
    }
}

proof fn lemma_op_led(endpoint: Seq<char>, op: OpSpec, shared: Option<Shared>)
    ensures
        led(op_scenarios(endpoint, op, shared)),
{
    let s = op_scenarios(endpoint, op, shared);
    let f = |p: ParamNode| param_scenario(endpoint, p);
    let g = |r: (Status, ResponseNode)| response_scenario(endpoint, r);
    lemma_those_at(op.parameters@, f, endpoint);
    lemma_those_at(op.responses@, g, endpoint);
    let head = seq![happy_path(endpoint)] + field_scenarios(endpoint, op, shared);
    let params = param_scenarios(endpoint, op);
    let responses = response_scenarios(endpoint, op);
    assert forall|i: int| 0 <= i < s.len() implies #[trigger] led_at(s, i) by {
        assert(s[0] == happy_path(endpoint));
        if i < head.len() {
            assert(s[i] == head[i]);
            assert(s[i].endpoint == endpoint);
        } else if i < head.len() + params.len() {
            assert(s[i] == params[i - head.len()]);
        } else {
            assert(s[i] == responses[i - head.len() - params.len()]);
        }
    }
}

proof fn lemma_method_led(method: Seq<char>, path: Seq<char>, op: Option<OpSpec>, shared: Option<Shared>)
    ensures
        led(method_scenarios(method, path, op, shared)),
{
    if let Some(o) = op {
        lemma_op_led(endpoint_text(method, path), o, shared);
    }
}

proof fn lemma_item_led(path: Seq<char>, ops: PathOps, shared: Option<Shared>)
    ensures
        led(item_scenarios(path, ops, shared)),
{
    let a = method_scenarios("GET"@, path, ops.get, shared);
    let b = method_scenarios("PUT"@, path, ops.put, shared);
    let c = method_scenarios("POST"@, path, ops.post, shared);
    let d = method_scenarios("DELETE"@, path, ops.delete, shared);
    let o = method_scenarios("OPTIONS"@, path, ops.options, shared);
    let f = method_scenarios("HEAD"@, path, ops.head, shared);
    let g = method_scenarios("PATCH"@, path, ops.patch, shared);
    let h = method_scenarios("TRACE"@, path, ops.trace, shared);
    lemma_method_led("GET"@, path, ops.get, shared);
    lemma_method_led("PUT"@, path, ops.put, shared);
    lemma_method_led("POST"@, path, ops.post, shared);
    lemma_method_led("DELETE"@, path, ops.delete, shared);
    lemma_method_led("OPTIONS"@, path, ops.options, shared);
    lemma_method_led("HEAD"@, path, ops.head, shared);
    lemma_method_led("PATCH"@, path, ops.patch, shared);
    lemma_method_led("TRACE"@, path, ops.trace, shared);
    lemma_led_concat(a, b);
    lemma_led_concat(a + b, c);
    lemma_led_concat(a + b + c, d);
    lemma_led_concat(a + b + c + d, o);
    lemma_led_concat(a + b + c + d + o, f);
    lemma_led_concat(a + b + c + d + o + f, g);
    lemma_led_concat(a + b + c + d + o + f + g, h);
}

proof fn lemma_all_led(paths: Seq<(String, PathNode)>, shared: Option<Shared>)
    ensures
        led(all_scenarios(paths, shared)),
    decreases paths.len(),
{
    if paths.len() > 0 {
        lemma_all_led(paths.drop_last(), shared);
        if let PathNode::Item(ops) = paths.last().1 {
            lemma_item_led(paths.last().0@, ops, shared);
        }
        lemma_led_concat(all_scenarios(paths.drop_last(), shared), path_scenarios(paths.last(), shared));
    }
}

proof fn lemma_merged_led(more: Seq<Scenario>)
    requires
        led(more),
    ensures
        led(merged(Seq::empty(), more)),
    decreases more.len(),
{
    if more.len() > 0 {
        let less = more.drop_last();
        let m = merged(Seq::empty(), less);
        let e = more.last();
        let n = more.len() - 1;
        assert forall|i: int| 0 <= i < less.len() implies #[trigger] led_at(less, i) by {
            assert(led_at(more, i));
            let j = choose|j: int| 0 <= j <= i && #[trigger] more[j] == happy_path(more[i].endpoint);
            assert(less[j] == happy_path(less[i].endpoint));
        }
        lemma_merged_led(less);
        law_merge_appends(Seq::empty(), less);
        let t = merged(Seq::empty(), more);
        assert forall|i: int| 0 <= i < t.len() implies #[trigger] led_at(t, i) by {
            if i < m.len() {
                assert(led_at(m, i));
                let j = choose|j: int| 0 <= j <= i && #[trigger] m[j] == happy_path(m[i].endpoint);
                assert(t[j] == happy_path(t[i].endpoint));
            } else {
                assert(t[i] == e);
                assert(led_at(more, n));
                let k = choose|k: int| 0 <= k <= n && #[trigger] more[k] == happy_path(more[n].endpoint);
                if k == n {
                    assert(t[i] == happy_path(t[i].endpoint));
                } else {
                    assert(has_key(m, less[k]));
                    let q = choose|q: int| 0 <= q < m.len() && same_key(#[trigger] m[q], less[k]);
                    assert(led_at(m, q));
                    let j = choose|j: int| 0 <= j <= q && #[trigger] m[j] == happy_path(m[q].endpoint);
                    assert(t[j] == happy_path(t[i].endpoint));
                }
            }
        }
    }
}

proof fn lemma_in_concat(a: Seq<Scenario>, b: Seq<Scenario>, e: Scenario)
    ensures
        (a + b).contains(e) <==> a.contains(e) || b.contains(e),
{
    if a.contains(e) {
        let i = choose|i: int| 0 <= i < a.len() && a[i] == e;
        assert((a + b)[i] == e);
    }
    if b.contains(e) {
        let i = choose|i: int| 0 <= i < b.len() && b[i] == e;
        assert((a + b)[a.len() + i] == e);
    }
    if (a + b).contains(e) {
        let i = choose|i: int| 0 <= i < (a + b).len() && (a + b)[i] == e;
        if i < a.len() {
            assert(a[i] == e);
        } else {
            assert(b[i - a.len()] == e);
        }
    }
}

proof fn lemma_item_holds(path: Seq<char>, ops: PathOps, shared: Option<Shared>, method: Seq<char>, e: Scenario)
    requires
        operation(ops, method) is Some,
        op_scenarios(endpoint_text(method, path), operation(ops, method)->0, shared).contains(e),
    ensures
        item_scenarios(path, ops, shared).contains(e),
{
    let a = method_scenarios("GET"@, path, ops.get, shared);
    let b = method_scenarios("PUT"@, path, ops.put, shared);
    let c = method_scenarios("POST"@, path, ops.post, shared);
    let d = method_scenarios("DELETE"@, path, ops.delete, shared);
    let o = method_scenarios("OPTIONS"@, path, ops.options, shared);
    let f = method_scenarios("HEAD"@, path, ops.head, shared);
    let g = method_scenarios("PATCH"@, path, ops.patch, shared);
    let h = method_scenarios("TRACE"@, path, ops.trace, shared);
    lemma_in_concat(a, b, e);
    lemma_in_concat(a + b, c, e);
    lemma_in_concat(a + b + c, d, e);
    lemma_in_concat(a + b + c + d, o, e);
    lemma_in_concat(a + b + c + d + o, f, e);
    lemma_in_concat(a + b + c + d + o + f, g, e);
    lemma_in_concat(a + b + c + d + o + f + g, h, e);
}

proof fn lemma_all_hold(paths: Seq<(String, PathNode)>, shared: Option<Shared>, p: int, e: Scenario)
    requires
        0 <= p < paths.len(),
        path_scenarios(paths[p], shared).contains(e),
    ensures
        all_scenarios(paths, shared).contains(e),
    decreases paths.len(),
{
    lemma_in_concat(all_scenarios(paths.drop_last(), shared), path_scenarios(paths.last(), shared), e);
    if p < paths.len() - 1 {
        lemma_all_hold(paths.drop_last(), shared, p, e);
    }
}

/// Whether an operation of the document asks for a scenario.
pub open spec fn asked_for(paths: Seq<(String, PathNode)>, shared: Option<Shared>, p: int, method: Seq<char>, e: Scenario) -> bool {
    0 <= p < paths.len() && (paths[p].1 matches PathNode::Item(ops) && (operation(ops, method) matches Some(op)
        && op_scenarios(endpoint_text(method, paths[p].0@), op, shared).contains(e)))
}

/// Every derived scenario is one that an operation of the document asks for.
pub proof fn law_derived_sound(spec: ApiSpec, e: Scenario)
    requires
        derived(spec).contains(e),
    ensures
        exists|p: int, method: Seq<char>| #[trigger] asked_for(spec.paths@, spec.components, p, method, e),
{
    let all = all_scenarios(spec.paths@, spec.components);
    law_merge_appends(Seq::empty(), all);
    let i = choose|i: int| 0 <= i < derived(spec).len() && derived(spec)[i] == e;
    assert(all.contains(derived(spec)[i]));
    lemma_all_asked(spec.paths@, spec.components, e);
}

proof fn lemma_all_asked(paths: Seq<(String, PathNode)>, shared: Option<Shared>, e: Scenario)
    requires
        all_scenarios(paths, shared).contains(e),
    ensures
        exists|p: int, method: Seq<char>| #[trigger] asked_for(paths, shared, p, method, e),
    decreases paths.len(),
{
    if paths.len() > 0 {
        let less = paths.drop_last();
        let last = paths.last();
        let n = paths.len() - 1;
        lemma_in_concat(all_scenarios(less, shared), path_scenarios(last, shared), e);
        if all_scenarios(less, shared).contains(e) {
            lemma_all_asked(less, shared, e);
            let (p, method) = choose|p: int, method: Seq<char>| #[trigger] asked_for(less, shared, p, method, e);
            assert(asked_for(paths, shared, p, method, e));
        } else {
            let ops = last.1->Item_0;
            let path = last.0@;
            lemma_item_asked(path, ops, shared, e);
            let method = choose|method: Seq<char>|
                #[trigger] operation(ops, method) is Some && op_scenarios(
                    endpoint_text(method, path),
                    operation(ops, method)->0,
                    shared,
                ).contains(e);
            assert(asked_for(paths, shared, n, method, e));
        }
    }
}

proof fn lemma_item_asked(path: Seq<char>, ops: PathOps, shared: Option<Shared>, e: Scenario)
    requires
        item_scenarios(path, ops, shared).contains(e),
    ensures
        exists|method: Seq<char>|
            #[trigger] operation(ops, method) is Some && op_scenarios(
                endpoint_text(method, path),
                operation(ops, method)->0,
                shared,
            ).contains(e),
{
    let a = method_scenarios("GET"@, path, ops.get, shared);
    let b = method_scenarios("PUT"@, path, ops.put, shared);
    let c = method_scenarios("POST"@, path, ops.post, shared);
    let d = method_scenarios("DELETE"@, path, ops.delete, shared);
    let o = method_scenarios("OPTIONS"@, path, ops.options, shared);
    let f = method_scenarios("HEAD"@, path, ops.head, shared);
    let g = method_scenarios("PATCH"@, path, ops.patch, shared);
    let h = method_scenarios("TRACE"@, path, ops.trace, shared);
    lemma_in_concat(a, b, e);
    lemma_in_concat(a + b, c, e);
    lemma_in_concat(a + b + c, d, e);
    lemma_in_concat(a + b + c + d, o, e);
    lemma_in_concat(a + b + c + d + o, f, e);
    lemma_in_concat(a + b + c + d + o + f, g, e);
    lemma_in_concat(a + b + c + d + o + f + g, h, e);
    reveal_strlit("GET");
    reveal_strlit("PUT");
    reveal_strlit("POST");
    reveal_strlit("DELETE");
    reveal_strlit("OPTIONS");
    reveal_strlit("HEAD");
    reveal_strlit("PATCH");
    reveal_strlit("TRACE");
    assert("GET"@[0] == 'G' && "PUT"@[1] == 'U' && "POST"@[1] == 'O' && "DELETE"@[0] == 'D' && "OPTIONS"@[0] == 'O'
        && "HEAD"@[0] == 'H' && "PATCH"@[1] == 'A' && "TRACE"@[0] == 'T' && "PUT"@[0] == 'P' && "POST"@[0] == 'P'
        && "PATCH"@[0] == 'P');
    assert(operation(ops, "GET"@) == ops.get);
    assert(operation(ops, "PUT"@) == ops.put);
    assert(operation(ops, "POST"@) == ops.post);
    assert(operation(ops, "DELETE"@) == ops.delete);
    assert(operation(ops, "OPTIONS"@) == ops.options);
    assert(operation(ops, "HEAD"@) == ops.head);
    assert(operation(ops, "PATCH"@) == ops.patch);
    assert(operation(ops, "TRACE"@) == ops.trace);
}

/// The id that an error response asks for: a fixed word, or for some codes a
/// word and the slug of its description.
pub open spec fn error_id(code: u16, description: Seq<char>) -> Seq<char> {
    let bare = description.len() == 0 || kebab(description).len() == 0;
    match code {
        401 => "auth-missing-token"@,
        404 => "not-found"@,
        403 => if bare {
            "auth-forbidden"@
        } else {
            "auth-"@ + kebab(description)
        },
        409 => if bare {
            "business-conflict"@
        } else {
            "business-"@ + kebab(description)
        },
        _ => if bare {
            "validation-bad-request"@
        } else {
            "validation-"@ + kebab(description)
        },
    }
}

/// Whether a response code is one of the errors that scenarios are made for.
pub open spec fn is_error(code: u16) -> bool {
    code == 400 || code == 401 || code == 403 || code == 404 || code == 409 || code == 422
}

/// A response asks for a scenario exactly where it is no `$ref` and its code is
/// one of the errors. The scenario has the endpoint, the id for the code, and
/// the response's own description, or its code where that is blank.
pub proof fn law_response_asks(endpoint: Seq<char>, code: u16, text: String, reference: String)
    ensures
        response_scenario(endpoint, (Status::Code(code), ResponseNode::Item(text))) is Some <==> is_error(code),
        response_scenario(endpoint, (Status::Code(code), ResponseNode::Item(text))) matches Some(e) ==> {
            &&& e.endpoint == endpoint
            &&& e.id == error_id(code, trimmed(text@))
            &&& trimmed(text@).len() > 0 ==> e.description == trimmed(text@)
            &&& trimmed(text@).len() == 0 ==> e.description == "response "@ + digits(code as nat)
        },
        response_scenario(endpoint, (Status::Range(code), ResponseNode::Item(text))) is None,
        response_scenario(endpoint, (Status::Code(code), ResponseNode::Reference(reference))) is None,
{
    if is_error(code) {
        reveal_with_fuel(digits, 4);
        reveal_strlit("response ");
        reveal_strlit("response 400");
        reveal_strlit("response 401");
        reveal_strlit("response 403");
        reveal_strlit("response 404");
        reveal_strlit("response 409");
        reveal_strlit("response 422");
        let n = code as nat;
        assert(digits(n) =~= seq![digit(4), digit(n / 10 % 10), digit(n % 10)]);
        assert(response_text(code) =~= "response "@ + digits(n));
    }
}

/// Every error response of every operation, unless it is a `$ref`, has a
/// derived scenario.
pub proof fn law_error_responses_derived(spec: ApiSpec, p: int, method: Seq<char>, k: int, code: u16, text: String)
    requires
        0 <= p < spec.paths@.len(),
        spec.paths@[p].1 is Item,
        operation(spec.paths@[p].1->Item_0, method) is Some,
        0 <= k < operation(spec.paths@[p].1->Item_0, method)->0.responses@.len(),
        operation(spec.paths@[p].1->Item_0, method)->0.responses@[k] == (Status::Code(code), ResponseNode::Item(text)),
        is_error(code),
    ensures
        exists|i: int|
            0 <= i < derived(spec).len() && (#[trigger] derived(spec)[i]).endpoint == method + " "@ + spec.paths@[p].0@
                && derived(spec)[i].id == error_id(code, trimmed(text@)),
{
    let op = operation(spec.paths@[p].1->Item_0, method)->0;
    let endpoint = endpoint_text(method, spec.paths@[p].0@);
    let f = |r: (Status, ResponseNode)| response_scenario(endpoint, r);
    law_response_asks(endpoint, code, text, text);
    let e = response_scenario(endpoint, op.responses@[k])->0;
    lemma_those_hold(op.responses@, f, k);
    assert(response_scenarios(endpoint, op).contains(e));
    lemma_op_holds(endpoint, op, spec.components, e);
    law_derived_complete(spec, p, method, e);
    let i = choose|i: int| 0 <= i < derived(spec).len() && same_key(#[trigger] derived(spec)[i], e);
    assert(derived(spec)[i].endpoint == endpoint);
}

/// Every field that the body of an operation requires has a derived scenario.
pub proof fn law_required_fields_derived(spec: ApiSpec, p: int, method: Seq<char>, f: Seq<char>)
    requires
        0 <= p < spec.paths@.len(),
        spec.paths@[p].1 is Item,
        operation(spec.paths@[p].1->Item_0, method) is Some,
        field_required(
            spec.components,
            body_schemas(operation(spec.paths@[p].1->Item_0, method)->0, spec.components),
            f,
        ),
    ensures
        exists|i: int|
            0 <= i < derived(spec).len() && (#[trigger] derived(spec)[i]).endpoint == method + " "@ + spec.paths@[p].0@
                && derived(spec)[i].id == "validation-"@ + kebab(f) + "-missing"@,
{
    let op = operation(spec.paths@[p].1->Item_0, method)->0;
    let endpoint = endpoint_text(method, spec.paths@[p].0@);
    law_body_fields(op, spec.components);
    let fields = body_fields(op, spec.components);
    assert(fields.contains(f));
    let k = choose|k: int| 0 <= k < fields.len() && fields[k] == f;
    let e = field_scenario(endpoint, f);
    assert(field_scenarios(endpoint, op, spec.components)[k] == e);
    lemma_op_holds(endpoint, op, spec.components, e);
    law_derived_complete(spec, p, method, e);
    let i = choose|i: int| 0 <= i < derived(spec).len() && same_key(#[trigger] derived(spec)[i], e);
    assert(derived(spec)[i].endpoint == endpoint);
}

/// Every required query or path parameter of an operation, unless it is a
/// `$ref`, has a derived scenario.
pub proof fn law_required_params_derived(spec: ApiSpec, p: int, method: Seq<char>, k: int, loc: Location, name: String)
    requires
        0 <= p < spec.paths@.len(),
        spec.paths@[p].1 is Item,
        operation(spec.paths@[p].1->Item_0, method) is Some,
        0 <= k < operation(spec.paths@[p].1->Item_0, method)->0.parameters@.len(),
        operation(spec.paths@[p].1->Item_0, method)->0.parameters@[k] == ParamNode::Item(loc, name, true),
        loc is Query || loc is Path,
    ensures
        exists|i: int|
            0 <= i < derived(spec).len() && (#[trigger] derived(spec)[i]).endpoint == method + " "@ + spec.paths@[p].0@
                && derived(spec)[i].id == "validation-"@ + (if loc is Query {
                "query"@
            } else {
                "path"@
            }) + "-"@ + kebab(name@) + "-missing"@,
{
    let op = operation(spec.paths@[p].1->Item_0, method)->0;
    let endpoint = endpoint_text(method, spec.paths@[p].0@);
    let f = |q: ParamNode| param_scenario(endpoint, q);
    let e = param_scenario(endpoint, op.parameters@[k])->0;
    lemma_those_hold(op.parameters@, f, k);
    assert(param_scenarios(endpoint, op).contains(e));
    lemma_op_holds(endpoint, op, spec.components, e);
    law_derived_complete(spec, p, method, e);
    let i = choose|i: int| 0 <= i < derived(spec).len() && same_key(#[trigger] derived(spec)[i], e);
    assert(derived(spec)[i].endpoint == endpoint);
}

/// Why a scenario is asked for by an operation.
pub open spec fn has_cause(endpoint: Seq<char>, op: OpSpec, shared: Option<Shared>, e: Scenario) -> bool {
    ||| e.id == "happy-path"@ && e.description == "happy path"@
    ||| exists|f: Seq<char>| #[trigger] field_required(shared, body_schemas(op, shared), f) && e.id == "validation-"@
        + kebab(f) + "-missing"@ && e.description == "missing required field '"@ + f + "' → 4xx"@
    ||| exists|k: int|
        0 <= k < op.parameters@.len() && (#[trigger] op.parameters@[k] matches ParamNode::Item(loc, name, required)
            && required && ((loc is Query && e.id == "validation-query-"@ + kebab(name@) + "-missing"@ && e.description
            == "missing required query param '"@ + name@ + "' → 4xx"@) || (loc is Path && e.id == "validation-path-"@
            + kebab(name@) + "-missing"@ && e.description == "missing required path param '"@ + name@ + "' → 4xx"@)))
    ||| exists|k: int|
        0 <= k < op.responses@.len() && (#[trigger] op.responses@[k] matches (Status::Code(code), ResponseNode::Item(text))
            && is_error(code) && e.id == error_id(code, trimmed(text@)) && e.description == (if trimmed(text@).len() > 0 {
            trimmed(text@)
        } else {
            "response "@ + digits(code as nat)
        }))
}

/// Every derived scenario belongs to an operation of the document, and is its
/// happy path, or stands for a required field, a required query or path
/// parameter or an error response of it. There are no others.
pub proof fn law_derived_have_causes(spec: ApiSpec, i: int)
    requires
        0 <= i < derived(spec).len(),
    ensures
        exists|p: int, method: Seq<char>|
            0 <= p < spec.paths@.len() && #[trigger] operation_at(spec, p, method) is Some && derived(spec)[i].endpoint
                == method + " "@ + spec.paths@[p].0@ && has_cause(
                derived(spec)[i].endpoint,
                operation_at(spec, p, method)->0,
                spec.components,
                derived(spec)[i],
            ),
{
    let e = derived(spec)[i];
    assert(derived(spec).contains(e));
    law_derived_sound(spec, e);
    let (p, method) = choose|p: int, method: Seq<char>|
        #[trigger] asked_for(spec.paths@, spec.components, p, method, e);
    let op = operation_at(spec, p, method)->0;
    let endpoint = endpoint_text(method, spec.paths@[p].0@);
    let shared = spec.components;
    let s = op_scenarios(endpoint, op, shared);
    let k = choose|k: int| 0 <= k < s.len() && s[k] == e;
    let a = field_scenarios(endpoint, op, shared);
    let b = param_scenarios(endpoint, op);
    let c = response_scenarios(endpoint, op);
    let f = |q: ParamNode| param_scenario(endpoint, q);
    let g = |r: (Status, ResponseNode)| response_scenario(endpoint, r);
    if k == 0 {
        assert(e == happy_path(endpoint));
    } else if k < 1 + a.len() {
        assert(e == a[k - 1]);
        law_body_fields(op, shared);
        let field = body_fields(op, shared)[k - 1];
        assert(body_fields(op, shared).contains(field));
        assert(e == field_scenario(endpoint, field));
        assert(field_required(shared, body_schemas(op, shared), field));
    } else if k < 1 + a.len() + b.len() {
        assert(e == b[k - 1 - a.len()]);
        let q = lemma_those_from(op.parameters@, f, k - 1 - a.len());
        assert(param_scenario(endpoint, op.parameters@[q]) == Some(e));
        lemma_param_id(endpoint, op.parameters@[q], e);
    } else {
        assert(e == c[k - 1 - a.len() - b.len()]);
        let q = lemma_those_from(op.responses@, g, k - 1 - a.len() - b.len());
        assert(response_scenario(endpoint, op.responses@[q]) == Some(e));
        if let (Status::Code(code), ResponseNode::Item(text)) = op.responses@[q] {
            law_response_asks(endpoint, code, text, text);
        }
    }
    assert(has_cause(e.endpoint, op, shared, e));
}

proof fn lemma_param_id(endpoint: Seq<char>, p: ParamNode, e: Scenario)
    requires
        param_scenario(endpoint, p) == Some(e),
    ensures
        e.endpoint == endpoint,
        p matches ParamNode::Item(loc, name, required) && required && ((loc is Query && e.id == "validation-query-"@
            + kebab(name@) + "-missing"@ && e.description == "missing required query param '"@ + name@ + "' → 4xx"@) || (
        loc is Path && e.id == "validation-path-"@ + kebab(name@) + "-missing"@ && e.description
            == "missing required path param '"@ + name@ + "' → 4xx"@)),
{
    let name = (p->Item_1)@;
    reveal_strlit("validation-");
    reveal_strlit("validation-query-");
    reveal_strlit("validation-path-");
    reveal_strlit("query");
    reveal_strlit("path");
    reveal_strlit("-");
    reveal_strlit("missing required ");
    reveal_strlit(" param '");
    reveal_strlit("missing required query param '");
    reveal_strlit("missing required path param '");
    assert("validation-"@ + "query"@ + "-"@ =~= "validation-query-"@);
    assert("validation-"@ + "path"@ + "-"@ =~= "validation-path-"@);
    assert("missing required "@ + "query"@ + " param '"@ =~= "missing required query param '"@);
    assert("missing required "@ + "path"@ + " param '"@ =~= "missing required path param '"@);
}

/// The operation of a path of a document for a method name.
pub open spec fn operation_at(spec: ApiSpec, p: int, method: Seq<char>) -> Option<OpSpec> {
    match spec.paths@[p].1 {
        PathNode::Item(ops) => operation(ops, method),
        PathNode::Reference(_) => None,
    }
}

/// The operations of a path go by the names of their methods, and by no other.
pub proof fn law_operation_names(ops: PathOps, method: Seq<char>)
    ensures
        operation(ops, "GET"@) == ops.get,
        operation(ops, "PUT"@) == ops.put,
        operation(ops, "POST"@) == ops.post,
        operation(ops, "DELETE"@) == ops.delete,
        operation(ops, "OPTIONS"@) == ops.options,
        operation(ops, "HEAD"@) == ops.head,
        operation(ops, "PATCH"@) == ops.patch,
        operation(ops, "TRACE"@) == ops.trace,
        method != "GET"@ && method != "PUT"@ && method != "POST"@ && method != "DELETE"@ && method != "OPTIONS"@ && method
            != "HEAD"@ && method != "PATCH"@ && method != "TRACE"@ ==> operation(ops, method) is None,
{
    reveal_strlit("GET");
    reveal_strlit("PUT");
    reveal_strlit("POST");
    reveal_strlit("DELETE");
    reveal_strlit("OPTIONS");
    reveal_strlit("HEAD");
    reveal_strlit("PATCH");
    reveal_strlit("TRACE");
    assert("GET"@[0] == 'G' && "PUT"@[1] == 'U' && "POST"@[1] == 'O' && "DELETE"@[0] == 'D' && "OPTIONS"@[0] == 'O'
        && "HEAD"@[0] == 'H' && "PATCH"@[1] == 'A' && "TRACE"@[0] == 'T' && "PUT"@[0] == 'P' && "POST"@[0] == 'P'
        && "PATCH"@[0] == 'P');
}

proof fn lemma_those_hold<T>(s: Seq<T>, f: spec_fn(T) -> Option<Scenario>, k: int)
    requires
        0 <= k < s.len(),
        f(s[k]) is Some,
    ensures
        those(s, f).contains(f(s[k])->0),
    decreases s.len(),
{
    let less = s.drop_last();
    if k < less.len() {
        lemma_those_hold(less, f, k);
        let i = choose|i: int| 0 <= i < those(less, f).len() && those(less, f)[i] == f(s[k])->0;
        assert(those(s, f)[i] == f(s[k])->0);
    } else {
        assert(those(s, f)[those(less, f).len() as int] == f(s[k])->0);
    }
}

proof fn lemma_those_from<T>(s: Seq<T>, f: spec_fn(T) -> Option<Scenario>, i: int) -> (k: int)
    requires
        0 <= i < those(s, f).len(),
    ensures
        0 <= k < s.len(),
        f(s[k]) == Some(those(s, f)[i]),
    decreases s.len(),
{
    let less = s.drop_last();
    if i < those(less, f).len() {
        lemma_those_from(less, f, i)
    } else {
        s.len() - 1
    }
}

proof fn lemma_op_holds(endpoint: Seq<char>, op: OpSpec, shared: Option<Shared>, e: Scenario)
    requires
        field_scenarios(endpoint, op, shared).contains(e) || param_scenarios(endpoint, op).contains(e)
            || response_scenarios(endpoint, op).contains(e),
    ensures
        op_scenarios(endpoint, op, shared).contains(e),
{
    let h = seq![happy_path(endpoint)];
    let a = field_scenarios(endpoint, op, shared);
    let b = param_scenarios(endpoint, op);
    let c = response_scenarios(endpoint, op);
    lemma_in_concat(h, a, e);
    lemma_in_concat(h + a, b, e);
    lemma_in_concat(h + a + b, c, e);
}

/// A response is warned of exactly where an earlier one of the operation asks
/// for the same id.
pub proof fn law_repeats_warned(endpoint: Seq<char>, responses: Seq<(Status, ResponseNode)>, j: int, k: int)
    requires
        0 <= j < k < responses.len(),
        response_scenario(endpoint, responses[j]) is Some,
        response_scenario(endpoint, responses[k]) is Some,
        response_scenario(endpoint, responses[j])->0.id == response_scenario(endpoint, responses[k])->0.id,
    ensures
        repeats(endpoint, responses).contains(
            "sync: duplicate scenario slug '"@ + response_scenario(endpoint, responses[k])->0.id + "' under "@ + endpoint
                + "; keeping first"@,
        ),
    decreases responses.len(),
{
    let less = responses.drop_last();
    let f = |r: (Status, ResponseNode)| response_scenario(endpoint, r);
    let e = response_scenario(endpoint, responses[k])->0;
    lemma_response_endpoint(endpoint, responses[j]);
    lemma_response_endpoint(endpoint, responses[k]);
    if k < less.len() {
        law_repeats_warned(endpoint, less, j, k);
        let i = choose|i: int| 0 <= i < repeats(endpoint, less).len() && repeats(endpoint, less)[i] == repeat_text(e);
        assert(repeats(endpoint, responses)[i] == repeat_text(e));
    } else {
        lemma_those_hold(less, f, j);
        let earlier = those(less, f);
        let i = choose|i: int| 0 <= i < earlier.len() && earlier[i] == f(less[j])->0;
        assert(same_key(earlier[i], e));
        assert(has_key(earlier, e));
        assert(repeats(endpoint, responses)[repeats(endpoint, less).len() as int] == repeat_text(e));
    }
}

proof fn lemma_response_endpoint(endpoint: Seq<char>, r: (Status, ResponseNode))
    ensures
        response_scenario(endpoint, r) matches Some(e) ==> e.endpoint == endpoint,
{
}

/// Where the responses of an operation ask for different ids, none is warned
/// of.
pub proof fn law_no_repeats_unwarned(endpoint: Seq<char>, responses: Seq<(Status, ResponseNode)>)
    requires
        forall|j: int, k: int|
            0 <= j < k < responses.len() && response_scenario(endpoint, #[trigger] responses[j]) is Some
                && response_scenario(endpoint, #[trigger] responses[k]) is Some ==> response_scenario(
                endpoint,
                responses[j],
            )->0.id != response_scenario(endpoint, responses[k])->0.id,
    ensures
        repeats(endpoint, responses).len() == 0,
    decreases responses.len(),
{
    if responses.len() > 0 {
        let less = responses.drop_last();
        let n = responses.len() - 1;
        let f = |r: (Status, ResponseNode)| response_scenario(endpoint, r);
        assert forall|j: int, k: int|
            0 <= j < k < less.len() && response_scenario(endpoint, #[trigger] less[j]) is Some && response_scenario(
                endpoint,
                #[trigger] less[k],
            ) is Some implies response_scenario(endpoint, less[j])->0.id != response_scenario(endpoint, less[k])->0.id by {
            assert(less[j] == responses[j] && less[k] == responses[k]);
        }
        law_no_repeats_unwarned(endpoint, less);
        if let Some(e) = response_scenario(endpoint, responses.last()) {
            let earlier = those(less, f);
            if has_key(earlier, e) {
                let i = choose|i: int| 0 <= i < earlier.len() && same_key(#[trigger] earlier[i], e);
                let q = lemma_those_from(less, f, i);
                assert(responses[q] == less[q] && responses[n] == responses.last());
            }
        }
    }
}

/// Of scenarios with the same endpoint and the same id the first is kept, and no
/// other; those that are kept stay in order.
pub proof fn law_first_of_each_kept(all: Seq<Scenario>) -> (at: Seq<int>)
    ensures
        keeps_places(
            at,
            all.len(),
            |k: int|
                forall|j: int| 0 <= j < k ==> !((#[trigger] all[j]).endpoint == all[k].endpoint && all[j].id == all[k].id),
        ),
        merged(Seq::empty(), all).len() == at.len(),
        forall|i: int| 0 <= i < at.len() ==> #[trigger] merged(Seq::empty(), all)[i] == all[at[i]],
    decreases all.len(),
{
    let keep = |k: int|
        forall|j: int| 0 <= j < k ==> !((#[trigger] all[j]).endpoint == all[k].endpoint && all[j].id == all[k].id);
    if all.len() == 0 {
        let at = Seq::<int>::empty();
        assert(keeps_places(at, 0, keep));
        at
    } else {
        let less = all.drop_last();
        let fewer = |k: int|
            forall|j: int| 0 <= j < k ==> !((#[trigger] less[j]).endpoint == less[k].endpoint && less[j].id == less[k].id);
        let before = law_first_of_each_kept(less);
        let m = merged(Seq::empty(), less);
        let n = less.len() as int;
        assert forall|k: int| 0 <= k < n implies fewer(k) == #[trigger] keep(k) by {
            assert(less[k] == all[k]);
            assert forall|j: int| 0 <= j < k implies #[trigger] less[j] == all[j] by {}
            if fewer(k) {
                assert forall|j: int| 0 <= j < k implies !((#[trigger] all[j]).endpoint == all[k].endpoint && all[j].id
                    == all[k].id) by {
                    assert(less[j] == all[j]);
                }
            }
        }
        let at = lemma_places_more(before, less.len(), fewer, keep);
        if has_key(m, all[n]) {
            let i = choose|i: int| 0 <= i < m.len() && same_key(#[trigger] m[i], all[n]);
            assert(m[i] == less[before[i]]);
            assert(all[before[i]] == less[before[i]]);
            assert(!keep(n));
        } else {
            assert forall|j: int| 0 <= j < n implies !((#[trigger] all[j]).endpoint == all[n].endpoint && all[j].id
                == all[n].id) by {
                lemma_key_kept(less, j);
                assert(less[j] == all[j]);
                if all[j].endpoint == all[n].endpoint && all[j].id == all[n].id {
                    let i = choose|i: int| 0 <= i < m.len() && same_key(#[trigger] m[i], less[j]);
                    assert(same_key(m[i], all[n]));
                }
            }
            assert(keep(n));
        }
        assert forall|i: int| 0 <= i < at.len() implies #[trigger] merged(Seq::empty(), all)[i] == all[at[i]] by {
            if i < before.len() {
                assert(m[i] == less[before[i]]);
            }
        }
        at
    }
}

proof fn lemma_key_kept(all: Seq<Scenario>, j: int)
    requires
        0 <= j < all.len(),
    ensures
        has_key(merged(Seq::empty(), all), all[j]),
{
    law_merge_appends(Seq::empty(), all);
}

/// What an operation asks for comes in this order: that it works, then each
/// required field, each required parameter and each response.
pub proof fn law_operation_order(endpoint: Seq<char>, op: OpSpec, shared: Option<Shared>)
    ensures
        ({
            let s = op_scenarios(endpoint, op, shared);
            let a = field_scenarios(endpoint, op, shared);
            let b = param_scenarios(endpoint, op);
            let c = response_scenarios(endpoint, op);
            &&& s.len() == 1 + a.len() + b.len() + c.len()
            &&& s[0].endpoint == endpoint && s[0].id == "happy-path"@ && s[0].description == "happy path"@
            &&& forall|i: int| 0 <= i < a.len() ==> s[1 + i] == #[trigger] a[i]
            &&& forall|i: int| 0 <= i < b.len() ==> s[1 + a.len() + i] == #[trigger] b[i]
            &&& forall|i: int| 0 <= i < c.len() ==> s[1 + a.len() + b.len() + i] == #[trigger] c[i]
        }),
{
}

/// The fields of a request body are asked for in order, each with its name.
pub proof fn law_fields_in_order(endpoint: Seq<char>, op: OpSpec, shared: Option<Shared>, i: int)
    requires
        0 <= i < body_fields(op, shared).len(),
    ensures
        field_scenarios(endpoint, op, shared).len() == body_fields(op, shared).len(),
        ({
            let e = field_scenarios(endpoint, op, shared)[i];
            let f = body_fields(op, shared)[i];
            &&& e.endpoint == endpoint
            &&& e.id == "validation-"@ + kebab(f) + "-missing"@
            &&& e.description == "missing required field '"@ + f + "' → 4xx"@
        }),
{
}

/// What a list asks for is what each of its parts asks for, in order, and nothing
/// for those that ask for nothing.
pub proof fn law_asked_at_their_places<T>(s: Seq<T>, f: spec_fn(T) -> Option<Scenario>) -> (at: Seq<int>)
    ensures
        keeps_places(at, s.len(), |k: int| f(s[k]) is Some),
        those(s, f).len() == at.len(),
        forall|i: int| 0 <= i < at.len() ==> f(s[at[i]]) == Some(#[trigger] those(s, f)[i]),
    decreases s.len(),
{
    let keep = |k: int| f(s[k]) is Some;
    if s.len() == 0 {
        let at = Seq::<int>::empty();
        assert(keeps_places(at, 0, keep));
        at
    } else {
        let less = s.drop_last();
        let fewer = |k: int| f(less[k]) is Some;
        let before = law_asked_at_their_places(less, f);
        assert forall|k: int| 0 <= k < less.len() implies fewer(k) == #[trigger] keep(k) by {
            assert(less[k] == s[k]);
        }
        let at = lemma_places_more(before, less.len(), fewer, keep);
        assert forall|i: int| 0 <= i < at.len() implies f(s[at[i]]) == Some(#[trigger] those(s, f)[i]) by {
            if i < before.len() {
                assert(those(less, f)[i] == those(s, f)[i]);
                assert(less[before[i]] == s[at[i]]);
            }
        }
        at
    }
}

/// The parameters and the responses of an operation are asked for in order, each
/// for itself.
pub proof fn law_parts_asked(endpoint: Seq<char>, op: OpSpec, i: int, j: int) -> (at: (Seq<int>, Seq<int>))
    ensures
        keeps_places(at.0, op.parameters@.len(), |k: int| param_scenario(endpoint, op.parameters@[k]) is Some),
        keeps_places(at.1, op.responses@.len(), |k: int| response_scenario(endpoint, op.responses@[k]) is Some),
        param_scenarios(endpoint, op).len() == at.0.len(),
        response_scenarios(endpoint, op).len() == at.1.len(),
        0 <= i < at.0.len() ==> param_scenario(endpoint, op.parameters@[at.0[i]]) == Some(param_scenarios(endpoint, op)[i]),
        0 <= j < at.1.len() ==> response_scenario(endpoint, op.responses@[at.1[j]]) == Some(
            response_scenarios(endpoint, op)[j],
        ),
{
    let f = |p: ParamNode| param_scenario(endpoint, p);
    let g = |r: (Status, ResponseNode)| response_scenario(endpoint, r);
    let a = law_asked_at_their_places(op.parameters@, f);
    let b = law_asked_at_their_places(op.responses@, g);
    let keep_a = |k: int| param_scenario(endpoint, op.parameters@[k]) is Some;
    let keep_b = |k: int| response_scenario(endpoint, op.responses@[k]) is Some;
    assert forall|k: int| 0 <= k < op.parameters@.len() implies (#[trigger] a.contains(k) <==> keep_a(k)) by {}
    assert forall|k: int| 0 <= k < op.responses@.len() implies (#[trigger] b.contains(k) <==> keep_b(k)) by {}
    assert(keeps_places(a, op.parameters@.len(), keep_a));
    assert(keeps_places(b, op.responses@.len(), keep_b));
    if 0 <= i < a.len() {
        assert(f(op.parameters@[a[i]]) == Some(those(op.parameters@, f)[i]));
    }
    if 0 <= j < b.len() {
        assert(g(op.responses@[b[j]]) == Some(those(op.responses@, g)[j]));
    }
    (a, b)
}

/// The operations of a path are asked for in this order, under their own names.
pub proof fn law_methods_in_order(path: Seq<char>, ops: PathOps, shared: Option<Shared>)
    ensures
        item_scenarios(path, ops, shared) == asked("GET"@, path, ops.get, shared) + asked("PUT"@, path, ops.put, shared)
            + asked("POST"@, path, ops.post, shared) + asked("DELETE"@, path, ops.delete, shared) + asked(
            "OPTIONS"@,
            path,
            ops.options,
            shared,
        ) + asked("HEAD"@, path, ops.head, shared) + asked("PATCH"@, path, ops.patch, shared) + asked(
            "TRACE"@,
            path,
            ops.trace,
            shared,
        ),
{
}

/// What an operation asks for under its method and its path, where there is one.
pub open spec fn asked(method: Seq<char>, path: Seq<char>, op: Option<OpSpec>, shared: Option<Shared>) -> Seq<Scenario> {
    match op {
        Some(o) => op_scenarios(method + " "@ + path, o, shared),
        None => Seq::empty(),
    }
}

/// The paths of a document are asked for in order; one that only refers to
/// another asks for nothing.
pub proof fn law_paths_in_order(
    before: Seq<(String, PathNode)>,
    path: String,
    ops: PathOps,
    reference: String,
    shared: Option<Shared>,
)
    ensures
        all_scenarios(Seq::empty(), shared).len() == 0,
        all_scenarios(before.push((path, PathNode::Item(ops))), shared) == all_scenarios(before, shared) + item_scenarios(
            path@,
            ops,
            shared,
        ),
        all_scenarios(before.push((path, PathNode::Reference(reference))), shared) == all_scenarios(before, shared),
        all_repeats(Seq::empty()).len() == 0,
        all_repeats(before.push((path, PathNode::Reference(reference)))) == all_repeats(before),
        all_repeats(before.push((path, PathNode::Item(ops)))) == all_repeats(before) + item_repeats(path@, ops),
{
    assert(before.push((path, PathNode::Item(ops))).drop_last() =~= before);
    assert(before.push((path, PathNode::Reference(reference))).drop_last() =~= before);
    assert(all_scenarios(before, shared) + Seq::<Scenario>::empty() =~= all_scenarios(before, shared));
}

/// Each operation of a path is warned of for itself, in the order in which they
/// are asked for.
pub proof fn law_repeats_in_order(path: Seq<char>, ops: PathOps)
    ensures
        item_repeats(path, ops) == warned("GET"@, path, ops.get) + warned("PUT"@, path, ops.put) + warned(
            "POST"@,
            path,
            ops.post,
        ) + warned("DELETE"@, path, ops.delete) + warned("OPTIONS"@, path, ops.options) + warned("HEAD"@, path, ops.head)
            + warned("PATCH"@, path, ops.patch) + warned("TRACE"@, path, ops.trace),
{
}

/// What is warned of for an operation, where there is one.
pub open spec fn warned(method: Seq<char>, path: Seq<char>, op: Option<OpSpec>) -> Seq<Seq<char>> {
    match op {
        Some(o) => repeats(method + " "@ + path, o.responses@),
        None => Seq::empty(),
    }
}

} // verus!
