//! The parts of an OpenAPI v3 document that scenario derivation reads.

use crate::ordered::{ascending, insert_ascending, lemma_ascending_unique, lemma_sorted};
use crate::text::{begins, holds, same, strip_prefix, views};
use vstd::prelude::*;

verus! {

/// A schema as far as it can require fields.
pub enum SchemaNode {
    /// A `$ref`.
    Reference(String),
    /// An object schema, with its `required` list.
    Object(Vec<String>),
    OneOf(Vec<SchemaNode>),
    AnyOf(Vec<SchemaNode>),
    AllOf(Vec<SchemaNode>),
    /// A schema without a type, or of several kinds at once, by its parts: its
    /// `required` list as an object schema, and its branches.
    Mixed(Vec<SchemaNode>),
    /// A schema of any other kind: a type that has no fields, or a `not`.
    Other,
}

/// A request body: a `$ref`, or the schema of each media type.
pub enum BodyNode {
    Reference(String),
    Content(Vec<Option<SchemaNode>>),
}

/// Where a parameter is sent.
pub enum Location {
    Query,
    Path,
    Header,
    Cookie,
}

/// A parameter of an operation: a `$ref`, or the parameter itself.
pub enum ParamNode {
    Reference(String),
    Item(Location, String, bool),
}

/// The key of a response.
pub enum Status {
    Code(u16),
    Range(u16),
}

/// A response: a `$ref`, or its description.
pub enum ResponseNode {
    Reference(String),
    Item(String),
}

/// One operation of a path.
pub struct OpSpec {
    pub body: Option<BodyNode>,
    pub parameters: Vec<ParamNode>,
    pub responses: Vec<(Status, ResponseNode)>,
}

/// The operations of a path, by method.
pub struct PathOps {
    pub get: Option<OpSpec>,
    pub put: Option<OpSpec>,
    pub post: Option<OpSpec>,
    pub delete: Option<OpSpec>,
    pub options: Option<OpSpec>,
    pub head: Option<OpSpec>,
    pub patch: Option<OpSpec>,
    pub trace: Option<OpSpec>,
}

/// A path of a document: a `$ref`, or its operations.
pub enum PathNode {
    Reference(String),
    Item(PathOps),
}

/// The named schemas and request bodies of a document.
pub struct Shared {
    pub schemas: Vec<(String, SchemaNode)>,
    pub request_bodies: Vec<(String, BodyNode)>,
}

/// A document, as far as scenarios are derived from it.
pub struct ApiSpec {
    pub paths: Vec<(String, PathNode)>,
    pub components: Option<Shared>,
}


/// Whether `node` requires the field `f` without following a `$ref`.
pub open spec fn requires_field(node: SchemaNode, f: Seq<char>) -> bool
    decreases node,
{
    match node {
        SchemaNode::Object(required) => views(required@).contains(f),
        SchemaNode::OneOf(v) => exists|i: int| 0 <= i < v@.len() && requires_field(#[trigger] v@[i], f),
        SchemaNode::AnyOf(v) => exists|i: int| 0 <= i < v@.len() && requires_field(#[trigger] v@[i], f),
        SchemaNode::AllOf(v) => exists|i: int| 0 <= i < v@.len() && requires_field(#[trigger] v@[i], f),
        SchemaNode::Mixed(v) => exists|i: int| 0 <= i < v@.len() && requires_field(#[trigger] v@[i], f),
        _ => false,
    }
}

/// Whether the `$ref` `r` stands in `node`.
pub open spec fn mentions(node: SchemaNode, r: Seq<char>) -> bool
    decreases node,
{
    match node {
        SchemaNode::Reference(s) => s@ == r,
        SchemaNode::OneOf(v) => exists|i: int| 0 <= i < v@.len() && mentions(#[trigger] v@[i], r),
        SchemaNode::AnyOf(v) => exists|i: int| 0 <= i < v@.len() && mentions(#[trigger] v@[i], r),
        SchemaNode::AllOf(v) => exists|i: int| 0 <= i < v@.len() && mentions(#[trigger] v@[i], r),
        SchemaNode::Mixed(v) => exists|i: int| 0 <= i < v@.len() && mentions(#[trigger] v@[i], r),
        _ => false,
    }
}


/// What a list of named things holds under `name`.
pub open spec fn named<T>(parts: Seq<(String, T)>, name: Seq<char>) -> Option<T>
    decreases parts.len(),
{
    if parts.len() == 0 {
        None
    } else if parts[0].0@ == name {
        Some(parts[0].1)
    } else {
        named(parts.skip(1), name)
    }
}

proof fn lemma_named<T>(parts: Seq<(String, T)>, name: Seq<char>)
    ensures
        named(parts, name) is Some ==> exists|i: int| 0 <= i < parts.len() && #[trigger] parts[i].0@ == name,
    decreases parts.len(),
{
    if parts.len() > 0 && parts[0].0@ != name {
        lemma_named(parts.skip(1), name);
        if named(parts, name) is Some {
            let i = choose|i: int| 0 <= i < parts.skip(1).len() && #[trigger] parts.skip(1)[i].0@ == name;
            assert(parts[i + 1].0@ == name);
        }
    }
}

fn find_named<'a, T>(parts: &'a Vec<(String, T)>, name: &str) -> (r: Option<&'a T>)
    ensures
        r is Some == named(parts@, name@) is Some,
        r matches Some(t) ==> named(parts@, name@) == Some(*t),
{
    let mut i: usize = 0;
    assert(parts@.skip(0) =~= parts@);
    while i < parts.len()
        invariant
            0 <= i <= parts@.len(),
            named(parts@, name@) == named(parts@.skip(i as int), name@),
        decreases parts.len() - i,
    {
        assert(parts@.skip(i as int)[0] == parts@[i as int]);
        if same(parts[i].0.as_str(), name) {
            return Some(&parts[i].1);
        }
        assert(parts@.skip(i as int).skip(1) =~= parts@.skip(i + 1));
        i = i + 1;
    }
    None
}

/// The schema that `r` names after at most `hops` lookups, each but the last
/// of which finds another `$ref`.
pub open spec fn follow_schema(schemas: Seq<(String, SchemaNode)>, r: Seq<char>, hops: nat) -> Option<SchemaNode>
    decreases hops,
{
    if hops == 0 || !begins(r, "#/components/schemas/"@) {
        None
    } else {
        match named(schemas, r.skip("#/components/schemas/"@.len() as int)) {
            Some(SchemaNode::Reference(next)) => follow_schema(schemas, next@, (hops - 1) as nat),
            found => found,
        }
    }
}

/// The schema that the `$ref` `r` stands for. A chain of names that leads
/// back into itself stands for none.
pub open spec fn schema_target(shared: Option<Shared>, r: Seq<char>) -> Option<SchemaNode> {
    match shared {
        Some(s) => follow_schema(s.schemas@, r, s.schemas@.len()),
        None => None,
    }
}

/// The body that `r` names after at most `hops` lookups.
pub open spec fn follow_body(bodies: Seq<(String, BodyNode)>, r: Seq<char>, hops: nat) -> Option<BodyNode>
    decreases hops,
{
    if hops == 0 || !begins(r, "#/components/requestBodies/"@) {
        None
    } else {
        match named(bodies, r.skip("#/components/requestBodies/"@.len() as int)) {
            Some(BodyNode::Reference(next)) => follow_body(bodies, next@, (hops - 1) as nat),
            found => found,
        }
    }
}

/// The request body that the `$ref` `r` stands for.
pub open spec fn body_target(shared: Option<Shared>, r: Seq<char>) -> Option<BodyNode> {
    match shared {
        Some(s) => follow_body(s.request_bodies@, r, s.request_bodies@.len()),
        None => None,
    }
}

/// The schema that a `$ref` stands for.
pub fn resolve_schema_ref<'a>(reference: &str, shared: &'a Option<Shared>) -> (r: Option<&'a SchemaNode>)
    ensures
        r is Some == schema_target(*shared, reference@) is Some,
        r matches Some(n) ==> schema_target(*shared, reference@) == Some(*n),
{
    let Some(parts) = shared else {
        return None;
    };
    let mut current: String = reference.to_owned();
    let mut hops: usize = parts.schemas.len();
    while hops > 0
        invariant
            *shared == Some(*parts),
            follow_schema(parts.schemas@, reference@, parts.schemas@.len()) == follow_schema(
                parts.schemas@,
                current@,
                hops as nat,
            ),
        decreases hops,
    {
        let Some(name) = strip_prefix(current.as_str(), "#/components/schemas/") else {
            return None;
        };
        match find_named(&parts.schemas, name.as_str()) {
            Some(SchemaNode::Reference(next)) => {
                current = next.clone();
            },
            found => {
                return found;
            },
        }
        hops = hops - 1;
    }
    None
}

/// The request body that a `$ref` stands for.
pub fn resolve_request_body_ref<'a>(reference: &str, shared: &'a Option<Shared>) -> (r: Option<&'a BodyNode>)
    ensures
        r is Some == body_target(*shared, reference@) is Some,
        r matches Some(n) ==> body_target(*shared, reference@) == Some(*n),
{
    let Some(parts) = shared else {
        return None;
    };
    let mut current: String = reference.to_owned();
    let mut hops: usize = parts.request_bodies.len();
    while hops > 0
        invariant
            *shared == Some(*parts),
            follow_body(parts.request_bodies@, reference@, parts.request_bodies@.len()) == follow_body(
                parts.request_bodies@,
                current@,
                hops as nat,
            ),
        decreases hops,
    {
        let Some(name) = strip_prefix(current.as_str(), "#/components/requestBodies/") else {
            return None;
        };
        match find_named(&parts.request_bodies, name.as_str()) {
            Some(BodyNode::Reference(next)) => {
                current = next.clone();
            },
            found => {
                return found;
            },
        }
        hops = hops - 1;
    }
    None
}

/// Whether a schema of the list requires `f` without following a `$ref`.
pub open spec fn list_requires(list: Seq<SchemaNode>, f: Seq<char>) -> bool {
    exists|i: int| 0 <= i < list.len() && #[trigger] requires_field(list[i], f)
}

/// Whether the `$ref` `r` stands in a schema of the list.
pub open spec fn list_mentions(list: Seq<SchemaNode>, r: Seq<char>) -> bool {
    exists|i: int| 0 <= i < list.len() && #[trigger] mentions(list[i], r)
}

/// Whether the `$ref` `r` stands in what the `$ref` `via` stands for.
pub open spec fn refers(shared: Option<Shared>, via: Seq<char>, r: Seq<char>) -> bool {
    schema_target(shared, via) matches Some(t) && mentions(t, r)
}

/// Whether the schemas of the list lead to the `$ref` `r` through `n` others.
pub open spec fn leads(shared: Option<Shared>, list: Seq<SchemaNode>, r: Seq<char>, n: nat) -> bool
    decreases n,
{
    if n == 0 {
        list_mentions(list, r)
    } else {
        exists|via: Seq<char>| #[trigger] refers(shared, via, r) && leads(shared, list, via, (n - 1) as nat)
    }
}

/// Whether the schemas of the list lead to the `$ref` `r`.
pub open spec fn reaches(shared: Option<Shared>, list: Seq<SchemaNode>, r: Seq<char>) -> bool {
    exists|n: nat| leads(shared, list, r, n)
}

/// Whether the schemas of the list, or any that they lead to, require `f`.
pub open spec fn field_required(shared: Option<Shared>, list: Seq<SchemaNode>, f: Seq<char>) -> bool {
    ||| list_requires(list, f)
    ||| exists|r: Seq<char>|
        #![trigger reaches(shared, list, r)]
        reaches(shared, list, r) && (schema_target(shared, r) matches Some(t) && requires_field(t, f))
}


/// Whether all that the `$ref` `r` stands for has been taken in: its fields
/// are in `out` and its own `$ref`s in `visited`.
spec fn taken_in(shared: Option<Shared>, r: Seq<char>, out: Seq<Seq<char>>, visited: Seq<Seq<char>>) -> bool {
    schema_target(shared, r) matches Some(t) ==> {
        &&& forall|f: Seq<char>| requires_field(t, f) ==> #[trigger] out.contains(f)
        &&& forall|q: Seq<char>| mentions(t, q) ==> #[trigger] visited.contains(q)
    }
}

/// How a walk over `list` takes `out` and `visited` further.
spec fn walked(
    shared: Option<Shared>,
    list: Seq<SchemaNode>,
    out0: Seq<Seq<char>>,
    visited0: Seq<Seq<char>>,
    out1: Seq<Seq<char>>,
    visited1: Seq<Seq<char>>,
) -> bool {
    &&& forall|f: Seq<char>| out0.contains(f) ==> #[trigger] out1.contains(f)
    &&& forall|r: Seq<char>| visited0.contains(r) ==> #[trigger] visited1.contains(r)
    &&& forall|f: Seq<char>| list_requires(list, f) ==> #[trigger] out1.contains(f)
    &&& forall|r: Seq<char>| list_mentions(list, r) ==> #[trigger] visited1.contains(r)
    &&& forall|r: Seq<char>| #[trigger] visited1.contains(r) && !visited0.contains(r) ==> taken_in(shared, r, out1, visited1)
    &&& forall|r: Seq<char>| #[trigger] visited1.contains(r) && !visited0.contains(r) ==> reaches(shared, list, r)
    &&& forall|f: Seq<char>| #[trigger] out1.contains(f) && !out0.contains(f) ==> field_required(shared, list, f)
}

/// The number of named schemas that `visited` does not hold.
spec fn unvisited(schemas: Seq<(String, SchemaNode)>, visited: Seq<Seq<char>>) -> nat
    decreases schemas.len(),
{
    if schemas.len() == 0 {
        0
    } else {
        let rest = unvisited(schemas.drop_last(), visited);
        if visited.contains("#/components/schemas/"@ + schemas.last().0@) {
            rest
        } else {
            rest + 1
        }
    }
}

spec fn shared_unvisited(shared: Option<Shared>, visited: Seq<Seq<char>>) -> nat {
    match shared {
        Some(s) => unvisited(s.schemas@, visited),
        None => 0,
    }
}

proof fn lemma_unvisited_shrinks(schemas: Seq<(String, SchemaNode)>, v0: Seq<Seq<char>>, v1: Seq<Seq<char>>)
    requires
        forall|r: Seq<char>| v0.contains(r) ==> #[trigger] v1.contains(r),
    ensures
        unvisited(schemas, v1) <= unvisited(schemas, v0),
        forall|i: int|
            0 <= i < schemas.len() && v1.contains("#/components/schemas/"@ + schemas[i].0@) && !v0.contains(
                "#/components/schemas/"@ + (#[trigger] schemas[i]).0@,
            ) ==> unvisited(schemas, v1) < unvisited(schemas, v0),
    decreases schemas.len(),
{
    if schemas.len() > 0 {
        lemma_unvisited_shrinks(schemas.drop_last(), v0, v1);
        assert forall|i: int|
            0 <= i < schemas.len() && v1.contains("#/components/schemas/"@ + schemas[i].0@) && !v0.contains(
                "#/components/schemas/"@ + (#[trigger] schemas[i]).0@,
            ) implies unvisited(schemas, v1) < unvisited(schemas, v0) by {
            if i < schemas.len() - 1 {
                assert(schemas.drop_last()[i] == schemas[i]);
            }
        }
    }
}

/// A `$ref` that stands for a schema is one of the named ones.
proof fn lemma_target_is_named(shared: Option<Shared>, r: Seq<char>, v0: Seq<Seq<char>>, v1: Seq<Seq<char>>)
    requires
        schema_target(shared, r) is Some,
        forall|q: Seq<char>| v0.contains(q) ==> #[trigger] v1.contains(q),
        v1.contains(r),
        !v0.contains(r),
    ensures
        shared_unvisited(shared, v1) < shared_unvisited(shared, v0),
{
    let schemas = shared->0.schemas@;
    let prefix = "#/components/schemas/"@;
    lemma_unvisited_shrinks(schemas, v0, v1);
    assert(begins(r, prefix));
    let name = r.skip(prefix.len() as int);
    lemma_named(schemas, name);
    let i = choose|i: int| 0 <= i < schemas.len() && #[trigger] schemas[i].0@ == name;
    assert(prefix + name =~= r) by {
        assert(r =~= r.take(prefix.len() as int) + r.skip(prefix.len() as int));
    }
    assert(v1.contains(prefix + schemas[i].0@));
}

proof fn lemma_target_is_schema(schemas: Seq<(String, SchemaNode)>, r: Seq<char>, hops: nat)
    ensures
        follow_schema(schemas, r, hops) matches Some(t) ==> !(t is Reference),
    decreases hops,
{
    if hops > 0 && begins(r, "#/components/schemas/"@) {
        match named(schemas, r.skip("#/components/schemas/"@.len() as int)) {
            Some(SchemaNode::Reference(next)) => lemma_target_is_schema(schemas, next@, (hops - 1) as nat),
            _ => {},
        }
    }
}

proof fn lemma_shared_unvisited_shrinks(shared: Option<Shared>, v0: Seq<Seq<char>>, v1: Seq<Seq<char>>)
    requires
        forall|q: Seq<char>| v0.contains(q) ==> #[trigger] v1.contains(q),
    ensures
        shared_unvisited(shared, v1) <= shared_unvisited(shared, v0),
{
    if shared is Some {
        lemma_unvisited_shrinks(shared->0.schemas@, v0, v1);
    }
}

/// What a part of a list leads to, the list leads to.
proof fn lemma_leads_more(shared: Option<Shared>, part: Seq<SchemaNode>, list: Seq<SchemaNode>, r: Seq<char>, n: nat)
    requires
        forall|q: Seq<char>| #[trigger] list_mentions(part, q) ==> list_mentions(list, q),
        leads(shared, part, r, n),
    ensures
        leads(shared, list, r, n),
    decreases n,
{
    if n > 0 {
        let via = choose|via: Seq<char>| #[trigger] refers(shared, via, r) && leads(shared, part, via, (n - 1) as nat);
        lemma_leads_more(shared, part, list, via, (n - 1) as nat);
    }
}

proof fn lemma_required_more(shared: Option<Shared>, part: Seq<SchemaNode>, list: Seq<SchemaNode>)
    requires
        forall|q: Seq<char>| #[trigger] list_mentions(part, q) ==> list_mentions(list, q),
        forall|f: Seq<char>| #[trigger] list_requires(part, f) ==> list_requires(list, f),
    ensures
        forall|r: Seq<char>| #[trigger] reaches(shared, part, r) ==> reaches(shared, list, r),
        forall|f: Seq<char>| #[trigger] field_required(shared, part, f) ==> field_required(shared, list, f),
{
    assert forall|r: Seq<char>| #[trigger] reaches(shared, part, r) implies reaches(shared, list, r) by {
        let n = choose|n: nat| leads(shared, part, r, n);
        lemma_leads_more(shared, part, list, r, n);
    }
    assert forall|f: Seq<char>| #[trigger] field_required(shared, part, f) implies field_required(shared, list, f) by {
        if !list_requires(part, f) {
            let r = choose|r: Seq<char>|
                #![trigger reaches(shared, part, r)]
                reaches(shared, part, r) && (schema_target(shared, r) matches Some(t) && requires_field(t, f));
            assert(reaches(shared, list, r));
        }
    }
}

/// What the target of a `$ref` leads to, the `$ref` leads to.
proof fn lemma_leads_through(shared: Option<Shared>, list: Seq<SchemaNode>, s: Seq<char>, t: SchemaNode, r: Seq<char>, n: nat)
    requires
        list_mentions(list, s),
        schema_target(shared, s) == Some(t),
        leads(shared, seq![t], r, n),
    ensures
        leads(shared, list, r, n + 1),
    decreases n,
{
    if n == 0 {
        let i = choose|i: int| 0 <= i < seq![t].len() && #[trigger] mentions(seq![t][i], r);
        assert(refers(shared, s, r));
        assert(leads(shared, list, s, 0));
    } else {
        let via = choose|via: Seq<char>| #[trigger] refers(shared, via, r) && leads(shared, seq![t], via, (n - 1) as nat);
        lemma_leads_through(shared, list, s, t, via, (n - 1) as nat);
        assert(refers(shared, via, r));
    }
}

proof fn lemma_required_through(shared: Option<Shared>, list: Seq<SchemaNode>, s: Seq<char>, t: SchemaNode)
    requires
        list_mentions(list, s),
        schema_target(shared, s) == Some(t),
    ensures
        reaches(shared, list, s),
        forall|r: Seq<char>| #[trigger] reaches(shared, seq![t], r) ==> reaches(shared, list, r),
        forall|f: Seq<char>| #[trigger] field_required(shared, seq![t], f) ==> field_required(shared, list, f),
{
    assert(leads(shared, list, s, 0));
    assert forall|r: Seq<char>| #[trigger] reaches(shared, seq![t], r) implies reaches(shared, list, r) by {
        let n = choose|n: nat| leads(shared, seq![t], r, n);
        lemma_leads_through(shared, list, s, t, r, n);
    }
    assert forall|f: Seq<char>| #[trigger] field_required(shared, seq![t], f) implies field_required(shared, list, f) by {
        if list_requires(seq![t], f) {
            assert(requires_field(t, f));
            assert(reaches(shared, list, s));
        } else {
            let r = choose|r: Seq<char>|
                #![trigger reaches(shared, seq![t], r)]
                reaches(shared, seq![t], r) && (schema_target(shared, r) matches Some(u) && requires_field(u, f));
            assert(reaches(shared, list, r));
        }
    }
}


/// Takes the fields that `schema_ref` requires into `out`, and the `$ref`s that
/// it leads to into `visited`.
fn collect_required_fields_ref(
    schema_ref: &SchemaNode,
    shared: &Option<Shared>,
    out: &mut Vec<String>,
    visited: &mut Vec<String>,
)
    requires
        ascending(views(old(out)@)),
    ensures
        ascending(views(final(out)@)),
        walked(
            *shared,
            seq![*schema_ref],
            views(old(out)@),
            views(old(visited)@),
            views(final(out)@),
            views(final(visited)@),
        ),
    decreases shared_unvisited(*shared, views(old(visited)@)), *schema_ref, 1int,
{
    let ghost list = seq![*schema_ref];
    let ghost out0 = views(out@);
    let ghost visited0 = views(visited@);
    match schema_ref {
        SchemaNode::Reference(reference) => {
            assert(list_mentions(list, reference@)) by {
                assert(mentions(list[0], reference@));
            }
            if holds(visited, reference.as_str()) {
                proof {
                    assert forall|r: Seq<char>| list_mentions(list, r) implies #[trigger] visited0.contains(r) by {
                        assert(mentions(list[0], r));
                    }
                }
                return ;
            }
            visited.push(reference.clone());
            let ghost visited1 = views(visited@);
            proof {
                assert(visited1 =~= visited0.push(reference@));
                assert forall|r: Seq<char>| #[trigger] visited1.contains(r) <==> visited0.contains(r) || r == reference@ by {
                    vstd::seq_lib::lemma_seq_contains_after_push(visited0, reference@, r);
                }
            }
            match resolve_schema_ref(reference.as_str(), shared) {
                Some(target) => {
                    proof {
                        lemma_target_is_named(*shared, reference@, visited0, visited1);
                        lemma_target_is_schema(shared->0.schemas@, reference@, shared->0.schemas@.len());
                    }
                    collect_required_fields(target, shared, out, visited);
                    proof {
                        let out2 = views(out@);
                        let visited2 = views(visited@);
                        lemma_required_through(*shared, list, reference@, *target);
                        assert(taken_in(*shared, reference@, out2, visited2)) by {
                            assert forall|f: Seq<char>| requires_field(*target, f) implies #[trigger] out2.contains(f) by {
                                assert(requires_field(seq![*target][0], f));
                                assert(list_requires(seq![*target], f));
                            }
                            assert forall|q: Seq<char>| mentions(*target, q) implies #[trigger] visited2.contains(q) by {
                                assert(mentions(seq![*target][0], q));
                                assert(list_mentions(seq![*target], q));
                            }
                        }
                        assert forall|r: Seq<char>| list_mentions(list, r) implies #[trigger] visited2.contains(r) by {
                            assert(mentions(list[0], r));
                            assert(visited1.contains(r));
                        }
                        assert forall|r: Seq<char>| #[trigger] visited2.contains(r) && !visited0.contains(r) implies taken_in(
                            *shared,
                            r,
                            out2,
                            visited2,
                        ) && reaches(*shared, list, r) by {
                            if r != reference@ {
                                assert(!visited1.contains(r));
                            }
                        }
                        assert forall|r: Seq<char>| visited0.contains(r) implies #[trigger] visited2.contains(r) by {
                            assert(visited1.contains(r));
                        }
                    }
                },
                None => {
                    proof {
                        assert(leads(*shared, list, reference@, 0));
                        assert forall|r: Seq<char>| list_mentions(list, r) implies #[trigger] visited1.contains(r) by {
                            assert(mentions(list[0], r));
                        }
                    }
                },
            }
        },
        _ => {
            collect_required_fields(schema_ref, shared, out, visited);
        },
    }
}

/// Takes the fields that a schema requires into `out`, and the `$ref`s that it
/// leads to into `visited`.
fn collect_required_fields(
    schema: &SchemaNode,
    shared: &Option<Shared>,
    out: &mut Vec<String>,
    visited: &mut Vec<String>,
)
    requires
        ascending(views(old(out)@)),
        !(schema is Reference),
    ensures
        ascending(views(final(out)@)),
        walked(
            *shared,
            seq![*schema],
            views(old(out)@),
            views(old(visited)@),
            views(final(out)@),
            views(final(visited)@),
        ),
    decreases shared_unvisited(*shared, views(old(visited)@)), *schema, 0int,
{
    match schema {
        SchemaNode::Object(required) => {
            let ghost list = seq![*schema];
            let ghost out0 = views(out@);
            let mut i: usize = 0;
            while i < required.len()
                invariant
                    0 <= i <= required@.len(),
                    ascending(views(out@)),
                    forall|f: Seq<char>| #[trigger] views(out@).contains(f) <==> out0.contains(f) || views(required@).take(i as int).contains(f),
                decreases required.len() - i,
            {
                let ghost before = views(out@);
                insert_ascending(out, required[i].clone());
                proof {
                    let taken = views(required@).take(i as int);
                    let more = views(required@).take(i + 1);
                    assert(more =~= taken.push(required@[i as int]@));
                    assert forall|f: Seq<char>| #[trigger] views(out@).contains(f) <==> out0.contains(f) || more.contains(f) by {
                        vstd::seq_lib::lemma_seq_contains_after_push(taken, required@[i as int]@, f);
                        assert(before.contains(f) <==> out0.contains(f) || taken.contains(f));
                    }
                }
                i = i + 1;
            }
            proof {
                assert(views(required@).take(required@.len() as int) =~= views(required@));
                assert forall|f: Seq<char>| list_requires(list, f) implies #[trigger] views(out@).contains(f) by {
                    assert(requires_field(list[0], f));
                }
                assert forall|f: Seq<char>| #[trigger] views(out@).contains(f) && !out0.contains(f) implies field_required(*shared, list, f) by {
                    assert(requires_field(list[0], f));
                    assert(list_requires(list, f));
                }
                assert forall|r: Seq<char>| !#[trigger] list_mentions(list, r) by {
                    assert(!mentions(list[0], r));
                }
            }
        },
        SchemaNode::OneOf(v) => {
            collect_branches(v, shared, out, visited);
            proof {
                lemma_branches(*shared, *schema, v@);
            }
        },
        SchemaNode::AnyOf(v) => {
            collect_branches(v, shared, out, visited);
            proof {
                lemma_branches(*shared, *schema, v@);
            }
        },
        SchemaNode::AllOf(v) => {
            collect_branches(v, shared, out, visited);
            proof {
                lemma_branches(*shared, *schema, v@);
            }
        },
        SchemaNode::Mixed(v) => {
            collect_branches(v, shared, out, visited);
            proof {
                lemma_branches(*shared, *schema, v@);
            }
        },
        _ => {
            proof {
                let list = seq![*schema];
                assert forall|r: Seq<char>| !#[trigger] list_mentions(list, r) by {
                    assert(!mentions(list[0], r));
                }
                assert forall|f: Seq<char>| !#[trigger] list_requires(list, f) by {
                    assert(!requires_field(list[0], f));
                }
            }
        },
    }
}

/// A composed schema requires and mentions what its branches do.
proof fn lemma_branches(shared: Option<Shared>, node: SchemaNode, v: Seq<SchemaNode>)
    requires
        node matches SchemaNode::OneOf(b) ==> b@ == v,
        node matches SchemaNode::AnyOf(b) ==> b@ == v,
        node matches SchemaNode::AllOf(b) ==> b@ == v,
        node matches SchemaNode::Mixed(b) ==> b@ == v,
        node is OneOf || node is AnyOf || node is AllOf || node is Mixed,
    ensures
        forall|f: Seq<char>| #[trigger] list_requires(seq![node], f) ==> list_requires(v, f),
        forall|r: Seq<char>| #[trigger] list_mentions(seq![node], r) ==> list_mentions(v, r),
        forall|r: Seq<char>| #[trigger] reaches(shared, v, r) ==> reaches(shared, seq![node], r),
        forall|f: Seq<char>| #[trigger] field_required(shared, v, f) ==> field_required(shared, seq![node], f),
{
    reveal_with_fuel(requires_field, 2);
    reveal_with_fuel(mentions, 2);
    assert forall|f: Seq<char>| #[trigger] list_requires(seq![node], f) implies list_requires(v, f) by {
        assert(requires_field(seq![node][0], f));
        let b = match node {
            SchemaNode::OneOf(b) => b,
            SchemaNode::AnyOf(b) => b,
            SchemaNode::AllOf(b) => b,
            SchemaNode::Mixed(b) => b,
            _ => arbitrary(),
        };
        let i = choose|i: int| 0 <= i < b@.len() && requires_field(#[trigger] b@[i], f);
        assert(requires_field(v[i], f));
    }
    assert forall|r: Seq<char>| #[trigger] list_mentions(seq![node], r) implies list_mentions(v, r) by {
        assert(mentions(seq![node][0], r));
        let b = match node {
            SchemaNode::OneOf(b) => b,
            SchemaNode::AnyOf(b) => b,
            SchemaNode::AllOf(b) => b,
            SchemaNode::Mixed(b) => b,
            _ => arbitrary(),
        };
        let i = choose|i: int| 0 <= i < b@.len() && mentions(#[trigger] b@[i], r);
        assert(mentions(v[i], r));
    }
    assert forall|f: Seq<char>| #[trigger] list_requires(v, f) implies list_requires(seq![node], f) by {
        assert(requires_field(seq![node][0], f));
    }
    assert forall|r: Seq<char>| #[trigger] list_mentions(v, r) implies list_mentions(seq![node], r) by {
        assert(mentions(seq![node][0], r));
    }
    lemma_required_more(shared, v, seq![node]);
}

fn collect_branches(
    v: &Vec<SchemaNode>,
    shared: &Option<Shared>,
    out: &mut Vec<String>,
    visited: &mut Vec<String>,
)
    requires
        ascending(views(old(out)@)),
    ensures
        ascending(views(final(out)@)),
        walked(*shared, v@, views(old(out)@), views(old(visited)@), views(final(out)@), views(final(visited)@)),
    decreases shared_unvisited(*shared, views(old(visited)@)), *v, 2int,
{
    let ghost out0 = views(out@);
    let ghost visited0 = views(visited@);
    let mut i: usize = 0;
    assert(v@.take(0) =~= Seq::<SchemaNode>::empty());
    while i < v.len()
        invariant
            0 <= i <= v@.len(),
            ascending(views(out@)),
            visited0 == views(old(visited)@),
            walked(*shared, v@.take(i as int), out0, visited0, views(out@), views(visited@)),
        decreases v.len() - i,
    {
        let ghost out1 = views(out@);
        let ghost visited1 = views(visited@);
        proof {
            lemma_shared_unvisited_shrinks(*shared, visited0, visited1);
        }
        collect_required_fields_ref(&v[i], shared, out, visited);
        proof {
            lemma_walked_on(*shared, v@, i as int, out0, visited0, out1, visited1, views(out@), views(visited@));
        }
        i = i + 1;
    }
    assert(v@.take(v@.len() as int) =~= v@);
}

proof fn lemma_walked_on(
    shared: Option<Shared>,
    v: Seq<SchemaNode>,
    i: int,
    out0: Seq<Seq<char>>,
    visited0: Seq<Seq<char>>,
    out1: Seq<Seq<char>>,
    visited1: Seq<Seq<char>>,
    out2: Seq<Seq<char>>,
    visited2: Seq<Seq<char>>,
)
    requires
        0 <= i < v.len(),
        walked(shared, v.take(i), out0, visited0, out1, visited1),
        walked(shared, seq![v[i]], out1, visited1, out2, visited2),
    ensures
        walked(shared, v.take(i + 1), out0, visited0, out2, visited2),
{
    let list = v.take(i + 1);
    let one = seq![v[i]];
    assert forall|f: Seq<char>| #[trigger] list_requires(one, f) implies list_requires(list, f) by {
        assert(requires_field(one[0], f));
        assert(requires_field(list[i], f));
    }
    assert forall|r: Seq<char>| #[trigger] list_mentions(one, r) implies list_mentions(list, r) by {
        assert(mentions(one[0], r));
        assert(mentions(list[i], r));
    }
    assert forall|f: Seq<char>| #[trigger] list_requires(v.take(i), f) implies list_requires(list, f) by {
        let k = choose|k: int| 0 <= k < v.take(i).len() && #[trigger] requires_field(v.take(i)[k], f);
        assert(requires_field(list[k], f));
    }
    assert forall|r: Seq<char>| #[trigger] list_mentions(v.take(i), r) implies list_mentions(list, r) by {
        let k = choose|k: int| 0 <= k < v.take(i).len() && #[trigger] mentions(v.take(i)[k], r);
        assert(mentions(list[k], r));
    }
    lemma_required_more(shared, one, list);
    lemma_required_more(shared, v.take(i), list);
    assert forall|f: Seq<char>| list_requires(list, f) implies #[trigger] out2.contains(f) by {
        let k = choose|k: int| 0 <= k < list.len() && #[trigger] requires_field(list[k], f);
        if k < i {
            assert(requires_field(v.take(i)[k], f));
            assert(list_requires(v.take(i), f));
            assert(out1.contains(f));
        } else {
            assert(requires_field(one[0], f));
            assert(list_requires(one, f));
        }
    }
    assert forall|r: Seq<char>| list_mentions(list, r) implies #[trigger] visited2.contains(r) by {
        let k = choose|k: int| 0 <= k < list.len() && #[trigger] mentions(list[k], r);
        if k < i {
            assert(mentions(v.take(i)[k], r));
            assert(list_mentions(v.take(i), r));
            assert(visited1.contains(r));
        } else {
            assert(mentions(one[0], r));
            assert(list_mentions(one, r));
        }
    }
    assert forall|r: Seq<char>| #[trigger] visited2.contains(r) && !visited0.contains(r) implies taken_in(
        shared,
        r,
        out2,
        visited2,
    ) && reaches(shared, list, r) by {
        if visited1.contains(r) {
            assert(taken_in(shared, r, out1, visited1));
            if schema_target(shared, r) is Some {
                let t = schema_target(shared, r)->0;
                assert forall|f: Seq<char>| requires_field(t, f) implies #[trigger] out2.contains(f) by {
                    assert(out1.contains(f));
                }
                assert forall|q: Seq<char>| mentions(t, q) implies #[trigger] visited2.contains(q) by {
                    assert(visited1.contains(q));
                }
            }
        }
    }
    assert forall|f: Seq<char>| #[trigger] out2.contains(f) && !out0.contains(f) implies field_required(shared, list, f) by {
        if out1.contains(f) {
            assert(field_required(shared, v.take(i), f));
        }
    }
    assert forall|f: Seq<char>| out0.contains(f) implies #[trigger] out2.contains(f) by {
        assert(out1.contains(f));
    }
    assert forall|r: Seq<char>| visited0.contains(r) implies #[trigger] visited2.contains(r) by {
        assert(visited1.contains(r));
    }
}


/// The schemas that are there, in order.
pub open spec fn present(content: Seq<Option<SchemaNode>>) -> Seq<SchemaNode>
    decreases content.len(),
{
    if content.len() == 0 {
        Seq::empty()
    } else {
        let rest = present(content.drop_last());
        match content.last() {
            Some(s) => rest.push(s),
            None => rest,
        }
    }
}

/// The schemas of the request body of an operation, one per media type.
pub open spec fn body_schemas(op: OpSpec, shared: Option<Shared>) -> Seq<SchemaNode> {
    match op.body {
        None => Seq::empty(),
        Some(BodyNode::Content(content)) => present(content@),
        Some(BodyNode::Reference(r)) => match body_target(shared, r@) {
            Some(BodyNode::Content(content)) => present(content@),
            _ => Seq::empty(),
        },
    }
}

/// Whether `s` lists, in order, exactly the fields that `list` requires.
pub open spec fn lists_required(shared: Option<Shared>, list: Seq<SchemaNode>, s: Seq<Seq<char>>) -> bool {
    ascending(s) && forall|f: Seq<char>| #[trigger] s.contains(f) <==> field_required(shared, list, f)
}

/// The fields that the request body of an operation requires, in order.
pub open spec fn body_fields(op: OpSpec, shared: Option<Shared>) -> Seq<Seq<char>> {
    choose|s: Seq<Seq<char>>| lists_required(shared, body_schemas(op, shared), s)
}

proof fn lemma_leads_visited(
    shared: Option<Shared>,
    list: Seq<SchemaNode>,
    out: Seq<Seq<char>>,
    visited: Seq<Seq<char>>,
    r: Seq<char>,
    n: nat,
)
    requires
        walked(shared, list, Seq::empty(), Seq::empty(), out, visited),
        leads(shared, list, r, n),
    ensures
        visited.contains(r),
    decreases n,
{
    if n > 0 {
        let via = choose|via: Seq<char>| #[trigger] refers(shared, via, r) && leads(shared, list, via, (n - 1) as nat);
        lemma_leads_visited(shared, list, out, visited, via, (n - 1) as nat);
        assert(taken_in(shared, via, out, visited));
    }
}

proof fn lemma_walk_complete(shared: Option<Shared>, list: Seq<SchemaNode>, out: Seq<Seq<char>>, visited: Seq<Seq<char>>)
    requires
        walked(shared, list, Seq::empty(), Seq::empty(), out, visited),
        ascending(out),
    ensures
        lists_required(shared, list, out),
{
    assert forall|f: Seq<char>| #[trigger] out.contains(f) <==> field_required(shared, list, f) by {
        if field_required(shared, list, f) && !list_requires(list, f) {
            let r = choose|r: Seq<char>|
                #![trigger reaches(shared, list, r)]
                reaches(shared, list, r) && (schema_target(shared, r) matches Some(t) && requires_field(t, f));
            let n = choose|n: nat| leads(shared, list, r, n);
            lemma_leads_visited(shared, list, out, visited, r, n);
            assert(taken_in(shared, r, out, visited));
        }
    }
}

/// The fields that the request body of an operation requires, through every
/// branch and every `$ref`, in the order of strings.
pub fn required_body_fields(op: &OpSpec, shared: &Option<Shared>) -> (r: Vec<String>)
    ensures
        views(r@) == body_fields(*op, *shared),
        lists_required(*shared, body_schemas(*op, *shared), views(r@)),
{
    let ghost list = body_schemas(*op, *shared);
    let mut fields: Vec<String> = Vec::new();
    let mut visited: Vec<String> = Vec::new();
    let empty: Vec<Option<SchemaNode>> = Vec::new();
    let content: &Vec<Option<SchemaNode>> = match &op.body {
        None => &empty,
        Some(BodyNode::Content(c)) => c,
        Some(BodyNode::Reference(reference)) => match resolve_request_body_ref(reference.as_str(), shared) {
            Some(BodyNode::Content(c)) => c,
            _ => &empty,
        },
    };
    assert(list == present(content@));
    let mut i: usize = 0;
    assert(views(fields@) =~= Seq::<Seq<char>>::empty());
    assert(views(visited@) =~= Seq::<Seq<char>>::empty());
    assert(content@.take(0) =~= Seq::<Option<SchemaNode>>::empty());
    while i < content.len()
        invariant
            0 <= i <= content@.len(),
            ascending(views(fields@)),
            walked(*shared, present(content@.take(i as int)), Seq::empty(), Seq::empty(), views(fields@), views(visited@)),
        decreases content.len() - i,
    {
        let ghost out1 = views(fields@);
        let ghost visited1 = views(visited@);
        let ghost part = present(content@.take(i as int));
        assert(content@.take(i + 1).drop_last() =~= content@.take(i as int));
        if let Some(schema_ref) = &content[i] {
            collect_required_fields_ref(schema_ref, shared, &mut fields, &mut visited);
            proof {
                let more = part.push(*schema_ref);
                assert(more.take(part.len() as int) =~= part);
                assert(more.take(part.len() as int + 1) =~= more);
                lemma_walked_on(
                    *shared,
                    more,
                    part.len() as int,
                    Seq::empty(),
                    Seq::empty(),
                    out1,
                    visited1,
                    views(fields@),
                    views(visited@),
                );
            }
        }
        i = i + 1;
    }
    proof {
        assert(content@.take(content@.len() as int) =~= content@);
        lemma_walk_complete(*shared, list, views(fields@), views(visited@));
        let s = body_fields(*op, *shared);
        assert(lists_required(*shared, list, s));
        assert forall|f: Seq<char>| views(fields@).contains(f) <==> s.contains(f) by {
            assert(s.contains(f) <==> field_required(*shared, list, f));
        }
        lemma_ascending_unique(views(fields@), s);
    }
    fields
}

/// The fields that a schema requires without following a `$ref` are finitely
/// many.
proof fn lemma_fields_of(node: SchemaNode) -> (s: Seq<Seq<char>>)
    ensures
        forall|f: Seq<char>| #[trigger] requires_field(node, f) ==> s.contains(f),
    decreases node, 0int,
{
    reveal_with_fuel(requires_field, 2);
    let s = match node {
        SchemaNode::Object(required) => views(required@),
        SchemaNode::OneOf(v) => lemma_fields_of_list(v@),
        SchemaNode::AnyOf(v) => lemma_fields_of_list(v@),
        SchemaNode::AllOf(v) => lemma_fields_of_list(v@),
        SchemaNode::Mixed(v) => lemma_fields_of_list(v@),
        _ => Seq::empty(),
    };
    assert forall|f: Seq<char>| #[trigger] requires_field(node, f) implies s.contains(f) by {
        let v = match node {
            SchemaNode::OneOf(v) => v@,
            SchemaNode::AnyOf(v) => v@,
            SchemaNode::AllOf(v) => v@,
            SchemaNode::Mixed(v) => v@,
            _ => Seq::empty(),
        };
        if !(node is Object) {
            let i = choose|i: int| 0 <= i < v.len() && requires_field(#[trigger] v[i], f);
            assert(requires_field(v[i], f));
        }
    }
    s
}

proof fn lemma_fields_of_list(list: Seq<SchemaNode>) -> (s: Seq<Seq<char>>)
    ensures
        forall|i: int, f: Seq<char>| 0 <= i < list.len() && #[trigger] requires_field(list[i], f) ==> s.contains(f),
    decreases list, 1int,
{
    if list.len() == 0 {
        Seq::empty()
    } else {
        let a = lemma_fields_of_list(list.drop_last());
        let b = lemma_fields_of(list[list.len() - 1]);
        assert forall|i: int, f: Seq<char>| 0 <= i < list.len() && #[trigger] requires_field(list[i], f) implies (a + b).contains(f) by {
            if i < list.len() - 1 {
                assert(requires_field(list.drop_last()[i], f));
                let k = choose|k: int| 0 <= k < a.len() && a[k] == f;
                assert((a + b)[k] == f);
            } else {
                let k = choose|k: int| 0 <= k < b.len() && b[k] == f;
                assert((a + b)[a.len() + k] == f);
            }
        }
        a + b
    }
}

proof fn lemma_target_among(schemas: Seq<(String, SchemaNode)>, r: Seq<char>, hops: nat)
    ensures
        follow_schema(schemas, r, hops) matches Some(t) ==> exists|i: int| 0 <= i < schemas.len() && (#[trigger] schemas[i]).1
            == t,
    decreases hops,
{
    if hops > 0 && begins(r, "#/components/schemas/"@) {
        let name = r.skip("#/components/schemas/"@.len() as int);
        lemma_named_value(schemas, name);
        if let Some(SchemaNode::Reference(next)) = named(schemas, name) {
            lemma_target_among(schemas, next@, (hops - 1) as nat);
        }
    }
}

proof fn lemma_named_value<T>(parts: Seq<(String, T)>, name: Seq<char>)
    ensures
        named(parts, name) matches Some(t) ==> exists|i: int| 0 <= i < parts.len() && (#[trigger] parts[i]).1 == t,
    decreases parts.len(),
{
    if parts.len() > 0 {
        if parts[0].0@ == name {
            assert(parts[0].1 == parts[0].1);
        } else {
            lemma_named_value(parts.skip(1), name);
            if let Some(t) = named(parts, name) {
                let i = choose|i: int| 0 <= i < parts.skip(1).len() && (#[trigger] parts.skip(1)[i]).1 == t;
                assert(parts[i + 1].1 == t);
            }
        }
    }
}

/// The fields of a request body are those that one of its schemas requires, or
/// one that they lead to: each once, in the order of strings.
pub proof fn law_body_fields(op: OpSpec, shared: Option<Shared>)
    ensures
        ascending(body_fields(op, shared)),
        forall|f: Seq<char>| #[trigger] body_fields(op, shared).contains(f) <==> field_required(
            shared,
            body_schemas(op, shared),
            f,
        ),
{
    let list = body_schemas(op, shared);
    let a = lemma_fields_of_list(list);
    let named_ones = match shared {
        Some(s) => s.schemas@.map_values(|p: (String, SchemaNode)| p.1),
        None => Seq::empty(),
    };
    let b = lemma_fields_of_list(named_ones);
    let c = a + b;
    let keep = |f: Seq<char>| field_required(shared, list, f);
    let s = lemma_sorted(c, keep);
    assert forall|f: Seq<char>| #[trigger] s.contains(f) <==> field_required(shared, list, f) by {
        if field_required(shared, list, f) {
            if list_requires(list, f) {
                let i = choose|i: int| 0 <= i < list.len() && #[trigger] requires_field(list[i], f);
                let k = choose|k: int| 0 <= k < a.len() && a[k] == f;
                assert(c[k] == f);
            } else {
                let r = choose|r: Seq<char>|
                    #![trigger reaches(shared, list, r)]
                    reaches(shared, list, r) && (schema_target(shared, r) matches Some(t) && requires_field(t, f));
                let t = schema_target(shared, r)->0;
                lemma_target_among(shared->0.schemas@, r, shared->0.schemas@.len());
                let i = choose|i: int| 0 <= i < shared->0.schemas@.len() && (#[trigger] shared->0.schemas@[i]).1 == t;
                assert(named_ones[i] == t);
                assert(requires_field(named_ones[i], f));
                let k = choose|k: int| 0 <= k < b.len() && b[k] == f;
                assert(c[a.len() + k] == f);
            }
        }
    }
    assert(lists_required(shared, list, s));
}

/// An object schema requires exactly the fields of its list, and a schema that
/// has no fields requires none.
pub proof fn law_object_fields(shared: Option<Shared>, required: Vec<String>, f: Seq<char>)
    ensures
        field_required(shared, seq![SchemaNode::Object(required)], f) <==> exists|i: int|
            0 <= i < required@.len() && (#[trigger] required@[i])@ == f,
        !field_required(shared, seq![SchemaNode::Other], f),
{
    let a = seq![SchemaNode::Object(required)];
    let b = seq![SchemaNode::Other];
    reveal_with_fuel(requires_field, 2);
    reveal_with_fuel(mentions, 2);
    assert forall|q: Seq<char>| !#[trigger] list_mentions(a, q) by {
        if list_mentions(a, q) {
            assert(mentions(a[0], q));
        }
    }
    assert forall|q: Seq<char>| !#[trigger] list_mentions(b, q) by {
        if list_mentions(b, q) {
            assert(mentions(b[0], q));
        }
    }
    if exists|i: int| 0 <= i < required@.len() && (#[trigger] required@[i])@ == f {
        let i = choose|i: int| 0 <= i < required@.len() && (#[trigger] required@[i])@ == f;
        assert(views(required@)[i] == f);
        assert(requires_field(a[0], f));
    }
    assert(!field_required(shared, b, f)) by {
        assert(!requires_field(b[0], f));
        assert(!list_requires(b, f));
        assert forall|r: Seq<char>| !#[trigger] reaches(shared, b, r) by {
            if reaches(shared, b, r) {
                let n = choose|n: nat| leads(shared, b, r, n);
                lemma_leads_nowhere(shared, b, r, n);
            }
        }
    }
    if field_required(shared, a, f) {
        assert forall|r: Seq<char>| !#[trigger] reaches(shared, a, r) by {
            if reaches(shared, a, r) {
                let n = choose|n: nat| leads(shared, a, r, n);
                lemma_leads_nowhere(shared, a, r, n);
            }
        }
        assert(list_requires(a, f));
        assert(requires_field(a[0], f));
        let k = choose|k: int| 0 <= k < views(required@).len() && views(required@)[k] == f;
        assert(required@[k]@ == f);
    }
}

proof fn lemma_leads_nowhere(shared: Option<Shared>, a: Seq<SchemaNode>, r: Seq<char>, n: nat)
    requires
        forall|q: Seq<char>| !#[trigger] list_mentions(a, q),
    ensures
        !leads(shared, a, r, n),
    decreases n,
{
    if n > 0 && leads(shared, a, r, n) {
        let via = choose|via: Seq<char>| #[trigger] refers(shared, via, r) && leads(shared, a, via, (n - 1) as nat);
        lemma_leads_nowhere(shared, a, via, (n - 1) as nat);
    }
}

/// Whether a schema is made of these branches.
pub open spec fn branches(node: SchemaNode, v: Vec<SchemaNode>) -> bool {
    node == SchemaNode::OneOf(v) || node == SchemaNode::AnyOf(v) || node == SchemaNode::AllOf(v) || node
        == SchemaNode::Mixed(v)
}

/// A schema with branches requires exactly what its branches require.
pub proof fn law_branch_fields(shared: Option<Shared>, node: SchemaNode, v: Vec<SchemaNode>, f: Seq<char>)
    requires
        branches(node, v),
    ensures
        field_required(shared, seq![node], f) <==> field_required(shared, v@, f),
{
    lemma_branches(shared, node, v@);
    lemma_required_more(shared, seq![node], v@);
}

/// A `$ref` to a named schema that is no `$ref` itself requires what that
/// schema requires.
pub proof fn law_reference_fields(shared: Shared, r: String, i: int, f: Seq<char>)
    requires
        0 <= i < shared.schemas@.len(),
        r@ == "#/components/schemas/"@ + shared.schemas@[i].0@,
        forall|j: int| 0 <= j < i ==> (#[trigger] shared.schemas@[j]).0@ != shared.schemas@[i].0@,
        !(shared.schemas@[i].1 is Reference),
        field_required(Some(shared), seq![shared.schemas@[i].1], f),
    ensures
        field_required(Some(shared), seq![SchemaNode::Reference(r)], f),
{
    let s = shared.schemas@;
    let name = s[i].0@;
    let t = s[i].1;
    let a = seq![t];
    let b = seq![SchemaNode::Reference(r)];
    lemma_named_at(s, i);
    assert(r@.take("#/components/schemas/"@.len() as int) =~= "#/components/schemas/"@);
    assert(r@.skip("#/components/schemas/"@.len() as int) =~= name);
    assert(schema_target(Some(shared), r@) == Some(t));
    assert(mentions(b[0], r@));
    assert(leads(Some(shared), b, r@, 0));
    if list_requires(a, f) {
        let k = choose|k: int| 0 <= k < a.len() && #[trigger] requires_field(a[k], f);
        assert(reaches(Some(shared), b, r@));
        assert(requires_field(t, f));
    } else {
        let q = choose|q: Seq<char>|
            #![trigger reaches(Some(shared), a, q)]
            reaches(Some(shared), a, q) && (schema_target(Some(shared), q) matches Some(u) && requires_field(u, f));
        let n = choose|n: nat| leads(Some(shared), a, q, n);
        assert(a =~= seq![t]);
        lemma_leads_through(Some(shared), b, r@, t, q, n);
        assert(reaches(Some(shared), b, q));
    }
}

proof fn lemma_named_at<T>(parts: Seq<(String, T)>, i: int)
    requires
        0 <= i < parts.len(),
        forall|j: int| 0 <= j < i ==> (#[trigger] parts[j]).0@ != parts[i].0@,
    ensures
        named(parts, parts[i].0@) == Some(parts[i].1),
    decreases i,
{
    if i > 0 {
        assert(parts[0].0@ != parts[i].0@);
        let rest = parts.skip(1);
        assert(rest[i - 1] == parts[i]);
        assert forall|j: int| 0 <= j < i - 1 implies (#[trigger] rest[j]).0@ != rest[i - 1].0@ by {
            assert(parts[j + 1].0@ != parts[i].0@);
        }
        lemma_named_at(rest, i - 1);
    }
}

/// The body of an operation, or the one that its `$ref` names, gives its
/// schemas: one for each media type that has one, in order.
pub proof fn law_body_schemas(op: OpSpec, shared: Option<Shared>, content: Vec<Option<SchemaNode>>, i: int)
    requires
        op.body == Some(BodyNode::Content(content)),
        0 <= i < content@.len(),
    ensures
        content@[i] matches Some(s) ==> body_schemas(op, shared).contains(s),
        forall|s: SchemaNode| #[trigger] body_schemas(op, shared).contains(s) ==> content@.contains(Some(s)),
{
    lemma_present(content@);
    if let Some(s) = content@[i] {
        assert(content@.contains(Some(s)));
    }
}

proof fn lemma_present(content: Seq<Option<SchemaNode>>)
    ensures
        forall|s: SchemaNode| #[trigger] present(content).contains(s) <==> content.contains(Some(s)),
    decreases content.len(),
{
    if content.len() > 0 {
        let less = content.drop_last();
        lemma_present(less);
        assert forall|s: SchemaNode| #[trigger] present(content).contains(s) <==> content.contains(Some(s)) by {
            assert(present(less).contains(s) <==> less.contains(Some(s)));
            if present(content).contains(s) {
                let k = choose|k: int| 0 <= k < present(content).len() && present(content)[k] == s;
                if k < present(less).len() {
                    assert(present(less)[k] == s);
                    let q = choose|q: int| 0 <= q < less.len() && less[q] == Some(s);
                    assert(content[q] == Some(s));
                } else {
                    assert(content[content.len() - 1] == Some(s));
                }
            }
            if content.contains(Some(s)) {
                let q = choose|q: int| 0 <= q < content.len() && content[q] == Some(s);
                if q < less.len() {
                    assert(less[q] == Some(s));
                    let k = choose|k: int| 0 <= k < present(less).len() && present(less)[k] == s;
                    assert(present(content)[k] == s);
                } else {
                    assert(present(content)[present(less).len() as int] == s);
                }
            }
        }
    }
}

/// A `$ref` to a named request body that is no `$ref` itself stands for that
/// body.
pub proof fn law_referenced_body(op: OpSpec, shared: Shared, r: String, i: int, content: Vec<Option<SchemaNode>>)
    requires
        op.body == Some(BodyNode::Reference(r)),
        0 <= i < shared.request_bodies@.len(),
        r@ == "#/components/requestBodies/"@ + shared.request_bodies@[i].0@,
        forall|j: int| 0 <= j < i ==> (#[trigger] shared.request_bodies@[j]).0@ != shared.request_bodies@[i].0@,
        shared.request_bodies@[i].1 == BodyNode::Content(content),
    ensures
        forall|s: SchemaNode| #[trigger] body_schemas(op, Some(shared)).contains(s) <==> content@.contains(Some(s)),
{
    let b = shared.request_bodies@;
    lemma_named_at(b, i);
    assert(r@.take("#/components/requestBodies/"@.len() as int) =~= "#/components/requestBodies/"@);
    assert(r@.skip("#/components/requestBodies/"@.len() as int) =~= b[i].0@);
    assert(body_target(Some(shared), r@) == Some(b[i].1));
    lemma_present(content@);
}

/// A `$ref` that names another `$ref` stands for what that one names.
pub proof fn law_reference_to_reference(shared: Shared, r: Seq<char>, i: int, next: String, j: int)
    requires
        0 <= i < shared.schemas@.len(),
        0 <= j < shared.schemas@.len(),
        r == "#/components/schemas/"@ + shared.schemas@[i].0@,
        shared.schemas@[i].1 == SchemaNode::Reference(next),
        next@ == "#/components/schemas/"@ + shared.schemas@[j].0@,
        !(shared.schemas@[j].1 is Reference),
        forall|k: int| 0 <= k < i ==> (#[trigger] shared.schemas@[k]).0@ != shared.schemas@[i].0@,
        forall|k: int| 0 <= k < j ==> (#[trigger] shared.schemas@[k]).0@ != shared.schemas@[j].0@,
    ensures
        schema_target(Some(shared), r) == Some(shared.schemas@[j].1),
        schema_target(Some(shared), next@) == Some(shared.schemas@[j].1),
        schema_target(None, r) is None,
{
    let s = shared.schemas@;
    let n = "#/components/schemas/"@.len() as int;
    lemma_named_at(s, i);
    lemma_named_at(s, j);
    assert(r.take(n) =~= "#/components/schemas/"@);
    assert(r.skip(n) =~= s[i].0@);
    assert(next@.take(n) =~= "#/components/schemas/"@);
    assert(next@.skip(n) =~= s[j].0@);
    assert(i != j);
    reveal_with_fuel(follow_schema, 3);
}

/// A `$ref` that does not begin as those to named schemas do stands for none,
/// and so does one whose name is not there.
pub proof fn law_no_such_schema(shared: Option<Shared>, r: Seq<char>, name: Seq<char>)
    ensures
        !begins(r, "#/components/schemas/"@) ==> schema_target(shared, r) is None,
        r == "#/components/schemas/"@ + name && (shared matches Some(s) ==> forall|k: int|
            0 <= k < s.schemas@.len() ==> (#[trigger] s.schemas@[k]).0@ != name) ==> schema_target(shared, r) is None,
{
    if let Some(s) = shared {
        lemma_named(s.schemas@, name);
        if r == "#/components/schemas/"@ + name {
            assert(r.skip("#/components/schemas/"@.len() as int) =~= name);
        }
    }
}

/// Whether these are the places of named schemas of which each but the last is a
/// `$ref` to the next.
pub open spec fn schema_chain(s: Seq<(String, SchemaNode)>, at: Seq<int>) -> bool {
    &&& at.len() > 0
    &&& forall|k: int|
        0 <= k < at.len() ==> 0 <= #[trigger] at[k] < s.len() && forall|j: int|
            0 <= j < at[k] ==> (#[trigger] s[j]).0@ != s[at[k]].0@
    &&& forall|k: int|
        0 <= k < at.len() - 1 ==> (s[#[trigger] at[k]].1 matches SchemaNode::Reference(next) && next@
            == "#/components/schemas/"@ + s[at[k + 1]].0@)
    &&& !(s[at.last()].1 is Reference)
}

proof fn lemma_schema_chain(s: Seq<(String, SchemaNode)>, at: Seq<int>, hops: nat)
    requires
        schema_chain(s, at),
        at.len() <= hops,
    ensures
        follow_schema(s, "#/components/schemas/"@ + s[at[0]].0@, hops) == Some(s[at.last()].1),
    decreases at.len(),
{
    let prefix = "#/components/schemas/"@;
    let r = prefix + s[at[0]].0@;
    let n = prefix.len() as int;
    assert(r.take(n) =~= prefix);
    assert(r.skip(n) =~= s[at[0]].0@);
    lemma_named_at(s, at[0]);
    if at.len() > 1 {
        let rest = at.skip(1);
        assert(rest[0] == at[1]);
        assert(rest.last() == at.last());
        assert forall|k: int| 0 <= k < rest.len() implies 0 <= #[trigger] rest[k] < s.len() && forall|j: int|
            0 <= j < rest[k] ==> (#[trigger] s[j]).0@ != s[rest[k]].0@ by {
            assert(rest[k] == at[k + 1]);
        }
        assert forall|k: int| 0 <= k < rest.len() - 1 implies (s[#[trigger] rest[k]].1 matches SchemaNode::Reference(next)
            && next@ == prefix + s[rest[k + 1]].0@) by {
            assert(rest[k] == at[k + 1] && rest[k + 1] == at[k + 2]);
        }
        assert(s[at[0]].1 is Reference);
        lemma_schema_chain(s, rest, (hops - 1) as nat);
    } else {
        assert(at.last() == at[0]);
    }
}

/// A chain of `$ref`s stands for the schema at its end, however long it is: it
/// has at most as many links as there are named schemas.
pub proof fn law_chain_followed(shared: Shared, at: Seq<int>)
    requires
        schema_chain(shared.schemas@, at),
        at.len() <= shared.schemas@.len(),
    ensures
        schema_target(Some(shared), "#/components/schemas/"@ + shared.schemas@[at[0]].0@) == Some(
            shared.schemas@[at.last()].1,
        ),
{
    lemma_schema_chain(shared.schemas@, at, shared.schemas@.len());
}

/// A `$ref` to a request body that names another stands for what that one names;
/// one that does not begin as those to named bodies do, or whose name is not
/// there, stands for none.
pub proof fn law_body_references(shared: Shared, r: Seq<char>, i: int, next: String, j: int, name: Seq<char>)
    requires
        0 <= i < shared.request_bodies@.len(),
        0 <= j < shared.request_bodies@.len(),
        shared.request_bodies@[i].1 == BodyNode::Reference(next),
        next@ == "#/components/requestBodies/"@ + shared.request_bodies@[j].0@,
        !(shared.request_bodies@[j].1 is Reference),
        forall|k: int| 0 <= k < i ==> (#[trigger] shared.request_bodies@[k]).0@ != shared.request_bodies@[i].0@,
        forall|k: int| 0 <= k < j ==> (#[trigger] shared.request_bodies@[k]).0@ != shared.request_bodies@[j].0@,
    ensures
        r == "#/components/requestBodies/"@ + shared.request_bodies@[i].0@ ==> body_target(Some(shared), r) == Some(
            shared.request_bodies@[j].1,
        ),
        body_target(Some(shared), next@) == Some(shared.request_bodies@[j].1),
        !begins(r, "#/components/requestBodies/"@) ==> body_target(Some(shared), r) is None,
        r == "#/components/requestBodies/"@ + name && (forall|k: int|
            0 <= k < shared.request_bodies@.len() ==> (#[trigger] shared.request_bodies@[k]).0@ != name) ==> body_target(
            Some(shared),
            r,
        ) is None,
        body_target(None, r) is None,
{
    let s = shared.request_bodies@;
    let prefix = "#/components/requestBodies/"@;
    let n = prefix.len() as int;
    lemma_named_at(s, i);
    lemma_named_at(s, j);
    lemma_named(s, name);
    assert(next@.take(n) =~= prefix);
    assert(next@.skip(n) =~= s[j].0@);
    assert(i != j);
    reveal_with_fuel(follow_body, 3);
    if r == prefix + s[i].0@ {
        assert(r.take(n) =~= prefix);
        assert(r.skip(n) =~= s[i].0@);
    }
    if r == prefix + name {
        assert(r.skip(n) =~= name);
    }
}

/// Without a body, or with one whose `$ref` leads to none, an operation has no
/// schemas.
pub proof fn law_no_body(op: OpSpec, shared: Option<Shared>, r: String)
    ensures
        op.body is None ==> body_schemas(op, shared).len() == 0,
        op.body == Some(BodyNode::Reference(r)) && body_target(shared, r@) is None ==> body_schemas(op, shared).len() == 0,
{
}

} // verus!
