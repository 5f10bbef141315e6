//! Reading OpenAPI v3 documents with `openapiv3`.

use crate::json::{value_of, Json, JsonView};
use crate::openapi::{ApiSpec, BodyNode, Location, OpSpec, ParamNode, PathNode, PathOps, ResponseNode, SchemaNode, Shared, Status};
use openapiv3::Parameter::{Cookie, Header, Path, Query};
use openapiv3::{ReferenceOr, SchemaKind, Type};
use vstd::prelude::*;

verus! {

/// `openapiv3::OpenAPI`, as a value that is only handed on.
#[verifier::external_type_specification]
#[verifier::external_body]
pub struct ExOpenApi(openapiv3::OpenAPI);

/// `openapiv3::PathItem`, as a value that is only handed on.
#[verifier::external_type_specification]
#[verifier::external_body]
pub struct ExPathItem(openapiv3::PathItem);

/// `openapiv3::Operation`, as a value that is only handed on.
#[verifier::external_type_specification]
#[verifier::external_body]
pub struct ExOperation(openapiv3::Operation);

/// `openapiv3::Parameter`, as a value that is only handed on.
#[verifier::external_type_specification]
#[verifier::external_body]
pub struct ExParameter(openapiv3::Parameter);

/// `openapiv3::RequestBody`, as a value that is only handed on.
#[verifier::external_type_specification]
#[verifier::external_body]
pub struct ExRequestBody(openapiv3::RequestBody);

/// `openapiv3::Response`, as a value that is only handed on.
#[verifier::external_type_specification]
#[verifier::external_body]
pub struct ExResponse(openapiv3::Response);

/// `openapiv3::StatusCode`, as a value that is only handed on.
#[verifier::external_type_specification]
#[verifier::external_body]
pub struct ExStatusCode(openapiv3::StatusCode);

/// `openapiv3::Schema`, as a value that is only handed on.
#[verifier::external_type_specification]
#[verifier::external_body]
pub struct ExSchema(openapiv3::Schema);

/// `openapiv3::AnySchema`, as a value that is only handed on.
#[verifier::external_type_specification]
#[verifier::external_body]
pub struct ExAnySchema(openapiv3::AnySchema);

/// `openapiv3::Components`, as a value that is only handed on.
#[verifier::external_type_specification]
#[verifier::external_body]
pub struct ExComponents(openapiv3::Components);

/// `openapiv3::ReferenceOr`, as a value that is only handed on.
#[verifier::external_type_specification]
#[verifier::external_body]
#[verifier::reject_recursive_types(T)]
pub struct ExReferenceOr<T>(openapiv3::ReferenceOr<T>);

/// What `openapiv3` reads from a YAML text, or the error message.
pub uninterp spec fn openapi_document(text: Seq<char>) -> Result<ApiSpec, String>;

/// `serde_yaml::from_str` into `openapiv3::OpenAPI`, kept as far as scenarios
/// are derived from it: the same text gives the same document or message.
#[verifier::external_body]
pub(crate) fn read_openapi(text: &str) -> (r: Result<ApiSpec, String>)
    ensures
        r == openapi_document(text@),
{
    let doc: openapiv3::OpenAPI = serde_yaml::from_str(text).map_err(|e| e.to_string())?;
    Ok(document_of(doc))
}

/// What `openapiv3` reads from a JSON value, or the error message.
pub uninterp spec fn openapi_value(value: JsonView) -> Result<ApiSpec, String>;

/// `serde_json::from_value` into `openapiv3::OpenAPI`, kept as far as scenarios
/// are derived from it: the same value gives the same document or message.
#[verifier::external_body]
pub(crate) fn read_openapi_value(value: &Json) -> (r: Result<ApiSpec, String>)
    ensures
        r == openapi_value(value@),
{
    let doc: openapiv3::OpenAPI = serde_json::from_value(value_of(value)).map_err(|e| e.to_string())?;
    Ok(document_of(doc))
}

/// The parts of an `openapiv3::OpenAPI` that scenarios are derived from.
#[verifier::external_body]
fn document_of(doc: openapiv3::OpenAPI) -> ApiSpec {
    ApiSpec {
        paths: doc.paths.into_iter().map(|(p, item)| (p, path_of(item))).collect(),
        components: doc.components.map(components_of),
    }
}

/// The named schemas and request bodies of an `openapiv3::Components`.
#[verifier::external_body]
fn components_of(c: openapiv3::Components) -> Shared {
    Shared {
        schemas: c.schemas.into_iter().map(|(n, s)| (n, schema_of(s))).collect(),
        request_bodies: c.request_bodies.into_iter().map(|(n, b)| (n, body_of(b))).collect(),
    }
}

/// The operations of an `openapiv3::PathItem`, or the `$ref` in its place.
#[verifier::external_body]
fn path_of(item: ReferenceOr<openapiv3::PathItem>) -> PathNode {
    match item {
        ReferenceOr::Reference { reference } => PathNode::Reference(reference),
        ReferenceOr::Item(i) => PathNode::Item(PathOps {
            get: i.get.map(operation_of),
            put: i.put.map(operation_of),
            post: i.post.map(operation_of),
            delete: i.delete.map(operation_of),
            options: i.options.map(operation_of),
            head: i.head.map(operation_of),
            patch: i.patch.map(operation_of),
            trace: i.trace.map(operation_of),
        }),
    }
}

/// The body, parameters and responses of an `openapiv3::Operation`.
#[verifier::external_body]
fn operation_of(op: openapiv3::Operation) -> OpSpec {
    OpSpec {
        body: op.request_body.map(body_of),
        parameters: op.parameters.into_iter().map(param_of).collect(),
        responses: op.responses.responses.into_iter().map(|(c, r)| (status_of(c), response_of(r))).collect(),
    }
}

/// The place, name and `required` mark of an `openapiv3::Parameter`.
#[verifier::external_body]
fn param_of(p: ReferenceOr<openapiv3::Parameter>) -> ParamNode {
    match p {
        ReferenceOr::Reference { reference } => ParamNode::Reference(reference),
        ReferenceOr::Item(Query { parameter_data: d, .. }) => ParamNode::Item(Location::Query, d.name, d.required),
        ReferenceOr::Item(Path { parameter_data: d, .. }) => ParamNode::Item(Location::Path, d.name, d.required),
        ReferenceOr::Item(Header { parameter_data: d, .. }) => ParamNode::Item(Location::Header, d.name, d.required),
        ReferenceOr::Item(Cookie { parameter_data: d, .. }) => ParamNode::Item(Location::Cookie, d.name, d.required),
    }
}

/// The code or range of an `openapiv3::StatusCode`.
#[verifier::external_body]
fn status_of(c: openapiv3::StatusCode) -> Status {
    match c {
        openapiv3::StatusCode::Code(n) => Status::Code(n),
        openapiv3::StatusCode::Range(n) => Status::Range(n),
    }
}

/// The description of an `openapiv3::Response`.
#[verifier::external_body]
fn response_of(r: ReferenceOr<openapiv3::Response>) -> ResponseNode {
    match r {
        ReferenceOr::Reference { reference } => ResponseNode::Reference(reference),
        ReferenceOr::Item(i) => ResponseNode::Item(i.description),
    }
}

/// The schema of each media type of an `openapiv3::RequestBody`.
#[verifier::external_body]
fn body_of(b: ReferenceOr<openapiv3::RequestBody>) -> BodyNode {
    match b {
        ReferenceOr::Reference { reference } => BodyNode::Reference(reference),
        ReferenceOr::Item(i) => BodyNode::Content(i.content.into_iter().map(|(_, m)| m.schema.map(schema_of)).collect()),
    }
}

/// The `required` list or the branches of an `openapiv3::Schema`.
#[verifier::external_body]
fn schema_of(s: ReferenceOr<openapiv3::Schema>) -> SchemaNode {
    let kind = match s {
        ReferenceOr::Reference { reference } => return SchemaNode::Reference(reference),
        ReferenceOr::Item(i) => i.schema_kind,
    };
    match kind {
        SchemaKind::Type(Type::Object(o)) => SchemaNode::Object(o.required),
        SchemaKind::OneOf { one_of } => SchemaNode::OneOf(one_of.into_iter().map(schema_of).collect()),
        SchemaKind::AnyOf { any_of } => SchemaNode::AnyOf(any_of.into_iter().map(schema_of).collect()),
        SchemaKind::AllOf { all_of } => SchemaNode::AllOf(all_of.into_iter().map(schema_of).collect()),
        SchemaKind::Any(a) => parts_of(a),
        SchemaKind::Type(_) | SchemaKind::Not { .. } => SchemaNode::Other,
    }
}

/// The `required` list and the branches of an `openapiv3::AnySchema`.
#[verifier::external_body]
fn parts_of(a: openapiv3::AnySchema) -> SchemaNode {
    SchemaNode::Mixed(vec![
        SchemaNode::Object(a.required),
        SchemaNode::OneOf(a.one_of.into_iter().map(schema_of).collect()),
        SchemaNode::AnyOf(a.any_of.into_iter().map(schema_of).collect()),
        SchemaNode::AllOf(a.all_of.into_iter().map(schema_of).collect()),
    ])
}

} // verus!
