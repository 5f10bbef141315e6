use kit::json::Json;
use kit::openapi::ApiSpec;
use kit::scenario::{add_entry, duplicate_slugs, field_entry, holds_key, param_entry, response_entry};
use kit::scenarios::{
    action, buckets_for, code_document, derive_scenarios, is_multi_type, missing_spec, needs_save, one_report,
    proposed_document, read_document, skip, skip_run_dir, sync, sync_report, sync_spec, totals, Action, BucketReport, DomainBucket,
    ScenarioCmd, ScenarioEntry, SpecText,
};
use kit::scenarios_yaml::{ScenariosFile, SlugSection};
use serde_json::Value;

const SPEC: &str = r#"openapi: 3.0.3
info: {title: billing, version: '1'}
paths:
  /invoices/bulk:
    post:
      requestBody:
        required: true
        content:
          application/json:
            schema:
              type: object
              required: [customerId, items]
              properties:
                customerId: {type: string}
                items: {type: array, items: {type: string}}
      responses:
        '201': {description: created}
        '401': {description: missing token}
        '409': {description: Duplicate idempotency key}
"#;

fn parse(yaml: &str) -> ApiSpec {
    read_document("api-spec.yaml", &SpecText::Text(yaml.to_string())).unwrap().unwrap()
}

fn ids(s: &[ScenarioEntry]) -> Vec<&str> {
    s.iter().map(|e| e.id.as_str()).collect()
}

fn reply(j: Json) -> Value {
    assert!(matches!(j, Json::Object(_)));
    serde_json::from_str(&kit::envelope::print_ok(j)).unwrap()
}

fn flat_sources(text: &str) -> Vec<(DomainBucket, SpecText)> {
    let mut buckets = buckets_for("/p/docs/domains/billing", false, false, false);
    vec![(buckets.remove(0), SpecText::Text(text.to_string()))]
}

fn synced() -> ScenariosFile {
    let mut file = ScenariosFile::load("/p", None).unwrap();
    let run = sync(&mut file, "billing", &flat_sources(SPEC));
    assert!(run.result.is_ok());
    file
}

fn entry(endpoint: &str, id: &str) -> ScenarioEntry {
    ScenarioEntry { endpoint: endpoint.to_string(), id: id.to_string(), description: "d".to_string() }
}

#[test]
fn happy_path_always_present() {
    let spec = parse(
        r#"
openapi: 3.0.3
info: {title: x, version: '1'}
paths:
  /a:
    get:
      responses:
        '200': {description: ok}
"#,
    );
    let s = derive_scenarios(&spec);
    assert!(s.iter().any(|e| e.endpoint == "GET /a" && e.id == "happy-path"));
}

#[test]
fn validation_required_body_field() {
    let spec = parse(
        r#"
openapi: 3.0.3
info: {title: x, version: '1'}
paths:
  /a:
    post:
      requestBody:
        required: true
        content:
          application/json:
            schema:
              type: object
              required: [customerId]
              properties:
                customerId: {type: string}
      responses:
        '201': {description: created}
"#,
    );
    let s = derive_scenarios(&spec);
    assert!(
        s.iter()
            .any(|e| e.endpoint == "POST /a" && e.id == "validation-customer-id-missing"),
        "got: {:?}",
        s
    );
}

#[test]
fn auth_and_business_codes() {
    let spec = parse(
        r#"
openapi: 3.0.3
info: {title: x, version: '1'}
paths:
  /a:
    post:
      responses:
        '201': {description: ok}
        '401': {description: missing token}
        '409': {description: Duplicate idempotency key}
        '404': {description: not found}
"#,
    );
    let s = derive_scenarios(&spec);
    let ids: Vec<&str> = s.iter().map(|e| e.id.as_str()).collect();
    assert!(ids.contains(&"auth-missing-token"));
    assert!(ids.contains(&"business-duplicate-idempotency-key"));
    assert!(ids.contains(&"not-found"));
}

#[test]
fn validation_required_body_field_via_ref() {
    let spec = parse(
        r#"
openapi: 3.0.3
info: {title: x, version: '1'}
paths:
  /a:
    post:
      requestBody:
        required: true
        content:
          application/json:
            schema:
              $ref: '#/components/schemas/CreateInvoice'
      responses:
        '201': {description: created}
components:
  schemas:
    CreateInvoice:
      type: object
      required: [customerId, amount]
      properties:
        customerId: {type: string}
        amount: {type: number}
"#,
    );
    let s = derive_scenarios(&spec);
    let ids: Vec<&str> = s.iter().map(|e| e.id.as_str()).collect();
    assert!(
        ids.contains(&"validation-customer-id-missing"),
        "got: {:?}",
        ids
    );
    assert!(ids.contains(&"validation-amount-missing"), "got: {:?}", ids);
}

#[test]
fn validation_required_body_field_via_allof_with_ref() {
    let spec = parse(
        r#"
openapi: 3.0.3
info: {title: x, version: '1'}
paths:
  /a:
    post:
      requestBody:
        required: true
        content:
          application/json:
            schema:
              allOf:
                - $ref: '#/components/schemas/Base'
                - type: object
                  required: [extra]
                  properties:
                    extra: {type: string}
      responses:
        '201': {description: created}
components:
  schemas:
    Base:
      type: object
      required: [baseId]
      properties:
        baseId: {type: string}
"#,
    );
    let s = derive_scenarios(&spec);
    let ids: Vec<&str> = s.iter().map(|e| e.id.as_str()).collect();
    assert!(ids.contains(&"validation-base-id-missing"), "got: {:?}", ids);
    assert!(ids.contains(&"validation-extra-missing"), "got: {:?}", ids);
}

#[test]
fn required_query_param() {
    let spec = parse(
        r#"
openapi: 3.0.3
info: {title: x, version: '1'}
paths:
  /a:
    get:
      parameters:
        - name: page
          in: query
          required: true
          schema: {type: integer}
      responses:
        '200': {description: ok}
"#,
    );
    let s = derive_scenarios(&spec);
    assert!(s.iter().any(|e| e.id == "validation-query-page-missing"));
}

#[test]
fn sync_creates_test_scenarios_yaml_when_missing() {
    let mut file = ScenariosFile::load("/p", None).unwrap();
    assert_eq!(file.path, "/p/docs/test-scenarios.yaml");
    let run = sync(&mut file, "billing", &flat_sources(SPEC));
    let reports = run.result.unwrap();
    assert!(reports[0].added > 0);
    let yaml = file.save().unwrap();
    assert!(yaml.contains("happy-path"));
    assert!(yaml.contains("validation-customer-id-missing"));
    assert!(yaml.contains("validation-items-missing"));
    assert!(yaml.contains("auth-missing-token"));
    assert!(yaml.contains("business-duplicate-idempotency-key"));
    assert!(yaml.contains("billing"));
    assert!(run.notes.iter().any(|n| n.contains("added")));
    assert_eq!(run.notes.last().unwrap(), "sync: 5 added, 0 already present, 0 orphaned");
}

#[test]
fn sync_is_append_only_and_idempotent() {
    let first = synced().save().unwrap();
    let mut file = ScenariosFile::load("/p", Some(first.as_str())).unwrap();
    let run = sync(&mut file, "billing", &flat_sources(SPEC));
    let reports = run.result.unwrap();
    assert_eq!(totals(&reports), (0, 5, 0));
    let second = file.save().unwrap();
    assert_eq!(first, second, "file should be untouched on second run");
}

#[test]
fn sync_preserves_human_added_entries() {
    let pre = "domains:\n  billing:\n    - endpoint: \"POST /invoices/bulk\"\n      id: weird-edge-case\n      description: a thing the spec doesn't capture\n";
    let mut file = ScenariosFile::load("/p", Some(pre)).unwrap();
    let run = sync(&mut file, "billing", &flat_sources(SPEC));
    assert!(run.result.is_ok());
    let yaml = file.save().unwrap();
    assert!(yaml.contains("weird-edge-case"));
    assert!(yaml.contains("happy-path"));
    assert!(yaml.find("weird-edge-case").unwrap() < yaml.find("happy-path").unwrap());
}

#[test]
fn sync_missing_spec_exits_one() {
    let buckets = buckets_for("/p/docs/domains/billing", false, false, false);
    let message = missing_spec(&buckets, false).unwrap();
    let v: Value = serde_json::from_str(&kit::envelope::print_err(&message, None)).unwrap();
    assert_eq!(v["ok"], false);
    assert!(v["error"]["message"].as_str().unwrap().contains("api-spec.yaml"));
    assert!(missing_spec(&buckets, true).is_none());
}

#[test]
fn skip_records_idempotently() {
    let file = synced();
    let run = skip_run_dir("/p", ".jkit/2026-04-25-foo", true).unwrap();
    assert_eq!(run, "/p/.jkit/2026-04-25-foo");
    let first = skip(&file, &run, "billing", "happy-path", None, None).unwrap();
    let v = reply(first.response);
    assert_eq!(v["ok"], true);
    assert_eq!(v["already_present"], false);
    assert_eq!(v["endpoint"], "POST /invoices/bulk");
    assert_eq!(v["path"], "/p/.jkit/2026-04-25-foo/skipped-scenarios.json");
    let raw = first.write.unwrap();

    let again = skip(&file, &run, "billing", "happy-path", None, Some(raw.as_str())).unwrap();
    let v = reply(again.response);
    assert_eq!(v["ok"], true);
    assert_eq!(v["already_present"], true);
    assert!(again.write.is_none());

    let arr: Value = serde_json::from_str(&raw).unwrap();
    assert_eq!(arr.as_array().unwrap().len(), 1);
    assert!(raw.ends_with("]\n"));
}

#[test]
fn skip_unknown_id_exits_one() {
    let file = synced();
    let message = skip(&file, "/p/.jkit/2026-04-25-foo", "billing", "no-such-id", None, None).err().unwrap();
    assert_eq!(message, "scenario id 'no-such-id' not found in domain 'billing'");
    let v: Value = serde_json::from_str(&kit::envelope::print_err(&message, None)).unwrap();
    assert_eq!(v["ok"], false);
}

#[test]
fn skip_refuses_what_it_cannot_tell_apart() {
    let text = "domains:\n  payment:\n    web-api:\n      - {endpoint: POST /w, id: a, description: d}\n    microservice-api:\n      - {endpoint: POST /m, id: a, description: d}\n";
    let file = ScenariosFile::load("/p", Some(text)).unwrap();
    assert_eq!(
        skip(&file, "/r", "payment", "a", None, None).err().unwrap(),
        "scenario id 'a' is ambiguous in domain 'payment' across api-types: web-api, microservice-api — pass --api-type to disambiguate"
    );
    let v = reply(skip(&file, "/r", "payment", "a", Some("microservice-api"), Some("  \n")).unwrap().response);
    assert_eq!(v["endpoint"], "POST /m");
    assert_eq!(v["api_type"], "microservice-api");
    assert_eq!(
        skip(&file, "/r", "payment", "a", Some("open-api"), None).err().unwrap(),
        "scenario id 'a' not found in domain 'payment' under api-type 'open-api'"
    );
    assert_eq!(
        skip(&file, "/r", "nope", "a", None, None).err().unwrap(),
        "domain 'nope' has no entry in docs/test-scenarios.yaml"
    );
    assert!(skip(&file, "/r", "payment", "a", Some("web-api"), Some("{}")).is_err());
    assert_eq!(skip_run_dir("/p", "nope", false).err().unwrap(), "run dir missing: nope");
}

#[test]
fn skip_keeps_records_of_others() {
    let file = synced();
    let before = "[{\"domain\":\"other\",\"id\":\"happy-path\",\"note\":1}]";
    let run = skip(&file, "/r", "billing", "happy-path", None, Some(before)).unwrap();
    let arr: Value = serde_json::from_str(&run.write.unwrap()).unwrap();
    assert_eq!(arr[0]["domain"], "other");
    assert_eq!(arr[0]["note"], 1);
    assert_eq!(arr[1]["domain"], "billing");
    assert_eq!(arr[1]["endpoint"], "POST /invoices/bulk");
}

#[test]
fn derived_scenarios_come_in_order() {
    let s = derive_scenarios(&parse(SPEC));
    assert_eq!(
        ids(&s),
        vec![
            "happy-path",
            "validation-customer-id-missing",
            "validation-items-missing",
            "auth-missing-token",
            "business-duplicate-idempotency-key",
        ]
    );
    assert_eq!(s[1].description, "missing required field 'customerId' → 4xx");
    assert_eq!(s[4].description, "Duplicate idempotency key");
    assert_eq!(s[0].description, "happy path");
}

#[test]
fn methods_come_in_the_order_of_the_path_item() {
    let spec = parse(
        r#"
openapi: 3.0.3
info: {title: x, version: '1'}
paths:
  /a:
    trace: {responses: {}}
    patch: {responses: {}}
    head: {responses: {}}
    options: {responses: {}}
    delete: {responses: {}}
    post: {responses: {}}
    put: {responses: {}}
    get: {responses: {}}
"#,
    );
    let s = derive_scenarios(&spec);
    let endpoints: Vec<&str> = s.iter().map(|e| e.endpoint.as_str()).collect();
    assert_eq!(
        endpoints,
        vec![
            "GET /a", "PUT /a", "POST /a", "DELETE /a", "OPTIONS /a", "HEAD /a", "PATCH /a", "TRACE /a",
        ]
    );
}

#[test]
fn parameters_and_responses_that_ask_for_nothing() {
    let spec = parse(
        r#"
openapi: 3.0.3
info: {title: x, version: '1'}
paths:
  /a/{userId}:
    get:
      parameters:
        - {name: userId, in: path, required: true, schema: {type: string}}
        - {name: X-Trace, in: header, required: true, schema: {type: string}}
        - {name: session, in: cookie, required: true, schema: {type: string}}
        - {name: page, in: query, schema: {type: integer}}
        - $ref: '#/components/parameters/Shared'
      responses:
        '200': {description: ok}
        '4XX': {description: bad}
        '500': {description: down}
        '403': {description: '  '}
        '422': {description: Bad input}
        '400': {description: '***'}
        '404': {$ref: '#/components/responses/Gone'}
"#,
    );
    let s = derive_scenarios(&spec);
    assert_eq!(
        ids(&s),
        vec![
            "happy-path",
            "validation-path-user-id-missing",
            "auth-forbidden",
            "validation-bad-input",
            "validation-bad-request",
        ]
    );
    assert_eq!(s[1].description, "missing required path param 'userId' → 4xx");
    assert_eq!(s[2].description, "response 403");
    assert_eq!(s[4].description, "***");
}

#[test]
fn references_that_lead_round_end() {
    let spec = parse(
        r#"
openapi: 3.0.3
info: {title: x, version: '1'}
paths:
  /a:
    post:
      requestBody:
        $ref: '#/components/requestBodies/Create'
      responses: {}
  /b:
    $ref: '#/elsewhere'
components:
  requestBodies:
    Create:
      content:
        application/json:
          schema:
            oneOf:
              - $ref: '#/components/schemas/A'
              - $ref: '#/components/schemas/Lost'
        text/plain: {}
  schemas:
    A:
      anyOf:
        - $ref: '#/components/schemas/A'
        - $ref: '#/components/schemas/B'
    B:
      type: object
      required: [zeta, alpha]
"#,
    );
    let s = derive_scenarios(&spec);
    assert_eq!(ids(&s), vec!["happy-path", "validation-alpha-missing", "validation-zeta-missing"]);
}

#[test]
fn duplicate_slugs_are_told() {
    let spec = parse(
        r#"
openapi: 3.0.3
info: {title: x, version: '1'}
paths:
  /a:
    get:
      responses:
        '400': {description: Bad thing}
        '422': {description: bad thing}
"#,
    );
    assert_eq!(ids(&derive_scenarios(&spec)), vec!["happy-path", "validation-bad-thing"]);
    assert_eq!(
        duplicate_slugs(&spec),
        vec!["sync: duplicate scenario slug 'validation-bad-thing' under GET /a; keeping first"]
    );
}

#[test]
fn entries_from_their_slugs() {
    let e = field_entry("POST /a", "customerId", "customer-id");
    assert_eq!(e.id, "validation-customer-id-missing");
    let e = param_entry("GET /a", &kit::openapi::Location::Query, "pageNo", "page-no");
    assert_eq!(e.id, "validation-query-page-no-missing");
    assert_eq!(e.description, "missing required query param 'pageNo' → 4xx");
    assert_eq!(response_entry("GET /a", 409, "Taken", "taken").unwrap().id, "business-taken");
    assert_eq!(response_entry("GET /a", 409, "", "").unwrap().id, "business-conflict");
    assert_eq!(response_entry("GET /a", 401, "Whatever", "whatever").unwrap().id, "auth-missing-token");
    assert_eq!(response_entry("GET /a", 404, "", "").unwrap().description, "response 404");
    assert!(response_entry("GET /a", 200, "ok", "ok").is_none());
}

#[test]
fn the_first_of_a_key_stays() {
    let mut list = vec![entry("GET /a", "x")];
    assert!(!add_entry(&mut list, entry("GET /a", "x")));
    assert!(add_entry(&mut list, entry("GET /b", "x")));
    assert_eq!(list.len(), 2);
    assert!(holds_key(&list, "GET /b", "x"));
    assert!(!holds_key(&list, "GET /b", "y"));
}

#[test]
fn commands_lead_to_actions() {
    let sync_cmd = |from_code: bool, proposed: Option<&str>| ScenarioCmd::Sync {
        domain: "d".to_string(),
        from_code,
        proposed: proposed.map(str::to_string),
    };
    assert!(matches!(action(sync_cmd(true, None)), Action::SyncFromCode(d) if d == "d"));
    assert!(matches!(action(sync_cmd(false, Some("p"))), Action::SyncFromProposed(d, p) if d == "d" && p == "p"));
    assert!(matches!(action(sync_cmd(false, None)), Action::SyncDomain(d) if d == "d"));
}

#[test]
fn buckets_follow_the_layout() {
    let flat = buckets_for("/d", false, false, false);
    assert_eq!(flat.len(), 1);
    assert!(flat[0].api_type.is_none());
    assert_eq!(flat[0].spec_path, "/d/api-spec.yaml");
    assert!(!is_multi_type(&flat));
    let split = buckets_for("/d", true, false, true);
    assert_eq!(split.len(), 2);
    assert_eq!(split[0].api_type.as_deref(), Some("web-api"));
    assert_eq!(split[1].spec_path, "/d/open-api/api-spec.yaml");
    assert!(is_multi_type(&split));
    assert!(is_multi_type(&buckets_for("/d", false, true, false)));
    assert!(missing_spec(&split, false).is_none());
}

#[test]
fn sync_of_several_types_reports_each() {
    let mut file = ScenariosFile::load("/p", None).unwrap();
    let mut buckets = buckets_for("/p/docs/domains/pay", true, true, false);
    let micro = buckets.pop().unwrap();
    let web = buckets.pop().unwrap();
    let sources = vec![(web, SpecText::Text(SPEC.to_string())), (micro, SpecText::Absent)];
    let run = sync(&mut file, "pay", &sources);
    assert_eq!(run.notes, vec!["sync [web-api]: 5 added, 0 already present, 0 orphaned"]);
    let reports = run.result.unwrap();
    let v = reply(sync_report("pay", true, &reports));
    assert_eq!(v["multi_type"], true);
    assert_eq!(v["added"], 5);
    assert_eq!(v["buckets"].as_array().unwrap().len(), 1);
    assert_eq!(v["buckets"][0]["api_type"], "web-api");
    assert_eq!(v["scenarios_path"], "docs/test-scenarios.yaml");
    match file.section("pay").unwrap().unwrap() {
        SlugSection::PerApiType(b) => assert_eq!(b[0].1.len(), 5),
        _ => panic!(),
    }
}

#[test]
fn sync_tells_of_orphans() {
    let pre = "domains:\n  billing:\n    - {endpoint: GET /gone, id: x, description: d}\n";
    let mut file = ScenariosFile::load("/p", Some(pre)).unwrap();
    let run = sync(&mut file, "billing", &flat_sources(SPEC));
    assert_eq!(run.notes[0], "sync: orphaned entry — endpoint 'GET /gone' (id 'x') no longer in spec");
    assert_eq!(run.notes[1], "sync: 5 added, 0 already present, 1 orphaned");
    assert_eq!(totals(&run.result.unwrap()), (5, 0, 1));
}

#[test]
fn sync_stops_at_what_it_cannot_read() {
    let mut file = ScenariosFile::load("/p", None).unwrap();
    let mut buckets = buckets_for("/d", false, false, false);
    let bad = vec![(buckets.remove(0), SpecText::Unreadable("denied".to_string()))];
    assert_eq!(
        sync(&mut file, "billing", &bad).result.err().unwrap(),
        "failed to read /d/api-spec.yaml: denied"
    );
    let run = sync(&mut file, "billing", &flat_sources("paths: 3"));
    assert!(run
        .result
        .err()
        .unwrap()
        .starts_with("failed to parse OpenAPI v3 from /p/docs/domains/billing/api-spec.yaml: "));
}

#[test]
fn sync_does_not_mix_layouts() {
    let typed = "domains:\n  billing:\n    web-api:\n      - {endpoint: GET /a, id: x, description: d}\n";
    let mut file = ScenariosFile::load("/p", Some(typed)).unwrap();
    let mut notes = Vec::new();
    assert!(sync_spec(&mut file, "billing", None, &parse(SPEC), false, &mut notes).is_err());
    let flat = "domains:\n  billing:\n    - {endpoint: GET /a, id: x, description: d}\n";
    let mut file = ScenariosFile::load("/p", Some(flat)).unwrap();
    assert!(sync_spec(&mut file, "billing", Some("web-api"), &parse(SPEC), false, &mut notes).is_err());
}

#[test]
fn one_surface_is_reported_without_orphans() {
    let mut file = ScenariosFile::load("/p", None).unwrap();
    let mut notes = Vec::new();
    let o = sync_spec(&mut file, "billing", None, &parse(SPEC), false, &mut notes).unwrap();
    assert_eq!(notes, vec!["sync: 5 added, 0 already present"]);
    let v = reply(one_report("billing", &o));
    assert_eq!(v["domain"], "billing");
    assert!(v["api_type"].is_null());
    assert_eq!(v["added"], 5);
    assert_eq!(v["already_present"], 0);
}

#[test]
fn proposed_documents() {
    let spec = proposed_document("x.yaml", "/p/x.yaml", &SpecText::Text(SPEC.to_string())).unwrap();
    assert_eq!(derive_scenarios(&spec).len(), 5);
    assert_eq!(
        proposed_document("x.yaml", "/p/x.yaml", &SpecText::Absent).err().unwrap(),
        "proposed-api.yaml not found: x.yaml"
    );
    assert_eq!(
        proposed_document("x.yaml", "/p/x.yaml", &SpecText::Unreadable("denied".to_string())).err().unwrap(),
        "reading /p/x.yaml: denied"
    );
    let text = SpecText::Text("nope".to_string());
    assert!(proposed_document("x.yaml", "/p/x.yaml", &text)
        .err()
        .unwrap()
        .starts_with("parsing /p/x.yaml as OpenAPI 3.x: "));
}

#[test]
fn documents_from_code() {
    let shown = |s: &str| code_document("billing", true, &s.as_bytes().to_vec());
    let good = r#"{"ok":true,"spec":{"openapi":"3.0.3","info":{"title":"x","version":"1"},"paths":{"/a":{"get":{"responses":{}}}}}}"#;
    assert_eq!(ids(&derive_scenarios(&shown(good).unwrap())), vec!["happy-path"]);
    assert_eq!(
        code_document("billing", false, &b" broken \n".to_vec()).err().unwrap(),
        "jkit api-spec show billing failed: broken"
    );
    assert_eq!(
        shown(r#"{"ok": false}"#).err().unwrap(),
        "jkit api-spec show billing returned ok:false: {\"ok\":false}"
    );
    assert_eq!(shown(r#"{"ok":true}"#).err().unwrap(), "jkit api-spec show output missing `spec` field");
    assert!(shown("}").err().unwrap().starts_with("parsing jkit api-spec show output as JSON: "));
    assert!(shown(r#"{"ok":true,"spec":3}"#)
        .err()
        .unwrap()
        .starts_with("parsing api-spec output as OpenAPI 3.x: "));
}

#[test]
fn totals_add_up() {
    let r = |a: usize, b: usize, c: usize| BucketReport { api_type: None, added: a, already_present: b, orphaned: c };
    assert_eq!(totals(&vec![r(1, 2, 3), r(4, 5, 6)]), (5, 7, 9));
    assert_eq!(totals(&vec![]), (0, 0, 0));
}

#[test]
fn required_fields_of_schemas_without_a_type() {
    let spec = |schema: &str| {
        parse(&format!(
            "openapi: 3.0.3\ninfo: {{title: x, version: '1'}}\npaths:\n  /a:\n    post:\n      requestBody:\n        content:\n          application/json:\n            schema: {}\n      responses: {{}}\n",
            schema
        ))
    };
    let found = derive_scenarios(&spec("{required: [customerId], properties: {customerId: {type: string}}}"));
    assert_eq!(ids(&found), vec!["happy-path", "validation-customer-id-missing"]);
    let mixed = "{type: object, required: [a], properties: {a: {type: string}}, allOf: [{type: object, required: [b]}], oneOf: [{required: [c]}], anyOf: [{type: object, required: [d]}]}";
    assert_eq!(
        ids(&derive_scenarios(&spec(mixed))),
        vec![
            "happy-path",
            "validation-a-missing",
            "validation-b-missing",
            "validation-c-missing",
            "validation-d-missing"
        ]
    );
    assert_eq!(ids(&derive_scenarios(&spec("{type: string}"))), vec!["happy-path"]);
}

#[test]
fn the_happy_path_comes_first_of_its_endpoint() {
    let found = derive_scenarios(&parse(SPEC));
    for (i, e) in found.iter().enumerate() {
        if !found[..i].iter().any(|x| x.endpoint == e.endpoint) {
            assert_eq!(e.id, "happy-path");
        }
    }
}

#[test]
fn a_second_run_over_several_documents_adds_nothing() {
    let source = |ty: &str| {
        (
            DomainBucket { api_type: Some(ty.to_string()), spec_path: format!("{}/api-spec.yaml", ty) },
            SpecText::Text(SPEC.to_string()),
        )
    };
    let sources = vec![source("web-api"), source("open-api")];
    let mut file = ScenariosFile::load("/p", None).unwrap();
    let first = sync(&mut file, "billing", &sources).result.unwrap();
    assert!(needs_save(&first));
    let once = file.save().unwrap();
    let mut read = ScenariosFile::load("/p", Some(&once)).unwrap();
    assert!(!needs_save(&sync(&mut read, "billing", &sources).result.unwrap()));
    assert_eq!(read.save().unwrap(), once);
    let again = sync(&mut file, "billing", &sources).result.unwrap();
    assert!(!needs_save(&again));
    assert_eq!(again.iter().map(|r| r.added).sum::<usize>(), 0);
    assert_eq!(file.save().unwrap(), once);
}

#[test]
fn a_sync_leaves_the_other_types_of_a_domain() {
    let text = "domains:\n  billing:\n    open-api:\n    - {endpoint: GET /o, id: mine, description: d}\n";
    let mut file = ScenariosFile::load("/p", Some(text)).unwrap();
    let sources = vec![(
        DomainBucket { api_type: Some("web-api".to_string()), spec_path: "web-api/api-spec.yaml".to_string() },
        SpecText::Text(SPEC.to_string()),
    )];
    sync(&mut file, "billing", &sources).result.unwrap();
    match file.section("billing").unwrap().unwrap() {
        SlugSection::PerApiType(v) => {
            assert_eq!(v[0].0, "open-api");
            assert_eq!(v[0].1.len(), 1);
            assert_eq!(v[0].1[0].id, "mine");
            assert_eq!(v[1].0, "web-api");
        }
        _ => panic!(),
    }
}

#[test]
fn nothing_added_is_nothing_to_save() {
    let report = |added: usize| BucketReport { api_type: None, added, already_present: 3, orphaned: 1 };
    assert!(!needs_save(&vec![]));
    assert!(!needs_save(&vec![report(0), report(0)]));
    assert!(needs_save(&vec![report(0), report(1)]));
}
