use kit::contracts::{
    add_args, catalog_text, cli_error, clone_args, clone_error, commit_args, commit_next, commit_start, commit_subject,
    contract_names, exit_text, install_args, install_report, iso8601, read_marketplace, refresh_report,
    resolve_marketplace_config, split_results, split_services, stage_list, update_args, Catalog, CommitNext, CommitStep,
};
use kit::envelope::{print_err, print_ok};
use kit::git::Output;
use kit::host::{command_error, invoke_error, manifest_file, marketplace_file};
use kit::json::Json;
use serde_json::Value;

const CLI: &str = "assistant";
const MARKETPLACE: &str = "/tmp/m/.assistant-plugin/marketplace.json";

fn list(v: &[&str]) -> Vec<String> {
    v.iter().map(|s| s.to_string()).collect()
}

fn reply(j: Json) -> Value {
    assert!(matches!(j, Json::Object(_)));
    serde_json::from_str(&print_ok(j)).unwrap()
}

fn strings(v: &Value) -> Vec<String> {
    v.as_array().unwrap().iter().map(|s| s.as_str().unwrap().to_string()).collect()
}

fn plugin(name: &str, description: &str, version: Option<&str>) -> String {
    match version {
        Some(v) => format!(r#"{{"name":"{name}","description":"{description}","version":"{v}"}}"#),
        None => format!(r#"{{"name":"{name}","description":"{description}"}}"#),
    }
}

fn catalog(name: &str, plugins: &[String]) -> Catalog {
    let text = format!(r#"{{"name":"test-marketplace","plugins":[{}]}}"#, plugins.join(","));
    Catalog {
        marketplace_name: name.to_string(),
        updated_at: iso8601(0),
        contracts: read_marketplace(MARKETPLACE, &text).ok().unwrap(),
    }
}

fn output(success: bool, stderr: &str) -> Output {
    Output { success, stdout: Vec::new(), stderr: stderr.as_bytes().to_vec() }
}

/// Runs the steps of a commit in which something is staged or not.
fn commit(files: &Vec<String>, staged: bool) -> bool {
    let mut next = commit_start(files);
    loop {
        match next {
            CommitNext::Do(step) => {
                let success = !(matches!(step, CommitStep::Diff) && staged);
                next = commit_next(step, &output(success, ""));
            }
            CommitNext::Done(committed) => return committed,
            CommitNext::Failed(e) => panic!("{}", e),
        }
    }
}

#[test]
fn refresh_catalog_writes_marketplace_catalog_json() {
    let url = "file:///tmp/mp";
    let m = resolve_marketplace_config(None, Some(url), Some("test-mp")).ok().unwrap();
    assert_eq!(m.repo, url);
    let c = catalog(&m.name, &[plugin("billing-contract", "Billing service contract", None)]);
    let v = reply(refresh_report(&c));
    assert_eq!(v["ok"], true);
    assert_eq!(v["marketplace_name"], "test-mp");
    assert_eq!(strings(&v["contracts"]), list(&["billing-contract"]));
    assert_eq!(v["catalog_path"], ".jkit/marketplace-catalog.json");
    let cj_v: Value = serde_json::from_str(&m.write.unwrap()).unwrap();
    assert_eq!(cj_v["marketplaceRepo"], url);
    assert_eq!(cj_v["marketplaceName"], "test-mp");
}

#[test]
fn refresh_catalog_without_args_falls_back_to_contract_json() {
    let text = r#"{"marketplaceRepo":"file:///tmp/mp","marketplaceName":"prefilled"}"#;
    let m = resolve_marketplace_config(Some(text), None, None).ok().unwrap();
    assert!(m.write.is_none());
    let v = reply(refresh_report(&catalog(&m.name, &[plugin("foo", "Foo svc", None)])));
    assert_eq!(v["ok"], true);
    assert_eq!(v["marketplace_name"], "prefilled");
}

#[test]
fn refresh_catalog_missing_repo_returns_error_envelope() {
    let message = resolve_marketplace_config(None, None, None).err().unwrap();
    let v: Value = serde_json::from_str(&print_err(&message, None)).unwrap();
    assert_eq!(v["ok"], false);
    let msg = v["error"]["message"].as_str().unwrap();
    assert!(msg.contains("marketplaceRepo"), "msg: {msg}");
}

#[test]
fn refresh_catalog_unreachable_repo_returns_error_envelope() {
    let repo = "/nonexistent/path/to/nowhere";
    assert!(resolve_marketplace_config(None, Some(repo), Some("nope")).is_ok());
    let message = clone_error(repo, &output(false, "fatal: repository does not exist\n"));
    let v: Value = serde_json::from_str(&print_err(&message, None)).unwrap();
    assert_eq!(v["ok"], false);
    let msg = v["error"]["message"].as_str().unwrap();
    assert!(msg.contains("git clone") || msg.contains("clone"), "msg: {msg}");
    assert_eq!(msg, "git clone /nonexistent/path/to/nowhere failed: fatal: repository does not exist");
    assert_eq!(clone_args("r", "/t"), list(&["clone", "--depth", "1", "--quiet", "r", "/t"]));
    assert_eq!(clone_error("r", &output(false, " ")), "git clone r failed: (no stderr)");
}

#[test]
fn install_skips_services_not_in_catalog() {
    let c = catalog("test-mp", &[plugin("present-contract", "OK", None)]);
    let (have, lack) = split_services(&list(&["absent-contract", "present-contract"]), &contract_names(&c));
    let (installed, failed) = split_results(&have, &vec![true]);
    let committed = commit(&stage_list(CLI, false, true, true), true);
    let v = reply(install_report(&c.marketplace_name, &installed, &lack, &failed, committed));
    assert_eq!(v["ok"], true);
    assert_eq!(strings(&v["installed"]), list(&["present-contract"]));
    assert_eq!(strings(&v["skipped_not_in_catalog"]), list(&["absent-contract"]));
    assert_eq!(strings(&v["claude_install_failed"]), list(&[]));
    assert_eq!(v["committed"], true);
    assert!(v["commit_subject"]
        .as_str()
        .unwrap()
        .contains("install contracts"));
}

#[test]
fn install_with_no_services_commits_refresh_subject() {
    let c = catalog("test-mp", &[plugin("foo", "", None)]);
    let (have, lack) = split_services(&vec![], &contract_names(&c));
    let (installed, failed) = split_results(&have, &vec![]);
    let committed = commit(&stage_list(CLI, false, true, true), true);
    let v = reply(install_report(&c.marketplace_name, &installed, &lack, &failed, committed));
    assert_eq!(v["ok"], true);
    assert_eq!(strings(&v["installed"]), list(&[]));
    assert_eq!(v["committed"], true);
    assert_eq!(
        v["commit_subject"].as_str().unwrap(),
        "chore: refresh marketplace catalog"
    );
}

#[test]
fn refresh_catalog_propagates_latest_version_from_marketplace() {
    let c = catalog(
        "test-mp",
        &[
            plugin("billing-contract", "Billing", Some("1.5.0")),
            plugin("legacy-contract", "Pre-versioning", None),
        ],
    );
    let cv: Value = serde_json::from_str(&catalog_text(&c)).unwrap();
    let contracts = cv["contracts"].as_array().unwrap();
    let billing = contracts
        .iter()
        .find(|c| c["name"] == "billing-contract")
        .unwrap();
    assert_eq!(billing["latest_version"], "1.5.0");
    let legacy = contracts
        .iter()
        .find(|c| c["name"] == "legacy-contract")
        .unwrap();
    assert!(legacy.get("latest_version").is_none(), "legacy entry should omit latest_version");
    let text = catalog_text(&c);
    assert_eq!(kit::plugin_status::catalog_version(Some(text.as_str()), "billing-contract").as_deref(), Some("1.5.0"));
}

#[test]
fn install_idempotent_no_change_no_commit() {
    let first = resolve_marketplace_config(None, Some("file:///tmp/mp"), Some("test-mp")).ok().unwrap();
    let written = first.write.unwrap();
    let second =
        resolve_marketplace_config(Some(written.as_str()), Some("file:///tmp/mp"), Some("test-mp")).ok().unwrap();
    assert!(second.write.is_none());
    let c = catalog(&second.name, &[plugin("foo", "", None)]);
    assert_eq!(catalog_text(&c), catalog_text(&catalog("test-mp", &[plugin("foo", "", None)])));
    let v = reply(refresh_report(&c));
    assert_eq!(v["ok"], true);
    assert!(!commit(&stage_list(CLI, false, true, true), false));
}

#[test]
fn settings_keep_what_else_they_hold() {
    let text = r#"{"contractRepo":"git@x","marketplaceName":"old","n":1}"#;
    let m = resolve_marketplace_config(Some(text), Some("r"), None).ok().unwrap();
    assert_eq!(m.name, "old");
    assert_eq!(
        m.write.unwrap(),
        "{\n  \"contractRepo\": \"git@x\",\n  \"marketplaceName\": \"old\",\n  \"n\": 1,\n  \"marketplaceRepo\": \"r\"\n}\n"
    );
}

#[test]
fn settings_that_cannot_be_used() {
    assert_eq!(
        resolve_marketplace_config(None, Some("r"), Some("")).err().unwrap(),
        "marketplaceName missing — pass --marketplace-name or set it in .jkit/contract.json"
    );
    assert_eq!(
        resolve_marketplace_config(Some("[]"), Some("r"), Some("n")).err().unwrap(),
        ".jkit/contract.json is not a JSON object"
    );
    let m = resolve_marketplace_config(Some("{broken"), Some("r"), Some("n")).ok().unwrap();
    assert!(m.write.is_some());
}

#[test]
fn marketplaces_that_cannot_be_read() {
    assert!(read_marketplace("/m", "{").err().unwrap().starts_with("parsing /m: "));
    assert_eq!(read_marketplace("/m", "{}").err().unwrap(), "marketplace.json missing `plugins` array");
    let c = read_marketplace("/m", r#"{"plugins":[{"description":"x"},{"name":"a","version":1}]}"#).ok().unwrap();
    assert_eq!(c.len(), 1);
    assert_eq!(c[0].description, "");
    assert!(c[0].latest_version.is_none());
}

#[test]
fn catalog_files_are_pretty() {
    let c = catalog("m", &[plugin("a", "A", Some("2"))]);
    assert_eq!(
        catalog_text(&c),
        "{\n  \"marketplaceName\": \"m\",\n  \"updatedAt\": \"1970-01-01T00:00:00+00:00\",\n  \"contracts\": [\n    {\n      \"name\": \"a\",\n      \"description\": \"A\",\n      \"latest_version\": \"2\"\n    }\n  ]\n}\n"
    );
}

#[test]
fn services_are_split_in_order() {
    let (have, lack) = split_services(&list(&["b", "x", "a", "b"]), &list(&["a", "b"]));
    assert_eq!(have, list(&["b", "a", "b"]));
    assert_eq!(lack, list(&["x"]));
    let (installed, failed) = split_results(&list(&["a", "b", "c"]), &vec![true, false, true]);
    assert_eq!(installed, list(&["a", "c"]));
    assert_eq!(failed, list(&["b"]));
    assert_eq!(commit_subject(&installed), "chore: install contracts [a, c]");
}

#[test]
fn no_commit_without_a_subject() {
    let v = reply(install_report("m", &vec![], &vec![], &list(&["a"]), false));
    assert!(v.get("commit_subject").is_none());
    assert_eq!(strings(&v["claude_install_failed"]), list(&["a"]));
}

#[test]
fn commits_go_step_by_step() {
    assert!(matches!(commit_start(&vec![]), CommitNext::Done(false)));
    let files = stage_list(CLI, true, false, true);
    assert_eq!(files, list(&[".assistant/settings.json", ".jkit/contract.json"]));
    assert_eq!(commit_args(CommitStep::Add, &files, "s"), list(&["add", ".assistant/settings.json", ".jkit/contract.json"]));
    assert_eq!(commit_args(CommitStep::Diff, &files, "s"), list(&["diff", "--cached", "--quiet"]));
    assert_eq!(commit_args(CommitStep::Commit, &files, "s"), list(&["commit", "-q", "-m", "s"]));
    assert!(matches!(
        commit_next(CommitStep::Add, &output(false, "no\n")),
        CommitNext::Failed(e) if e == "git add failed: no"
    ));
    assert!(matches!(
        commit_next(CommitStep::Commit, &output(false, "hook\n")),
        CommitNext::Failed(e) if e == "git commit failed: hook"
    ));
}

#[test]
fn the_tool_is_asked_and_its_end_told() {
    assert_eq!(add_args("r"), list(&["plugin", "marketplace", "add", "r"]));
    assert_eq!(update_args("m"), list(&["plugin", "marketplace", "update", "m"]));
    assert_eq!(install_args("p"), list(&["plugin", "install", "p", "--scope", "project"]));
    assert_eq!(exit_text(Some(0)), "0");
    assert_eq!(exit_text(Some(-11)), "-11");
    assert_eq!(exit_text(None), "killed");
    assert_eq!(
        cli_error(CLI, &add_args("r"), Some(2), &b"bad \xff\n".to_vec()),
        "`assistant plugin marketplace add r` exited 2: bad \u{fffd}"
    );
}

#[test]
fn commands_that_fail_are_told() {
    assert_eq!(invoke_error(CLI), "invoking `assistant` (is it on PATH?)");
    assert_eq!(
        command_error(CLI, &update_args("m"), "why"),
        "`assistant plugin marketplace update m` failed: why"
    );
    assert_eq!(manifest_file(CLI), ".assistant-plugin/plugin.json");
    assert_eq!(marketplace_file(CLI), ".assistant-plugin/marketplace.json");
}
