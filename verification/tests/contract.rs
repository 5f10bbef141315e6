use kit::contract::{
    add_plugin, collect_stage_files, config_commit, dry_run, guess_tool, marketplace_text, plugin_name, publish_commit,
    read_marketplace, read_modified_files, stage_error, staged_version, targets, ContractCfg, Targets,
};
use kit::envelope::{print_err, print_ok};
use kit::json::Json;
use serde_json::Value;

fn list(v: &[&str]) -> Vec<String> {
    v.iter().map(|s| s.to_string()).collect()
}

fn cfg(contract: Option<&str>, repo: Option<&str>, name: Option<&str>) -> ContractCfg {
    ContractCfg {
        contract_repo: contract.map(str::to_string),
        marketplace_repo: repo.map(str::to_string),
        marketplace_name: name.map(str::to_string),
    }
}

fn reply(j: Json) -> Value {
    assert!(matches!(j, Json::Object(_)));
    serde_json::from_str(&print_ok(j)).unwrap()
}

fn parsed(j: &Json) -> Value {
    serde_json::from_str(&marketplace_text(j)).unwrap()
}

#[test]
fn missing_contract_json_exits_one() {
    assert_eq!(targets(None).err().unwrap(), ".jkit/contract.json missing");
}

#[test]
fn contract_json_missing_fields_lists_them() {
    let message = targets(Some(cfg(Some("git@x"), None, None))).err().unwrap();
    let v: Value = serde_json::from_str(&print_err(&message, None)).unwrap();
    assert_eq!(v["ok"], false);
    let msg = v["error"]["message"].as_str().unwrap();
    assert!(msg.contains("marketplaceRepo"), "msg: {msg}");
    assert!(msg.contains("marketplaceName"), "msg: {msg}");
    assert!(!msg.contains("contractRepo"), "msg: {msg}");
}

#[test]
fn missing_stage_dir_exits_one() {
    assert!(targets(Some(cfg(Some("git@a"), Some("git@b"), Some("m")))).is_ok());
    assert_eq!(
        stage_error("/p/.jkit/contract-stage/billing", false, &vec![]).unwrap(),
        "stage dir not found: /p/.jkit/contract-stage/billing"
    );
}

#[test]
fn dry_run_emits_planned_actions_without_pushing() {
    let t = targets(Some(cfg(
        Some("git@example.com:billing-contract.git"),
        Some("git@example.com:marketplace.git"),
        Some("example-marketplace"),
    )))
    .ok()
    .unwrap();
    let files = collect_stage_files(&list(&[
        "skills/billing/SKILL.md",
        ".modified-files.json",
        "reference/contract.yaml",
        ".assistant-plugin/plugin.json",
    ]));
    assert!(stage_error("/s", true, &files).is_none());
    let modified = read_modified_files(Some(r#"["smart-doc.json"]"#));
    let v = reply(dry_run("assistant", "billing", &t, &files, &modified, false));
    assert_eq!(v["ok"], true);
    assert_eq!(v["confirmed"], false);
    assert_eq!(v["service"], "billing");
    let pushed = v["would_push_files"].as_array().unwrap();
    assert!(pushed
        .iter()
        .any(|p| p.as_str().unwrap().contains("plugin.json")));
    assert_eq!(pushed.len(), 3);
    let commits = v["would_commit"].as_array().unwrap();
    assert!(commits.len() == 2);
    assert!(commits[0].as_str().unwrap().contains("smart-doc"));
    assert!(commits[1].as_str().unwrap().contains("publish service contract for billing"));
    assert_eq!(v["would_run"][0], "git push git@example.com:billing-contract.git");
    assert_eq!(v["would_run"][1], "marketplace.json update + push");
    assert_eq!(v["would_run"][2], "assistant plugin marketplace update example-marketplace");
    assert_eq!(v["marketplace_repo"], "git@example.com:marketplace.git");
}

#[test]
fn dry_run_no_commit_omits_commit_plan() {
    let t = targets(Some(cfg(Some("a"), Some("b"), Some("m")))).ok().unwrap();
    let v = reply(dry_run("assistant", "billing", &t, &list(&["skills/billing/SKILL.md"]), &vec![], true));
    assert_eq!(v["ok"], true);
    assert!(v["would_commit"].as_array().unwrap().is_empty());
}

#[test]
fn empty_settings_are_missing() {
    assert_eq!(
        targets(Some(cfg(Some(""), Some("b"), None))).err().unwrap(),
        "missing fields in .jkit/contract.json: contractRepo, marketplaceName"
    );
}

#[test]
fn a_stage_without_files_is_refused() {
    assert_eq!(stage_error("/s", true, &vec![]).unwrap(), "stage dir is empty: /s");
}

#[test]
fn stage_files_are_sorted_by_path() {
    let files = collect_stage_files(&list(&["b", "a/z", ".git/config", "a.txt", "a/.git/x", "sub/.modified-files.json", "a/b/c"]));
    assert_eq!(files, list(&["a/b/c", "a/z", "a.txt", "b"]));
}

#[test]
fn tools_are_guessed_from_file_names() {
    assert_eq!(guess_tool(&list(&["x", "pom.xml", "go.mod"])), "maven");
    assert_eq!(guess_tool(&list(&["app/package.json"])), "npm");
    assert_eq!(guess_tool(&list(&["go.mod"])), "go");
    assert_eq!(guess_tool(&list(&["Cargo.toml"])), "cargo");
    assert_eq!(guess_tool(&list(&["docs/smart-doc.json"])), "smart-doc");
    assert_eq!(guess_tool(&vec![]), "build-tool");
    assert_eq!(config_commit(&list(&["pom.xml"])), "chore(contract): add maven configuration");
    assert_eq!(publish_commit("billing"), "chore(contract): publish service contract for billing");
}

#[test]
fn modified_files_that_cannot_be_read_are_none() {
    assert!(read_modified_files(None).is_empty());
    assert!(read_modified_files(Some("[1]")).is_empty());
    assert!(read_modified_files(Some("nope")).is_empty());
    assert_eq!(read_modified_files(Some(r#"["a","b"]"#)), list(&["a", "b"]));
}

#[test]
fn marketplaces_are_made_or_read() {
    let fresh = read_marketplace(None, "m").unwrap();
    assert_eq!(parsed(&fresh)["name"], "m");
    assert!(parsed(&fresh)["plugins"].as_array().unwrap().is_empty());
    assert_eq!(parsed(&read_marketplace(Some(" \n"), "m").unwrap())["name"], "m");
    assert_eq!(parsed(&read_marketplace(Some(r#"{"name":"x"}"#), "m").unwrap())["name"], "x");
    assert!(read_marketplace(Some("{"), "m").is_err());
}

#[test]
fn publishing_twice_changes_nothing() {
    let once = add_plugin(read_marketplace(None, "m").unwrap(), "billing-contract", "git@x", Some("1.0.0")).unwrap();
    let first = marketplace_text(&once);
    let twice = add_plugin(once, "billing-contract", "git@y", Some("1.0.0")).unwrap();
    assert_eq!(first, marketplace_text(&twice));
    assert_eq!(
        first,
        "{\n  \"name\": \"m\",\n  \"plugins\": [\n    {\n      \"name\": \"billing-contract\",\n      \"source\": \"git@x\",\n      \"version\": \"1.0.0\"\n    }\n  ]\n}\n"
    );
}

#[test]
fn a_new_version_replaces_the_old_one() {
    let text = r#"{"plugins":[{"name":"other"},{"name":"billing-contract","source":"s","version":"1.0.0","x":1}]}"#;
    let v = add_plugin(read_marketplace(Some(text), "m").unwrap(), "billing-contract", "git@x", Some("1.1.0")).unwrap();
    let v = parsed(&v);
    assert_eq!(v["plugins"].as_array().unwrap().len(), 2);
    assert_eq!(v["plugins"][1]["version"], "1.1.0");
    assert_eq!(v["plugins"][1]["source"], "s");
    assert_eq!(v["plugins"][1]["x"], 1);
}

#[test]
fn a_marketplace_without_a_list_is_refused() {
    for text in [r#"{}"#, r#"{"plugins":{}}"#, "[]"] {
        assert_eq!(
            add_plugin(read_marketplace(Some(text), "m").unwrap(), "p", "s", None).err().unwrap(),
            "marketplace.json: 'plugins' must be an array"
        );
    }
}

#[test]
fn staged_versions() {
    assert_eq!(staged_version(Some(r#"{"version":"1.2.3"}"#)).as_deref(), Some("1.2.3"));
    assert!(staged_version(Some(r#"{"version":3}"#)).is_none());
    assert!(staged_version(Some("nope")).is_none());
    assert!(staged_version(None).is_none());
    assert_eq!(plugin_name("billing"), "billing-contract");
}

#[test]
fn targets_are_taken_as_they_are() {
    let t: Targets = targets(Some(cfg(Some("a"), Some("b"), Some("c")))).ok().unwrap();
    assert_eq!((t.contract_repo.as_str(), t.marketplace_repo.as_str(), t.marketplace_name.as_str()), ("a", "b", "c"));
}
