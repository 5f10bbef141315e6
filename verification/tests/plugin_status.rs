use kit::envelope::print_ok;
use kit::plugin_status::{
    candidate_paths, catalog_version, choose_skill, derive_github_issues_url, drift, extract_xml_tag, hits, installed_status, least,
    manifest, normalize_repo_url, not_installed, parse_sdk_block, plugin_report, read_version, sdk_from_block, Drift,
    url_host, Manifest, PluginStatus,
};
use serde_json::Value;

const PLUGIN: &str = r#"{"name": "billing-contract", "version": "1.0.0", "skills": ["billing"]}"#;

fn report(s: &PluginStatus) -> Value {
    serde_json::from_str(&print_ok(plugin_report(s))).unwrap()
}

/// A plugin `billing-contract` in the project, with this `plugin.json`.
fn status(plugin_json: Option<&str>, skill_md: Option<&str>, has_contract: bool, catalog: Option<&str>) -> Value {
    let found = vec![None, Some("/p/.assistant/plugins/billing-contract".to_string())];
    let places = candidate_paths("assistant", "/p", None, "billing");
    let hits = hits(&places, &found);
    let m = manifest("/x", plugin_json).ok().unwrap();
    let skill = match &m {
        Some(m) => m.skill.clone(),
        None => None,
    };
    let latest = catalog_version(catalog, &hits[0].0);
    assert!(!hits.is_empty());
    report(&installed_status("/p", &hits, m, skill, skill_md, has_contract, latest))
}

#[test]
fn sdk_block_parsed() {
    let md = "# Foo\n\n## Overview\n\nstuff\n\n## SDK\n\n```xml\n<dependency>\n  <groupId>com.example</groupId>\n  <artifactId>billing-api</artifactId>\n  <version>1.2.0</version>\n</dependency>\n```\n\n## Endpoints\n\n";
    let mut w = Vec::new();
    let sdk = parse_sdk_block(md, &mut w);
    assert!(sdk.present);
    assert_eq!(sdk.group_id.unwrap(), "com.example");
    assert_eq!(sdk.artifact_id.unwrap(), "billing-api");
    assert_eq!(sdk.version.unwrap(), "1.2.0");
    assert!(w.is_empty());
}

#[test]
fn sdk_heading_no_block() {
    let md = "## SDK\n\nNothing here yet.\n";
    let mut w = Vec::new();
    let sdk = parse_sdk_block(md, &mut w);
    assert!(!sdk.present);
    assert_eq!(w.len(), 1);
    assert!(w[0].contains("no <dependency> block"));
}

#[test]
fn no_sdk_heading() {
    let md = "## Other\n\nstuff\n";
    let mut w = Vec::new();
    let sdk = parse_sdk_block(md, &mut w);
    assert!(!sdk.present);
    assert!(w.is_empty());
}

#[test]
fn missing_plugin_returns_installed_false() {
    let places = candidate_paths("assistant", "/p", Some("/p"), "billing");
    assert!(hits(&places, &vec![None, None, None, None]).is_empty());
    let v = report(&not_installed("billing"));
    assert_eq!(v["ok"], true);
    assert_eq!(v["installed"], false);
    assert_eq!(v["plugin_name"], "billing");
    assert_eq!(v["drift_status"], "unknown");
}

#[test]
fn drift_status_behind_when_catalog_has_newer_version() {
    let catalog = r#"{"marketplaceName":"x","updatedAt":"x","contracts":[{"name":"billing-contract","description":"","latest_version":"1.5.0"}]}"#;
    let v = status(Some(PLUGIN), None, false, Some(catalog));
    assert_eq!(v["plugin_version"], "1.0.0");
    assert_eq!(v["latest_version"], "1.5.0");
    assert_eq!(v["drift_status"], "behind");
}

#[test]
fn drift_status_unknown_when_catalog_missing() {
    let v = status(Some(PLUGIN), None, false, None);
    assert_eq!(v["drift_status"], "unknown");
    assert!(v.get("latest_version").is_none(), "latest_version should be omitted when unknown");
}

#[test]
fn project_level_plugin_with_full_metadata() {
    let md = "# billing\n\n## SDK\n\n```xml\n<dependency>\n  <groupId>com.example</groupId>\n  <artifactId>billing-api</artifactId>\n  <version>1.2.0</version>\n</dependency>\n```\n";
    // Either input form should resolve to the same plugin.
    for arg in ["billing", "billing-contract"] {
        let places = candidate_paths("assistant", "/p", Some("/p"), arg);
        let found: Vec<Option<String>> = places
            .iter()
            .map(|(_, path)| if path == "/p/.assistant/plugins/billing-contract" { Some(path.clone()) } else { None })
            .collect();
        let h = hits(&places, &found);
        let m = manifest("/x", Some(PLUGIN)).ok().unwrap();
        let skill = m.as_ref().unwrap().skill.clone();
        let v = report(&installed_status("/p", &h, m, skill, Some(md), true, None));
        assert_eq!(v["ok"], true);
        assert_eq!(v["installed"], true);
        assert_eq!(v["plugin_name"], "billing-contract");
        assert_eq!(v["plugin_version"], "1.0.0");
        assert_eq!(v["skill_name"], "billing");
        assert_eq!(v["sdk"]["present"], true);
        assert_eq!(v["sdk"]["group_id"], "com.example");
        assert_eq!(v["sdk"]["artifact_id"], "billing-api");
        assert_eq!(v["sdk"]["version"], "1.2.0");
        assert!(v["contract_yaml_path"].as_str().unwrap().contains("contract.yaml"));
    }
}

#[test]
fn project_level_wins_over_user_level() {
    let places = candidate_paths("assistant", "/p", Some("/home/u"), "billing");
    let found = vec![
        None,
        Some("/p/.assistant/plugins/billing-contract".to_string()),
        None,
        Some("/home/u/.assistant/plugins/billing-contract".to_string()),
    ];
    let h = hits(&places, &found);
    assert_eq!(h[0].1, "/p/.assistant/plugins/billing-contract");
    let project = r#"{"name":"billing-contract","version":"2.0.0","skills":["billing"]}"#;
    let m = manifest("/x", Some(project)).ok().unwrap();
    let v = report(&installed_status("/p", &h, m, Some("billing".to_string()), None, false, None));
    assert_eq!(v["ok"], true);
    assert_eq!(v["plugin_version"], "2.0.0");
    let warnings = v["warnings"].as_array().unwrap();
    assert!(warnings.iter().any(|w| w.as_str().unwrap().contains("duplicate")));
    assert_eq!(
        warnings[0],
        "duplicate plugin install dirs found; using first: also at /home/u/.assistant/plugins/billing-contract"
    );
}

#[test]
fn repository_and_bugs_fields_surface_urls() {
    let text = r#"{
          "name":"billing-contract","version":"1.0.0","skills":["billing"],
          "repository":{"type":"git","url":"git+https://github.com/acme/billing-contract.git"},
          "bugs":{"url":"https://acme.example.com/tickets/billing"}
        }"#;
    let v = status(Some(text), None, false, None);
    assert_eq!(v["ok"], true);
    assert_eq!(v["repo_url"], "https://github.com/acme/billing-contract");
    assert_eq!(v["issues_url"], "https://acme.example.com/tickets/billing");
}

#[test]
fn issues_url_derived_from_github_repo_when_bugs_absent() {
    let text = r#"{
          "name":"billing-contract","version":"1.0.0","skills":["billing"],
          "repository":"https://github.com/acme/billing-contract"
        }"#;
    let v = status(Some(text), None, false, None);
    assert_eq!(v["ok"], true);
    assert_eq!(v["repo_url"], "https://github.com/acme/billing-contract");
    assert_eq!(v["issues_url"], "https://github.com/acme/billing-contract/issues");
}

#[test]
fn no_issues_url_for_non_github_repo_when_bugs_absent() {
    let text = r#"{
          "name":"billing-contract","version":"1.0.0","skills":["billing"],
          "repository":"https://gitlab.example.com/acme/billing-contract"
        }"#;
    let v = status(Some(text), None, false, None);
    assert_eq!(v["ok"], true);
    assert_eq!(v["repo_url"], "https://gitlab.example.com/acme/billing-contract");
    assert!(v["issues_url"].is_null());
}

#[test]
fn missing_contract_yaml_surfaces_warning() {
    let v = status(Some(r#"{"name":"billing-contract","version":"1.0.0","skills":["billing"]}"#), None, false, None);
    assert_eq!(v["ok"], true);
    assert!(v["contract_yaml_path"].is_null());
    let warnings = v["warnings"].as_array().unwrap();
    assert!(warnings
        .iter()
        .any(|w| w.as_str().unwrap().contains("contract.yaml")));
}

#[test]
fn places_are_looked_at_in_order() {
    let v = candidate_paths("assistant", "/p", Some("/h"), "billing");
    let expected = vec![
        ("billing", "/p/.assistant/plugins/billing"),
        ("billing-contract", "/p/.assistant/plugins/billing-contract"),
        ("billing", "/h/.assistant/plugins/billing"),
        ("billing-contract", "/h/.assistant/plugins/billing-contract"),
    ];
    let got: Vec<(&str, &str)> = v.iter().map(|(a, b)| (a.as_str(), b.as_str())).collect();
    assert_eq!(got, expected);
    assert_eq!(candidate_paths("assistant", "/p", None, "x-contract").len(), 1);
}

#[test]
fn manifests_that_lack_something() {
    let v = status(None, None, true, None);
    assert_eq!(v["warnings"][0], "plugin.json missing");
    let v = status(Some(r#"{"skills":[{"name":"s"}]}"#), None, true, None);
    assert_eq!(v["warnings"][0], "plugin.json missing 'version'");
    assert_eq!(v["skill_name"], "s");
    assert!(v["plugin_version"].is_null());
    assert!(manifest("/x/plugin.json", Some("{")).err().unwrap().starts_with("invalid JSON in /x/plugin.json: "));
    assert!(manifest("/x", None).ok().unwrap().is_none());
}

#[test]
fn versions_are_compared_by_numbers() {
    assert!(matches!(drift(Some("1.10.0"), Some("1.9.0")), Drift::Ahead));
    assert!(matches!(drift(Some("1.9"), Some("1.10.0")), Drift::Behind));
    assert!(matches!(drift(Some("1.0.0"), Some("1.0.0")), Drift::Current));
    assert!(matches!(drift(None, Some("1.0.0")), Drift::Unknown));
    assert!(matches!(drift(Some("1.0.0"), None), Drift::Unknown));
    assert_eq!(read_version("1.20.3"), Some(vec![1, 20, 3]));
    assert!(read_version("1..2").is_none());
    assert!(read_version("1.x").is_none());
    assert!(read_version("").is_none());
    assert_eq!(Drift::Behind.as_str(), "behind");
}

#[test]
fn urls() {
    assert_eq!(normalize_repo_url("git+https://x/y.git"), "https://x/y");
    assert_eq!(normalize_repo_url("https://x/y"), "https://x/y");
    assert!(derive_github_issues_url("https://gitlab.com/a").is_none());
    assert!(derive_github_issues_url("https://gitlab.example.com/mirrors/github.com").is_none());
    assert!(derive_github_issues_url("https://notgithub.com/a").is_none());
    assert!(derive_github_issues_url("https://github.com.example.com/a").is_none());
    assert_eq!(derive_github_issues_url("https://github.com/a/b").as_deref(), Some("https://github.com/a/b/issues"));
    assert_eq!(derive_github_issues_url("git@github.com:a/b").as_deref(), Some("git@github.com:a/b/issues"));
    assert_eq!(url_host("ssh://git@github.com:22/a/b"), "github.com");
    assert_eq!(url_host("https://me@example.com:pass@github.com/a"), "github.com");
    assert_eq!(url_host("scm:git:git@github.com:a/b"), "github.com");
    assert_eq!(
        derive_github_issues_url("https://me@example.com@github.com/a").as_deref(),
        Some("https://me@example.com@github.com/a/issues")
    );
    assert_eq!(
        derive_github_issues_url("scm:git:https://github.com/a/b").as_deref(),
        Some("scm:git:https://github.com/a/b/issues")
    );
    assert_eq!(derive_github_issues_url("//www.github.com./a").as_deref(), Some("//www.github.com./a/issues"));
    assert!(derive_github_issues_url("https://github.com@example.com/a").is_none());
    assert!(derive_github_issues_url("https://example.com/@github.com").is_none());
    assert!(derive_github_issues_url("https://example.com?at=@github.com").is_none());
}

#[test]
fn tags_and_blocks() {
    assert_eq!(extract_xml_tag("<a> x </a>", "a").as_deref(), Some("x"));
    assert!(extract_xml_tag("<a>x", "a").is_none());
    let mut w = Vec::new();
    let sdk = sdk_from_block(Some("<dependency><groupId>g</groupId>"), &mut w);
    assert!(!sdk.present);
    assert_eq!(sdk.group_id.as_deref(), Some("g"));
    assert!(w.is_empty());
}

#[test]
fn an_sdk_ends_at_the_next_heading() {
    let md = "## sdk\n\né text\n\n## More\n\n<dependency><groupId>g</groupId><artifactId>a</artifactId></dependency>\n";
    let mut w = Vec::new();
    assert!(!parse_sdk_block(md, &mut w).present);
    assert_eq!(w, vec!["SKILL.md has SDK heading but no <dependency> block"]);
}

#[test]
fn the_least_name_is_the_skill() {
    assert_eq!(least(&vec!["b".to_string(), "a".to_string()]).as_deref(), Some("a"));
    assert!(least(&vec![]).is_none());
}

#[test]
fn catalogs_that_say_nothing() {
    assert!(catalog_version(None, "a").is_none());
    assert!(catalog_version(Some("{"), "a").is_none());
    assert!(catalog_version(Some(r#"{"contracts":[{"name":"b","latest_version":"1"}]}"#), "a").is_none());
}

#[test]
fn the_named_skill_comes_before_the_directories() {
    let names = vec!["b".to_string(), "a".to_string()];
    let about = |skill: Option<&str>| {
        Some(Manifest { version: None, skill: skill.map(String::from), repo_url: None, issues_url: None })
    };
    assert_eq!(choose_skill(&about(Some("z")), &names).as_deref(), Some("z"));
    assert_eq!(choose_skill(&about(None), &names).as_deref(), Some("a"));
    assert_eq!(choose_skill(&None, &names).as_deref(), Some("a"));
    assert!(choose_skill(&None, &vec![]).is_none());
}
