use kit::scenarios_yaml::{ScenarioEntry, ScenariosFile, SlugSection};

fn entry(endpoint: &str, id: &str) -> ScenarioEntry {
    ScenarioEntry { endpoint: endpoint.into(), id: id.into(), description: "ok".into() }
}

#[test]
fn round_trip_flat_section() {
    let mut f = ScenariosFile::load("/tmp/project", None).unwrap();
    f.put_entries(
        "billing",
        None,
        &vec![ScenarioEntry {
            endpoint: "GET /a".into(),
            id: "happy-path".into(),
            description: "ok".into(),
        }],
    )
    .unwrap();
    let text = f.save().unwrap();
    let f2 = ScenariosFile::load("/tmp/project", Some(text.as_str())).unwrap();
    match f2.section("billing").unwrap().unwrap() {
        SlugSection::Flat(v) => assert_eq!(v.len(), 1),
        _ => panic!(),
    }
}

#[test]
fn round_trip_per_api_type_section() {
    let mut f = ScenariosFile::load("/tmp/project", None).unwrap();
    f.put_entries(
        "payment",
        Some("web-api"),
        &vec![ScenarioEntry {
            endpoint: "POST /w".into(),
            id: "a".into(),
            description: "ok".into(),
        }],
    )
    .unwrap();
    f.put_entries(
        "payment",
        Some("microservice-api"),
        &vec![ScenarioEntry {
            endpoint: "POST /m".into(),
            id: "b".into(),
            description: "ok".into(),
        }],
    )
    .unwrap();
    let text = f.save().unwrap();
    let f2 = ScenariosFile::load("/tmp/project", Some(text.as_str())).unwrap();
    match f2.section("payment").unwrap().unwrap() {
        SlugSection::PerApiType(buckets) => assert_eq!(buckets.len(), 2),
        _ => panic!(),
    }
}

#[test]
fn saved_text_is_yaml() {
    let mut f = ScenariosFile::load("/p", None).unwrap();
    f.put_entries("billing", None, &vec![entry("GET /a", "happy-path")]).unwrap();
    assert_eq!(
        f.save().unwrap(),
        "domains:\n  billing:\n  - endpoint: GET /a\n    id: happy-path\n    description: ok\n"
    );
}

#[test]
fn a_blank_line_stands_between_entries() {
    let mut f = ScenariosFile::load("/p", None).unwrap();
    f.put_entries("billing", None, &vec![entry("GET /a", "x"), entry("GET /b:", "y"), entry("GET /c", "z")]).unwrap();
    f.put_entries("payment", Some("web-api"), &vec![entry("GET /d", "x"), entry("GET /e", "y")]).unwrap();
    f.put_entries("payment", Some("open-api"), &vec![entry("GET /f", "x")]).unwrap();
    let saved = f.save().unwrap();
    assert_eq!(
        saved,
        "domains:\n  billing:\n  - endpoint: GET /a\n    id: x\n    description: ok\n\n  - endpoint: 'GET /b:'\n    id: y\n    description: ok\n\n  - endpoint: GET /c\n    id: z\n    description: ok\n  payment:\n    web-api:\n    - endpoint: GET /d\n      id: x\n      description: ok\n\n    - endpoint: GET /e\n      id: y\n      description: ok\n    open-api:\n    - endpoint: GET /f\n      id: x\n      description: ok\n"
    );
    let back = ScenariosFile::load("/p", Some(&saved)).unwrap();
    assert_eq!(back.save().unwrap(), saved);
    assert_eq!(back.section("billing").unwrap(), f.section("billing").unwrap());
    assert_eq!(back.section("payment").unwrap(), f.section("payment").unwrap());
}

#[test]
fn lists_inside_entries_and_other_members_are_not_spaced() {
    let text = "notes:\n- a\n- b\ndomains:\n  a:\n  - {endpoint: GET /a, id: x, description: d, tags: [p, q]}\n  - {endpoint: GET /a, id: y, description: d}\nafter:\n  more:\n  - a\n  - b\n";
    let saved = ScenariosFile::load("/p", Some(text)).unwrap().save().unwrap();
    assert_eq!(
        saved,
        "notes:\n- a\n- b\ndomains:\n  a:\n  - endpoint: GET /a\n    id: x\n    description: d\n    tags:\n    - p\n    - q\n\n  - endpoint: GET /a\n    id: y\n    description: d\nafter:\n  more:\n  - a\n  - b\n"
    );
}

#[test]
fn texts_of_several_lines_among_entries() {
    let several = |text: &str| {
        let mut f = ScenariosFile::load("/p", None).unwrap();
        let e = ScenarioEntry { endpoint: "GET /a".into(), id: "x".into(), description: text.into() };
        f.put_entries("a", None, &vec![e, entry("GET /b", "y")]).unwrap();
        let saved = f.save().unwrap();
        let back = ScenariosFile::load("/p", Some(&saved)).unwrap();
        assert_eq!(back.section("a").unwrap(), f.section("a").unwrap());
        saved
    };
    let after = "  - endpoint: GET /b\n    id: y\n    description: ok\n";
    let before = "domains:\n  a:\n  - endpoint: GET /a\n    id: x\n    description: ";
    assert_eq!(several("two\nlines"), format!("{}|-\n      two\n      lines\n\n{}", before, after));
    assert_eq!(several("two\n\nlines\n"), format!("{}|\n      two\n\n      lines\n\n{}", before, after));
    assert_eq!(several("keeps\n\n"), format!("{}|+\n      keeps\n\n{}", before, after));
    assert_eq!(several("a list:\n- one"), format!("{}|-\n      a list:\n      - one\n{}", before, after));
    assert_eq!(several("- one"), format!("{}'- one'\n\n{}", before, after));
}

#[test]
fn unusual_values_are_read_back() {
    let long = "k".repeat(300);
    let odd = [
        "two\nlines",
        "ends\n",
        "ends twice\n\n",
        "\n",
        " leads\n  by spaces ",
        "tab\tand\rreturn\u{0}",
        "a\u{2028}b\u{2029}",
        "a\n\u{2028} b\u{2029}\n",
        "\u{e000}\u{fffd}\u{1f600}\u{feff}\u{85}\u{a0}",
        "# no comment",
        "- item",
        "12",
        "null",
        "",
    ];
    let entries: Vec<ScenarioEntry> = odd
        .iter()
        .map(|s| ScenarioEntry { endpoint: "GET /a".into(), id: s.to_string(), description: s.to_string() })
        .collect();
    let text = "count: 3\nratio: -0.5\nbig: 18446744073709551615\nodd: [.nan, -.inf, 1e300]\nkeys: {null: 1, true: 2, false: 3, 4.5: 6}\n";
    let mut f = ScenariosFile::load("/p", Some(text)).unwrap();
    f.put_entries(&long, None, &entries).unwrap();
    f.put_entries("\u{e9}t\u{e9}\nb", Some("\u{1f600}"), &entries).unwrap();
    let saved = f.save().unwrap();
    let back = ScenariosFile::load("/p", Some(&saved)).unwrap();
    assert_eq!(back.slugs(), f.slugs());
    for slug in f.slugs() {
        assert_eq!(back.section(&slug).unwrap(), f.section(&slug).unwrap());
    }
    assert_eq!(back.save().unwrap(), saved);
    for line in ["count: 3\n", "ratio: -0.5\n", "big: 18446744073709551615\n", "- .nan\n- -.inf\n- 1e300\n", "  4.5: 6\n"] {
        assert!(saved.contains(line));
    }
}

#[test]
fn other_domains_and_members_stay() {
    let text = "version: 2\ndomains:\n  a:\n  - {endpoint: GET /a, id: x, description: d, owner: me}\n  b: null\n";
    let mut f = ScenariosFile::load("/p", Some(text)).unwrap();
    assert_eq!(f.slugs(), vec!["a", "b"]);
    f.put_entries("b", None, &vec![entry("GET /b", "y")]).unwrap();
    let saved = f.save().unwrap();
    assert!(saved.starts_with("version: 2\n"));
    assert!(saved.contains("owner: me"));
    match f.section("a").unwrap().unwrap() {
        SlugSection::Flat(v) => assert_eq!(v[0].id, "x"),
        _ => panic!(),
    }
}

#[test]
fn appended_entries_follow_those_that_are_there() {
    let text = "domains:\n  a:\n  - {endpoint: GET /a, id: x, description: d, owner: me}\n";
    let mut f = ScenariosFile::load("/p", Some(text)).unwrap();
    f.append_entries("a", None, &vec![entry("GET /b", "y")]).unwrap();
    assert!(f.save().unwrap().contains("owner: me"));
    match f.section("a").unwrap().unwrap() {
        SlugSection::Flat(v) => {
            assert_eq!(v.len(), 2);
            assert_eq!(v[1], entry("GET /b", "y"));
        }
        _ => panic!(),
    }
}

#[test]
fn empty_and_null_files_have_no_domains() {
    for text in ["", "  \n", "null\n", "domains: 3\n"] {
        let f = ScenariosFile::load("/p", Some(text)).unwrap();
        assert!(f.slugs().is_empty());
        assert!(f.section("a").unwrap().is_none());
    }
    let f = ScenariosFile::load("/p", Some("domains: {a: null}\n")).unwrap();
    match f.section("a").unwrap().unwrap() {
        SlugSection::Flat(v) => assert!(v.is_empty()),
        _ => panic!(),
    }
}

#[test]
fn malformed_files_are_refused() {
    assert_eq!(
        ScenariosFile::load("/p", Some("- 1\n")).err().unwrap(),
        "/p/docs/test-scenarios.yaml: expected a YAML mapping at the top level"
    );
    assert!(ScenariosFile::load("/p", Some("a: [\n"))
        .err()
        .unwrap()
        .starts_with("parsing /p/docs/test-scenarios.yaml as YAML: "));
}

#[test]
fn malformed_sections_are_refused() {
    let section = |text: &str| ScenariosFile::load("/p", Some(text)).unwrap().section("a");
    assert_eq!(
        section("domains: {a: 3}\n").err().unwrap(),
        "docs/test-scenarios.yaml: domains.a must be either a list (single api-type) or mapping"
    );
    assert_eq!(
        section("domains: {a: {3: []}}\n").err().unwrap(),
        "docs/test-scenarios.yaml: domains.a has a non-string api-type key"
    );
    assert_eq!(
        section("domains: {a: {web-api: 3}}\n").err().unwrap(),
        "docs/test-scenarios.yaml: domains.a.web-api must be a list of scenario entries"
    );
    let e = section("domains: {a: [{endpoint: GET /a, id: x, description: d}, {endpoint: GET /a}]}\n").err().unwrap();
    assert!(e.starts_with("docs/test-scenarios.yaml: malformed entry at domains.a[1]: "), "{}", e);
    let e = section("domains: {a: {web-api: [7]}}\n").err().unwrap();
    assert!(e.starts_with("docs/test-scenarios.yaml: malformed entry at domains.a.web-api[0]: "), "{}", e);
}

#[test]
fn a_flat_list_is_not_split() {
    let mut f = ScenariosFile::load("/p", Some("domains: {a: [{endpoint: e, id: i, description: d}], b: [], c: 3}\n"))
        .unwrap();
    assert_eq!(
        f.put_entries("a", Some("web-api"), &vec![]).err().unwrap(),
        "domains.a is currently a flat list with entries; cannot append api-type-keyed entries without an explicit layout migration"
    );
    assert!(f.put_entries("b", Some("web-api"), &vec![entry("GET /b", "y")]).is_ok());
    assert_eq!(
        f.put_entries("c", Some("web-api"), &vec![]).err().unwrap(),
        "domains.c is malformed; cannot update"
    );
}

#[test]
fn entries_come_with_their_types() {
    let flat = SlugSection::Flat(vec![entry("GET /a", "x")]);
    let v = flat.iter_with_type();
    assert_eq!(v.len(), 1);
    assert!(v[0].0.is_none());
    let typed = SlugSection::PerApiType(vec![
        ("web-api".to_string(), vec![entry("GET /a", "x"), entry("GET /b", "y")]),
        ("open-api".to_string(), vec![entry("GET /c", "z")]),
    ]);
    let v = typed.iter_with_type();
    assert_eq!(v.len(), 3);
    assert_eq!(v[1].0, Some("web-api"));
    assert_eq!(v[1].1.id, "y");
    assert_eq!(v[2].0, Some("open-api"));
}

#[test]
fn deep_values_are_read_back() {
    let nested = |n: usize| format!("deep: {}{}\n", "[".repeat(n), "]".repeat(n));
    let f = ScenariosFile::load("/p", Some(&nested(127))).unwrap();
    let saved = f.save().unwrap();
    let back = ScenariosFile::load("/p", Some(&saved)).unwrap();
    assert_eq!(back.save().unwrap(), saved);
    assert!(ScenariosFile::load("/p", Some(&nested(128))).is_err());
}
