use kit::envelope::{failed_value, ok_value, print_err, print_err_coded, print_err_with, print_ok};
use kit::json::{get, get_text, object, push_member, put_member, text, Json};

#[test]
fn ok_marker_overrides_caller_supplied_ok() {
    let mut map = Vec::new();
    push_member(&mut map, "ok", Json::Bool(false));
    push_member(&mut map, "service", text("billing"));

    let out = ok_value(object(map));
    assert!(matches!(get(&out, "ok"), Some(Json::Bool(true))));
    assert_eq!(get_text(&out, "service").map(|s| s.as_str()), Some("billing"));
}

#[test]
fn the_mark_comes_first() {
    let mut m = Vec::new();
    push_member(&mut m, "b", Json::Count(7));
    push_member(&mut m, "ok", Json::Null);
    push_member(&mut m, "a", Json::Null);
    assert_eq!(print_ok(object(m)), "{\n  \"ok\": true,\n  \"b\": 7,\n  \"a\": null\n}");
}

#[test]
fn errors_are_told() {
    assert_eq!(
        print_err("no \"luck\"", None),
        "{\n  \"ok\": false,\n  \"error\": {\n    \"message\": \"no \\\"luck\\\"\"\n  }\n}"
    );
    let v: serde_json::Value = serde_json::from_str(&print_err_coded("E1", "m", Some("h"))).unwrap();
    assert_eq!(v["error"]["code"], "E1");
    assert_eq!(v["error"]["message"], "m");
    assert_eq!(v["error"]["hint"], "h");
    assert_eq!(v["ok"], false);
}

#[test]
fn members_are_put_in_place() {
    let mut m = Vec::new();
    push_member(&mut m, "a", text("1"));
    push_member(&mut m, "b", text("2"));
    put_member(&mut m, "a", text("3"));
    put_member(&mut m, "c", text("4"));
    let names: Vec<&str> = m.iter().map(|p| p.0.as_str()).collect();
    assert_eq!(names, vec!["a", "b", "c"]);
    let j = object(m);
    assert_eq!(get_text(&j, "a").map(|s| s.as_str()), Some("3"));
    assert_eq!(get_text(&j, "b").map(|s| s.as_str()), Some("2"));
    assert!(get(&j, "d").is_none());
}

#[test]
fn a_failure_on_the_way_keeps_its_mark_and_error() {
    let details = || {
        let mut m = Vec::new();
        push_member(&mut m, "error", text("other"));
        push_member(&mut m, "service", text("billing"));
        push_member(&mut m, "ok", Json::Bool(true));
        object(m)
    };
    let told = failed_value("went wrong", details());
    assert!(matches!(get(&told, "ok"), Some(Json::Bool(false))));
    assert_eq!(get_text(get(&told, "error").unwrap(), "message").unwrap(), "went wrong");
    assert_eq!(get_text(&told, "service").unwrap(), "billing");
    assert_eq!(
        print_err_with("went wrong", details()),
        "{\n  \"ok\": false,\n  \"error\": {\n    \"message\": \"went wrong\"\n  },\n  \"service\": \"billing\"\n}"
    );
}
