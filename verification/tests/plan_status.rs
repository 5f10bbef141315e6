use kit::plan_status::{
    compute, extract_title, is_impl_subject, latest_run_dir, no_plan, parse_plan_tasks, plan_status, recorded_hash,
    resolve_run_dir, status_report, Computed, GitFacts, ParsedPlan, PlanStatus, Recommendation,
};
use serde_json::Value;

const RUN: &str = "/p/.jkit/2026-04-25-foo";

fn list(v: &[&str]) -> Vec<String> {
    v.iter().map(|s| s.to_string()).collect()
}

fn facts(subjects: &[&str]) -> GitFacts {
    let subjects: Vec<(String, String)> =
        subjects.iter().enumerate().map(|(i, s)| (format!("sha{i}"), s.to_string())).collect();
    GitFacts { head: Some("head".to_string()), baseline: Some("base".to_string()), subjects }
}

fn report(s: &PlanStatus) -> Value {
    serde_json::from_str(&kit::envelope::print_ok(status_report(s))).unwrap()
}

fn look(plan: &str, subjects: &[&str], snapshot: Option<&str>) -> Computed {
    compute("/p", RUN, Some(plan), &facts(subjects), None, snapshot)
}

#[test]
fn parse_empty() {
    let p = parse_plan_tasks("# title\n");
    assert!(!p.has_tasks_heading);
}

#[test]
fn parse_bold_titles() {
    let md = "## Tasks\n\n1. **Add filter** — wire it\n2. **Persist rows** — repo + JPA\n";
    let p = parse_plan_tasks(md);
    assert!(p.has_tasks_heading);
    assert_eq!(p.tasks, vec!["Add filter", "Persist rows"]);
}

#[test]
fn parse_no_bold_uses_separator() {
    let md = "## Tasks\n\n1. add filter — wire it\n2. persist rows: repo\n";
    let p = parse_plan_tasks(md);
    assert_eq!(p.tasks, vec!["add filter", "persist rows"]);
}

#[test]
fn parse_full_text_when_no_separator() {
    let md = "## Tasks\n\n1. just a sentence\n";
    let p = parse_plan_tasks(md);
    assert_eq!(p.tasks, vec!["just a sentence"]);
}

#[test]
fn parse_empty_tasks_section() {
    let md = "## Tasks\n\n## Other\n";
    let p = parse_plan_tasks(md);
    assert!(p.has_tasks_heading);
    assert!(p.tasks.is_empty());
}

#[test]
fn impl_subject_match() {
    assert!(is_impl_subject("feat(impl): add foo"));
    assert!(is_impl_subject("fix(impl): bar"));
    assert!(is_impl_subject("chore(impl): ci tweak"));
    assert!(!is_impl_subject("feat: add foo"));
    assert!(!is_impl_subject("docs(impl): readme"));
}

#[test]
fn no_jkit_dir_returns_no_plan() {
    assert!(resolve_run_dir("/p", None, false, &vec![]).unwrap().is_none());
    let v = report(&no_plan(None, None));
    assert_eq!(v["ok"], true);
    assert_eq!(v["recommendation"], "no_plan");
    assert!(v["tasks"].as_array().unwrap().is_empty());
    assert!(v["run_dir"].is_null());
}

#[test]
fn plan_with_no_tasks_heading_returns_no_plan() {
    let c = look("# header\n\nno tasks heading\n", &[], None);
    let v = report(&c.status);
    assert_eq!(v["ok"], true);
    assert_eq!(v["recommendation"], "no_plan");
    assert_eq!(v["plan_path"], ".jkit/2026-04-25-foo/plan.md");
}

#[test]
fn plan_with_tasks_no_impl_commits_marks_all_pending() {
    let c = look("## Tasks\n\n1. **First task** — do something\n2. **Second task** — and another\n", &[], None);
    let v = report(&c.status);
    assert_eq!(v["ok"], true);
    assert_eq!(v["recommendation"], "implement_from_plan");
    assert_eq!(v["tasks"].as_array().unwrap().len(), 2);
    assert_eq!(v["tasks"][0]["title"], "First task");
    assert_eq!(v["tasks"][0]["completed"], false);
    assert_eq!(v["tasks"][1]["completed"], false);
    assert_eq!(v["next_pending_task_index"], 0);
}

#[test]
fn impl_commits_advance_completed_state() {
    let c = look(
        "## Tasks\n\n1. **Add filter** — wire it\n2. **Persist rows** — repo + JPA\n3. **Expose metrics** — micrometer\n",
        &["feat(impl): wire ValidationFilter", "feat(impl): repo + JPA mapping"],
        None,
    );
    let v = report(&c.status);
    assert_eq!(v["ok"], true);
    assert_eq!(v["recommendation"], "implement_from_plan");
    assert_eq!(v["tasks"][0]["completed"], true);
    assert_eq!(v["tasks"][0]["commit_sha"], "sha0");
    assert_eq!(v["tasks"][1]["completed"], true);
    assert_eq!(v["tasks"][2]["completed"], false);
    assert_eq!(v["next_pending_task_index"], 2);
}

#[test]
fn already_synced_when_all_tasks_have_impl_commits() {
    let c = look(
        "## Tasks\n\n1. **Add filter** — wire it\n2. **Persist rows** — repo + JPA\n",
        &["feat(impl): wire ValidationFilter", "feat(impl): repo + JPA mapping"],
        None,
    );
    let v = report(&c.status);
    assert_eq!(v["ok"], true);
    assert_eq!(v["recommendation"], "already_synced");
    assert_eq!(v["tasks"][0]["completed"], true);
    assert_eq!(v["tasks"][1]["completed"], true);
    assert!(v["next_pending_task_index"].is_null());
    assert!(v.get("spec_sync_behind_head").is_none());
}

#[test]
fn snapshot_taken_at_first_impl_commit_no_drift() {
    let c = look("## Tasks\n\n1. **A** — x\n2. **B** — y\n", &["feat(impl): A"], None);
    let v = report(&c.status);
    assert_eq!(v["ok"], true);
    assert_eq!(v["plan_edited_mid_flight"], false);
    assert!(v["plan_snapshot_sha256"].as_str().is_some());
    assert_eq!(v["recommendation"], "implement_from_plan");
    let snapshot = c.snapshot.unwrap();
    assert_eq!(recorded_hash(Some(snapshot.as_str())).as_deref(), v["plan_snapshot_sha256"].as_str());
}

#[test]
fn snapshot_detects_plan_edited_mid_flight() {
    let first = look("## Tasks\n\n1. **A** — x\n2. **B** — y\n3. **C** — z\n", &["feat(impl): A"], None);
    let snapshot = first.snapshot.unwrap();
    let c = look("## Tasks\n\n1. **A** — x\n2. **C** — z\n", &["feat(impl): A"], Some(snapshot.as_str()));
    assert!(c.snapshot.is_none());
    let v = report(&c.status);
    assert_eq!(v["ok"], true);
    assert_eq!(v["plan_edited_mid_flight"], true);
    assert_eq!(v["recommendation"], "plan_edited_mid_flight");
    assert!(v["next_pending_task_index"].is_null());
}

#[test]
fn snapshot_not_taken_before_first_impl_commit() {
    let c = look("## Tasks\n\n1. **A** — x\n", &[], None);
    let v = report(&c.status);
    assert_eq!(v["ok"], true);
    assert_eq!(v["plan_edited_mid_flight"], false);
    assert!(v["plan_snapshot_sha256"].is_null());
    assert!(c.snapshot.is_none());
}

#[test]
fn run_arg_invalid_exits_non_zero() {
    let message = resolve_run_dir("/p", Some(".jkit/nope"), false, &vec![]).err().unwrap();
    let v: Value = serde_json::from_str(&kit::envelope::print_err(&message, None)).unwrap();
    assert_eq!(v["ok"], false);
    assert!(v["error"]["message"].as_str().unwrap().contains("run dir not found"));
    assert_eq!(message, "run dir not found: .jkit/nope");
}

#[test]
fn the_latest_run_is_taken() {
    let names = list(&["2026-04-25-foo", "2026-05-01-bar", "adhoc-zzz", "2026-04-30"]);
    assert_eq!(latest_run_dir(&names).as_deref(), Some("2026-05-01-bar"));
    assert!(latest_run_dir(&list(&["adhoc-a"])).is_none());
    assert_eq!(resolve_run_dir("/p", None, false, &names).unwrap().as_deref(), Some("/p/.jkit/2026-05-01-bar"));
    assert_eq!(resolve_run_dir("/p", Some("x"), true, &names).unwrap().as_deref(), Some("/p/x"));
    assert_eq!(resolve_run_dir("/p", Some("/x"), true, &names).unwrap().as_deref(), Some("/x"));
}

#[test]
fn an_unchanged_plan_is_not_edited() {
    let plan = "## Tasks\n\n1. a\n2. b\n";
    let snapshot = look(plan, &["fix(impl): a"], None).snapshot.unwrap();
    let c = look(plan, &["fix(impl): a"], Some(snapshot.as_str()));
    assert!(c.snapshot.is_none());
    assert!(!c.status.plan_edited_mid_flight);
}

#[test]
fn the_hash_of_a_plan() {
    let c = look("## Tasks\n\n1. a\n", &["fix(impl): a"], None);
    let sha = c.status.plan_snapshot_sha256.unwrap();
    assert_eq!(sha.len(), 64);
    assert_eq!(sha, sha.to_lowercase());
    let other = look("## Tasks\n\n1. b\n", &["fix(impl): a"], None);
    assert_ne!(other.status.plan_snapshot_sha256.unwrap(), sha);
    assert!(recorded_hash(Some("{}")).is_none());
    assert!(recorded_hash(Some("nope")).is_none());
}

#[test]
fn more_commits_than_tasks_are_noted() {
    let c = look("## Tasks\n\n1. a\n", &["fix(impl): a", "docs: x", "fix(impl): b"], None);
    assert_eq!(c.note.unwrap(), "plan-status: 2 impl commits exceed 1 plan tasks; tail commits ignored");
    assert!(look("## Tasks\n", &["fix(impl): a"], None).note.is_none());
}

#[test]
fn a_marker_at_the_head_means_synced() {
    let plan = "## Tasks\n\n1. a\n2. b\n";
    let at = |marker: &str| compute("/p", RUN, Some(plan), &facts(&[]), Some(marker), None).status.recommendation;
    assert!(matches!(at("head\n"), Recommendation::AlreadySynced));
    assert!(matches!(at("other"), Recommendation::ImplementFromPlan));
    assert!(matches!(at(" "), Recommendation::ImplementFromPlan));
}

#[test]
fn a_run_without_a_plan() {
    let c = compute("/p", RUN, None, &facts(&[]), None, None);
    let v = report(&c.status);
    assert_eq!(v["run_dir"], ".jkit/2026-04-25-foo");
    assert!(v["plan_path"].is_null());
    assert_eq!(v["recommendation"], "no_plan");
}

#[test]
fn tasks_without_titles_are_no_plan() {
    let plan = ParsedPlan { has_tasks_heading: true, tasks: vec![] };
    let r = plan_status("r", "r/plan.md", &plan, "s", &facts(&["fix(impl): a"]), None, None);
    assert!(matches!(r.status.recommendation, Recommendation::NoPlan));
    assert!(r.status.tasks.is_empty());
    assert!(!r.record);
}

#[test]
fn titles_of_items() {
    assert_eq!(extract_title("x", Some(" Bold ")), "Bold");
    assert_eq!(extract_title(" a -- b: c ", Some("  ")), "a");
    assert_eq!(extract_title("a: b — c", None), "a");
    assert_eq!(extract_title("a — b: c", None), "a");
    assert_eq!(extract_title("persist rows: repo — JPA", None), "persist rows");
    assert_eq!(extract_title(": rest", None), ": rest");
}

#[test]
fn nested_lists_and_breaks() {
    let md = "# T\n\n## tasks\n\ntext\n\n- one\n  two\n  - inner **bold**\n- `code` **b** x\n\n## Next\n\n- no\n";
    let p = parse_plan_tasks(md);
    assert_eq!(p.tasks, vec!["one two", "b"]);
}

#[test]
fn impl_subjects_start_at_the_first_character() {
    assert!(!is_impl_subject(" feat(impl): x"));
    assert!(!is_impl_subject("Feat(impl): x"));
    assert!(!is_impl_subject("feat(impl) x"));
    assert!(is_impl_subject("feat(impl):"));
}
