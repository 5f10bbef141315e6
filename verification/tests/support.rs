use kit::git::{
    added_args, commit_subjects, first_commit_for_path, git_stdout, head_args, recent_args, recent_subjects,
    rev_parse_head, subjects_args, Output,
};
use kit::lockfile::{lock_path, temp_path};
use kit::ordered::{path_before, sort_paths, text_before};
use kit::path::{contains_component, display_path, ends_in, join_path};
use kit::text::{
    decimal, eq_ignore_ascii_case, find, join, lines, split_once, strip_prefix, strip_suffix, trim,
};

fn list(v: &[&str]) -> Vec<String> {
    v.iter().map(|s| s.to_string()).collect()
}

fn out(success: bool, stdout: &[u8], stderr: &[u8]) -> Output {
    Output { success, stdout: stdout.to_vec(), stderr: stderr.to_vec() }
}

#[test]
fn what_git_prints() {
    assert_eq!(git_stdout(&out(true, b"a\xffb\n", b"")).unwrap(), "a\u{fffd}b\n");
    assert_eq!(git_stdout(&out(false, b"x", b" bad \n")).err().unwrap(), "git failed: bad");
    assert_eq!(rev_parse_head(&out(true, b"abc\n", b"")).unwrap(), "abc");
    assert!(rev_parse_head(&out(false, b"", b"")).is_err());
}

#[test]
fn the_first_commit_of_a_path_is_the_last_line() {
    assert_eq!(first_commit_for_path(&out(true, b"new\n old \n", b"")).unwrap().as_deref(), Some("old"));
    assert!(first_commit_for_path(&out(true, b"", b"")).unwrap().is_none());
    assert!(first_commit_for_path(&out(true, b"a\n \n", b"")).unwrap().is_none());
    assert!(first_commit_for_path(&out(false, b"", b"e")).is_err());
}

#[test]
fn subjects_follow_a_tab() {
    let v = commit_subjects(&out(true, b"1\tfeat: a\tb\r\nbroken\n2\t\n", b"")).unwrap();
    assert_eq!(v, vec![("1".to_string(), "feat: a\tb".to_string()), ("2".to_string(), "".to_string())]);
    assert_eq!(recent_subjects(&out(true, b"a\nb\n", b"")).unwrap(), list(&["a", "b"]));
}

#[test]
fn git_arguments() {
    assert_eq!(head_args(), list(&["rev-parse", "HEAD"]));
    assert_eq!(added_args("p"), list(&["log", "--diff-filter=A", "--format=%H", "--", "p"]));
    assert_eq!(subjects_args(Some("a"), "b"), list(&["log", "--reverse", "--format=%H%x09%s", "a..b"]));
    assert_eq!(subjects_args(None, "b"), list(&["log", "--reverse", "--format=%H%x09%s", "b"]));
    assert_eq!(recent_args(2), list(&["log", "-2", "--format=%s"]));
}

#[test]
fn lock_and_temporary_files() {
    assert_eq!(lock_path("/p/.jkit", "marketplace-catalog"), "/p/.jkit/marketplace-catalog.lock");
    assert_eq!(temp_path("/p/.jkit/contract.json", 42), "/p/.jkit/.contract.json.tmp.42");
}

#[test]
fn paths_below_a_base() {
    assert_eq!(join_path("/a", "b/c"), "/a/b/c");
    assert_eq!(join_path("/a/", "b"), "/a/b");
    assert_eq!(join_path("/a", "/b"), "/b");
    assert_eq!(display_path("/a/b", "/a/b/c/d"), "c/d");
    assert_eq!(display_path("/a/b", "/a/bc"), "/a/bc");
    assert!(contains_component("a/.git/b", ".git"));
    assert!(!contains_component("a/.github/b", ".git"));
    assert!(ends_in("a/b.json", "b.json"));
    assert!(!ends_in("a/xb.json", "b.json"));
}

#[test]
fn orders_of_texts_and_paths() {
    assert!(text_before("a", "ab"));
    assert!(!text_before("b", "ab"));
    assert!(!text_before("a", "a"));
    assert!(path_before("a/b", "a.txt"));
    assert!(text_before("a.txt", "a/b"));
    assert_eq!(sort_paths(list(&["b", "a/b", "a.txt", "a"])), list(&["a", "a/b", "a.txt", "b"]));
}

#[test]
fn texts_are_cut() {
    assert_eq!(trim(" \u{a0}a b\t\n"), "a b");
    assert_eq!(lines("a\r\nb\n\nc"), list(&["a", "b", "", "c"]));
    assert!(lines("").is_empty());
    assert_eq!(split_once("a: b: c", ": "), Some(("a".to_string(), "b: c".to_string())));
    assert!(split_once("a", ":").is_none());
    assert_eq!(strip_prefix("git+x", "git+").as_deref(), Some("x"));
    assert!(strip_suffix("x.gi", ".git").is_none());
    assert_eq!(find("abcb", "b"), Some(1));
    assert!(find("abc", "d").is_none());
    assert_eq!(join(&list(&["a", "b"]), ", "), "a, b");
    assert!(eq_ignore_ascii_case("TaSks", "tasks"));
    assert!(!eq_ignore_ascii_case("É", "é"));
    assert_eq!(decimal(0), "0");
    assert_eq!(decimal(18_446_744_073_709_551_615), "18446744073709551615");
}
