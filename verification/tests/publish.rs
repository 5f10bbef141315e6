use kit::envelope::{print_err_with, print_ok};
use kit::git::Output;
use kit::publish::{
    config_files, first_step, market_args, market_next, publication, publish_files, publish_next, publish_report,
    push_args, push_next, push_start, stage_args, stage_next, stage_start, update_error, Ended, MarketNext, MarketStep,
    Publication, PushNext, PushStep, StageNext, StageStep, Step, StepEvent,
};
use serde_json::Value;

fn list(v: &[&str]) -> Vec<String> {
    v.iter().map(|s| s.to_string()).collect()
}

fn out(success: bool, stdout: &str, stderr: &str) -> Option<Output> {
    Some(Output { success, stdout: stdout.as_bytes().to_vec(), stderr: stderr.as_bytes().to_vec() })
}

/// Walks the steps of a push with these answers, by default success without
/// output, and gives the steps that were taken.
fn push(answers: &[(PushStep, Option<Output>)]) -> (Vec<PushStep>, Result<String, String>) {
    let mut steps = Vec::new();
    let mut step = push_start(false);
    loop {
        steps.push(step);
        let answer = match answers.iter().find(|(s, _)| *s == step) {
            Some((_, Some(o))) => out(
                o.success,
                std::str::from_utf8(&o.stdout).unwrap(),
                std::str::from_utf8(&o.stderr).unwrap(),
            ),
            Some((_, None)) => None,
            None => out(true, "", ""),
        };
        match push_next(step, &push_args(step, "r", "billing", &vec![]), "/s", &answer) {
            PushNext::Do(s) => step = s,
            PushNext::Pushed(sha) => return (steps, Ok(sha)),
            PushNext::Failed(e) => return (steps, Err(e)),
        }
    }
}

fn finished(p: &Publication) -> Value {
    serde_json::from_str(&print_ok(publish_report(p).ok().unwrap())).unwrap()
}

#[test]
fn first_push_goes_through_every_step() {
    let (steps, end) = push(&[
        (PushStep::Probe, out(false, "", "")),
        (PushStep::Status, out(true, "A x\n", "")),
        (PushStep::RemoveOrigin, out(false, "", "no such remote")),
        (PushStep::Revision, out(true, "abc\n", "")),
    ]);
    assert_eq!(
        steps,
        vec![
            PushStep::Init,
            PushStep::Add,
            PushStep::Probe,
            PushStep::Status,
            PushStep::Commit,
            PushStep::RemoveOrigin,
            PushStep::AddOrigin,
            PushStep::Push,
            PushStep::Revision,
        ]
    );
    assert_eq!(end.unwrap(), "abc");
}

#[test]
fn a_remote_with_something_else_is_refused() {
    let (_, end) = push(&[(PushStep::Known, out(false, "", ""))]);
    assert_eq!(end.err().unwrap(), "contract repo must be empty for first push — auto-generated README will collide");
}

#[test]
fn a_remote_that_is_known_is_pushed_to_again() {
    let (steps, end) = push(&[(PushStep::Revision, out(true, "abc", ""))]);
    assert!(steps.contains(&PushStep::Known));
    assert!(!steps.contains(&PushStep::Commit));
    assert_eq!(end.unwrap(), "abc");
}

#[test]
fn failures_of_a_push_are_told() {
    let (_, end) = push(&[(PushStep::Init, out(false, "", "boom\n"))]);
    assert_eq!(end.err().unwrap(), "git [\"init\", \"-q\", \"-b\", \"main\"] failed in /s: boom");
    let (_, end) = push(&[(PushStep::Status, out(false, "", "boom\n"))]);
    assert_eq!(end.err().unwrap(), "git [\"status\", \"--porcelain\"] failed: boom");
    let (_, end) = push(&[(PushStep::Probe, None)]);
    assert_eq!(end.err().unwrap(), "git ls-remote failed");
    let (_, end) = push(&[(PushStep::Push, None)]);
    assert_eq!(end.err().unwrap(), "git invocation failed");
    assert_eq!(push_start(true), PushStep::Add);
}

#[test]
fn push_arguments() {
    assert_eq!(
        push_args(PushStep::Commit, "r", "billing", &vec![]),
        list(&[
            "-c",
            "user.email=kit@local",
            "-c",
            "user.name=kit",
            "commit",
            "-q",
            "-m",
            "contract(billing): initial publish"
        ])
    );
    assert_eq!(
        push_args(PushStep::Known, "r", "billing", &b"abc\trefs/heads/main\n".to_vec()),
        list(&["cat-file", "-e", "abc^{commit}"])
    );
    assert_eq!(push_args(PushStep::Probe, "r", "b", &vec![]), list(&["ls-remote", "--exit-code", "--heads", "r"]));
    assert_eq!(push_args(PushStep::Push, "r", "b", &vec![]), list(&["push", "-u", "origin", "HEAD:main"]));
    assert_eq!(push_args(PushStep::AddOrigin, "r", "b", &vec![]), list(&["remote", "add", "origin", "r"]));
}

#[test]
fn the_marketplace_is_pushed() {
    let mut steps = Vec::new();
    let mut step = MarketStep::Clone;
    let sha = loop {
        steps.push(step);
        let stdout = match step {
            MarketStep::Status => " M marketplace.json\n",
            MarketStep::Revision => "def\n",
            _ => "",
        };
        match market_next(step, "r", &market_args(step, "r", "/t", "billing"), "/t", &out(true, stdout, "")) {
            MarketNext::Do(s) => step = s,
            MarketNext::Pushed(sha) => break sha,
            MarketNext::Failed(e) => panic!("{}", e),
        }
    };
    assert_eq!(sha, "def");
    assert_eq!(
        steps,
        vec![
            MarketStep::Clone,
            MarketStep::Edit,
            MarketStep::Add,
            MarketStep::Status,
            MarketStep::Commit,
            MarketStep::Push,
            MarketStep::Revision,
        ]
    );
    assert!(matches!(
        market_next(MarketStep::Status, "r", &vec![], "/t", &out(true, "\n", "")),
        MarketNext::Do(MarketStep::Push)
    ));
    assert!(matches!(
        market_next(MarketStep::Clone, "r", &vec![], "/t", &None),
        MarketNext::Failed(e) if e == "marketplace repo missing or unreachable: r — create it, or check access, and re-run"
    ));
    assert_eq!(market_args(MarketStep::Clone, "r", "/t", "b"), list(&["clone", "--depth", "1", "r", "/t"]));
    assert_eq!(
        market_args(MarketStep::Commit, "r", "/t", "billing").last().unwrap(),
        "chore(marketplace): publish billing-contract"
    );
}

#[test]
fn updates_by_the_tool_that_fail() {
    assert!(update_error("assistant", "@acme/assistant", "m", true, &Some(Ended { success: true, code: Some(0), stderr: vec![] })).is_none());
    assert_eq!(
        update_error("assistant", "@acme/assistant", "m", false, &None).unwrap(),
        "`assistant` CLI not on PATH — install with `npm install -g @acme/assistant`"
    );
    assert_eq!(update_error("assistant", "@acme/assistant", "m", true, &None).unwrap(), "failed to invoke `assistant plugin marketplace update`");
    assert_eq!(
        update_error("assistant", "@acme/assistant", "m", true, &Some(Ended { success: false, code: Some(1), stderr: vec![] })).unwrap(),
        "`assistant plugin marketplace update m` exited 1: (no stderr)"
    );
    assert_eq!(
        update_error("assistant", "@acme/assistant", "m", true, &Some(Ended { success: false, code: None, stderr: b"x\n".to_vec() })).unwrap(),
        "`assistant plugin marketplace update m` exited killed: x"
    );
}

#[test]
fn staging_goes_step_by_step() {
    assert!(matches!(stage_start(&vec![]), StageNext::Done));
    assert!(matches!(stage_start(&list(&["a"])), StageNext::Do(StageStep::Add)));
    assert!(matches!(stage_next(StageStep::Add, "s", &out(true, "", "")), StageNext::Do(StageStep::Staged)));
    assert!(matches!(stage_next(StageStep::Staged, "s", &out(true, "", "")), StageNext::Done));
    assert!(matches!(stage_next(StageStep::Staged, "s", &out(true, "a\n", "")), StageNext::Do(StageStep::Commit)));
    assert!(matches!(stage_next(StageStep::Commit, "s", &out(true, "", "")), StageNext::Done));
    assert!(matches!(
        stage_next(StageStep::Commit, "s", &out(false, "", "hook")),
        StageNext::Failed(e) if e == "git commit failed for 's': hook"
    ));
    assert!(matches!(
        stage_next(StageStep::Add, "s", &out(false, "", "no")),
        StageNext::Failed(e) if e == "git add failed: no"
    ));
    assert!(matches!(
        stage_next(StageStep::Staged, "s", &out(false, "", "no")),
        StageNext::Failed(e) if e == "git failed: no"
    ));
    assert_eq!(stage_args(StageStep::Add, &list(&["a", "b"]), "s"), list(&["add", "--", "a", "b"]));
    assert_eq!(stage_args(StageStep::Staged, &vec![], "s"), list(&["diff", "--cached", "--name-only"]));
}

#[test]
fn files_of_the_commits() {
    assert_eq!(
        publish_files("/p", true, true),
        list(&["/p/.jkit/contract.json", "/p/.gitignore", "/p/.jkit/marketplace-catalog.json"])
    );
    assert_eq!(publish_files("/p", false, false), list(&["/p/.jkit/contract.json"]));
    assert_eq!(config_files("/p", &list(&["pom.xml", "/abs"])), list(&["/p/pom.xml", "/abs"]));
}

#[test]
fn a_publication_without_fault() {
    let mut p = publication("assistant", "billing", list(&["pom.xml"]), false);
    let mut steps = vec![first_step(true)];
    let events = vec![
        StepEvent::Pushed(Ok("c".to_string())),
        StepEvent::Pushed(Ok("m".to_string())),
        StepEvent::Done(Ok(())),
        StepEvent::Done(Ok(())),
        StepEvent::Subjects(list(&["x"])),
        StepEvent::Committed(Ok(Some("1".to_string()))),
        StepEvent::Committed(Ok(Some("2".to_string()))),
    ];
    for e in events {
        let next = publish_next(&mut p, *steps.last().unwrap(), e);
        steps.push(next);
    }
    assert_eq!(
        steps,
        vec![
            Step::PushContract,
            Step::UpdateMarketplace,
            Step::UpdatePlugins,
            Step::WriteCatalog,
            Step::RecentSubjects,
            Step::CommitConfig,
            Step::CommitContract,
            Step::Finish,
        ]
    );
    let v = finished(&p);
    assert_eq!(v["ok"], true);
    assert_eq!(v["confirmed"], true);
    assert_eq!(v["contract_sha"], "c");
    assert_eq!(v["marketplace_sha"], "m");
    assert_eq!(v["catalog_written"], ".jkit/marketplace-catalog.json");
    assert_eq!(v["commits"][0]["sha"], "1");
    assert_eq!(v["commits"][0]["subject"], "chore(contract): add maven configuration");
    assert_eq!(v["commits"][1]["subject"], "chore(contract): publish service contract for billing");
    assert!(v.get("already_committed").is_none());
}

#[test]
fn a_dry_run_does_nothing() {
    assert_eq!(first_step(false), Step::DryRun);
    let mut p = publication("assistant", "billing", vec![], false);
    assert_eq!(publish_next(&mut p, Step::DryRun, StepEvent::Done(Ok(()))), Step::Finish);
    assert!(p.contract_sha.is_none() && p.commits.is_empty() && !p.catalog_written);
}

#[test]
fn an_earlier_publication_is_recognised() {
    let mut p = publication("assistant", "billing", vec![], false);
    let subjects = list(&["chore(contract): publish service contract for billing", "chore(contract): add maven configuration"]);
    assert_eq!(publish_next(&mut p, Step::RecentSubjects, StepEvent::Subjects(subjects)), Step::Finish);
    assert_eq!(finished(&p)["already_committed"], true);
}

#[test]
fn no_commits_where_none_are_wanted() {
    let mut p = publication("assistant", "billing", vec![], true);
    assert_eq!(publish_next(&mut p, Step::WriteCatalog, StepEvent::Done(Ok(()))), Step::Finish);
    assert!(p.catalog_written);
}

#[test]
fn what_went_wrong_is_told() {
    let mut p = publication("assistant", "billing", vec![], false);
    assert_eq!(publish_next(&mut p, Step::PushContract, StepEvent::Pushed(Err("x".to_string()))), Step::Finish);
    assert_eq!(publish_report(&p).err().unwrap().message, "contract publish failed: contract push failed: x");

    let mut p = publication("assistant", "billing", vec![], false);
    publish_next(&mut p, Step::PushContract, StepEvent::Pushed(Ok("c".to_string())));
    publish_next(&mut p, Step::UpdateMarketplace, StepEvent::Pushed(Ok("m".to_string())));
    publish_next(&mut p, Step::UpdatePlugins, StepEvent::Done(Err("a".to_string())));
    let next = publish_next(&mut p, Step::WriteCatalog, StepEvent::Done(Err("b".to_string())));
    assert_eq!(next, Step::Finish);
    assert_eq!(
        publish_report(&p).err().unwrap().message,
        "contract publish failed after partial push: `assistant plugin marketplace update` failed: a; failed to write catalog: b"
    );

    let mut p = publication("assistant", "billing", vec![], false);
    publish_next(&mut p, Step::CommitContract, StepEvent::Committed(Err("c".to_string())));
    publish_next(&mut p, Step::UpdateMarketplace, StepEvent::Pushed(Err("d".to_string())));
    assert_eq!(
        publish_report(&p).err().unwrap().message,
        "contract publish failed: commit failed: c; marketplace push failed: d"
    );
}

#[test]
fn a_partial_push_is_told() {
    let mut p = publication("assistant", "billing", vec![], false);
    publish_next(&mut p, Step::PushContract, StepEvent::Pushed(Ok("c".to_string())));
    let next = publish_next(&mut p, Step::UpdateMarketplace, StepEvent::Pushed(Err("x".to_string())));
    assert_eq!(next, Step::Finish);
    let failure = publish_report(&p).err().unwrap();
    let told: Value = serde_json::from_str(&print_err_with(&failure.message, failure.details)).unwrap();
    assert_eq!(told["ok"], false);
    assert_eq!(
        told["error"]["message"],
        "contract publish failed after partial push: marketplace push failed: x"
    );
    assert_eq!(told["contract_pushed"], true);
    assert_eq!(told["contract_sha"], "c");
    assert_eq!(told["marketplace_pushed"], false);
    assert_eq!(told["blocking_errors"], Value::from(vec!["marketplace push failed: x"]));
    assert_eq!(told["catalog_written"], Value::Null);
    assert_eq!(told["commits"], Value::Array(vec![]));
}

#[test]
fn a_push_that_is_run_again_makes_no_commit() {
    let sha = "0123abc";
    let mut heads = Vec::new();
    let mut commands = Vec::new();
    let mut step = push_start(true);
    let pushed = loop {
        let args = push_args(step, "r", "billing", &heads);
        let answer = match step {
            PushStep::Probe => out(true, "0123abc\trefs/heads/main\n", ""),
            PushStep::Revision => out(true, "0123abc\n", ""),
            _ => out(true, "", ""),
        };
        if step == PushStep::Probe {
            heads = answer.as_ref().unwrap().stdout.clone();
        }
        commands.push(args.join(" "));
        match push_next(step, &args, "/s", &answer) {
            PushNext::Do(s) => step = s,
            PushNext::Pushed(s) => break s,
            PushNext::Failed(e) => panic!("{}", e),
        }
    };
    assert_eq!(pushed, sha);
    assert_eq!(
        commands,
        list(&[
            "add -A",
            "ls-remote --exit-code --heads r",
            "cat-file -e 0123abc^{commit}",
            "status --porcelain",
            "remote remove origin",
            "remote add origin r",
            "push -u origin HEAD:main",
            "rev-parse HEAD",
        ])
    );
}
