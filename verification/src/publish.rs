//! The steps of a confirmed publication, and what is decided between them.

use crate::contract::{config_commit, config_subject, plugin_name, plugin_of, publish_commit, publish_subject};
use crate::contracts::{code_text, exit_text};
use crate::envelope::{failed_with_json, law_failed_marker_overrides};
use crate::git::{pair_views, Output};
use crate::json::{
    array, elements, member, member_from, members, object, optional_text, push_member, text, text_array, text_or_null,
    texts, Json, JsonView,
};
use crate::path::{below, join_path};
use crate::text::{
    begins, from_utf8_lossy, join, joined, law_joined, law_split_at_first, lossy_text, push_text, split_at_first,
    split_once, starts_with, text_of, trim, trimmed, views,
};
use vstd::prelude::*;

verus! {

/// How Rust shows a list of texts for debugging.
pub uninterp spec fn debug_list(v: Seq<Seq<char>>) -> Seq<char>;

/// `Debug` of a `Vec<String>`: the same texts are shown in the same way.
#[verifier::external_body]
fn show_list(v: &Vec<String>) -> (r: String)
    ensures
        r@ == debug_list(views(v@)),
{
    format!("{:?}", v)
}

/// The message for a `git` command that failed in a directory.
pub open spec fn failed_in(args: Seq<Seq<char>>, dir: Seq<char>, out: Output) -> Seq<char> {
    "git "@ + debug_list(args) + " failed in "@ + dir + ": "@ + trimmed(lossy_text(out.stderr@))
}

/// The message for a `git` command that failed.
pub open spec fn failed(args: Seq<Seq<char>>, out: Output) -> Seq<char> {
    "git "@ + debug_list(args) + " failed: "@ + trimmed(lossy_text(out.stderr@))
}

fn failure_in(args: &Vec<String>, dir: &str, out: &Output) -> (r: String)
    ensures
        r@ == failed_in(views(args@), dir@, *out),
{
    let mut e: String = "git ".to_owned();
    e.append(show_list(args).as_str());
    e.append(" failed in ");
    e.append(dir);
    e.append(": ");
    e.append(trim(from_utf8_lossy(&out.stderr).as_str()).as_str());
    e
}

fn failure(args: &Vec<String>, out: &Output) -> (r: String)
    ensures
        r@ == failed(views(args@), *out),
{
    let mut e: String = "git ".to_owned();
    e.append(show_list(args).as_str());
    e.append(" failed: ");
    e.append(trim(from_utf8_lossy(&out.stderr).as_str()).as_str());
    e
}

/// The steps that push a contract to its repository, in order.
#[derive(Clone, Copy, PartialEq, Eq, Debug, Structural)]
pub enum PushStep {
    /// Make the staged directory a repository.
    Init,
    /// Track all staged files.
    Add,
    /// Ask the remote for its branches.
    Probe,
    /// Ask whether what the remote has was published from here.
    Known,
    /// Ask whether there is anything to commit.
    Status,
    Commit,
    RemoveOrigin,
    AddOrigin,
    Push,
    /// Ask for the commit that was pushed.
    Revision,
}

/// What comes after a step.
pub enum PushNext {
    Do(PushStep),
    /// The commit that was pushed.
    Pushed(String),
    Failed(String),
}

/// What comes after a step, as texts.
pub enum PushNextView {
    Do(PushStep),
    Pushed(Seq<char>),
    Failed(Seq<char>),
}

impl View for PushNext {
    type V = PushNextView;

    open spec fn view(&self) -> PushNextView {
        match self {
            PushNext::Do(s) => PushNextView::Do(*s),
            PushNext::Pushed(s) => PushNextView::Pushed(s@),
            PushNext::Failed(e) => PushNextView::Failed(e@),
        }
    }
}

/// The first step: a staged directory that is a repository already is not
/// made one again.
pub fn push_start(has_git: bool) -> (r: PushStep)
    ensures
        r == (if has_git {
            PushStep::Add
        } else {
            PushStep::Init
        }),
{
    if has_git {
        PushStep::Add
    } else {
        PushStep::Init
    }
}

/// The step after one that has to succeed.
pub open spec fn after_success(next: PushStep, args: Seq<Seq<char>>, dir: Seq<char>, out: Option<Output>) -> PushNextView {
    match out {
        None => PushNextView::Failed("git invocation failed"@),
        Some(o) => if o.success {
            PushNextView::Do(next)
        } else {
            PushNextView::Failed(failed_in(args, dir, o))
        },
    }
}

/// The message for a contract repository that holds something else.
pub open spec fn not_empty() -> Seq<char> {
    "contract repo must be empty for first push — auto-generated README will collide"@
}

/// What comes after a step that ended in this way; `None` says that the
/// command could not be run. A remote that has branches is pushed to only
/// where what it has is known here.
pub open spec fn push_after(step: PushStep, args: Seq<Seq<char>>, dir: Seq<char>, out: Option<Output>) -> PushNextView {
    match step {
        PushStep::Init => after_success(PushStep::Add, args, dir, out),
        PushStep::Add => after_success(PushStep::Probe, args, dir, out),
        PushStep::Probe => match out {
            None => PushNextView::Failed("git ls-remote failed"@),
            Some(o) => if o.success {
                PushNextView::Do(PushStep::Known)
            } else {
                PushNextView::Do(PushStep::Status)
            },
        },
        PushStep::Known => match out {
            None => PushNextView::Failed("git invocation failed"@),
            Some(o) => if o.success {
                PushNextView::Do(PushStep::Status)
            } else {
                PushNextView::Failed(not_empty())
            },
        },
        PushStep::Status => match out {
            None => PushNextView::Failed("git invocation failed"@),
            Some(o) => if !o.success {
                PushNextView::Failed(failed(args, o))
            } else if trimmed(lossy_text(o.stdout@)).len() > 0 {
                PushNextView::Do(PushStep::Commit)
            } else {
                PushNextView::Do(PushStep::RemoveOrigin)
            },
        },
        PushStep::Commit => after_success(PushStep::RemoveOrigin, args, dir, out),
        PushStep::RemoveOrigin => PushNextView::Do(PushStep::AddOrigin),
        PushStep::AddOrigin => after_success(PushStep::Push, args, dir, out),
        PushStep::Push => after_success(PushStep::Revision, args, dir, out),
        PushStep::Revision => match out {
            None => PushNextView::Failed("git invocation failed"@),
            Some(o) => if o.success {
                PushNextView::Pushed(trimmed(lossy_text(o.stdout@)))
            } else {
                PushNextView::Failed(failed(args, o))
            },
        },
    }
}

fn on_success(next: PushStep, args: &Vec<String>, dir: &str, out: &Option<Output>) -> (r: PushNext)
    ensures
        r@ == after_success(next, views(args@), dir@, *out),
{
    match out {
        None => PushNext::Failed("git invocation failed".to_owned()),
        Some(o) => if o.success {
            PushNext::Do(next)
        } else {
            PushNext::Failed(failure_in(args, dir, o))
        },
    }
}

/// What comes after a step that ended in this way.
pub fn push_next(step: PushStep, args: &Vec<String>, dir: &str, out: &Option<Output>) -> (r: PushNext)
    ensures
        r@ == push_after(step, views(args@), dir@, *out),
{
    match step {
        PushStep::Init => on_success(PushStep::Add, args, dir, out),
        PushStep::Add => on_success(PushStep::Probe, args, dir, out),
        PushStep::Probe => match out {
            None => PushNext::Failed("git ls-remote failed".to_owned()),
            Some(o) => if o.success {
                PushNext::Do(PushStep::Known)
            } else {
                PushNext::Do(PushStep::Status)
            },
        },
        PushStep::Known => match out {
            None => PushNext::Failed("git invocation failed".to_owned()),
            Some(o) => if o.success {
                PushNext::Do(PushStep::Status)
            } else {
                PushNext::Failed(
                    "contract repo must be empty for first push — auto-generated README will collide".to_owned(),
                )
            },
        },
        PushStep::Status => match out {
            None => PushNext::Failed("git invocation failed".to_owned()),
            Some(o) => if !o.success {
                PushNext::Failed(failure(args, o))
            } else if !trim(from_utf8_lossy(&o.stdout).as_str()).as_str().is_empty() {
                PushNext::Do(PushStep::Commit)
            } else {
                PushNext::Do(PushStep::RemoveOrigin)
            },
        },
        PushStep::Commit => on_success(PushStep::RemoveOrigin, args, dir, out),
        PushStep::RemoveOrigin => PushNext::Do(PushStep::AddOrigin),
        PushStep::AddOrigin => on_success(PushStep::Push, args, dir, out),
        PushStep::Push => on_success(PushStep::Revision, args, dir, out),
        PushStep::Revision => match out {
            None => PushNext::Failed("git invocation failed".to_owned()),
            Some(o) => if o.success {
                PushNext::Pushed(trim(from_utf8_lossy(&o.stdout).as_str()))
            } else {
                PushNext::Failed(failure(args, o))
            },
        },
    }
}

/// The first commit that `git ls-remote` printed.
pub open spec fn remote_commit(heads: Seq<char>) -> Seq<char> {
    match split_at_first(heads, "\t"@) {
        Some(p) => p.0,
        None => trimmed(heads),
    }
}

/// The arguments for a step; `heads` is what the probe printed.
pub open spec fn push_arguments(step: PushStep, repo: Seq<char>, service: Seq<char>, heads: Seq<u8>) -> Seq<Seq<char>> {
    match step {
        PushStep::Init => seq!["init"@, "-q"@, "-b"@, "main"@],
        PushStep::Add => seq!["add"@, "-A"@],
        PushStep::Probe => seq!["ls-remote"@, "--exit-code"@, "--heads"@, repo],
        PushStep::Known => seq!["cat-file"@, "-e"@, remote_commit(lossy_text(heads)) + "^{commit}"@],
        PushStep::Status => seq!["status"@, "--porcelain"@],
        PushStep::Commit => seq![
            "-c"@,
            "user.email=kit@local"@,
            "-c"@,
            "user.name=kit"@,
            "commit"@,
            "-q"@,
            "-m"@,
            "contract("@ + service + "): initial publish"@,
        ],
        PushStep::RemoveOrigin => seq!["remote"@, "remove"@, "origin"@],
        PushStep::AddOrigin => seq!["remote"@, "add"@, "origin"@, repo],
        PushStep::Push => seq!["push"@, "-u"@, "origin"@, "HEAD:main"@],
        PushStep::Revision => seq!["rev-parse"@, "HEAD"@],
    }
}

fn push_commit_args(v: &mut Vec<String>, subject: &str)
    ensures
        views(final(v)@) == views(old(v)@) + seq![
            "-c"@,
            "user.email=kit@local"@,
            "-c"@,
            "user.name=kit"@,
            "commit"@,
            "-q"@,
            "-m"@,
            subject@,
        ],
{
    let ghost before = views(v@);
    push_text(v, "-c");
    push_text(v, "user.email=kit@local");
    push_text(v, "-c");
    push_text(v, "user.name=kit");
    push_text(v, "commit");
    push_text(v, "-q");
    push_text(v, "-m");
    push_text(v, subject);
    assert(views(v@) =~= before + seq![
        "-c"@,
        "user.email=kit@local"@,
        "-c"@,
        "user.name=kit"@,
        "commit"@,
        "-q"@,
        "-m"@,
        subject@,
    ]);
}

/// The arguments for a step; `heads` is what the probe printed.
pub fn push_args(step: PushStep, repo: &str, service: &str, heads: &Vec<u8>) -> (r: Vec<String>)
    ensures
        views(r@) == push_arguments(step, repo@, service@, heads@),
{
    let mut v: Vec<String> = Vec::new();
    assert(views(v@) =~= Seq::<Seq<char>>::empty());
    match step {
        PushStep::Init => {
            push_text(&mut v, "init");
            push_text(&mut v, "-q");
            push_text(&mut v, "-b");
            push_text(&mut v, "main");
        },
        PushStep::Add => {
            push_text(&mut v, "add");
            push_text(&mut v, "-A");
        },
        PushStep::Probe => {
            push_text(&mut v, "ls-remote");
            push_text(&mut v, "--exit-code");
            push_text(&mut v, "--heads");
            push_text(&mut v, repo);
        },
        PushStep::Known => {
            let printed = from_utf8_lossy(heads);
            let mut commit = match split_once(printed.as_str(), "\t") {
                Some((sha, _)) => sha,
                None => trim(printed.as_str()),
            };
            commit.append("^{commit}");
            push_text(&mut v, "cat-file");
            push_text(&mut v, "-e");
            push_text(&mut v, commit.as_str());
        },
        PushStep::Status => {
            push_text(&mut v, "status");
            push_text(&mut v, "--porcelain");
        },
        PushStep::Commit => {
            let mut subject: String = "contract(".to_owned();
            subject.append(service);
            subject.append("): initial publish");
            push_commit_args(&mut v, subject.as_str());
        },
        PushStep::RemoveOrigin => {
            push_text(&mut v, "remote");
            push_text(&mut v, "remove");
            push_text(&mut v, "origin");
        },
        PushStep::AddOrigin => {
            push_text(&mut v, "remote");
            push_text(&mut v, "add");
            push_text(&mut v, "origin");
            push_text(&mut v, repo);
        },
        PushStep::Push => {
            push_text(&mut v, "push");
            push_text(&mut v, "-u");
            push_text(&mut v, "origin");
            push_text(&mut v, "HEAD:main");
        },
        PushStep::Revision => {
            push_text(&mut v, "rev-parse");
            push_text(&mut v, "HEAD");
        },
    }
    assert(views(v@) =~= push_arguments(step, repo@, service@, heads@));
    v
}

/// What is known of the remote after a step: what the probe printed.
pub open spec fn heads_after(step: PushStep, heads: Seq<u8>, out: Option<Output>) -> Seq<u8> {
    match out {
        Some(o) => if step == PushStep::Probe {
            o.stdout@
        } else {
            heads
        },
        None => heads,
    }
}

/// How many steps can still come.
pub open spec fn steps_left(step: PushStep) -> nat {
    match step {
        PushStep::Init => 9,
        PushStep::Add => 8,
        PushStep::Probe => 7,
        PushStep::Known => 6,
        PushStep::Status => 5,
        PushStep::Commit => 4,
        PushStep::RemoveOrigin => 3,
        PushStep::AddOrigin => 2,
        PushStep::Push => 1,
        PushStep::Revision => 0,
    }
}

/// A push from a step on, where `git` answers each command in this way: the
/// commands that are run, and how it ends.
pub open spec fn push_run(
    step: PushStep,
    repo: Seq<char>,
    service: Seq<char>,
    heads: Seq<u8>,
    dir: Seq<char>,
    git: spec_fn(Seq<Seq<char>>) -> Option<Output>,
) -> (Seq<Seq<Seq<char>>>, PushNextView)
    decreases steps_left(step),
{
    let args = push_arguments(step, repo, service, heads);
    let out = git(args);
    match push_after(step, args, dir, out) {
        PushNextView::Do(next) => {
            let rest = push_run(next, repo, service, heads_after(step, heads, out), dir, git);
            (seq![args] + rest.0, rest.1)
        },
        end => (seq![args], end),
    }
}

/// `git` could be run, and was successful.
pub open spec fn succeeds(out: Option<Output>) -> bool {
    out matches Some(o) && o.success
}

/// A push that is run again gives the same commit. Where the remote has the
/// commit that was pushed, the staged directory has it as its last, and nothing
/// in the directory changed since, no commit is made: what is pushed is what
/// the remote has.
pub proof fn law_push_again(
    repo: Seq<char>,
    service: Seq<char>,
    dir: Seq<char>,
    sha: Seq<char>,
    git: spec_fn(Seq<Seq<char>>) -> Option<Output>,
)
    requires
        succeeds(git(seq!["add"@, "-A"@])),
        succeeds(git(seq!["ls-remote"@, "--exit-code"@, "--heads"@, repo])),
        remote_commit(lossy_text(git(seq!["ls-remote"@, "--exit-code"@, "--heads"@, repo])->0.stdout@)) == sha,
        succeeds(git(seq!["cat-file"@, "-e"@, sha + "^{commit}"@])),
        succeeds(git(seq!["status"@, "--porcelain"@])),
        trimmed(lossy_text(git(seq!["status"@, "--porcelain"@])->0.stdout@)).len() == 0,
        succeeds(git(seq!["remote"@, "add"@, "origin"@, repo])),
        succeeds(git(seq!["push"@, "-u"@, "origin"@, "HEAD:main"@])),
        succeeds(git(seq!["rev-parse"@, "HEAD"@])),
        trimmed(lossy_text(git(seq!["rev-parse"@, "HEAD"@])->0.stdout@)) == sha,
    ensures
        push_run(PushStep::Add, repo, service, Seq::empty(), dir, git) == (
            seq![
                seq!["add"@, "-A"@],
                seq!["ls-remote"@, "--exit-code"@, "--heads"@, repo],
                seq!["cat-file"@, "-e"@, sha + "^{commit}"@],
                seq!["status"@, "--porcelain"@],
                seq!["remote"@, "remove"@, "origin"@],
                seq!["remote"@, "add"@, "origin"@, repo],
                seq!["push"@, "-u"@, "origin"@, "HEAD:main"@],
                seq!["rev-parse"@, "HEAD"@],
            ],
            PushNextView::Pushed(sha),
        ),
{
    let heads = git(seq!["ls-remote"@, "--exit-code"@, "--heads"@, repo])->0.stdout@;
    let last = push_run(PushStep::Revision, repo, service, heads, dir, git);
    let push = push_run(PushStep::Push, repo, service, heads, dir, git);
    let origin = push_run(PushStep::AddOrigin, repo, service, heads, dir, git);
    let remove = push_run(PushStep::RemoveOrigin, repo, service, heads, dir, git);
    let status = push_run(PushStep::Status, repo, service, heads, dir, git);
    let known = push_run(PushStep::Known, repo, service, heads, dir, git);
    let probe = push_run(PushStep::Probe, repo, service, Seq::empty(), dir, git);
    assert(last == (seq![seq!["rev-parse"@, "HEAD"@]], PushNextView::Pushed(sha)));
    assert(push == (seq![seq!["push"@, "-u"@, "origin"@, "HEAD:main"@]] + last.0, last.1));
    assert(origin == (seq![seq!["remote"@, "add"@, "origin"@, repo]] + push.0, push.1));
    assert(remove == (seq![seq!["remote"@, "remove"@, "origin"@]] + origin.0, origin.1));
    assert(status == (seq![seq!["status"@, "--porcelain"@]] + remove.0, remove.1));
    assert(known == (seq![seq!["cat-file"@, "-e"@, sha + "^{commit}"@]] + status.0, status.1));
    assert(probe == (seq![seq!["ls-remote"@, "--exit-code"@, "--heads"@, repo]] + known.0, known.1));
    let add = push_run(PushStep::Add, repo, service, Seq::empty(), dir, git);
    assert(add == (seq![seq!["add"@, "-A"@]] + probe.0, probe.1));
    assert(add.0 =~= seq![
        seq!["add"@, "-A"@],
        seq!["ls-remote"@, "--exit-code"@, "--heads"@, repo],
        seq!["cat-file"@, "-e"@, sha + "^{commit}"@],
        seq!["status"@, "--porcelain"@],
        seq!["remote"@, "remove"@, "origin"@],
        seq!["remote"@, "add"@, "origin"@, repo],
        seq!["push"@, "-u"@, "origin"@, "HEAD:main"@],
        seq!["rev-parse"@, "HEAD"@],
    ]);
}

/// The steps that publish a plugin in the marketplace, in order.
#[derive(Clone, Copy, PartialEq, Eq, Debug, Structural)]
pub enum MarketStep {
    Clone,
    /// Write the marketplace file with the plugin in it.
    Edit,
    Add,
    /// Ask whether there is anything to commit.
    Status,
    Commit,
    Push,
    /// Ask for the commit that was pushed.
    Revision,
}

/// What comes after a step.
pub enum MarketNext {
    Do(MarketStep),
    Pushed(String),
    Failed(String),
}

/// What comes after a step, as texts.
pub enum MarketNextView {
    Do(MarketStep),
    Pushed(Seq<char>),
    Failed(Seq<char>),
}

impl View for MarketNext {
    type V = MarketNextView;

    open spec fn view(&self) -> MarketNextView {
        match self {
            MarketNext::Do(s) => MarketNextView::Do(*s),
            MarketNext::Pushed(s) => MarketNextView::Pushed(s@),
            MarketNext::Failed(e) => MarketNextView::Failed(e@),
        }
    }
}

/// The step after one that has to succeed.
pub open spec fn market_success(next: MarketStep, args: Seq<Seq<char>>, dir: Seq<char>, out: Option<Output>) -> MarketNextView {
    match out {
        None => MarketNextView::Failed("git invocation failed"@),
        Some(o) => if o.success {
            MarketNextView::Do(next)
        } else {
            MarketNextView::Failed(failed_in(args, dir, o))
        },
    }
}

/// What comes after a step of `git` that ended in this way. Where nothing
/// changed there is nothing to commit.
pub open spec fn market_after(
    step: MarketStep,
    repo: Seq<char>,
    args: Seq<Seq<char>>,
    dir: Seq<char>,
    out: Option<Output>,
) -> MarketNextView {
    match step {
        MarketStep::Clone => if out is Some && out->0.success {
            MarketNextView::Do(MarketStep::Edit)
        } else {
            MarketNextView::Failed(
                "marketplace repo missing or unreachable: "@ + repo + " — create it, or check access, and re-run"@,
            )
        },
        MarketStep::Edit => MarketNextView::Do(MarketStep::Add),
        MarketStep::Add => market_success(MarketStep::Status, args, dir, out),
        MarketStep::Status => match out {
            None => MarketNextView::Failed("git invocation failed"@),
            Some(o) => if !o.success {
                MarketNextView::Failed(failed(args, o))
            } else if trimmed(lossy_text(o.stdout@)).len() > 0 {
                MarketNextView::Do(MarketStep::Commit)
            } else {
                MarketNextView::Do(MarketStep::Push)
            },
        },
        MarketStep::Commit => market_success(MarketStep::Push, args, dir, out),
        MarketStep::Push => market_success(MarketStep::Revision, args, dir, out),
        MarketStep::Revision => match out {
            None => MarketNextView::Failed("git invocation failed"@),
            Some(o) => if o.success {
                MarketNextView::Pushed(trimmed(lossy_text(o.stdout@)))
            } else {
                MarketNextView::Failed(failed(args, o))
            },
        },
    }
}

fn market_on_success(next: MarketStep, args: &Vec<String>, dir: &str, out: &Option<Output>) -> (r: MarketNext)
    ensures
        r@ == market_success(next, views(args@), dir@, *out),
{
    match out {
        None => MarketNext::Failed("git invocation failed".to_owned()),
        Some(o) => if o.success {
            MarketNext::Do(next)
        } else {
            MarketNext::Failed(failure_in(args, dir, o))
        },
    }
}

/// What comes after a step of `git` that ended in this way.
pub fn market_next(step: MarketStep, repo: &str, args: &Vec<String>, dir: &str, out: &Option<Output>) -> (r: MarketNext)
    ensures
        r@ == market_after(step, repo@, views(args@), dir@, *out),
{
    match step {
        MarketStep::Clone => {
            let cloned = match out {
                Some(o) => o.success,
                None => false,
            };
            if cloned {
                MarketNext::Do(MarketStep::Edit)
            } else {
                let mut e: String = "marketplace repo missing or unreachable: ".to_owned();
                e.append(repo);
                e.append(" — create it, or check access, and re-run");
                MarketNext::Failed(e)
            }
        },
        MarketStep::Edit => MarketNext::Do(MarketStep::Add),
        MarketStep::Add => market_on_success(MarketStep::Status, args, dir, out),
        MarketStep::Status => match out {
            None => MarketNext::Failed("git invocation failed".to_owned()),
            Some(o) => if !o.success {
                MarketNext::Failed(failure(args, o))
            } else if !trim(from_utf8_lossy(&o.stdout).as_str()).as_str().is_empty() {
                MarketNext::Do(MarketStep::Commit)
            } else {
                MarketNext::Do(MarketStep::Push)
            },
        },
        MarketStep::Commit => market_on_success(MarketStep::Push, args, dir, out),
        MarketStep::Push => market_on_success(MarketStep::Revision, args, dir, out),
        MarketStep::Revision => match out {
            None => MarketNext::Failed("git invocation failed".to_owned()),
            Some(o) => if o.success {
                MarketNext::Pushed(trim(from_utf8_lossy(&o.stdout).as_str()))
            } else {
                MarketNext::Failed(failure(args, o))
            },
        },
    }
}

/// The arguments for a step; the edit is no step of `git`.
pub open spec fn market_arguments(step: MarketStep, repo: Seq<char>, dir: Seq<char>, service: Seq<char>) -> Seq<Seq<char>> {
    match step {
        MarketStep::Clone => seq!["clone"@, "--depth"@, "1"@, repo, dir],
        MarketStep::Edit => Seq::empty(),
        MarketStep::Add => seq!["add"@, "marketplace.json"@],
        MarketStep::Status => seq!["status"@, "--porcelain"@],
        MarketStep::Commit => seq![
            "-c"@,
            "user.email=kit@local"@,
            "-c"@,
            "user.name=kit"@,
            "commit"@,
            "-q"@,
            "-m"@,
            "chore(marketplace): publish "@ + plugin_of(service),
        ],
        MarketStep::Push => seq!["push"@, "origin"@, "HEAD"@],
        MarketStep::Revision => seq!["rev-parse"@, "HEAD"@],
    }
}

/// The arguments for a step.
pub fn market_args(step: MarketStep, repo: &str, dir: &str, service: &str) -> (r: Vec<String>)
    ensures
        views(r@) == market_arguments(step, repo@, dir@, service@),
{
    let mut v: Vec<String> = Vec::new();
    assert(views(v@) =~= Seq::<Seq<char>>::empty());
    match step {
        MarketStep::Clone => {
            push_text(&mut v, "clone");
            push_text(&mut v, "--depth");
            push_text(&mut v, "1");
            push_text(&mut v, repo);
            push_text(&mut v, dir);
        },
        MarketStep::Edit => {},
        MarketStep::Add => {
            push_text(&mut v, "add");
            push_text(&mut v, "marketplace.json");
        },
        MarketStep::Status => {
            push_text(&mut v, "status");
            push_text(&mut v, "--porcelain");
        },
        MarketStep::Commit => {
            let mut subject: String = "chore(marketplace): publish ".to_owned();
            subject.append(plugin_name(service).as_str());
            push_commit_args(&mut v, subject.as_str());
        },
        MarketStep::Push => {
            push_text(&mut v, "push");
            push_text(&mut v, "origin");
            push_text(&mut v, "HEAD");
        },
        MarketStep::Revision => {
            push_text(&mut v, "rev-parse");
            push_text(&mut v, "HEAD");
        },
    }
    assert(views(v@) =~= market_arguments(step, repo@, dir@, service@));
    v
}

/// How a command of the tool ended: whether it succeeded, its code, and what it printed.
pub struct Ended {
    pub success: bool,
    pub code: Option<i32>,
    pub stderr: Vec<u8>,
}

/// The message for an update of the marketplace by the tool that failed, if it
/// did; `None` for `out` says that the command could not be run. The tool comes
/// in the package `package`.
pub open spec fn update_failure(
    cli: Seq<char>,
    package: Seq<char>,
    name: Seq<char>,
    on_path: bool,
    out: Option<Ended>,
) -> Option<Seq<char>> {
    if !on_path {
        Some("`"@ + cli + "` CLI not on PATH — install with `npm install -g "@ + package + "`"@)
    } else {
        match out {
            None => Some("failed to invoke `"@ + cli + " plugin marketplace update`"@),
            Some(o) => if o.success {
                None
            } else {
                let why = trimmed(lossy_text(o.stderr@));
                Some(
                    "`"@ + cli + " plugin marketplace update "@ + name + "` exited "@ + code_text(o.code) + ": "@ + (if why.len()
                        == 0 {
                        "(no stderr)"@
                    } else {
                        why
                    }),
                )
            },
        }
    }
}

/// The message for an update of the marketplace by the tool that failed.
pub fn update_error(cli: &str, package: &str, name: &str, on_path: bool, out: &Option<Ended>) -> (r: Option<String>)
    ensures
        text_of(r) == update_failure(cli@, package@, name@, on_path, *out),
{
    let mut e: String = "`".to_owned();
    if !on_path {
        e.append(cli);
        e.append("` CLI not on PATH — install with `npm install -g ");
        e.append(package);
        e.append("`");
        return Some(e);
    }
    match out {
        None => {
            let mut f: String = "failed to invoke `".to_owned();
            f.append(cli);
            f.append(" plugin marketplace update`");
            Some(f)
        },
        Some(o) => if o.success {
            None
        } else {
            e.append(cli);
            e.append(" plugin marketplace update ");
            e.append(name);
            e.append("` exited ");
            e.append(exit_text(o.code).as_str());
            e.append(": ");
            let why = trim(from_utf8_lossy(&o.stderr).as_str());
            if why.as_str().is_empty() {
                e.append("(no stderr)");
            } else {
                e.append(why.as_str());
            }
            Some(e)
        },
    }
}

/// The steps of a commit in the project.
#[derive(Clone, Copy, PartialEq, Eq, Debug, Structural)]
pub enum StageStep {
    Add,
    /// Ask what is staged.
    Staged,
    Commit,
}

/// What comes after a step.
pub enum StageNext {
    Do(StageStep),
    Done,
    Failed(String),
}

/// What comes after a step, as texts.
pub enum StageNextView {
    Do(StageStep),
    Done,
    Failed(Seq<char>),
}

impl View for StageNext {
    type V = StageNextView;

    open spec fn view(&self) -> StageNextView {
        match self {
            StageNext::Do(s) => StageNextView::Do(*s),
            StageNext::Done => StageNextView::Done,
            StageNext::Failed(e) => StageNextView::Failed(e@),
        }
    }
}

/// How a commit starts: with no file there is nothing to do.
pub fn stage_start(files: &Vec<String>) -> (r: StageNext)
    ensures
        r@ == (if files@.len() == 0 {
            StageNextView::Done
        } else {
            StageNextView::Do(StageStep::Add)
        }),
{
    if files.len() == 0 {
        StageNext::Done
    } else {
        StageNext::Do(StageStep::Add)
    }
}

/// What comes after a step that ended in this way. Where nothing is staged
/// there is no commit.
pub open spec fn stage_after(step: StageStep, subject: Seq<char>, out: Option<Output>) -> StageNextView {
    match step {
        StageStep::Add => match out {
            None => StageNextView::Failed("git add failed"@),
            Some(o) => if o.success {
                StageNextView::Do(StageStep::Staged)
            } else {
                StageNextView::Failed("git add failed: "@ + trimmed(lossy_text(o.stderr@)))
            },
        },
        StageStep::Staged => match out {
            None => StageNextView::Failed("failed to invoke git"@),
            Some(o) => if !o.success {
                StageNextView::Failed("git failed: "@ + trimmed(lossy_text(o.stderr@)))
            } else if trimmed(lossy_text(o.stdout@)).len() == 0 {
                StageNextView::Done
            } else {
                StageNextView::Do(StageStep::Commit)
            },
        },
        StageStep::Commit => match out {
            None => StageNextView::Failed("git commit failed"@),
            Some(o) => if o.success {
                StageNextView::Done
            } else {
                StageNextView::Failed(
                    "git commit failed for '"@ + subject + "': "@ + trimmed(lossy_text(o.stderr@)),
                )
            },
        },
    }
}

fn with_reason(before: &str, bytes: &Vec<u8>) -> (r: String)
    ensures
        r@ == before@ + trimmed(lossy_text(bytes@)),
{
    let mut e: String = before.to_owned();
    e.append(trim(from_utf8_lossy(bytes).as_str()).as_str());
    e
}

/// What comes after a step that ended in this way.
pub fn stage_next(step: StageStep, subject: &str, out: &Option<Output>) -> (r: StageNext)
    ensures
        r@ == stage_after(step, subject@, *out),
{
    match step {
        StageStep::Add => match out {
            None => StageNext::Failed("git add failed".to_owned()),
            Some(o) => if o.success {
                StageNext::Do(StageStep::Staged)
            } else {
                StageNext::Failed(with_reason("git add failed: ", &o.stderr))
            },
        },
        StageStep::Staged => match out {
            None => StageNext::Failed("failed to invoke git".to_owned()),
            Some(o) => if !o.success {
                StageNext::Failed(with_reason("git failed: ", &o.stderr))
            } else if trim(from_utf8_lossy(&o.stdout).as_str()).as_str().is_empty() {
                StageNext::Done
            } else {
                StageNext::Do(StageStep::Commit)
            },
        },
        StageStep::Commit => match out {
            None => StageNext::Failed("git commit failed".to_owned()),
            Some(o) => if o.success {
                StageNext::Done
            } else {
                let mut e: String = "git commit failed for '".to_owned();
                e.append(subject);
                e.append("': ");
                StageNext::Failed(with_reason(e.as_str(), &o.stderr))
            },
        },
    }
}

/// The arguments for a step.
pub open spec fn stage_arguments(step: StageStep, files: Seq<Seq<char>>, subject: Seq<char>) -> Seq<Seq<char>> {
    match step {
        StageStep::Add => seq!["add"@, "--"@] + files,
        StageStep::Staged => seq!["diff"@, "--cached"@, "--name-only"@],
        StageStep::Commit => seq!["commit"@, "-q"@, "-m"@, subject],
    }
}

/// The arguments for a step.
pub fn stage_args(step: StageStep, files: &Vec<String>, subject: &str) -> (r: Vec<String>)
    ensures
        views(r@) == stage_arguments(step, views(files@), subject@),
{
    let mut v: Vec<String> = Vec::new();
    assert(views(v@) =~= Seq::<Seq<char>>::empty());
    match step {
        StageStep::Add => {
            push_text(&mut v, "add");
            push_text(&mut v, "--");
            let mut i: usize = 0;
            assert(views(v@) =~= seq!["add"@, "--"@] + views(files@).take(0));
            while i < files.len()
                invariant
                    0 <= i <= files@.len(),
                    views(v@) == seq!["add"@, "--"@] + views(files@).take(i as int),
                decreases files.len() - i,
            {
                push_text(&mut v, files[i].as_str());
                i = i + 1;
                assert(views(v@) =~= seq!["add"@, "--"@] + views(files@).take(i as int));
            }
            assert(views(files@).take(files@.len() as int) =~= views(files@));
        },
        StageStep::Staged => {
            push_text(&mut v, "diff");
            push_text(&mut v, "--cached");
            push_text(&mut v, "--name-only");
        },
        StageStep::Commit => {
            push_text(&mut v, "commit");
            push_text(&mut v, "-q");
            push_text(&mut v, "-m");
            push_text(&mut v, subject);
        },
    }
    assert(views(v@) =~= stage_arguments(step, views(files@), subject@));
    v
}

/// The files of the commit for the contract: the settings, the ignore file if
/// it is there, and the catalog if it was written.
pub fn publish_files(cwd: &str, has_gitignore: bool, catalog: bool) -> (r: Vec<String>)
    ensures
        views(r@) == ({
            let a = seq![below(cwd@, ".jkit/contract.json"@)];
            let b = if has_gitignore {
                a.push(below(cwd@, ".gitignore"@))
            } else {
                a
            };
            if catalog {
                b.push(below(below(cwd@, ".jkit"@), "marketplace-catalog.json"@))
            } else {
                b
            }
        }),
        r@.len() > 0 && r@[0]@ == below(cwd@, ".jkit/contract.json"@),
        has_gitignore ==> r@.len() > 1 && r@[1]@ == below(cwd@, ".gitignore"@),
        catalog ==> r@.len() > 1 && r@.last()@ == below(below(cwd@, ".jkit"@), "marketplace-catalog.json"@),
        !has_gitignore && !catalog ==> r@.len() == 1,
        has_gitignore && catalog ==> r@.len() == 3,
{
    let mut v: Vec<String> = Vec::new();
    push_text(&mut v, join_path(cwd, ".jkit/contract.json").as_str());
    assert(views(v@) =~= seq![below(cwd@, ".jkit/contract.json"@)]);
    if has_gitignore {
        push_text(&mut v, join_path(cwd, ".gitignore").as_str());
    }
    if catalog {
        push_text(&mut v, join_path(join_path(cwd, ".jkit").as_str(), "marketplace-catalog.json").as_str());
    }
    assert(views(v@).len() == v@.len());
    assert(forall|i: int| 0 <= i < v@.len() ==> views(v@)[i] == (#[trigger] v@[i])@);
    v
}

/// The modified files, below the project.
pub fn config_files(cwd: &str, modified: &Vec<String>) -> (r: Vec<String>)
    ensures
        views(r@) == views(modified@).map_values(|p: Seq<char>| below(cwd@, p)),
        r@.len() == modified@.len(),
        forall|i: int| 0 <= i < modified@.len() ==> (#[trigger] r@[i])@ == below(cwd@, modified@[i]@),
{
    let mut v: Vec<String> = Vec::new();
    let mut i: usize = 0;
    while i < modified.len()
        invariant
            0 <= i <= modified@.len(),
            v@.len() == i,
            forall|k: int| 0 <= k < i ==> (#[trigger] v@[k])@ == below(cwd@, modified@[k]@),
        decreases modified.len() - i,
    {
        v.push(join_path(cwd, modified[i].as_str()));
        i = i + 1;
    }
    assert(views(v@) =~= views(modified@).map_values(|p: Seq<char>| below(cwd@, p)));
    v
}

/// The steps of a publication.
#[derive(Clone, Copy, PartialEq, Eq, Debug, Structural)]
pub enum Step {
    /// Tell what would be done, and do nothing.
    DryRun,
    PushContract,
    UpdateMarketplace,
    UpdatePlugins,
    WriteCatalog,
    /// Ask for the subjects of the last two commits.
    RecentSubjects,
    CommitConfig,
    CommitContract,
    /// Tell what was done.
    Finish,
}

/// How a step ended.
pub enum StepEvent {
    /// The commit that was pushed, or why not.
    Pushed(Result<String, String>),
    Done(Result<(), String>),
    Subjects(Vec<String>),
    /// The commit that was made, where it is known, or why not.
    Committed(Result<Option<String>, String>),
}

/// How a step ended, as texts.
pub enum StepEventView {
    Pushed(Result<Seq<char>, Seq<char>>),
    Done(Result<(), Seq<char>>),
    Subjects(Seq<Seq<char>>),
    Committed(Result<Option<Seq<char>>, Seq<char>>),
}

impl View for StepEvent {
    type V = StepEventView;

    open spec fn view(&self) -> StepEventView {
        match self {
            StepEvent::Pushed(Ok(s)) => StepEventView::Pushed(Ok(s@)),
            StepEvent::Pushed(Err(e)) => StepEventView::Pushed(Err(e@)),
            StepEvent::Done(Ok(_)) => StepEventView::Done(Ok(())),
            StepEvent::Done(Err(e)) => StepEventView::Done(Err(e@)),
            StepEvent::Subjects(v) => StepEventView::Subjects(views(v@)),
            StepEvent::Committed(Ok(s)) => StepEventView::Committed(Ok(text_of(*s))),
            StepEvent::Committed(Err(e)) => StepEventView::Committed(Err(e@)),
        }
    }
}

/// What is known of a publication so far.
pub struct Publication {
    /// The command of the tool that the plugins are made for.
    pub cli: String,
    pub service: String,
    pub modified: Vec<String>,
    pub no_commit: bool,
    pub contract_sha: Option<String>,
    pub marketplace_sha: Option<String>,
    pub catalog_written: bool,
    /// The commits that were made, with their subjects.
    pub commits: Vec<(String, String)>,
    pub already_committed: bool,
    /// What went wrong.
    pub blocking: Vec<String>,
}

/// What is known of a publication so far, as texts.
#[verifier::ext_equal]
pub struct PublicationView {
    pub cli: Seq<char>,
    pub service: Seq<char>,
    pub modified: Seq<Seq<char>>,
    pub no_commit: bool,
    pub contract_sha: Option<Seq<char>>,
    pub marketplace_sha: Option<Seq<char>>,
    pub catalog_written: bool,
    pub commits: Seq<(Seq<char>, Seq<char>)>,
    pub already_committed: bool,
    pub blocking: Seq<Seq<char>>,
}

impl View for Publication {
    type V = PublicationView;

    open spec fn view(&self) -> PublicationView {
        PublicationView {
            cli: self.cli@,
            service: self.service@,
            modified: views(self.modified@),
            no_commit: self.no_commit,
            contract_sha: text_of(self.contract_sha),
            marketplace_sha: text_of(self.marketplace_sha),
            catalog_written: self.catalog_written,
            commits: pair_views(self.commits@),
            already_committed: self.already_committed,
            blocking: views(self.blocking@),
        }
    }
}

/// A publication that has not begun.
pub open spec fn fresh(cli: Seq<char>, service: Seq<char>, modified: Seq<Seq<char>>, no_commit: bool) -> PublicationView {
    PublicationView {
        cli,
        service,
        modified,
        no_commit,
        contract_sha: None,
        marketplace_sha: None,
        catalog_written: false,
        commits: Seq::empty(),
        already_committed: false,
        blocking: Seq::empty(),
    }
}

/// A publication that has not begun.
pub fn publication(cli: &str, service: &str, modified: Vec<String>, no_commit: bool) -> (r: Publication)
    ensures
        r@ == fresh(cli@, service@, views(modified@), no_commit),
{
    let commits: Vec<(String, String)> = Vec::new();
    let blocking: Vec<String> = Vec::new();
    assert(pair_views(commits@) =~= Seq::<(Seq<char>, Seq<char>)>::empty());
    assert(views(blocking@) =~= Seq::<Seq<char>>::empty());
    Publication {
        cli: cli.to_owned(),
        service: service.to_owned(),
        modified,
        no_commit,
        contract_sha: None,
        marketplace_sha: None,
        catalog_written: false,
        commits,
        already_committed: false,
        blocking,
    }
}

/// The first step: without confirmation nothing is done.
pub fn first_step(confirmed: bool) -> (r: Step)
    ensures
        r == (if confirmed {
            Step::PushContract
        } else {
            Step::DryRun
        }),
{
    if confirmed {
        Step::PushContract
    } else {
        Step::DryRun
    }
}

/// A publication with one more thing that went wrong.
pub open spec fn blocked(p: PublicationView, before: Seq<char>, why: Seq<char>) -> PublicationView {
    PublicationView { blocking: p.blocking.push(before + why), ..p }
}

/// A publication with one more commit, where the commit is known.
pub open spec fn with_commit(p: PublicationView, sha: Option<Seq<char>>, subject: Seq<char>) -> PublicationView {
    match sha {
        Some(s) => PublicationView { commits: p.commits.push((s, subject)), ..p },
        None => p,
    }
}

/// Whether the last two commits are those of an earlier publication.
pub open spec fn published_before(subjects: Seq<Seq<char>>) -> bool {
    subjects.len() == 2 && begins(subjects[0], "chore(contract): publish service contract for "@) && begins(
        subjects[1],
        "chore(contract): "@,
    )
}

/// What is known once a step has ended in this way, and the step to take then.
/// An event that does not belong to the step ends the publication.
pub open spec fn publish_after(p: PublicationView, step: Step, event: StepEventView) -> (PublicationView, Step) {
    match (step, event) {
        (Step::PushContract, StepEventView::Pushed(Ok(sha))) => (
            PublicationView { contract_sha: Some(sha), ..p },
            Step::UpdateMarketplace,
        ),
        (Step::PushContract, StepEventView::Pushed(Err(e))) => (blocked(p, "contract push failed: "@, e), Step::Finish),
        (Step::UpdateMarketplace, StepEventView::Pushed(Ok(sha))) => (
            PublicationView { marketplace_sha: Some(sha), ..p },
            Step::UpdatePlugins,
        ),
        (Step::UpdateMarketplace, StepEventView::Pushed(Err(e))) => (
            blocked(p, "marketplace push failed: "@, e),
            Step::Finish,
        ),
        (Step::UpdatePlugins, StepEventView::Done(Ok(_))) => (p, Step::WriteCatalog),
        (Step::UpdatePlugins, StepEventView::Done(Err(e))) => (
            blocked(p, "`"@ + p.cli + " plugin marketplace update` failed: "@, e),
            Step::WriteCatalog,
        ),
        (Step::WriteCatalog, StepEventView::Done(r)) => {
            let q = match r {
                Ok(_) => PublicationView { catalog_written: true, ..p },
                Err(e) => blocked(p, "failed to write catalog: "@, e),
            };
            (
                q,
                if q.blocking.len() > 0 || q.no_commit {
                    Step::Finish
                } else {
                    Step::RecentSubjects
                },
            )
        },
        (Step::RecentSubjects, StepEventView::Subjects(v)) => if published_before(v) {
            (PublicationView { already_committed: true, ..p }, Step::Finish)
        } else if p.modified.len() > 0 {
            (p, Step::CommitConfig)
        } else {
            (p, Step::CommitContract)
        },
        (Step::CommitConfig, StepEventView::Committed(Ok(sha))) => (
            with_commit(p, sha, config_subject(p.modified)),
            Step::CommitContract,
        ),
        (Step::CommitConfig, StepEventView::Committed(Err(e))) => (blocked(p, "commit failed: "@, e), Step::Finish),
        (Step::CommitContract, StepEventView::Committed(Ok(sha))) => (
            with_commit(p, sha, publish_subject(p.service)),
            Step::Finish,
        ),
        (Step::CommitContract, StepEventView::Committed(Err(e))) => (blocked(p, "commit failed: "@, e), Step::Finish),
        _ => (p, Step::Finish),
    }
}

/// What a publication may come to know and do, from a fresh one: the state of
/// a publication before each step.
pub open spec fn may_take(p: PublicationView, step: Step) -> bool {
    match step {
        Step::DryRun => nothing_done(p),
        Step::PushContract => nothing_done(p),
        Step::UpdateMarketplace => p.contract_sha is Some && p.marketplace_sha is None && p.blocking.len() == 0
            && p.commits.len() == 0 && !p.catalog_written && !p.already_committed,
        Step::UpdatePlugins => p.contract_sha is Some && p.marketplace_sha is Some && p.blocking.len() == 0
            && p.commits.len() == 0 && !p.catalog_written && !p.already_committed,
        Step::WriteCatalog => p.contract_sha is Some && p.marketplace_sha is Some && p.commits.len() == 0
            && !p.catalog_written && !p.already_committed,
        Step::RecentSubjects => finished_pushing(p) && p.commits.len() == 0,
        Step::CommitConfig => finished_pushing(p) && p.commits.len() == 0 && p.modified.len() > 0,
        Step::CommitContract => finished_pushing(p) && p.commits.len() <= 1,
        Step::Finish => (p.commits.len() > 0 ==> p.contract_sha is Some && p.marketplace_sha is Some
            && p.catalog_written && !p.no_commit && !p.already_committed) && (p.marketplace_sha is Some
            ==> p.contract_sha is Some),
    }
}

/// Whether nothing is pushed, written or committed, and nothing went wrong.
pub open spec fn nothing_done(p: PublicationView) -> bool {
    p.contract_sha is None && p.marketplace_sha is None && !p.catalog_written && p.commits.len() == 0
        && !p.already_committed && p.blocking.len() == 0
}

/// Whether everything is pushed and written without fault, and commits are
/// wanted and not made yet.
pub open spec fn finished_pushing(p: PublicationView) -> bool {
    p.contract_sha is Some && p.marketplace_sha is Some && p.catalog_written && p.blocking.len() == 0 && !p.no_commit
        && !p.already_committed
}

/// What holds before every step of a publication, whatever the outcome of the
/// steps: the marketplace is touched only once the contract is pushed, and
/// commits are made only once both are pushed and the catalog is written, with
/// nothing gone wrong and unless they are unwanted or made already.
pub proof fn law_publication_in_order(p: PublicationView, step: Step, event: StepEventView)
    requires
        may_take(p, step),
    ensures
        may_take(publish_after(p, step, event).0, publish_after(p, step, event).1),
{
}

/// What has to hold before the first step, whichever it is, holds of a fresh
/// publication.
pub proof fn law_publication_begins(cli: Seq<char>, service: Seq<char>, modified: Seq<Seq<char>>, no_commit: bool)
    ensures
        may_take(fresh(cli, service, modified, no_commit), Step::PushContract),
        may_take(fresh(cli, service, modified, no_commit), Step::DryRun),
{
}

/// After a dry run nothing follows, and nothing has been done.
pub proof fn law_dry_run_does_nothing(p: PublicationView, event: StepEventView)
    requires
        may_take(p, Step::DryRun),
    ensures
        publish_after(p, Step::DryRun, event) == (p, Step::Finish),
        nothing_done(p),
{
}

/// Where no commits are wanted, none are made.
pub proof fn law_no_commit_makes_none(p: PublicationView, step: Step, event: StepEventView)
    requires
        may_take(p, step),
        p.no_commit,
        p.commits.len() == 0,
    ensures
        publish_after(p, step, event).0.no_commit,
        publish_after(p, step, event).0.commits.len() == 0,
{
}

/// What is pushed stays known, and what went wrong is not forgotten.
pub proof fn law_publication_forgets_nothing(p: PublicationView, step: Step, event: StepEventView)
    ensures
        ({
            let q = publish_after(p, step, event).0;
            &&& p.blocking.is_prefix_of(q.blocking)
            &&& p.commits.is_prefix_of(q.commits)
            &&& p.contract_sha is Some ==> q.contract_sha is Some
            &&& p.marketplace_sha is Some ==> q.marketplace_sha is Some
            &&& q.service == p.service && q.modified == p.modified && q.no_commit == p.no_commit
        }),
{
}

fn block(p: &mut Publication, before: &str, why: &str)
    ensures
        final(p)@ == blocked(old(p)@, before@, why@),
{
    let mut e: String = before.to_owned();
    e.append(why);
    push_text(&mut p.blocking, e.as_str());
}

fn add_commit(p: &mut Publication, sha: Option<String>, subject: String)
    ensures
        final(p)@ == with_commit(old(p)@, text_of(sha), subject@),
{
    if let Some(s) = sha {
        let ghost before = p.commits@;
        p.commits.push((s, subject));
        assert(pair_views(p.commits@) =~= pair_views(before).push((s@, subject@)));
    }
}

fn is_published(subjects: &Vec<String>) -> (r: bool)
    ensures
        r == published_before(views(subjects@)),
{
    assert(views(subjects@).len() == subjects@.len());
    if subjects.len() != 2 {
        return false;
    }
    assert(views(subjects@)[0] == subjects@[0]@ && views(subjects@)[1] == subjects@[1]@);
    starts_with(subjects[0].as_str(), "chore(contract): publish service contract for ") && starts_with(
        subjects[1].as_str(),
        "chore(contract): ",
    )
}

/// Takes in how a step ended, and gives the step to take then.
pub fn publish_next(p: &mut Publication, step: Step, event: StepEvent) -> (r: Step)
    ensures
        (final(p)@, r) == publish_after(old(p)@, step, event@),
{
    match (step, event) {
        (Step::PushContract, StepEvent::Pushed(Ok(sha))) => {
            p.contract_sha = Some(sha);
            Step::UpdateMarketplace
        },
        (Step::PushContract, StepEvent::Pushed(Err(e))) => {
            block(p, "contract push failed: ", e.as_str());
            Step::Finish
        },
        (Step::UpdateMarketplace, StepEvent::Pushed(Ok(sha))) => {
            p.marketplace_sha = Some(sha);
            Step::UpdatePlugins
        },
        (Step::UpdateMarketplace, StepEvent::Pushed(Err(e))) => {
            block(p, "marketplace push failed: ", e.as_str());
            Step::Finish
        },
        (Step::UpdatePlugins, StepEvent::Done(Ok(_))) => Step::WriteCatalog,
        (Step::UpdatePlugins, StepEvent::Done(Err(e))) => {
            let mut before: String = "`".to_owned();
            before.append(p.cli.as_str());
            before.append(" plugin marketplace update` failed: ");
            block(p, before.as_str(), e.as_str());
            Step::WriteCatalog
        },
        (Step::WriteCatalog, StepEvent::Done(r)) => {
            match r {
                Ok(_) => {
                    p.catalog_written = true;
                },
                Err(e) => {
                    block(p, "failed to write catalog: ", e.as_str());
                },
            }
            assert(views(p.blocking@).len() == p.blocking@.len());
            if p.blocking.len() > 0 || p.no_commit {
                Step::Finish
            } else {
                Step::RecentSubjects
            }
        },
        (Step::RecentSubjects, StepEvent::Subjects(v)) => {
            assert(views(p.modified@).len() == p.modified@.len());
            if is_published(&v) {
                p.already_committed = true;
                Step::Finish
            } else if p.modified.len() > 0 {
                Step::CommitConfig
            } else {
                Step::CommitContract
            }
        },
        (Step::CommitConfig, StepEvent::Committed(Ok(sha))) => {
            let subject = config_commit(&p.modified);
            add_commit(p, sha, subject);
            Step::CommitContract
        },
        (Step::CommitConfig, StepEvent::Committed(Err(e))) => {
            block(p, "commit failed: ", e.as_str());
            Step::Finish
        },
        (Step::CommitContract, StepEvent::Committed(Ok(sha))) => {
            let subject = publish_commit(p.service.as_str());
            add_commit(p, sha, subject);
            Step::Finish
        },
        (Step::CommitContract, StepEvent::Committed(Err(e))) => {
            block(p, "commit failed: ", e.as_str());
            Step::Finish
        },
        _ => Step::Finish,
    }
}

/// What was done, as JSON.
pub open spec fn published_json(p: PublicationView) -> JsonView {
    let told = seq![
        ("service"@, JsonView::Text(p.service)),
        ("confirmed"@, JsonView::Bool(true)),
        ("contract_pushed"@, JsonView::Bool(p.contract_sha is Some)),
        ("contract_sha"@, text_or_null(p.contract_sha)),
        ("marketplace_pushed"@, JsonView::Bool(p.marketplace_sha is Some)),
        ("marketplace_sha"@, text_or_null(p.marketplace_sha)),
        (
            "catalog_written"@,
            if p.catalog_written {
                JsonView::Text(".jkit/marketplace-catalog.json"@)
            } else {
                JsonView::Null
            },
        ),
        (
            "commits"@,
            JsonView::Array(p.commits.map_values(|c: (Seq<char>, Seq<char>)| commit_json(c))),
        ),
    ];
    let blocked = if p.blocking.len() > 0 {
        told.push(("blocking_errors"@, text_array(p.blocking)))
    } else {
        told
    };
    JsonView::Object(
        if p.already_committed {
            blocked.push(("already_committed"@, JsonView::Bool(true)))
        } else {
            blocked
        },
    )
}

/// A commit, as JSON.
pub open spec fn commit_json(c: (Seq<char>, Seq<char>)) -> JsonView {
    JsonView::Object(seq![("sha"@, JsonView::Text(c.0)), ("subject"@, JsonView::Text(c.1))])
}

/// The message for a publication that went wrong.
pub open spec fn publish_failure(p: PublicationView) -> Seq<char> {
    (if p.contract_sha is Some {
        "contract publish failed after partial push"@
    } else {
        "contract publish failed"@
    }) + ": "@ + joined(p.blocking, "; "@)
}

fn json_of_commit(c: &(String, String)) -> (r: Json)
    ensures
        r@ == commit_json((c.0@, c.1@)),
{
    let mut m: Vec<(String, Json)> = Vec::new();
    push_member(&mut m, "sha", text(c.0.as_str()));
    push_member(&mut m, "subject", text(c.1.as_str()));
    assert(members(m@) =~= commit_json((c.0@, c.1@))->Object_0);
    object(m)
}

/// A publication that went wrong: the message, and how far it came.
pub struct Failure {
    pub message: String,
    pub details: Json,
}

/// The answer to a publication that went wrong tells what was pushed, and each
/// thing that went wrong.
pub proof fn law_partial_state_told(p: PublicationView)
    requires
        p.blocking.len() > 0,
    ensures
        ({
            let a = failed_with_json(publish_failure(p), published_json(p)->Object_0);
            &&& member(a, "ok"@) == Some(JsonView::Bool(false))
            &&& member(a, "contract_pushed"@) == Some(JsonView::Bool(p.contract_sha is Some))
            &&& member(a, "marketplace_pushed"@) == Some(JsonView::Bool(p.marketplace_sha is Some))
            &&& member(a, "blocking_errors"@) == Some(text_array(p.blocking))
        }),
{
    let m = published_json(p)->Object_0;
    let e = publish_failure(p);
    reveal_strlit("ok");
    reveal_strlit("error");
    reveal_strlit("service");
    reveal_strlit("confirmed");
    reveal_strlit("contract_pushed");
    reveal_strlit("contract_sha");
    reveal_strlit("marketplace_pushed");
    reveal_strlit("marketplace_sha");
    reveal_strlit("catalog_written");
    reveal_strlit("commits");
    reveal_strlit("blocking_errors");
    law_failed_marker_overrides(e, m, "contract_pushed"@);
    law_failed_marker_overrides(e, m, "marketplace_pushed"@);
    law_failed_marker_overrides(e, m, "blocking_errors"@);
    assert(m[0].0 == "service"@ && m[1].0 == "confirmed"@ && m[2].0 == "contract_pushed"@);
    assert(m[3].0 == "contract_sha"@ && m[4].0 == "marketplace_pushed"@ && m[5].0 == "marketplace_sha"@);
    assert(m[6].0 == "catalog_written"@ && m[7].0 == "commits"@ && m[8] == ("blocking_errors"@, text_array(p.blocking)));
    assert("contract_pushed"@[0] == 'c' && "catalog_written"@[0] == 'c' && "blocking_errors"@[0] == 'b');
    reveal_with_fuel(member_from, 10);
}

/// The answer to a publication: what was done, with the message where it went
/// wrong.
pub fn publish_report(p: &Publication) -> (r: Result<Json, Failure>)
    ensures
        (match r {
            Ok(j) => p@.blocking.len() == 0 && j is Object && j@ == published_json(p@),
            Err(f) => p@.blocking.len() > 0 && f.message@ == publish_failure(p@) && f.details is Object && f.details@
                == published_json(p@),
        }),
{
    let told = published(p);
    assert(views(p.blocking@).len() == p.blocking@.len());
    if p.blocking.len() > 0 {
        let mut e: String = if p.contract_sha.is_some() {
            "contract publish failed after partial push".to_owned()
        } else {
            "contract publish failed".to_owned()
        };
        e.append(": ");
        e.append(join(&p.blocking, "; ").as_str());
        return Err(Failure { message: e, details: told });
    }
    Ok(told)
}

fn published(p: &Publication) -> (r: Json)
    ensures
        r is Object,
        r@ == published_json(p@),
{
    let mut list: Vec<Json> = Vec::new();
    let mut i: usize = 0;
    while i < p.commits.len()
        invariant
            0 <= i <= p.commits@.len(),
            list@.len() == i,
            forall|k: int| 0 <= k < i ==> (#[trigger] list@[k])@ == commit_json((p.commits@[k].0@, p.commits@[k].1@)),
        decreases p.commits.len() - i,
    {
        list.push(json_of_commit(&p.commits[i]));
        i = i + 1;
    }
    assert(elements(list@) =~= pair_views(p.commits@).map_values(|c: (Seq<char>, Seq<char>)| commit_json(c)));
    let catalog = if p.catalog_written {
        text(".jkit/marketplace-catalog.json")
    } else {
        Json::Null
    };
    let mut m: Vec<(String, Json)> = Vec::new();
    push_member(&mut m, "service", text(p.service.as_str()));
    push_member(&mut m, "confirmed", Json::Bool(true));
    push_member(&mut m, "contract_pushed", Json::Bool(p.contract_sha.is_some()));
    push_member(&mut m, "contract_sha", optional_text(&p.contract_sha));
    push_member(&mut m, "marketplace_pushed", Json::Bool(p.marketplace_sha.is_some()));
    push_member(&mut m, "marketplace_sha", optional_text(&p.marketplace_sha));
    push_member(&mut m, "catalog_written", catalog);
    push_member(&mut m, "commits", array(list));
    assert(views(p.blocking@).len() == p.blocking@.len());
    if p.blocking.len() > 0 {
        push_member(&mut m, "blocking_errors", texts(&p.blocking));
    }
    if p.already_committed {
        push_member(&mut m, "already_committed", Json::Bool(true));
    }
    assert(members(m@) =~= published_json(p@)->Object_0);
    object(m)
}

/// Whether an event is one that the step can end with.
pub open spec fn ends_step(step: Step, event: StepEventView) -> bool {
    match step {
        Step::PushContract | Step::UpdateMarketplace => event is Pushed,
        Step::UpdatePlugins | Step::WriteCatalog => event is Done,
        Step::RecentSubjects => event is Subjects,
        Step::CommitConfig | Step::CommitContract => event is Committed,
        Step::DryRun | Step::Finish => true,
    }
}

/// A confirmed publication that ends without fault, with commits wanted and not
/// made before, ends with the step that commits the contract: no other step
/// leads to the end.
pub proof fn law_contract_committed_last(p: PublicationView, step: Step, event: StepEventView)
    requires
        ends_step(step, event),
        !(step is DryRun) && !(step is Finish),
        publish_after(p, step, event).1 is Finish,
        publish_after(p, step, event).0.blocking.len() == 0,
        !publish_after(p, step, event).0.already_committed,
        !p.no_commit,
    ensures
        step is CommitContract,
        event matches StepEventView::Committed(Ok(sha)) && publish_after(p, step, event).0.commits == (match sha {
            Some(s) => p.commits.push((s, "chore(contract): publish service contract for "@ + p.service)),
            None => p.commits,
        }),
{
}

proof fn lemma_begins_with(p: Seq<char>, t: Seq<char>)
    ensures
        begins(p + t, p),
{
    assert((p + t).take(p.len() as int) =~= p);
}

/// A publication is taken for one that was made before where the last two
/// commits carry the subjects of one.
pub proof fn law_published_before(a: Seq<char>, b: Seq<char>, service: Seq<char>, modified: Seq<Seq<char>>)
    ensures
        published_before(seq!["chore(contract): publish service contract for "@ + a, "chore(contract): "@ + b]),
        published_before(seq![publish_subject(service), config_subject(modified)]),
{
    let second = "chore(contract): "@;
    lemma_begins_with("chore(contract): publish service contract for "@, a);
    lemma_begins_with("chore(contract): publish service contract for "@, service);
    lemma_begins_with(second, b);
    reveal_strlit("chore(contract): ");
    reveal_strlit("chore(contract): add ");
    let add = "chore(contract): add "@;
    assert(config_subject(modified).take(17) =~= add.take(17));
    assert(add.take(17) =~= second);
}

/// A publication is taken for one that was made before only where the last two
/// commits carry the subjects of one.
pub proof fn law_not_published_before(v: Seq<Seq<char>>)
    requires
        published_before(v),
    ensures
        v.len() == 2,
        v[0].len() >= "chore(contract): publish service contract for "@.len(),
        v[0].take("chore(contract): publish service contract for "@.len() as int)
            == "chore(contract): publish service contract for "@,
        v[1].len() >= "chore(contract): "@.len(),
        v[1].take("chore(contract): "@.len() as int) == "chore(contract): "@,
{
}

/// How many steps can still come.
pub open spec fn publish_steps_left(step: Step) -> nat {
    match step {
        Step::PushContract => 8,
        Step::UpdateMarketplace => 7,
        Step::UpdatePlugins => 6,
        Step::WriteCatalog => 5,
        Step::RecentSubjects => 4,
        Step::CommitConfig => 3,
        Step::CommitContract => 2,
        Step::DryRun => 1,
        Step::Finish => 0,
    }
}

/// A publication from a step on, where each step ends in this way: what is
/// known at the end, and the steps that were taken.
pub open spec fn publish_run(p: PublicationView, step: Step, world: spec_fn(Step) -> StepEventView) -> (
    PublicationView,
    Seq<Step>,
)
    decreases publish_steps_left(step),
{
    if step is Finish {
        (p, Seq::empty())
    } else {
        let next = publish_after(p, step, world(step));
        let rest = publish_run(next.0, next.1, world);
        (rest.0, seq![step] + rest.1)
    }
}

/// A publication where every step succeeds: the contract is pushed, then the
/// marketplace, the plugins are updated and the catalog is written. Then, where
/// commits are wanted and not there yet, the modified files are committed, if
/// there are any, and always the contract. Each commit is told with its subject.
pub proof fn law_publication_succeeds(
    cli: Seq<char>,
    service: Seq<char>,
    modified: Seq<Seq<char>>,
    no_commit: bool,
    world: spec_fn(Step) -> StepEventView,
    contract: Seq<char>,
    market: Seq<char>,
    subjects: Seq<Seq<char>>,
    config: Seq<char>,
    published: Seq<char>,
)
    requires
        world(Step::PushContract) == StepEventView::Pushed(Ok(contract)),
        world(Step::UpdateMarketplace) == StepEventView::Pushed(Ok(market)),
        world(Step::UpdatePlugins) == StepEventView::Done(Ok(())),
        world(Step::WriteCatalog) == StepEventView::Done(Ok(())),
        world(Step::RecentSubjects) == StepEventView::Subjects(subjects),
        world(Step::CommitConfig) == StepEventView::Committed(Ok(Some(config))),
        world(Step::CommitContract) == StepEventView::Committed(Ok(Some(published))),
    ensures
        ({
            let start = fresh(cli, service, modified, no_commit);
            let (q, steps) = publish_run(start, Step::PushContract, world);
            let pushed = seq![Step::PushContract, Step::UpdateMarketplace, Step::UpdatePlugins, Step::WriteCatalog];
            let one = (published, "chore(contract): publish service contract for "@ + service);
            &&& q.contract_sha == Some(contract) && q.marketplace_sha == Some(market) && q.catalog_written
            &&& q.blocking.len() == 0
            &&& q.already_committed <==> !no_commit && published_before(subjects)
            &&& no_commit ==> steps == pushed && q.commits.len() == 0
            &&& !no_commit && published_before(subjects) ==> steps == pushed + seq![Step::RecentSubjects]
                && q.commits.len() == 0
            &&& !no_commit && !published_before(subjects) && modified.len() > 0 ==> steps == pushed + seq![
                Step::RecentSubjects,
                Step::CommitConfig,
                Step::CommitContract,
            ] && q.commits == seq![(config, config_subject(modified)), one]
            &&& !no_commit && !published_before(subjects) && modified.len() == 0 ==> steps == pushed + seq![
                Step::RecentSubjects,
                Step::CommitContract,
            ] && q.commits == seq![one]
        }),
{
    let p0 = fresh(cli, service, modified, no_commit);
    let p1 = PublicationView { contract_sha: Some(contract), ..p0 };
    let p2 = PublicationView { marketplace_sha: Some(market), ..p1 };
    let p3 = PublicationView { catalog_written: true, ..p2 };
    reveal_with_fuel(publish_run, 9);
    let r = publish_run(p0, Step::PushContract, world);
    let pushed = seq![Step::PushContract, Step::UpdateMarketplace, Step::UpdatePlugins, Step::WriteCatalog];
    if no_commit {
        assert(r.1 =~= pushed);
    } else {
        let s = publish_run(p3, Step::RecentSubjects, world);
        assert(r.0 == s.0);
        assert(r.1 =~= pushed + s.1);
        if published_before(subjects) {
            assert(s.1 =~= seq![Step::RecentSubjects]);
        } else if modified.len() > 0 {
            assert(s.1 =~= seq![Step::RecentSubjects, Step::CommitConfig, Step::CommitContract]);
        } else {
            assert(s.1 =~= seq![Step::RecentSubjects, Step::CommitContract]);
        }
    }
}

/// A publication where something goes wrong: a push that fails is the last step,
/// and tells why. Plugins that are not updated do not keep the catalog from
/// being written; but nothing is committed then, nor where the catalog is not
/// written.
pub proof fn law_publication_fails(
    cli: Seq<char>,
    service: Seq<char>,
    modified: Seq<Seq<char>>,
    no_commit: bool,
    world: spec_fn(Step) -> StepEventView,
    e: Seq<char>,
)
    requires
        forall|step: Step| ends_step(step, #[trigger] world(step)),
    ensures
        ({
            let start = fresh(cli, service, modified, no_commit);
            let (q, steps) = publish_run(start, Step::PushContract, world);
            let pushed = world(Step::PushContract) matches StepEventView::Pushed(Ok(_));
            let listed = world(Step::UpdateMarketplace) matches StepEventView::Pushed(Ok(_));
            let updated = world(Step::UpdatePlugins) matches StepEventView::Done(Ok(_));
            let written = world(Step::WriteCatalog) matches StepEventView::Done(Ok(_));
            &&& world(Step::PushContract) == StepEventView::Pushed(Err(e)) ==> steps == seq![Step::PushContract] && q
                == PublicationView { blocking: seq!["contract push failed: "@ + e], ..start }
            &&& pushed && world(Step::UpdateMarketplace) == StepEventView::Pushed(Err(e)) ==> steps == seq![
                Step::PushContract,
                Step::UpdateMarketplace,
            ] && q.blocking == seq!["marketplace push failed: "@ + e] && q.contract_sha is Some && q.marketplace_sha is None
                && !q.catalog_written && q.commits.len() == 0
            &&& pushed && listed && (!updated || !written) ==> steps == seq![
                Step::PushContract,
                Step::UpdateMarketplace,
                Step::UpdatePlugins,
                Step::WriteCatalog,
            ] && q.catalog_written == written && q.commits.len() == 0 && q.contract_sha is Some && q.marketplace_sha is Some
            &&& pushed && listed && world(Step::UpdatePlugins) == StepEventView::Done(Err(e)) && written ==> q.blocking
                == seq!["`"@ + cli + " plugin marketplace update` failed: "@ + e]
            &&& pushed && listed && updated && world(Step::WriteCatalog) == StepEventView::Done(Err(e)) ==> q.blocking
                == seq!["failed to write catalog: "@ + e]
        }),
{
    let p0 = fresh(cli, service, modified, no_commit);
    reveal_with_fuel(publish_run, 9);
    let r = publish_run(p0, Step::PushContract, world);
    let e0 = world(Step::PushContract);
    let e1 = world(Step::UpdateMarketplace);
    let e2 = world(Step::UpdatePlugins);
    let e3 = world(Step::WriteCatalog);
    assert(ends_step(Step::PushContract, e0) && ends_step(Step::UpdateMarketplace, e1));
    assert(ends_step(Step::UpdatePlugins, e2) && ends_step(Step::WriteCatalog, e3));
    if e0 matches StepEventView::Pushed(Err(_)) {
        assert(r.1 =~= seq![Step::PushContract]);
        assert(r.0.blocking =~= seq!["contract push failed: "@ + e0->Pushed_0->Err_0]);
        assert(r.0 =~= PublicationView { blocking: seq!["contract push failed: "@ + e0->Pushed_0->Err_0], ..p0 });
    } else if e1 matches StepEventView::Pushed(Err(_)) {
        assert(r.1 =~= seq![Step::PushContract, Step::UpdateMarketplace]);
        assert(r.0.blocking =~= seq!["marketplace push failed: "@ + e1->Pushed_0->Err_0]);
    } else if e2 matches StepEventView::Done(Err(_)) {
        assert(r.1 =~= seq![Step::PushContract, Step::UpdateMarketplace, Step::UpdatePlugins, Step::WriteCatalog]);
        let why = "`"@ + cli + " plugin marketplace update` failed: "@ + e2->Done_0->Err_0;
        if e3 matches StepEventView::Done(Ok(_)) {
            assert(r.0.blocking =~= seq![why]);
        }
    } else if e3 matches StepEventView::Done(Err(_)) {
        assert(r.1 =~= seq![Step::PushContract, Step::UpdateMarketplace, Step::UpdatePlugins, Step::WriteCatalog]);
        assert(r.0.blocking =~= seq!["failed to write catalog: "@ + e3->Done_0->Err_0]);
    }
}

/// A commit that fails is told, and nothing is committed after it.
pub proof fn law_commit_failure_told(p: PublicationView, e: Seq<char>)
    ensures
        publish_after(p, Step::CommitConfig, StepEventView::Committed(Err(e))) == (
            PublicationView { blocking: p.blocking.push("commit failed: "@ + e), ..p },
            Step::Finish,
        ),
        publish_after(p, Step::CommitContract, StepEventView::Committed(Err(e))) == (
            PublicationView { blocking: p.blocking.push("commit failed: "@ + e), ..p },
            Step::Finish,
        ),
{
}

/// A first push: a repository that is not there yet is made, the remote has no
/// branch, everything is committed under the name of the service, and what is
/// pushed is the commit that is there then.
pub proof fn law_first_push(
    repo: Seq<char>,
    service: Seq<char>,
    dir: Seq<char>,
    git: spec_fn(Seq<Seq<char>>) -> Option<Output>,
)
    requires
        succeeds(git(seq!["init"@, "-q"@, "-b"@, "main"@])),
        succeeds(git(seq!["add"@, "-A"@])),
        git(seq!["ls-remote"@, "--exit-code"@, "--heads"@, repo]) is Some,
        !succeeds(git(seq!["ls-remote"@, "--exit-code"@, "--heads"@, repo])),
        succeeds(git(seq!["status"@, "--porcelain"@])),
        trimmed(lossy_text(git(seq!["status"@, "--porcelain"@])->0.stdout@)).len() > 0,
        succeeds(git(initial_commit(service))),
        succeeds(git(seq!["remote"@, "add"@, "origin"@, repo])),
        succeeds(git(seq!["push"@, "-u"@, "origin"@, "HEAD:main"@])),
        succeeds(git(seq!["rev-parse"@, "HEAD"@])),
    ensures
        push_run(PushStep::Init, repo, service, Seq::empty(), dir, git) == (
            seq![
                seq!["init"@, "-q"@, "-b"@, "main"@],
                seq!["add"@, "-A"@],
                seq!["ls-remote"@, "--exit-code"@, "--heads"@, repo],
                seq!["status"@, "--porcelain"@],
                initial_commit(service),
                seq!["remote"@, "remove"@, "origin"@],
                seq!["remote"@, "add"@, "origin"@, repo],
                seq!["push"@, "-u"@, "origin"@, "HEAD:main"@],
                seq!["rev-parse"@, "HEAD"@],
            ],
            PushNextView::Pushed(trimmed(lossy_text(git(seq!["rev-parse"@, "HEAD"@])->0.stdout@))),
        ),
{
    let heads = git(seq!["ls-remote"@, "--exit-code"@, "--heads"@, repo])->0.stdout@;
    let none = Seq::<u8>::empty();
    let sha = trimmed(lossy_text(git(seq!["rev-parse"@, "HEAD"@])->0.stdout@));
    let last = push_run(PushStep::Revision, repo, service, heads, dir, git);
    let push = push_run(PushStep::Push, repo, service, heads, dir, git);
    let origin = push_run(PushStep::AddOrigin, repo, service, heads, dir, git);
    let remove = push_run(PushStep::RemoveOrigin, repo, service, heads, dir, git);
    let commit = push_run(PushStep::Commit, repo, service, heads, dir, git);
    let status = push_run(PushStep::Status, repo, service, heads, dir, git);
    let probe = push_run(PushStep::Probe, repo, service, none, dir, git);
    let added = push_run(PushStep::Add, repo, service, none, dir, git);
    let all = push_run(PushStep::Init, repo, service, none, dir, git);
    assert(last == (seq![seq!["rev-parse"@, "HEAD"@]], PushNextView::Pushed(sha)));
    assert(push == (seq![seq!["push"@, "-u"@, "origin"@, "HEAD:main"@]] + last.0, last.1));
    assert(origin == (seq![seq!["remote"@, "add"@, "origin"@, repo]] + push.0, push.1));
    assert(remove == (seq![seq!["remote"@, "remove"@, "origin"@]] + origin.0, origin.1));
    assert(commit == (seq![initial_commit(service)] + remove.0, remove.1));
    assert(status == (seq![seq!["status"@, "--porcelain"@]] + commit.0, commit.1));
    assert(probe == (seq![seq!["ls-remote"@, "--exit-code"@, "--heads"@, repo]] + status.0, status.1));
    assert(added == (seq![seq!["add"@, "-A"@]] + probe.0, probe.1));
    assert(all == (seq![seq!["init"@, "-q"@, "-b"@, "main"@]] + added.0, added.1));
}

/// The command that makes the first commit of a contract.
pub open spec fn initial_commit(service: Seq<char>) -> Seq<Seq<char>> {
    seq![
        "-c"@,
        "user.email=kit@local"@,
        "-c"@,
        "user.name=kit"@,
        "commit"@,
        "-q"@,
        "-m"@,
        "contract("@ + service + "): initial publish"@,
    ]
}

/// A remote with a branch whose commit is not known here is not pushed to:
/// nothing follows the question.
pub proof fn law_foreign_remote_refused(
    repo: Seq<char>,
    service: Seq<char>,
    dir: Seq<char>,
    heads: Seq<u8>,
    git: spec_fn(Seq<Seq<char>>) -> Option<Output>,
)
    requires
        succeeds(git(seq!["ls-remote"@, "--exit-code"@, "--heads"@, repo])),
        git(seq!["ls-remote"@, "--exit-code"@, "--heads"@, repo])->0.stdout@ == heads,
        ({
            let known = git(seq!["cat-file"@, "-e"@, remote_commit(lossy_text(heads)) + "^{commit}"@]);
            known is Some && !succeeds(known)
        }),
    ensures
        push_run(PushStep::Probe, repo, service, Seq::empty(), dir, git) == (
            seq![
                seq!["ls-remote"@, "--exit-code"@, "--heads"@, repo],
                seq!["cat-file"@, "-e"@, remote_commit(lossy_text(heads)) + "^{commit}"@],
            ],
            PushNextView::Failed(
                "contract repo must be empty for first push — auto-generated README will collide"@,
            ),
        ),
{
    let known = push_run(PushStep::Known, repo, service, heads, dir, git);
    assert(known == (
        seq![seq!["cat-file"@, "-e"@, remote_commit(lossy_text(heads)) + "^{commit}"@]],
        PushNextView::Failed(not_empty()),
    ));
    let probe = push_run(PushStep::Probe, repo, service, Seq::empty(), dir, git);
    assert(probe == (seq![seq!["ls-remote"@, "--exit-code"@, "--heads"@, repo]] + known.0, known.1));
}

/// What is asked of the remote is its first commit: what stands before the
/// first tab, and without a tab the whole, trimmed.
pub proof fn law_remote_commit(sha: Seq<char>, rest: Seq<char>)
    requires
        !sha.contains('\t'),
    ensures
        remote_commit(sha + "\t"@ + rest) == sha,
        remote_commit(sha) == trimmed(sha),
{
    reveal_strlit("\t");
    let tab = "\t"@;
    assert(tab.len() == 1 && tab[0] == '\t');
    let s = sha + tab + rest;
    law_split_at_first(s, tab, sha, rest);
    let q = split_at_first(s, tab)->0;
    if q.0.len() < sha.len() {
        assert(s[q.0.len() as int] == '\t');
        assert(s[q.0.len() as int] == sha[q.0.len() as int]);
    }
    assert(q.0 =~= s.take(sha.len() as int));
    assert(s.take(sha.len() as int) =~= sha);
    if let Some(q) = split_at_first(sha, tab) {
        law_split_at_first(sha, tab, q.0, q.1);
        assert(sha[q.0.len() as int] == '\t');
    }
}

/// A command that has to succeed and does not ends the push with its message,
/// which names the directory and what `git` said.
pub proof fn law_push_failure_told(step: PushStep, args: Seq<Seq<char>>, dir: Seq<char>, o: Output)
    requires
        !o.success,
    ensures
        step is Init || step is Add || step is Commit || step is AddOrigin || step is Push ==> push_after(
            step,
            args,
            dir,
            Some(o),
        ) == PushNextView::Failed(
            "git "@ + debug_list(args) + " failed in "@ + dir + ": "@ + trimmed(lossy_text(o.stderr@)),
        ),
        step is Status || step is Revision ==> push_after(step, args, dir, Some(o)) == PushNextView::Failed(
            "git "@ + debug_list(args) + " failed: "@ + trimmed(lossy_text(o.stderr@)),
        ),
        push_after(PushStep::RemoveOrigin, args, dir, Some(o)) == PushNextView::Do(PushStep::AddOrigin),
        push_after(PushStep::RemoveOrigin, args, dir, None) == PushNextView::Do(PushStep::AddOrigin),
        !(step is Probe) && !(step is RemoveOrigin) ==> push_after(step, args, dir, None) == PushNextView::Failed(
            "git invocation failed"@,
        ),
        push_after(PushStep::Probe, args, dir, None) == PushNextView::Failed("git ls-remote failed"@),
{
}

/// How many steps can still come.
pub open spec fn market_steps_left(step: MarketStep) -> nat {
    match step {
        MarketStep::Clone => 6,
        MarketStep::Edit => 5,
        MarketStep::Add => 4,
        MarketStep::Status => 3,
        MarketStep::Commit => 2,
        MarketStep::Push => 1,
        MarketStep::Revision => 0,
    }
}

/// An update of the marketplace from a step on, where `git` answers each command
/// in this way: the steps that are taken, and how it ends.
pub open spec fn market_run(
    step: MarketStep,
    repo: Seq<char>,
    dir: Seq<char>,
    service: Seq<char>,
    git: spec_fn(MarketStep) -> Option<Output>,
) -> (Seq<MarketStep>, MarketNextView)
    decreases market_steps_left(step),
{
    let args = market_arguments(step, repo, dir, service);
    match market_after(step, repo, args, dir, git(step)) {
        MarketNextView::Do(next) => {
            let rest = market_run(next, repo, dir, service, git);
            (seq![step] + rest.0, rest.1)
        },
        end => (seq![step], end),
    }
}

/// The marketplace is cloned, edited and pushed, with a commit exactly where the
/// edit changed something; what is told is the commit that is there then. It is
/// pushed exactly where every command that was needed succeeded.
pub proof fn law_marketplace_pushed(
    repo: Seq<char>,
    dir: Seq<char>,
    service: Seq<char>,
    git: spec_fn(MarketStep) -> Option<Output>,
)
    ensures
        ({
            let (steps, end) = market_run(MarketStep::Clone, repo, dir, service, git);
            let ready = succeeds(git(MarketStep::Clone)) && succeeds(git(MarketStep::Add)) && succeeds(
                git(MarketStep::Status),
            );
            let changed = trimmed(lossy_text(git(MarketStep::Status)->0.stdout@)).len() > 0;
            let done = succeeds(git(MarketStep::Push)) && succeeds(git(MarketStep::Revision));
            &&& end is Pushed <==> ready && (changed ==> succeeds(git(MarketStep::Commit))) && done
            &&& end matches MarketNextView::Pushed(sha) ==> sha == trimmed(
                lossy_text(git(MarketStep::Revision)->0.stdout@),
            ) && steps == (if changed {
                seq![
                    MarketStep::Clone,
                    MarketStep::Edit,
                    MarketStep::Add,
                    MarketStep::Status,
                    MarketStep::Commit,
                    MarketStep::Push,
                    MarketStep::Revision,
                ]
            } else {
                seq![
                    MarketStep::Clone,
                    MarketStep::Edit,
                    MarketStep::Add,
                    MarketStep::Status,
                    MarketStep::Push,
                    MarketStep::Revision,
                ]
            })
            &&& !succeeds(git(MarketStep::Clone)) ==> steps == seq![MarketStep::Clone] && end == MarketNextView::Failed(
                "marketplace repo missing or unreachable: "@ + repo + " — create it, or check access, and re-run"@,
            )
            &&& !(end is Do)
        }),
{
    reveal_with_fuel(market_run, 8);
    let r = market_run(MarketStep::Clone, repo, dir, service, git);
    if r.1 is Pushed {
        if trimmed(lossy_text(git(MarketStep::Status)->0.stdout@)).len() > 0 {
            assert(r.0 =~= seq![
                MarketStep::Clone,
                MarketStep::Edit,
                MarketStep::Add,
                MarketStep::Status,
                MarketStep::Commit,
                MarketStep::Push,
                MarketStep::Revision,
            ]);
        } else {
            assert(r.0 =~= seq![
                MarketStep::Clone,
                MarketStep::Edit,
                MarketStep::Add,
                MarketStep::Status,
                MarketStep::Push,
                MarketStep::Revision,
            ]);
        }
    }
}

/// A step of an update of the marketplace that fails ends it with its message;
/// after the edit the file is staged.
pub proof fn law_marketplace_failure_told(step: MarketStep, repo: Seq<char>, args: Seq<Seq<char>>, dir: Seq<char>, o: Output)
    requires
        !o.success,
    ensures
        step is Add || step is Commit || step is Push ==> market_after(step, repo, args, dir, Some(o))
            == MarketNextView::Failed(
            "git "@ + debug_list(args) + " failed in "@ + dir + ": "@ + trimmed(lossy_text(o.stderr@)),
        ),
        step is Status || step is Revision ==> market_after(step, repo, args, dir, Some(o)) == MarketNextView::Failed(
            "git "@ + debug_list(args) + " failed: "@ + trimmed(lossy_text(o.stderr@)),
        ),
        !(step is Clone) && !(step is Edit) ==> market_after(step, repo, args, dir, None) == MarketNextView::Failed(
            "git invocation failed"@,
        ),
        market_after(MarketStep::Edit, repo, args, dir, None) == MarketNextView::Do(MarketStep::Add),
{
}

/// A step of a commit in the project that cannot be run ends it with its message,
/// and so does a list of staged files that cannot be had.
pub proof fn law_stage_failure_told(subject: Seq<char>, o: Output)
    requires
        !o.success,
    ensures
        stage_after(StageStep::Add, subject, None) == StageNextView::Failed("git add failed"@),
        stage_after(StageStep::Staged, subject, None) == StageNextView::Failed("failed to invoke git"@),
        stage_after(StageStep::Commit, subject, None) == StageNextView::Failed("git commit failed"@),
        stage_after(StageStep::Staged, subject, Some(o)) == StageNextView::Failed(
            "git failed: "@ + trimmed(lossy_text(o.stderr@)),
        ),
{
}

/// The commands that an update of the marketplace runs.
pub proof fn law_marketplace_commands(repo: Seq<char>, dir: Seq<char>, service: Seq<char>)
    ensures
        market_arguments(MarketStep::Clone, repo, dir, service) == seq!["clone"@, "--depth"@, "1"@, repo, dir],
        market_arguments(MarketStep::Add, repo, dir, service) == seq!["add"@, "marketplace.json"@],
        market_arguments(MarketStep::Commit, repo, dir, service).last() == "chore(marketplace): publish "@ + plugin_of(
            service,
        ),
        market_arguments(MarketStep::Commit, repo, dir, service).drop_last() == initial_commit(service).drop_last(),
        market_arguments(MarketStep::Push, repo, dir, service) == seq!["push"@, "origin"@, "HEAD"@],
        market_arguments(MarketStep::Status, repo, dir, service) == push_arguments(PushStep::Status, repo, service, Seq::empty()),
        market_arguments(MarketStep::Revision, repo, dir, service) == push_arguments(PushStep::Revision, repo, service, Seq::empty()),
{
    assert(market_arguments(MarketStep::Commit, repo, dir, service).drop_last() =~= initial_commit(service).drop_last());
}

/// A commit in the project from a step on, where `git` answers each step in this
/// way: the steps that are taken, and how it ends.
pub open spec fn stage_run(step: StageStep, subject: Seq<char>, git: spec_fn(StageStep) -> Option<Output>) -> (
    Seq<StageStep>,
    StageNextView,
)
    decreases
            (match step {
                StageStep::Add => 2int,
                StageStep::Staged => 1,
                StageStep::Commit => 0,
            }),
{
    match stage_after(step, subject, git(step)) {
        StageNextView::Do(next) => {
            let rest = stage_run(next, subject, git);
            (seq![step] + rest.0, rest.1)
        },
        end => (seq![step], end),
    }
}

/// A commit in the project is made exactly where the files could be staged and
/// something is staged then. It ends well where every command that was needed
/// succeeded, and else tells which did not.
pub proof fn law_stage_committed(subject: Seq<char>, git: spec_fn(StageStep) -> Option<Output>)
    ensures
        ({
            let (steps, end) = stage_run(StageStep::Add, subject, git);
            let ready = succeeds(git(StageStep::Add)) && succeeds(git(StageStep::Staged));
            let staged = trimmed(lossy_text(git(StageStep::Staged)->0.stdout@)).len() > 0;
            &&& steps.contains(StageStep::Commit) <==> ready && staged
            &&& end is Done <==> ready && (staged ==> succeeds(git(StageStep::Commit)))
            &&& git(StageStep::Add) matches Some(o) ==> !o.success ==> end == StageNextView::Failed(
                "git add failed: "@ + trimmed(lossy_text(o.stderr@)),
            )
            &&& ready && staged ==> (git(StageStep::Commit) matches Some(o) ==> !o.success ==> end
                == StageNextView::Failed(
                "git commit failed for '"@ + subject + "': "@ + trimmed(lossy_text(o.stderr@)),
            ))
            &&& !(end is Do)
        }),
{
    reveal_with_fuel(stage_run, 4);
    let r = stage_run(StageStep::Add, subject, git);
    if succeeds(git(StageStep::Add)) {
        assert(r.0[0] == StageStep::Add && r.0[1] == StageStep::Staged);
        if succeeds(git(StageStep::Staged)) && trimmed(lossy_text(git(StageStep::Staged)->0.stdout@)).len() > 0 {
            assert(r.0[2] == StageStep::Commit);
        } else {
            assert(r.0 =~= seq![StageStep::Add, StageStep::Staged]);
        }
    } else {
        assert(r.0 =~= seq![StageStep::Add]);
    }
}

/// Exactly the files are staged, and what is committed carries the subject.
pub proof fn law_stage_commands(files: Seq<Seq<char>>, subject: Seq<char>, i: int)
    requires
        0 <= i < files.len(),
    ensures
        stage_arguments(StageStep::Add, files, subject).len() == files.len() + 2,
        stage_arguments(StageStep::Add, files, subject)[0] == "add"@,
        stage_arguments(StageStep::Add, files, subject)[1] == "--"@,
        stage_arguments(StageStep::Add, files, subject)[i + 2] == files[i],
        stage_arguments(StageStep::Staged, files, subject) == seq!["diff"@, "--cached"@, "--name-only"@],
        stage_arguments(StageStep::Commit, files, subject) == seq!["commit"@, "-q"@, "-m"@, subject],
{
}

/// An update by the tool went wrong exactly where the tool is missing, could not
/// be run, or failed; what it said is told, where it said anything.
pub proof fn law_update_failure(cli: Seq<char>, package: Seq<char>, name: Seq<char>, on_path: bool, out: Option<Ended>)
    ensures
        update_failure(cli, package, name, on_path, out) is None <==> on_path && (out matches Some(o) && o.success),
        !on_path ==> update_failure(cli, package, name, on_path, out) == Some(
            "`"@ + cli + "` CLI not on PATH — install with `npm install -g "@ + package + "`"@,
        ),
        on_path && out is None ==> update_failure(cli, package, name, on_path, out) == Some(
            "failed to invoke `"@ + cli + " plugin marketplace update`"@,
        ),
        on_path ==> (out matches Some(o) ==> !o.success ==> ({
            let told = "`"@ + cli + " plugin marketplace update "@ + name + "` exited "@ + code_text(o.code) + ": "@;
            let why = trimmed(lossy_text(o.stderr@));
            &&& why.len() > 0 ==> update_failure(cli, package, name, on_path, out) == Some(told + why)
            &&& why.len() == 0 ==> update_failure(cli, package, name, on_path, out) == Some(told + "(no stderr)"@)
        })),
{
}

/// The answer to a publication tells what was pushed and written, and each
/// commit with its subject, in order.
#[verifier::rlimit(40)]
#[verifier::spinoff_prover]
pub proof fn law_publication_told(p: PublicationView, i: int)
    requires
        0 <= i < p.commits.len(),
    ensures
        ({
            let j = published_json(p);
            &&& member(j, "service"@) == Some(JsonView::Text(p.service))
            &&& member(j, "confirmed"@) == Some(JsonView::Bool(true))
            &&& member(j, "contract_pushed"@) == Some(JsonView::Bool(p.contract_sha is Some))
            &&& member(j, "contract_sha"@) == Some(
                match p.contract_sha {
                    Some(s) => JsonView::Text(s),
                    None => JsonView::Null,
                },
            )
            &&& member(j, "marketplace_pushed"@) == Some(JsonView::Bool(p.marketplace_sha is Some))
            &&& member(j, "marketplace_sha"@) == Some(
                match p.marketplace_sha {
                    Some(s) => JsonView::Text(s),
                    None => JsonView::Null,
                },
            )
            &&& member(j, "catalog_written"@) == Some(
                if p.catalog_written {
                    JsonView::Text(".jkit/marketplace-catalog.json"@)
                } else {
                    JsonView::Null
                },
            )
            &&& member(j, "commits"@) matches Some(JsonView::Array(a)) && a.len() == p.commits.len() && member(
                a[i],
                "sha"@,
            ) == Some(JsonView::Text(p.commits[i].0)) && member(a[i], "subject"@) == Some(
                JsonView::Text(p.commits[i].1),
            )
            &&& member(j, "blocking_errors"@) == (if p.blocking.len() > 0 {
                Some(text_array(p.blocking))
            } else {
                None
            })
            &&& member(j, "already_committed"@) == (if p.already_committed {
                Some(JsonView::Bool(true))
            } else {
                None
            })
        }),
{
    let m = published_json(p)->Object_0;
    reveal_strlit("service");
    reveal_strlit("confirmed");
    reveal_strlit("contract_pushed");
    reveal_strlit("contract_sha");
    reveal_strlit("marketplace_pushed");
    reveal_strlit("marketplace_sha");
    reveal_strlit("catalog_written");
    reveal_strlit("commits");
    reveal_strlit("blocking_errors");
    reveal_strlit("already_committed");
    reveal_strlit("sha");
    reveal_strlit("subject");
    assert("service"@[0] == 's' && "commits"@[0] == 'c' && "marketplace_sha"@[0] == 'm');
    assert("contract_pushed"@[1] == 'o' && "catalog_written"@[1] == 'a' && "blocking_errors"@[0] == 'b');
    assert("sha"@.len() == 3 && "subject"@.len() == 7);
    assert(m[0].0 == "service"@ && m[1].0 == "confirmed"@ && m[2].0 == "contract_pushed"@);
    assert(m[3].0 == "contract_sha"@ && m[4].0 == "marketplace_pushed"@ && m[5].0 == "marketplace_sha"@);
    assert(m[6].0 == "catalog_written"@ && m[7].0 == "commits"@);
    assert("service"@.len() == 7 && "confirmed"@.len() == 9 && "contract_pushed"@.len() == 15);
    assert("contract_sha"@.len() == 12 && "marketplace_pushed"@.len() == 18 && "marketplace_sha"@.len() == 15);
    assert("catalog_written"@.len() == 15 && "commits"@.len() == 7 && "blocking_errors"@.len() == 15);
    assert("already_committed"@.len() == 17);
    reveal_with_fuel(member_from, 12);
    assert(member_from(m, "service"@, 0) == Some(0int));
    assert(member_from(m, "confirmed"@, 0) == Some(1int));
    assert(member_from(m, "contract_pushed"@, 0) == Some(2int));
    assert(member_from(m, "contract_sha"@, 0) == Some(3int));
    assert(member_from(m, "marketplace_pushed"@, 0) == Some(4int));
    assert(member_from(m, "marketplace_sha"@, 0) == Some(5int));
    assert(member_from(m, "catalog_written"@, 0) == Some(6int));
    assert(member_from(m, "commits"@, 0) == Some(7int));
    let a = m[7].1->Array_0;
    assert(a[i] == commit_json(p.commits[i]));
    let c = a[i]->Object_0;
    assert(c[0].0 == "sha"@ && c[1].0 == "subject"@);
    assert(member_from(c, "sha"@, 0) == Some(0int));
    assert(member_from(c, "subject"@, 0) == Some(1int));
    if p.blocking.len() > 0 {
        assert(m[8].0 == "blocking_errors"@);
        assert(member_from(m, "blocking_errors"@, 0) == Some(8int));
        if p.already_committed {
            assert(m[9].0 == "already_committed"@);
            assert(member_from(m, "already_committed"@, 0) == Some(9int));
        } else {
            assert(m.len() == 9);
            assert(member_from(m, "already_committed"@, 0) is None);
        }
    } else if p.already_committed {
        assert(m[8].0 == "already_committed"@);
        assert(m.len() == 9);
        assert(member_from(m, "already_committed"@, 0) == Some(8int));
        assert(member_from(m, "blocking_errors"@, 0) is None);
    } else {
        assert(m.len() == 8);
        assert(member_from(m, "already_committed"@, 0) is None);
        assert(member_from(m, "blocking_errors"@, 0) is None);
    }
}

/// What went wrong is told in full, in order, and whether something had been
/// pushed by then.
pub proof fn law_failure_message(p: PublicationView, x: Seq<char>, y: Seq<char>)
    ensures
        p.blocking == seq![x] && p.contract_sha is None ==> publish_failure(p) == "contract publish failed"@ + ": "@ + x,
        p.blocking == seq![x] && p.contract_sha is Some ==> publish_failure(p)
            == "contract publish failed after partial push"@ + ": "@ + x,
        p.blocking == seq![x, y] && p.contract_sha is Some ==> publish_failure(p)
            == "contract publish failed after partial push"@ + ": "@ + (x + "; "@ + y),
{
    law_joined(seq![x], seq![y], x, "; "@);
    law_joined(seq![x], seq![y], y, "; "@);
    assert(seq![x] + seq![y] =~= seq![x, y]);
}

} // verus!
