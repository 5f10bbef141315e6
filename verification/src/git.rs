//! What is asked of `git`, and what its output says.

use crate::contracts::{keeps_places, lemma_places_more};
use crate::text::{
    decimal, digits, from_utf8_lossy, law_split_where_it_stands, lines, lines_of, lossy_text, push_text,
    split_at_first, split_once, trim, trimmed, views,
};
use vstd::prelude::*;

verus! {

/// What a command printed, and whether it succeeded.
pub struct Output {
    pub success: bool,
    pub stdout: Vec<u8>,
    pub stderr: Vec<u8>,
}

/// What `git` printed, or the message for its failure.
pub open spec fn printed(out: Output) -> Result<Seq<char>, Seq<char>> {
    if out.success {
        Ok(lossy_text(out.stdout@))
    } else {
        Err("git failed: "@ + trimmed(lossy_text(out.stderr@)))
    }
}

/// What `git` printed, or the message for its failure.
pub fn git_stdout(out: &Output) -> (r: Result<String, String>)
    ensures
        (match r {
            Ok(s) => printed(*out) == Ok::<Seq<char>, Seq<char>>(s@),
            Err(e) => printed(*out) == Err::<Seq<char>, Seq<char>>(e@),
        }),
{
    if out.success {
        Ok(from_utf8_lossy(&out.stdout))
    } else {
        let mut e: String = "git failed: ".to_owned();
        e.append(trim(from_utf8_lossy(&out.stderr).as_str()).as_str());
        Err(e)
    }
}

/// The arguments that ask for the current commit.
pub fn head_args() -> (r: Vec<String>)
    ensures
        views(r@) == seq!["rev-parse"@, "HEAD"@],
{
    let mut v: Vec<String> = Vec::new();
    push_text(&mut v, "rev-parse");
    push_text(&mut v, "HEAD");
    assert(views(v@) =~= seq!["rev-parse"@, "HEAD"@]);
    v
}

/// The current commit, from what `git rev-parse HEAD` printed.
pub fn rev_parse_head(out: &Output) -> (r: Result<String, String>)
    ensures
        (match r {
            Ok(s) => printed(*out) matches Ok(t) && s@ == trimmed(t),
            Err(e) => printed(*out) == Err::<Seq<char>, Seq<char>>(e@),
        }),
{
    match git_stdout(out) {
        Ok(s) => Ok(trim(s.as_str())),
        Err(e) => Err(e),
    }
}

/// The arguments that ask for the commits that added a path, newest first.
pub fn added_args(path: &str) -> (r: Vec<String>)
    ensures
        views(r@) == seq!["log"@, "--diff-filter=A"@, "--format=%H"@, "--"@, path@],
{
    let mut v: Vec<String> = Vec::new();
    push_text(&mut v, "log");
    push_text(&mut v, "--diff-filter=A");
    push_text(&mut v, "--format=%H");
    push_text(&mut v, "--");
    push_text(&mut v, path);
    assert(views(v@) =~= seq!["log"@, "--diff-filter=A"@, "--format=%H"@, "--"@, path@]);
    v
}

/// The last line without the white space around it, where that leaves
/// something.
pub open spec fn last_line(text: Seq<char>) -> Option<Seq<char>> {
    let all = lines_of(text);
    if all.len() > 0 && trimmed(all.last()).len() > 0 {
        Some(trimmed(all.last()))
    } else {
        None
    }
}

/// The last line without the white space around it, where that leaves
/// something.
pub fn last_line_of(text: &str) -> (r: Option<String>)
    ensures
        r is Some == last_line(text@) is Some,
        r matches Some(s) ==> last_line(text@) == Some(s@),
{
    let all = lines(text);
    let n: usize = all.len();
    assert(views(all@).len() == n);
    if n == 0 {
        return None;
    }
    assert(views(all@)[n - 1] == all@[n - 1]@);
    let t = trim(all[n - 1].as_str());
    if t.as_str().is_empty() {
        None
    } else {
        Some(t)
    }
}

/// The commit that introduced a path, from what `git log` printed of the
/// commits that added it: the oldest, which comes last.
pub fn first_commit_for_path(out: &Output) -> (r: Result<Option<String>, String>)
    ensures
        (match r {
            Ok(None) => printed(*out) matches Ok(t) && last_line(t) is None,
            Ok(Some(s)) => printed(*out) matches Ok(t) && last_line(t) == Some(s@),
            Err(e) => printed(*out) == Err::<Seq<char>, Seq<char>>(e@),
        }),
{
    match git_stdout(out) {
        Ok(s) => Ok(last_line_of(s.as_str())),
        Err(e) => Err(e),
    }
}

/// The commits after `from` up to `to`, or all up to `to`.
pub open spec fn range(from: Option<Seq<char>>, to: Seq<char>) -> Seq<char> {
    match from {
        Some(f) => f + ".."@ + to,
        None => to,
    }
}

/// The arguments that ask for the commits of a range, oldest first, each with
/// its subject.
pub fn subjects_args(from: Option<&str>, to: &str) -> (r: Vec<String>)
    ensures
        views(r@) == seq![
            "log"@,
            "--reverse"@,
            "--format=%H%x09%s"@,
            range(
                match from {
                    Some(f) => Some(f@),
                    None => None,
                },
                to@,
            ),
        ],
{
    let commits: String = match from {
        Some(f) => {
            let mut s: String = f.to_owned();
            s.append("..");
            s.append(to);
            s
        },
        None => to.to_owned(),
    };
    let mut v: Vec<String> = Vec::new();
    push_text(&mut v, "log");
    push_text(&mut v, "--reverse");
    push_text(&mut v, "--format=%H%x09%s");
    push_text(&mut v, commits.as_str());
    assert(views(v@) =~= seq!["log"@, "--reverse"@, "--format=%H%x09%s"@, commits@]);
    v
}

/// Each line with a tab in it, as what comes before and after the first.
pub open spec fn tabbed(all: Seq<Seq<char>>) -> Seq<(Seq<char>, Seq<char>)>
    decreases all.len(),
{
    if all.len() == 0 {
        Seq::empty()
    } else {
        match split_at_first(all.last(), "\t"@) {
            Some(p) => tabbed(all.drop_last()).push(p),
            None => tabbed(all.drop_last()),
        }
    }
}

/// The texts of pairs of strings.
pub open spec fn pair_views(v: Seq<(String, String)>) -> Seq<(Seq<char>, Seq<char>)> {
    v.map_values(|p: (String, String)| (p.0@, p.1@))
}

/// Each line with a tab in it, as what comes before and after the first.
pub fn tabbed_lines(text: &str) -> (r: Vec<(String, String)>)
    ensures
        pair_views(r@) == tabbed(lines_of(text@)),
{
    let all = lines(text);
    let ghost ls = views(all@);
    let mut out: Vec<(String, String)> = Vec::new();
    let mut i: usize = 0;
    assert(ls.take(0) =~= Seq::<Seq<char>>::empty());
    assert(pair_views(out@) =~= Seq::<(Seq<char>, Seq<char>)>::empty());
    while i < all.len()
        invariant
            0 <= i <= all@.len(),
            ls == views(all@),
            pair_views(out@) == tabbed(ls.take(i as int)),
        decreases all.len() - i,
    {
        assert(ls.take(i + 1).drop_last() =~= ls.take(i as int));
        assert(ls[i as int] == all@[i as int]@);
        if let Some(p) = split_once(all[i].as_str(), "\t") {
            let ghost before = out@;
            out.push(p);
            assert(pair_views(out@) =~= pair_views(before).push((p.0@, p.1@)));
        }
        i = i + 1;
    }
    assert(ls.take(ls.len() as int) =~= ls);
    out
}

/// The commits of a range with their subjects, oldest first, from what
/// `git log` printed.
pub fn commit_subjects(out: &Output) -> (r: Result<Vec<(String, String)>, String>)
    ensures
        (match r {
            Ok(v) => printed(*out) matches Ok(t) && pair_views(v@) == tabbed(lines_of(t)),
            Err(e) => printed(*out) == Err::<Seq<char>, Seq<char>>(e@),
        }),
{
    match git_stdout(out) {
        Ok(s) => Ok(tabbed_lines(s.as_str())),
        Err(e) => Err(e),
    }
}

/// The arguments that ask for the subjects of the last `n` commits, newest
/// first.
pub fn recent_args(n: u64) -> (r: Vec<String>)
    ensures
        views(r@) == seq!["log"@, "-"@ + digits(n as nat), "--format=%s"@],
{
    let mut count: String = "-".to_owned();
    count.append(decimal(n).as_str());
    let mut v: Vec<String> = Vec::new();
    push_text(&mut v, "log");
    push_text(&mut v, count.as_str());
    push_text(&mut v, "--format=%s");
    assert(views(v@) =~= seq!["log"@, count@, "--format=%s"@]);
    v
}

/// The subjects of commits, from what `git log` printed.
pub fn recent_subjects(out: &Output) -> (r: Result<Vec<String>, String>)
    ensures
        (match r {
            Ok(v) => printed(*out) matches Ok(t) && views(v@) == lines_of(t),
            Err(e) => printed(*out) == Err::<Seq<char>, Seq<char>>(e@),
        }),
{
    match git_stdout(out) {
        Ok(s) => Ok(lines(s.as_str())),
        Err(e) => Err(e),
    }
}

/// What `git` printed counts where it succeeded; else what it complained of.
pub proof fn law_printed(out: Output)
    ensures
        out.success ==> printed(out) == Ok::<Seq<char>, Seq<char>>(lossy_text(out.stdout@)),
        !out.success ==> printed(out) == Err::<Seq<char>, Seq<char>>("git failed: "@ + trimmed(lossy_text(out.stderr@))),
{
}

/// The last of several lines is taken, without white space around it; none where
/// it is blank.
pub proof fn law_last_line(text: Seq<char>, all: Seq<Seq<char>>, x: Seq<char>)
    requires
        lines_of(text) == all.push(x),
    ensures
        trimmed(x).len() > 0 ==> last_line(text) == Some(trimmed(x)),
        trimmed(x).len() == 0 ==> last_line(text) is None,
{
}

/// A range of commits goes from one to the other, or up to the last.
pub proof fn law_range(from: Seq<char>, to: Seq<char>)
    ensures
        range(Some(from), to) == from + ".."@ + to,
        range(None, to) == to,
{
}

/// The commits are read line by line, in order: the hash stands before the first
/// tab and the subject behind it, and lines without a tab are passed over.
pub proof fn law_commits_at_their_places(all: Seq<Seq<char>>) -> (at: Seq<int>)
    ensures
        keeps_places(at, all.len(), |k: int| split_at_first(all[k], "\t"@) is Some),
        tabbed(all).len() == at.len(),
        forall|i: int| 0 <= i < at.len() ==> split_at_first(all[at[i]], "\t"@) == Some(#[trigger] tabbed(all)[i]),
    decreases all.len(),
{
    let keep = |k: int| split_at_first(all[k], "\t"@) is Some;
    if all.len() == 0 {
        let at = Seq::<int>::empty();
        assert(keeps_places(at, 0, keep));
        at
    } else {
        let less = all.drop_last();
        let fewer = |k: int| split_at_first(less[k], "\t"@) is Some;
        let before = law_commits_at_their_places(less);
        assert forall|k: int| 0 <= k < less.len() implies fewer(k) == #[trigger] keep(k) by {
            assert(less[k] == all[k]);
        }
        let at = lemma_places_more(before, less.len(), fewer, keep);
        assert forall|i: int| 0 <= i < at.len() implies split_at_first(all[at[i]], "\t"@) == Some(
            #[trigger] tabbed(all)[i],
        ) by {
            if i < before.len() {
                assert(tabbed(less)[i] == tabbed(all)[i]);
                assert(less[before[i]] == all[at[i]]);
            }
        }
        at
    }
}

/// A line is a commit where a hash, a tab and a subject stand in it.
pub proof fn law_commit_line(hash: Seq<char>, subject: Seq<char>)
    requires
        !hash.contains('\t'),
    ensures
        tabbed(seq![hash + "\t"@ + subject]) == seq![(hash, subject)],
        tabbed(seq![hash]).len() == 0,
{
    reveal_strlit("\t");
    law_split_where_it_stands(hash, "\t"@, subject);
    let a = seq![hash + "\t"@ + subject];
    let b = seq![hash];
    assert(a.drop_last() =~= Seq::<Seq<char>>::empty());
    assert(b.drop_last() =~= Seq::<Seq<char>>::empty());
    reveal_with_fuel(tabbed, 2);
    assert(Seq::<(Seq<char>, Seq<char>)>::empty().push((hash, subject)) =~= seq![(hash, subject)]);
}

} // verus!
