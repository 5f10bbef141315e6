//! The state of a run's plan: its tasks, which of them are done, and what to
//! do next.

use crate::markdown::{events_of, heading_end, inline_text, markdown_spans, read_heading, read_markdown, MdEvent};
use crate::git::pair_views;
use crate::json::{
    array, elements, get_text, json_document, lemma_alike_member, lemma_proper_flat, member, member_from, members, object,
    optional_text, parse_json, pretty_text, push_member, render_pretty, tells, text, text_member, text_or_null, Json,
    JsonView, MOST_LEVELS,
};
use crate::ordered::{
    before, codes, lemma_before_irreflexive, lemma_before_total, lemma_before_transitive, lemma_codes_injective, text_before,
};
use crate::path::{below, display_path, join_path, seen_from};
use crate::text::{
    begins, borrowed, chars_of, decimal, digits, eq_ignore_ascii_case, find, find_in, law_begins_and_ends,
    lemma_find_from, occurs_at, same, same_ignoring_case, shown, starts_with, string_of, text_of, trim, trimmed, views,
};
use sha2::{Digest, Sha256};
use vstd::prelude::*;

verus! {

/// The arguments of `plan-status`.
pub struct Args {
    /// The run directory; without one the latest under `.jkit/` is taken.
    pub run: Option<String>,
}

/// Whether a commit subject is that of an implementation commit.
pub open spec fn impl_subject(s: Seq<char>) -> bool {
    begins(s, "feat(impl):"@) || begins(s, "fix(impl):"@) || begins(s, "chore(impl):"@)
}

/// Whether a commit subject is that of an implementation commit.
pub fn is_impl_subject(s: &str) -> (r: bool)
    ensures
        r == impl_subject(s@),
{
    starts_with(s, "feat(impl):") || starts_with(s, "fix(impl):") || starts_with(s, "chore(impl):")
}

/// Where the first `sep` stands, unless nothing but white space stands before
/// it.
pub open spec fn cut_at(s: Seq<char>, sep: Seq<char>) -> Option<int> {
    match find_in(s, sep) {
        Some(k) => if trimmed(s.take(k)).len() > 0 {
            Some(k)
        } else {
            None
        },
        None => None,
    }
}

/// The lesser of two places that may be absent.
pub open spec fn lesser(a: Option<int>, b: Option<int>) -> Option<int> {
    match (a, b) {
        (Some(x), Some(y)) => Some(
            if x <= y {
                x
            } else {
                y
            },
        ),
        (Some(x), None) => Some(x),
        (None, _) => b,
    }
}

/// Where the first of the separators ` — `, ` -- ` and `:` stands.
pub open spec fn title_end(s: Seq<char>) -> Option<int> {
    lesser(lesser(cut_at(s, " — "@), cut_at(s, " -- "@)), cut_at(s, ":"@))
}

/// The title of a task: its first bold span, or its text up to the first
/// separator, or the whole of its text.
pub open spec fn title(full: Seq<char>, bold: Option<Seq<char>>) -> Seq<char> {
    let t = trimmed(full);
    if bold is Some && trimmed(bold->0).len() > 0 {
        trimmed(bold->0)
    } else {
        match title_end(t) {
            Some(k) => trimmed(t.take(k)),
            None => t,
        }
    }
}

fn find_cut(s: &str, sep: &str) -> (r: Option<usize>)
    ensures
        r is Some == cut_at(s@, sep@) is Some,
        r matches Some(k) ==> cut_at(s@, sep@) == Some(k as int) && k <= s@.len(),
{
    let Some(k) = find(s, sep) else {
        return None;
    };
    let head = string_of(&chars_of(s), 0, k);
    assert(head@ =~= s@.take(k as int));
    if trim(head.as_str()).as_str().is_empty() {
        None
    } else {
        Some(k)
    }
}

fn nearer(a: Option<usize>, b: Option<usize>) -> (r: Option<usize>)
    ensures
        r is None == (a is None && b is None),
        r is Some ==> r == a || r == b,
        r matches Some(x) ==> (a matches Some(y) ==> x <= y),
        r matches Some(x) ==> (b matches Some(y) ==> x <= y),
{
    match (a, b) {
        (Some(x), Some(y)) => if x <= y {
            Some(x)
        } else {
            Some(y)
        },
        (Some(x), None) => Some(x),
        (None, _) => b,
    }
}

/// The title of a task.
pub fn extract_title(full: &str, bold: Option<&str>) -> (r: String)
    ensures
        r@ == title(full@, shown(bold)),
{
    if let Some(b) = bold {
        let t = trim(b);
        if !t.as_str().is_empty() {
            return t;
        }
    }
    let whole = trim(full);
    let dash = find_cut(whole.as_str(), " — ");
    let hyphens = find_cut(whole.as_str(), " -- ");
    let colon = find_cut(whole.as_str(), ":");
    match nearer(nearer(dash, hyphens), colon) {
        Some(k) => {
            let head = string_of(&chars_of(whole.as_str()), 0, k);
            assert(head@ =~= whole@.take(k as int));
            trim(head.as_str())
        },
        None => whole,
    }
}

/// The index after the `## Tasks` heading, looking from `i` on.
pub open spec fn after_tasks_heading(e: Seq<MdEvent>, i: int) -> Option<int>
    decreases e.len() - i,
{
    if i < 0 || i >= e.len() {
        None
    } else if e[i] == MdEvent::HeadingStart(2) {
        let end = heading_end(e, i + 1);
        if same_ignoring_case(trimmed(inline_text(e, i + 1, end)), "Tasks"@) {
            Some(if end < e.len() {
                end + 1
            } else {
                end
            })
        } else if i < end < e.len() {
            after_tasks_heading(e, end + 1)
        } else {
            None
        }
    } else {
        after_tasks_heading(e, i + 1)
    }
}

/// The index after the start of the first list at or after `i`, unless another
/// heading comes first.
pub open spec fn after_list_start(e: Seq<MdEvent>, i: int) -> Option<int>
    decreases e.len() - i,
{
    if i < 0 || i >= e.len() || e[i] is HeadingStart {
        None
    } else if e[i] is ListStart {
        Some(i + 1)
    } else {
        after_list_start(e, i + 1)
    }
}

/// How many lists are open at `i`, where one is open at `k`.
pub open spec fn depth(e: Seq<MdEvent>, k: int, i: int) -> int
    decreases i - k,
{
    if i <= k {
        1
    } else {
        depth(e, k, i - 1) + (if e[i - 1] is ListStart {
            1int
        } else if e[i - 1] is ListEnd {
            -1
        } else {
            0
        })
    }
}

/// The index, at or after `i`, of the end of the list that is open at `k`.
pub open spec fn list_end(e: Seq<MdEvent>, k: int, i: int) -> int
    decreases e.len() - i,
{
    if i < 0 || i >= e.len() {
        e.len() as int
    } else if e[i] is ListEnd && depth(e, k, i) == 1 {
        i
    } else {
        list_end(e, k, i + 1)
    }
}

/// The index, from `i` up to `m`, of the end of an item of the list itself.
pub open spec fn item_end(e: Seq<MdEvent>, k: int, i: int, m: int) -> int
    decreases m - i,
{
    if i >= m {
        m
    } else if e[i] is ItemEnd && depth(e, k, i) == 1 {
        i
    } else {
        item_end(e, k, i + 1, m)
    }
}

/// The text that an event adds to the text of its item.
pub open spec fn piece(e: MdEvent) -> Seq<char> {
    match e {
        MdEvent::Text(t) => t@,
        MdEvent::Code(t) => t@,
        MdEvent::Break => seq![' '],
        _ => Seq::empty(),
    }
}

/// The text from `i` up to `j`, leaving out what stands in lists inside.
pub open spec fn item_text(e: Seq<MdEvent>, k: int, i: int, j: int) -> Seq<char>
    decreases j - i,
{
    if j <= i {
        Seq::empty()
    } else if depth(e, k, j - 1) == 1 {
        item_text(e, k, i, j - 1) + piece(e[j - 1])
    } else {
        item_text(e, k, i, j - 1)
    }
}

/// The index, from `i` up to `j`, of the first start of a bold span.
pub open spec fn bold_start(e: Seq<MdEvent>, k: int, i: int, j: int) -> Option<int>
    decreases j - i,
{
    if i >= j {
        None
    } else if e[i] is StrongStart && depth(e, k, i) == 1 {
        Some(i)
    } else {
        bold_start(e, k, i + 1, j)
    }
}

/// The index, from `i` up to `j`, of the first end of a bold span.
pub open spec fn bold_end(e: Seq<MdEvent>, k: int, i: int, j: int) -> int
    decreases j - i,
{
    if i >= j {
        j
    } else if e[i] is StrongEnd && depth(e, k, i) == 1 {
        i
    } else {
        bold_end(e, k, i + 1, j)
    }
}

/// The text of the first bold span from `i` up to `j`.
pub open spec fn bold_text(e: Seq<MdEvent>, k: int, i: int, j: int) -> Option<Seq<char>> {
    match bold_start(e, k, i, j) {
        Some(s) => Some(item_text(e, k, s + 1, bold_end(e, k, s + 1, j))),
        None => None,
    }
}

/// The titles of the items that start from `k` up to `n`, in the list that is
/// open at `k` and ends at `m`.
pub open spec fn titles(e: Seq<MdEvent>, k: int, n: int, m: int) -> Seq<Seq<char>>
    decreases n - k,
{
    if n <= k {
        Seq::empty()
    } else {
        let rest = titles(e, k, n - 1, m);
        if e[n - 1] is ItemStart && depth(e, k, n - 1) == 1 {
            let end = item_end(e, k, n, m);
            rest.push(title(item_text(e, k, n, end), bold_text(e, k, n, end)))
        } else {
            rest
        }
    }
}

/// The titles of the tasks of a plan, where it has a `## Tasks` heading: those
/// of the items of the first list under it.
pub open spec fn plan_titles(e: Seq<MdEvent>) -> Option<Seq<Seq<char>>> {
    match after_tasks_heading(e, 0) {
        None => None,
        Some(i) => match after_list_start(e, i) {
            None => Some(Seq::empty()),
            Some(k) => {
                let m = list_end(e, k, k);
                Some(titles(e, k, m, m))
            },
        },
    }
}

/// What a plan says: whether it has a `## Tasks` heading, and the titles of
/// the tasks.
pub struct ParsedPlan {
    pub has_tasks_heading: bool,
    pub tasks: Vec<String>,
}

fn find_tasks(e: &Vec<(MdEvent, usize, usize)>) -> (r: Option<usize>)
    ensures
        r is Some == after_tasks_heading(events_of(e@), 0) is Some,
        r matches Some(i) ==> i <= e@.len() && after_tasks_heading(events_of(e@), 0) == Some(i as int),
{
    let ghost ev = events_of(e@);
    let n: usize = e.len();
    let mut i: usize = 0;
    while i < n
        invariant
            0 <= i <= n == e@.len(),
            ev == events_of(e@),
            after_tasks_heading(ev, 0) == after_tasks_heading(ev, i as int),
        decreases n - i,
    {
        assert(ev[i as int] == e@[i as int].0);
        let second = match &e[i].0 {
            MdEvent::HeadingStart(level) => *level == 2,
            _ => false,
        };
        if second {
            let (heading, end) = read_heading(e, i + 1);
            if eq_ignore_ascii_case(trim(heading.as_str()).as_str(), "Tasks") {
                return Some(
                    if end < n {
                        end + 1
                    } else {
                        end
                    },
                );
            }
            if end >= n {
                return None;
            }
            i = end + 1;
        } else {
            i = i + 1;
        }
    }
    None
}

fn find_list(e: &Vec<(MdEvent, usize, usize)>, from: usize) -> (r: Option<usize>)
    requires
        from <= e@.len(),
    ensures
        r is Some == after_list_start(events_of(e@), from as int) is Some,
        r matches Some(k) ==> k <= e@.len() && after_list_start(events_of(e@), from as int) == Some(k as int),
{
    let ghost ev = events_of(e@);
    let n: usize = e.len();
    let mut i: usize = from;
    while i < n
        invariant
            from <= i <= n == e@.len(),
            ev == events_of(e@),
            after_list_start(ev, from as int) == after_list_start(ev, i as int),
        decreases n - i,
    {
        assert(ev[i as int] == e@[i as int].0);
        match &e[i].0 {
            MdEvent::HeadingStart(_) => {
                return None;
            },
            MdEvent::ListStart => {
                return Some(i + 1);
            },
            _ => {},
        }
        i = i + 1;
    }
    None
}

fn change(e: &MdEvent) -> (r: i128)
    ensures
        r == (if e is ListStart {
            1int
        } else if e is ListEnd {
            -1
        } else {
            0
        }),
{
    match e {
        MdEvent::ListStart => 1,
        MdEvent::ListEnd => -1,
        _ => 0,
    }
}

fn find_list_end(e: &Vec<(MdEvent, usize, usize)>, k: usize) -> (r: usize)
    requires
        k <= e@.len(),
    ensures
        k <= r <= e@.len(),
        r == list_end(events_of(e@), k as int, k as int),
{
    let ghost ev = events_of(e@);
    let n: usize = e.len();
    let mut d: i128 = 1;
    let mut i: usize = k;
    while i < n
        invariant
            k <= i <= n == e@.len(),
            ev == events_of(e@),
            d == depth(ev, k as int, i as int),
            -(i - k) <= d <= 1 + (i - k),
            list_end(ev, k as int, k as int) == list_end(ev, k as int, i as int),
        decreases n - i,
    {
        assert(ev[i as int] == e@[i as int].0);
        if let MdEvent::ListEnd = &e[i].0 {
            if d == 1 {
                return i;
            }
        }
        d = d + change(&e[i].0);
        i = i + 1;
    }
    n
}

/// Reads the item that starts just before `from`: its title.
fn read_item(e: &Vec<(MdEvent, usize, usize)>, k: usize, from: usize, m: usize) -> (r: String)
    requires
        k <= from <= m <= e@.len(),
        depth(events_of(e@), k as int, from as int) == 1,
    ensures
        ({
            let ev = events_of(e@);
            let end = item_end(ev, k as int, from as int, m as int);
            r@ == title(
                item_text(ev, k as int, from as int, end),
                bold_text(ev, k as int, from as int, end),
            )
        }),
{
    let ghost ev = events_of(e@);
    let ghost kk = k as int;
    let n: usize = e.len();
    let mut full = String::new();
    let mut d: i128 = 1;
    let mut j: usize = from;
    assert(full@ =~= Seq::<char>::empty());
    while j < m
        invariant_except_break
            d == depth(ev, kk, j as int),
        invariant
            k <= from <= j <= m <= n == e@.len(),
            ev == events_of(e@),
            kk == k as int,
            -(j - from) <= d <= 1 + (j - from),
            item_end(ev, kk, from as int, m as int) == item_end(ev, kk, j as int, m as int),
            full@ == item_text(ev, kk, from as int, j as int),
        ensures
            j == item_end(ev, kk, from as int, m as int),
        decreases m - j,
    {
        assert(ev[j as int] == e@[j as int].0);
        if d == 1 {
            match &e[j].0 {
                MdEvent::ItemEnd => {
                    break ;
                },
                MdEvent::Text(t) => {
                    full.append(t.as_str());
                },
                MdEvent::Code(t) => {
                    full.append(t.as_str());
                },
                MdEvent::Break => {
                    full.append(" ");
                    proof {
                        reveal_strlit(" ");
                        assert(" "@ =~= seq![' ']);
                    }
                },
                _ => {
                    assert(full@ + Seq::<char>::empty() =~= full@);
                },
            }
        }
        d = d + change(&e[j].0);
        j = j + 1;
    }
    let bold = read_bold(e, k, from, j);
    match &bold {
        Some(b) => extract_title(full.as_str(), Some(b.as_str())),
        None => extract_title(full.as_str(), None),
    }
}

fn read_bold(e: &Vec<(MdEvent, usize, usize)>, k: usize, from: usize, end: usize) -> (r: Option<String>)
    requires
        k <= from <= end <= e@.len(),
        depth(events_of(e@), k as int, from as int) == 1,
    ensures
        r is Some == bold_text(events_of(e@), k as int, from as int, end as int) is Some,
        r matches Some(b) ==> bold_text(events_of(e@), k as int, from as int, end as int) == Some(b@),
{
    let ghost ev = events_of(e@);
    let ghost kk = k as int;
    let n: usize = e.len();
    let mut d: i128 = 1;
    let mut s: usize = from;
    while s < end
        invariant_except_break
            d == depth(ev, kk, s as int),
        invariant
            k <= from <= s <= end <= n == e@.len(),
            ev == events_of(e@),
            kk == k as int,
            -(s - from) <= d <= 1 + (s - from),
            bold_start(ev, kk, from as int, end as int) == bold_start(ev, kk, s as int, end as int),
        ensures
            s < end ==> bold_start(ev, kk, from as int, end as int) == Some(s as int) && depth(ev, kk, s + 1) == 1,
            s == end ==> bold_start(ev, kk, from as int, end as int) is None,
        decreases end - s,
    {
        assert(ev[s as int] == e@[s as int].0);
        if let MdEvent::StrongStart = &e[s].0 {
            if d == 1 {
                break ;
            }
        }
        d = d + change(&e[s].0);
        s = s + 1;
    }
    if s >= end {
        return None;
    }
    let start: usize = s + 1;
    let mut bold = String::new();
    let mut depth_here: i128 = 1;
    let mut j: usize = start;
    assert(bold@ =~= Seq::<char>::empty());
    while j < end
        invariant_except_break
            depth_here == depth(ev, kk, j as int),
        invariant
            k <= start <= j <= end <= n == e@.len(),
            ev == events_of(e@),
            kk == k as int,
            -(j - start) <= depth_here <= 1 + (j - start),
            bold_end(ev, kk, start as int, end as int) == bold_end(ev, kk, j as int, end as int),
            bold@ == item_text(ev, kk, start as int, j as int),
        ensures
            j == bold_end(ev, kk, start as int, end as int),
        decreases end - j,
    {
        assert(ev[j as int] == e@[j as int].0);
        if depth_here == 1 {
            match &e[j].0 {
                MdEvent::StrongEnd => {
                    break ;
                },
                MdEvent::Text(t) => {
                    bold.append(t.as_str());
                },
                MdEvent::Code(t) => {
                    bold.append(t.as_str());
                },
                MdEvent::Break => {
                    bold.append(" ");
                    proof {
                        reveal_strlit(" ");
                        assert(" "@ =~= seq![' ']);
                    }
                },
                _ => {
                    assert(bold@ + Seq::<char>::empty() =~= bold@);
                },
            }
        }
        depth_here = depth_here + change(&e[j].0);
        j = j + 1;
    }
    Some(bold)
}

/// What the events of a plan say.
pub fn plan_from_events(e: &Vec<(MdEvent, usize, usize)>) -> (r: ParsedPlan)
    ensures
        r.has_tasks_heading == plan_titles(events_of(e@)) is Some,
        plan_titles(events_of(e@)) matches Some(t) ==> views(r.tasks@) == t,
        !r.has_tasks_heading ==> r.tasks@.len() == 0,
{
    let ghost ev = events_of(e@);
    let mut tasks: Vec<String> = Vec::new();
    assert(views(tasks@) =~= Seq::<Seq<char>>::empty());
    let Some(i) = find_tasks(e) else {
        return ParsedPlan { has_tasks_heading: false, tasks };
    };
    let Some(k) = find_list(e, i) else {
        return ParsedPlan { has_tasks_heading: true, tasks };
    };
    let m = find_list_end(e, k);
    let mut d: i128 = 1;
    let mut j: usize = k;
    let n: usize = e.len();
    while j < m
        invariant
            k <= j <= m <= n == e@.len(),
            ev == events_of(e@),
            d == depth(ev, k as int, j as int),
            -(j - k) <= d <= 1 + (j - k),
            views(tasks@) == titles(ev, k as int, j as int, m as int),
        decreases m - j,
    {
        assert(ev[j as int] == e@[j as int].0);
        let starts = match &e[j].0 {
            MdEvent::ItemStart => d == 1,
            _ => false,
        };
        d = d + change(&e[j].0);
        if starts {
            assert(depth(ev, k as int, j + 1) == 1);
            let t = read_item(e, k, j + 1, m);
            let ghost before = tasks@;
            tasks.push(t);
            assert(views(tasks@) =~= views(before).push(t@));
        }
        j = j + 1;
    }
    ParsedPlan { has_tasks_heading: true, tasks }
}

/// What a plan says.
pub fn parse_plan_tasks(md: &str) -> (r: ParsedPlan)
    ensures
        r.has_tasks_heading == plan_titles(events_of(markdown_spans(md@))) is Some,
        plan_titles(events_of(markdown_spans(md@))) matches Some(t) ==> views(r.tasks@) == t,
        !r.has_tasks_heading ==> r.tasks@.len() == 0,
{
    let e = read_markdown(md);
    plan_from_events(&e)
}

/// Whether a directory under `.jkit/` is passed over when the latest run is
/// looked for.
pub open spec fn passed_over(name: Seq<char>) -> bool {
    begins(name, "adhoc-"@)
}

/// Whether `latest` is the name of the latest run among the names of the
/// directories under `.jkit/`.
pub open spec fn is_latest(names: Seq<Seq<char>>, latest: Option<Seq<char>>) -> bool {
    match latest {
        None => forall|i: int| 0 <= i < names.len() ==> passed_over(#[trigger] names[i]),
        Some(s) => names.contains(s) && !passed_over(s) && forall|i: int|
            0 <= i < names.len() && !passed_over(#[trigger] names[i]) ==> !before(codes(s), codes(names[i])),
    }
}

/// The name of the latest run: the last in the order of strings of those that
/// are not passed over.
pub fn latest_run_dir(names: &Vec<String>) -> (r: Option<String>)
    ensures
        is_latest(views(names@), text_of(r)),
{
    let mut best: Option<usize> = None;
    let mut i: usize = 0;
    while i < names.len()
        invariant
            0 <= i <= names@.len(),
            best is None ==> forall|k: int| 0 <= k < i ==> passed_over(#[trigger] names@[k]@),
            best matches Some(b) ==> {
                &&& b < names@.len()
                &&& !passed_over(names@[b as int]@)
                &&& forall|k: int|
                    0 <= k < i && !passed_over(#[trigger] names@[k]@) ==> !before(
                        codes(names@[b as int]@),
                        codes(names@[k]@),
                    )
            },
        decreases names.len() - i,
    {
        if !starts_with(names[i].as_str(), "adhoc-") {
            match best {
                None => {
                    best = Some(i);
                    proof {
                        lemma_before_irreflexive(codes(names@[i as int]@));
                    }
                },
                Some(b) => {
                    if text_before(names[b].as_str(), names[i].as_str()) {
                        proof {
                            lemma_before_irreflexive(codes(names@[i as int]@));
                            assert forall|k: int| 0 <= k < i && !passed_over(#[trigger] names@[k]@) implies !before(
                                codes(names@[i as int]@),
                                codes(names@[k]@),
                            ) by {
                                if before(codes(names@[i as int]@), codes(names@[k]@)) {
                                    lemma_before_transitive(
                                        codes(names@[b as int]@),
                                        codes(names@[i as int]@),
                                        codes(names@[k]@),
                                    );
                                }
                            }
                        }
                        best = Some(i);
                    }
                },
            }
        }
        i = i + 1;
    }
    match best {
        Some(b) => {
            assert(views(names@)[b as int] == names@[b as int]@);
            assert(views(names@).contains(names@[b as int]@));
            Some(names[b].clone())
        },
        None => None,
    }
}

/// The directory of the run that is meant: the one that was asked for, which
/// has to be a directory, or else the latest of those under `.jkit/`.
pub fn resolve_run_dir(cwd: &str, asked: Option<&str>, is_dir: bool, names: &Vec<String>) -> (r: Result<
    Option<String>,
    String,
>)
    ensures
        (match (asked, r) {
            (Some(run), Ok(dir)) => is_dir && text_of(dir) == Some(below(cwd@, run@)),
            (Some(run), Err(e)) => !is_dir && e@ == "run dir not found: "@ + run@,
            (None, Ok(None)) => is_latest(views(names@), None),
            (None, Ok(Some(dir))) => exists|s: Seq<char>| #[trigger]
                is_latest(views(names@), Some(s)) && dir@ == below(below(cwd@, ".jkit"@), s),
            (None, Err(_)) => false,
        }),
{
    match asked {
        Some(run) => if is_dir {
            Ok(Some(join_path(cwd, run)))
        } else {
            let mut e: String = "run dir not found: ".to_owned();
            e.append(run);
            Err(e)
        },
        None => match latest_run_dir(names) {
            Some(name) => {
                let jkit = join_path(cwd, ".jkit");
                Ok(Some(join_path(jkit.as_str(), name.as_str())))
            },
            None => Ok(None),
        },
    }
}

/// The commits of a list that are implementation commits, in order.
pub open spec fn impl_commits(v: Seq<(Seq<char>, Seq<char>)>) -> Seq<(Seq<char>, Seq<char>)>
    decreases v.len(),
{
    if v.len() == 0 {
        Seq::empty()
    } else if impl_subject(v.last().1) {
        impl_commits(v.drop_last()).push(v.last())
    } else {
        impl_commits(v.drop_last())
    }
}

fn keep_impl_commits(v: &Vec<(String, String)>) -> (r: Vec<String>)
    ensures
        r@.len() == impl_commits(pair_views(v@)).len(),
        forall|i: int| 0 <= i < r@.len() ==> (#[trigger] r@[i])@ == impl_commits(pair_views(v@))[i].0,
{
    let ghost all = pair_views(v@);
    let mut out: Vec<String> = Vec::new();
    let mut i: usize = 0;
    assert(all.take(0) =~= Seq::<(Seq<char>, Seq<char>)>::empty());
    while i < v.len()
        invariant
            0 <= i <= v@.len(),
            all == pair_views(v@),
            out@.len() == impl_commits(all.take(i as int)).len(),
            forall|k: int| 0 <= k < out@.len() ==> (#[trigger] out@[k])@ == impl_commits(all.take(i as int))[k].0,
        decreases v.len() - i,
    {
        assert(all.take(i + 1).drop_last() =~= all.take(i as int));
        assert(all[i as int] == (v@[i as int].0@, v@[i as int].1@));
        if is_impl_subject(v[i].1.as_str()) {
            out.push(v[i].0.clone());
        }
        i = i + 1;
    }
    assert(all.take(all.len() as int) =~= all);
    out
}

/// A task of a plan.
pub struct Task {
    pub index: usize,
    pub title: String,
    pub completed: bool,
    pub commit_sha: Option<String>,
}

/// What is known of a task.
#[verifier::ext_equal]
pub struct TaskView {
    pub index: nat,
    pub title: Seq<char>,
    pub completed: bool,
    pub commit_sha: Option<Seq<char>>,
}

impl View for Task {
    type V = TaskView;

    open spec fn view(&self) -> TaskView {
        TaskView {
            index: self.index as nat,
            title: self.title@,
            completed: self.completed,
            commit_sha: text_of(self.commit_sha),
        }
    }
}

/// What is known of a list of tasks.
pub open spec fn task_views(v: Seq<Task>) -> Seq<TaskView> {
    v.map_values(|t: Task| t@)
}

/// The tasks with these titles, where each commit completes the task at its
/// own place in the order.
pub open spec fn tasks_with(titles: Seq<Seq<char>>, commits: Seq<(Seq<char>, Seq<char>)>) -> Seq<TaskView> {
    Seq::new(
        titles.len(),
        |i: int|
            TaskView {
                index: i as nat,
                title: titles[i],
                completed: i < commits.len(),
                commit_sha: if i < commits.len() {
                    Some(commits[i].0)
                } else {
                    None
                },
            },
    )
}

/// What to do about a plan.
#[derive(Clone, Copy, PartialEq, Eq, Debug, Structural)]
pub enum Recommendation {
    NoPlan,
    AlreadySynced,
    ImplementFromPlan,
    PlanEditedMidFlight,
}

/// The word for a recommendation.
pub open spec fn word(r: Recommendation) -> Seq<char> {
    match r {
        Recommendation::NoPlan => "no_plan"@,
        Recommendation::AlreadySynced => "already_synced"@,
        Recommendation::ImplementFromPlan => "implement_from_plan"@,
        Recommendation::PlanEditedMidFlight => "plan_edited_mid_flight"@,
    }
}

impl Recommendation {
    /// The word for the recommendation.
    pub fn as_str(&self) -> (r: &'static str)
        ensures
            r@ == word(*self),
    {
        match self {
            Recommendation::NoPlan => "no_plan",
            Recommendation::AlreadySynced => "already_synced",
            Recommendation::ImplementFromPlan => "implement_from_plan",
            Recommendation::PlanEditedMidFlight => "plan_edited_mid_flight",
        }
    }
}

/// Whether the text of `.jkit/spec-sync` says that everything up to `head` is
/// done. Without the file nothing is said.
pub open spec fn marked_synced(spec_sync: Option<Seq<char>>, head: Option<Seq<char>>) -> bool {
    match spec_sync {
        Some(t) => trimmed(t).len() > 0 && (head is None || head == Some(trimmed(t))),
        None => false,
    }
}

/// What is known of the plan's text at the time of the first implementation
/// commit: its hash then, and whether it has been edited since.
pub struct Snapshot {
    pub sha: Option<Seq<char>>,
    pub edited: bool,
    /// Whether the present hash is to be recorded.
    pub record: bool,
}

/// The snapshot of a plan with this hash. Before the first implementation
/// commit there is none; then the first hash that is seen is recorded.
pub open spec fn snapshot_of(recorded: Option<Seq<char>>, sha: Seq<char>, commits: nat) -> Snapshot {
    if commits == 0 {
        Snapshot { sha: None, edited: false, record: false }
    } else {
        match recorded {
            Some(s) => Snapshot { sha: Some(s), edited: s != sha, record: false },
            None => Snapshot { sha: Some(sha), edited: false, record: true },
        }
    }
}

/// Once the hash of a plan is recorded, the plan counts as edited exactly where
/// its hash is another, and the record stays as it is.
pub proof fn law_snapshot_detects_edit(first: Seq<char>, later: Seq<char>, n: nat, m: nat)
    requires
        n > 0,
        m > 0,
    ensures
        ({
            let taken = snapshot_of(None, first, n);
            let seen = snapshot_of(taken.sha, later, m);
            &&& taken.record && !taken.edited
            &&& seen.edited <==> first != later
            &&& seen.sha == taken.sha && !seen.record
        }),
{
}

/// What to do about a plan with this many tasks and implementation commits.
pub open spec fn recommended(tasks: nat, commits: nat, edited: bool, marked: bool) -> Recommendation {
    if tasks == 0 {
        Recommendation::NoPlan
    } else if edited {
        Recommendation::PlanEditedMidFlight
    } else if commits >= tasks || marked {
        Recommendation::AlreadySynced
    } else {
        Recommendation::ImplementFromPlan
    }
}

/// The task to implement next, where that is what is recommended.
pub open spec fn next_pending(tasks: nat, commits: nat, r: Recommendation) -> Option<nat> {
    if r is ImplementFromPlan {
        Some(commits)
    } else {
        None
    }
}

/// The tasks that are done come first, and the next task is the first that is
/// not: it is named exactly where the plan is to be implemented.
pub proof fn law_next_pending_is_first_open(
    titles: Seq<Seq<char>>,
    commits: Seq<(Seq<char>, Seq<char>)>,
    edited: bool,
    marked: bool,
)
    ensures
        ({
            let tasks = tasks_with(titles, commits);
            let r = recommended(titles.len(), commits.len(), edited, marked);
            &&& forall|i: int, j: int|
                0 <= i < j < tasks.len() && (#[trigger] tasks[j]).completed ==> (#[trigger] tasks[i]).completed
            &&& next_pending(titles.len(), commits.len(), r) is Some <==> r is ImplementFromPlan
            &&& next_pending(titles.len(), commits.len(), r) matches Some(k) ==> k < tasks.len()
                && !tasks[k as int].completed && forall|i: int| 0 <= i < k ==> (#[trigger] tasks[i]).completed
        }),
{
}

/// A plan whose tasks are all done, or that is marked as synced, is never
/// recommended for implementation; one with open tasks and no mark is, unless
/// it was edited.
pub proof fn law_recommendation(
    titles: Seq<Seq<char>>,
    commits: Seq<(Seq<char>, Seq<char>)>,
    edited: bool,
    marked: bool,
)
    ensures
        ({
            let tasks = tasks_with(titles, commits);
            let r = recommended(titles.len(), commits.len(), edited, marked);
            let open_task = exists|i: int| 0 <= i < tasks.len() && !(#[trigger] tasks[i]).completed;
            r is ImplementFromPlan <==> open_task && !edited && !marked
        }),
{
    let tasks = tasks_with(titles, commits);
    if commits.len() < titles.len() {
        assert(!tasks[commits.len() as int].completed);
    }
}

/// What `git` says about a plan: the current commit, the commit that
/// introduced the plan, and the commits since then with their subjects.
pub struct GitFacts {
    pub head: Option<String>,
    pub baseline: Option<String>,
    pub subjects: Vec<(String, String)>,
}

/// The state of a plan.
pub struct PlanStatus {
    pub run_dir: Option<String>,
    pub plan_path: Option<String>,
    pub baseline_sha: Option<String>,
    pub head_sha: Option<String>,
    pub plan_edited_mid_flight: bool,
    pub plan_snapshot_sha256: Option<String>,
    pub tasks: Vec<Task>,
    pub next_pending_task_index: Option<usize>,
    pub recommendation: Recommendation,
}

/// What is known of the state of a plan.
#[verifier::ext_equal]
pub struct StatusView {
    pub run_dir: Option<Seq<char>>,
    pub plan_path: Option<Seq<char>>,
    pub baseline_sha: Option<Seq<char>>,
    pub head_sha: Option<Seq<char>>,
    pub plan_edited_mid_flight: bool,
    pub plan_snapshot_sha256: Option<Seq<char>>,
    pub tasks: Seq<TaskView>,
    pub next_pending_task_index: Option<nat>,
    pub recommendation: Recommendation,
}

/// A number, where there is one.
pub open spec fn number_of(n: Option<usize>) -> Option<nat> {
    match n {
        Some(k) => Some(k as nat),
        None => None,
    }
}

impl View for PlanStatus {
    type V = StatusView;

    open spec fn view(&self) -> StatusView {
        StatusView {
            run_dir: text_of(self.run_dir),
            plan_path: text_of(self.plan_path),
            baseline_sha: text_of(self.baseline_sha),
            head_sha: text_of(self.head_sha),
            plan_edited_mid_flight: self.plan_edited_mid_flight,
            plan_snapshot_sha256: text_of(self.plan_snapshot_sha256),
            tasks: task_views(self.tasks@),
            next_pending_task_index: number_of(self.next_pending_task_index),
            recommendation: self.recommendation,
        }
    }
}

/// The state where there is nothing to implement: no run, no plan, or no
/// `## Tasks` heading.
pub open spec fn nothing_planned(run_dir: Option<Seq<char>>, plan_path: Option<Seq<char>>) -> StatusView {
    StatusView {
        run_dir,
        plan_path,
        baseline_sha: None,
        head_sha: None,
        plan_edited_mid_flight: false,
        plan_snapshot_sha256: None,
        tasks: Seq::empty(),
        next_pending_task_index: None,
        recommendation: Recommendation::NoPlan,
    }
}

/// The state of a plan with these tasks.
pub open spec fn planned(
    run_dir: Seq<char>,
    plan_path: Seq<char>,
    titles: Seq<Seq<char>>,
    sha: Seq<char>,
    git: GitFacts,
    marked: bool,
    recorded: Option<Seq<char>>,
) -> StatusView {
    let commits = impl_commits(pair_views(git.subjects@));
    let snapshot = snapshot_of(recorded, sha, commits.len());
    let r = recommended(titles.len(), commits.len(), snapshot.edited, marked);
    if titles.len() == 0 {
        StatusView {
            baseline_sha: text_of(git.baseline),
            head_sha: text_of(git.head),
            ..nothing_planned(Some(run_dir), Some(plan_path))
        }
    } else {
        StatusView {
            run_dir: Some(run_dir),
            plan_path: Some(plan_path),
            baseline_sha: text_of(git.baseline),
            head_sha: text_of(git.head),
            plan_edited_mid_flight: snapshot.edited,
            plan_snapshot_sha256: snapshot.sha,
            tasks: tasks_with(titles, commits),
            next_pending_task_index: next_pending(titles.len(), commits.len(), r),
            recommendation: r,
        }
    }
}

/// The note for more implementation commits than tasks.
pub open spec fn excess_note(tasks: nat, commits: nat) -> Option<Seq<char>> {
    if tasks > 0 && commits > tasks {
        Some(
            "plan-status: "@ + digits(commits) + " impl commits exceed "@ + digits(tasks)
                + " plan tasks; tail commits ignored"@,
        )
    } else {
        None
    }
}

/// What looking at a plan comes to: its state, a note for the user if any, and
/// whether the plan's hash is to be recorded.
pub struct PlanRun {
    pub status: PlanStatus,
    pub note: Option<String>,
    pub record: bool,
}

/// The state where there is nothing to implement.
pub fn no_plan(run_dir: Option<String>, plan_path: Option<String>) -> (r: PlanStatus)
    ensures
        r@ == nothing_planned(text_of(run_dir), text_of(plan_path)),
{
    let tasks: Vec<Task> = Vec::new();
    assert(task_views(tasks@) =~= Seq::<TaskView>::empty());
    PlanStatus {
        run_dir,
        plan_path,
        baseline_sha: None,
        head_sha: None,
        plan_edited_mid_flight: false,
        plan_snapshot_sha256: None,
        tasks,
        next_pending_task_index: None,
        recommendation: Recommendation::NoPlan,
    }
}

fn is_marked(spec_sync: Option<&str>, head: &Option<String>) -> (r: bool)
    ensures
        r == marked_synced(shown(spec_sync), text_of(*head)),
{
    match spec_sync {
        Some(t) => {
            let content = trim(t);
            if content.as_str().is_empty() {
                false
            } else {
                match head {
                    Some(h) => same(h.as_str(), content.as_str()),
                    None => true,
                }
            }
        },
        None => false,
    }
}

fn make_tasks(titles: &Vec<String>, commits: &Vec<String>, all: Ghost<Seq<(Seq<char>, Seq<char>)>>) -> (r: Vec<Task>)
    requires
        commits@.len() == all@.len(),
        forall|i: int| 0 <= i < commits@.len() ==> (#[trigger] commits@[i])@ == all@[i].0,
    ensures
        task_views(r@) == tasks_with(views(titles@), all@),
{
    let mut out: Vec<Task> = Vec::new();
    let mut i: usize = 0;
    while i < titles.len()
        invariant
            0 <= i <= titles@.len(),
            out@.len() == i,
            commits@.len() == all@.len(),
            forall|k: int| 0 <= k < commits@.len() ==> (#[trigger] commits@[k])@ == all@[k].0,
            forall|k: int| 0 <= k < i ==> (#[trigger] out@[k])@ == tasks_with(views(titles@), all@)[k],
        decreases titles.len() - i,
    {
        let done = i < commits.len();
        let commit_sha: Option<String> = if done {
            Some(commits[i].clone())
        } else {
            None
        };
        let t = Task { index: i, title: titles[i].clone(), completed: done, commit_sha };
        assert(views(titles@)[i as int] == titles@[i as int]@);
        assert(t@ =~= tasks_with(views(titles@), all@)[i as int]);
        out.push(t);
        i = i + 1;
    }
    assert(task_views(out@) =~= tasks_with(views(titles@), all@));
    out
}

/// The state of a plan, given what it says, its hash, what `git` says, the
/// text of `.jkit/spec-sync` and the hash that was recorded.
pub fn plan_status(
    run_dir: &str,
    plan_path: &str,
    plan: &ParsedPlan,
    sha: &str,
    git: &GitFacts,
    spec_sync: Option<&str>,
    recorded: Option<&str>,
) -> (r: PlanRun)
    ensures
        ({
            let titles = views(plan.tasks@);
            let commits = impl_commits(pair_views(git.subjects@)).len();
            let marked = marked_synced(shown(spec_sync), text_of(git.head));
            if plan.has_tasks_heading {
                &&& r.status@ == planned(run_dir@, plan_path@, titles, sha@, *git, marked, shown(recorded))
                &&& text_of(r.note) == excess_note(titles.len(), commits)
                &&& r.record == (titles.len() > 0 && snapshot_of(shown(recorded), sha@, commits).record)
            } else {
                &&& r.status@ == nothing_planned(Some(run_dir@), Some(plan_path@))
                &&& r.note is None
                &&& !r.record
            }
        }),
{
    if !plan.has_tasks_heading {
        return PlanRun {
            status: no_plan(Some(run_dir.to_owned()), Some(plan_path.to_owned())),
            note: None,
            record: false,
        };
    }
    let ghost all = impl_commits(pair_views(git.subjects@));
    let commits = keep_impl_commits(&git.subjects);
    let n_tasks: usize = plan.tasks.len();
    let n_commits: usize = commits.len();
    assert(views(plan.tasks@).len() == n_tasks);
    if n_tasks == 0 {
        let mut status = no_plan(Some(run_dir.to_owned()), Some(plan_path.to_owned()));
        status.baseline_sha = git.baseline.clone();
        status.head_sha = git.head.clone();
        return PlanRun { status, note: None, record: false };
    }
    let note: Option<String> = if n_commits > n_tasks {
        let mut t: String = "plan-status: ".to_owned();
        t.append(decimal(n_commits as u64).as_str());
        t.append(" impl commits exceed ");
        t.append(decimal(n_tasks as u64).as_str());
        t.append(" plan tasks; tail commits ignored");
        Some(t)
    } else {
        None
    };
    let mut edited = false;
    let mut record = false;
    let mut snapshot: Option<String> = None;
    if n_commits > 0 {
        match recorded {
            Some(s) => {
                edited = !same(s, sha);
                snapshot = Some(s.to_owned());
            },
            None => {
                record = true;
                snapshot = Some(sha.to_owned());
            },
        }
    }
    let recommendation = if edited {
        Recommendation::PlanEditedMidFlight
    } else if n_commits >= n_tasks || is_marked(spec_sync, &git.head) {
        Recommendation::AlreadySynced
    } else {
        Recommendation::ImplementFromPlan
    };
    let next: Option<usize> = if recommendation == Recommendation::ImplementFromPlan {
        Some(n_commits)
    } else {
        None
    };
    let tasks = make_tasks(&plan.tasks, &commits, Ghost(all));
    PlanRun {
        status: PlanStatus {
            run_dir: Some(run_dir.to_owned()),
            plan_path: Some(plan_path.to_owned()),
            baseline_sha: git.baseline.clone(),
            head_sha: git.head.clone(),
            plan_edited_mid_flight: edited,
            plan_snapshot_sha256: snapshot,
            tasks,
            next_pending_task_index: next,
            recommendation,
        },
        note,
        record,
    }
}

/// The hash of a text, in hexadecimal digits.
pub uninterp spec fn sha256_hex(text: Seq<char>) -> Seq<char>;

/// `sha2::Sha256::digest` of the bytes of a text, in hexadecimal digits: the
/// same text gives the same digits.
#[verifier::external_body]
fn hash_text(text: &str) -> (r: String)
    ensures
        r@ == sha256_hex(text@),
{
    format!("{:x}", Sha256::digest(text.as_bytes()))
}

/// The hash in the text of a snapshot file; a text without one has none.
pub open spec fn recorded_in(t: Option<Seq<char>>) -> Option<Seq<char>> {
    match t {
        Some(s) => match json_document(s) {
            Ok(v) => text_member(v, "sha256"@),
            Err(_) => None,
        },
        None => None,
    }
}

/// The hash in the text of a snapshot file.
pub fn recorded_hash(t: Option<&str>) -> (r: Option<String>)
    ensures
        text_of(r) == recorded_in(shown(t)),
{
    let Some(s) = t else {
        return None;
    };
    match parse_json(s) {
        Ok(v) => match get_text(&v, "sha256") {
            Some(h) => Some(h.clone()),
            None => None,
        },
        Err(_) => None,
    }
}

/// The value in a snapshot file.
pub open spec fn snapshot_json(sha: Seq<char>) -> JsonView {
    JsonView::Object(seq![("sha256"@, JsonView::Text(sha))])
}

fn snapshot_text(sha: &str) -> (r: String)
    ensures
        r@ == pretty_text(snapshot_json(sha@)) + "\n"@,
        recorded_in(Some(r@)) == Some(sha@),
{
    let mut m: Vec<(String, Json)> = Vec::new();
    push_member(&mut m, "sha256", text(sha));
    assert(members(m@) =~= seq![("sha256"@, JsonView::Text(sha@))]);
    let value = object(m);
    let mut out = render_pretty(&value);
    let ghost shown_text = out@;
    out.append("\n");
    proof {
        let told = snapshot_json(sha@);
        lemma_proper_flat(told->Object_0, MOST_LEVELS as nat);
        assert(tells(shown_text, told));
        lemma_alike_member(told, json_document(out@)->Ok_0, "sha256"@);
        assert(member_from(told->Object_0, "sha256"@, 0) == Some(0int));
    }
    out
}

/// What looking at the files of a run comes to: the plan's state, a note for
/// the user if any, and the snapshot to write if one is to be written.
pub struct Computed {
    pub status: PlanStatus,
    pub note: Option<String>,
    pub snapshot: Option<String>,
}

/// The state of the plan of a run directory, as seen from `cwd`, given the
/// texts of its files and what `git` says. A snapshot that is to be written
/// tells the hash of the plan.
pub fn compute(
    cwd: &str,
    run_dir: &str,
    plan_text: Option<&str>,
    git: &GitFacts,
    spec_sync: Option<&str>,
    snapshot: Option<&str>,
) -> (r: Computed)
    ensures
        ({
            let run = seen_from(cwd@, run_dir@);
            let path = seen_from(cwd@, below(run_dir@, "plan.md"@));
            match shown(plan_text) {
                None => {
                    &&& r.status@ == nothing_planned(Some(run), None)
                    &&& r.note is None
                    &&& r.snapshot is None
                },
                Some(t) => match plan_titles(events_of(markdown_spans(t))) {
                    None => {
                        &&& r.status@ == nothing_planned(Some(run), Some(path))
                        &&& r.note is None
                        &&& r.snapshot is None
                    },
                    Some(titles) => {
                        let sha = sha256_hex(t);
                        let recorded = recorded_in(shown(snapshot));
                        let commits = impl_commits(pair_views(git.subjects@)).len();
                        let marked = marked_synced(shown(spec_sync), text_of(git.head));
                        &&& r.status@ == planned(run, path, titles, sha, *git, marked, recorded)
                        &&& text_of(r.note) == excess_note(titles.len(), commits)
                        &&& text_of(r.snapshot) == (if titles.len() > 0 && snapshot_of(recorded, sha, commits).record {
                            Some(pretty_text(snapshot_json(sha)) + "\n"@)
                        } else {
                            None
                        })
                        &&& r.snapshot matches Some(s) ==> recorded_in(Some(s@)) == Some(sha)
                    },
                },
            }
        }),
{
    let run = display_path(cwd, run_dir);
    let Some(t) = plan_text else {
        return Computed { status: no_plan(Some(run), None), note: None, snapshot: None };
    };
    let path = display_path(cwd, join_path(run_dir, "plan.md").as_str());
    let plan = parse_plan_tasks(t);
    let sha = hash_text(t);
    let recorded = recorded_hash(snapshot);
    let found = plan_status(
        run.as_str(),
        path.as_str(),
        &plan,
        sha.as_str(),
        git,
        spec_sync,
        borrowed(&recorded),
    );
    let snapshot: Option<String> = if found.record {
        Some(snapshot_text(sha.as_str()))
    } else {
        None
    };
    Computed { status: found.status, note: found.note, snapshot }
}

/// The number, or null.
pub open spec fn number_or_null(n: Option<nat>) -> JsonView {
    match n {
        Some(k) => JsonView::Count(k as u64),
        None => JsonView::Null,
    }
}

/// A task, as JSON.
pub open spec fn task_json(t: TaskView) -> JsonView {
    JsonView::Object(
        seq![
            ("index"@, JsonView::Count(t.index as u64)),
            ("title"@, JsonView::Text(t.title)),
            ("completed"@, JsonView::Bool(t.completed)),
            ("commit_sha"@, text_or_null(t.commit_sha)),
        ],
    )
}

/// The state of a plan, as JSON.
pub open spec fn status_json(s: StatusView) -> JsonView {
    JsonView::Object(
        seq![
            ("run_dir"@, text_or_null(s.run_dir)),
            ("plan_path"@, text_or_null(s.plan_path)),
            ("baseline_sha"@, text_or_null(s.baseline_sha)),
            ("head_sha"@, text_or_null(s.head_sha)),
            ("plan_edited_mid_flight"@, JsonView::Bool(s.plan_edited_mid_flight)),
            ("plan_snapshot_sha256"@, text_or_null(s.plan_snapshot_sha256)),
            ("tasks"@, JsonView::Array(s.tasks.map_values(|t: TaskView| task_json(t)))),
            ("next_pending_task_index"@, number_or_null(s.next_pending_task_index)),
            ("recommendation"@, JsonView::Text(word(s.recommendation))),
        ],
    )
}

fn json_of_task(t: &Task) -> (r: Json)
    ensures
        r@ == task_json(t@),
{
    let mut m: Vec<(String, Json)> = Vec::new();
    push_member(&mut m, "index", Json::Count(t.index as u64));
    push_member(&mut m, "title", text(t.title.as_str()));
    push_member(&mut m, "completed", Json::Bool(t.completed));
    push_member(&mut m, "commit_sha", optional_text(&t.commit_sha));
    assert(members(m@) =~= task_json(t@)->Object_0);
    object(m)
}

/// The state of a plan, as JSON.
pub fn status_report(s: &PlanStatus) -> (r: Json)
    ensures
        r@ == status_json(s@),
{
    let mut list: Vec<Json> = Vec::new();
    let mut i: usize = 0;
    while i < s.tasks.len()
        invariant
            0 <= i <= s.tasks@.len(),
            list@.len() == i,
            forall|k: int| 0 <= k < i ==> (#[trigger] list@[k])@ == task_json(s.tasks@[k]@),
        decreases s.tasks.len() - i,
    {
        list.push(json_of_task(&s.tasks[i]));
        i = i + 1;
    }
    assert(elements(list@) =~= task_views(s.tasks@).map_values(|t: TaskView| task_json(t)));
    let next = match s.next_pending_task_index {
        Some(n) => Json::Count(n as u64),
        None => Json::Null,
    };
    let mut m: Vec<(String, Json)> = Vec::new();
    push_member(&mut m, "run_dir", optional_text(&s.run_dir));
    push_member(&mut m, "plan_path", optional_text(&s.plan_path));
    push_member(&mut m, "baseline_sha", optional_text(&s.baseline_sha));
    push_member(&mut m, "head_sha", optional_text(&s.head_sha));
    push_member(&mut m, "plan_edited_mid_flight", Json::Bool(s.plan_edited_mid_flight));
    push_member(&mut m, "plan_snapshot_sha256", optional_text(&s.plan_snapshot_sha256));
    push_member(&mut m, "tasks", array(list));
    push_member(&mut m, "next_pending_task_index", next);
    push_member(&mut m, "recommendation", text(s.recommendation.as_str()));
    assert(members(m@) =~= status_json(s@)->Object_0);
    object(m)
}

/// A subject is that of an implementation commit exactly where it is one of
/// three words with a colon, and anything behind it.
pub proof fn law_impl_subject(s: Seq<char>)
    ensures
        impl_subject(s) <==> (exists|t: Seq<char>| s == #[trigger] ("feat(impl):"@ + t)) || (exists|t: Seq<char>|
            s == #[trigger] ("fix(impl):"@ + t)) || (exists|t: Seq<char>| s == #[trigger] ("chore(impl):"@ + t)),
{
    law_begins_and_ends(s, "feat(impl):"@);
    law_begins_and_ends(s, "fix(impl):"@);
    law_begins_and_ends(s, "chore(impl):"@);
}

/// Whether these are the places, in order, of the commits of a list whose
/// subjects begin as those of implementation commits do.
pub open spec fn impl_places(v: Seq<(Seq<char>, Seq<char>)>, at: Seq<int>) -> bool {
    &&& forall|i: int| 0 <= i < at.len() ==> 0 <= #[trigger] at[i] < v.len()
    &&& forall|i: int, j: int| 0 <= i < j < at.len() ==> #[trigger] at[i] < #[trigger] at[j]
    &&& forall|k: int|
        0 <= k < v.len() ==> (at.contains(k) <==> (begins((#[trigger] v[k]).1, "feat(impl):"@) || begins(
            v[k].1,
            "fix(impl):"@,
        ) || begins(v[k].1, "chore(impl):"@)))
}

/// The implementation commits of a list are those whose subjects begin as such,
/// each once and in their order.
pub proof fn law_impl_commits_in_order(v: Seq<(Seq<char>, Seq<char>)>) -> (at: Seq<int>)
    ensures
        impl_places(v, at),
        impl_commits(v).len() == at.len(),
        forall|i: int| 0 <= i < at.len() ==> #[trigger] impl_commits(v)[i] == v[at[i]],
    decreases v.len(),
{
    if v.len() == 0 {
        Seq::empty()
    } else {
        let less = v.drop_last();
        let n = v.len() - 1;
        let before = law_impl_commits_in_order(less);
        let is_one = begins(v[n].1, "feat(impl):"@) || begins(v[n].1, "fix(impl):"@) || begins(
            v[n].1,
            "chore(impl):"@,
        );
        let at = if is_one {
            before.push(n)
        } else {
            before
        };
        assert forall|k: int| 0 <= k < v.len() implies (at.contains(k) <==> (begins((#[trigger] v[k]).1, "feat(impl):"@)
            || begins(v[k].1, "fix(impl):"@) || begins(v[k].1, "chore(impl):"@))) by {
            if k < n {
                assert(less[k] == v[k]);
                assert(before.contains(k) <==> at.contains(k)) by {
                    if before.contains(k) {
                        let i = choose|i: int| 0 <= i < before.len() && before[i] == k;
                        assert(at[i] == k);
                    }
                    if at.contains(k) {
                        let i = choose|i: int| 0 <= i < at.len() && at[i] == k;
                        assert(before[i] == k);
                    }
                }
            } else {
                if is_one {
                    assert(at[before.len() as int] == n);
                } else if at.contains(n) {
                    let i = choose|i: int| 0 <= i < at.len() && at[i] == n;
                    assert(before[i] < less.len());
                }
            }
        }
        assert forall|i: int| 0 <= i < at.len() implies #[trigger] impl_commits(v)[i] == v[at[i]] by {
            if i < before.len() {
                assert(impl_commits(less)[i] == less[before[i]]);
            }
        }
        at
    }
}

/// Each task of a plan has its own title and number, and the implementation
/// commit at its own place in the order of those since the baseline, if there
/// are as many: then it is completed, and otherwise it is not.
pub proof fn law_tasks_have_their_commits(
    run_dir: Seq<char>,
    plan_path: Seq<char>,
    titles: Seq<Seq<char>>,
    sha: Seq<char>,
    git: GitFacts,
    marked: bool,
    recorded: Option<Seq<char>>,
) -> (at: Seq<int>)
    ensures
        impl_places(pair_views(git.subjects@), at),
        ({
            let tasks = planned(run_dir, plan_path, titles, sha, git, marked, recorded).tasks;
            &&& tasks.len() == titles.len()
            &&& forall|i: int|
                0 <= i < tasks.len() ==> {
                    &&& (#[trigger] tasks[i]).index == i
                    &&& tasks[i].title == titles[i]
                    &&& tasks[i].completed <==> i < at.len()
                    &&& tasks[i].commit_sha == (if i < at.len() {
                        Some(git.subjects@[at[i]].0@)
                    } else {
                        None
                    })
                }
        }),
{
    law_impl_commits_in_order(pair_views(git.subjects@))
}

/// What is recommended for a plan follows from its tasks, from whether it was
/// edited and from whether it is marked as synced; the next task is the first
/// that is not completed.
pub proof fn law_status_of_plan(
    run_dir: Seq<char>,
    plan_path: Seq<char>,
    titles: Seq<Seq<char>>,
    sha: Seq<char>,
    git: GitFacts,
    marked: bool,
    recorded: Option<Seq<char>>,
)
    ensures
        ({
            let s = planned(run_dir, plan_path, titles, sha, git, marked, recorded);
            let all_done = forall|i: int| 0 <= i < s.tasks.len() ==> (#[trigger] s.tasks[i]).completed;
            let some_commit = impl_commits(pair_views(git.subjects@)).len() > 0;
            &&& s.run_dir == Some(run_dir) && s.plan_path == Some(plan_path)
            &&& s.head_sha == text_of(git.head) && s.baseline_sha == text_of(git.baseline)
            &&& s.recommendation is NoPlan <==> titles.len() == 0
            &&& s.recommendation is PlanEditedMidFlight <==> s.plan_edited_mid_flight
            &&& s.recommendation is AlreadySynced <==> titles.len() > 0 && !s.plan_edited_mid_flight && (all_done || marked)
            &&& s.recommendation is ImplementFromPlan <==> !all_done && !s.plan_edited_mid_flight && !marked
            &&& s.plan_edited_mid_flight <==> titles.len() > 0 && some_commit && recorded is Some && recorded != Some(sha)
            &&& s.plan_snapshot_sha256 == (if titles.len() == 0 || !some_commit {
                None
            } else if recorded is Some {
                recorded
            } else {
                Some(sha)
            })
            &&& s.next_pending_task_index is Some <==> s.recommendation is ImplementFromPlan
            &&& s.next_pending_task_index matches Some(k) ==> k < s.tasks.len() && !s.tasks[k as int].completed
                && forall|i: int| 0 <= i < k ==> (#[trigger] s.tasks[i]).completed
        }),
{
    let s = planned(run_dir, plan_path, titles, sha, git, marked, recorded);
    let n = impl_commits(pair_views(git.subjects@)).len();
    if n < titles.len() {
        assert(!s.tasks[n as int].completed);
    }
}

/// A mark that is white space says nothing; any other says that all is done
/// where it is the current commit, or where that is not known.
pub proof fn law_marked_synced(t: Seq<char>, head: Option<Seq<char>>)
    ensures
        !marked_synced(None, head),
        trimmed(t).len() == 0 ==> !marked_synced(Some(t), head),
        trimmed(t).len() > 0 ==> marked_synced(Some(t), None) && marked_synced(Some(t), Some(trimmed(t))),
        head is Some && head != Some(trimmed(t)) ==> !marked_synced(Some(t), head),
{
}

/// More implementation commits than tasks are told with both numbers; nothing
/// is told otherwise.
pub proof fn law_excess_told(tasks: nat, commits: nat)
    ensures
        excess_note(tasks, commits) is Some <==> 0 < tasks < commits,
        excess_note(tasks, commits) matches Some(t) ==> t == "plan-status: "@ + digits(commits)
            + " impl commits exceed "@ + digits(tasks) + " plan tasks; tail commits ignored"@,
{
}

/// There is at most one latest run. It is one of the names, and none that is
/// looked at comes after it; names that begin with `adhoc-` are not looked at.
pub proof fn law_latest_run(names: Seq<Seq<char>>, a: Seq<char>, b: Seq<char>, other: Seq<char>)
    requires
        is_latest(names, Some(a)),
        names.contains(other),
        !begins(other, "adhoc-"@),
    ensures
        names.contains(a),
        !begins(a, "adhoc-"@),
        other == a || before(codes(other), codes(a)),
        is_latest(names, Some(b)) ==> a == b,
        !is_latest(names, None),
{
    let i = choose|i: int| 0 <= i < names.len() && names[i] == other;
    assert(!passed_over(names[i]));
    if !before(codes(other), codes(a)) {
        lemma_before_total(codes(a), codes(other));
        lemma_codes_injective(a, other);
    }
    if is_latest(names, Some(b)) {
        let j = choose|j: int| 0 <= j < names.len() && names[j] == a;
        let k = choose|k: int| 0 <= k < names.len() && names[k] == b;
        assert(!before(codes(b), codes(names[j])));
        assert(!before(codes(a), codes(names[k])));
        lemma_before_total(codes(a), codes(b));
        lemma_codes_injective(a, b);
    }
}

/// Whether one of the separators of titles stands at a place in a text.
pub open spec fn separator_at(s: Seq<char>, k: int) -> bool {
    occurs_at(s, " — "@, k) || occurs_at(s, " -- "@, k) || occurs_at(s, ":"@, k)
}

/// A title in bold is the title. Otherwise the title ends before the first of
/// the separators, whichever it is, and is the whole text where there is none.
pub proof fn law_title(full: Seq<char>, bold: Seq<char>, k: int)
    ensures
        trimmed(bold).len() > 0 ==> title(full, Some(bold)) == trimmed(bold),
        trimmed(bold).len() == 0 ==> title(full, Some(bold)) == title(full, None),
        (forall|j: int| !separator_at(trimmed(full), j)) ==> title(full, None) == trimmed(full),
        separator_at(trimmed(full), k) && trimmed(trimmed(full).take(k)).len() > 0 && (forall|j: int|
            0 <= j < k ==> !separator_at(trimmed(full), j)) ==> title(full, None) == trimmed(trimmed(full).take(k)),
{
    let t = trimmed(full);
    lemma_find_from(t, " — "@, 0);
    lemma_find_from(t, " -- "@, 0);
    lemma_find_from(t, ":"@, 0);
    if forall|j: int| !separator_at(t, j) {
        if let Some(j) = find_in(t, " — "@) {
            assert(separator_at(t, j));
        }
        if let Some(j) = find_in(t, " -- "@) {
            assert(separator_at(t, j));
        }
        if let Some(j) = find_in(t, ":"@) {
            assert(separator_at(t, j));
        }
    }
    if separator_at(t, k) && trimmed(t.take(k)).len() > 0 && forall|j: int| 0 <= j < k ==> !separator_at(t, j) {
        if let Some(j) = find_in(t, " — "@) {
            assert(separator_at(t, j));
        }
        if let Some(j) = find_in(t, " -- "@) {
            assert(separator_at(t, j));
        }
        if let Some(j) = find_in(t, ":"@) {
            assert(separator_at(t, j));
        }
    }
}

/// The words for what to do are told apart.
pub proof fn law_recommendation_words()
    ensures
        word(Recommendation::NoPlan) == "no_plan"@,
        word(Recommendation::AlreadySynced) == "already_synced"@,
        word(Recommendation::ImplementFromPlan) == "implement_from_plan"@,
        word(Recommendation::PlanEditedMidFlight) == "plan_edited_mid_flight"@,
{
}

/// The answer to `plan-status` tells everything that is known of the plan, each
/// under its own name.
pub proof fn law_status_told(s: StatusView)
    ensures
        ({
            let j = status_json(s);
            &&& member(j, "run_dir"@) == Some(text_or_null(s.run_dir))
            &&& member(j, "plan_path"@) == Some(text_or_null(s.plan_path))
            &&& member(j, "baseline_sha"@) == Some(text_or_null(s.baseline_sha))
            &&& member(j, "head_sha"@) == Some(text_or_null(s.head_sha))
            &&& member(j, "plan_edited_mid_flight"@) == Some(JsonView::Bool(s.plan_edited_mid_flight))
            &&& member(j, "plan_snapshot_sha256"@) == Some(text_or_null(s.plan_snapshot_sha256))
            &&& member(j, "recommendation"@) == Some(JsonView::Text(word(s.recommendation)))
            &&& member(j, "next_pending_task_index"@) == Some(
                match s.next_pending_task_index {
                    Some(k) => JsonView::Count(k as u64),
                    None => JsonView::Null,
                },
            )
            &&& member(j, "tasks"@) matches Some(JsonView::Array(a)) && a.len() == s.tasks.len() && forall|i: int|
                0 <= i < a.len() ==> {
                    &&& member(#[trigger] a[i], "index"@) == Some(JsonView::Count(s.tasks[i].index as u64))
                    &&& member(a[i], "title"@) == Some(JsonView::Text(s.tasks[i].title))
                    &&& member(a[i], "completed"@) == Some(JsonView::Bool(s.tasks[i].completed))
                    &&& member(a[i], "commit_sha"@) == Some(text_or_null(s.tasks[i].commit_sha))
                }
        }),
{
    reveal_strlit("run_dir");
    reveal_strlit("plan_path");
    reveal_strlit("baseline_sha");
    reveal_strlit("head_sha");
    reveal_strlit("plan_edited_mid_flight");
    reveal_strlit("plan_snapshot_sha256");
    reveal_strlit("tasks");
    reveal_strlit("next_pending_task_index");
    reveal_strlit("recommendation");
    reveal_strlit("index");
    reveal_strlit("title");
    reveal_strlit("completed");
    reveal_strlit("commit_sha");
    reveal_with_fuel(member_from, 10);
    let m = status_json(s)->Object_0;
    assert(m[0].0 == "run_dir"@ && m[1].0 == "plan_path"@ && m[2].0 == "baseline_sha"@ && m[3].0 == "head_sha"@);
    assert(m[4].0 == "plan_edited_mid_flight"@ && m[5].0 == "plan_snapshot_sha256"@ && m[6].0 == "tasks"@);
    assert(m[7].0 == "next_pending_task_index"@ && m[8].0 == "recommendation"@);
    let a = member(status_json(s), "tasks"@)->0->Array_0;
    assert forall|i: int| 0 <= i < a.len() implies {
        &&& member(#[trigger] a[i], "index"@) == Some(JsonView::Count(s.tasks[i].index as u64))
        &&& member(a[i], "title"@) == Some(JsonView::Text(s.tasks[i].title))
        &&& member(a[i], "completed"@) == Some(JsonView::Bool(s.tasks[i].completed))
        &&& member(a[i], "commit_sha"@) == Some(text_or_null(s.tasks[i].commit_sha))
    } by {
        assert(a[i] == task_json(s.tasks[i]));
        let q = a[i]->Object_0;
        assert(q[0].0 == "index"@ && q[1].0 == "title"@ && q[2].0 == "completed"@ && q[3].0 == "commit_sha"@);
        assert("index"@[0] != "title"@[0]);
    }
}

/// An item of a task list: a bold span, if any, a text, and an item of a list
/// inside it, if any.
pub struct PlanItem {
    pub bold: Option<String>,
    pub text: String,
    pub inside: Option<String>,
}

/// The events of a bold span, if there is one.
pub open spec fn bold_events(bold: Option<String>) -> Seq<MdEvent> {
    match bold {
        Some(b) => seq![MdEvent::StrongStart, MdEvent::Text(b), MdEvent::StrongEnd],
        None => Seq::empty(),
    }
}

/// The events of a list of one item, if there is one.
pub open spec fn inside_events(inside: Option<String>) -> Seq<MdEvent> {
    match inside {
        Some(t) => seq![
            MdEvent::ListStart,
            MdEvent::ItemStart,
            MdEvent::Text(t),
            MdEvent::ItemEnd,
            MdEvent::ListEnd,
        ],
        None => Seq::empty(),
    }
}

/// The events of an item.
pub open spec fn item_events(i: PlanItem) -> Seq<MdEvent> {
    seq![MdEvent::ItemStart] + bold_events(i.bold) + seq![MdEvent::Text(i.text)] + inside_events(i.inside)
        + seq![MdEvent::ItemEnd]
}

/// The events of the items of a list.
pub open spec fn items_events(v: Seq<PlanItem>) -> Seq<MdEvent>
    decreases v.len(),
{
    if v.len() == 0 {
        Seq::empty()
    } else {
        items_events(v.drop_last()) + item_events(v.last())
    }
}

/// The title of an item: its bold span, or else what its own text gives.
pub open spec fn item_title(i: PlanItem) -> Seq<char> {
    match i.bold {
        Some(b) => title(b@ + i.text@, Some(b@)),
        None => title(i.text@, None),
    }
}

/// The tasks of a plan are the items of the first list under its `## Tasks`
/// heading: one for each, in order, with the title of its own text. What stands
/// before the heading, in lists inside the items and after the list has no
/// bearing on them.
pub proof fn law_tasks_are_the_items(before: Seq<MdEvent>, heading: String, v: Seq<PlanItem>, after: Seq<MdEvent>)
    requires
        forall|i: int| 0 <= i < before.len() ==> #[trigger] before[i] != MdEvent::HeadingStart(2),
        same_ignoring_case(trimmed(heading@), "Tasks"@),
    ensures
        plan_titles(
            before + seq![MdEvent::HeadingStart(2), MdEvent::Text(heading), MdEvent::HeadingEnd, MdEvent::ListStart]
                + items_events(v) + seq![MdEvent::ListEnd] + after,
        ) == Some(v.map_values(|i: PlanItem| item_title(i))),
{
    let head = seq![MdEvent::HeadingStart(2), MdEvent::Text(heading), MdEvent::HeadingEnd, MdEvent::ListStart];
    let e = before + head + items_events(v) + seq![MdEvent::ListEnd] + after;
    let n = before.len() as int;
    assert forall|i: int| 0 <= i < n implies #[trigger] e[i] == before[i] by {}
    assert(e[n] == MdEvent::HeadingStart(2));
    assert(e[n + 1] == MdEvent::Text(heading));
    assert(e[n + 2] == MdEvent::HeadingEnd);
    assert(e[n + 3] == MdEvent::ListStart);
    assert(heading_end(e, n + 1) == n + 2) by {
        reveal_with_fuel(heading_end, 3);
    }
    assert(inline_text(e, n + 1, n + 2) =~= heading@) by {
        reveal_with_fuel(inline_text, 3);
    }
    lemma_heading_passed(e, 0, n);
    assert(after_tasks_heading(e, 0) == Some(n + 3));
    let k = n + 4;
    assert(after_list_start(e, n + 3) == Some(k));
    let m = k + items_events(v).len();
    assert(e[m] == MdEvent::ListEnd);
    assert(e.subrange(k, m) =~= items_events(v));
    lemma_items_depth(e, k, v);
    lemma_list_end_at(e, k, k, m);
    lemma_titles(e, k, v, m);
}

proof fn lemma_heading_passed(e: Seq<MdEvent>, i: int, n: int)
    requires
        0 <= i <= n < e.len(),
        forall|j: int| i <= j < n ==> #[trigger] e[j] != MdEvent::HeadingStart(2),
    ensures
        after_tasks_heading(e, i) == after_tasks_heading(e, n),
    decreases n - i,
{
    if i < n {
        assert(e[i] != MdEvent::HeadingStart(2));
        lemma_heading_passed(e, i + 1, n);
    }
}

/// In the events of an item one list is open, but in the list inside.
proof fn lemma_item_depth(e: Seq<MdEvent>, k: int, s: int, i: PlanItem)
    requires
        0 <= k <= s,
        s + item_events(i).len() <= e.len(),
        e.subrange(s, s + item_events(i).len()) == item_events(i),
        depth(e, k, s) == 1,
    ensures
        ({
            let b = s + 1 + bold_events(i.bold).len();
            let x = inside_events(i.inside).len();
            let end = b + 1 + x;
            &&& end + 1 == s + item_events(i).len()
            &&& e[s] is ItemStart && e[b] == MdEvent::Text(i.text) && e[end] is ItemEnd
            &&& i.bold matches Some(t) ==> e[s + 1] is StrongStart && e[s + 2] == MdEvent::Text(t) && e[s + 3] is StrongEnd
            &&& forall|j: int| s <= j <= b + 1 ==> #[trigger] depth(e, k, j) == 1
            &&& x > 0 ==> x == 5 && e[b + 1] is ListStart && e[b + 2] is ItemStart && e[b + 3] is Text && e[b + 4] is ItemEnd
                && e[b + 5] is ListEnd && depth(e, k, b + 2) == 2 && depth(e, k, b + 3) == 2 && depth(e, k, b + 4) == 2
                && depth(e, k, b + 5) == 2
            &&& depth(e, k, end) == 1
            &&& depth(e, k, end + 1) == 1
        }),
{
    let q = item_events(i);
    let b = s + 1 + bold_events(i.bold).len();
    let x = inside_events(i.inside).len();
    let end = b + 1 + x;
    assert forall|j: int| 0 <= j < q.len() implies #[trigger] e[s + j] == q[j] by {
        assert(e.subrange(s, s + q.len())[j] == e[s + j]);
    }
    assert(e[s + 0] == q[0]);
    assert(e[s + 1] == q[1]);
    assert(depth(e, k, s + 1) == 1);
    if i.bold is Some {
        assert(e[s + 2] == q[2] && e[s + 3] == q[3] && e[s + 4] == q[4]);
        assert(depth(e, k, s + 2) == 1);
        assert(depth(e, k, s + 3) == 1);
        assert(depth(e, k, s + 4) == 1);
    }
    assert(e[b] == MdEvent::Text(i.text)) by {
        assert(e[s + (b - s)] == q[b - s]);
    }
    assert(depth(e, k, b + 1) == 1);
    if i.inside is Some {
        assert(e[s + (b + 1 - s)] == q[b + 1 - s]);
        assert(e[s + (b + 2 - s)] == q[b + 2 - s]);
        assert(e[s + (b + 3 - s)] == q[b + 3 - s]);
        assert(e[s + (b + 4 - s)] == q[b + 4 - s]);
        assert(e[s + (b + 5 - s)] == q[b + 5 - s]);
        assert(depth(e, k, b + 2) == 2);
        assert(depth(e, k, b + 3) == 2);
        assert(depth(e, k, b + 4) == 2);
        assert(depth(e, k, b + 5) == 2);
        assert(depth(e, k, b + 6) == 1);
    }
    assert(e[s + (end - s)] == q[end - s]);
    assert(depth(e, k, end + 1) == 1);
}

proof fn lemma_items_depth(e: Seq<MdEvent>, k: int, v: Seq<PlanItem>)
    requires
        0 <= k,
        k + items_events(v).len() <= e.len(),
        e.subrange(k, k + items_events(v).len()) == items_events(v),
    ensures
        depth(e, k, k + items_events(v).len()) == 1,
        forall|j: int|
            k <= j < k + items_events(v).len() ==> !(#[trigger] e[j] is ListEnd && depth(e, k, j) == 1),
    decreases v.len(),
{
    if v.len() > 0 {
        let less = v.drop_last();
        let n = items_events(less).len() as int;
        let i = v.last();
        let s = k + n;
        let total = items_events(v).len() as int;
        assert(e.subrange(k, s) =~= items_events(less)) by {
            assert(e.subrange(k, k + total).take(n) =~= items_events(less));
            assert(e.subrange(k, k + total).take(n) =~= e.subrange(k, s));
        }
        assert(e.subrange(s, s + item_events(i).len()) =~= item_events(i)) by {
            assert(e.subrange(k, k + total).skip(n) =~= item_events(i));
            assert(e.subrange(k, k + total).skip(n) =~= e.subrange(s, s + item_events(i).len()));
        }
        lemma_items_depth(e, k, less);
        lemma_item_depth(e, k, s, i);
        let b = s + 1 + bold_events(i.bold).len();
        assert forall|j: int| k <= j < k + total implies !(#[trigger] e[j] is ListEnd && depth(e, k, j) == 1) by {
            if j >= s {
                let x = inside_events(i.inside).len();
                assert(j <= b + 1 + x);
                if j < b && j > s {
                    assert(i.bold is Some);
                    assert(j == s + 1 || j == s + 2 || j == s + 3);
                }
            }
        }
    }
}

proof fn lemma_list_end_at(e: Seq<MdEvent>, k: int, i: int, m: int)
    requires
        0 <= k <= i <= m < e.len(),
        e[m] is ListEnd,
        depth(e, k, m) == 1,
        forall|j: int| i <= j < m ==> !(#[trigger] e[j] is ListEnd && depth(e, k, j) == 1),
    ensures
        list_end(e, k, i) == m,
    decreases m - i,
{
    if i < m {
        assert(!(e[i] is ListEnd && depth(e, k, i) == 1));
        lemma_list_end_at(e, k, i + 1, m);
    }
}

proof fn lemma_item_end_at(e: Seq<MdEvent>, k: int, i: int, end: int, m: int)
    requires
        i <= end < m,
        e[end] is ItemEnd,
        depth(e, k, end) == 1,
        forall|j: int| i <= j < end ==> !(#[trigger] e[j] is ItemEnd && depth(e, k, j) == 1),
    ensures
        item_end(e, k, i, m) == end,
    decreases end - i,
{
    if i < end {
        assert(!(e[i] is ItemEnd && depth(e, k, i) == 1));
        lemma_item_end_at(e, k, i + 1, end, m);
    }
}

proof fn lemma_no_bold(e: Seq<MdEvent>, k: int, i: int, j: int)
    requires
        forall|q: int| i <= q < j ==> !(#[trigger] e[q] is StrongStart),
    ensures
        bold_start(e, k, i, j) is None,
    decreases j - i,
{
    if i < j {
        assert(!(e[i] is StrongStart));
        lemma_no_bold(e, k, i + 1, j);
    }
}

proof fn lemma_no_title(e: Seq<MdEvent>, k: int, i: int, j: int, m: int)
    requires
        k <= i <= j,
        forall|q: int| i <= q < j ==> !(#[trigger] e[q] is ItemStart && depth(e, k, q) == 1),
    ensures
        titles(e, k, j, m) == titles(e, k, i, m),
    decreases j - i,
{
    if i < j {
        assert(!(e[j - 1] is ItemStart && depth(e, k, j - 1) == 1));
        lemma_no_title(e, k, i, j - 1, m);
    }
}

/// What stands in the events of an item after the first.
proof fn lemma_item_rest(e: Seq<MdEvent>, k: int, s: int, i: PlanItem)
    requires
        0 <= k <= s,
        s + item_events(i).len() <= e.len(),
        e.subrange(s, s + item_events(i).len()) == item_events(i),
        depth(e, k, s) == 1,
    ensures
        ({
            let b = s + 1 + bold_events(i.bold).len();
            let end = b + 1 + inside_events(i.inside).len();
            &&& forall|j: int|
                s + 1 <= j < end ==> !(#[trigger] e[j] is ItemStart && depth(e, k, j) == 1) && !(e[j] is ItemEnd && depth(
                    e,
                    k,
                    j,
                ) == 1)
            &&& forall|j: int| b <= j < end ==> !(#[trigger] e[j] is StrongStart)
        }),
{
    lemma_item_depth(e, k, s, i);
    let b = s + 1 + bold_events(i.bold).len();
    let x = inside_events(i.inside).len();
    let end = b + 1 + x;
    assert forall|j: int| s + 1 <= j < end implies !(#[trigger] e[j] is ItemStart && depth(e, k, j) == 1) && !(
    e[j] is ItemEnd && depth(e, k, j) == 1) && (j >= b ==> !(e[j] is StrongStart)) by {
        if j < b {
            assert(i.bold is Some);
            assert(j == s + 1 || j == s + 2 || j == s + 3);
        } else if j > b {
            assert(x == 5);
            assert(j == b + 1 || j == b + 2 || j == b + 3 || j == b + 4 || j == b + 5);
        }
    }
}

proof fn lemma_item_own_text(e: Seq<MdEvent>, k: int, s: int, i: PlanItem)
    requires
        0 <= k <= s,
        s + item_events(i).len() <= e.len(),
        e.subrange(s, s + item_events(i).len()) == item_events(i),
        depth(e, k, s) == 1,
    ensures
        ({
            let n = s + 1;
            let end = n + bold_events(i.bold).len() + 1 + inside_events(i.inside).len();
            &&& item_text(e, k, n, end) == (match i.bold {
                Some(t) => t@ + i.text@,
                None => i.text@,
            })
            &&& bold_text(e, k, n, end) == text_of(i.bold)
        }),
{
    lemma_item_depth(e, k, s, i);
    lemma_item_rest(e, k, s, i);
    let n = s + 1;
    let b = n + bold_events(i.bold).len();
    let end = b + 1 + inside_events(i.inside).len();
    assert(depth(e, k, b) == 1 && depth(e, k, b + 1) == 1 && depth(e, k, n) == 1);
    assert(item_text(e, k, n, n) =~= Seq::<char>::empty());
    lemma_inside_text(e, k, n, b + 1, i);
    match i.bold {
        Some(t) => {
            assert(depth(e, k, s + 2) == 1 && depth(e, k, s + 3) == 1);
            assert(item_text(e, k, n, n + 1) =~= Seq::<char>::empty());
            assert(item_text(e, k, n, n + 2) =~= t@);
            assert(item_text(e, k, n, n + 3) =~= t@);
            assert(item_text(e, k, n, b + 1) =~= t@ + i.text@);
            assert(bold_start(e, k, n, end) == Some(n));
            assert(bold_end(e, k, n + 2, end) == n + 2);
            assert(bold_end(e, k, n + 1, end) == n + 2);
            assert(item_text(e, k, n + 1, n + 1) =~= Seq::<char>::empty());
            assert(item_text(e, k, n + 1, n + 2) =~= t@);
        },
        None => {
            assert(item_text(e, k, n, b + 1) =~= i.text@);
            lemma_no_bold(e, k, n, end);
        },
    }
}

proof fn lemma_one_title(e: Seq<MdEvent>, k: int, s: int, i: PlanItem, m: int)
    requires
        0 <= k <= s,
        s + item_events(i).len() <= m <= e.len(),
        e.subrange(s, s + item_events(i).len()) == item_events(i),
        depth(e, k, s) == 1,
    ensures
        titles(e, k, s + item_events(i).len(), m) == titles(e, k, s, m).push(item_title(i)),
{
    lemma_item_depth(e, k, s, i);
    lemma_item_rest(e, k, s, i);
    lemma_item_own_text(e, k, s, i);
    let n = s + 1;
    let end = n + bold_events(i.bold).len() + 1 + inside_events(i.inside).len();
    lemma_item_end_at(e, k, n, end, m);
    assert(titles(e, k, n, m) == titles(e, k, s, m).push(item_title(i)));
    lemma_no_title(e, k, n, end, m);
    lemma_no_title(e, k, end, end + 1, m);
}

proof fn lemma_inside_text(e: Seq<MdEvent>, k: int, n: int, a: int, i: PlanItem)
    requires
        n <= a,
        inside_events(i.inside).len() > 0 ==> e[a] is ListStart && e[a + 4] is ListEnd && depth(e, k, a) == 1 && depth(
            e,
            k,
            a + 1,
        ) == 2 && depth(e, k, a + 2) == 2 && depth(e, k, a + 3) == 2 && depth(e, k, a + 4) == 2,
        inside_events(i.inside).len() == 0 || inside_events(i.inside).len() == 5,
    ensures
        item_text(e, k, n, a + inside_events(i.inside).len()) == item_text(e, k, n, a),
{
    if inside_events(i.inside).len() > 0 {
        assert(item_text(e, k, n, a + 1) =~= item_text(e, k, n, a));
        assert(item_text(e, k, n, a + 2) == item_text(e, k, n, a + 1));
        assert(item_text(e, k, n, a + 3) == item_text(e, k, n, a + 2));
        assert(item_text(e, k, n, a + 4) == item_text(e, k, n, a + 3));
        assert(item_text(e, k, n, a + 5) == item_text(e, k, n, a + 4));
    }
}

proof fn lemma_titles(e: Seq<MdEvent>, k: int, v: Seq<PlanItem>, m: int)
    requires
        0 <= k,
        k + items_events(v).len() <= m <= e.len(),
        e.subrange(k, k + items_events(v).len()) == items_events(v),
    ensures
        titles(e, k, k + items_events(v).len(), m) == v.map_values(|i: PlanItem| item_title(i)),
    decreases v.len(),
{
    let all = v.map_values(|i: PlanItem| item_title(i));
    if v.len() == 0 {
        assert(all =~= Seq::<Seq<char>>::empty());
    } else {
        let less = v.drop_last();
        let n = items_events(less).len() as int;
        let i = v.last();
        let s = k + n;
        let total = items_events(v).len() as int;
        assert(e.subrange(k, s) =~= items_events(less)) by {
            assert(e.subrange(k, k + total).take(n) =~= items_events(less));
            assert(e.subrange(k, k + total).take(n) =~= e.subrange(k, s));
        }
        assert(e.subrange(s, s + item_events(i).len()) =~= item_events(i)) by {
            assert(e.subrange(k, k + total).skip(n) =~= item_events(i));
            assert(e.subrange(k, k + total).skip(n) =~= e.subrange(s, s + item_events(i).len()));
        }
        lemma_titles(e, k, less, m);
        lemma_items_depth(e, k, less);
        lemma_one_title(e, k, s, i, m);
        assert(all =~= less.map_values(|i: PlanItem| item_title(i)).push(item_title(i)));
    }
}

/// A plan without a `## Tasks` heading has no tasks to tell of; one whose
/// heading comes before another heading, with no list between, has none.
pub proof fn law_no_tasks(e: Seq<MdEvent>, heading: String, level: usize, after: Seq<MdEvent>)
    requires
        forall|i: int| 0 <= i < e.len() ==> #[trigger] e[i] != MdEvent::HeadingStart(2),
        same_ignoring_case(trimmed(heading@), "Tasks"@),
    ensures
        plan_titles(e) is None,
        plan_titles(
            e + seq![
                MdEvent::HeadingStart(2),
                MdEvent::Text(heading),
                MdEvent::HeadingEnd,
                MdEvent::HeadingStart(level),
            ] + after,
        ) == Some(Seq::<Seq<char>>::empty()),
{
    lemma_no_heading(e, 0);
    let n = e.len() as int;
    let f = e + seq![MdEvent::HeadingStart(2), MdEvent::Text(heading), MdEvent::HeadingEnd, MdEvent::HeadingStart(level)]
        + after;
    assert forall|i: int| 0 <= i < n implies #[trigger] f[i] == e[i] by {}
    assert(f[n] == MdEvent::HeadingStart(2));
    assert(f[n + 1] == MdEvent::Text(heading));
    assert(f[n + 2] == MdEvent::HeadingEnd);
    assert(f[n + 3] == MdEvent::HeadingStart(level));
    assert(heading_end(f, n + 1) == n + 2) by {
        reveal_with_fuel(heading_end, 3);
    }
    assert(inline_text(f, n + 1, n + 2) =~= heading@) by {
        reveal_with_fuel(inline_text, 3);
    }
    lemma_heading_passed(f, 0, n);
}

proof fn lemma_no_heading(e: Seq<MdEvent>, i: int)
    requires
        0 <= i <= e.len(),
        forall|j: int| 0 <= j < e.len() ==> #[trigger] e[j] != MdEvent::HeadingStart(2),
    ensures
        after_tasks_heading(e, i) is None,
    decreases e.len() - i,
{
    if i < e.len() {
        assert(e[i] != MdEvent::HeadingStart(2));
        lemma_no_heading(e, i + 1);
    }
}

/// The hash that was recorded of a plan is read back from what is written of it;
/// a file that is missing, or that holds no JSON or no hash, records none.
pub proof fn law_recorded_hash(t: Seq<char>, v: JsonView, sha: Seq<char>)
    ensures
        recorded_in(None) is None,
        json_document(t) is Err ==> recorded_in(Some(t)) is None,
        json_document(t) == Ok::<JsonView, Seq<char>>(v) && member(v, "sha256"@) == Some(JsonView::Text(sha))
            ==> recorded_in(Some(t)) == Some(sha),
        json_document(t) == Ok::<JsonView, Seq<char>>(v) && member(v, "sha256"@) is None ==> recorded_in(Some(t)) is None,
        member(snapshot_json(sha), "sha256"@) == Some(JsonView::Text(sha)),
{
    let m = snapshot_json(sha)->Object_0;
    assert(m[0].0 == "sha256"@);
    reveal_with_fuel(member_from, 2);
}

/// A run without a plan is told as such, and nothing else of it.
pub proof fn law_no_plan(run_dir: Option<Seq<char>>, plan_path: Option<Seq<char>>)
    ensures
        ({
            let s = nothing_planned(run_dir, plan_path);
            &&& s.run_dir == run_dir && s.plan_path == plan_path
            &&& s.recommendation is NoPlan && s.tasks.len() == 0 && s.next_pending_task_index is None
            &&& s.baseline_sha is None && s.head_sha is None && !s.plan_edited_mid_flight && s.plan_snapshot_sha256 is None
        }),
{
}

/// A second-level heading that says something else than that tasks follow is
/// passed over; the first that says so counts.
pub proof fn law_tasks_heading(e: Seq<MdEvent>, i: int)
    requires
        0 <= i < e.len(),
        forall|j: int| 0 <= j < i ==> #[trigger] e[j] != MdEvent::HeadingStart(2),
        e[i] == MdEvent::HeadingStart(2),
        heading_end(e, i + 1) < e.len(),
        i < heading_end(e, i + 1),
    ensures
        ({
            let end = heading_end(e, i + 1);
            let says = same_ignoring_case(trimmed(inline_text(e, i + 1, end)), "Tasks"@);
            &&& says ==> after_tasks_heading(e, 0) == Some(end + 1)
            &&& !says ==> after_tasks_heading(e, 0) == after_tasks_heading(e, end + 1)
        }),
{
    lemma_heading_passed(e, 0, i);
}

/// The list of tasks is the first list behind the heading, before any other
/// heading.
pub proof fn law_list_of_tasks(e: Seq<MdEvent>, i: int, k: int)
    requires
        0 <= i <= k < e.len(),
        forall|j: int| i <= j < k ==> !((#[trigger] e[j]) is HeadingStart) && !(e[j] is ListStart),
    ensures
        e[k] is ListStart ==> after_list_start(e, i) == Some(k + 1),
        e[k] is HeadingStart ==> after_list_start(e, i) is None,
    decreases k - i,
{
    if i < k {
        assert(!(e[i] is HeadingStart) && !(e[i] is ListStart));
        law_list_of_tasks(e, i + 1, k);
    }
}

/// The text of an item is what is written in it, as text or as code, with a space
/// for each break of a line; what stands in a list inside it is left out.
pub proof fn law_item_text(e: Seq<MdEvent>, k: int, i: int, j: int)
    requires
        0 <= k <= i <= j < e.len(),
    ensures
        item_text(e, k, i, i) == Seq::<char>::empty(),
        depth(e, k, j) != 1 ==> item_text(e, k, i, j + 1) == item_text(e, k, i, j),
        depth(e, k, j) == 1 ==> {
            &&& e[j] matches MdEvent::Text(t) ==> item_text(e, k, i, j + 1) == item_text(e, k, i, j) + t@
            &&& e[j] matches MdEvent::Code(t) ==> item_text(e, k, i, j + 1) == item_text(e, k, i, j) + t@
            &&& e[j] is Break ==> item_text(e, k, i, j + 1) == item_text(e, k, i, j).push(' ')
            &&& !(e[j] is Text) && !(e[j] is Code) && !(e[j] is Break) ==> item_text(e, k, i, j + 1) == item_text(e, k, i, j)
        },
        depth(e, k, k) == 1,
        e[j] is ListStart ==> depth(e, k, j + 1) == depth(e, k, j) + 1,
        e[j] is ListEnd ==> depth(e, k, j + 1) == depth(e, k, j) - 1,
        !(e[j] is ListStart) && !(e[j] is ListEnd) ==> depth(e, k, j + 1) == depth(e, k, j),
{
    let s = item_text(e, k, i, j);
    assert(s + seq![' '] =~= s.push(' '));
}

} // verus!
