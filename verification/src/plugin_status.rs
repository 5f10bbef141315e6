//! Whether a plugin is installed, and what it says of itself.

use crate::contract::{law_publish_plugin_idempotent, lemma_published_version, plugin_from, plugins_after};
use crate::contracts::{
    catalog_json, contract_in, contract_json, contracts_in, keeps_places, lemma_places_more, ContractView,
};
use crate::git::pair_views;
use crate::host::{dir_name, own_dir};
use crate::json::{
    alike, elements, get, get_text, json_document, lemma_alike_items, lemma_alike_member, lemma_holding, member,
    member_from, members, object, optional_text, parse_json, push_member, text, text_array, text_member, text_or_null,
    texts, Json, JsonView,
};
use crate::markdown::{events_of, heading_end, inline_text, markdown_spans, read_heading, read_markdown, MdEvent};
use crate::ordered::{before, codes, lemma_before_irreflexive, lemma_before_transitive, text_before};
use crate::path::{below, display_path, join_path, seen_from};
use crate::text::{
    begins, borrowed, chars_of, digits, ends, ends_with, eq_ignore_ascii_case, join, joined, law_digits,
    law_split_where_it_stands, law_trimmed, law_white, number_shown, push_text, same, same_ignoring_case, shown,
    split_at_first, split_once, string_of, strip_prefix, strip_suffix, text_of, trim, trimmed, views, white,
};
use vstd::prelude::*;

verus! {

/// The arguments of `plugin-status`.
pub struct Args {
    /// The name of the plugin, with or without `-contract` at its end.
    pub plugin_name: String,
}

/// A repository's address without the marks that `git` tools put on it.
pub open spec fn plain_url(s: Seq<char>) -> Seq<char> {
    let t = if begins(s, "git+"@) {
        s.skip(4)
    } else {
        s
    };
    if ends(t, ".git"@) {
        t.take(t.len() - 4)
    } else {
        t
    }
}

/// A repository's address without the marks that `git` tools put on it.
pub fn normalize_repo_url(s: &str) -> (r: String)
    ensures
        r@ == plain_url(s@),
{
    proof {
        reveal_strlit("git+");
        reveal_strlit(".git");
        assert("git+"@.len() == 4 && ".git"@.len() == 4);
    }
    let t = match strip_prefix(s, "git+") {
        Some(t) => t,
        None => s.to_owned(),
    };
    match strip_suffix(t.as_str(), ".git") {
        Some(u) => u,
        None => t,
    }
}

/// The address in a field that is a text, or an object with a `url`.
pub open spec fn url_in(v: JsonView) -> Option<Seq<char>> {
    match v {
        JsonView::Text(s) => Some(plain_url(s)),
        _ => match text_member(v, "url"@) {
            Some(s) => Some(plain_url(s)),
            None => None,
        },
    }
}

/// The address in a field that is a text, or an object with a `url`.
pub fn extract_url_field(v: &Json) -> (r: Option<String>)
    ensures
        text_of(r) == url_in(v@),
{
    proof {
        lemma_holding(*v);
    }
    match v {
        Json::Text(s) => Some(normalize_repo_url(s.as_str())),
        _ => match get_text(v, "url") {
            Some(s) => Some(normalize_repo_url(s.as_str())),
            None => None,
        },
    }
}

/// What comes before the first `sep`, or the whole.
pub open spec fn part_before(s: Seq<char>, sep: Seq<char>) -> Seq<char> {
    match split_at_first(s, sep) {
        Some(p) => p.0,
        None => s,
    }
}

/// What comes after the last `c`, or the whole.
pub open spec fn part_after_last(s: Seq<char>, c: char) -> Seq<char>
    decreases s.len(),
{
    if s.len() == 0 || s.last() == c {
        Seq::empty()
    } else {
        part_after_last(s.drop_last(), c).push(s.last())
    }
}

/// Whether a character may stand in the scheme of an address.
pub open spec fn scheme_char(c: char) -> bool {
    ('a' <= c <= 'z') || ('A' <= c <= 'Z') || ('0' <= c <= '9') || c == '+' || c == '-' || c == '.'
}

/// Whether a text is the scheme of an address, or several with colons between
/// them, as in `scm:git:https`.
pub open spec fn is_scheme(s: Seq<char>) -> bool {
    forall|i: int| 0 <= i < s.len() ==> scheme_char(#[trigger] s[i]) || s[i] == ':'
}

/// An address without its scheme, or without the slashes that stand in its
/// place.
pub open spec fn without_scheme(url: Seq<char>) -> Seq<char> {
    match split_at_first(url, "://"@) {
        Some(p) => if is_scheme(p.0) {
            p.1
        } else {
            url
        },
        None => if begins(url, "//"@) {
            url.skip(2)
        } else {
            url
        },
    }
}

/// The host of an address: what stands between the scheme and the path, without
/// the user before it and the port, or the path of a `git` address, behind it.
pub open spec fn host_of(url: Seq<char>) -> Seq<char> {
    let authority = part_before(part_before(part_before(without_scheme(trimmed(url)), "/"@), "?"@), "#"@);
    part_before(part_after_last(authority, '@'), ":"@)
}

/// Whether a host is GitHub's; the dot of the root may stand at its end.
pub open spec fn github_host(host: Seq<char>) -> bool {
    let name = if ends(host, "."@) {
        host.drop_last()
    } else {
        host
    };
    name == "github.com"@ || ends(name, ".github.com"@)
}

/// Where issues of a repository on GitHub are kept.
pub open spec fn github_issues(repo: Seq<char>) -> Option<Seq<char>> {
    if github_host(host_of(repo)) {
        Some(repo + "/issues"@)
    } else {
        None
    }
}

fn before_first(s: &str, sep: &str) -> (r: String)
    ensures
        r@ == part_before(s@, sep@),
{
    match split_once(s, sep) {
        Some((head, _)) => head,
        None => s.to_owned(),
    }
}

fn after_last(s: &str, c: char) -> (r: String)
    ensures
        r@ == part_after_last(s@, c),
{
    let v = chars_of(s);
    let mut out: String = String::new();
    let mut i: usize = 0;
    assert(out@ =~= Seq::<char>::empty());
    while i < v.len()
        invariant
            0 <= i <= v@.len(),
            v@ == s@,
            out@ == part_after_last(s@.take(i as int), c),
        decreases v.len() - i,
    {
        assert(s@.take(i + 1).drop_last() =~= s@.take(i as int));
        let next: char = v[i];
        if next == c {
            out = String::new();
            assert(out@ =~= Seq::<char>::empty());
        } else {
            out.push(next);
        }
        i = i + 1;
    }
    assert(s@.take(s@.len() as int) =~= s@);
    out
}

fn may_be_scheme(s: &str) -> (r: bool)
    ensures
        r == is_scheme(s@),
{
    let v = chars_of(s);
    let mut i: usize = 0;
    while i < v.len()
        invariant
            0 <= i <= v@.len(),
            v@ == s@,
            forall|k: int| 0 <= k < i ==> scheme_char(#[trigger] s@[k]) || s@[k] == ':',
        decreases v.len() - i,
    {
        let c: char = v[i];
        let fits = ('a' <= c && c <= 'z') || ('A' <= c && c <= 'Z') || ('0' <= c && c <= '9') || c == '+' || c == '-'
            || c == '.' || c == ':';
        if !fits {
            assert(!scheme_char(s@[i as int]));
            return false;
        }
        i = i + 1;
    }
    true
}

/// The host of an address.
pub fn url_host(url: &str) -> (r: String)
    ensures
        r@ == host_of(url@),
{
    let address = trim(url);
    proof {
        reveal_strlit("//");
        assert("//"@.len() == 2);
    }
    let rest: String = match split_once(address.as_str(), "://") {
        Some((scheme, rest)) => if may_be_scheme(scheme.as_str()) {
            rest
        } else {
            address
        },
        None => match strip_prefix(address.as_str(), "//") {
            Some(rest) => rest,
            None => address,
        },
    };
    let path_cut = before_first(rest.as_str(), "/");
    let query_cut = before_first(path_cut.as_str(), "?");
    let authority = before_first(query_cut.as_str(), "#");
    let place = after_last(authority.as_str(), '@');
    before_first(place.as_str(), ":")
}

/// Where issues of a repository on GitHub are kept; a repository on another
/// host has no such place.
pub fn derive_github_issues_url(repo: &str) -> (r: Option<String>)
    ensures
        text_of(r) == github_issues(repo@),
{
    let host = url_host(repo);
    proof {
        reveal_strlit(".");
        assert("."@.len() == 1);
    }
    let name = match strip_suffix(host.as_str(), ".") {
        Some(name) => name,
        None => host,
    };
    if same(name.as_str(), "github.com") || ends_with(name.as_str(), ".github.com") {
        let mut s: String = repo.to_owned();
        s.append("/issues");
        Some(s)
    } else {
        None
    }
}

/// The names that a plugin may go by.
pub open spec fn names_for(name: Seq<char>) -> Seq<Seq<char>> {
    if ends(name, "-contract"@) {
        seq![name]
    } else {
        seq![name, name + "-contract"@]
    }
}

/// Where plugins lie below a directory.
pub open spec fn plugins_dir(cli: Seq<char>, base: Seq<char>) -> Seq<char> {
    below(below(base, own_dir(cli)), "plugins"@)
}

/// The places below a directory where a plugin may lie.
pub open spec fn places_below(cli: Seq<char>, base: Seq<char>, names: Seq<Seq<char>>) -> Seq<(Seq<char>, Seq<char>)> {
    names.map_values(|n: Seq<char>| (n, below(plugins_dir(cli, base), n)))
}

/// The places where a plugin may lie: first those of the project, then those
/// of the user.
pub open spec fn places(cli: Seq<char>, cwd: Seq<char>, home: Option<Seq<char>>, name: Seq<char>) -> Seq<
    (Seq<char>, Seq<char>),
> {
    match home {
        Some(h) => places_below(cli, cwd, names_for(name)) + places_below(cli, h, names_for(name)),
        None => places_below(cli, cwd, names_for(name)),
    }
}

fn push_places(out: &mut Vec<(String, String)>, cli: &str, base: &str, names: &Vec<String>)
    ensures
        pair_views(final(out)@) == pair_views(old(out)@) + places_below(cli@, base@, views(names@)),
{
    let ghost start = pair_views(out@);
    let dir = join_path(join_path(base, dir_name(cli).as_str()).as_str(), "plugins");
    let mut i: usize = 0;
    let ghost all = places_below(cli@, base@, views(names@));
    assert(start + all.take(0) =~= start);
    while i < names.len()
        invariant
            0 <= i <= names@.len(),
            dir@ == plugins_dir(cli@, base@),
            all == places_below(cli@, base@, views(names@)),
            pair_views(out@) == start + all.take(i as int),
        decreases names.len() - i,
    {
        let ghost before = out@;
        let p = join_path(dir.as_str(), names[i].as_str());
        out.push((names[i].clone(), p));
        assert(pair_views(out@) =~= pair_views(before).push((names@[i as int]@, p@)));
        assert(all[i as int] == (names@[i as int]@, p@));
        i = i + 1;
        assert(pair_views(out@) =~= start + all.take(i as int));
    }
    assert(all.take(all.len() as int) =~= all);
}

/// The places where a plugin may lie, each with the name that it has there.
pub fn candidate_paths(cli: &str, cwd: &str, home: Option<&str>, name: &str) -> (r: Vec<(String, String)>)
    ensures
        pair_views(r@) == places(cli@, cwd@, shown(home), name@),
{
    let mut names: Vec<String> = Vec::new();
    push_text(&mut names, name);
    if !ends_with(name, "-contract") {
        let mut longer: String = name.to_owned();
        longer.append("-contract");
        push_text(&mut names, longer.as_str());
    }
    assert(views(names@) =~= names_for(name@));
    let mut out: Vec<(String, String)> = Vec::new();
    assert(pair_views(out@) =~= Seq::<(Seq<char>, Seq<char>)>::empty());
    push_places(&mut out, cli, cwd, &names);
    if let Some(h) = home {
        push_places(&mut out, cli, h, &names);
    }
    assert(pair_views(out@) =~= places(cli@, cwd@, shown(home), name@));
    out
}

/// The places, of those that were looked at, where something was found: each
/// with its name, and with the path that was found to be behind it.
pub open spec fn found_at(v: Seq<(Seq<char>, Seq<char>)>, found: Seq<Option<Seq<char>>>) -> Seq<(Seq<char>, Seq<char>)>
    decreases v.len(),
{
    if v.len() == 0 {
        Seq::empty()
    } else {
        let rest = found_at(v.drop_last(), found);
        if v.len() <= found.len() && found[v.len() - 1] is Some {
            rest.push((v.last().0, found[v.len() - 1]->0))
        } else {
            rest
        }
    }
}

/// The texts of optional strings.
pub open spec fn optional_views(v: Seq<Option<String>>) -> Seq<Option<Seq<char>>> {
    v.map_values(|s: Option<String>| text_of(s))
}

/// The places where something was found, in order.
pub fn hits(v: &Vec<(String, String)>, found: &Vec<Option<String>>) -> (r: Vec<(String, String)>)
    ensures
        pair_views(r@) == found_at(pair_views(v@), optional_views(found@)),
{
    let ghost all = pair_views(v@);
    let ghost seen = optional_views(found@);
    let mut out: Vec<(String, String)> = Vec::new();
    let mut i: usize = 0;
    assert(all.take(0) =~= Seq::<(Seq<char>, Seq<char>)>::empty());
    assert(pair_views(out@) =~= Seq::<(Seq<char>, Seq<char>)>::empty());
    while i < v.len()
        invariant
            0 <= i <= v@.len(),
            all == pair_views(v@),
            seen == optional_views(found@),
            pair_views(out@) == found_at(all.take(i as int), seen),
        decreases v.len() - i,
    {
        assert(all.take(i + 1).drop_last() =~= all.take(i as int));
        assert(all[i as int] == (v@[i as int].0@, v@[i as int].1@));
        assert(seen.len() == found@.len());
        if i < found.len() {
            assert(seen[i as int] == text_of(found@[i as int]));
            if let Some(p) = &found[i] {
                let ghost before = out@;
                out.push((v[i].0.clone(), p.clone()));
                assert(pair_views(out@) =~= pair_views(before).push((v@[i as int].0@, p@)));
            }
        }
        i = i + 1;
    }
    assert(all.take(all.len() as int) =~= all);
    out
}

/// The places of the project come first: the first `names_for(name).len()` of
/// them. Wherever something is found in one of these, the first hit is there.
pub proof fn law_project_comes_first(
    cli: Seq<char>,
    cwd: Seq<char>,
    home: Option<Seq<char>>,
    name: Seq<char>,
    found: Seq<Option<Seq<char>>>,
    k: int,
)
    requires
        0 <= k < names_for(name).len(),
        k < found.len(),
        found[k] is Some,
    ensures
        places_below(cli, cwd, names_for(name)).is_prefix_of(places(cli, cwd, home, name)),
        found_at(places(cli, cwd, home, name), found).len() > 0,
        exists|j: int|
            #![trigger found[j]]
            0 <= j <= k && found[j] is Some && found_at(places(cli, cwd, home, name), found)[0] == (
                names_for(name)[j],
                found[j]->0,
            ),
{
    let v = places(cli, cwd, home, name);
    let here = places_below(cli, cwd, names_for(name));
    assert(v.take(here.len() as int) =~= here);
    lemma_first_found(v, found, k);
}

proof fn lemma_first_found(v: Seq<(Seq<char>, Seq<char>)>, found: Seq<Option<Seq<char>>>, k: int)
    requires
        0 <= k < v.len(),
        k < found.len(),
        found[k] is Some,
    ensures
        found_at(v, found).len() > 0,
        exists|j: int|
            #![trigger found[j]]
            0 <= j <= k && found[j] is Some && found_at(v, found)[0] == (v[j].0, found[j]->0),
    decreases v.len(),
{
    let less = v.drop_last();
    if k < less.len() {
        lemma_first_found(less, found, k);
        let j = choose|j: int|
            #![trigger found[j]]
            0 <= j <= k && found[j] is Some && found_at(less, found)[0] == (less[j].0, found[j]->0);
        assert(found_at(v, found)[0] == (v[j].0, found[j]->0));
    } else if found_at(less, found).len() > 0 {
        lemma_found_within(less, found);
        let j = choose|j: int|
            #![trigger found[j]]
            0 <= j < less.len() && j < found.len() && found[j] is Some && found_at(less, found)[0] == (
                less[j].0,
                found[j]->0,
            );
        assert(found_at(v, found)[0] == (v[j].0, found[j]->0));
    } else {
        assert(found_at(v, found)[0] == (v[k].0, found[k]->0));
    }
}

proof fn lemma_found_within(v: Seq<(Seq<char>, Seq<char>)>, found: Seq<Option<Seq<char>>>)
    requires
        found_at(v, found).len() > 0,
    ensures
        exists|j: int|
            #![trigger found[j]]
            0 <= j < v.len() && j < found.len() && found[j] is Some && found_at(v, found)[0] == (v[j].0, found[j]->0),
    decreases v.len(),
{
    let less = v.drop_last();
    if found_at(less, found).len() > 0 {
        lemma_found_within(less, found);
        let j = choose|j: int|
            #![trigger found[j]]
            0 <= j < less.len() && j < found.len() && found[j] is Some && found_at(less, found)[0] == (
                less[j].0,
                found[j]->0,
            );
        assert(found_at(v, found)[0] == (v[j].0, found[j]->0));
    } else {
        let j = v.len() - 1;
        assert(found_at(v, found)[0] == (v[j].0, found[j]->0));
    }
}

/// What a `plugin.json` says.
pub struct Manifest {
    pub version: Option<String>,
    pub skill: Option<String>,
    pub repo_url: Option<String>,
    pub issues_url: Option<String>,
}

/// The first skill that a `plugin.json` names.
pub open spec fn skill_in(v: JsonView) -> Option<Seq<char>> {
    match member(v, "skills"@) {
        Some(JsonView::Array(a)) => if a.len() > 0 {
            match a[0] {
                JsonView::Text(s) => Some(s),
                _ => text_member(a[0], "name"@),
            }
        } else {
            None
        },
        _ => None,
    }
}

/// The address of the repository that a `plugin.json` names.
pub open spec fn repo_in(v: JsonView) -> Option<Seq<char>> {
    match member(v, "repository"@) {
        Some(x) => url_in(x),
        None => None,
    }
}

/// Where issues are kept: as a `plugin.json` says, or else where GitHub keeps
/// those of the repository.
pub open spec fn issues_in(v: JsonView) -> Option<Seq<char>> {
    let told = match member(v, "bugs"@) {
        Some(x) => url_in(x),
        None => None,
    };
    match told {
        Some(u) => Some(u),
        None => match repo_in(v) {
            Some(repo) => github_issues(repo),
            None => None,
        },
    }
}

fn first_skill(v: &Json) -> (r: Option<String>)
    ensures
        text_of(r) == skill_in(v@),
{
    let Some(skills) = get(v, "skills") else {
        return None;
    };
    proof {
        lemma_holding(*skills);
    }
    let Json::Array(a) = skills else {
        return None;
    };
    if a.len() == 0 {
        return None;
    }
    proof {
        lemma_holding(a@[0]);
        assert(elements(a@)[0] == a@[0]@);
    }
    match &a[0] {
        Json::Text(s) => Some(s.clone()),
        first => match get_text(first, "name") {
            Some(s) => Some(s.clone()),
            None => None,
        },
    }
}

/// What a `plugin.json` says.
pub fn read_manifest(v: &Json) -> (r: Manifest)
    ensures
        text_of(r.version) == text_member(v@, "version"@),
        text_of(r.skill) == skill_in(v@),
        text_of(r.repo_url) == repo_in(v@),
        text_of(r.issues_url) == issues_in(v@),
{
    let version: Option<String> = match get_text(v, "version") {
        Some(s) => Some(s.clone()),
        None => None,
    };
    let repo_url: Option<String> = match get(v, "repository") {
        Some(x) => extract_url_field(x),
        None => None,
    };
    let told: Option<String> = match get(v, "bugs") {
        Some(x) => extract_url_field(x),
        None => None,
    };
    let issues_url: Option<String> = match told {
        Some(u) => Some(u),
        None => match &repo_url {
            Some(repo) => derive_github_issues_url(repo.as_str()),
            None => None,
        },
    };
    Manifest { version, skill: first_skill(v), repo_url, issues_url }
}

/// The value in the text of a `plugin.json`, where there is such a file, or
/// the message for what is wrong with it.
pub open spec fn manifest_value(path: Seq<char>, t: Option<Seq<char>>) -> Result<Option<JsonView>, Seq<char>> {
    match t {
        None => Ok(None),
        Some(s) => match json_document(s) {
            Ok(v) => Ok(Some(v)),
            Err(e) => Err("invalid JSON in "@ + path + ": "@ + e),
        },
    }
}

/// What the text of a `plugin.json` says, where there is such a file.
pub fn manifest(path: &str, t: Option<&str>) -> (r: Result<Option<Manifest>, String>)
    ensures
        (match r {
            Ok(None) => manifest_value(path@, shown(t)) == Ok::<Option<JsonView>, Seq<char>>(None),
            Ok(Some(m)) => manifest_value(path@, shown(t)) matches Ok(Some(v)) && text_of(m.version) == text_member(
                v,
                "version"@,
            ) && text_of(m.skill) == skill_in(v) && text_of(m.repo_url) == repo_in(v) && text_of(m.issues_url)
                == issues_in(v),
            Err(e) => manifest_value(path@, shown(t)) == Err::<Option<JsonView>, Seq<char>>(e@),
        }),
{
    let Some(s) = t else {
        return Ok(None);
    };
    match parse_json(s) {
        Ok(v) => Ok(Some(read_manifest(&v))),
        Err(why) => {
            let mut e: String = "invalid JSON in ".to_owned();
            e.append(path);
            e.append(": ");
            e.append(why.as_str());
            Err(e)
        },
    }
}

/// The first of the names in the order of strings.
pub fn least(names: &Vec<String>) -> (r: Option<String>)
    ensures
        r is None == (names@.len() == 0),
        r matches Some(s) ==> views(names@).contains(s@) && forall|i: int|
            0 <= i < names@.len() ==> !before(codes(#[trigger] names@[i]@), codes(s@)),
{
    if names.len() == 0 {
        return None;
    }
    let mut best: usize = 0;
    let mut i: usize = 1;
    proof {
        lemma_before_irreflexive(codes(names@[0]@));
    }
    while i < names.len()
        invariant
            1 <= i <= names@.len(),
            best < i,
            forall|k: int| 0 <= k < i ==> !before(codes(#[trigger] names@[k]@), codes(names@[best as int]@)),
        decreases names.len() - i,
    {
        if text_before(names[i].as_str(), names[best].as_str()) {
            proof {
                lemma_before_irreflexive(codes(names@[i as int]@));
                assert forall|k: int| 0 <= k < i implies !before(
                    codes(#[trigger] names@[k]@),
                    codes(names@[i as int]@),
                ) by {
                    if before(codes(names@[k]@), codes(names@[i as int]@)) {
                        lemma_before_transitive(
                            codes(names@[k]@),
                            codes(names@[i as int]@),
                            codes(names@[best as int]@),
                        );
                    }
                }
            }
            best = i;
        }
        i = i + 1;
    }
    assert(views(names@)[best as int] == names@[best as int]@);
    Some(names[best].clone())
}

/// The skill that the `plugin.json` of a plugin names.
pub open spec fn named_skill(m: Option<Manifest>) -> Option<Seq<char>> {
    match m {
        Some(x) => text_of(x.skill),
        None => None,
    }
}

/// The skill of a plugin: the one that its `plugin.json` names, or else the
/// first of the directories below `skills/`, in the order of strings.
pub fn choose_skill(m: &Option<Manifest>, names: &Vec<String>) -> (r: Option<String>)
    ensures
        named_skill(*m) is Some ==> text_of(r) == named_skill(*m),
        named_skill(*m) is None ==> r is None == (names@.len() == 0),
        named_skill(*m) is None ==> (r matches Some(s) ==> views(names@).contains(s@) && forall|i: int|
            0 <= i < names@.len() ==> !before(codes(#[trigger] names@[i]@), codes(s@))),
{
    if let Some(x) = m {
        if let Some(s) = &x.skill {
            return Some(s.clone());
        }
    }
    least(names)
}

/// How many bytes a character takes in UTF-8.
pub open spec fn utf8_len(c: char) -> nat {
    if (c as u32) < 0x80 {
        1
    } else if (c as u32) < 0x800 {
        2
    } else if (c as u32) < 0x10000 {
        3
    } else {
        4
    }
}

/// How many characters from `i` on end within the first `bytes` bytes after
/// it, counted on from `i`.
pub open spec fn char_index(s: Seq<char>, bytes: nat, i: int) -> int
    decreases s.len() - i,
{
    if i < 0 || i >= s.len() || bytes < utf8_len(s[i]) {
        i
    } else {
        char_index(s, (bytes - utf8_len(s[i])) as nat, i + 1)
    }
}

fn index_of_byte(s: &Vec<char>, bytes: usize) -> (r: usize)
    ensures
        r <= s@.len(),
        r == char_index(s@, bytes as nat, 0),
{
    let mut i: usize = 0;
    let mut left: usize = bytes;
    while i < s.len()
        invariant
            0 <= i <= s@.len(),
            char_index(s@, bytes as nat, 0) == char_index(s@, left as nat, i as int),
        decreases s.len() - i,
    {
        let c: u32 = s[i] as u32;
        let n: usize = if c < 0x80 {
            1
        } else if c < 0x800 {
            2
        } else if c < 0x10000 {
            3
        } else {
            4
        };
        if left < n {
            return i;
        }
        left = left - n;
        i = i + 1;
    }
    i
}

/// The text between two byte offsets.
pub open spec fn between(s: Seq<char>, from: nat, to: nat) -> Seq<char> {
    let i = char_index(s, from, 0);
    let j = char_index(s, to, 0);
    if i <= j {
        s.subrange(i, j)
    } else {
        Seq::empty()
    }
}

/// The byte where the next second-level heading at or after `i` starts.
pub open spec fn next_heading(e: Seq<(MdEvent, usize, usize)>, i: int) -> Option<usize>
    decreases e.len() - i,
{
    if i < 0 || i >= e.len() {
        None
    } else if e[i].0 == MdEvent::HeadingStart(2) {
        Some(e[i].1)
    } else {
        next_heading(e, i + 1)
    }
}

/// The byte after the last event from `i` up to and with `end`, or `otherwise`
/// where there is none.
pub open spec fn byte_after(e: Seq<(MdEvent, usize, usize)>, i: int, end: int, otherwise: usize) -> usize {
    if end < e.len() {
        e[end].2
    } else if i < e.len() {
        e.last().2
    } else {
        otherwise
    }
}

/// Where the text under the `## SDK` heading starts, and where the next
/// second-level heading ends it, looking from `i` on.
pub open spec fn sdk_range(e: Seq<(MdEvent, usize, usize)>, i: int) -> Option<(usize, Option<usize>)>
    decreases e.len() - i,
{
    if i < 0 || i >= e.len() {
        None
    } else if e[i].0 == MdEvent::HeadingStart(2) {
        let ev = events_of(e);
        let end = heading_end(ev, i + 1);
        if same_ignoring_case(trimmed(inline_text(ev, i + 1, end)), "SDK"@) {
            Some((byte_after(e, i + 1, end, e[i].2), next_heading(e, end + 1)))
        } else if i < end < e.len() {
            sdk_range(e, end + 1)
        } else {
            None
        }
    } else {
        sdk_range(e, i + 1)
    }
}

/// The text under the `## SDK` heading, where there is one.
pub open spec fn sdk_block(md: Seq<char>, e: Seq<(MdEvent, usize, usize)>) -> Option<Seq<char>> {
    match sdk_range(e, 0) {
        None => None,
        Some((start, Some(end))) => Some(between(md, start as nat, end as nat)),
        Some((start, None)) => Some(md.skip(char_index(md, start as nat, 0))),
    }
}

/// What stands between `<tag>` and `</tag>`, without the white space around
/// it.
pub open spec fn xml_tag(s: Seq<char>, tag: Seq<char>) -> Option<Seq<char>> {
    match split_at_first(s, "<"@ + tag + ">"@) {
        None => None,
        Some((_, rest)) => match split_at_first(rest, "</"@ + tag + ">"@) {
            None => None,
            Some((inner, _)) => Some(trimmed(inner)),
        },
    }
}

/// What stands between `<tag>` and `</tag>`.
pub fn extract_xml_tag(s: &str, tag: &str) -> (r: Option<String>)
    ensures
        text_of(r) == xml_tag(s@, tag@),
{
    let mut open_tag: String = "<".to_owned();
    open_tag.append(tag);
    open_tag.append(">");
    let mut close_tag: String = "</".to_owned();
    close_tag.append(tag);
    close_tag.append(">");
    match split_once(s, open_tag.as_str()) {
        None => None,
        Some((_, rest)) => match split_once(rest.as_str(), close_tag.as_str()) {
            None => None,
            Some((inner, _)) => Some(trim(inner.as_str())),
        },
    }
}

/// The coordinates of an SDK.
pub struct Sdk {
    pub present: bool,
    pub group_id: Option<String>,
    pub artifact_id: Option<String>,
    pub version: Option<String>,
}

/// The coordinates of an SDK, as texts.
#[verifier::ext_equal]
pub struct SdkView {
    pub present: bool,
    pub group_id: Option<Seq<char>>,
    pub artifact_id: Option<Seq<char>>,
    pub version: Option<Seq<char>>,
}

impl View for Sdk {
    type V = SdkView;

    open spec fn view(&self) -> SdkView {
        SdkView {
            present: self.present,
            group_id: text_of(self.group_id),
            artifact_id: text_of(self.artifact_id),
            version: text_of(self.version),
        }
    }
}

/// The text of the first `<dependency>`, up to its end tag if it has one.
pub open spec fn dependency(block: Seq<char>) -> Option<Seq<char>> {
    match split_at_first(block, "<dependency>"@) {
        None => None,
        Some((_, rest)) => match split_at_first(rest, "</dependency>"@) {
            Some((inner, _)) => Some(inner),
            None => Some(rest),
        },
    }
}

/// No SDK.
pub open spec fn no_sdk() -> SdkView {
    SdkView { present: false, group_id: None, artifact_id: None, version: None }
}

/// The SDK that the text under the heading names.
pub open spec fn sdk_in(block: Option<Seq<char>>) -> SdkView {
    match block {
        None => no_sdk(),
        Some(b) => match dependency(b) {
            None => no_sdk(),
            Some(d) => SdkView {
                present: xml_tag(d, "groupId"@) is Some && xml_tag(d, "artifactId"@) is Some,
                group_id: xml_tag(d, "groupId"@),
                artifact_id: xml_tag(d, "artifactId"@),
                version: xml_tag(d, "version"@),
            },
        },
    }
}

/// The warnings for the text under the heading.
pub open spec fn sdk_warnings(block: Option<Seq<char>>) -> Seq<Seq<char>> {
    if block is Some && dependency(block->0) is None {
        seq!["SKILL.md has SDK heading but no <dependency> block"@]
    } else {
        Seq::empty()
    }
}

fn find_next_heading(e: &Vec<(MdEvent, usize, usize)>, from: usize) -> (r: Option<usize>)
    requires
        from <= e@.len(),
    ensures
        r == next_heading(e@, from as int),
{
    let n: usize = e.len();
    let mut i: usize = from;
    while i < n
        invariant
            from <= i <= n == e@.len(),
            next_heading(e@, from as int) == next_heading(e@, i as int),
        decreases n - i,
    {
        if let MdEvent::HeadingStart(level) = &e[i].0 {
            if *level == 2 {
                return Some(e[i].1);
            }
        }
        i = i + 1;
    }
    None
}

fn find_sdk(e: &Vec<(MdEvent, usize, usize)>) -> (r: Option<(usize, Option<usize>)>)
    ensures
        r == sdk_range(e@, 0),
{
    let n: usize = e.len();
    let mut i: usize = 0;
    while i < n
        invariant
            0 <= i <= n == e@.len(),
            sdk_range(e@, 0) == sdk_range(e@, i as int),
        decreases n - i,
    {
        assert(events_of(e@).len() == e@.len());
        let second = match &e[i].0 {
            MdEvent::HeadingStart(level) => *level == 2,
            _ => false,
        };
        if second {
            let (heading, end) = read_heading(e, i + 1);
            if eq_ignore_ascii_case(trim(heading.as_str()).as_str(), "SDK") {
                let start: usize = if end < n {
                    e[end].2
                } else if i + 1 < n {
                    e[n - 1].2
                } else {
                    e[i].2
                };
                let next = if end < n {
                    find_next_heading(e, end + 1)
                } else {
                    None
                };
                return Some((start, next));
            }
            if end >= n {
                return None;
            }
            i = end + 1;
        } else {
            i = i + 1;
        }
    }
    None
}

/// The text under the `## SDK` heading, from the events of the document.
pub fn block_from_events(md: &str, e: &Vec<(MdEvent, usize, usize)>) -> (r: Option<String>)
    ensures
        text_of(r) == sdk_block(md@, e@),
{
    let v = chars_of(md);
    match find_sdk(e) {
        None => None,
        Some((start, next)) => {
            let i = index_of_byte(&v, start);
            match next {
                None => {
                    let s = string_of(&v, i, v.len());
                    assert(s@ =~= md@.skip(i as int));
                    Some(s)
                },
                Some(end) => {
                    let j = index_of_byte(&v, end);
                    if i <= j {
                        Some(string_of(&v, i, j))
                    } else {
                        let none = String::new();
                        assert(none@ =~= Seq::<char>::empty());
                        Some(none)
                    }
                },
            }
        },
    }
}

/// The SDK that the text under the heading names; warnings are added to
/// `warnings`.
pub fn sdk_from_block(block: Option<&str>, warnings: &mut Vec<String>) -> (r: Sdk)
    ensures
        r@ == sdk_in(shown(block)),
        views(final(warnings)@) == views(old(warnings)@) + sdk_warnings(shown(block)),
{
    let none = Sdk { present: false, group_id: None, artifact_id: None, version: None };
    let ghost before = views(warnings@);
    assert(before + Seq::<Seq<char>>::empty() =~= before);
    let Some(b) = block else {
        return none;
    };
    let Some((_, rest)) = split_once(b, "<dependency>") else {
        push_text(warnings, "SKILL.md has SDK heading but no <dependency> block");
        assert(views(warnings@) =~= before + sdk_warnings(shown(block)));
        return none;
    };
    let inner: String = match split_once(rest.as_str(), "</dependency>") {
        Some((inner, _)) => inner,
        None => rest,
    };
    assert(dependency(b@) == Some(inner@));
    let group_id = extract_xml_tag(inner.as_str(), "groupId");
    let artifact_id = extract_xml_tag(inner.as_str(), "artifactId");
    let version = extract_xml_tag(inner.as_str(), "version");
    Sdk { present: group_id.is_some() && artifact_id.is_some(), group_id, artifact_id, version }
}

/// The SDK that a skill's document names under its `## SDK` heading; warnings
/// are added to `warnings`.
pub fn parse_sdk_block(md: &str, warnings: &mut Vec<String>) -> (r: Sdk)
    ensures
        r@ == sdk_in(sdk_block(md@, markdown_spans(md@))),
        views(final(warnings)@) == views(old(warnings)@) + sdk_warnings(sdk_block(md@, markdown_spans(md@))),
{
    let e = read_markdown(md);
    let block = block_from_events(md, &e);
    sdk_from_block(borrowed(&block), warnings)
}

/// A version that is being read: the numbers before the last dot, and the
/// number after it as far as it has been read.
pub struct Reading {
    pub done: Seq<nat>,
    pub last: Option<nat>,
}

/// What has been read once one more character is taken; `None` where the text
/// is no version, or has a number that does not fit.
pub open spec fn reading_with(r: Option<Reading>, c: char) -> Option<Reading> {
    match r {
        None => None,
        Some(r) => if c == '.' {
            match r.last {
                Some(n) => Some(Reading { done: r.done.push(n), last: None }),
                None => None,
            }
        } else if '0' <= c <= '9' {
            let n = match r.last {
                Some(n) => n,
                None => 0,
            } * 10 + (c as nat - 48) as nat;
            if n <= u64::MAX {
                Some(Reading { done: r.done, last: Some(n) })
            } else {
                None
            }
        } else {
            None
        },
    }
}

/// What has been read of a version.
pub open spec fn reading(s: Seq<char>) -> Option<Reading>
    decreases s.len(),
{
    if s.len() == 0 {
        Some(Reading { done: Seq::empty(), last: None })
    } else {
        reading_with(reading(s.drop_last()), s.last())
    }
}

/// The numbers of a version that is made of numbers with dots between them.
pub open spec fn version_numbers(s: Seq<char>) -> Option<Seq<nat>> {
    match reading(s) {
        Some(r) => match r.last {
            Some(n) => Some(r.done.push(n)),
            None => None,
        },
        None => None,
    }
}

/// The numbers of a vector.
pub open spec fn nats(v: Seq<u64>) -> Seq<nat> {
    v.map_values(|n: u64| n as nat)
}

proof fn lemma_not_read(s: Seq<char>, n: int)
    requires
        0 <= n <= s.len(),
        reading(s.take(n)) is None,
    ensures
        reading(s) is None,
    decreases s.len() - n,
{
    if n == s.len() {
        assert(s.take(n) =~= s);
    } else {
        assert(s.take(n + 1).drop_last() =~= s.take(n));
        lemma_not_read(s, n + 1);
    }
}

/// The numbers of a version.
pub fn read_version(s: &str) -> (r: Option<Vec<u64>>)
    ensures
        r is Some == version_numbers(s@) is Some,
        r matches Some(v) ==> version_numbers(s@) == Some(nats(v@)),
{
    let v = chars_of(s);
    let mut done: Vec<u64> = Vec::new();
    let mut last: Option<u64> = None;
    let mut i: usize = 0;
    assert(v@.take(0) =~= Seq::<char>::empty());
    assert(nats(done@) =~= Seq::<nat>::empty());
    while i < v.len()
        invariant
            0 <= i <= v@.len(),
            v@ == s@,
            reading(v@.take(i as int)) == Some(
                Reading {
                    done: nats(done@),
                    last: match last {
                        Some(n) => Some(n as nat),
                        None => None,
                    },
                },
            ),
        decreases v.len() - i,
    {
        assert(v@.take(i + 1).drop_last() =~= v@.take(i as int));
        let c = v[i];
        proof {
            if reading(v@.take(i + 1)) is None {
                lemma_not_read(v@, i + 1);
            }
        }
        if c == '.' {
            match last {
                Some(n) => {
                    let ghost before = done@;
                    done.push(n);
                    assert(nats(done@) =~= nats(before).push(n as nat));
                    last = None;
                },
                None => {
                    return None;
                },
            }
        } else if '0' <= c && c <= '9' {
            let d: u64 = (c as u32 - 48) as u64;
            let n: u64 = match last {
                Some(n) => n,
                None => 0,
            };
            if n > u64::MAX / 10 || n * 10 > u64::MAX - d {
                return None;
            }
            last = Some(n * 10 + d);
        } else {
            return None;
        }
        i = i + 1;
    }
    assert(v@.take(v@.len() as int) =~= v@);
    match last {
        Some(n) => {
            let ghost before = done@;
            done.push(n);
            assert(nats(done@) =~= nats(before).push(n as nat));
            Some(done)
        },
        None => None,
    }
}

/// The number at a place of a version; zero past its end.
pub open spec fn part(v: Seq<nat>, i: int) -> nat {
    if 0 <= i < v.len() {
        v[i]
    } else {
        0
    }
}

/// Whether version `a` comes before version `b`: at the first place where they
/// differ its number is less.
pub open spec fn older(a: Seq<nat>, b: Seq<nat>) -> bool {
    exists|i: int| #[trigger] part(a, i) < part(b, i) && forall|j: int| 0 <= j < i ==> part(a, j) == part(b, j)
}

/// How an installed plugin stands to the catalog.
#[derive(Clone, Copy, PartialEq, Eq, Debug, Structural)]
pub enum Drift {
    Unknown,
    Current,
    Behind,
    Ahead,
}

/// The word for how a plugin stands to the catalog.
pub open spec fn drift_word(d: Drift) -> Seq<char> {
    match d {
        Drift::Unknown => "unknown"@,
        Drift::Current => "current"@,
        Drift::Behind => "behind"@,
        Drift::Ahead => "ahead"@,
    }
}

impl Drift {
    /// The word for how a plugin stands to the catalog.
    pub fn as_str(&self) -> (r: &'static str)
        ensures
            r@ == drift_word(*self),
    {
        match self {
            Drift::Unknown => "unknown",
            Drift::Current => "current",
            Drift::Behind => "behind",
            Drift::Ahead => "ahead",
        }
    }
}

/// How an installed version stands to the latest. Without both nothing is
/// known; versions that are not made of numbers can only be the same.
pub open spec fn drift_between(installed: Option<Seq<char>>, latest: Option<Seq<char>>) -> Drift {
    match (installed, latest) {
        (Some(a), Some(b)) => if a == b {
            Drift::Current
        } else {
            match (version_numbers(a), version_numbers(b)) {
                (Some(x), Some(y)) => if older(x, y) {
                    Drift::Behind
                } else if older(y, x) {
                    Drift::Ahead
                } else {
                    Drift::Current
                },
                _ => Drift::Unknown,
            }
        },
        _ => Drift::Unknown,
    }
}

fn number_at(v: &Vec<u64>, i: usize) -> (r: u64)
    ensures
        r == part(nats(v@), i as int),
{
    if i < v.len() {
        v[i]
    } else {
        0
    }
}

fn is_older(a: &Vec<u64>, b: &Vec<u64>) -> (r: bool)
    ensures
        r == older(nats(a@), nats(b@)),
{
    let ghost x = nats(a@);
    let ghost y = nats(b@);
    let n: usize = if a.len() < b.len() {
        b.len()
    } else {
        a.len()
    };
    let mut i: usize = 0;
    while i < n
        invariant
            0 <= i <= n,
            n >= a@.len(),
            n >= b@.len(),
            x == nats(a@),
            y == nats(b@),
            forall|j: int| 0 <= j < i ==> part(x, j) == part(y, j),
        decreases n - i,
    {
        let p = number_at(a, i);
        let q = number_at(b, i);
        if p < q {
            assert(part(x, i as int) < part(y, i as int));
            return true;
        }
        if q < p {
            assert forall|k: int| part(x, k) < part(y, k) implies !(forall|j: int|
                0 <= j < k ==> part(x, j) == part(y, j)) by {
                if k > i {
                    assert(part(x, i as int) != part(y, i as int));
                }
            }
            return false;
        }
        i = i + 1;
    }
    assert forall|k: int| !(part(x, k) < part(y, k)) by {
        if 0 <= k < n {
            assert(part(x, k) == part(y, k));
        }
    }
    false
}

/// How an installed version stands to the latest.
pub fn drift(installed: Option<&str>, latest: Option<&str>) -> (r: Drift)
    ensures
        r == drift_between(shown(installed), shown(latest)),
{
    let (Some(a), Some(b)) = (installed, latest) else {
        return Drift::Unknown;
    };
    if same(a, b) {
        return Drift::Current;
    }
    match (read_version(a), read_version(b)) {
        (Some(x), Some(y)) => if is_older(&x, &y) {
            Drift::Behind
        } else if is_older(&y, &x) {
            Drift::Ahead
        } else {
            Drift::Current
        },
        _ => Drift::Unknown,
    }
}

/// No version comes before itself, and no two come before one another.
pub proof fn law_older_is_one_way(a: Seq<nat>, b: Seq<nat>)
    ensures
        !older(a, a),
        older(a, b) ==> !older(b, a),
{
    if older(a, b) && older(b, a) {
        let i = choose|i: int| #[trigger] part(a, i) < part(b, i) && forall|j: int| 0 <= j < i ==> part(a, j) == part(b, j);
        let k = choose|k: int| #[trigger] part(b, k) < part(a, k) && forall|j: int| 0 <= j < k ==> part(b, j) == part(a, j);
        if i < k {
            assert(part(b, i) == part(a, i));
        }
        if k < i {
            assert(part(a, k) == part(b, k));
        }
    }
}

/// The latest version that a catalog has of a plugin.
pub open spec fn latest_from(v: Seq<JsonView>, name: Seq<char>, i: int) -> Option<Seq<char>>
    decreases v.len() - i,
{
    if i < 0 || i >= v.len() {
        None
    } else if text_member(v[i], "name"@) == Some(name) {
        text_member(v[i], "latest_version"@)
    } else {
        latest_from(v, name, i + 1)
    }
}

/// The latest version that a catalog has of a plugin.
pub open spec fn latest_in(catalog: JsonView, name: Seq<char>) -> Option<Seq<char>> {
    match member(catalog, "contracts"@) {
        Some(JsonView::Array(a)) => latest_from(a, name, 0),
        _ => None,
    }
}

/// The latest version that a catalog has of a plugin.
pub fn latest_version(catalog: &Json, name: &str) -> (r: Option<String>)
    ensures
        text_of(r) == latest_in(catalog@, name@),
{
    let Some(c) = get(catalog, "contracts") else {
        return None;
    };
    proof {
        lemma_holding(*c);
    }
    let Json::Array(a) = c else {
        return None;
    };
    let ghost all = elements(a@);
    let mut i: usize = 0;
    while i < a.len()
        invariant
            0 <= i <= a@.len(),
            all == elements(a@),
            latest_from(all, name@, 0) == latest_from(all, name@, i as int),
            member(catalog@, "contracts"@) == Some(JsonView::Array(all)),
        decreases a.len() - i,
    {
        assert(all[i as int] == a@[i as int]@);
        if let Some(s) = get_text(&a[i], "name") {
            if same(s.as_str(), name) {
                return match get_text(&a[i], "latest_version") {
                    Some(v) => Some(v.clone()),
                    None => None,
                };
            }
        }
        i = i + 1;
    }
    None
}

/// The latest version that the text of a catalog file has of a plugin; a text
/// that is no catalog has none.
pub open spec fn latest_in_text(t: Option<Seq<char>>, name: Seq<char>) -> Option<Seq<char>> {
    match t {
        Some(s) => match json_document(s) {
            Ok(v) => latest_in(v, name),
            Err(_) => None,
        },
        None => None,
    }
}

/// The latest version that the text of a catalog file has of a plugin.
pub fn catalog_version(t: Option<&str>, name: &str) -> (r: Option<String>)
    ensures
        text_of(r) == latest_in_text(shown(t), name@),
{
    let Some(s) = t else {
        return None;
    };
    match parse_json(s) {
        Ok(v) => latest_version(&v, name),
        Err(_) => None,
    }
}

/// What is known of a plugin.
pub struct PluginStatus {
    pub plugin_name: String,
    pub installed: bool,
    pub plugin_path: Option<String>,
    pub plugin_version: Option<String>,
    pub latest_version: Option<String>,
    pub drift_status: Drift,
    pub skill_name: Option<String>,
    pub contract_yaml_path: Option<String>,
    pub sdk: Option<Sdk>,
    pub repo_url: Option<String>,
    pub issues_url: Option<String>,
    pub warnings: Vec<String>,
}

/// What is known of a plugin, as texts.
#[verifier::ext_equal]
pub struct PluginView {
    pub plugin_name: Seq<char>,
    pub installed: bool,
    pub plugin_path: Option<Seq<char>>,
    pub plugin_version: Option<Seq<char>>,
    pub latest_version: Option<Seq<char>>,
    pub drift_status: Drift,
    pub skill_name: Option<Seq<char>>,
    pub contract_yaml_path: Option<Seq<char>>,
    pub sdk: Option<SdkView>,
    pub repo_url: Option<Seq<char>>,
    pub issues_url: Option<Seq<char>>,
    pub warnings: Seq<Seq<char>>,
}

impl View for PluginStatus {
    type V = PluginView;

    open spec fn view(&self) -> PluginView {
        PluginView {
            plugin_name: self.plugin_name@,
            installed: self.installed,
            plugin_path: text_of(self.plugin_path),
            plugin_version: text_of(self.plugin_version),
            latest_version: text_of(self.latest_version),
            drift_status: self.drift_status,
            skill_name: text_of(self.skill_name),
            contract_yaml_path: text_of(self.contract_yaml_path),
            sdk: match self.sdk {
                Some(s) => Some(s@),
                None => None,
            },
            repo_url: text_of(self.repo_url),
            issues_url: text_of(self.issues_url),
            warnings: views(self.warnings@),
        }
    }
}

/// What is known of a plugin that is not installed.
pub open spec fn absent(name: Seq<char>) -> PluginView {
    PluginView {
        plugin_name: name,
        installed: false,
        plugin_path: None,
        plugin_version: None,
        latest_version: None,
        drift_status: Drift::Unknown,
        skill_name: None,
        contract_yaml_path: None,
        sdk: None,
        repo_url: None,
        issues_url: None,
        warnings: Seq::empty(),
    }
}

/// What is known of a plugin that is not installed.
pub fn not_installed(name: &str) -> (r: PluginStatus)
    ensures
        r@ == absent(name@),
{
    let warnings: Vec<String> = Vec::new();
    assert(views(warnings@) =~= Seq::<Seq<char>>::empty());
    PluginStatus {
        plugin_name: name.to_owned(),
        installed: false,
        plugin_path: None,
        plugin_version: None,
        latest_version: None,
        drift_status: Drift::Unknown,
        skill_name: None,
        contract_yaml_path: None,
        sdk: None,
        repo_url: None,
        issues_url: None,
        warnings,
    }
}

/// The paths of the places but the first, as seen from `cwd`.
pub open spec fn other_places(cwd: Seq<char>, hits: Seq<(Seq<char>, Seq<char>)>) -> Seq<Seq<char>> {
    hits.skip(1).map_values(|h: (Seq<char>, Seq<char>)| seen_from(cwd, h.1))
}

/// The warning for a plugin that is installed in more than one place.
pub open spec fn duplicate_warning(cwd: Seq<char>, hits: Seq<(Seq<char>, Seq<char>)>) -> Seq<Seq<char>> {
    if hits.len() > 1 {
        seq![
            "duplicate plugin install dirs found; using first: also at "@ + joined(other_places(cwd, hits), ", "@),
        ]
    } else {
        Seq::empty()
    }
}

/// The warning for a `plugin.json` that is not there or has no version.
pub open spec fn manifest_warning(m: Option<Manifest>) -> Seq<Seq<char>> {
    match m {
        None => seq!["plugin.json missing"@],
        Some(x) => if x.version is None {
            seq!["plugin.json missing 'version'"@]
        } else {
            Seq::empty()
        },
    }
}

/// The SDK that a skill's document names.
pub open spec fn sdk_of(md: Seq<char>) -> Option<Seq<char>> {
    sdk_block(md, markdown_spans(md))
}

/// What is known of a plugin that is installed in these places, of which the
/// first counts.
pub open spec fn present(
    cwd: Seq<char>,
    hits: Seq<(Seq<char>, Seq<char>)>,
    m: Option<Manifest>,
    skill: Option<Seq<char>>,
    skill_md: Option<Seq<char>>,
    has_contract: bool,
    latest: Option<Seq<char>>,
) -> PluginView {
    let path = hits[0].1;
    let version = match m {
        Some(x) => text_of(x.version),
        None => None,
    };
    PluginView {
        plugin_name: hits[0].0,
        installed: true,
        plugin_path: Some(seen_from(cwd, path)),
        plugin_version: version,
        latest_version: latest,
        drift_status: drift_between(version, latest),
        skill_name: skill,
        contract_yaml_path: if has_contract {
            Some(seen_from(cwd, below(below(path, "reference"@), "contract.yaml"@)))
        } else {
            None
        },
        sdk: match skill_md {
            Some(md) => Some(sdk_in(sdk_of(md))),
            None => None,
        },
        repo_url: match m {
            Some(x) => text_of(x.repo_url),
            None => None,
        },
        issues_url: match m {
            Some(x) => text_of(x.issues_url),
            None => None,
        },
        warnings: duplicate_warning(cwd, hits) + manifest_warning(m) + (match skill_md {
            Some(md) => sdk_warnings(sdk_of(md)),
            None => Seq::empty(),
        }) + (if has_contract {
            Seq::empty()
        } else {
            seq!["reference/contract.yaml missing"@]
        }),
    }
}

fn other_paths(cwd: &str, hits: &Vec<(String, String)>) -> (r: Vec<String>)
    requires
        hits@.len() > 0,
    ensures
        views(r@) == other_places(cwd@, pair_views(hits@)),
{
    let mut out: Vec<String> = Vec::new();
    let mut i: usize = 1;
    while i < hits.len()
        invariant
            1 <= i <= hits@.len(),
            out@.len() == i - 1,
            forall|k: int| 0 <= k < i - 1 ==> (#[trigger] out@[k])@ == seen_from(cwd@, hits@[k + 1].1@),
        decreases hits.len() - i,
    {
        out.push(display_path(cwd, hits[i].1.as_str()));
        i = i + 1;
    }
    assert(views(out@) =~= other_places(cwd@, pair_views(hits@)));
    out
}

/// What is known of a plugin that is installed in these places: `skill_md` is
/// the document of its skill, `has_contract` says whether it has a contract,
/// and `latest` is the version that the catalog has of it.
pub fn installed_status(
    cwd: &str,
    hits: &Vec<(String, String)>,
    m: Option<Manifest>,
    skill: Option<String>,
    skill_md: Option<&str>,
    has_contract: bool,
    latest: Option<String>,
) -> (r: PluginStatus)
    requires
        hits@.len() > 0,
    ensures
        r@ == present(
            cwd@,
            pair_views(hits@),
            m,
            text_of(skill),
            shown(skill_md),
            has_contract,
            text_of(latest),
        ),
{
    let ghost all = pair_views(hits@);
    assert(all[0] == (hits@[0].0@, hits@[0].1@));
    let mut warnings: Vec<String> = Vec::new();
    assert(views(warnings@) =~= Seq::<Seq<char>>::empty());
    if hits.len() > 1 {
        let mut w: String = "duplicate plugin install dirs found; using first: also at ".to_owned();
        w.append(join(&other_paths(cwd, hits), ", ").as_str());
        push_text(&mut warnings, w.as_str());
    }
    assert(views(warnings@) =~= duplicate_warning(cwd@, all));
    match &m {
        None => {
            push_text(&mut warnings, "plugin.json missing");
        },
        Some(x) => {
            if x.version.is_none() {
                push_text(&mut warnings, "plugin.json missing 'version'");
            }
        },
    }
    assert(views(warnings@) =~= duplicate_warning(cwd@, all) + manifest_warning(m));
    let sdk: Option<Sdk> = match skill_md {
        Some(md) => Some(parse_sdk_block(md, &mut warnings)),
        None => {
            assert(views(warnings@) + Seq::<Seq<char>>::empty() =~= views(warnings@));
            None
        },
    };
    let path = hits[0].1.as_str();
    let contract_yaml_path: Option<String> = if has_contract {
        let p = join_path(join_path(path, "reference").as_str(), "contract.yaml");
        Some(display_path(cwd, p.as_str()))
    } else {
        push_text(&mut warnings, "reference/contract.yaml missing");
        None
    };
    assert(views(warnings@) =~= present(
        cwd@,
        all,
        m,
        text_of(skill),
        shown(skill_md),
        has_contract,
        text_of(latest),
    ).warnings);
    let (plugin_version, repo_url, issues_url) = match m {
        Some(x) => (x.version, x.repo_url, x.issues_url),
        None => (None, None, None),
    };
    let drift_status = drift(borrowed(&plugin_version), borrowed(&latest));
    PluginStatus {
        plugin_name: hits[0].0.clone(),
        installed: true,
        plugin_path: Some(display_path(cwd, path)),
        plugin_version,
        latest_version: latest,
        drift_status,
        skill_name: skill,
        contract_yaml_path,
        sdk,
        repo_url,
        issues_url,
        warnings,
    }
}

/// The members with a text under this name, where there is one.
pub open spec fn with_text(m: Seq<(Seq<char>, JsonView)>, name: Seq<char>, t: Option<Seq<char>>) -> Seq<
    (Seq<char>, JsonView),
> {
    match t {
        Some(s) => m.push((name, JsonView::Text(s))),
        None => m,
    }
}

/// An SDK, as JSON. What is not known is left out.
pub open spec fn sdk_json(s: SdkView) -> JsonView {
    JsonView::Object(
        with_text(
            with_text(
                with_text(seq![("present"@, JsonView::Bool(s.present))], "group_id"@, s.group_id),
                "artifact_id"@,
                s.artifact_id,
            ),
            "version"@,
            s.version,
        ),
    )
}

/// What is known of a plugin, as JSON. A latest version that is not known is
/// left out.
pub open spec fn plugin_json(p: PluginView) -> JsonView {
    let found = with_text(
        seq![
            ("plugin_name"@, JsonView::Text(p.plugin_name)),
            ("installed"@, JsonView::Bool(p.installed)),
            ("plugin_path"@, text_or_null(p.plugin_path)),
            ("plugin_version"@, text_or_null(p.plugin_version)),
        ],
        "latest_version"@,
        p.latest_version,
    );
    JsonView::Object(
        found + seq![
            ("drift_status"@, JsonView::Text(drift_word(p.drift_status))),
            ("skill_name"@, text_or_null(p.skill_name)),
            ("contract_yaml_path"@, text_or_null(p.contract_yaml_path)),
            (
                "sdk"@,
                match p.sdk {
                    Some(s) => sdk_json(s),
                    None => JsonView::Null,
                },
            ),
            ("repo_url"@, text_or_null(p.repo_url)),
            ("issues_url"@, text_or_null(p.issues_url)),
            ("warnings"@, text_array(p.warnings)),
        ],
    )
}

fn push_known(m: &mut Vec<(String, Json)>, name: &str, t: &Option<String>)
    ensures
        members(final(m)@) == with_text(members(old(m)@), name@, text_of(*t)),
{
    if let Some(s) = t {
        push_member(m, name, text(s.as_str()));
    }
}

fn json_of_sdk(s: &Sdk) -> (r: Json)
    ensures
        r@ == sdk_json(s@),
{
    let mut m: Vec<(String, Json)> = Vec::new();
    push_member(&mut m, "present", Json::Bool(s.present));
    assert(members(m@) =~= seq![("present"@, JsonView::Bool(s.present))]);
    push_known(&mut m, "group_id", &s.group_id);
    push_known(&mut m, "artifact_id", &s.artifact_id);
    push_known(&mut m, "version", &s.version);
    object(m)
}

/// What is known of a plugin, as JSON.
pub fn plugin_report(p: &PluginStatus) -> (r: Json)
    ensures
        r@ == plugin_json(p@),
{
    let sdk = match &p.sdk {
        Some(s) => json_of_sdk(s),
        None => Json::Null,
    };
    let mut m: Vec<(String, Json)> = Vec::new();
    push_member(&mut m, "plugin_name", text(p.plugin_name.as_str()));
    push_member(&mut m, "installed", Json::Bool(p.installed));
    push_member(&mut m, "plugin_path", optional_text(&p.plugin_path));
    push_member(&mut m, "plugin_version", optional_text(&p.plugin_version));
    assert(members(m@) =~= seq![
        ("plugin_name"@, JsonView::Text(p.plugin_name@)),
        ("installed"@, JsonView::Bool(p.installed)),
        ("plugin_path"@, text_or_null(text_of(p.plugin_path))),
        ("plugin_version"@, text_or_null(text_of(p.plugin_version))),
    ]);
    push_known(&mut m, "latest_version", &p.latest_version);
    push_member(&mut m, "drift_status", text(p.drift_status.as_str()));
    push_member(&mut m, "skill_name", optional_text(&p.skill_name));
    push_member(&mut m, "contract_yaml_path", optional_text(&p.contract_yaml_path));
    push_member(&mut m, "sdk", sdk);
    push_member(&mut m, "repo_url", optional_text(&p.repo_url));
    push_member(&mut m, "issues_url", optional_text(&p.issues_url));
    push_member(&mut m, "warnings", texts(&p.warnings));
    assert(members(m@) =~= plugin_json(p@)->Object_0);
    object(m)
}

/// The version of the first plugin entry with this name.
pub open spec fn version_from(v: Seq<JsonView>, name: Seq<char>, i: int) -> Option<Seq<char>>
    decreases v.len() - i,
{
    if i < 0 || i >= v.len() {
        None
    } else if text_member(v[i], "name"@) == Some(name) {
        text_member(v[i], "version"@)
    } else {
        version_from(v, name, i + 1)
    }
}

/// The catalog of a marketplace has of a plugin the version that the
/// marketplace has of it.
pub proof fn law_catalog_carries_versions(
    marketplace: Seq<char>,
    updated_at: Seq<char>,
    plugins: Seq<JsonView>,
    name: Seq<char>,
)
    ensures
        latest_in(catalog_json(marketplace, updated_at, contracts_in(plugins)), name) == version_from(plugins, name, 0),
{
    let c = contracts_in(plugins);
    let m = catalog_json(marketplace, updated_at, c)->Object_0;
    let list = c.map_values(|x: ContractView| contract_json(x));
    reveal_strlit("marketplaceName");
    reveal_strlit("updatedAt");
    reveal_strlit("contracts");
    assert("marketplaceName"@.len() == 15 && "updatedAt"@.len() == 9 && "contracts"@.len() == 9);
    assert("updatedAt"@[0] != "contracts"@[0]);
    assert(m[0].0 == "marketplaceName"@ && m[1].0 == "updatedAt"@ && m[2].0 == "contracts"@);
    assert(member_from(m, "contracts"@, 2) == Some(2int));
    assert(member_from(m, "contracts"@, 1) == Some(2int));
    assert(member_from(m, "contracts"@, 0) == Some(2int));
    assert(m[2].1 == JsonView::Array(list));
    lemma_catalog_list(plugins, name);
}

proof fn lemma_alike_latest(a: JsonView, b: JsonView, name: Seq<char>, i: int)
    requires
        a is Array,
        alike(a, b),
        0 <= i,
    ensures
        b is Array,
        latest_from(a->Array_0, name, i) == latest_from(b->Array_0, name, i),
    decreases a->Array_0.len() - i,
{
    lemma_alike_items(a, b);
    if i < a->Array_0.len() {
        assert(alike(a->Array_0[i], b->Array_0[i]));
        lemma_alike_member(a->Array_0[i], b->Array_0[i], "name"@);
        lemma_alike_member(a->Array_0[i], b->Array_0[i], "latest_version"@);
        lemma_alike_latest(a, b, name, i + 1);
    }
}

/// A text from which the catalog of a marketplace is read, as it is from the
/// text of the catalog file, has of a plugin the version that the marketplace
/// has of it.
pub proof fn law_catalog_file_carries_versions(
    t: Seq<char>,
    marketplace: Seq<char>,
    updated_at: Seq<char>,
    plugins: Seq<JsonView>,
    name: Seq<char>,
)
    requires
        json_document(t) matches Ok(v) && alike(catalog_json(marketplace, updated_at, contracts_in(plugins)), v),
    ensures
        latest_in_text(Some(t), name) == version_from(plugins, name, 0),
{
    let c = catalog_json(marketplace, updated_at, contracts_in(plugins));
    let v = json_document(t)->Ok_0;
    law_catalog_carries_versions(marketplace, updated_at, plugins, name);
    lemma_alike_member(c, v, "contracts"@);
    match member(c, "contracts"@) {
        Some(a) => {
            if a is Array {
                lemma_alike_latest(a, member(v, "contracts"@)->0, name, 0);
            }
        },
        None => {},
    }
}

proof fn lemma_contract_members(c: ContractView)
    ensures
        text_member(contract_json(c), "name"@) == Some(c.name),
        text_member(contract_json(c), "latest_version"@) == c.latest_version,
{
    let m = contract_json(c)->Object_0;
    reveal_strlit("name");
    reveal_strlit("description");
    reveal_strlit("latest_version");
    assert("name"@.len() == 4 && "description"@.len() == 11 && "latest_version"@.len() == 14);
    assert(m[0].0 == "name"@ && m[1].0 == "description"@);
    assert(member_from(m, "name"@, 0) == Some(0int));
    assert(member_from(m, "latest_version"@, 3) is None);
    assert(member_from(m, "latest_version"@, 2) == (if c.latest_version is Some {
        Some(2int)
    } else {
        None
    }));
    assert(member_from(m, "latest_version"@, 1) == member_from(m, "latest_version"@, 2));
    assert(member_from(m, "latest_version"@, 0) == member_from(m, "latest_version"@, 2));
}

/// Looking a name up from the front, one entry more at the end counts only
/// where the name was not found before it.
proof fn lemma_latest_push(v: Seq<JsonView>, x: JsonView, name: Seq<char>, i: int)
    requires
        0 <= i <= v.len(),
    ensures
        latest_from(v.push(x), name, i) == (if named_from(v, name, i) {
            latest_from(v, name, i)
        } else {
            latest_from(seq![x], name, 0)
        }),
        version_from(v.push(x), name, i) == (if named_from(v, name, i) {
            version_from(v, name, i)
        } else {
            version_from(seq![x], name, 0)
        }),
        named_from(v.push(x), name, i) == (named_from(v, name, i) || text_member(x, "name"@) == Some(name)),
    decreases v.len() - i,
{
    let w = v.push(x);
    if i < v.len() {
        assert(w[i] == v[i]);
        if text_member(v[i], "name"@) != Some(name) {
            lemma_latest_push(v, x, name, i + 1);
        }
    } else {
        assert(w[i] == x);
        assert(latest_from(w, name, i + 1) is None);
        assert(version_from(w, name, i + 1) is None);
        assert(!named_from(w, name, i + 1));
        assert(latest_from(seq![x], name, 1) is None);
        assert(version_from(seq![x], name, 1) is None);
    }
}

/// Whether an entry at or after `i` has this name.
pub open spec fn named_from(v: Seq<JsonView>, name: Seq<char>, i: int) -> bool
    decreases v.len() - i,
{
    if i < 0 || i >= v.len() {
        false
    } else {
        text_member(v[i], "name"@) == Some(name) || named_from(v, name, i + 1)
    }
}

proof fn lemma_unnamed(v: Seq<JsonView>, name: Seq<char>, i: int)
    requires
        0 <= i,
        !named_from(v, name, i),
    ensures
        version_from(v, name, i) is None,
    decreases v.len() - i,
{
    if i < v.len() {
        lemma_unnamed(v, name, i + 1);
    }
}

proof fn lemma_catalog_list(plugins: Seq<JsonView>, name: Seq<char>)
    ensures
        ({
            let list = contracts_in(plugins).map_values(|x: ContractView| contract_json(x));
            latest_from(list, name, 0) == version_from(plugins, name, 0) && named_from(list, name, 0) == named_from(
                plugins,
                name,
                0,
            )
        }),
    decreases plugins.len(),
{
    let f = |x: ContractView| contract_json(x);
    if plugins.len() > 0 {
        let less = plugins.drop_last();
        let p = plugins.last();
        lemma_catalog_list(less, name);
        assert(plugins =~= less.push(p));
        lemma_latest_push(less, p, name, 0);
        let done = contracts_in(less).map_values(f);
        match contract_in(p) {
            Some(c) => {
                assert(contracts_in(plugins).map_values(f) =~= done.push(contract_json(c)));
                lemma_latest_push(done, contract_json(c), name, 0);
                lemma_contract_members(c);
                assert(latest_from(seq![contract_json(c)], name, 1) is None);
                assert(version_from(seq![p], name, 1) is None);
            },
            None => {
                assert(version_from(seq![p], name, 1) is None);
                if !named_from(less, name, 0) {
                    lemma_unnamed(less, name, 0);
                }
            },
        }
    }
}

/// Once a plugin is published with a version, the catalog of the marketplace
/// has that version of it.
pub proof fn law_published_version_is_latest(
    marketplace: Seq<char>,
    updated_at: Seq<char>,
    plugins: Seq<JsonView>,
    name: Seq<char>,
    source: Seq<char>,
    version: Seq<char>,
)
    ensures
        latest_in(
            catalog_json(marketplace, updated_at, contracts_in(plugins_after(plugins, name, source, Some(version)))),
            name,
        ) == Some(version),
{
    let after = plugins_after(plugins, name, source, Some(version));
    law_catalog_carries_versions(marketplace, updated_at, after, name);
    law_publish_plugin_idempotent(plugins, name, source, Some(version));
    lemma_version_from(after, name, 0);
    lemma_published_version(plugins, name, source, version);
}

proof fn lemma_version_from(v: Seq<JsonView>, name: Seq<char>, i: int)
    requires
        0 <= i,
    ensures
        version_from(v, name, i) == (match plugin_from(v, name, i) {
            Some(k) => text_member(v[k], "version"@),
            None => None,
        }),
    decreases v.len() - i,
{
    if i < v.len() && text_member(v[i], "name"@) != Some(name) {
        lemma_version_from(v, name, i + 1);
    }
}

proof fn lemma_address_cut(t: Seq<char>, u: Seq<char>)
    requires
        !ends(u, ".git"@),
        t == u || t == u + ".git"@,
    ensures
        (if ends(t, ".git"@) {
            t.take(t.len() - 4)
        } else {
            t
        }) == u,
{
    reveal_strlit(".git");
    assert(".git"@.len() == 4);
    if t == u + ".git"@ {
        assert(t.skip(t.len() - 4) =~= ".git"@);
        assert(t.take(t.len() - 4) =~= u);
    }
}

/// The address of a repository is the same whether the marks of `git` tools
/// stand before it, behind it, on both sides or not at all; and so it is read
/// from a text and from an object with it.
pub proof fn law_repository_address(u: Seq<char>, v: JsonView)
    requires
        !begins(u, "git+"@),
        !ends(u, ".git"@),
    ensures
        plain_url(u) == u,
        plain_url(u + ".git"@) == u,
        plain_url("git+"@ + u) == u,
        plain_url("git+"@ + u + ".git"@) == u,
        url_in(JsonView::Text(u)) == Some(u),
        url_in(JsonView::Text(u + ".git"@)) == Some(u),
        url_in(JsonView::Text("git+"@ + u)) == Some(u),
        url_in(JsonView::Text("git+"@ + u + ".git"@)) == Some(u),
        member(v, "url"@) == Some(JsonView::Text("git+"@ + u + ".git"@)) ==> url_in(v) == Some(u),
        member(v, "url"@) == Some(JsonView::Text(u + ".git"@)) ==> url_in(v) == Some(u),
        member(v, "url"@) == Some(JsonView::Text("git+"@ + u)) ==> url_in(v) == Some(u),
        member(v, "url"@) == Some(JsonView::Text(u)) ==> url_in(v) == Some(u),
{
    reveal_strlit("git+");
    reveal_strlit(".git");
    let before = "git+"@;
    let after = ".git"@;
    assert(before.len() == 4 && after.len() == 4);
    assert(before[0] == 'g' && before[1] == 'i' && before[2] == 't' && before[3] == '+');
    assert(after[0] == '.' && after[1] == 'g' && after[2] == 'i' && after[3] == 't');
    let s1 = u + after;
    if begins(s1, before) {
        assert(s1.take(4)[3] == '+');
        if u.len() >= 4 {
            assert(u.take(4) =~= s1.take(4));
        }
    }
    lemma_address_cut(u, u);
    lemma_address_cut(s1, u);
    let s2 = before + u;
    assert(s2.take(4) =~= before);
    assert(s2.skip(4) =~= u);
    let s3 = before + u + after;
    assert(s3.take(4) =~= before);
    assert(s3.skip(4) =~= s1);
}

/// An address is what is left of what was told once the marks are off: nothing
/// else is changed.
pub proof fn law_address_is_told(s: Seq<char>)
    ensures
        s == plain_url(s) || s == plain_url(s) + ".git"@ || s == "git+"@ + plain_url(s) || s == "git+"@ + plain_url(s)
            + ".git"@,
{
    reveal_strlit("git+");
    reveal_strlit(".git");
    assert("git+"@.len() == 4 && ".git"@.len() == 4);
    let t = if begins(s, "git+"@) {
        s.skip(4)
    } else {
        s
    };
    if begins(s, "git+"@) {
        assert(s =~= "git+"@ + t);
    }
    if ends(t, ".git"@) {
        assert(t =~= t.take(t.len() - 4) + ".git"@);
        if begins(s, "git+"@) {
            assert(s =~= "git+"@ + t.take(t.len() - 4) + ".git"@);
        }
    }
}

proof fn lemma_part_before(a: Seq<char>, sep: Seq<char>, b: Seq<char>)
    requires
        sep.len() == 1,
        !a.contains(sep[0]),
        b.len() == 0 || b[0] == sep[0],
    ensures
        part_before(a + b, sep) == a,
{
    if b.len() == 0 {
        assert(a + b =~= a);
        law_split_where_it_stands(a, sep, b);
    } else {
        assert(a + b =~= a + sep + b.skip(1));
        law_split_where_it_stands(a, sep, b.skip(1));
    }
}

proof fn lemma_part_after_last(a: Seq<char>, c: char, b: Seq<char>)
    requires
        !b.contains(c),
    ensures
        part_after_last(a.push(c) + b, c) == b,
        part_after_last(b, c) == b,
    decreases b.len(),
{
    let s = a.push(c) + b;
    if b.len() == 0 {
        assert(s.last() == c);
    } else {
        let less = b.drop_last();
        assert(b.contains(b.last()));
        assert forall|x: char| less.contains(x) implies b.contains(x) by {
            let i = choose|i: int| 0 <= i < less.len() && less[i] == x;
            assert(b[i] == x);
        }
        lemma_part_after_last(a, c, less);
        assert(s.drop_last() =~= a.push(c) + less);
        assert(less.push(b.last()) =~= b);
    }
}

/// Whether none of the characters that end or part an address's authority occur.
pub open spec fn plain_part(s: Seq<char>) -> bool {
    forall|i: int|
        0 <= i < s.len() ==> #[trigger] s[i] != '/' && s[i] != '?' && s[i] != '#' && s[i] != '@' && s[i] != ':'
}

/// The host of an address is found whatever stands around it: a scheme before
/// it, with or without a user, and a port and a path behind it.
pub proof fn law_host_of_address(scheme: Seq<char>, user: Seq<char>, host: Seq<char>, port: Seq<char>, path: Seq<char>)
    requires
        scheme.len() > 0,
        forall|i: int| 0 <= i < scheme.len() ==> scheme_char(#[trigger] scheme[i]),
        plain_part(user) && plain_part(host) && plain_part(port),
        host.len() > 0 && !white(host.last()),
        port.len() == 0 || !white(port.last()),
        path.len() > 0 ==> path[0] == '/' && !white(path.last()),
    ensures
        host_of(scheme + "://"@ + host + path) == host,
        host_of(scheme + "://"@ + (user.push('@') + host) + path) == host,
        host_of(scheme + "://"@ + (host.push(':') + port) + path) == host,
        host_of(scheme + "://"@ + (user.push('@') + host.push(':') + port) + path) == host,
{
    let none = Seq::<char>::empty();
    let after = seq![':'] + port;
    let before = user.push('@');
    assert(none + host + none =~= host);
    assert(before + host + none =~= before + host);
    assert(none + host + after =~= host.push(':') + port);
    assert(before + host + after =~= before + host.push(':') + port);
    assert(after.skip(1) =~= port);
    assert(before.drop_last() =~= user);
    lemma_host_in(scheme, host, path, none, host, none);
    lemma_host_in(scheme, before + host, path, before, host, none);
    lemma_host_in(scheme, host.push(':') + port, path, none, host, after);
    lemma_host_in(scheme, before + host.push(':') + port, path, before, host, after);
}

proof fn lemma_host_in(
    scheme: Seq<char>,
    authority: Seq<char>,
    path: Seq<char>,
    before: Seq<char>,
    host: Seq<char>,
    after: Seq<char>,
)
    requires
        scheme.len() > 0,
        forall|i: int| 0 <= i < scheme.len() ==> scheme_char(#[trigger] scheme[i]),
        authority == before + host + after,
        plain_part(host) && host.len() > 0,
        !white(authority.last()),
        before.len() == 0 || (before.last() == '@' && plain_part(before.drop_last())),
        after.len() == 0 || (after[0] == ':' && plain_part(after.skip(1))),
        path.len() > 0 ==> path[0] == '/' && !white(path.last()),
    ensures
        host_of(scheme + "://"@ + authority + path) == host,
{
    reveal_strlit("://");
    reveal_strlit("/");
    reveal_strlit("?");
    reveal_strlit("#");
    reveal_strlit(":");
    let url = scheme + "://"@ + authority + path;
    let none = Seq::<char>::empty();
    assert(scheme_char(scheme[0]));
    assert(url[0] == scheme[0]);
    if path.len() == 0 {
        assert(url.last() == authority.last());
    } else {
        assert(url.last() == path.last());
    }
    law_trimmed(none, url, none);
    assert(none + url + none =~= url);
    if scheme.contains(':') {
        let i = choose|i: int| 0 <= i < scheme.len() && scheme[i] == ':';
        assert(scheme_char(scheme[i]));
    }
    law_split_where_it_stands(scheme, "://"@, authority + path);
    assert(url =~= scheme + "://"@ + (authority + path));
    assert(is_scheme(scheme));
    assert forall|i: int| 0 <= i < authority.len() implies authority[i] != '/' && authority[i] != '?' && authority[i] != '#' by {
        if i < before.len() {
            assert(authority[i] == before[i]);
            if i < before.len() - 1 {
                assert(before.drop_last()[i] == before[i]);
            }
        } else if i < before.len() + host.len() {
            assert(authority[i] == host[i - before.len()]);
        } else {
            let k = i - before.len() - host.len();
            assert(authority[i] == after[k]);
            if k > 0 {
                assert(after.skip(1)[k - 1] == after[k]);
            }
        }
    }
    lemma_part_before(authority, "/"@, path);
    assert(authority + none =~= authority);
    lemma_part_before(authority, "?"@, none);
    lemma_part_before(authority, "#"@, none);
    let rest = host + after;
    assert forall|i: int| 0 <= i < rest.len() implies rest[i] != '@' by {
        if i < host.len() {
            assert(rest[i] == host[i]);
        } else if i > host.len() {
            assert(after.skip(1)[i - host.len() - 1] == rest[i]);
        }
    }
    if before.len() == 0 {
        assert(authority =~= rest);
        lemma_part_after_last(none, '@', rest);
    } else {
        assert(before =~= before.drop_last().push('@'));
        assert(authority =~= before.drop_last().push('@') + rest);
        lemma_part_after_last(before.drop_last(), '@', rest);
    }
    lemma_part_before(host, ":"@, after);
}

/// A scheme is made of letters, digits, `+`, `-` and `.`; what parts an address is
/// none of it.
pub proof fn law_scheme_chars(c: char)
    ensures
        scheme_char(c) <==> ('a' <= c && c <= 'z') || ('A' <= c && c <= 'Z') || ('0' <= c && c <= '9') || c == '+' || c
            == '-' || c == '.',
        !scheme_char(':') && !scheme_char('/') && !scheme_char('@') && !scheme_char(' '),
{
}

/// An address without a scheme begins with its host, also behind two slashes.
pub proof fn law_host_without_scheme(host: Seq<char>, path: Seq<char>)
    requires
        plain_part(host),
        host.len() > 0 && !white(host[0]) && !white(host.last()),
        path.len() > 0 ==> path[0] == '/' && !white(path.last()),
        split_at_first(host + path, "://"@) is None,
        split_at_first("//"@ + host + path, "://"@) is None,
    ensures
        host_of(host + path) == host,
        host_of("//"@ + host + path) == host,
{
    reveal_strlit("//");
    reveal_strlit("/");
    reveal_strlit("?");
    reveal_strlit("#");
    reveal_strlit(":");
    let none = Seq::<char>::empty();
    let a = host + path;
    let b = "//"@ + host + path;
    assert(a[0] == host[0] && b[0] == '/');
    if path.len() == 0 {
        assert(a.last() == host.last() && b.last() == host.last());
    } else {
        assert(a.last() == path.last() && b.last() == path.last());
    }
    law_white('/');
    law_trimmed(none, a, none);
    law_trimmed(none, b, none);
    assert(none + a + none =~= a);
    assert(none + b + none =~= b);
    assert(host[0] != '/');
    if begins(a, "//"@) {
        assert(a.take(2)[0] == a[0]);
    }
    assert(b.take(2) =~= "//"@);
    assert(b.skip(2) =~= a);
    lemma_part_before(host, "/"@, path);
    assert(host + none =~= host);
    lemma_part_before(host, "?"@, none);
    lemma_part_before(host, "#"@, none);
    lemma_part_after_last(none, '@', host);
    lemma_part_before(host, ":"@, none);
}

/// GitHub's hosts are `github.com` and those below it, and no host whose name
/// only ends in the same letters.
pub proof fn law_github_hosts(x: Seq<char>)
    ensures
        github_host("github.com"@),
        github_host("github.com."@),
        github_host(x + ".github.com"@),
        x.len() > 0 && x.last() != '.' ==> !github_host(x + "github.com"@),
        !ends(x, "github.com"@) && !ends(x, "github.com."@) ==> !github_host(x),
{
    reveal_strlit("github.com");
    reveal_strlit("github.com.");
    reveal_strlit(".github.com");
    reveal_strlit(".");
    let g = "github.com"@;
    let d = ".github.com"@;
    assert(g.len() == 10 && d.len() == 11 && g.last() == 'm' && d.last() == 'm');
    assert("."@.len() == 1 && "."@[0] == '.');
    if ends(g, "."@) {
        assert(g.skip(9)[0] == '.');
    }
    let r = "github.com."@;
    assert(r.len() == 11);
    assert(r.skip(10) =~= "."@);
    assert(r.drop_last() =~= g);
    let s = x + d;
    assert(s.last() == 'm');
    if ends(s, "."@) {
        assert(s.skip(s.len() - 1)[0] == s.last());
    }
    assert(s.skip(x.len() as int) =~= d);
    if x.len() > 0 && x.last() != '.' {
        let t = x + g;
        assert(t.last() == 'm');
        if ends(t, "."@) {
            assert(t.skip(t.len() - 1)[0] == t.last());
        }
        if ends(t, d) {
            assert(t.skip(t.len() - 11)[0] == t[x.len() - 1]);
            assert(d[0] == '.');
        }
    }
    if !ends(x, g) && !ends(x, r) {
        let cut = ends(x, "."@);
        let name = if cut {
            x.drop_last()
        } else {
            x
        };
        if cut {
            assert(x.skip(x.len() - 1)[0] == x.last());
            assert(x =~= name.push('.'));
        }
        assert(d.skip(1) =~= g);
        assert(g.push('.') =~= r);
        if name == g {
            assert(x.skip(0) =~= x);
        }
        if ends(name, d) {
            assert(name.skip(name.len() - 10) =~= name.skip(name.len() - 11).skip(1));
            if cut {
                assert(x.skip(x.len() - 11) =~= name.skip(name.len() - 10).push('.'));
            }
        }
    }
}

/// A plugin goes by its name, and, unless that ends in `-contract`, by its name
/// with that behind it.
pub proof fn law_names(x: Seq<char>)
    ensures
        names_for(x + "-contract"@) == seq![x + "-contract"@],
        !ends(x, "-contract"@) ==> names_for(x) == seq![x, x + "-contract"@],
{
    let s = x + "-contract"@;
    assert(s.skip(s.len() - "-contract"@.len()) =~= "-contract"@);
}

/// A plugin may lie below the project, and below the user's own directory where
/// there is one: under each of its names, in this order.
pub proof fn law_places(cli: Seq<char>, cwd: Seq<char>, h: Seq<char>, name: Seq<char>, k: int)
    requires
        0 <= k < names_for(name).len(),
    ensures
        ({
            let n = names_for(name)[k];
            let count = names_for(name).len();
            let alone = places(cli, cwd, None, name);
            let both = places(cli, cwd, Some(h), name);
            &&& alone.len() == count && both.len() == 2 * count
            &&& alone[k] == (n, below(below(below(cwd, "."@ + cli), "plugins"@), n))
            &&& both[k] == alone[k]
            &&& both[count + k] == (n, below(below(below(h, "."@ + cli), "plugins"@), n))
        }),
{
}

/// What was found is told in the order in which it was looked for, each with the
/// name that it was looked for under and the path that was found.
pub proof fn law_found_at_their_places(v: Seq<(Seq<char>, Seq<char>)>, found: Seq<Option<Seq<char>>>) -> (at: Seq<int>)
    ensures
        keeps_places(at, v.len(), |k: int| k < found.len() && found[k] is Some),
        found_at(v, found).len() == at.len(),
        forall|i: int| 0 <= i < at.len() ==> #[trigger] found_at(v, found)[i] == (v[at[i]].0, found[at[i]]->0),
    decreases v.len(),
{
    let keep = |k: int| k < found.len() && found[k] is Some;
    if v.len() == 0 {
        let at = Seq::<int>::empty();
        assert(keeps_places(at, 0, keep));
        at
    } else {
        let less = v.drop_last();
        let before = law_found_at_their_places(less, found);
        let at = lemma_places_more(before, less.len(), keep, keep);
        assert forall|i: int| 0 <= i < at.len() implies #[trigger] found_at(v, found)[i] == (v[at[i]].0, found[at[i]]->0) by {
            if i < before.len() {
                assert(found_at(less, found)[i] == (less[before[i]].0, found[before[i]]->0));
            }
        }
        at
    }
}

/// The skill of a plugin is the first that its `plugin.json` names, as a text or
/// as an object with a name.
pub proof fn law_first_skill(v: JsonView, s: Seq<char>, o: JsonView, rest: Seq<JsonView>)
    ensures
        member(v, "skills"@) == Some(JsonView::Array(seq![JsonView::Text(s)] + rest)) ==> skill_in(v) == Some(s),
        member(v, "skills"@) == Some(JsonView::Array(seq![o] + rest)) && member(o, "name"@) == Some(JsonView::Text(s))
            ==> skill_in(v) == Some(s),
        member(v, "skills"@) == Some(JsonView::Array(Seq::empty())) ==> skill_in(v) is None,
        !(member(v, "skills"@) matches Some(JsonView::Array(_))) ==> skill_in(v) is None,
{
    if member(v, "skills"@) == Some(JsonView::Array(seq![JsonView::Text(s)] + rest)) {
        assert((seq![JsonView::Text(s)] + rest)[0] == JsonView::Text(s));
    }
    if member(v, "skills"@) == Some(JsonView::Array(seq![o] + rest)) && member(o, "name"@) == Some(JsonView::Text(s)) {
        assert((seq![o] + rest)[0] == o);
    }
}

/// Issues are kept where `plugin.json` says; only where it does not say, where
/// GitHub keeps those of the repository; and else nowhere that is known.
pub proof fn law_issues(v: JsonView, bugs: Seq<char>, repo: Seq<char>)
    requires
        !begins(bugs, "git+"@) && !ends(bugs, ".git"@),
        !begins(repo, "git+"@) && !ends(repo, ".git"@),
    ensures
        member(v, "bugs"@) == Some(JsonView::Text(bugs)) ==> issues_in(v) == Some(bugs),
        member(v, "repository"@) == Some(JsonView::Text(repo)) ==> repo_in(v) == Some(repo),
        member(v, "repository"@) == Some(JsonView::Text("git+"@ + repo + ".git"@)) ==> repo_in(v) == Some(repo),
        member(v, "repository"@) is None ==> repo_in(v) is None,
        member(v, "bugs"@) is None && member(v, "repository"@) == Some(JsonView::Text(repo)) ==> issues_in(v) == (
        if github_host(host_of(repo)) {
            Some(repo + "/issues"@)
        } else {
            None
        }),
        member(v, "bugs"@) is None && member(v, "repository"@) is None ==> issues_in(v) is None,
{
    law_repository_address(bugs, v);
    law_repository_address(repo, v);
}

/// How many bytes a text takes in UTF-8.
pub open spec fn byte_count(s: Seq<char>) -> nat
    decreases s.len(),
{
    if s.len() == 0 {
        0
    } else {
        utf8_len(s[0]) + byte_count(s.skip(1))
    }
}

proof fn lemma_char_index(a: Seq<char>, s: Seq<char>, i: int)
    requires
        0 <= i <= i + a.len() <= s.len(),
        a == s.subrange(i, i + a.len()),
    ensures
        char_index(s, byte_count(a), i) == i + a.len(),
    decreases a.len(),
{
    if a.len() > 0 {
        assert(s[i] == a[0]);
        let rest = a.skip(1);
        assert(rest =~= s.subrange(i + 1, i + 1 + rest.len()));
        lemma_char_index(rest, s, i + 1);
        assert((byte_count(a) - utf8_len(s[i])) as nat == byte_count(rest));
    }
}

proof fn lemma_byte_count(a: Seq<char>, b: Seq<char>)
    ensures
        byte_count(a + b) == byte_count(a) + byte_count(b),
    decreases a.len(),
{
    if a.len() == 0 {
        assert(a + b =~= b);
    } else {
        assert((a + b).skip(1) =~= a.skip(1) + b);
        lemma_byte_count(a.skip(1), b);
    }
}

/// The text between two places of a document is what stands there, counted in
/// bytes of UTF-8.
pub proof fn law_between(a: Seq<char>, b: Seq<char>, c: Seq<char>, x: char)
    ensures
        x as u32 <= 0x7f ==> utf8_len(x) == 1,
        0x80 <= x as u32 <= 0x7ff ==> utf8_len(x) == 2,
        0x800 <= x as u32 <= 0xffff ==> utf8_len(x) == 3,
        x as u32 >= 0x10000 ==> utf8_len(x) == 4,
        between(a + b + c, byte_count(a), byte_count(a) + byte_count(b)) == b,
        (a + b).skip(char_index(a + b, byte_count(a), 0)) == b,
        utf8_len('a') == 1 && utf8_len('é') == 2 && utf8_len('—') == 3 && utf8_len('😀') == 4,
{
    let s = a + b + c;
    assert(a =~= s.subrange(0, a.len() as int));
    lemma_char_index(a, s, 0);
    assert(a + b =~= s.subrange(0, (a + b).len() as int));
    lemma_char_index(a + b, s, 0);
    lemma_byte_count(a, b);
    assert(s.subrange(a.len() as int, (a + b).len() as int) =~= b);
    assert(a =~= (a + b).subrange(0, a.len() as int));
    lemma_char_index(a, a + b, 0);
    assert((a + b).skip(a.len() as int) =~= b);
}

/// What stands between a tag and its end tag is read without the white space
/// around it; nothing is read where there is no tag.
pub proof fn law_tag(a: Seq<char>, tag: Seq<char>, x: Seq<char>, b: Seq<char>)
    requires
        !a.contains('<'),
        !x.contains('<'),
    ensures
        xml_tag(a + ("<"@ + tag + ">"@) + (x + ("</"@ + tag + ">"@) + b), tag) == Some(trimmed(x)),
        xml_tag(a + ("<"@ + tag + ">"@) + x, tag) is None,
        xml_tag(a, tag) is None,
{
    reveal_strlit("<");
    reveal_strlit("</");
    let start = "<"@ + tag + ">"@;
    let end = "</"@ + tag + ">"@;
    assert(start[0] == '<' && end[0] == '<');
    law_split_where_it_stands(a, start, x + end + b);
    law_split_where_it_stands(a, start, x);
    law_split_where_it_stands(x, end, b);
}

/// The first dependency is what stands between its tags, or behind the first
/// where the second is missing.
pub proof fn law_dependency(a: Seq<char>, d: Seq<char>, b: Seq<char>)
    requires
        !a.contains('<'),
    ensures
        split_at_first(d, "</dependency>"@) is None ==> dependency(a + "<dependency>"@ + d) == Some(d),
        !d.contains('<') ==> dependency(a + "<dependency>"@ + (d + "</dependency>"@ + b)) == Some(d),
        dependency(a) is None,
        sdk_in(Some(a)) == (SdkView { present: false, group_id: None, artifact_id: None, version: None }),
        sdk_in(None) == (SdkView { present: false, group_id: None, artifact_id: None, version: None }),
        sdk_warnings(None).len() == 0,
        sdk_warnings(Some(a)) == seq!["SKILL.md has SDK heading but no <dependency> block"@],
        sdk_warnings(Some(a + "<dependency>"@ + d)).len() == 0,
{
    reveal_strlit("<dependency>");
    reveal_strlit("</dependency>");
    let start = "<dependency>"@;
    let end = "</dependency>"@;
    assert(start[0] == '<' && end[0] == '<');
    law_split_where_it_stands(a, start, d);
    law_split_where_it_stands(a, start, d + end + b);
    if !d.contains('<') {
        law_split_where_it_stands(d, end, b);
    }
}

/// An SDK is there where its group and its artifact are told; each part is read
/// from its own tag of the dependency.
pub proof fn law_sdk_parts(block: Seq<char>, d: Seq<char>)
    requires
        dependency(block) == Some(d),
    ensures
        sdk_in(Some(block)).group_id == xml_tag(d, "groupId"@),
        sdk_in(Some(block)).artifact_id == xml_tag(d, "artifactId"@),
        sdk_in(Some(block)).version == xml_tag(d, "version"@),
        sdk_in(Some(block)).present <==> xml_tag(d, "groupId"@) is Some && xml_tag(d, "artifactId"@) is Some,
{
}

proof fn lemma_sdk_from(e: Seq<(MdEvent, usize, usize)>, i: int, k: int)
    requires
        0 <= i <= k <= e.len(),
        forall|j: int| i <= j < k ==> (#[trigger] e[j]).0 != MdEvent::HeadingStart(2),
    ensures
        sdk_range(e, i) == sdk_range(e, k),
    decreases k - i,
{
    if i < k {
        assert(e[i].0 != MdEvent::HeadingStart(2));
        lemma_sdk_from(e, i + 1, k);
    }
}

/// The text under the SDK heading: it begins behind the first second-level
/// heading that says so, in whatever case, and a second-level heading that says
/// something else is passed over.
pub proof fn law_sdk_heading(e: Seq<(MdEvent, usize, usize)>, i: int)
    requires
        0 <= i <= e.len(),
        forall|j: int| 0 <= j < i ==> (#[trigger] e[j]).0 != MdEvent::HeadingStart(2),
    ensures
        i == e.len() ==> sdk_range(e, 0) is None,
        i < e.len() && e[i].0 == MdEvent::HeadingStart(2) ==> ({
            let end = heading_end(events_of(e), i + 1);
            let sdk = same_ignoring_case(trimmed(inline_text(events_of(e), i + 1, end)), "SDK"@);
            &&& sdk && end < e.len() ==> (sdk_range(e, 0) matches Some(r) && r.0 == e[end].2 && r.1 == next_heading(e, end + 1))
            &&& !sdk && i < end < e.len() ==> sdk_range(e, 0) == sdk_range(e, end + 1)
        }),
{
    lemma_sdk_from(e, 0, i);
}

/// The text under a heading ends where the next second-level heading starts.
pub proof fn law_next_heading(e: Seq<(MdEvent, usize, usize)>, i: int, k: int)
    requires
        0 <= i <= k <= e.len(),
        forall|j: int| i <= j < k ==> (#[trigger] e[j]).0 != MdEvent::HeadingStart(2),
    ensures
        k == e.len() ==> next_heading(e, i) is None,
        k < e.len() && e[k].0 == MdEvent::HeadingStart(2) ==> next_heading(e, i) == Some(e[k].1),
    decreases k - i,
{
    if i < k {
        assert(e[i].0 != MdEvent::HeadingStart(2));
        law_next_heading(e, i + 1, k);
    }
}

proof fn lemma_number_grows(t: Seq<char>)
    requires
        forall|i: int| 0 <= i < t.len() ==> '0' <= #[trigger] t[i] <= '9',
    ensures
        number_shown(t) >= 0,
        t.len() > 0 ==> number_shown(t.drop_last()) <= number_shown(t),
    decreases t.len(),
{
    if t.len() > 0 {
        let less = t.drop_last();
        assert forall|i: int| 0 <= i < less.len() implies '0' <= #[trigger] less[i] <= '9' by {
            assert(less[i] == t[i]);
        }
        lemma_number_grows(less);
        assert('0' <= t[t.len() - 1] <= '9');
    }
}

proof fn lemma_reading_number(s: Seq<char>, done: Seq<nat>, t: Seq<char>)
    requires
        reading(s) == Some(Reading { done, last: None }),
        t.len() > 0,
        forall|i: int| 0 <= i < t.len() ==> '0' <= #[trigger] t[i] <= '9',
        number_shown(t) <= u64::MAX,
    ensures
        reading(s + t) == Some(Reading { done, last: Some(number_shown(t) as nat) }),
    decreases t.len(),
{
    let less = t.drop_last();
    lemma_number_grows(t);
    assert((s + t).drop_last() =~= s + less);
    assert((s + t).last() == t[t.len() - 1]);
    if less.len() == 0 {
        assert(s + less =~= s);
        assert(number_shown(less) == 0);
    } else {
        assert forall|i: int| 0 <= i < less.len() implies '0' <= #[trigger] less[i] <= '9' by {
            assert(less[i] == t[i]);
        }
        lemma_reading_number(s, done, less);
        lemma_number_grows(less);
    }
}

proof fn lemma_reading_dot(s: Seq<char>, done: Seq<nat>, n: nat)
    requires
        reading(s) == Some(Reading { done, last: Some(n) }),
    ensures
        reading(s.push('.')) == Some(Reading { done: done.push(n), last: None }),
{
    assert(s.push('.').drop_last() =~= s);
}

/// A version of three numbers with dots between them is read as these numbers;
/// a text that is empty, or that holds anything but digits and dots, is no
/// version.
pub proof fn law_version_numbers(a: nat, b: nat, c: nat, s: Seq<char>, i: int)
    requires
        a <= u64::MAX && b <= u64::MAX && c <= u64::MAX,
    ensures
        version_numbers(digits(a)) == Some(seq![a]),
        version_numbers(digits(a).push('.') + digits(b)) == Some(seq![a, b]),
        version_numbers((digits(a).push('.') + digits(b)).push('.') + digits(c)) == Some(seq![a, b, c]),
        version_numbers(Seq::empty()) is None,
        0 <= i < s.len() && s[i] != '.' && !('0' <= s[i] <= '9') ==> version_numbers(s) is None,
{
    law_digits(a);
    law_digits(b);
    law_digits(c);
    let none = Seq::<char>::empty();
    let zero = Seq::<nat>::empty();
    lemma_reading_number(none, zero, digits(a));
    assert(none + digits(a) =~= digits(a));
    assert(zero.push(a) =~= seq![a]);
    lemma_reading_dot(digits(a), zero, a);
    let s1 = digits(a).push('.');
    lemma_reading_number(s1, seq![a], digits(b));
    assert(seq![a].push(b) =~= seq![a, b]);
    lemma_reading_dot(s1 + digits(b), seq![a], b);
    lemma_reading_number((s1 + digits(b)).push('.'), seq![a, b], digits(c));
    assert(seq![a, b].push(c) =~= seq![a, b, c]);
    if 0 <= i < s.len() && s[i] != '.' && !('0' <= s[i] <= '9') {
        lemma_not_version(s, i);
    }
}

proof fn lemma_not_version(s: Seq<char>, i: int)
    requires
        0 <= i < s.len(),
        s[i] != '.' && !('0' <= s[i] <= '9'),
    ensures
        reading(s) is None,
    decreases s.len(),
{
    if i < s.len() - 1 {
        assert(s.drop_last()[i] == s[i]);
        lemma_not_version(s.drop_last(), i);
    }
}

/// A version comes before another whose number is greater at the first place
/// where they differ, whatever follows; zeros at the end make no difference.
pub proof fn law_older(p: Seq<nat>, x: nat, y: nat, a: Seq<nat>, b: Seq<nat>)
    ensures
        x < y ==> older(p.push(x) + a, p.push(y) + b) && !older(p.push(y) + b, p.push(x) + a),
        !older(p, p.push(0)) && !older(p.push(0), p),
        y > 0 ==> older(p, p.push(y)),
{
    let v = p.push(x) + a;
    let w = p.push(y) + b;
    let n = p.len() as int;
    if x < y {
        assert(part(v, n) < part(w, n));
        assert forall|j: int| 0 <= j < n implies part(v, j) == part(w, j) by {}
        assert(older(v, w));
        law_older_is_one_way(v, w);
    }
    assert forall|j: int| part(p, j) == part(p.push(0), j) by {}
    if y > 0 {
        assert(part(p, n) < part(p.push(y), n));
        assert forall|j: int| 0 <= j < n implies part(p, j) == part(p.push(y), j) by {}
    }
}

/// A plugin is behind where the catalog's version comes after its own, ahead
/// where it comes before, and current where they are the same.
pub proof fn law_drift(a: nat, b: nat, c: nat, d: nat, s: Seq<char>, t: Seq<char>)
    requires
        a <= u64::MAX && b <= u64::MAX && c <= u64::MAX && d <= u64::MAX,
    ensures
        ({
            let v = (digits(a).push('.') + digits(b)).push('.') + digits(c);
            let w = (digits(a).push('.') + digits(b)).push('.') + digits(d);
            &&& c < d ==> drift_between(Some(v), Some(w)) is Behind && drift_between(Some(w), Some(v)) is Ahead
            &&& drift_between(Some(v), Some(v)) is Current
        }),
        drift_between(Some(s), Some(s)) is Current,
        drift_between(Some(s), Some(t)) is Behind <==> drift_between(Some(t), Some(s)) is Ahead,
        s != t && (version_numbers(s) is None || version_numbers(t) is None) ==> drift_between(Some(s), Some(t)) is Unknown,
        drift_between(None, Some(t)) is Unknown,
        drift_between(Some(s), None) is Unknown,
        drift_between(None, None) is Unknown,
{
    law_version_numbers(a, b, c, s, 0);
    law_version_numbers(a, b, d, s, 0);
    law_older(seq![a, b], c, d, Seq::empty(), Seq::empty());
    assert(seq![a, b].push(c) + Seq::<nat>::empty() =~= seq![a, b, c]);
    assert(seq![a, b].push(d) + Seq::<nat>::empty() =~= seq![a, b, d]);
    if c < d {
        law_older_is_one_way(seq![a, b, c], seq![a, b, d]);
    }
    if version_numbers(s) is Some && version_numbers(t) is Some {
        law_older_is_one_way(version_numbers(s)->0, version_numbers(t)->0);
        law_older_is_one_way(version_numbers(t)->0, version_numbers(s)->0);
    }
}

/// The latest version of a plugin is that of the first entry with its name; none
/// is known where no entry has it.
pub proof fn law_latest(v: Seq<JsonView>, catalog: JsonView, name: Seq<char>, k: int)
    requires
        0 <= k <= v.len(),
        forall|j: int| 0 <= j < k ==> text_member(#[trigger] v[j], "name"@) != Some(name),
        member(catalog, "contracts"@) == Some(JsonView::Array(v)),
    ensures
        k == v.len() ==> latest_in(catalog, name) is None,
        k < v.len() && text_member(v[k], "name"@) == Some(name) ==> latest_in(catalog, name) == text_member(
            v[k],
            "latest_version"@,
        ),
{
    lemma_latest_skips(v, name, 0, k);
}

proof fn lemma_latest_skips(v: Seq<JsonView>, name: Seq<char>, i: int, k: int)
    requires
        0 <= i <= k <= v.len(),
        forall|j: int| i <= j < k ==> text_member(#[trigger] v[j], "name"@) != Some(name),
    ensures
        latest_from(v, name, i) == latest_from(v, name, k),
    decreases k - i,
{
    if i < k {
        assert(text_member(v[i], "name"@) != Some(name));
        lemma_latest_skips(v, name, i + 1, k);
    }
}

/// What is told of an installed plugin comes from the first place where it was
/// found, from its `plugin.json` and from the catalog.
pub proof fn law_installed(
    cwd: Seq<char>,
    hits: Seq<(Seq<char>, Seq<char>)>,
    m: Option<Manifest>,
    skill: Option<Seq<char>>,
    md: Option<Seq<char>>,
    has_contract: bool,
    latest: Option<Seq<char>>,
)
    requires
        hits.len() > 0,
    ensures
        ({
            let p = present(cwd, hits, m, skill, md, has_contract, latest);
            &&& p.installed && p.plugin_name == hits[0].0 && p.plugin_path == Some(seen_from(cwd, hits[0].1))
            &&& p.latest_version == latest && p.skill_name == skill
            &&& p.drift_status == drift_between(p.plugin_version, latest)
            &&& m matches Some(x) ==> p.plugin_version == text_of(x.version) && p.repo_url == text_of(x.repo_url)
                && p.issues_url == text_of(x.issues_url)
            &&& m is None ==> p.plugin_version is None && p.repo_url is None && p.issues_url is None
            &&& p.contract_yaml_path == (if has_contract {
                Some(seen_from(cwd, below(below(hits[0].1, "reference"@), "contract.yaml"@)))
            } else {
                None
            })
            &&& p.sdk is Some <==> md is Some
            &&& md matches Some(t) ==> p.sdk == Some(sdk_in(sdk_block(t, markdown_spans(t))))
        }),
{
}

/// A plugin that is not installed is told so, under its name, and nothing else
/// is known of it.
pub proof fn law_not_installed(name: Seq<char>)
    ensures
        ({
            let p = absent(name);
            &&& !p.installed && p.plugin_name == name && p.drift_status is Unknown && p.warnings.len() == 0
            &&& p.plugin_path is None && p.plugin_version is None && p.latest_version is None && p.skill_name is None
            &&& p.contract_yaml_path is None && p.sdk is None && p.repo_url is None && p.issues_url is None
        }),
{
}

proof fn lemma_three_parts(a: Seq<Seq<char>>, b: Seq<Seq<char>>, c: Seq<Seq<char>>, d: Seq<Seq<char>>, w: Seq<char>)
    ensures
        (a + b + c + d).contains(w) <==> a.contains(w) || b.contains(w) || c.contains(w) || d.contains(w),
{
    let s = a + b + c + d;
    if a.contains(w) {
        let i = choose|i: int| 0 <= i < a.len() && a[i] == w;
        assert(s[i] == w);
    }
    if b.contains(w) {
        let i = choose|i: int| 0 <= i < b.len() && b[i] == w;
        assert(s[a.len() + i] == w);
    }
    if c.contains(w) {
        let i = choose|i: int| 0 <= i < c.len() && c[i] == w;
        assert(s[a.len() + b.len() + i] == w);
    }
    if d.contains(w) {
        let i = choose|i: int| 0 <= i < d.len() && d[i] == w;
        assert(s[a.len() + b.len() + c.len() + i] == w);
    }
    if s.contains(w) {
        let i = choose|i: int| 0 <= i < s.len() && s[i] == w;
        if i < a.len() {
            assert(a[i] == w);
        } else if i < a.len() + b.len() {
            assert(b[i - a.len()] == w);
        } else if i < a.len() + b.len() + c.len() {
            assert(c[i - a.len() - b.len()] == w);
        } else {
            assert(d[i - a.len() - b.len() - c.len()] == w);
        }
    }
}

/// An installed plugin is warned of exactly where it lies in several places, its
/// `plugin.json` or the version in it is missing, its document has an SDK
/// heading without a dependency, or its contract is missing.
pub proof fn law_warnings(
    cwd: Seq<char>,
    hits: Seq<(Seq<char>, Seq<char>)>,
    m: Option<Manifest>,
    skill: Option<Seq<char>>,
    md: Option<Seq<char>>,
    has_contract: bool,
    latest: Option<Seq<char>>,
    w: Seq<char>,
)
    ensures
        present(cwd, hits, m, skill, md, has_contract, latest).warnings.contains(w) <==> {
            ||| hits.len() > 1 && w == "duplicate plugin install dirs found; using first: also at "@ + joined(
                hits.skip(1).map_values(|h: (Seq<char>, Seq<char>)| seen_from(cwd, h.1)),
                ", "@,
            )
            ||| m is None && w == "plugin.json missing"@
            ||| (m matches Some(x) && x.version is None) && w == "plugin.json missing 'version'"@
            ||| (md matches Some(t) && sdk_of(t) matches Some(b) && dependency(b) is None) && w
                == "SKILL.md has SDK heading but no <dependency> block"@
            ||| !has_contract && w == "reference/contract.yaml missing"@
        },
{
    let a = duplicate_warning(cwd, hits);
    let b = manifest_warning(m);
    let c = match md {
        Some(t) => sdk_warnings(sdk_of(t)),
        None => Seq::empty(),
    };
    let d = if has_contract {
        Seq::<Seq<char>>::empty()
    } else {
        seq!["reference/contract.yaml missing"@]
    };
    lemma_three_parts(a, b, c, d, w);
    if a.len() > 0 {
        assert(a.contains(a[0]));
    }
    if b.len() > 0 {
        assert(b.contains(b[0]));
    }
    if c.len() > 0 {
        assert(c.contains(c[0]));
    }
    if d.len() > 0 {
        assert(d.contains(d[0]));
    }
}

/// The answer tells each thing that is known of a plugin under its own name.
#[verifier::rlimit(60)]
pub proof fn law_plugin_told(p: PluginView)
    ensures
        ({
            let j = plugin_json(p);
            &&& member(j, "plugin_name"@) == Some(JsonView::Text(p.plugin_name))
            &&& member(j, "installed"@) == Some(JsonView::Bool(p.installed))
            &&& member(j, "plugin_path"@) == Some(text_or_null(p.plugin_path))
            &&& member(j, "plugin_version"@) == Some(text_or_null(p.plugin_version))
            &&& member(j, "latest_version"@) == (match p.latest_version {
                Some(t) => Some(JsonView::Text(t)),
                None => None,
            })
            &&& member(j, "drift_status"@) == Some(
                JsonView::Text(
                    match p.drift_status {
                        Drift::Unknown => "unknown"@,
                        Drift::Current => "current"@,
                        Drift::Behind => "behind"@,
                        Drift::Ahead => "ahead"@,
                    },
                ),
            )
            &&& member(j, "skill_name"@) == Some(text_or_null(p.skill_name))
            &&& member(j, "contract_yaml_path"@) == Some(text_or_null(p.contract_yaml_path))
            &&& p.sdk is None ==> member(j, "sdk"@) == Some(JsonView::Null)
            &&& p.sdk matches Some(s) ==> member(j, "sdk"@) == Some(sdk_json(s))
            &&& member(j, "repo_url"@) == Some(text_or_null(p.repo_url))
            &&& member(j, "issues_url"@) == Some(text_or_null(p.issues_url))
            &&& member(j, "warnings"@) == Some(text_array(p.warnings))
        }),
{
    let m = plugin_json(p)->Object_0;
    reveal_strlit("plugin_name");
    reveal_strlit("installed");
    reveal_strlit("plugin_path");
    reveal_strlit("plugin_version");
    reveal_strlit("latest_version");
    reveal_strlit("drift_status");
    reveal_strlit("skill_name");
    reveal_strlit("contract_yaml_path");
    reveal_strlit("sdk");
    reveal_strlit("repo_url");
    reveal_strlit("issues_url");
    reveal_strlit("warnings");
    assert("plugin_name"@[7] == 'n' && "plugin_path"@[7] == 'p');
    assert("plugin_version"@[0] == 'p' && "latest_version"@[0] == 'l');
    assert("skill_name"@[0] == 's' && "issues_url"@[0] == 'i' && "repo_url"@[0] == 'r' && "warnings"@[0] == 'w');
    let n: int = if p.latest_version is Some {
        5
    } else {
        4
    };
    assert(m[0].0 == "plugin_name"@ && m[1].0 == "installed"@ && m[2].0 == "plugin_path"@ && m[3].0 == "plugin_version"@);
    if n == 5 {
        assert(m[4].0 == "latest_version"@);
    }
    assert(m[n].0 == "drift_status"@ && m[n + 1].0 == "skill_name"@ && m[n + 2].0 == "contract_yaml_path"@);
    assert(m[n + 3].0 == "sdk"@ && m[n + 4].0 == "repo_url"@ && m[n + 5].0 == "issues_url"@ && m[n + 6].0 == "warnings"@);
    reveal_with_fuel(member_from, 14);
}

/// What is known of an SDK is told under its own name, and what is not known is
/// left out.
pub proof fn law_sdk_told(s: SdkView)
    ensures
        member(sdk_json(s), "present"@) == Some(JsonView::Bool(s.present)),
        member(sdk_json(s), "group_id"@) == (match s.group_id {
            Some(t) => Some(JsonView::Text(t)),
            None => None,
        }),
        member(sdk_json(s), "artifact_id"@) == (match s.artifact_id {
            Some(t) => Some(JsonView::Text(t)),
            None => None,
        }),
        member(sdk_json(s), "version"@) == (match s.version {
            Some(t) => Some(JsonView::Text(t)),
            None => None,
        }),
{
    let m = sdk_json(s)->Object_0;
    reveal_strlit("present");
    reveal_strlit("group_id");
    reveal_strlit("artifact_id");
    reveal_strlit("version");
    assert("present"@[0] == 'p' && "version"@[0] == 'v');
    assert(m[0].0 == "present"@);
    let a: int = if s.group_id is Some {
        2
    } else {
        1
    };
    let b: int = if s.artifact_id is Some {
        a + 1
    } else {
        a
    };
    if s.group_id is Some {
        assert(m[1].0 == "group_id"@);
    }
    if s.artifact_id is Some {
        assert(m[a].0 == "artifact_id"@);
    }
    if s.version is Some {
        assert(m[b].0 == "version"@);
    }
    reveal_with_fuel(member_from, 6);
}

/// A `plugin.json` that is not there is nothing wrong; one that holds no JSON is
/// told with its path and the reason.
pub proof fn law_manifest_read(path: Seq<char>, t: Seq<char>)
    ensures
        manifest_value(path, None) == Ok::<Option<JsonView>, Seq<char>>(None),
        json_document(t) matches Ok(v) ==> manifest_value(path, Some(t)) == Ok::<Option<JsonView>, Seq<char>>(Some(v)),
        json_document(t) matches Err(e) ==> manifest_value(path, Some(t)) == Err::<Option<JsonView>, Seq<char>>(
            "invalid JSON in "@ + path + ": "@ + e,
        ),
{
}

} // verus!
