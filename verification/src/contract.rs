//! Publishing a staged contract: to its repository, to the marketplace, and as
//! commits.

use crate::contracts::{keeps_places, lemma_places_more};
use crate::json::{
    array, elements, get_text, json_document, law_member_after_put, lemma_holding, lemma_member_from, member,
    member_from, members, object, parse_json, pretty_text, push_member, put_member, render_pretty, text, text_array,
    text_member, texts, with_member, Json, JsonView,
};
use crate::ordered::{in_path_order, sort_paths};
use crate::path::{contains_component, ends_in, has_component, is_named};
use crate::text::{
    ends, ends_with, join, joined, push_text, same, shown, text_of, trim, trimmed, views,
};
use vstd::prelude::*;

verus! {

/// The contract commands.
pub enum ContractCmd {
    /// Push a staged contract and update the marketplace.
    Publish {
        /// The service, which names the staged directory.
        service: String,
        /// Needed for anything that changes a repository; without it the
        /// command only tells what it would do.
        confirmed: bool,
        /// Make no commits in the end.
        no_commit: bool,
    },
}

/// What `.jkit/contract.json` holds.
pub struct ContractCfg {
    pub contract_repo: Option<String>,
    pub marketplace_repo: Option<String>,
    pub marketplace_name: Option<String>,
}

/// What is needed to publish.
pub struct Targets {
    pub contract_repo: String,
    pub marketplace_repo: String,
    pub marketplace_name: String,
}

/// Whether a setting is not there or empty.
pub open spec fn lacking(s: Option<String>) -> bool {
    s is None || s->0@.len() == 0
}

/// The names of the settings that are not there or empty.
pub open spec fn missing(c: ContractCfg) -> Seq<Seq<char>> {
    let a = if lacking(c.contract_repo) {
        seq!["contractRepo"@]
    } else {
        Seq::empty()
    };
    let b = if lacking(c.marketplace_repo) {
        a.push("marketplaceRepo"@)
    } else {
        a
    };
    if lacking(c.marketplace_name) {
        b.push("marketplaceName"@)
    } else {
        b
    }
}

fn is_lacking(s: &Option<String>) -> (r: bool)
    ensures
        r == lacking(*s),
{
    match s {
        Some(t) => t.as_str().is_empty(),
        None => true,
    }
}

/// What is needed to publish, of what `.jkit/contract.json` holds where there
/// is such a file, or the message that tells what is missing.
pub fn targets(cfg: Option<ContractCfg>) -> (r: Result<Targets, String>)
    ensures
        (match (cfg, r) {
            (None, Ok(_)) => false,
            (None, Err(e)) => e@ == ".jkit/contract.json missing"@,
            (Some(c), Ok(t)) => missing(c).len() == 0 && c.contract_repo == Some(t.contract_repo)
                && c.marketplace_repo == Some(t.marketplace_repo) && c.marketplace_name == Some(t.marketplace_name),
            (Some(c), Err(e)) => missing(c).len() > 0 && e@ == "missing fields in .jkit/contract.json: "@ + joined(
                missing(c),
                ", "@,
            ),
        }),
{
    let Some(c) = cfg else {
        return Err(".jkit/contract.json missing".to_owned());
    };
    let mut names: Vec<String> = Vec::new();
    assert(views(names@) =~= Seq::<Seq<char>>::empty());
    if is_lacking(&c.contract_repo) {
        push_text(&mut names, "contractRepo");
        assert(views(names@) =~= seq!["contractRepo"@]);
    }
    if is_lacking(&c.marketplace_repo) {
        push_text(&mut names, "marketplaceRepo");
    }
    if is_lacking(&c.marketplace_name) {
        push_text(&mut names, "marketplaceName");
    }
    assert(views(names@) == missing(c));
    match (c.contract_repo, c.marketplace_repo, c.marketplace_name) {
        (Some(contract_repo), Some(marketplace_repo), Some(marketplace_name)) => if names.len() == 0 {
            assert(views(names@).len() == 0);
            Ok(Targets { contract_repo, marketplace_repo, marketplace_name })
        } else {
            assert(views(names@).len() == names@.len());
            let mut e: String = "missing fields in .jkit/contract.json: ".to_owned();
            e.append(join(&names, ", ").as_str());
            Err(e)
        },
        _ => {
            let mut e: String = "missing fields in .jkit/contract.json: ".to_owned();
            e.append(join(&names, ", ").as_str());
            Err(e)
        },
    }
}

/// Whether a file of the staged directory is part of the contract: not what
/// `git` keeps, and not the list of modified files.
pub open spec fn staged(p: Seq<char>) -> bool {
    !has_component(p, ".git"@) && !is_named(p, ".modified-files.json"@)
}

/// Those of the paths that are part of the contract, in order.
pub open spec fn staged_paths(v: Seq<Seq<char>>) -> Seq<Seq<char>>
    decreases v.len(),
{
    if v.len() == 0 {
        Seq::empty()
    } else if staged(v.last()) {
        staged_paths(v.drop_last()).push(v.last())
    } else {
        staged_paths(v.drop_last())
    }
}

/// The files of the contract, of all files below the staged directory: in path
/// order.
pub fn collect_stage_files(paths: &Vec<String>) -> (r: Vec<String>)
    ensures
        in_path_order(views(r@)),
        views(r@).to_multiset() == staged_paths(views(paths@)).to_multiset(),
{
    let ghost all = views(paths@);
    let mut out: Vec<String> = Vec::new();
    let mut i: usize = 0;
    assert(all.take(0) =~= Seq::<Seq<char>>::empty());
    assert(views(out@) =~= Seq::<Seq<char>>::empty());
    while i < paths.len()
        invariant
            0 <= i <= paths@.len(),
            all == views(paths@),
            views(out@) == staged_paths(all.take(i as int)),
        decreases paths.len() - i,
    {
        assert(all.take(i + 1).drop_last() =~= all.take(i as int));
        assert(all[i as int] == paths@[i as int]@);
        if !contains_component(paths[i].as_str(), ".git") && !ends_in(paths[i].as_str(), ".modified-files.json") {
            push_text(&mut out, paths[i].as_str());
        }
        i = i + 1;
    }
    assert(all.take(all.len() as int) =~= all);
    sort_paths(out)
}

/// The tool that a modified file belongs to.
pub open spec fn tool_of(f: Seq<char>) -> Option<Seq<char>> {
    if ends(f, "smart-doc.json"@) {
        Some("smart-doc"@)
    } else if ends(f, "pom.xml"@) {
        Some("maven"@)
    } else if ends(f, "package.json"@) {
        Some("npm"@)
    } else if ends(f, "go.mod"@) {
        Some("go"@)
    } else if ends(f, "Cargo.toml"@) {
        Some("cargo"@)
    } else {
        None
    }
}

/// The tool that the first file with a tool belongs to.
pub open spec fn tool(modified: Seq<Seq<char>>, i: int) -> Seq<char>
    decreases modified.len() - i,
{
    if i < 0 || i >= modified.len() {
        "build-tool"@
    } else {
        match tool_of(modified[i]) {
            Some(t) => t,
            None => tool(modified, i + 1),
        }
    }
}

/// The tool that modified files belong to.
pub fn guess_tool(modified: &Vec<String>) -> (r: &'static str)
    ensures
        r@ == tool(views(modified@), 0),
{
    let ghost all = views(modified@);
    let mut i: usize = 0;
    while i < modified.len()
        invariant
            0 <= i <= modified@.len(),
            all == views(modified@),
            tool(all, 0) == tool(all, i as int),
        decreases modified.len() - i,
    {
        assert(all[i as int] == modified@[i as int]@);
        let f = modified[i].as_str();
        if ends_with(f, "smart-doc.json") {
            return "smart-doc";
        }
        if ends_with(f, "pom.xml") {
            return "maven";
        }
        if ends_with(f, "package.json") {
            return "npm";
        }
        if ends_with(f, "go.mod") {
            return "go";
        }
        if ends_with(f, "Cargo.toml") {
            return "cargo";
        }
        i = i + 1;
    }
    "build-tool"
}

/// The texts that `serde_json` reads from an array of strings, if it is one.
pub uninterp spec fn json_texts(t: Seq<char>) -> Option<Seq<Seq<char>>>;

/// `serde_json::from_str` into a `Vec<String>`: the same text gives the same
/// strings, or none.
#[verifier::external_body]
fn parse_texts(t: &str) -> (r: Option<Vec<String>>)
    ensures
        (match r {
            Some(v) => json_texts(t@) == Some(views(v@)),
            None => json_texts(t@) is None,
        }),
{
    serde_json::from_str::<Vec<String>>(t).ok()
}

/// The files in the text of `.modified-files.json`; a text that is no list
/// names none.
pub open spec fn modified_in(t: Option<Seq<char>>) -> Seq<Seq<char>> {
    match t {
        Some(s) => match json_texts(s) {
            Some(v) => v,
            None => Seq::empty(),
        },
        None => Seq::empty(),
    }
}

/// The files in the text of `.modified-files.json`.
pub fn read_modified_files(t: Option<&str>) -> (r: Vec<String>)
    ensures
        views(r@) == modified_in(shown(t)),
{
    let none: Vec<String> = Vec::new();
    assert(views(none@) =~= Seq::<Seq<char>>::empty());
    match t {
        Some(s) => match parse_texts(s) {
            Some(v) => v,
            None => none,
        },
        None => none,
    }
}

/// The subject of the commit for modified files.
pub open spec fn config_subject(modified: Seq<Seq<char>>) -> Seq<char> {
    "chore(contract): add "@ + tool(modified, 0) + " configuration"@
}

/// The subject of the commit for the contract.
pub open spec fn publish_subject(service: Seq<char>) -> Seq<char> {
    "chore(contract): publish service contract for "@ + service
}

/// The subject of the commit for modified files.
pub fn config_commit(modified: &Vec<String>) -> (r: String)
    ensures
        r@ == config_subject(views(modified@)),
{
    let mut s: String = "chore(contract): add ".to_owned();
    s.append(guess_tool(modified));
    s.append(" configuration");
    s
}

/// The subject of the commit for the contract.
pub fn publish_commit(service: &str) -> (r: String)
    ensures
        r@ == publish_subject(service@),
{
    let mut s: String = "chore(contract): publish service contract for ".to_owned();
    s.append(service);
    s
}

/// The commits that would be made.
pub open spec fn planned_commits(service: Seq<char>, modified: Seq<Seq<char>>, no_commit: bool) -> Seq<Seq<char>> {
    if no_commit {
        Seq::empty()
    } else if modified.len() > 0 {
        seq![config_subject(modified), publish_subject(service)]
    } else {
        seq![publish_subject(service)]
    }
}

/// What would be done, as JSON.
pub open spec fn dry_run_json(
    cli: Seq<char>,
    service: Seq<char>,
    t: Targets,
    files: Seq<Seq<char>>,
    modified: Seq<Seq<char>>,
    no_commit: bool,
) -> JsonView {
    JsonView::Object(
        seq![
            ("service"@, JsonView::Text(service)),
            ("confirmed"@, JsonView::Bool(false)),
            ("contract_repo"@, JsonView::Text(t.contract_repo@)),
            ("marketplace_repo"@, JsonView::Text(t.marketplace_repo@)),
            ("marketplace_name"@, JsonView::Text(t.marketplace_name@)),
            ("would_push_files"@, text_array(files)),
            (
                "would_run"@,
                text_array(
                    seq![
                        "git push "@ + t.contract_repo@,
                        "marketplace.json update + push"@,
                        cli + " plugin marketplace update "@ + t.marketplace_name@,
                    ],
                ),
            ),
            ("would_commit"@, text_array(planned_commits(service, modified, no_commit))),
        ],
    )
}

/// What would be done, as JSON.
pub fn dry_run(
    cli: &str,
    service: &str,
    t: &Targets,
    files: &Vec<String>,
    modified: &Vec<String>,
    no_commit: bool,
) -> (r: Json)
    ensures
        r@ == dry_run_json(cli@, service@, *t, views(files@), views(modified@), no_commit),
{
    let mut commits: Vec<String> = Vec::new();
    assert(views(commits@) =~= Seq::<Seq<char>>::empty());
    assert(views(modified@).len() == modified@.len());
    if !no_commit {
        if modified.len() > 0 {
            push_text(&mut commits, config_commit(modified).as_str());
        }
        push_text(&mut commits, publish_commit(service).as_str());
    }
    assert(views(commits@) =~= planned_commits(service@, views(modified@), no_commit));
    let mut push: String = "git push ".to_owned();
    push.append(t.contract_repo.as_str());
    let mut update: String = cli.to_owned();
    update.append(" plugin marketplace update ");
    update.append(t.marketplace_name.as_str());
    let mut run: Vec<String> = Vec::new();
    push_text(&mut run, push.as_str());
    push_text(&mut run, "marketplace.json update + push");
    push_text(&mut run, update.as_str());
    assert(views(run@) =~= seq![push@, "marketplace.json update + push"@, update@]);
    let mut m: Vec<(String, Json)> = Vec::new();
    push_member(&mut m, "service", text(service));
    push_member(&mut m, "confirmed", Json::Bool(false));
    push_member(&mut m, "contract_repo", text(t.contract_repo.as_str()));
    push_member(&mut m, "marketplace_repo", text(t.marketplace_repo.as_str()));
    push_member(&mut m, "marketplace_name", text(t.marketplace_name.as_str()));
    push_member(&mut m, "would_push_files", texts(files));
    push_member(&mut m, "would_run", texts(&run));
    push_member(&mut m, "would_commit", texts(&commits));
    assert(members(m@) =~= dry_run_json(cli@, service@, *t, views(files@), views(modified@), no_commit)->Object_0);
    object(m)
}

/// Why the staged directory cannot be published, if so.
pub fn stage_error(dir: &str, is_dir: bool, files: &Vec<String>) -> (r: Option<String>)
    ensures
        r is Some == (!is_dir || files@.len() == 0),
        r matches Some(e) ==> e@ == (if !is_dir {
            "stage dir not found: "@ + dir@
        } else {
            "stage dir is empty: "@ + dir@
        }),
{
    if !is_dir {
        let mut e: String = "stage dir not found: ".to_owned();
        e.append(dir);
        Some(e)
    } else if files.len() == 0 {
        let mut e: String = "stage dir is empty: ".to_owned();
        e.append(dir);
        Some(e)
    } else {
        None
    }
}

/// The name of the plugin of a service.
pub open spec fn plugin_of(service: Seq<char>) -> Seq<char> {
    service + "-contract"@
}

/// The name of the plugin of a service.
pub fn plugin_name(service: &str) -> (r: String)
    ensures
        r@ == plugin_of(service@),
{
    let mut s: String = service.to_owned();
    s.append("-contract");
    s
}

/// The index, at or after `i`, of the first plugin with this name.
pub open spec fn plugin_from(v: Seq<JsonView>, name: Seq<char>, i: int) -> Option<int>
    decreases v.len() - i,
{
    if i < 0 || i >= v.len() {
        None
    } else if text_member(v[i], "name"@) == Some(name) {
        Some(i)
    } else {
        plugin_from(v, name, i + 1)
    }
}

proof fn lemma_plugin_from(v: Seq<JsonView>, name: Seq<char>, i: int)
    requires
        0 <= i,
    ensures
        (match plugin_from(v, name, i) {
            Some(k) => i <= k < v.len() && text_member(v[k], "name"@) == Some(name) && forall|j: int|
                i <= j < k ==> text_member(#[trigger] v[j], "name"@) != Some(name),
            None => forall|j: int| i <= j < v.len() ==> text_member(#[trigger] v[j], "name"@) != Some(name),
        }),
    decreases v.len() - i,
{
    if i < v.len() && text_member(v[i], "name"@) != Some(name) {
        lemma_plugin_from(v, name, i + 1);
    }
}

/// The entry of a plugin. A version that is not known is left out.
pub open spec fn plugin_entry(name: Seq<char>, source: Seq<char>, version: Option<Seq<char>>) -> JsonView {
    let named = seq![("name"@, JsonView::Text(name)), ("source"@, JsonView::Text(source))];
    JsonView::Object(
        match version {
            Some(v) => named.push(("version"@, JsonView::Text(v))),
            None => named,
        },
    )
}

/// An entry with its version, where one is known.
pub open spec fn with_version(p: JsonView, version: Option<Seq<char>>) -> JsonView {
    match (p, version) {
        (JsonView::Object(m), Some(v)) => JsonView::Object(with_member(m, "version"@, JsonView::Text(v))),
        _ => p,
    }
}

/// The plugins of a marketplace once one is published: its version is put into
/// the entry that it has, or an entry is added at the end.
pub open spec fn plugins_after(
    v: Seq<JsonView>,
    name: Seq<char>,
    source: Seq<char>,
    version: Option<Seq<char>>,
) -> Seq<JsonView> {
    match plugin_from(v, name, 0) {
        Some(i) => v.update(i, with_version(v[i], version)),
        None => v.push(plugin_entry(name, source, version)),
    }
}

/// Publishing a plugin a second time changes nothing, no other entry is
/// changed, and an entry with the plugin's name is there.
pub proof fn law_publish_plugin_idempotent(
    v: Seq<JsonView>,
    name: Seq<char>,
    source: Seq<char>,
    version: Option<Seq<char>>,
)
    ensures
        ({
            let once = plugins_after(v, name, source, version);
            &&& plugin_from(once, name, 0) is Some
            &&& plugins_after(once, name, source, version) == once
            &&& forall|j: int|
                0 <= j < v.len() && text_member(#[trigger] v[j], "name"@) != Some(name) ==> once[j] == v[j]
        }),
{
    let once = plugins_after(v, name, source, version);
    lemma_plugin_from(v, name, 0);
    lemma_plugin_from(once, name, 0);
    match plugin_from(v, name, 0) {
        Some(i) => {
            lemma_version_keeps_name(v[i], version);
            assert(text_member(once[i], "name"@) == Some(name));
            match plugin_from(once, name, 0) {
                Some(j) => {
                    if j < i {
                        assert(once[j] == v[j]);
                    }
                    if i < j {
                        assert(text_member(once[i], "name"@) != Some(name));
                    }
                    assert(i == j);
                    lemma_version_twice(v[i], version);
                    assert(once.update(i, once[i]) =~= once);
                },
                None => {},
            }
        },
        None => {
            let n = v.len() as int;
            lemma_entry_named(name, source, version);
            assert(text_member(once[n], "name"@) == Some(name));
            match plugin_from(once, name, 0) {
                Some(j) => {
                    if j < n {
                        assert(once[j] == v[j]);
                    }
                    lemma_entry_version(name, source, version);
                    assert(once.update(n, once[n]) =~= once);
                },
                None => {},
            }
        },
    }
}

proof fn lemma_version_keeps_name(p: JsonView, version: Option<Seq<char>>)
    ensures
        text_member(with_version(p, version), "name"@) == text_member(p, "name"@),
{
    if p is Object && version is Some {
        reveal_strlit("name");
        reveal_strlit("version");
        assert("name"@.len() == 4 && "version"@.len() == 7);
        law_member_after_put(p->Object_0, "version"@, JsonView::Text(version->0), "name"@);
    }
}

proof fn lemma_put_twice(m: Seq<(Seq<char>, JsonView)>, name: Seq<char>, value: JsonView)
    ensures
        with_member(with_member(m, name, value), name, value) == with_member(m, name, value),
{
    let q = with_member(m, name, value);
    lemma_member_from(m, name, 0);
    lemma_member_from(q, name, 0);
    match member_from(m, name, 0) {
        Some(i) => {
            assert(q[i].0 == name);
            match member_from(q, name, 0) {
                Some(j) => {
                    if j < i {
                        assert(q[j] == m[j]);
                    }
                    if i < j {
                        assert(q[i].0 != name);
                    }
                    assert(q.update(i, (name, value)) =~= q);
                },
                None => {},
            }
        },
        None => {
            let n = m.len() as int;
            assert(q[n].0 == name);
            match member_from(q, name, 0) {
                Some(j) => {
                    if j < n {
                        assert(q[j] == m[j]);
                    }
                    assert(q.update(n, (name, value)) =~= q);
                },
                None => {},
            }
        },
    }
}

proof fn lemma_version_twice(p: JsonView, version: Option<Seq<char>>)
    ensures
        with_version(with_version(p, version), version) == with_version(p, version),
{
    if p is Object && version is Some {
        lemma_put_twice(p->Object_0, "version"@, JsonView::Text(version->0));
    }
}

proof fn lemma_entry_named(name: Seq<char>, source: Seq<char>, version: Option<Seq<char>>)
    ensures
        text_member(plugin_entry(name, source, version), "name"@) == Some(name),
{
    let m = plugin_entry(name, source, version)->Object_0;
    assert(m[0] == ("name"@, JsonView::Text(name)));
    assert(member_from(m, "name"@, 0) == Some(0int));
}

proof fn lemma_entry_version(name: Seq<char>, source: Seq<char>, version: Option<Seq<char>>)
    ensures
        with_version(plugin_entry(name, source, version), version) == plugin_entry(name, source, version),
{
    if version is Some {
        let m = plugin_entry(name, source, version)->Object_0;
        let base = seq![("name"@, JsonView::Text(name)), ("source"@, JsonView::Text(source))];
        reveal_strlit("name");
        reveal_strlit("source");
        reveal_strlit("version");
        assert("name"@.len() == 4 && "source"@.len() == 6 && "version"@.len() == 7);
        lemma_member_from(m, "version"@, 0);
        assert(m[2].0 == "version"@ && m[0].0 == "name"@ && m[1].0 == "source"@);
        match member_from(m, "version"@, 0) {
            Some(i) => {
                assert(i == 2);
                assert(m.update(2, ("version"@, JsonView::Text(version->0))) =~= m);
            },
            None => {},
        }
    }
}

/// The first entry with the name of a plugin that was published with a version
/// has that version.
pub proof fn lemma_published_version(v: Seq<JsonView>, name: Seq<char>, source: Seq<char>, version: Seq<char>)
    ensures
        ({
            let after = plugins_after(v, name, source, Some(version));
            plugin_from(after, name, 0) matches Some(k) && text_member(after[k], "version"@) == Some(version)
        }),
{
    let after = plugins_after(v, name, source, Some(version));
    law_publish_plugin_idempotent(v, name, source, Some(version));
    lemma_plugin_from(after, name, 0);
    let k = plugin_from(after, name, 0)->0;
    assert(after == plugins_after(after, name, source, Some(version)));
    assert(after[k] == with_version(after[k], Some(version)));
    assert(text_member(after[k], "name"@) == Some(name));
    law_member_after_put(after[k]->Object_0, "version"@, JsonView::Text(version), "version"@);
}

/// A marketplace in which a plugin is published stays as it is when the same is
/// published again.
pub proof fn law_marketplace_idempotent(
    v: JsonView,
    plugin: Seq<char>,
    source: Seq<char>,
    version: Option<Seq<char>>,
)
    requires
        marketplace_after(v, plugin, source, version) is Ok,
    ensures
        ({
            let once = marketplace_after(v, plugin, source, version)->Ok_0;
            marketplace_after(once, plugin, source, version) == Ok::<JsonView, Seq<char>>(once)
        }),
{
    let m = v->Object_0;
    let a = member(v, "plugins"@)->0->Array_0;
    let b = plugins_after(a, plugin, source, version);
    law_publish_plugin_idempotent(a, plugin, source, version);
    law_member_after_put(m, "plugins"@, JsonView::Array(b), "plugins"@);
    lemma_put_twice(m, "plugins"@, JsonView::Array(b));
}

/// A marketplace without plugins.
pub open spec fn empty_marketplace(name: Seq<char>) -> JsonView {
    JsonView::Object(seq![("name"@, JsonView::Text(name)), ("plugins"@, JsonView::Array(Seq::empty()))])
}

/// The marketplace once a plugin is published in it, or the message where it
/// has no list of plugins.
pub open spec fn marketplace_after(
    v: JsonView,
    plugin: Seq<char>,
    source: Seq<char>,
    version: Option<Seq<char>>,
) -> Result<JsonView, Seq<char>> {
    match member(v, "plugins"@) {
        Some(JsonView::Array(a)) => match v {
            JsonView::Object(m) => Ok(
                JsonView::Object(
                    with_member(m, "plugins"@, JsonView::Array(plugins_after(a, plugin, source, version))),
                ),
            ),
            _ => Err("marketplace.json: 'plugins' must be an array"@),
        },
        _ => Err("marketplace.json: 'plugins' must be an array"@),
    }
}

fn find_plugin(v: &Vec<Json>, name: &str) -> (r: Option<usize>)
    ensures
        r is Some == plugin_from(elements(v@), name@, 0) is Some,
        r matches Some(i) ==> i < v@.len() && plugin_from(elements(v@), name@, 0) == Some(i as int),
{
    let ghost all = elements(v@);
    let mut i: usize = 0;
    while i < v.len()
        invariant
            0 <= i <= v@.len(),
            all == elements(v@),
            plugin_from(all, name@, 0) == plugin_from(all, name@, i as int),
        decreases v.len() - i,
    {
        assert(all[i as int] == v@[i as int]@);
        if let Some(s) = get_text(&v[i], "name") {
            if same(s.as_str(), name) {
                return Some(i);
            }
        }
        i = i + 1;
    }
    None
}

fn entry_of(name: &str, source: &str, version: Option<&str>) -> (r: Json)
    ensures
        r@ == plugin_entry(name@, source@, shown(version)),
{
    let mut m: Vec<(String, Json)> = Vec::new();
    push_member(&mut m, "name", text(name));
    push_member(&mut m, "source", text(source));
    if let Some(v) = version {
        push_member(&mut m, "version", text(v));
    }
    assert(members(m@) =~= plugin_entry(name@, source@, shown(version))->Object_0);
    object(m)
}

fn set_version(p: Json, version: Option<&str>) -> (r: Json)
    ensures
        r@ == with_version(p@, shown(version)),
{
    proof {
        lemma_holding(p);
    }
    match (p, version) {
        (Json::Object(m), Some(v)) => {
            let mut m = m;
            put_member(&mut m, "version", text(v));
            object(m)
        },
        (other, _) => other,
    }
}

fn publish_in(v: Vec<Json>, name: &str, source: &str, version: Option<&str>) -> (r: Vec<Json>)
    ensures
        elements(r@) == plugins_after(elements(v@), name@, source@, shown(version)),
{
    let ghost before = v@;
    let mut v = v;
    match find_plugin(&v, name) {
        Some(i) => {
            assert(elements(before)[i as int] == before[i as int]@);
            let p = v.remove(i);
            let q = set_version(p, version);
            v.insert(i, q);
            assert(elements(v@) =~= elements(before).update(i as int, q@));
        },
        None => {
            let e = entry_of(name, source, version);
            v.push(e);
            assert(elements(v@) =~= elements(before).push(e@));
        },
    }
    v
}

/// The marketplace once a plugin is published in it.
pub fn add_plugin(v: Json, plugin: &str, source: &str, version: Option<&str>) -> (r: Result<Json, String>)
    ensures
        (match r {
            Ok(j) => marketplace_after(v@, plugin@, source@, shown(version)) == Ok::<JsonView, Seq<char>>(j@),
            Err(e) => marketplace_after(v@, plugin@, source@, shown(version)) == Err::<JsonView, Seq<char>>(e@),
        }),
{
    proof {
        lemma_holding(v);
    }
    let Json::Object(m) = v else {
        return Err("marketplace.json: 'plugins' must be an array".to_owned());
    };
    let ghost before = members(m@);
    let mut m = m;
    let mut i: usize = 0;
    while i < m.len()
        invariant
            0 <= i <= m@.len(),
            members(m@) == before,
            v@ == JsonView::Object(before),
            member_from(before, "plugins"@, 0) == member_from(before, "plugins"@, i as int),
        decreases m.len() - i,
    {
        assert(members(m@)[i as int] == (m@[i as int].0@, m@[i as int].1@));
        if same(m[i].0.as_str(), "plugins") {
            let ghost now = m@;
            let (k, p) = m.remove(i);
            proof {
                lemma_holding(p);
            }
            let Json::Array(a) = p else {
                return Err("marketplace.json: 'plugins' must be an array".to_owned());
            };
            let list = array(publish_in(a, plugin, source, version));
            m.insert(i, (k, list));
            assert(members(m@) =~= before.update(i as int, ("plugins"@, list@)));
            return Ok(object(m));
        }
        i = i + 1;
    }
    Err("marketplace.json: 'plugins' must be an array".to_owned())
}

/// The marketplace in the text of its file: a new one where there is none.
pub open spec fn marketplace_in(t: Option<Seq<char>>, name: Seq<char>) -> Result<JsonView, Seq<char>> {
    match t {
        None => Ok(empty_marketplace(name)),
        Some(s) => if trimmed(s).len() == 0 {
            Ok(empty_marketplace(name))
        } else {
            json_document(s)
        },
    }
}

/// The marketplace in the text of its file.
pub fn read_marketplace(t: Option<&str>, name: &str) -> (r: Result<Json, String>)
    ensures
        (match r {
            Ok(j) => marketplace_in(shown(t), name@) == Ok::<JsonView, Seq<char>>(j@),
            Err(e) => marketplace_in(shown(t), name@) == Err::<JsonView, Seq<char>>(e@),
        }),
{
    if let Some(s) = t {
        if !trim(s).as_str().is_empty() {
            return parse_json(s);
        }
    }
    let none: Vec<Json> = Vec::new();
    assert(elements(none@) =~= Seq::<JsonView>::empty());
    let mut m: Vec<(String, Json)> = Vec::new();
    push_member(&mut m, "name", text(name));
    push_member(&mut m, "plugins", array(none));
    assert(members(m@) =~= empty_marketplace(name@)->Object_0);
    Ok(object(m))
}

/// The version in the text of the staged `plugin.json`, where it has one.
pub open spec fn version_in(t: Option<Seq<char>>) -> Option<Seq<char>> {
    match t {
        Some(s) => match json_document(s) {
            Ok(v) => text_member(v, "version"@),
            Err(_) => None,
        },
        None => None,
    }
}

/// The version in the text of the staged `plugin.json`.
pub fn staged_version(t: Option<&str>) -> (r: Option<String>)
    ensures
        text_of(r) == version_in(shown(t)),
{
    let Some(s) = t else {
        return None;
    };
    match parse_json(s) {
        Ok(v) => match get_text(&v, "version") {
            Some(x) => Some(x.clone()),
            None => None,
        },
        Err(_) => None,
    }
}

/// The text of a marketplace or catalog file that holds this value.
pub fn marketplace_text(v: &Json) -> (r: String)
    ensures
        r@ == pretty_text(v@) + "\n"@,
{
    let mut out = render_pretty(v);
    out.append("\n");
    out
}

/// The fields that are told as missing are exactly those that are not there or
/// empty, in the order of the settings.
pub proof fn law_missing_fields(c: ContractCfg)
    ensures
        ({
            let a = c.contract_repo matches Some(s) && s@.len() > 0;
            let b = c.marketplace_repo matches Some(s) && s@.len() > 0;
            let d = c.marketplace_name matches Some(s) && s@.len() > 0;
            &&& missing(c).len() == 0 <==> a && b && d
            &&& !a ==> missing(c)[0] == "contractRepo"@
            &&& !b ==> missing(c)[if a {
                0
            } else {
                1
            }] == "marketplaceRepo"@
            &&& !d ==> missing(c).last() == "marketplaceName"@
            &&& missing(c).len() == (if a {
                0int
            } else {
                1
            }) + (if b {
                0int
            } else {
                1
            }) + (if d {
                0int
            } else {
                1
            })
        }),
{
}

/// The files of a contract are all that lie below its directory but those of
/// `git` and the list of modified files.
pub proof fn law_staged_at_their_places(v: Seq<Seq<char>>) -> (at: Seq<int>)
    ensures
        keeps_places(
            at,
            v.len(),
            |k: int| !has_component(v[k], ".git"@) && !is_named(v[k], ".modified-files.json"@),
        ),
        staged_paths(v).len() == at.len(),
        forall|i: int| 0 <= i < at.len() ==> #[trigger] staged_paths(v)[i] == v[at[i]],
    decreases v.len(),
{
    let keep = |k: int| !has_component(v[k], ".git"@) && !is_named(v[k], ".modified-files.json"@);
    if v.len() == 0 {
        let at = Seq::<int>::empty();
        assert(keeps_places(at, 0, keep));
        at
    } else {
        let less = v.drop_last();
        let fewer = |k: int| !has_component(less[k], ".git"@) && !is_named(less[k], ".modified-files.json"@);
        let before = law_staged_at_their_places(less);
        assert forall|k: int| 0 <= k < less.len() implies fewer(k) == #[trigger] keep(k) by {
            assert(less[k] == v[k]);
        }
        let at = lemma_places_more(before, less.len(), fewer, keep);
        assert forall|i: int| 0 <= i < at.len() implies #[trigger] staged_paths(v)[i] == v[at[i]] by {
            if i < before.len() {
                assert(staged_paths(less)[i] == less[before[i]]);
            }
        }
        at
    }
}

proof fn lemma_ends_with(x: Seq<char>, y: Seq<char>)
    ensures
        ends(x + y, y),
{
    let s = x + y;
    assert(s.skip(s.len() - y.len()) =~= y);
}

proof fn lemma_other_end(s: Seq<char>, x: Seq<char>, y: Seq<char>, k: int)
    requires
        ends(s, x),
        0 < k <= x.len(),
        k <= y.len(),
        x[x.len() - k] != y[y.len() - k],
    ensures
        !ends(s, y),
{
    if ends(s, y) {
        assert(s.skip(s.len() - x.len())[x.len() - k] == s[s.len() - k]);
        assert(s.skip(s.len() - y.len())[y.len() - k] == s[s.len() - k]);
    }
}

/// The tool of a file is told by the end of its name.
pub proof fn law_tool_of(x: Seq<char>)
    ensures
        tool_of(x + "smart-doc.json"@) == Some("smart-doc"@),
        tool_of(x + "pom.xml"@) == Some("maven"@),
        tool_of(x + "package.json"@) == Some("npm"@),
        tool_of(x + "go.mod"@) == Some("go"@),
        tool_of(x + "Cargo.toml"@) == Some("cargo"@),
        tool_of(x) is Some ==> ends(x, "smart-doc.json"@) || ends(x, "pom.xml"@) || ends(x, "package.json"@) || ends(
            x,
            "go.mod"@,
        ) || ends(x, "Cargo.toml"@),
{
    reveal_strlit("smart-doc.json");
    reveal_strlit("pom.xml");
    reveal_strlit("package.json");
    reveal_strlit("go.mod");
    reveal_strlit("Cargo.toml");
    let a = "smart-doc.json"@;
    let b = "pom.xml"@;
    let c = "package.json"@;
    let d = "go.mod"@;
    let e = "Cargo.toml"@;
    assert(a[a.len() - 1] == 'n' && b[b.len() - 1] == 'l' && c[c.len() - 1] == 'n' && d[d.len() - 1] == 'd');
    assert(e[e.len() - 1] == 'l' && e[e.len() - 2] == 'm' && b[b.len() - 3] == 'x' && e[e.len() - 3] == 'o');
    assert(a[a.len() - 6] == 'c' && c[c.len() - 6] == 'e');
    lemma_ends_with(x, a);
    lemma_ends_with(x, b);
    lemma_ends_with(x, c);
    lemma_ends_with(x, d);
    lemma_ends_with(x, e);
    lemma_other_end(x + b, b, a, 1);
    lemma_other_end(x + c, c, a, 6);
    lemma_other_end(x + c, c, b, 1);
    lemma_other_end(x + d, d, a, 1);
    lemma_other_end(x + d, d, b, 1);
    lemma_other_end(x + d, d, c, 1);
    lemma_other_end(x + e, e, a, 1);
    lemma_other_end(x + e, e, b, 3);
    lemma_other_end(x + e, e, c, 1);
    lemma_other_end(x + e, e, d, 1);
}

/// The tool of a change is that of the first modified file that has one, and
/// where none has one it is not named.
pub proof fn law_tool(modified: Seq<Seq<char>>, k: int, t: Seq<char>)
    requires
        0 <= k <= modified.len(),
        forall|j: int| 0 <= j < k ==> tool_of(#[trigger] modified[j]) is None,
    ensures
        k < modified.len() && tool_of(modified[k]) == Some(t) ==> config_subject(modified) == "chore(contract): add "@ + t
            + " configuration"@,
        k == modified.len() ==> config_subject(modified) == "chore(contract): add "@ + "build-tool"@ + " configuration"@,
{
    lemma_tool_from(modified, 0, k);
}

proof fn lemma_tool_from(modified: Seq<Seq<char>>, i: int, k: int)
    requires
        0 <= i <= k <= modified.len(),
        forall|j: int| i <= j < k ==> tool_of(#[trigger] modified[j]) is None,
    ensures
        tool(modified, i) == tool(modified, k),
    decreases k - i,
{
    if i < k {
        assert(tool_of(modified[i]) is None);
        lemma_tool_from(modified, i + 1, k);
    }
}

/// A list of modified files that is missing, or that is no list of texts, is
/// empty.
pub proof fn law_modified_read(t: Seq<char>, v: Seq<Seq<char>>)
    ensures
        modified_in(None).len() == 0,
        json_texts(t) is None ==> modified_in(Some(t)).len() == 0,
        json_texts(t) == Some(v) ==> modified_in(Some(t)) == v,
{
}

/// What a publication would commit: the modified files, if there are any, and
/// always the contract, unless commits are not wanted.
pub proof fn law_planned_commits(service: Seq<char>, modified: Seq<Seq<char>>)
    ensures
        planned_commits(service, modified, true).len() == 0,
        planned_commits(service, modified, false).last() == "chore(contract): publish service contract for "@ + service,
        planned_commits(service, modified, false).len() == (if modified.len() > 0 {
            2int
        } else {
            1
        }),
        modified.len() > 0 ==> planned_commits(service, modified, false)[0] == config_subject(modified),
{
}

/// A dry run tells where a contract would be pushed, which files, what would be
/// run and what committed, each under its own name.
pub proof fn law_dry_run_told(
    cli: Seq<char>,
    service: Seq<char>,
    t: Targets,
    files: Seq<Seq<char>>,
    modified: Seq<Seq<char>>,
    no_commit: bool,
)
    ensures
        ({
            let j = dry_run_json(cli, service, t, files, modified, no_commit);
            &&& member(j, "service"@) == Some(JsonView::Text(service))
            &&& member(j, "confirmed"@) == Some(JsonView::Bool(false))
            &&& member(j, "contract_repo"@) == Some(JsonView::Text(t.contract_repo@))
            &&& member(j, "marketplace_repo"@) == Some(JsonView::Text(t.marketplace_repo@))
            &&& member(j, "marketplace_name"@) == Some(JsonView::Text(t.marketplace_name@))
            &&& member(j, "would_push_files"@) == Some(text_array(files))
            &&& member(j, "would_run"@) == Some(
                text_array(
                    seq![
                        "git push "@ + t.contract_repo@,
                        "marketplace.json update + push"@,
                        cli + " plugin marketplace update "@ + t.marketplace_name@,
                    ],
                ),
            )
            &&& member(j, "would_commit"@) == Some(text_array(planned_commits(service, modified, no_commit)))
        }),
{
    reveal_strlit("service");
    reveal_strlit("confirmed");
    reveal_strlit("contract_repo");
    reveal_strlit("marketplace_repo");
    reveal_strlit("marketplace_name");
    reveal_strlit("would_push_files");
    reveal_strlit("would_run");
    reveal_strlit("would_commit");
    assert("confirmed"@[0] == 'c' && "would_run"@[0] == 'w');
    assert("marketplace_repo"@[12] == 'r' && "marketplace_name"@[12] == 'n' && "would_push_files"@[0] == 'w');
    let m = dry_run_json(cli, service, t, files, modified, no_commit)->Object_0;
    assert(m[0].0 == "service"@ && m[1].0 == "confirmed"@ && m[2].0 == "contract_repo"@ && m[3].0 == "marketplace_repo"@);
    assert(m[4].0 == "marketplace_name"@ && m[5].0 == "would_push_files"@ && m[6].0 == "would_run"@);
    assert(m[7].0 == "would_commit"@);
    reveal_with_fuel(member_from, 9);
}

/// A plugin that is listed already keeps its place and everything but its
/// version, which is set where one is known; a new one is listed at the end,
/// with its name, its source and its version, if known.
pub proof fn law_plugin_listed(
    v: Seq<JsonView>,
    name: Seq<char>,
    source: Seq<char>,
    version: Option<Seq<char>>,
    k: int,
    other: Seq<char>,
)
    requires
        0 <= k <= v.len(),
        forall|j: int| 0 <= j < k ==> text_member(#[trigger] v[j], "name"@) != Some(name),
        k < v.len() ==> text_member(v[k], "name"@) == Some(name),
    ensures
        ({
            let w = plugins_after(v, name, source, version);
            &&& k < v.len() ==> w.len() == v.len() && (forall|j: int| 0 <= j < v.len() && j != k ==> w[j] == v[j])
                && (other != "version"@ ==> member(w[k], other) == member(v[k], other)) && member(w[k], "version"@) == (
            match version {
                Some(t) => Some(JsonView::Text(t)),
                None => member(v[k], "version"@),
            })
            &&& k == v.len() ==> w.len() == v.len() + 1 && (forall|j: int| 0 <= j < v.len() ==> w[j] == v[j]) && member(
                w[k],
                "name"@,
            ) == Some(JsonView::Text(name)) && member(w[k], "source"@) == Some(JsonView::Text(source)) && member(
                w[k],
                "version"@,
            ) == (match version {
                Some(t) => Some(JsonView::Text(t)),
                None => None,
            })
        }),
{
    lemma_plugin_from(v, name, 0);
    if k < v.len() {
        assert(plugin_from(v, name, 0) == Some(k));
        let m = v[k]->Object_0;
        if let Some(t) = version {
            law_member_after_put(m, "version"@, JsonView::Text(t), other);
            law_member_after_put(m, "version"@, JsonView::Text(t), "version"@);
        }
    } else {
        assert(plugin_from(v, name, 0) is None);
        let q = plugin_entry(name, source, version)->Object_0;
        reveal_strlit("name");
        reveal_strlit("source");
        reveal_strlit("version");
        assert("name"@.len() == 4 && "source"@.len() == 6 && "version"@.len() == 7);
        assert(q[0].0 == "name"@ && q[1].0 == "source"@);
        if version is Some {
            assert(q[2].0 == "version"@);
        }
        reveal_with_fuel(member_from, 5);
    }
}

/// A marketplace gets a plugin exactly where it has a list of them; nothing but
/// the list changes.
pub proof fn law_marketplace_kept(
    m: Seq<(Seq<char>, JsonView)>,
    plugin: Seq<char>,
    source: Seq<char>,
    version: Option<Seq<char>>,
    other: Seq<char>,
)
    ensures
        marketplace_after(JsonView::Object(m), plugin, source, version) is Ok <==> (member(
            JsonView::Object(m),
            "plugins"@,
        ) matches Some(JsonView::Array(_))),
        marketplace_after(JsonView::Object(m), plugin, source, version) matches Err(e) ==> e
            == "marketplace.json: 'plugins' must be an array"@,
        marketplace_after(JsonView::Object(m), plugin, source, version) matches Ok(w) ==> {
            &&& other != "plugins"@ ==> member(w, other) == member(JsonView::Object(m), other)
            &&& member(w, "plugins"@) matches Some(JsonView::Array(a)) && a == plugins_after(
                member(JsonView::Object(m), "plugins"@)->0->Array_0,
                plugin,
                source,
                version,
            )
        },
{
    if let Ok(w) = marketplace_after(JsonView::Object(m), plugin, source, version) {
        let a = member(JsonView::Object(m), "plugins"@)->0->Array_0;
        let b = JsonView::Array(plugins_after(a, plugin, source, version));
        law_member_after_put(m, "plugins"@, b, other);
        law_member_after_put(m, "plugins"@, b, "plugins"@);
    }
}

/// A marketplace file that is missing or blank stands for a marketplace with its
/// name and without plugins.
pub proof fn law_marketplace_file(t: Seq<char>, name: Seq<char>)
    ensures
        marketplace_in(None, name) matches Ok(v) && member(v, "name"@) == Some(JsonView::Text(name)) && member(
            v,
            "plugins"@,
        ) == Some(JsonView::Array(Seq::empty())),
        trimmed(t).len() == 0 ==> marketplace_in(Some(t), name) == marketplace_in(None, name),
        trimmed(t).len() > 0 ==> marketplace_in(Some(t), name) == json_document(t),
{
    let m = empty_marketplace(name)->Object_0;
    reveal_strlit("name");
    reveal_strlit("plugins");
    assert("name"@.len() == 4 && "plugins"@.len() == 7);
    assert(m[0].0 == "name"@ && m[1].0 == "plugins"@);
    reveal_with_fuel(member_from, 3);
}

/// The version of a staged contract is what its `plugin.json` says; one that is
/// missing or holds no JSON says nothing.
pub proof fn law_staged_version(t: Seq<char>, v: JsonView, s: Seq<char>)
    ensures
        version_in(None) is None,
        json_document(t) is Err ==> version_in(Some(t)) is None,
        json_document(t) == Ok::<JsonView, Seq<char>>(v) && member(v, "version"@) == Some(JsonView::Text(s))
            ==> version_in(Some(t)) == Some(s),
        json_document(t) == Ok::<JsonView, Seq<char>>(v) && member(v, "version"@) is None ==> version_in(Some(t)) is None,
{
}

} // verus!
