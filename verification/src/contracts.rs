//! The marketplace catalog, and installing contracts from it.

pub use crate::calendar::{epoch_to_ymdhms, iso8601};

use crate::git::Output;
use crate::host::{command_line, settings_file, settings_path, typed};
use crate::json::{
    alike, array, distinct_names, elements, get, get_text, json_document, law_member_after_put, lemma_alike_member,
    lemma_holding, lemma_proper_array, lemma_proper_flat, lemma_proper_put, member, member_from, members, object,
    parse_json, pretty_text, proper, push_member, put_member, render_pretty, tells, text, text_array, text_member,
    texts, with_member, Json, JsonView, MOST_LEVELS,
};
use crate::text::{
    decimal, digits, from_utf8_lossy, holds, join, joined, law_digits, law_joined, lossy_text, number_shown, push_text,
    same, shown, text_of, trim, trimmed, views,
};
use vstd::prelude::*;

verus! {

/// Where the marketplace settings lie.
pub const CONTRACT_JSON: &'static str = ".jkit/contract.json";

/// Where the catalog lies.
pub const CATALOG_JSON: &'static str = ".jkit/marketplace-catalog.json";

/// The marketplace commands.
pub enum ContractsCmd {
    /// Write the catalog of the marketplace.
    RefreshCatalog { marketplace_repo: Option<String>, marketplace_name: Option<String> },
    /// Write the catalog, install contracts from it and commit.
    Install { services: Vec<String>, marketplace_repo: Option<String>, marketplace_name: Option<String> },
}

/// The settings in the text of `.jkit/contract.json`: none where there is no
/// file or no JSON in it, and `None` where the JSON is no object.
pub open spec fn settings_in(t: Option<Seq<char>>) -> Option<Seq<(Seq<char>, JsonView)>> {
    match t {
        None => Some(Seq::empty()),
        Some(s) => match json_document(s) {
            Err(_) => Some(Seq::empty()),
            Ok(JsonView::Object(m)) => Some(m),
            Ok(_) => None,
        },
    }
}

/// The settings in the text of `.jkit/contract.json`.
pub fn read_settings(t: Option<&str>) -> (r: Option<Vec<(String, Json)>>)
    ensures
        (match r {
            Some(m) => settings_in(shown(t)) == Some(members(m@)) && proper(
                JsonView::Object(members(m@)),
                MOST_LEVELS as nat,
            ),
            None => settings_in(shown(t)) is None,
        }),
{
    let none: Vec<(String, Json)> = Vec::new();
    assert(members(none@) =~= Seq::<(Seq<char>, JsonView)>::empty());
    let Some(s) = t else {
        return Some(none);
    };
    match parse_json(s) {
        Err(_) => Some(none),
        Ok(j) => {
            proof {
                lemma_holding(j);
            }
            match j {
                Json::Object(m) => Some(m),
                _ => None,
            }
        },
    }
}

/// A setting: what was given by hand, or else what the settings hold; an empty
/// text is none.
pub open spec fn setting(arg: Option<Seq<char>>, m: Seq<(Seq<char>, JsonView)>, name: Seq<char>) -> Option<Seq<char>> {
    let found = match arg {
        Some(a) => Some(a),
        None => text_member(JsonView::Object(m), name),
    };
    match found {
        Some(s) => if s.len() == 0 {
            None
        } else {
            Some(s)
        },
        None => None,
    }
}

/// The marketplace to work with.
pub struct Marketplace {
    pub repo: String,
    pub name: String,
    /// The text to write to `.jkit/contract.json`, where it changes.
    pub write: Option<String>,
}

/// The settings with the marketplace put in.
pub open spec fn with_marketplace(m: Seq<(Seq<char>, JsonView)>, repo: Seq<char>, name: Seq<char>) -> Seq<
    (Seq<char>, JsonView),
> {
    with_member(
        with_member(m, "marketplaceRepo"@, JsonView::Text(repo)),
        "marketplaceName"@,
        JsonView::Text(name),
    )
}

/// The marketplace from settings and from what was given by hand: its
/// repository, its name and the settings to write, if they change.
pub open spec fn marketplace_from(
    m: Seq<(Seq<char>, JsonView)>,
    repo_arg: Option<Seq<char>>,
    name_arg: Option<Seq<char>>,
) -> Result<(Seq<char>, Seq<char>, Option<Seq<(Seq<char>, JsonView)>>), Seq<char>> {
    match setting(repo_arg, m, "marketplaceRepo"@) {
        None => Err("marketplaceRepo missing — pass --marketplace-repo or set it in .jkit/contract.json"@),
        Some(repo) => match setting(name_arg, m, "marketplaceName"@) {
            None => Err("marketplaceName missing — pass --marketplace-name or set it in .jkit/contract.json"@),
            Some(name) => {
                let same_settings = text_member(JsonView::Object(m), "marketplaceRepo"@) == Some(repo) && text_member(
                    JsonView::Object(m),
                    "marketplaceName"@,
                ) == Some(name);
                Ok(
                    (
                        repo,
                        name,
                        if same_settings {
                            None
                        } else {
                            Some(with_marketplace(m, repo, name))
                        },
                    ),
                )
            },
        },
    }
}

/// Settings that were written are read back as the same marketplace, with
/// nothing more to write.
pub proof fn law_settings_persist(
    m: Seq<(Seq<char>, JsonView)>,
    repo_arg: Option<Seq<char>>,
    name_arg: Option<Seq<char>>,
)
    requires
        marketplace_from(m, repo_arg, name_arg) is Ok,
    ensures
        ({
            let r = marketplace_from(m, repo_arg, name_arg)->Ok_0;
            let after = match r.2 {
                Some(w) => w,
                None => m,
            };
            marketplace_from(after, None, None) == Ok::<
                (Seq<char>, Seq<char>, Option<Seq<(Seq<char>, JsonView)>>),
                Seq<char>,
            >((r.0, r.1, None))
        }),
{
    let r = marketplace_from(m, repo_arg, name_arg)->Ok_0;
    let m1 = with_member(m, "marketplaceRepo"@, JsonView::Text(r.0));
    reveal_strlit("marketplaceRepo");
    reveal_strlit("marketplaceName");
    assert("marketplaceRepo"@[11] == 'R' && "marketplaceName"@[11] == 'N');
    law_member_after_put(m, "marketplaceRepo"@, JsonView::Text(r.0), "marketplaceRepo"@);
    law_member_after_put(m1, "marketplaceName"@, JsonView::Text(r.1), "marketplaceRepo"@);
}

/// Whether the text of a settings file, alone, gives this marketplace, with
/// nothing more to write.
pub open spec fn keeps(t: Seq<char>, repo: Seq<char>, name: Seq<char>) -> bool {
    settings_in(Some(t)) matches Some(w) && marketplace_from(w, None, None) == Ok::<
        (Seq<char>, Seq<char>, Option<Seq<(Seq<char>, JsonView)>>),
        Seq<char>,
    >((repo, name, None))
}

/// Settings that are alike give the same marketplace.
proof fn lemma_alike_settings(a: JsonView, b: JsonView, repo: Seq<char>, name: Seq<char>)
    requires
        a is Object,
        alike(a, b),
        marketplace_from(a->Object_0, None, None) == Ok::<
            (Seq<char>, Seq<char>, Option<Seq<(Seq<char>, JsonView)>>),
            Seq<char>,
        >((repo, name, None)),
    ensures
        b is Object,
        marketplace_from(b->Object_0, None, None) == Ok::<
            (Seq<char>, Seq<char>, Option<Seq<(Seq<char>, JsonView)>>),
            Seq<char>,
        >((repo, name, None)),
{
    lemma_alike_member(a, b, "marketplaceRepo"@);
    lemma_alike_member(a, b, "marketplaceName"@);
}

fn pick(arg: Option<&str>, m: &Json, name: &str) -> (r: Option<String>)
    requires
        m is Object,
    ensures
        text_of(r) == setting(shown(arg), m@->Object_0, name@),
{
    proof {
        lemma_holding(*m);
    }
    let found: Option<String> = match arg {
        Some(a) => Some(a.to_owned()),
        None => match get_text(m, name) {
            Some(s) => Some(s.clone()),
            None => None,
        },
    };
    match found {
        Some(s) => if s.as_str().is_empty() {
            None
        } else {
            Some(s)
        },
        None => None,
    }
}

fn holds_text(m: &Json, name: &str, value: &str) -> (r: bool)
    ensures
        r == (text_member(m@, name@) == Some(value@)),
{
    match get_text(m, name) {
        Some(s) => same(s.as_str(), value),
        None => false,
    }
}

/// The marketplace from settings and from what was given by hand.
pub fn marketplace_config(settings: Vec<(String, Json)>, repo_arg: Option<&str>, name_arg: Option<&str>) -> (r: Result<
    Marketplace,
    String,
>)
    ensures
        (match r {
            Ok(p) => marketplace_from(members(settings@), shown(repo_arg), shown(name_arg)) matches Ok(q) && q.0
                == p.repo@ && q.1 == p.name@ && text_of(p.write) == (match q.2 {
                Some(w) => Some(pretty_text(JsonView::Object(w)) + "\n"@),
                None => None,
            }),
            Err(e) => marketplace_from(members(settings@), shown(repo_arg), shown(name_arg)) matches Err(f) && f == e@,
        }),
        proper(JsonView::Object(members(settings@)), MOST_LEVELS as nat) ==> (r matches Ok(p) ==> (p.write matches Some(
            t,
        ) ==> keeps(t@, p.repo@, p.name@))),
{
    let ghost before = members(settings@);
    let whole = object(settings);
    let Some(repo) = pick(repo_arg, &whole, "marketplaceRepo") else {
        return Err("marketplaceRepo missing — pass --marketplace-repo or set it in .jkit/contract.json".to_owned());
    };
    let Some(name) = pick(name_arg, &whole, "marketplaceName") else {
        return Err("marketplaceName missing — pass --marketplace-name or set it in .jkit/contract.json".to_owned());
    };
    if holds_text(&whole, "marketplaceRepo", repo.as_str()) && holds_text(&whole, "marketplaceName", name.as_str()) {
        return Ok(Marketplace { repo, name, write: None });
    }
    proof {
        lemma_holding(whole);
    }
    let mut m: Vec<(String, Json)> = match whole {
        Json::Object(m) => m,
        _ => Vec::new(),
    };
    put_member(&mut m, "marketplaceRepo", text(repo.as_str()));
    put_member(&mut m, "marketplaceName", text(name.as_str()));
    let changed = object(m);
    let mut out = render_pretty(&changed);
    let ghost shown_text = out@;
    out.append("\n");
    proof {
        if proper(JsonView::Object(before), MOST_LEVELS as nat) {
            let repo_text = JsonView::Text(repo@);
            let name_text = JsonView::Text(name@);
            lemma_proper_put(before, "marketplaceRepo"@, repo_text, MOST_LEVELS as nat);
            lemma_proper_put(
                with_member(before, "marketplaceRepo"@, repo_text),
                "marketplaceName"@,
                name_text,
                MOST_LEVELS as nat,
            );
            law_settings_persist(before, shown(repo_arg), shown(name_arg));
            assert(tells(shown_text, changed@));
            lemma_alike_settings(changed@, json_document(out@)->Ok_0, repo@, name@);
        }
    }
    Ok(Marketplace { repo, name, write: Some(out) })
}

/// The marketplace from the text of `.jkit/contract.json` and from what was
/// given by hand. A file that holds JSON but no object is refused once both
/// settings are known, since there is nowhere to keep them. What is to be
/// written gives the same marketplace when it is read.
pub fn resolve_marketplace_config(t: Option<&str>, repo_arg: Option<&str>, name_arg: Option<&str>) -> (r: Result<
    Marketplace,
    String,
>)
    ensures
        ({
            let m = match settings_in(shown(t)) {
                Some(m) => m,
                None => Seq::empty(),
            };
            let found = marketplace_from(m, shown(repo_arg), shown(name_arg));
            match r {
                Ok(p) => settings_in(shown(t)) is Some && (found matches Ok(q) && q.0 == p.repo@ && q.1 == p.name@
                    && text_of(p.write) == (match q.2 {
                    Some(w) => Some(pretty_text(JsonView::Object(w)) + "\n"@),
                    None => None,
                })),
                Err(e) => match found {
                    Err(f) => f == e@,
                    Ok(_) => settings_in(shown(t)) is None && e@ == ".jkit/contract.json is not a JSON object"@,
                },
            }
        }),
        r matches Ok(p) ==> (p.write matches Some(w) ==> keeps(w@, p.repo@, p.name@)),
{
    match read_settings(t) {
        Some(m) => marketplace_config(m, repo_arg, name_arg),
        None => {
            let none: Vec<(String, Json)> = Vec::new();
            assert(members(none@) =~= Seq::<(Seq<char>, JsonView)>::empty());
            match marketplace_config(none, repo_arg, name_arg) {
                Err(e) => Err(e),
                Ok(_) => Err(".jkit/contract.json is not a JSON object".to_owned()),
            }
        },
    }
}

/// A contract of the marketplace.
pub struct CatalogContract {
    pub name: String,
    pub description: String,
    pub latest_version: Option<String>,
}

/// The texts of a contract.
#[verifier::ext_equal]
pub struct ContractView {
    pub name: Seq<char>,
    pub description: Seq<char>,
    pub latest_version: Option<Seq<char>>,
}

impl View for CatalogContract {
    type V = ContractView;

    open spec fn view(&self) -> ContractView {
        ContractView {
            name: self.name@,
            description: self.description@,
            latest_version: text_of(self.latest_version),
        }
    }
}

/// The texts of a list of contracts.
pub open spec fn contract_views(v: Seq<CatalogContract>) -> Seq<ContractView> {
    v.map_values(|c: CatalogContract| c@)
}

/// The contract that a plugin entry of the marketplace stands for; one without
/// a name stands for none.
pub open spec fn contract_in(p: JsonView) -> Option<ContractView> {
    match text_member(p, "name"@) {
        None => None,
        Some(name) => Some(
            ContractView {
                name,
                description: match text_member(p, "description"@) {
                    Some(d) => d,
                    None => Seq::empty(),
                },
                latest_version: text_member(p, "version"@),
            },
        ),
    }
}

/// The contracts of a list of plugin entries.
pub open spec fn contracts_in(v: Seq<JsonView>) -> Seq<ContractView>
    decreases v.len(),
{
    if v.len() == 0 {
        Seq::empty()
    } else {
        match contract_in(v.last()) {
            Some(c) => contracts_in(v.drop_last()).push(c),
            None => contracts_in(v.drop_last()),
        }
    }
}

/// The contracts of a marketplace, or `None` where it has no list of plugins.
pub open spec fn marketplace_contracts(v: JsonView) -> Option<Seq<ContractView>> {
    match member(v, "plugins"@) {
        Some(JsonView::Array(a)) => Some(contracts_in(a)),
        _ => None,
    }
}

fn optional_member(p: &Json, name: &str) -> (r: Option<String>)
    ensures
        text_of(r) == text_member(p@, name@),
{
    match get_text(p, name) {
        Some(s) => Some(s.clone()),
        None => None,
    }
}

fn read_contract(p: &Json) -> (r: Option<CatalogContract>)
    ensures
        r is Some == contract_in(p@) is Some,
        r matches Some(c) ==> contract_in(p@) == Some(c@),
{
    let Some(name) = optional_member(p, "name") else {
        return None;
    };
    let description = match optional_member(p, "description") {
        Some(d) => d,
        None => {
            let none = String::new();
            assert(none@ =~= Seq::<char>::empty());
            none
        },
    };
    let c = CatalogContract { name, description, latest_version: optional_member(p, "version") };
    assert(contract_in(p@) == Some(c@));
    Some(c)
}

/// The contracts of a marketplace.
pub fn contracts_of(v: &Json) -> (r: Option<Vec<CatalogContract>>)
    ensures
        r is Some == marketplace_contracts(v@) is Some,
        r matches Some(c) ==> marketplace_contracts(v@) == Some(contract_views(c@)),
{
    let Some(p) = get(v, "plugins") else {
        return None;
    };
    proof {
        lemma_holding(*p);
    }
    let Json::Array(a) = p else {
        return None;
    };
    let ghost all = elements(a@);
    let mut out: Vec<CatalogContract> = Vec::new();
    let mut i: usize = 0;
    assert(all.take(0) =~= Seq::<JsonView>::empty());
    assert(contract_views(out@) =~= Seq::<ContractView>::empty());
    while i < a.len()
        invariant
            0 <= i <= a@.len(),
            all == elements(a@),
            contract_views(out@) == contracts_in(all.take(i as int)),
        decreases a.len() - i,
    {
        assert(all.take(i + 1).drop_last() =~= all.take(i as int));
        assert(all[i as int] == a@[i as int]@);
        if let Some(c) = read_contract(&a[i]) {
            let ghost before = out@;
            out.push(c);
            assert(contract_views(out@) =~= contract_views(before).push(c@));
        }
        i = i + 1;
    }
    assert(all.take(all.len() as int) =~= all);
    Some(out)
}

/// The contracts in the text of a `marketplace.json`, or the message for what
/// is wrong with it.
pub open spec fn contracts_in_text(path: Seq<char>, t: Seq<char>) -> Result<Seq<ContractView>, Seq<char>> {
    match json_document(t) {
        Err(e) => Err("parsing "@ + path + ": "@ + e),
        Ok(v) => match marketplace_contracts(v) {
            Some(c) => Ok(c),
            None => Err("marketplace.json missing `plugins` array"@),
        },
    }
}

/// The contracts in the text of a `marketplace.json`.
pub fn read_marketplace(path: &str, t: &str) -> (r: Result<Vec<CatalogContract>, String>)
    ensures
        (match r {
            Ok(c) => contracts_in_text(path@, t@) == Ok::<Seq<ContractView>, Seq<char>>(contract_views(c@)),
            Err(e) => contracts_in_text(path@, t@) == Err::<Seq<ContractView>, Seq<char>>(e@),
        }),
{
    match parse_json(t) {
        Err(why) => {
            let mut e: String = "parsing ".to_owned();
            e.append(path);
            e.append(": ");
            e.append(why.as_str());
            Err(e)
        },
        Ok(v) => match contracts_of(&v) {
            Some(c) => Ok(c),
            None => Err("marketplace.json missing `plugins` array".to_owned()),
        },
    }
}

/// The catalog of a marketplace.
pub struct Catalog {
    pub marketplace_name: String,
    pub updated_at: String,
    pub contracts: Vec<CatalogContract>,
}

/// A contract of the catalog, as JSON. A version that is not known is left
/// out.
pub open spec fn contract_json(c: ContractView) -> JsonView {
    let named = seq![("name"@, JsonView::Text(c.name)), ("description"@, JsonView::Text(c.description))];
    JsonView::Object(
        match c.latest_version {
            Some(v) => named.push(("latest_version"@, JsonView::Text(v))),
            None => named,
        },
    )
}

/// The catalog, as JSON.
pub open spec fn catalog_json(name: Seq<char>, updated_at: Seq<char>, c: Seq<ContractView>) -> JsonView {
    JsonView::Object(
        seq![
            ("marketplaceName"@, JsonView::Text(name)),
            ("updatedAt"@, JsonView::Text(updated_at)),
            ("contracts"@, JsonView::Array(c.map_values(|x: ContractView| contract_json(x)))),
        ],
    )
}

fn json_of_contract(c: &CatalogContract) -> (r: Json)
    ensures
        r@ == contract_json(c@),
{
    let mut m: Vec<(String, Json)> = Vec::new();
    push_member(&mut m, "name", text(c.name.as_str()));
    push_member(&mut m, "description", text(c.description.as_str()));
    if let Some(v) = &c.latest_version {
        push_member(&mut m, "latest_version", text(v.as_str()));
    }
    assert(members(m@) =~= contract_json(c@)->Object_0);
    object(m)
}

/// The catalog, as JSON.
pub fn catalog_value(c: &Catalog) -> (r: Json)
    ensures
        r@ == catalog_json(c.marketplace_name@, c.updated_at@, contract_views(c.contracts@)),
{
    let mut list: Vec<Json> = Vec::new();
    let mut i: usize = 0;
    while i < c.contracts.len()
        invariant
            0 <= i <= c.contracts@.len(),
            list@.len() == i,
            forall|k: int| 0 <= k < i ==> (#[trigger] list@[k])@ == contract_json(c.contracts@[k]@),
        decreases c.contracts.len() - i,
    {
        list.push(json_of_contract(&c.contracts[i]));
        i = i + 1;
    }
    assert(elements(list@) =~= contract_views(c.contracts@).map_values(|x: ContractView| contract_json(x)));
    let mut m: Vec<(String, Json)> = Vec::new();
    push_member(&mut m, "marketplaceName", text(c.marketplace_name.as_str()));
    push_member(&mut m, "updatedAt", text(c.updated_at.as_str()));
    push_member(&mut m, "contracts", array(list));
    assert(members(m@) =~= catalog_json(c.marketplace_name@, c.updated_at@, contract_views(c.contracts@))->Object_0);
    object(m)
}

proof fn lemma_proper_catalog(name: Seq<char>, updated_at: Seq<char>, c: Seq<ContractView>)
    ensures
        proper(catalog_json(name, updated_at, c), MOST_LEVELS as nat),
{
    let list = c.map_values(|x: ContractView| contract_json(x));
    reveal_strlit("name");
    reveal_strlit("description");
    reveal_strlit("latest_version");
    assert("name"@.len() == 4 && "description"@.len() == 11 && "latest_version"@.len() == 14);
    assert forall|i: int| 0 <= i < list.len() implies proper(#[trigger] list[i], (MOST_LEVELS - 2) as nat) by {
        let m = contract_json(c[i])->Object_0;
        assert(distinct_names(m));
        lemma_proper_flat(m, (MOST_LEVELS - 2) as nat);
    }
    lemma_proper_array(list, (MOST_LEVELS - 1) as nat);
    let m = catalog_json(name, updated_at, c)->Object_0;
    reveal_strlit("marketplaceName");
    reveal_strlit("updatedAt");
    reveal_strlit("contracts");
    assert("marketplaceName"@.len() == 15 && "updatedAt"@.len() == 9 && "contracts"@.len() == 9);
    assert("updatedAt"@[0] != "contracts"@[0]);
    assert(m[0].0 == "marketplaceName"@ && m[1].0 == "updatedAt"@ && m[2] == ("contracts"@, JsonView::Array(list)));
    assert(distinct_names(m));
    lemma_proper_flat(m, MOST_LEVELS as nat);
}

/// The text of the catalog file. What is read from it is the catalog.
pub fn catalog_text(c: &Catalog) -> (r: String)
    ensures
        r@ == pretty_text(catalog_json(c.marketplace_name@, c.updated_at@, contract_views(c.contracts@))) + "\n"@,
        json_document(r@) matches Ok(v) && alike(
            catalog_json(c.marketplace_name@, c.updated_at@, contract_views(c.contracts@)),
            v,
        ),
{
    proof {
        lemma_proper_catalog(c.marketplace_name@, c.updated_at@, contract_views(c.contracts@));
    }
    let mut out = render_pretty(&catalog_value(c));
    out.append("\n");
    out
}

/// The names of contracts, in order.
pub open spec fn names_in(c: Seq<ContractView>) -> Seq<Seq<char>> {
    c.map_values(|x: ContractView| x.name)
}

/// The names of the contracts of a catalog, in order.
pub fn contract_names(c: &Catalog) -> (r: Vec<String>)
    ensures
        views(r@) == names_in(contract_views(c.contracts@)),
{
    let mut out: Vec<String> = Vec::new();
    let mut i: usize = 0;
    while i < c.contracts.len()
        invariant
            0 <= i <= c.contracts@.len(),
            out@.len() == i,
            forall|k: int| 0 <= k < i ==> (#[trigger] out@[k])@ == c.contracts@[k].name@,
        decreases c.contracts.len() - i,
    {
        out.push(c.contracts[i].name.clone());
        i = i + 1;
    }
    assert(views(out@) =~= names_in(contract_views(c.contracts@)));
    out
}

/// The answer to a refresh of the catalog.
pub fn refresh_report(c: &Catalog) -> (r: Json)
    ensures
        r@ == JsonView::Object(
            seq![
                ("marketplace_name"@, JsonView::Text(c.marketplace_name@)),
                ("catalog_path"@, JsonView::Text(".jkit/marketplace-catalog.json"@)),
                ("contracts"@, text_array(names_in(contract_views(c.contracts@)))),
                ("updated_at"@, JsonView::Text(c.updated_at@)),
            ],
        ),
{
    let names = contract_names(c);
    let mut m: Vec<(String, Json)> = Vec::new();
    push_member(&mut m, "marketplace_name", text(c.marketplace_name.as_str()));
    push_member(&mut m, "catalog_path", text(".jkit/marketplace-catalog.json"));
    push_member(&mut m, "contracts", texts(&names));
    push_member(&mut m, "updated_at", text(c.updated_at.as_str()));
    assert(members(m@) =~= seq![
        ("marketplace_name"@, JsonView::Text(c.marketplace_name@)),
        ("catalog_path"@, JsonView::Text(".jkit/marketplace-catalog.json"@)),
        ("contracts"@, text_array(names_in(contract_views(c.contracts@)))),
        ("updated_at"@, JsonView::Text(c.updated_at@)),
    ]);
    object(m)
}

/// The arguments that clone the marketplace into a directory.
pub fn clone_args(repo: &str, dir: &str) -> (r: Vec<String>)
    ensures
        views(r@) == seq!["clone"@, "--depth"@, "1"@, "--quiet"@, repo@, dir@],
{
    let mut v: Vec<String> = Vec::new();
    push_text(&mut v, "clone");
    push_text(&mut v, "--depth");
    push_text(&mut v, "1");
    push_text(&mut v, "--quiet");
    push_text(&mut v, repo);
    push_text(&mut v, dir);
    assert(views(v@) =~= seq!["clone"@, "--depth"@, "1"@, "--quiet"@, repo@, dir@]);
    v
}

/// The message for a clone that failed.
pub fn clone_error(repo: &str, out: &Output) -> (r: String)
    ensures
        ({
            let why = trimmed(lossy_text(out.stderr@));
            r@ == "git clone "@ + repo@ + " failed: "@ + (if why.len() == 0 {
                "(no stderr)"@
            } else {
                why
            })
        }),
{
    let mut e: String = "git clone ".to_owned();
    e.append(repo);
    e.append(" failed: ");
    let why = trim(from_utf8_lossy(&out.stderr).as_str());
    if why.as_str().is_empty() {
        e.append("(no stderr)");
    } else {
        e.append(why.as_str());
    }
    e
}

/// Those of the services that the catalog has, or those that it has not, in
/// order.
pub open spec fn services_where(services: Seq<Seq<char>>, names: Seq<Seq<char>>, there: bool) -> Seq<Seq<char>>
    decreases services.len(),
{
    if services.len() == 0 {
        Seq::empty()
    } else {
        let rest = services_where(services.drop_last(), names, there);
        if names.contains(services.last()) == there {
            rest.push(services.last())
        } else {
            rest
        }
    }
}

/// Splits the services into those that the catalog has, which are to be
/// installed, and those that it has not, which are passed over.
pub fn split_services(services: &Vec<String>, names: &Vec<String>) -> (r: (Vec<String>, Vec<String>))
    ensures
        views(r.0@) == services_where(views(services@), views(names@), true),
        views(r.1@) == services_where(views(services@), views(names@), false),
{
    let ghost all = views(services@);
    let mut have: Vec<String> = Vec::new();
    let mut lack: Vec<String> = Vec::new();
    let mut i: usize = 0;
    assert(all.take(0) =~= Seq::<Seq<char>>::empty());
    assert(views(have@) =~= Seq::<Seq<char>>::empty());
    assert(views(lack@) =~= Seq::<Seq<char>>::empty());
    while i < services.len()
        invariant
            0 <= i <= services@.len(),
            all == views(services@),
            views(have@) == services_where(all.take(i as int), views(names@), true),
            views(lack@) == services_where(all.take(i as int), views(names@), false),
        decreases services.len() - i,
    {
        assert(all.take(i + 1).drop_last() =~= all.take(i as int));
        assert(all[i as int] == services@[i as int]@);
        if holds(names, services[i].as_str()) {
            push_text(&mut have, services[i].as_str());
        } else {
            push_text(&mut lack, services[i].as_str());
        }
        i = i + 1;
    }
    assert(all.take(all.len() as int) =~= all);
    (have, lack)
}

/// Every service is either to be installed or passed over, and which it is
/// depends on the catalog alone.
pub proof fn law_services_split(services: Seq<Seq<char>>, names: Seq<Seq<char>>)
    ensures
        services_where(services, names, true).len() + services_where(services, names, false).len() == services.len(),
        forall|x: Seq<char>|
            #[trigger] services_where(services, names, true).contains(x) <==> services.contains(x) && names.contains(x),
        forall|x: Seq<char>|
            #[trigger] services_where(services, names, false).contains(x) <==> services.contains(x) && !names.contains(
                x,
            ),
    decreases services.len(),
{
    if services.len() > 0 {
        let less = services.drop_last();
        let last = services.last();
        law_services_split(less, names);
        assert(services =~= less.push(last));
        lemma_push_contains(less, last);
        lemma_push_contains(services_where(less, names, true), last);
        lemma_push_contains(services_where(less, names, false), last);
    }
}

proof fn lemma_push_contains(s: Seq<Seq<char>>, x: Seq<char>)
    ensures
        forall|y: Seq<char>| #[trigger] s.push(x).contains(y) <==> s.contains(y) || y == x,
{
    assert forall|y: Seq<char>| #[trigger] s.push(x).contains(y) <==> s.contains(y) || y == x by {
        if s.contains(y) {
            let i = choose|i: int| 0 <= i < s.len() && s[i] == y;
            assert(s.push(x)[i] == y);
        }
        if y == x {
            assert(s.push(x)[s.len() as int] == y);
        }
        if s.push(x).contains(y) {
            let i = choose|i: int| 0 <= i < s.push(x).len() && s.push(x)[i] == y;
            if i < s.len() {
                assert(s[i] == y);
            }
        }
    }
}

/// Those of the services whose installation came out as `there`, in order.
pub open spec fn services_with(services: Seq<Seq<char>>, done: Seq<bool>, there: bool) -> Seq<Seq<char>>
    decreases services.len(),
{
    if services.len() == 0 {
        Seq::empty()
    } else {
        let rest = services_with(services.drop_last(), done, there);
        if (services.len() <= done.len() && done[services.len() - 1]) == there {
            rest.push(services.last())
        } else {
            rest
        }
    }
}

/// Splits the services that were tried into those that were installed and
/// those that failed. One without a result has failed.
pub fn split_results(services: &Vec<String>, done: &Vec<bool>) -> (r: (Vec<String>, Vec<String>))
    ensures
        views(r.0@) == services_with(views(services@), done@, true),
        views(r.1@) == services_with(views(services@), done@, false),
{
    let ghost all = views(services@);
    let mut installed: Vec<String> = Vec::new();
    let mut failed: Vec<String> = Vec::new();
    let mut i: usize = 0;
    assert(all.take(0) =~= Seq::<Seq<char>>::empty());
    assert(views(installed@) =~= Seq::<Seq<char>>::empty());
    assert(views(failed@) =~= Seq::<Seq<char>>::empty());
    while i < services.len()
        invariant
            0 <= i <= services@.len(),
            all == views(services@),
            views(installed@) == services_with(all.take(i as int), done@, true),
            views(failed@) == services_with(all.take(i as int), done@, false),
        decreases services.len() - i,
    {
        assert(all.take(i + 1).drop_last() =~= all.take(i as int));
        assert(all[i as int] == services@[i as int]@);
        if i < done.len() && done[i] {
            push_text(&mut installed, services[i].as_str());
        } else {
            push_text(&mut failed, services[i].as_str());
        }
        i = i + 1;
    }
    assert(all.take(all.len() as int) =~= all);
    (installed, failed)
}

/// Every service that was tried is either installed or has failed.
pub proof fn law_results_split(services: Seq<Seq<char>>, done: Seq<bool>)
    ensures
        services_with(services, done, true).len() + services_with(services, done, false).len() == services.len(),
    decreases services.len(),
{
    if services.len() > 0 {
        law_results_split(services.drop_last(), done);
    }
}

/// The subject of the commit after an installation.
pub open spec fn install_subject(installed: Seq<Seq<char>>) -> Seq<char> {
    if installed.len() == 0 {
        "chore: refresh marketplace catalog"@
    } else {
        "chore: install contracts ["@ + joined(installed, ", "@) + "]"@
    }
}

/// The subject of the commit after an installation.
pub fn commit_subject(installed: &Vec<String>) -> (r: String)
    ensures
        r@ == install_subject(views(installed@)),
{
    assert(views(installed@).len() == installed@.len());
    if installed.len() == 0 {
        "chore: refresh marketplace catalog".to_owned()
    } else {
        let mut s: String = "chore: install contracts [".to_owned();
        s.append(join(installed, ", ").as_str());
        s.append("]");
        s
    }
}

/// The answer to an installation.
pub open spec fn install_json(
    name: Seq<char>,
    installed: Seq<Seq<char>>,
    skipped: Seq<Seq<char>>,
    failed: Seq<Seq<char>>,
    committed: bool,
) -> JsonView {
    let told = seq![
        ("marketplace_name"@, JsonView::Text(name)),
        ("catalog_path"@, JsonView::Text(".jkit/marketplace-catalog.json"@)),
        ("installed"@, text_array(installed)),
        ("skipped_not_in_catalog"@, text_array(skipped)),
        ("claude_install_failed"@, text_array(failed)),
        ("committed"@, JsonView::Bool(committed)),
    ];
    JsonView::Object(
        if committed {
            told.push(("commit_subject"@, JsonView::Text(install_subject(installed))))
        } else {
            told
        },
    )
}

/// The answer to an installation.
pub fn install_report(
    name: &str,
    installed: &Vec<String>,
    skipped: &Vec<String>,
    failed: &Vec<String>,
    committed: bool,
) -> (r: Json)
    ensures
        r@ == install_json(name@, views(installed@), views(skipped@), views(failed@), committed),
{
    let mut m: Vec<(String, Json)> = Vec::new();
    push_member(&mut m, "marketplace_name", text(name));
    push_member(&mut m, "catalog_path", text(".jkit/marketplace-catalog.json"));
    push_member(&mut m, "installed", texts(installed));
    push_member(&mut m, "skipped_not_in_catalog", texts(skipped));
    push_member(&mut m, "claude_install_failed", texts(failed));
    push_member(&mut m, "committed", Json::Bool(committed));
    if committed {
        push_member(&mut m, "commit_subject", text(commit_subject(installed).as_str()));
    }
    assert(members(m@) =~= install_json(
        name@,
        views(installed@),
        views(skipped@),
        views(failed@),
        committed,
    )->Object_0);
    object(m)
}

/// The files that are committed after an installation, of those that are
/// there.
pub open spec fn files_to_stage(cli: Seq<char>, settings: bool, catalog: bool, contract: bool) -> Seq<Seq<char>> {
    let a = if settings {
        seq![settings_path(cli)]
    } else {
        Seq::empty()
    };
    let b = if catalog {
        a.push(CATALOG_JSON@)
    } else {
        a
    };
    if contract {
        b.push(CONTRACT_JSON@)
    } else {
        b
    }
}

/// The files that are committed after an installation, of those that are
/// there.
pub fn stage_list(cli: &str, settings: bool, catalog: bool, contract: bool) -> (r: Vec<String>)
    ensures
        views(r@) == files_to_stage(cli@, settings, catalog, contract),
{
    let mut v: Vec<String> = Vec::new();
    assert(views(v@) =~= Seq::<Seq<char>>::empty());
    if settings {
        push_text(&mut v, settings_file(cli).as_str());
        assert(views(v@) =~= seq![settings_path(cli@)]);
    }
    if catalog {
        push_text(&mut v, CATALOG_JSON);
    }
    if contract {
        push_text(&mut v, CONTRACT_JSON);
    }
    v
}

/// The steps of a commit.
#[derive(Clone, Copy, PartialEq, Eq, Debug, Structural)]
pub enum CommitStep {
    /// Stage the files.
    Add,
    /// Ask whether anything is staged.
    Diff,
    Commit,
}

/// What comes after a step of a commit.
pub enum CommitNext {
    Do(CommitStep),
    /// Whether a commit was made.
    Done(bool),
    Failed(String),
}

/// What comes after a step of a commit, as texts.
pub enum CommitNextView {
    Do(CommitStep),
    Done(bool),
    Failed(Seq<char>),
}

impl View for CommitNext {
    type V = CommitNextView;

    open spec fn view(&self) -> CommitNextView {
        match self {
            CommitNext::Do(s) => CommitNextView::Do(*s),
            CommitNext::Done(b) => CommitNextView::Done(*b),
            CommitNext::Failed(e) => CommitNextView::Failed(e@),
        }
    }
}

/// How a commit starts: with no file to stage there is none.
pub fn commit_start(files: &Vec<String>) -> (r: CommitNext)
    ensures
        r@ == (if files@.len() == 0 {
            CommitNextView::Done(false)
        } else {
            CommitNextView::Do(CommitStep::Add)
        }),
{
    if files.len() == 0 {
        CommitNext::Done(false)
    } else {
        CommitNext::Do(CommitStep::Add)
    }
}

/// What comes after a step that ended in this way. Where nothing is staged
/// there is no commit.
pub open spec fn commit_after(step: CommitStep, out: Output) -> CommitNextView {
    let why = trimmed(lossy_text(out.stderr@));
    match step {
        CommitStep::Add => if out.success {
            CommitNextView::Do(CommitStep::Diff)
        } else {
            CommitNextView::Failed("git add failed: "@ + why)
        },
        CommitStep::Diff => if out.success {
            CommitNextView::Done(false)
        } else {
            CommitNextView::Do(CommitStep::Commit)
        },
        CommitStep::Commit => if out.success {
            CommitNextView::Done(true)
        } else {
            CommitNextView::Failed("git commit failed: "@ + why)
        },
    }
}

/// What comes after a step that ended in this way.
pub fn commit_next(step: CommitStep, out: &Output) -> (r: CommitNext)
    ensures
        r@ == commit_after(step, *out),
{
    match step {
        CommitStep::Add => if out.success {
            CommitNext::Do(CommitStep::Diff)
        } else {
            let mut e: String = "git add failed: ".to_owned();
            e.append(trim(from_utf8_lossy(&out.stderr).as_str()).as_str());
            CommitNext::Failed(e)
        },
        CommitStep::Diff => if out.success {
            CommitNext::Done(false)
        } else {
            CommitNext::Do(CommitStep::Commit)
        },
        CommitStep::Commit => if out.success {
            CommitNext::Done(true)
        } else {
            let mut e: String = "git commit failed: ".to_owned();
            e.append(trim(from_utf8_lossy(&out.stderr).as_str()).as_str());
            CommitNext::Failed(e)
        },
    }
}

/// The arguments for a step of a commit.
pub open spec fn step_arguments(step: CommitStep, files: Seq<Seq<char>>, subject: Seq<char>) -> Seq<Seq<char>> {
    match step {
        CommitStep::Add => seq!["add"@] + files,
        CommitStep::Diff => seq!["diff"@, "--cached"@, "--quiet"@],
        CommitStep::Commit => seq!["commit"@, "-q"@, "-m"@, subject],
    }
}

/// The arguments for a step of a commit.
pub fn commit_args(step: CommitStep, files: &Vec<String>, subject: &str) -> (r: Vec<String>)
    ensures
        views(r@) == step_arguments(step, views(files@), subject@),
{
    let mut v: Vec<String> = Vec::new();
    assert(views(v@) =~= Seq::<Seq<char>>::empty());
    match step {
        CommitStep::Add => {
            push_text(&mut v, "add");
            let mut i: usize = 0;
            assert(views(v@) =~= seq!["add"@] + views(files@).take(0));
            while i < files.len()
                invariant
                    0 <= i <= files@.len(),
                    views(v@) == seq!["add"@] + views(files@).take(i as int),
                decreases files.len() - i,
            {
                let ghost before = views(v@);
                push_text(&mut v, files[i].as_str());
                i = i + 1;
                assert(views(v@) =~= seq!["add"@] + views(files@).take(i as int));
            }
            assert(views(files@).take(files@.len() as int) =~= views(files@));
        },
        CommitStep::Diff => {
            push_text(&mut v, "diff");
            push_text(&mut v, "--cached");
            push_text(&mut v, "--quiet");
        },
        CommitStep::Commit => {
            push_text(&mut v, "commit");
            push_text(&mut v, "-q");
            push_text(&mut v, "-m");
            push_text(&mut v, subject);
        },
    }
    assert(views(v@) =~= step_arguments(step, views(files@), subject@));
    v
}

/// The arguments that add a marketplace.
pub fn add_args(repo: &str) -> (r: Vec<String>)
    ensures
        views(r@) == seq!["plugin"@, "marketplace"@, "add"@, repo@],
{
    let mut v: Vec<String> = Vec::new();
    push_text(&mut v, "plugin");
    push_text(&mut v, "marketplace");
    push_text(&mut v, "add");
    push_text(&mut v, repo);
    assert(views(v@) =~= seq!["plugin"@, "marketplace"@, "add"@, repo@]);
    v
}

/// The arguments that update a marketplace.
pub fn update_args(name: &str) -> (r: Vec<String>)
    ensures
        views(r@) == seq!["plugin"@, "marketplace"@, "update"@, name@],
{
    let mut v: Vec<String> = Vec::new();
    push_text(&mut v, "plugin");
    push_text(&mut v, "marketplace");
    push_text(&mut v, "update");
    push_text(&mut v, name);
    assert(views(v@) =~= seq!["plugin"@, "marketplace"@, "update"@, name@]);
    v
}

/// The arguments that install a contract for the project.
pub fn install_args(plugin: &str) -> (r: Vec<String>)
    ensures
        views(r@) == seq!["plugin"@, "install"@, plugin@, "--scope"@, "project"@],
{
    let mut v: Vec<String> = Vec::new();
    push_text(&mut v, "plugin");
    push_text(&mut v, "install");
    push_text(&mut v, plugin);
    push_text(&mut v, "--scope");
    push_text(&mut v, "project");
    assert(views(v@) =~= seq!["plugin"@, "install"@, plugin@, "--scope"@, "project"@]);
    v
}

/// How a command ended: its code, or that it was killed.
pub open spec fn code_text(code: Option<i32>) -> Seq<char> {
    match code {
        Some(c) => if c < 0 {
            "-"@ + digits((-c) as nat)
        } else {
            digits(c as nat)
        },
        None => "killed"@,
    }
}

/// How a command ended: its code, or that it was killed.
pub fn exit_text(code: Option<i32>) -> (r: String)
    ensures
        r@ == code_text(code),
{
    match code {
        Some(c) => if c < 0 {
            let mut s: String = "-".to_owned();
            s.append(decimal((-(c as i64)) as u64).as_str());
            s
        } else {
            decimal(c as u64)
        },
        None => "killed".to_owned(),
    }
}

/// The message for a command of the tool that failed.
pub fn cli_error(cli: &str, args: &Vec<String>, code: Option<i32>, stderr: &Vec<u8>) -> (r: String)
    ensures
        r@ == "`"@ + typed(cli@, views(args@)) + "` exited "@ + code_text(code) + ": "@ + trimmed(lossy_text(stderr@)),
{
    let mut e: String = "`".to_owned();
    e.append(command_line(cli, args).as_str());
    e.append("` exited ");
    e.append(exit_text(code).as_str());
    e.append(": ");
    e.append(trim(from_utf8_lossy(stderr).as_str()).as_str());
    e
}

/// Whether these are the places, in order, of a list of this length that are to
/// be kept, and no others.
pub open spec fn keeps_places(at: Seq<int>, n: nat, keep: spec_fn(int) -> bool) -> bool {
    &&& forall|i: int| 0 <= i < at.len() ==> 0 <= #[trigger] at[i] < n
    &&& forall|i: int, j: int| 0 <= i < j < at.len() ==> #[trigger] at[i] < #[trigger] at[j]
    &&& forall|k: int| 0 <= k < n ==> (#[trigger] at.contains(k) <==> keep(k))
}

pub(crate) proof fn lemma_places_more(before: Seq<int>, n: nat, keep: spec_fn(int) -> bool, more: spec_fn(int) -> bool) -> (at: Seq<int>)
    requires
        keeps_places(before, n, keep),
        forall|k: int| 0 <= k < n ==> keep(k) == #[trigger] more(k),
    ensures
        keeps_places(at, n + 1, more),
        at == (if more(n as int) {
            before.push(n as int)
        } else {
            before
        }),
{
    let at = if more(n as int) {
        before.push(n as int)
    } else {
        before
    };
    assert forall|k: int| 0 <= k < n + 1 implies (#[trigger] at.contains(k) <==> more(k)) by {
        if k < n {
            assert(before.contains(k) <==> keep(k));
            assert(keep(k) == more(k));
            if before.contains(k) {
                let i = choose|i: int| 0 <= i < before.len() && before[i] == k;
                assert(at[i] == k);
            }
            if at.contains(k) {
                let i = choose|i: int| 0 <= i < at.len() && at[i] == k;
                assert(before[i] == k);
            }
        } else {
            if more(k) {
                assert(at[before.len() as int] == k);
            } else if at.contains(k) {
                let i = choose|i: int| 0 <= i < at.len() && at[i] == k;
                assert(before[i] < n);
            }
        }
    }
    at
}

/// Each service that was tried is told under its own result: the installed ones
/// are those, in order, at whose place there is a success, and the failed ones
/// all others.
pub proof fn law_results_at_their_places(services: Seq<Seq<char>>, done: Seq<bool>, there: bool) -> (at: Seq<int>)
    ensures
        keeps_places(at, services.len(), |k: int| (k < done.len() && done[k]) == there),
        services_with(services, done, there).len() == at.len(),
        forall|i: int| 0 <= i < at.len() ==> #[trigger] services_with(services, done, there)[i] == services[at[i]],
    decreases services.len(),
{
    let keep = |k: int| (k < done.len() && done[k]) == there;
    if services.len() == 0 {
        let at = Seq::<int>::empty();
        assert(keeps_places(at, 0, keep));
        at
    } else {
        let less = services.drop_last();
        let before = law_results_at_their_places(less, done, there);
        let at = lemma_places_more(before, less.len(), keep, keep);
        assert forall|i: int| 0 <= i < at.len() implies #[trigger] services_with(services, done, there)[i] == services[at[i]] by {
            if i < before.len() {
                assert(services_with(less, done, there)[i] == less[before[i]]);
            }
        }
        at
    }
}

/// A service is told as installed where its installation succeeded, and as
/// failed where it did not.
pub proof fn law_result_of_service(services: Seq<Seq<char>>, done: Seq<bool>, k: int)
    requires
        0 <= k < services.len(),
    ensures
        k < done.len() && done[k] ==> services_with(services, done, true).contains(services[k]),
        !(k < done.len() && done[k]) ==> services_with(services, done, false).contains(services[k]),
        (forall|i: int, j: int| 0 <= i < j < services.len() ==> #[trigger] services[i] != #[trigger] services[j]) ==> (
        services_with(services, done, true).contains(services[k]) <==> k < done.len() && done[k]),
{
    let yes = law_results_at_their_places(services, done, true);
    let no = law_results_at_their_places(services, done, false);
    assert(yes.contains(k) <==> k < done.len() && done[k]);
    assert(no.contains(k) <==> !(k < done.len() && done[k]));
    if k < done.len() && done[k] {
        let i = choose|i: int| 0 <= i < yes.len() && yes[i] == k;
        assert(services_with(services, done, true)[i] == services[k]);
    } else {
        let i = choose|i: int| 0 <= i < no.len() && no[i] == k;
        assert(services_with(services, done, false)[i] == services[k]);
        if services_with(services, done, true).contains(services[k]) && forall|i: int, j: int|
            0 <= i < j < services.len() ==> #[trigger] services[i] != #[trigger] services[j] {
            let q = choose|q: int|
                0 <= q < services_with(services, done, true).len() && services_with(services, done, true)[q] == services[k];
            assert(services[yes[q]] == services[k]);
            assert(yes[q] == k);
            assert(yes.contains(k));
        }
    }
}

/// The services that are to be installed are those that the catalog has, and
/// those that are passed over all others: each in its order.
pub proof fn law_services_at_their_places(services: Seq<Seq<char>>, names: Seq<Seq<char>>, there: bool) -> (at: Seq<int>)
    ensures
        keeps_places(at, services.len(), |k: int| names.contains(services[k]) == there),
        services_where(services, names, there).len() == at.len(),
        forall|i: int| 0 <= i < at.len() ==> #[trigger] services_where(services, names, there)[i] == services[at[i]],
    decreases services.len(),
{
    let keep = |k: int| names.contains(services[k]) == there;
    if services.len() == 0 {
        let at = Seq::<int>::empty();
        assert(keeps_places(at, 0, keep));
        at
    } else {
        let less = services.drop_last();
        let fewer = |k: int| names.contains(less[k]) == there;
        let before = law_services_at_their_places(less, names, there);
        assert forall|k: int| 0 <= k < less.len() implies fewer(k) == #[trigger] keep(k) by {
            assert(less[k] == services[k]);
        }
        let at = lemma_places_more(before, less.len(), fewer, keep);
        assert forall|i: int| 0 <= i < at.len() implies #[trigger] services_where(services, names, there)[i] == services[at[i]] by {
            if i < before.len() {
                assert(services_where(less, names, there)[i] == less[before[i]]);
            }
        }
        at
    }
}

/// The contracts of a marketplace are its entries with a name, in order, each
/// with its own description and version.
pub proof fn law_contracts_at_their_places(v: Seq<JsonView>) -> (at: Seq<int>)
    ensures
        keeps_places(at, v.len(), |k: int| member(v[k], "name"@) matches Some(JsonView::Text(_))),
        contracts_in(v).len() == at.len(),
        forall|i: int|
            0 <= i < at.len() ==> {
                &&& member(v[at[i]], "name"@) == Some(JsonView::Text((#[trigger] contracts_in(v)[i]).name))
                &&& contracts_in(v)[i].description == (match member(v[at[i]], "description"@) {
                    Some(JsonView::Text(d)) => d,
                    _ => Seq::empty(),
                })
                &&& contracts_in(v)[i].latest_version == (match member(v[at[i]], "version"@) {
                    Some(JsonView::Text(d)) => Some(d),
                    _ => None,
                })
            },
    decreases v.len(),
{
    let keep = |k: int| member(v[k], "name"@) matches Some(JsonView::Text(_));
    if v.len() == 0 {
        let at = Seq::<int>::empty();
        assert(keeps_places(at, 0, keep));
        at
    } else {
        let less = v.drop_last();
        let fewer = |k: int| member(less[k], "name"@) matches Some(JsonView::Text(_));
        let before = law_contracts_at_their_places(less);
        assert forall|k: int| 0 <= k < less.len() implies fewer(k) == #[trigger] keep(k) by {
            assert(less[k] == v[k]);
        }
        let at = lemma_places_more(before, less.len(), fewer, keep);
        assert forall|i: int| 0 <= i < at.len() implies {
            &&& member(v[at[i]], "name"@) == Some(JsonView::Text((#[trigger] contracts_in(v)[i]).name))
            &&& contracts_in(v)[i].description == (match member(v[at[i]], "description"@) {
                Some(JsonView::Text(d)) => d,
                _ => Seq::empty(),
            })
            &&& contracts_in(v)[i].latest_version == (match member(v[at[i]], "version"@) {
                Some(JsonView::Text(d)) => Some(d),
                _ => None,
            })
        } by {
            if i < before.len() {
                assert(contracts_in(less)[i] == contracts_in(v)[i]);
                assert(less[before[i]] == v[at[i]]);
            }
        }
        at
    }
}

/// A catalog that is written tells the name of the marketplace, the time, and
/// each contract with its name, its description and its version, if known.
pub proof fn law_catalog_told(name: Seq<char>, updated_at: Seq<char>, c: Seq<ContractView>, i: int)
    requires
        0 <= i < c.len(),
    ensures
        ({
            let j = catalog_json(name, updated_at, c);
            &&& member(j, "marketplaceName"@) == Some(JsonView::Text(name))
            &&& member(j, "updatedAt"@) == Some(JsonView::Text(updated_at))
            &&& member(j, "contracts"@) matches Some(JsonView::Array(a)) && a.len() == c.len() && {
                &&& member(a[i], "name"@) == Some(JsonView::Text(c[i].name))
                &&& member(a[i], "description"@) == Some(JsonView::Text(c[i].description))
                &&& member(a[i], "latest_version"@) == (match c[i].latest_version {
                    Some(t) => Some(JsonView::Text(t)),
                    None => None,
                })
            }
        }),
{
    let j = catalog_json(name, updated_at, c);
    reveal_strlit("marketplaceName");
    reveal_strlit("updatedAt");
    reveal_strlit("contracts");
    reveal_strlit("name");
    reveal_strlit("description");
    reveal_strlit("latest_version");
    reveal_with_fuel(member_from, 4);
    let m = j->Object_0;
    assert("marketplaceName"@.len() == 15 && "updatedAt"@.len() == 9 && "contracts"@.len() == 9);
    assert("updatedAt"@[0] != "contracts"@[0]);
    assert(m[0].0 == "marketplaceName"@ && m[1].0 == "updatedAt"@ && m[2].0 == "contracts"@);
    assert(member(j, "contracts"@) == Some(m[2].1));
    let a = m[2].1->Array_0;
    assert(a[i] == contract_json(c[i]));
    let q = a[i]->Object_0;
    assert("name"@.len() == 4 && "description"@.len() == 11 && "latest_version"@.len() == 14);
    assert(q[0] == ("name"@, JsonView::Text(c[i].name)));
    assert(q[1] == ("description"@, JsonView::Text(c[i].description)));
    assert(member(a[i], "name"@) == Some(q[0].1));
    assert(member(a[i], "description"@) == Some(q[1].1));
    if let Some(t) = c[i].latest_version {
        assert(q[2] == ("latest_version"@, JsonView::Text(t)));
        assert(member_from(q, "latest_version"@, 0) == Some(2int));
    } else {
        assert(member_from(q, "latest_version"@, 0) is None);
    }
}

/// The answer to an installation tells each list under its own name, and the
/// subject of the commit exactly where one was made.
pub proof fn law_install_told(
    name: Seq<char>,
    installed: Seq<Seq<char>>,
    skipped: Seq<Seq<char>>,
    failed: Seq<Seq<char>>,
    committed: bool,
)
    ensures
        ({
            let j = install_json(name, installed, skipped, failed, committed);
            &&& member(j, "marketplace_name"@) == Some(JsonView::Text(name))
            &&& member(j, "catalog_path"@) == Some(JsonView::Text(".jkit/marketplace-catalog.json"@))
            &&& member(j, "installed"@) == Some(text_array(installed))
            &&& member(j, "skipped_not_in_catalog"@) == Some(text_array(skipped))
            &&& member(j, "claude_install_failed"@) == Some(text_array(failed))
            &&& member(j, "committed"@) == Some(JsonView::Bool(committed))
            &&& member(j, "commit_subject"@) == (if committed {
                Some(JsonView::Text(install_subject(installed)))
            } else {
                None
            })
        }),
{
    let m = install_json(name, installed, skipped, failed, committed)->Object_0;
    reveal_strlit("marketplace_name");
    reveal_strlit("catalog_path");
    reveal_strlit("installed");
    reveal_strlit("skipped_not_in_catalog");
    reveal_strlit("claude_install_failed");
    reveal_strlit("committed");
    reveal_strlit("commit_subject");
    reveal_with_fuel(member_from, 9);
    assert("installed"@[0] == 'i' && "committed"@[0] == 'c');
    assert(m[0].0 == "marketplace_name"@ && m[1].0 == "catalog_path"@ && m[2].0 == "installed"@);
    assert(m[3].0 == "skipped_not_in_catalog"@ && m[4].0 == "claude_install_failed"@ && m[5].0 == "committed"@);
    if committed {
        assert(m[6].0 == "commit_subject"@);
    }
}

/// The subject of the commit names exactly what was installed, in order.
pub proof fn law_install_subject(installed: Seq<Seq<char>>, x: Seq<char>, y: Seq<char>)
    ensures
        install_subject(Seq::empty()) == "chore: refresh marketplace catalog"@,
        install_subject(seq![x]) == "chore: install contracts ["@ + x + "]"@,
        install_subject(seq![x, y]) == "chore: install contracts ["@ + (x + ", "@ + y) + "]"@,
        installed.len() > 0 ==> install_subject(installed) == "chore: install contracts ["@ + joined(installed, ", "@) + "]"@,
{
    law_joined(seq![x], seq![y], x, ", "@);
    law_joined(seq![x], seq![y], y, ", "@);
    assert(seq![x] + seq![y] =~= seq![x, y]);
}

/// What is given by hand is taken; without it the settings count. Nothing is
/// taken to be a marketplace that is missing or empty.
pub proof fn law_setting(arg: Seq<char>, m: Seq<(Seq<char>, JsonView)>, name: Seq<char>)
    ensures
        arg.len() > 0 ==> setting(Some(arg), m, name) == Some(arg),
        setting(Some(Seq::empty()), m, name) is None,
        setting(None, m, name) == (match member(JsonView::Object(m), name) {
            Some(JsonView::Text(t)) => if t.len() > 0 {
                Some(t)
            } else {
                None
            },
            _ => None,
        }),
{
}

/// A marketplace needs a repository and a name. Settings are written exactly
/// where they do not hold both already; they then do, and everything else in
/// them stays as it was.
pub proof fn law_marketplace_settings(
    m: Seq<(Seq<char>, JsonView)>,
    repo_arg: Option<Seq<char>>,
    name_arg: Option<Seq<char>>,
    other: Seq<char>,
)
    ensures
        ({
            let repo = setting(repo_arg, m, "marketplaceRepo"@);
            let name = setting(name_arg, m, "marketplaceName"@);
            match marketplace_from(m, repo_arg, name_arg) {
                Ok(r) => {
                    &&& repo == Some(r.0) && name == Some(r.1)
                    &&& r.2 is None <==> member(JsonView::Object(m), "marketplaceRepo"@) == Some(JsonView::Text(r.0))
                        && member(JsonView::Object(m), "marketplaceName"@) == Some(JsonView::Text(r.1))
                    &&& r.2 matches Some(w) ==> {
                        &&& member(JsonView::Object(w), "marketplaceRepo"@) == Some(JsonView::Text(r.0))
                        &&& member(JsonView::Object(w), "marketplaceName"@) == Some(JsonView::Text(r.1))
                        &&& other != "marketplaceRepo"@ && other != "marketplaceName"@ ==> member(
                            JsonView::Object(w),
                            other,
                        ) == member(JsonView::Object(m), other)
                    }
                },
                Err(e) => {
                    &&& repo is None || name is None
                    &&& repo is None ==> e
                        == "marketplaceRepo missing — pass --marketplace-repo or set it in .jkit/contract.json"@
                    &&& repo is Some ==> e
                        == "marketplaceName missing — pass --marketplace-name or set it in .jkit/contract.json"@
                },
            }
        }),
{
    if let Ok(r) = marketplace_from(m, repo_arg, name_arg) {
        let m1 = with_member(m, "marketplaceRepo"@, JsonView::Text(r.0));
        reveal_strlit("marketplaceRepo");
        reveal_strlit("marketplaceName");
        assert("marketplaceRepo"@[11] == 'R' && "marketplaceName"@[11] == 'N');
        law_member_after_put(m, "marketplaceRepo"@, JsonView::Text(r.0), "marketplaceRepo"@);
        law_member_after_put(m1, "marketplaceName"@, JsonView::Text(r.1), "marketplaceRepo"@);
        law_member_after_put(m, "marketplaceRepo"@, JsonView::Text(r.0), other);
        law_member_after_put(m1, "marketplaceName"@, JsonView::Text(r.1), other);
    }
}

/// A commit of files, where `git` answers each step in this way.
pub open spec fn commit_run(step: CommitStep, git: spec_fn(CommitStep) -> Output) -> CommitNextView
    decreases
            (match step {
                CommitStep::Add => 2int,
                CommitStep::Diff => 1,
                CommitStep::Commit => 0,
            }),
{
    match commit_after(step, git(step)) {
        CommitNextView::Do(CommitStep::Diff) if step is Add => commit_run(CommitStep::Diff, git),
        CommitNextView::Do(CommitStep::Commit) if step is Diff => commit_run(CommitStep::Commit, git),
        end => end,
    }
}

/// A commit is made exactly where the files could be staged, something is then
/// staged (`git diff` says so by failing), and the commit succeeds. Where nothing
/// is staged there is none; a step that fails is told with what `git` said.
pub proof fn law_commit_made(git: spec_fn(CommitStep) -> Output)
    ensures
        ({
            let end = commit_run(CommitStep::Add, git);
            let added = git(CommitStep::Add).success;
            let same = git(CommitStep::Diff).success;
            let made = git(CommitStep::Commit).success;
            &&& end == CommitNextView::Done(true) <==> added && !same && made
            &&& end == CommitNextView::Done(false) <==> added && same
            &&& !added ==> end == CommitNextView::Failed(
                "git add failed: "@ + trimmed(lossy_text(git(CommitStep::Add).stderr@)),
            )
            &&& added && !same && !made ==> end == CommitNextView::Failed(
                "git commit failed: "@ + trimmed(lossy_text(git(CommitStep::Commit).stderr@)),
            )
        }),
{
    reveal_with_fuel(commit_run, 4);
}

/// Exactly the files that are there are staged.
pub proof fn law_files_staged(cli: Seq<char>, settings: bool, catalog: bool, contract: bool, f: Seq<char>)
    ensures
        files_to_stage(cli, settings, catalog, contract).contains(f) <==> (settings && f == "."@ + cli + "/settings.json"@)
            || (catalog && f == ".jkit/marketplace-catalog.json"@) || (contract && f == ".jkit/contract.json"@),
{
    let s = files_to_stage(cli, settings, catalog, contract);
    let n: int = if settings {
        1
    } else {
        0
    };
    let k: int = if catalog {
        n + 1
    } else {
        n
    };
    if settings {
        assert(s[0] == settings_path(cli));
    }
    if catalog {
        assert(s[n] == CATALOG_JSON@);
    }
    if contract {
        assert(s[k] == CONTRACT_JSON@);
    }
    if s.contains(f) {
        let i = choose|i: int| 0 <= i < s.len() && s[i] == f;
        assert(i == 0 || i == 1 || i == 2);
    }
}

/// The commands of a commit: exactly the files are staged, and the commit carries
/// the subject.
pub proof fn law_commit_commands(files: Seq<Seq<char>>, subject: Seq<char>, i: int)
    requires
        0 <= i < files.len(),
    ensures
        step_arguments(CommitStep::Add, files, subject).len() == files.len() + 1,
        step_arguments(CommitStep::Add, files, subject)[0] == "add"@,
        step_arguments(CommitStep::Add, files, subject)[i + 1] == files[i],
        step_arguments(CommitStep::Diff, files, subject) == seq!["diff"@, "--cached"@, "--quiet"@],
        step_arguments(CommitStep::Commit, files, subject) == seq!["commit"@, "-q"@, "-m"@, subject],
{
}

/// The names in a catalog are those of its contracts, in order.
pub proof fn law_names_in(c: Seq<ContractView>, i: int)
    requires
        0 <= i < c.len(),
    ensures
        names_in(c).len() == c.len(),
        names_in(c)[i] == c[i].name,
{
}

/// The code of a command that ended is shown as the number that it is.
pub proof fn law_code_shown(c: i32)
    ensures
        code_text(None) == "killed"@,
        c >= 0 ==> number_shown(code_text(Some(c))) == c,
        c < 0 ==> exists|t: Seq<char>| code_text(Some(c)) == #[trigger] ("-"@ + t) && number_shown(t) == -c,
{
    if c >= 0 {
        law_digits(c as nat);
    } else {
        law_digits((-c) as nat);
        assert(code_text(Some(c)) == "-"@ + digits((-c) as nat));
    }
}

/// A settings file that is missing, or that holds no JSON, sets nothing; one
/// that holds an object sets its members.
pub proof fn law_settings_read(t: Seq<char>)
    ensures
        settings_in(None) == Some(Seq::<(Seq<char>, JsonView)>::empty()),
        json_document(t) is Err ==> settings_in(Some(t)) == Some(Seq::<(Seq<char>, JsonView)>::empty()),
        json_document(t) matches Ok(v) ==> (match v {
            JsonView::Object(m) => settings_in(Some(t)) == Some(m),
            _ => settings_in(Some(t)) is None,
        }),
{
}

/// The contracts of a marketplace file are those of its list of plugins; a file
/// without such a list, or without JSON, is refused with the reason.
pub proof fn law_marketplace_read(path: Seq<char>, t: Seq<char>)
    ensures
        json_document(t) matches Err(e) ==> contracts_in_text(path, t) == Err::<Seq<ContractView>, Seq<char>>(
            "parsing "@ + path + ": "@ + e,
        ),
        json_document(t) matches Ok(v) ==> (match member(v, "plugins"@) {
            Some(JsonView::Array(a)) => contracts_in_text(path, t) == Ok::<Seq<ContractView>, Seq<char>>(contracts_in(a)),
            _ => contracts_in_text(path, t) == Err::<Seq<ContractView>, Seq<char>>(
                "marketplace.json missing `plugins` array"@,
            ),
        }),
{
}

} // verus!
