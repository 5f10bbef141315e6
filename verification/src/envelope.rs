//! The answers that commands print: `{"ok": true, ...}` and
//! `{"ok": false, "error": {...}, ...}`.

use crate::json::{
    distinct_names, lemma_holding, lemma_proper_flat, member, member_from, members, object, pretty_text, proper, push_member,
    render_pretty, tells, text, Json, JsonView, MOST_LEVELS,
};
use crate::text::{same, shown};
use vstd::prelude::*;

verus! {

/// The members without those of this name.
pub open spec fn without(m: Seq<(Seq<char>, JsonView)>, name: Seq<char>) -> Seq<(Seq<char>, JsonView)>
    decreases m.len(),
{
    if m.len() == 0 {
        Seq::empty()
    } else if m.last().0 == name {
        without(m.drop_last(), name)
    } else {
        without(m.drop_last(), name).push(m.last())
    }
}

/// The answer of a command that succeeded: the mark comes first, and the
/// members follow; a mark among them is left out.
pub open spec fn ok_json(m: Seq<(Seq<char>, JsonView)>) -> JsonView {
    JsonView::Object(seq![("ok"@, JsonView::Bool(true))] + without(m, "ok"@))
}

/// The error of a command that failed. A code or hint that is not given is
/// left out.
pub open spec fn error_json(code: Option<Seq<char>>, message: Seq<char>, hint: Option<Seq<char>>) -> JsonView {
    let told = seq![("message"@, JsonView::Text(message))];
    let coded = match code {
        Some(c) => told.push(("code"@, JsonView::Text(c))),
        None => told,
    };
    JsonView::Object(
        match hint {
            Some(h) => coded.push(("hint"@, JsonView::Text(h))),
            None => coded,
        },
    )
}

/// The answer of a command that failed.
pub open spec fn failed_json(code: Option<Seq<char>>, message: Seq<char>, hint: Option<Seq<char>>) -> JsonView {
    JsonView::Object(seq![("ok"@, JsonView::Bool(false)), ("error"@, error_json(code, message, hint))])
}

/// The answer of a command that failed on the way, with members that say how
/// far it came; a mark or an error among them is left out.
pub open spec fn failed_with_json(message: Seq<char>, m: Seq<(Seq<char>, JsonView)>) -> JsonView {
    JsonView::Object(failed_json(None, message, None)->Object_0 + without(without(m, "ok"@), "error"@))
}

/// Whatever the members say, the answer of a command that succeeded is marked
/// so; every other member is there as it was.
pub proof fn law_ok_marker_overrides(m: Seq<(Seq<char>, JsonView)>, name: Seq<char>)
    ensures
        member(ok_json(m), "ok"@) == Some(JsonView::Bool(true)),
        name != "ok"@ ==> member(ok_json(m), name) == member(JsonView::Object(m), name),
{
    let q = ok_json(m)->Object_0;
    assert(q[0] == ("ok"@, JsonView::Bool(true)));
    if name != "ok"@ {
        let w = without(m, "ok"@);
        lemma_member_shift(seq![("ok"@, JsonView::Bool(true))], w, name, 0);
        assert(member_from(q, name, 0) == member_from(q, name, 1));
        lemma_without(m, "ok"@, name);
    }
}

/// Whatever the members say, the answer of a command that failed on the way is
/// marked so and has the error; every other member is there as it was.
pub proof fn law_failed_marker_overrides(message: Seq<char>, m: Seq<(Seq<char>, JsonView)>, name: Seq<char>)
    ensures
        member(failed_with_json(message, m), "ok"@) == Some(JsonView::Bool(false)),
        member(failed_with_json(message, m), "error"@) == Some(error_json(None, message, None)),
        name != "ok"@ && name != "error"@ ==> member(failed_with_json(message, m), name) == member(JsonView::Object(m), name),
{
    let q = failed_with_json(message, m)->Object_0;
    let head = failed_json(None, message, None)->Object_0;
    reveal_strlit("ok");
    reveal_strlit("error");
    assert("ok"@.len() == 2 && "error"@.len() == 5);
    assert(q[0] == head[0] && q[1] == head[1]);
    assert(head[0].0 == "ok"@ && head[1].0 == "error"@);
    assert(member_from(q, "error"@, 0) == member_from(q, "error"@, 1));
    if name != "ok"@ && name != "error"@ {
        let w = without(without(m, "ok"@), "error"@);
        lemma_member_shift(head, w, name, 0);
        assert(member_from(q, name, 0) == member_from(q, name, 1));
        assert(member_from(q, name, 1) == member_from(q, name, 2));
        lemma_without(m, "ok"@, name);
        lemma_without(without(m, "ok"@), "error"@, name);
    }
}

proof fn lemma_member_shift(head: Seq<(Seq<char>, JsonView)>, w: Seq<(Seq<char>, JsonView)>, name: Seq<char>, i: int)
    requires
        0 <= i,
    ensures
        ({
            let q = head + w;
            let n = head.len() as int;
            match member_from(w, name, i) {
                Some(k) => member_from(q, name, i + n) == Some(k + n) && q[k + n] == w[k] && k >= 0,
                None => member_from(q, name, i + n) is None,
            }
        }),
    decreases w.len() - i,
{
    let q = head + w;
    if i < w.len() {
        assert(q[i + head.len()] == w[i]);
        if w[i].0 != name {
            lemma_member_shift(head, w, name, i + 1);
        }
    }
}

proof fn lemma_last_found(m: Seq<(Seq<char>, JsonView)>, name: Seq<char>, i: int)
    requires
        m.len() > 0,
        0 <= i < m.len(),
    ensures
        (match member_from(m.drop_last(), name, i) {
            Some(k) => member_from(m, name, i) == Some(k) && i <= k < m.len() - 1,
            None => member_from(m, name, i) == (if m.last().0 == name {
                Some(m.len() - 1)
            } else {
                None
            }),
        }),
    decreases m.len() - i,
{
    if i < m.len() - 1 {
        assert(m.drop_last()[i] == m[i]);
        if m[i].0 != name {
            lemma_last_found(m, name, i + 1);
        }
    } else {
        assert(member_from(m, name, i + 1) is None);
    }
}

proof fn lemma_without(m: Seq<(Seq<char>, JsonView)>, gone: Seq<char>, name: Seq<char>)
    requires
        name != gone,
    ensures
        member(JsonView::Object(without(m, gone)), name) == member(JsonView::Object(m), name),
    decreases m.len(),
{
    if m.len() > 0 {
        let less = m.drop_last();
        lemma_without(less, gone, name);
        lemma_last_found(m, name, 0);
        let w = without(less, gone);
        if m.last().0 != gone {
            let q = w.push(m.last());
            lemma_last_found(q, name, 0);
            assert(q.drop_last() =~= w);
        }
    }
}

proof fn lemma_without_names(m: Seq<(Seq<char>, JsonView)>, gone: Seq<char>, depth: nat)
    requires
        distinct_names(m),
        forall|i: int| 0 <= i < m.len() ==> proper((#[trigger] m[i]).1, depth),
    ensures
        ({
            let w = without(m, gone);
            &&& distinct_names(w)
            &&& forall|i: int| 0 <= i < w.len() ==> proper((#[trigger] w[i]).1, depth) && w[i].0 != gone
            &&& forall|i: int| 0 <= i < w.len() ==> m.contains(#[trigger] w[i])
        }),
    decreases m.len(),
{
    if m.len() > 0 {
        let less = m.drop_last();
        assert forall|i: int| 0 <= i < less.len() implies proper((#[trigger] less[i]).1, depth) by {
            assert(less[i] == m[i]);
        }
        assert(distinct_names(less)) by {
            assert forall|i: int, j: int| 0 <= i < j < less.len() implies (#[trigger] less[i]).0 != (#[trigger] less[j]).0 by {
                assert(less[i] == m[i] && less[j] == m[j]);
            }
        }
        lemma_without_names(less, gone, depth);
        let u = without(less, gone);
        let w = without(m, gone);
        assert forall|i: int| 0 <= i < u.len() implies m.contains(#[trigger] u[i]) && u[i].0 != m.last().0 by {
            assert(less.contains(u[i]));
            let k = choose|k: int| 0 <= k < less.len() && less[k] == u[i];
            assert(m[k] == u[i]);
            assert(m[k].0 != m[m.len() - 1].0);
        }
        assert(m.contains(m[m.len() - 1]));
        assert forall|i: int| 0 <= i < w.len() implies proper((#[trigger] w[i]).1, depth) && w[i].0 != gone && m.contains(
            w[i],
        ) by {
            if i < u.len() {
                assert(w[i] == u[i]);
            }
        }
        assert forall|i: int, j: int| 0 <= i < j < w.len() implies (#[trigger] w[i]).0 != (#[trigger] w[j]).0 by {
            assert(w[i] == u[i]);
            if j < u.len() {
                assert(w[j] == u[j]);
            }
        }
    }
}

/// The answer of a command that succeeded has each name once, and no more
/// levels, where this holds of the value that it is made from.
proof fn lemma_proper_ok(j: JsonView, depth: nat)
    requires
        proper(j, depth),
        j is Object,
    ensures
        proper(ok_json(j->Object_0), depth),
{
    let m = j->Object_0;
    let w = without(m, "ok"@);
    let q = ok_json(m)->Object_0;
    lemma_without_names(m, "ok"@, (depth - 1) as nat);
    assert forall|i: int| 0 <= i < q.len() implies proper((#[trigger] q[i]).1, (depth - 1) as nat) by {
        if i > 0 {
            assert(q[i] == w[i - 1]);
        }
    }
    assert forall|i: int, k: int| 0 <= i < k < q.len() implies (#[trigger] q[i]).0 != (#[trigger] q[k]).0 by {
        assert(q[k] == w[k - 1]);
        if i > 0 {
            assert(q[i] == w[i - 1]);
        }
    }
}

proof fn lemma_proper_failed(code: Option<Seq<char>>, message: Seq<char>, hint: Option<Seq<char>>)
    ensures
        proper(failed_json(code, message, hint), MOST_LEVELS as nat),
{
    let e = error_json(code, message, hint)->Object_0;
    let m = failed_json(code, message, hint)->Object_0;
    reveal_strlit("message");
    reveal_strlit("code");
    reveal_strlit("hint");
    reveal_strlit("ok");
    reveal_strlit("error");
    assert("message"@.len() == 7 && "code"@.len() == 4 && "hint"@.len() == 4 && "ok"@.len() == 2 && "error"@.len() == 5);
    assert("code"@[0] != "hint"@[0]);
    assert(distinct_names(e));
    assert(distinct_names(m));
    lemma_proper_flat(e, (MOST_LEVELS - 1) as nat);
    assert(m[0] == ("ok"@, JsonView::Bool(false)));
    assert(m[1] == ("error"@, error_json(code, message, hint)));
    lemma_proper_flat(m, MOST_LEVELS as nat);
}

proof fn lemma_proper_failed_with(message: Seq<char>, j: JsonView, depth: nat)
    requires
        depth == MOST_LEVELS,
        proper(j, depth),
        j is Object,
    ensures
        proper(failed_with_json(message, j->Object_0), depth),
{
    let m = j->Object_0;
    let u = without(m, "ok"@);
    let w = without(u, "error"@);
    let head = failed_json(None, message, None)->Object_0;
    let q = failed_with_json(message, m)->Object_0;
    lemma_proper_failed(None, message, None);
    lemma_without_names(m, "ok"@, (depth - 1) as nat);
    lemma_without_names(u, "error"@, (depth - 1) as nat);
    assert forall|i: int| 0 <= i < q.len() implies proper((#[trigger] q[i]).1, (depth - 1) as nat) by {
        if i < 2 {
            assert(q[i] == head[i]);
        } else {
            assert(q[i] == w[i - 2]);
        }
    }
    assert forall|i: int, k: int| 0 <= i < k < q.len() implies (#[trigger] q[i]).0 != (#[trigger] q[k]).0 by {
        if k < 2 {
            assert(q[i] == head[i] && q[k] == head[k]);
        } else {
            assert(q[k] == w[k - 2]);
            assert(u.contains(w[k - 2]));
            let n = choose|n: int| 0 <= n < u.len() && u[n] == w[k - 2];
            assert(u[n].0 != "ok"@);
            if i < 2 {
                assert(q[i] == head[i]);
            } else {
                assert(q[i] == w[i - 2]);
            }
        }
    }
    lemma_proper_flat(q, depth);
}

/// The members of an object that do not have this name.
fn members_without(value: Vec<(String, Json)>, name: &str) -> (r: Vec<(String, Json)>)
    ensures
        members(r@) == without(members(value@), name@),
{
    let mut out: Vec<(String, Json)> = Vec::new();
    let ghost all = members(value@);
    let mut rest = value;
    let n: usize = rest.len();
    assert(rest@ =~= value@.skip(0));
    assert(all.take(0) =~= Seq::<(Seq<char>, JsonView)>::empty());
    assert(members(out@) =~= without(all.take(0), name@));
    let mut i: usize = 0;
    while i < n
        invariant
            0 <= i <= n == value@.len(),
            rest@ == value@.skip(i as int),
            all == members(value@),
            members(out@) == without(all.take(i as int), name@),
        decreases n - i,
    {
        let (k, v) = rest.remove(0);
        assert(rest@ =~= value@.skip(i + 1));
        assert(all[i as int] == (k@, v@));
        assert(all.take(i + 1).drop_last() =~= all.take(i as int));
        if !same(k.as_str(), name) {
            push_member(&mut out, k.as_str(), v);
        }
        i = i + 1;
    }
    assert(all.take(all.len() as int) =~= all);
    out
}

/// The members of an object.
fn members_of(value: Json) -> (r: Vec<(String, Json)>)
    requires
        value is Object,
    ensures
        value@ == JsonView::Object(members(r@)),
{
    proof {
        lemma_holding(value);
    }
    match value {
        Json::Object(m) => m,
        _ => Vec::new(),
    }
}

/// The answer of a command that succeeded, from an object with its members.
pub fn ok_value(value: Json) -> (r: Json)
    requires
        value is Object,
    ensures
        value@ is Object,
        r@ == ok_json(value@->Object_0),
{
    let mut out: Vec<(String, Json)> = Vec::new();
    push_member(&mut out, "ok", Json::Bool(true));
    let mut rest = members_without(members_of(value), "ok");
    let ghost all = members(out@) + members(rest@);
    out.append(&mut rest);
    assert(members(out@) =~= all);
    assert(all =~= ok_json(value@->Object_0)->Object_0);
    object(out)
}

/// The text that a command prints once it succeeded. Who reads it, with the
/// line break that is printed behind it, finds the answer in it.
pub fn print_ok(value: Json) -> (r: String)
    requires
        value is Object,
    ensures
        value@ is Object,
        r@ == pretty_text(ok_json(value@->Object_0)),
        proper(value@, MOST_LEVELS as nat) ==> tells(r@, ok_json(value@->Object_0)),
{
    proof {
        lemma_holding(value);
        if proper(value@, MOST_LEVELS as nat) {
            lemma_proper_ok(value@, MOST_LEVELS as nat);
        }
    }
    render_pretty(&ok_value(value))
}

/// The answer of a command that failed.
pub fn error_value(code: Option<&str>, message: &str, hint: Option<&str>) -> (r: Json)
    ensures
        r@ == failed_json(shown(code), message@, shown(hint)),
{
    let mut e: Vec<(String, Json)> = Vec::new();
    push_member(&mut e, "message", text(message));
    assert(members(e@) =~= seq![("message"@, JsonView::Text(message@))]);
    if let Some(c) = code {
        push_member(&mut e, "code", text(c));
    }
    if let Some(h) = hint {
        push_member(&mut e, "hint", text(h));
    }
    let mut m: Vec<(String, Json)> = Vec::new();
    push_member(&mut m, "ok", Json::Bool(false));
    push_member(&mut m, "error", object(e));
    assert(members(m@) =~= failed_json(shown(code), message@, shown(hint))->Object_0);
    object(m)
}

/// The answer of a command that failed on the way, from an object with what it
/// did before.
pub fn failed_value(message: &str, details: Json) -> (r: Json)
    requires
        details is Object,
    ensures
        details@ is Object,
        r@ == failed_with_json(message@, details@->Object_0),
{
    let mut out = members_of(error_value(None, message, None));
    let mut rest = members_without(members_without(members_of(details), "ok"), "error");
    let ghost all = members(out@) + members(rest@);
    out.append(&mut rest);
    assert(members(out@) =~= all);
    object(out)
}

/// The text that a command prints once it failed on the way. Who reads it, with
/// the line break that is printed behind it, finds the answer in it.
pub fn print_err_with(message: &str, details: Json) -> (r: String)
    requires
        details is Object,
    ensures
        details@ is Object,
        r@ == pretty_text(failed_with_json(message@, details@->Object_0)),
        proper(details@, MOST_LEVELS as nat) ==> tells(r@, failed_with_json(message@, details@->Object_0)),
{
    proof {
        lemma_holding(details);
        if proper(details@, MOST_LEVELS as nat) {
            lemma_proper_failed_with(message@, details@, MOST_LEVELS as nat);
        }
    }
    render_pretty(&failed_value(message, details))
}

/// The text that a command prints once it failed. Who reads it, with the line
/// break that is printed behind it, finds the answer in it.
pub fn print_err(message: &str, hint: Option<&str>) -> (r: String)
    ensures
        r@ == pretty_text(failed_json(None, message@, shown(hint))),
        tells(r@, failed_json(None, message@, shown(hint))),
{
    proof {
        lemma_proper_failed(None, message@, shown(hint));
    }
    render_pretty(&error_value(None, message, hint))
}

/// The text that a command prints once it failed, with a code that stays the
/// same.
pub fn print_err_coded(code: &str, message: &str, hint: Option<&str>) -> (r: String)
    ensures
        r@ == pretty_text(failed_json(Some(code@), message@, shown(hint))),
        tells(r@, failed_json(Some(code@), message@, shown(hint))),
{
    proof {
        lemma_proper_failed(Some(code@), message@, shown(hint));
    }
    render_pretty(&error_value(Some(code), message, hint))
}

/// A failure is told with its message, and with its code and its hint exactly
/// where there are such, each under its own name.
pub proof fn law_failure_told(code: Option<Seq<char>>, message: Seq<char>, hint: Option<Seq<char>>)
    ensures
        ({
            let e = error_json(code, message, hint);
            let j = failed_json(code, message, hint);
            &&& member(e, "message"@) == Some(JsonView::Text(message))
            &&& member(e, "code"@) == (match code {
                Some(c) => Some(JsonView::Text(c)),
                None => None,
            })
            &&& member(e, "hint"@) == (match hint {
                Some(h) => Some(JsonView::Text(h)),
                None => None,
            })
            &&& member(j, "ok"@) == Some(JsonView::Bool(false))
            &&& member(j, "error"@) == Some(e)
        }),
{
    let m = error_json(code, message, hint)->Object_0;
    let q = failed_json(code, message, hint)->Object_0;
    reveal_strlit("message");
    reveal_strlit("code");
    reveal_strlit("hint");
    reveal_strlit("ok");
    reveal_strlit("error");
    assert("code"@[0] == 'c' && "hint"@[0] == 'h' && "message"@.len() == 7);
    assert(m[0].0 == "message"@);
    let n: int = if code is Some {
        2
    } else {
        1
    };
    if code is Some {
        assert(m[1].0 == "code"@);
    }
    if hint is Some {
        assert(m[n].0 == "hint"@);
    }
    assert(q[0].0 == "ok"@ && q[1].0 == "error"@);
    reveal_with_fuel(member_from, 5);
}

} // verus!
