//! Paths as texts, with `/` between their components.

use crate::text::{chars_of, same, string_of};
use vstd::prelude::*;

verus! {

/// `rest` below `base`; a `rest` that starts at the root stands for itself.
pub open spec fn below(base: Seq<char>, rest: Seq<char>) -> Seq<char> {
    if rest.len() > 0 && rest[0] == '/' {
        rest
    } else if base.len() == 0 || base.last() == '/' {
        base + rest
    } else {
        base.push('/') + rest
    }
}

/// `rest` below `base`; a `rest` that starts at the root stands for itself.
pub fn join_path(base: &str, rest: &str) -> (r: String)
    ensures
        r@ == below(base@, rest@),
{
    let b = chars_of(base);
    let p = chars_of(rest);
    if p.len() > 0 && p[0] == '/' {
        return rest.to_owned();
    }
    let mut out: String = base.to_owned();
    if b.len() > 0 && b[b.len() - 1] != '/' {
        out.push('/');
    }
    out.append(rest);
    out
}

/// The index of the first `/` at or after `i`, or the length.
pub open spec fn component_end(s: Seq<char>, i: int) -> int
    decreases s.len() - i,
{
    if i < 0 || i >= s.len() {
        s.len() as int
    } else if s[i] == '/' {
        i
    } else {
        component_end(s, i + 1)
    }
}

/// Where the components of `s[i..]` start and end. Empty components are left
/// out, and so is `.` but at the very start.
pub open spec fn spans_from(s: Seq<char>, i: int) -> Seq<(int, int)>
    decreases s.len() - i,
{
    if i < 0 || i >= s.len() {
        Seq::empty()
    } else if s[i] == '/' {
        spans_from(s, i + 1)
    } else {
        let end = component_end(s, i);
        if end <= i || end > s.len() {
            Seq::empty()
        } else if i > 0 && end == i + 1 && s[i] == '.' {
            spans_from(s, end)
        } else {
            seq![(i, end)] + spans_from(s, end)
        }
    }
}

/// Where the components of a path start and end; the root is one of them.
pub open spec fn spans(s: Seq<char>) -> Seq<(int, int)> {
    if s.len() > 0 && s[0] == '/' {
        seq![(0int, 1int)] + spans_from(s, 1)
    } else {
        spans_from(s, 0)
    }
}

/// Whether the components of `base` are the first components of `p`.
pub open spec fn leads_to(base: Seq<char>, p: Seq<char>) -> bool {
    let b = spans(base);
    let c = spans(p);
    b.len() <= c.len() && forall|k: int|
        0 <= k < b.len() ==> base.subrange((#[trigger] b[k]).0, b[k].1) == p.subrange(c[k].0, c[k].1)
}

/// `p` seen from `base`: what comes after the components of `base`, or the
/// whole of `p` where it does not lie below.
pub open spec fn seen_from(base: Seq<char>, p: Seq<char>) -> Seq<char> {
    let b = spans(base);
    let c = spans(p);
    if !leads_to(base, p) {
        p
    } else if b.len() == c.len() {
        Seq::empty()
    } else if b.len() == 0 {
        p.take(c.last().1)
    } else {
        p.subrange(c[b.len() as int].0, c.last().1)
    }
}

/// The spans of a vector, as integers.
pub open spec fn ints(v: Seq<(usize, usize)>) -> Seq<(int, int)> {
    v.map_values(|p: (usize, usize)| (p.0 as int, p.1 as int))
}

pub(crate) fn spans_of(s: &Vec<char>) -> (r: Vec<(usize, usize)>)
    ensures
        ints(r@) == spans(s@),
        forall|k: int| 0 <= k < r@.len() ==> (#[trigger] r@[k]).0 <= r@[k].1 <= s@.len(),
        forall|k: int, m: int| 0 <= k <= m < r@.len() ==> (#[trigger] r@[k]).0 <= (#[trigger] r@[m]).1,
{
    let n: usize = s.len();
    let mut out: Vec<(usize, usize)> = Vec::new();
    let mut i: usize = 0;
    assert(ints(out@) =~= Seq::<(int, int)>::empty());
    if n > 0 && s[0] == '/' {
        out.push((0, 1));
        i = 1;
        assert(ints(out@) =~= seq![(0int, 1int)]);
    }
    assert(ints(out@) + spans_from(s@, i as int) =~= spans(s@));
    while i < n
        invariant
            0 <= i <= n == s@.len(),
            ints(out@) + spans_from(s@, i as int) == spans(s@),
            forall|k: int| 0 <= k < out@.len() ==> (#[trigger] out@[k]).0 <= out@[k].1 <= i,
            forall|k: int, m: int| 0 <= k <= m < out@.len() ==> (#[trigger] out@[k]).0 <= (#[trigger] out@[m]).1,
        decreases n - i,
    {
        if s[i] == '/' {
            i = i + 1;
        } else {
            let mut end: usize = i;
            while end < n && s[end] != '/'
                invariant
                    i <= end <= n == s@.len(),
                    component_end(s@, i as int) == component_end(s@, end as int),
                decreases n - end,
            {
                end = end + 1;
            }
            if i > 0 && end == i + 1 && s[i] == '.' {
            } else {
                let ghost before = out@;
                out.push((i, end));
                assert(ints(out@) =~= ints(before).push((i as int, end as int)));
                assert(ints(before) + (seq![(i as int, end as int)] + spans_from(s@, end as int)) =~= ints(out@)
                    + spans_from(s@, end as int));
            }
            i = end;
        }
    }
    assert(ints(out@) + Seq::<(int, int)>::empty() =~= ints(out@));
    out
}

fn same_span(a: &Vec<char>, x: (usize, usize), b: &Vec<char>, y: (usize, usize)) -> (r: bool)
    requires
        x.0 <= x.1 <= a@.len(),
        y.0 <= y.1 <= b@.len(),
    ensures
        r == (a@.subrange(x.0 as int, x.1 as int) == b@.subrange(y.0 as int, y.1 as int)),
{
    let s = string_of(a, x.0, x.1);
    let t = string_of(b, y.0, y.1);
    s == t
}

/// `p` seen from `base`: what comes after the components of `base`, or the
/// whole of `p` where it does not lie below.
pub fn display_path(base: &str, p: &str) -> (r: String)
    ensures
        r@ == seen_from(base@, p@),
{
    let bv = chars_of(base);
    let pv = chars_of(p);
    let b = spans_of(&bv);
    let c = spans_of(&pv);
    assert(ints(b@).len() == b@.len() && ints(c@).len() == c@.len());
    if b.len() > c.len() {
        return p.to_owned();
    }
    let mut k: usize = 0;
    while k < b.len()
        invariant
            0 <= k <= b@.len() <= c@.len(),
            bv@ == base@,
            pv@ == p@,
            ints(b@) == spans(base@),
            ints(c@) == spans(p@),
            forall|j: int| 0 <= j < b@.len() ==> (#[trigger] b@[j]).0 <= b@[j].1 <= bv@.len(),
            forall|j: int| 0 <= j < c@.len() ==> (#[trigger] c@[j]).0 <= c@[j].1 <= pv@.len(),
            forall|j: int|
                0 <= j < k ==> base@.subrange((#[trigger] spans(base@)[j]).0, spans(base@)[j].1) == p@.subrange(
                    spans(p@)[j].0,
                    spans(p@)[j].1,
                ),
        decreases b.len() - k,
    {
        assert(spans(base@)[k as int] == ints(b@)[k as int]);
        assert(spans(p@)[k as int] == ints(c@)[k as int]);
        if !same_span(&bv, b[k], &pv, c[k]) {
            return p.to_owned();
        }
        k = k + 1;
    }
    assert(leads_to(base@, p@));
    if b.len() == c.len() {
        let empty = String::new();
        assert(empty@ =~= Seq::<char>::empty());
        return empty;
    }
    let last: usize = c.len() - 1;
    let end: usize = c[last].1;
    assert(ints(c@)[last as int] == (c@[last as int].0 as int, c@[last as int].1 as int));
    if b.len() == 0 {
        let r = string_of(&pv, 0, end);
        assert(r@ =~= p@.take(end as int));
        r
    } else {
        let start: usize = c[b.len()].0;
        assert(ints(c@)[b@.len() as int] == (c@[b@.len() as int].0 as int, c@[b@.len() as int].1 as int));
        string_of(&pv, start, end)
    }
}

/// Whether one of the components of a path is `name`.
pub open spec fn has_component(p: Seq<char>, name: Seq<char>) -> bool {
    exists|k: int| 0 <= k < spans(p).len() && p.subrange((#[trigger] spans(p)[k]).0, spans(p)[k].1) == name
}

/// Whether the last component of a path is `name`.
pub open spec fn is_named(p: Seq<char>, name: Seq<char>) -> bool {
    spans(p).len() > 0 && p.subrange(spans(p).last().0, spans(p).last().1) == name
}

/// Whether one of the components of a path is `name`.
pub fn contains_component(p: &str, name: &str) -> (r: bool)
    ensures
        r == has_component(p@, name@),
{
    let v = chars_of(p);
    let c = spans_of(&v);
    assert(ints(c@).len() == c@.len());
    let mut k: usize = 0;
    while k < c.len()
        invariant
            0 <= k <= c@.len(),
            v@ == p@,
            ints(c@) == spans(p@),
            forall|j: int| 0 <= j < c@.len() ==> (#[trigger] c@[j]).0 <= c@[j].1 <= v@.len(),
            forall|j: int| 0 <= j < k ==> p@.subrange((#[trigger] spans(p@)[j]).0, spans(p@)[j].1) != name@,
        decreases c.len() - k,
    {
        assert(spans(p@)[k as int] == ints(c@)[k as int]);
        let part = string_of(&v, c[k].0, c[k].1);
        if same(part.as_str(), name) {
            return true;
        }
        k = k + 1;
    }
    assert(spans(p@).len() == c@.len());
    false
}

/// Whether the last component of a path is `name`.
pub fn ends_in(p: &str, name: &str) -> (r: bool)
    ensures
        r == is_named(p@, name@),
{
    let v = chars_of(p);
    let c = spans_of(&v);
    assert(ints(c@).len() == c@.len());
    if c.len() == 0 {
        return false;
    }
    let last: usize = c.len() - 1;
    assert(ints(c@)[last as int] == (c@[last as int].0 as int, c@[last as int].1 as int));
    let part = string_of(&v, c[last].0, c[last].1);
    same(part.as_str(), name)
}

/// A path below another stands behind it, with one slash between them; one that
/// starts at the root stands for itself.
pub proof fn law_below(base: Seq<char>, rest: Seq<char>)
    ensures
        rest.len() > 0 && rest[0] == '/' ==> below(base, rest) == rest,
        rest.len() > 0 && rest[0] != '/' && base.len() > 0 && base.last() != '/' ==> below(base, rest) == base + seq!['/']
            + rest,
        rest.len() > 0 && rest[0] != '/' && base.len() > 0 && base.last() == '/' ==> below(base, rest) == base + rest,
        rest.len() > 0 && rest[0] != '/' ==> below(Seq::empty(), rest) == rest,
{
    assert(base.push('/') + rest =~= base + seq!['/'] + rest);
    assert(Seq::<char>::empty() + rest =~= rest);
}

/// Whether a path begins and ends with a name: not with a slash, nor with a dot
/// for the directory that it lies in.
pub open spec fn plain_path(p: Seq<char>) -> bool {
    &&& p.len() > 0
    &&& p[0] != '/' && p.last() != '/'
    &&& p[0] == '.' ==> p.len() > 1 && p[1] != '/'
    &&& p.last() == '.' ==> p.len() > 1 && p[p.len() - 2] != '/'
}

/// Whether a path ends with a name.
pub open spec fn ends_plainly(p: Seq<char>) -> bool {
    &&& p.len() > 0 && p.last() != '/'
    &&& p.last() == '.' ==> p.len() > 1 && p[p.len() - 2] != '/'
}

proof fn lemma_component_end(s: Seq<char>, i: int)
    requires
        0 <= i <= s.len(),
    ensures
        i <= component_end(s, i) <= s.len(),
        forall|j: int| i <= j < component_end(s, i) ==> #[trigger] s[j] != '/',
        component_end(s, i) < s.len() ==> s[component_end(s, i)] == '/',
    decreases s.len() - i,
{
    if i < s.len() && s[i] != '/' {
        lemma_component_end(s, i + 1);
    }
}

proof fn lemma_component_end_is(s: Seq<char>, i: int, k: int)
    requires
        0 <= i <= k <= s.len(),
        forall|j: int| i <= j < k ==> #[trigger] s[j] != '/',
        k < s.len() ==> s[k] == '/',
    ensures
        component_end(s, i) == k,
    decreases k - i,
{
    if i < k {
        assert(s[i] != '/');
        lemma_component_end_is(s, i + 1, k);
    }
}

proof fn lemma_spans_within(s: Seq<char>, i: int)
    requires
        0 <= i <= s.len(),
    ensures
        forall|k: int|
            0 <= k < spans_from(s, i).len() ==> i <= (#[trigger] spans_from(s, i)[k]).0 < spans_from(s, i)[k].1 <= s.len(),
    decreases s.len() - i,
{
    if i < s.len() {
        if s[i] == '/' {
            lemma_spans_within(s, i + 1);
            let rest = spans_from(s, i + 1);
            assert(spans_from(s, i) == rest);
            assert forall|k: int| 0 <= k < spans_from(s, i).len() implies i <= (#[trigger] spans_from(s, i)[k]).0
                < spans_from(s, i)[k].1 <= s.len() by {
                assert(rest[k].0 >= i + 1);
            }
        } else {
            lemma_component_end(s, i);
            let end = component_end(s, i);
            if end == i {
                assert(s[end] == '/');
            }
            lemma_spans_within(s, end);
            let rest = spans_from(s, end);
            let all = spans_from(s, i);
            assert forall|k: int| 0 <= k < all.len() implies i <= (#[trigger] all[k]).0 < all[k].1 <= s.len() by {
                if all.len() == rest.len() {
                    assert(all[k] == rest[k]);
                } else if k > 0 {
                    assert(all[k] == rest[k - 1]);
                }
            }
        }
    }
}

proof fn lemma_spans_parts(a: Seq<char>, b: Seq<char>, i: int)
    requires
        0 <= i <= a.len(),
        b.len() == 0 || b[0] == '/',
    ensures
        spans_from(a + b, i) == spans_from(a, i) + spans_from(a + b, a.len() as int),
    decreases a.len() - i,
{
    let s = a + b;
    let n = a.len() as int;
    if i < n {
        assert(s[i] == a[i]);
        if a[i] == '/' {
            lemma_spans_parts(a, b, i + 1);
        } else {
            lemma_component_end(a, i);
            let end = component_end(a, i);
            assert forall|j: int| i <= j < end implies #[trigger] s[j] != '/' by {
                assert(s[j] == a[j]);
            }
            lemma_component_end_is(s, i, end);
            lemma_spans_parts(a, b, end);
            let rest = spans_from(a, end);
            let tail = spans_from(s, n);
            assert(seq![(i, end)] + (rest + tail) =~= seq![(i, end)] + rest + tail);
        }
    } else {
        assert(spans_from(a, i) =~= Seq::<(int, int)>::empty());
        assert(Seq::<(int, int)>::empty() + spans_from(s, n) =~= spans_from(s, n));
    }
}

proof fn lemma_spans_whole(a: Seq<char>, b: Seq<char>)
    requires
        a.len() > 0,
        b.len() == 0 || b[0] == '/',
    ensures
        spans(a + b) == spans(a) + spans_from(a + b, a.len() as int),
{
    let s = a + b;
    assert(s[0] == a[0]);
    if a[0] == '/' {
        lemma_spans_parts(a, b, 1);
        let root = seq![(0int, 1int)];
        assert(root + (spans_from(a, 1) + spans_from(s, a.len() as int)) =~= root + spans_from(a, 1) + spans_from(
            s,
            a.len() as int,
        ));
    } else {
        lemma_spans_parts(a, b, 0);
    }
}

proof fn lemma_last_span(s: Seq<char>, i: int)
    requires
        0 <= i < s.len(),
        s.last() != '/',
        s.last() == '.' ==> s.len() > 1 && s[s.len() - 2] != '/' && i < s.len() - 1,
    ensures
        spans_from(s, i).len() > 0,
        spans_from(s, i).last().1 == s.len(),
    decreases s.len() - i,
{
    if s[i] == '/' {
        if s.last() == '.' {
            assert(i != s.len() - 2);
        }
        lemma_last_span(s, i + 1);
    } else {
        lemma_component_end(s, i);
        let end = component_end(s, i);
        if end < s.len() {
            assert(s[end] == '/');
            assert(end != s.len() - 1);
            if s.last() == '.' {
                assert(end != s.len() - 2);
            }
            lemma_last_span(s, end);
        } else {
            assert(spans_from(s, end).len() == 0);
            if end == i + 1 && s[i] == '.' {
                assert(s.last() == s[i]);
            }
        }
    }
}

proof fn lemma_base_within(base: Seq<char>)
    ensures
        forall|k: int| 0 <= k < spans(base).len() ==> 0 <= (#[trigger] spans(base)[k]).0 < spans(base)[k].1 <= base.len(),
{
    if base.len() > 0 && base[0] == '/' {
        lemma_spans_within(base, 1);
        let r = spans_from(base, 1);
        assert forall|k: int| 0 <= k < spans(base).len() implies 0 <= (#[trigger] spans(base)[k]).0 < spans(base)[k].1
            <= base.len() by {
            if k > 0 {
                assert(spans(base)[k] == r[k - 1]);
            }
        }
    } else {
        lemma_spans_within(base, 0);
    }
}

proof fn lemma_first_span(s: Seq<char>, i: int)
    requires
        0 < i < s.len(),
        s[i] != '/',
        s[i] == '.' ==> i + 1 < s.len() && s[i + 1] != '/',
    ensures
        spans_from(s, i).len() > 0,
        spans_from(s, i)[0].0 == i,
{
    lemma_component_end(s, i);
    let end = component_end(s, i);
    if s[i] == '.' {
        assert(component_end(s, i) == component_end(s, i + 1));
        assert(component_end(s, i + 1) == component_end(s, i + 2));
        lemma_component_end(s, i + 2);
    }
    assert(end > i);
}

/// What lies below a directory is seen from it as it was put below it.
pub proof fn law_seen_from(base: Seq<char>, rest: Seq<char>)
    requires
        base.len() > 0 && base.last() != '/',
        spans(base).len() > 0,
        plain_path(rest),
    ensures
        seen_from(base, below(base, rest)) == rest,
{
    let tail = seq!['/'] + rest;
    let p = base + tail;
    let n = base.len() as int;
    assert(below(base, rest) =~= p);
    lemma_spans_whole(base, tail);
    let b = spans(base);
    let c = spans(p);
    assert(p[n] == '/');
    assert(p[n + 1] == rest[0]);
    assert(spans_from(p, n) == spans_from(p, n + 1));
    if rest[0] == '.' {
        assert(p[n + 2] == rest[1]);
    }
    lemma_first_span(p, n + 1);
    assert(p.last() == rest.last());
    if rest.last() == '.' {
        assert(p[p.len() - 2] == rest[rest.len() - 2]);
    }
    lemma_last_span(p, n + 1);
    let more = spans_from(p, n + 1);
    assert(c == b + more);
    assert(c[b.len() as int] == more[0]);
    assert(c.last() == more.last());
    lemma_base_within(base);
    assert forall|k: int| 0 <= k < b.len() implies base.subrange((#[trigger] b[k]).0, b[k].1) == p.subrange(
        c[k].0,
        c[k].1,
    ) by {
        assert(c[k] == b[k]);
        assert(base.subrange(b[k].0, b[k].1) =~= p.subrange(b[k].0, b[k].1));
    }
    assert(p.subrange(n + 1, p.len() as int) =~= rest);
}

/// A directory is seen from itself as nothing, and what begins with another name
/// is seen as it is.
pub proof fn law_seen_elsewhere(base: Seq<char>, p: Seq<char>)
    ensures
        seen_from(base, base) == Seq::<char>::empty(),
        spans(base).len() > 0 && spans(p).len() > 0 && base.subrange(spans(base)[0].0, spans(base)[0].1) != p.subrange(
            spans(p)[0].0,
            spans(p)[0].1,
        ) ==> seen_from(base, p) == p,
        spans(base).len() > spans(p).len() ==> seen_from(base, p) == p,
{
}

/// A name is a component of a path where it stands between two slashes, or a
/// slash and an end; the path is named by its last.
pub proof fn law_components(before: Seq<char>, name: Seq<char>, after: Seq<char>)
    requires
        name.len() > 0,
        forall|i: int| 0 <= i < name.len() ==> #[trigger] name[i] != '/',
        name != seq!['.'],
        before.len() > 0 && before.last() == '/',
        after.len() == 0 || after[0] == '/',
    ensures
        has_component(before + name + after, name),
        is_named(before + name, name),
        has_component(name, name),
        is_named(name, name),
{
    lemma_component_at(before, name, after);
    lemma_component_at(before, name, Seq::empty());
    assert(before + name + Seq::<char>::empty() =~= before + name);
    lemma_component_end_is(name, 0, name.len() as int);
    assert(name[0] != '/');
    let one = spans(name);
    assert(spans_from(name, name.len() as int).len() == 0);
    assert(one =~= seq![(0int, name.len() as int)]);
    assert(one[0] == (0int, name.len() as int));
    assert(name.subrange(0, name.len() as int) =~= name);
}

proof fn lemma_component_at(before: Seq<char>, name: Seq<char>, after: Seq<char>)
    requires
        name.len() > 0,
        forall|i: int| 0 <= i < name.len() ==> #[trigger] name[i] != '/',
        name != seq!['.'],
        before.len() > 0 && before.last() == '/',
        after.len() == 0 || after[0] == '/',
    ensures
        has_component(before + name + after, name),
        after.len() == 0 ==> is_named(before + name + after, name),
{
    let p = before + name + after;
    let n = before.len() as int;
    let end = n + name.len();
    let head = before.drop_last();
    let tail = seq!['/'] + name + after;
    assert(p =~= head + tail);
    assert forall|j: int| n <= j < end implies #[trigger] p[j] != '/' by {
        assert(p[j] == name[j - n]);
    }
    lemma_component_end_is(p, n, end);
    assert(p[n] == name[0]);
    if end == n + 1 && p[n] == '.' {
        assert(name =~= seq!['.']);
    }
    let rest = spans_from(p, end);
    let from = spans_from(p, n);
    assert(from == seq![(n, end)] + rest);
    assert(p.subrange(n, end) =~= name);
    assert(p[n - 1] == '/');
    assert(spans_from(p, n - 1) == from);
    let s = spans(p);
    if head.len() == 0 {
        assert(p[0] == '/');
        assert(n == 1);
        assert(s == seq![(0int, 1int)] + from);
        assert(s[1] == (n, end));
    } else {
        lemma_spans_whole(head, tail);
        assert(s == spans(head) + from);
        assert(s[spans(head).len() as int] == (n, end));
    }
    if after.len() == 0 {
        assert(rest.len() == 0);
        assert(s.last() == (n, end));
    }
}

/// Whether a part of a path stands between slashes, or a slash and an end, and
/// has none in it.
pub open spec fn stands_alone(p: Seq<char>, a: int, b: int) -> bool {
    &&& 0 <= a < b <= p.len()
    &&& a == 0 || p[a - 1] == '/'
    &&& b == p.len() || p[b] == '/'
    &&& forall|j: int| a <= j < b ==> #[trigger] p[j] != '/'
}

proof fn lemma_spans_stand_alone(s: Seq<char>, i: int)
    requires
        0 <= i <= s.len(),
        i == 0 || i == s.len() || s[i] == '/' || s[i - 1] == '/',
    ensures
        forall|k: int|
            0 <= k < spans_from(s, i).len() ==> stands_alone(
                s,
                (#[trigger] spans_from(s, i)[k]).0,
                spans_from(s, i)[k].1,
            ),
    decreases s.len() - i,
{
    if i < s.len() {
        let all = spans_from(s, i);
        if s[i] == '/' {
            lemma_spans_stand_alone(s, i + 1);
            assert(all == spans_from(s, i + 1));
        } else {
            lemma_component_end(s, i);
            let end = component_end(s, i);
            if end == i {
                assert(s[end] == '/');
            }
            lemma_spans_stand_alone(s, end);
            let rest = spans_from(s, end);
            assert forall|k: int| 0 <= k < all.len() implies stands_alone(s, (#[trigger] all[k]).0, all[k].1) by {
                if all.len() == rest.len() {
                    assert(all[k] == rest[k]);
                } else if k > 0 {
                    assert(all[k] == rest[k - 1]);
                }
            }
        }
    }
}

/// A name is a component of a path only where it stands by itself in it, and the
/// path is named by it only where it stands in it.
pub proof fn law_components_stand_alone(p: Seq<char>, name: Seq<char>)
    requires
        name != seq!['/'],
    ensures
        has_component(p, name) ==> exists|a: int|
            #[trigger] stands_alone(p, a, a + name.len()) && p.subrange(a, a + name.len()) == name,
        is_named(p, name) ==> has_component(p, name),
{
    if has_component(p, name) {
        let k = choose|k: int|
            0 <= k < spans(p).len() && p.subrange((#[trigger] spans(p)[k]).0, spans(p)[k].1) == name;
        let (a, b) = spans(p)[k];
        lemma_base_within(p);
        if p.len() > 0 && p[0] == '/' {
            lemma_spans_stand_alone(p, 1);
            if k == 0 {
                assert(p.subrange(0, 1) =~= seq!['/']);
            } else {
                assert(spans(p)[k] == spans_from(p, 1)[k - 1]);
            }
        } else {
            lemma_spans_stand_alone(p, 0);
        }
        assert(b == a + name.len());
        assert(stands_alone(p, a, a + name.len()));
    }
    if is_named(p, name) {
        let k = spans(p).len() - 1;
        assert(p.subrange(spans(p)[k].0, spans(p)[k].1) == name);
    }
}

/// The components of a path in a directory are those of the directory, and its
/// name.
pub(crate) proof fn lemma_spans_of_file(dir: Seq<char>, name: Seq<char>)
    requires
        ends_plainly(dir),
        name.len() > 0,
        forall|i: int| 0 <= i < name.len() ==> #[trigger] name[i] != '/',
        name != seq!['.'],
    ensures
        spans(dir.push('/') + name) == spans(dir).push(
            ((dir.len() + 1) as int, (dir.len() + 1 + name.len()) as int),
        ),
        spans(dir).len() > 0,
        spans(dir).last().1 == dir.len(),
{
    let tail = seq!['/'] + name;
    let p = dir + tail;
    let n = dir.len() as int;
    let end = n + 1 + name.len();
    assert(dir.push('/') + name =~= p);
    lemma_spans_whole(dir, tail);
    assert(p[n] == '/');
    assert(spans_from(p, n) == spans_from(p, n + 1));
    assert forall|j: int| n + 1 <= j < end implies #[trigger] p[j] != '/' by {
        assert(p[j] == name[j - n - 1]);
    }
    lemma_component_end_is(p, n + 1, end);
    assert(p[n + 1] == name[0]);
    if end == n + 2 && p[n + 1] == '.' {
        assert(name =~= seq!['.']);
    }
    assert(spans_from(p, end).len() == 0);
    assert(spans_from(p, n + 1) =~= seq![(n + 1, end)]);
    assert(spans(dir) + seq![(n + 1, end)] =~= spans(dir).push((n + 1, end)));
    if dir[0] == '/' {
        if dir.len() > 1 {
            if dir.last() == '.' {
                assert(dir.len() > 2);
            }
            lemma_last_span(dir, 1);
        }
    } else {
        if dir.len() == 1 {
            lemma_component_end_is(dir, 0, 1);
            assert(spans_from(dir, 1).len() == 0);
            assert(spans(dir) =~= seq![(0int, 1int)]);
        } else {
            lemma_last_span(dir, 0);
        }
    }
}

/// The components of a name are the name alone.
pub(crate) proof fn lemma_spans_of_name(name: Seq<char>)
    requires
        name.len() > 0,
        forall|i: int| 0 <= i < name.len() ==> #[trigger] name[i] != '/',
    ensures
        spans(name) == seq![(0int, name.len() as int)],
{
    lemma_component_end_is(name, 0, name.len() as int);
    assert(name[0] != '/');
    assert(spans_from(name, name.len() as int).len() == 0);
    assert(spans(name) =~= seq![(0int, name.len() as int)]);
}

} // verus!
