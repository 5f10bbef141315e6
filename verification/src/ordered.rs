//! Lexicographic order on texts and on paths, and lists kept in that order.

use crate::text::{chars_of, views};
use vstd::prelude::*;

verus! {

/// The code point of each character.
pub open spec fn codes(s: Seq<char>) -> Seq<int> {
    s.map_values(|c: char| c as int)
}

/// As `codes`, with `/` below every other character: paths in the order of
/// these keys are in the order of their components.
pub open spec fn path_codes(s: Seq<char>) -> Seq<int> {
    s.map_values(|c: char| path_code(c))
}

pub open spec fn path_code(c: char) -> int {
    if c == '/' {
        -1
    } else {
        c as int
    }
}

/// Strict lexicographic order.
pub open spec fn before(a: Seq<int>, b: Seq<int>) -> bool
    decreases a.len(),
{
    if b.len() == 0 {
        false
    } else if a.len() == 0 {
        true
    } else {
        a[0] < b[0] || (a[0] == b[0] && before(a.skip(1), b.skip(1)))
    }
}

pub proof fn lemma_before_irreflexive(a: Seq<int>)
    ensures
        !before(a, a),
    decreases a.len(),
{
    if a.len() > 0 {
        lemma_before_irreflexive(a.skip(1));
    }
}

pub proof fn lemma_before_transitive(a: Seq<int>, b: Seq<int>, c: Seq<int>)
    requires
        before(a, b),
        before(b, c),
    ensures
        before(a, c),
    decreases a.len(),
{
    if a.len() > 0 && a[0] == b[0] && b[0] == c[0] {
        lemma_before_transitive(a.skip(1), b.skip(1), c.skip(1));
    }
}

pub proof fn lemma_before_total(a: Seq<int>, b: Seq<int>)
    requires
        !before(a, b),
        !before(b, a),
    ensures
        a == b,
    decreases a.len(),
{
    if a.len() > 0 {
        lemma_before_total(a.skip(1), b.skip(1));
        assert forall|i: int| 0 <= i < a.len() implies a[i] == b[i] by {
            if i > 0 {
                assert(a.skip(1)[i - 1] == b.skip(1)[i - 1]);
            }
        }
        assert(a.len() == a.skip(1).len() + 1);
        assert(b.len() == b.skip(1).len() + 1);
        assert(a =~= b);
    } else {
        assert(a =~= b);
    }
}

/// Texts with the same code points are the same.
pub proof fn lemma_codes_injective(a: Seq<char>, b: Seq<char>)
    requires
        codes(a) == codes(b),
    ensures
        a == b,
{
    assert(a.len() == codes(a).len() && b.len() == codes(b).len());
    assert forall|i: int| 0 <= i < a.len() implies a[i] == b[i] by {
        assert(codes(a)[i] == a[i] as int && codes(b)[i] == b[i] as int);
    }
    assert(a =~= b);
}

/// Each text of the list comes before all that follow it.
pub open spec fn ascending(s: Seq<Seq<char>>) -> bool {
    forall|i: int, j: int| 0 <= i < j < s.len() ==> #[trigger] before(codes(s[i]), codes(s[j]))
}

/// Two ascending lists of the same texts are the same list.
pub proof fn lemma_ascending_unique(s: Seq<Seq<char>>, t: Seq<Seq<char>>)
    requires
        ascending(s),
        ascending(t),
        forall|x: Seq<char>| s.contains(x) <==> t.contains(x),
    ensures
        s == t,
    decreases s.len(),
{
    if s.len() == 0 {
        if t.len() > 0 {
            assert(t.contains(t[0]));
            assert(s.contains(t[0]));
        }
        assert(s =~= t);
    } else {
        assert(s.contains(s[0]));
        assert(t.contains(s[0]));
        let j = choose|j: int| 0 <= j < t.len() && t[j] == s[0];
        assert(t.contains(t[0]));
        assert(s.contains(t[0]));
        let k = choose|k: int| 0 <= k < s.len() && s[k] == t[0];
        if j > 0 {
            assert(before(codes(t[0]), codes(t[j])));
            if k > 0 {
                assert(before(codes(s[0]), codes(s[k])));
                lemma_before_transitive(codes(s[0]), codes(t[0]), codes(s[0]));
            }
            lemma_before_irreflexive(codes(s[0]));
        }
        assert(s[0] == t[0]);
        let s1 = s.skip(1);
        let t1 = t.skip(1);
        assert(ascending(s1)) by {
            assert forall|a: int, b: int| 0 <= a < b < s1.len() implies #[trigger] before(codes(s1[a]), codes(s1[b])) by {
                assert(before(codes(s[a + 1]), codes(s[b + 1])));
            }
        }
        assert(ascending(t1)) by {
            assert forall|a: int, b: int| 0 <= a < b < t1.len() implies #[trigger] before(codes(t1[a]), codes(t1[b])) by {
                assert(before(codes(t[a + 1]), codes(t[b + 1])));
            }
        }
        assert forall|x: Seq<char>| s1.contains(x) <==> t1.contains(x) by {
            lemma_ascending_tail(s, x);
            lemma_ascending_tail(t, x);
        }
        lemma_ascending_unique(s1, t1);
        assert(s =~= seq![s[0]] + s1);
        assert(t =~= seq![t[0]] + t1);
    }
}

proof fn lemma_ascending_tail(s: Seq<Seq<char>>, x: Seq<char>)
    requires
        ascending(s),
        s.len() > 0,
    ensures
        s.skip(1).contains(x) <==> (s.contains(x) && x != s[0]),
{
    if s.skip(1).contains(x) {
        let i = choose|i: int| 0 <= i < s.skip(1).len() && s.skip(1)[i] == x;
        assert(s[i + 1] == x);
        assert(before(codes(s[0]), codes(s[i + 1])));
        lemma_before_irreflexive(codes(x));
    }
    if s.contains(x) && x != s[0] {
        let i = choose|i: int| 0 <= i < s.len() && s[i] == x;
        assert(s.skip(1)[i - 1] == x);
    }
}

/// Whether `a` comes before `b`, and whether both are the same.
fn chars_before(a: &Vec<char>, b: &Vec<char>) -> (r: bool)
    ensures
        r == before(codes(a@), codes(b@)),
{
    let mut i: usize = 0;
    proof {
        assert(codes(a@).skip(0) =~= codes(a@));
        assert(codes(b@).skip(0) =~= codes(b@));
    }
    while i < a.len() && i < b.len()
        invariant
            0 <= i <= a@.len(),
            i <= b@.len(),
            before(codes(a@), codes(b@)) == before(codes(a@).skip(i as int), codes(b@).skip(i as int)),
        decreases a.len() - i,
    {
        let ghost ca = codes(a@).skip(i as int);
        let ghost cb = codes(b@).skip(i as int);
        assert(ca[0] == a@[i as int] as int);
        assert(cb[0] == b@[i as int] as int);
        if a[i] != b[i] {
            return a[i] < b[i];
        }
        assert(ca.skip(1) =~= codes(a@).skip(i + 1));
        assert(cb.skip(1) =~= codes(b@).skip(i + 1));
        i = i + 1;
    }
    assert(codes(a@).skip(i as int).len() == a@.len() - i);
    assert(codes(b@).skip(i as int).len() == b@.len() - i);
    i < b.len()
}

/// Whether `a` comes before `b` in the order of strings.
pub fn text_before(a: &str, b: &str) -> (r: bool)
    ensures
        r == before(codes(a@), codes(b@)),
{
    let av = chars_of(a);
    let bv = chars_of(b);
    chars_before(&av, &bv)
}

/// Adds `x` to an ascending list that may already hold it.
pub fn insert_ascending(v: &mut Vec<String>, x: String)
    requires
        ascending(views(old(v)@)),
    ensures
        ascending(views(final(v)@)),
        forall|y: Seq<char>| views(final(v)@).contains(y) <==> views(old(v)@).contains(y) || y == x@,
{
    let ghost s = views(v@);
    let mut i: usize = 0;
    while i < v.len() && text_before(v[i].as_str(), x.as_str())
        invariant
            0 <= i <= v@.len(),
            *v == *old(v),
            s == views(v@),
            forall|k: int| 0 <= k < i ==> #[trigger] before(codes(s[k]), codes(x@)),
        decreases v.len() - i,
    {
        i = i + 1;
    }
    if i < v.len() && !text_before(x.as_str(), v[i].as_str()) {
        proof {
            lemma_before_total(codes(s[i as int]), codes(x@));
            lemma_codes_injective(s[i as int], x@);
            assert(s.contains(x@));
        }
        return ;
    }
    proof {
        assert forall|k: int| i <= k < s.len() implies #[trigger] before(codes(x@), codes(s[k])) by {
            if k > i {
                assert(before(codes(s[i as int]), codes(s[k])));
                lemma_before_transitive(codes(x@), codes(s[i as int]), codes(s[k]));
            }
        }
    }
    let ghost xs = x@;
    v.insert(i, x);
    let ghost t = views(v@);
    assert(t =~= s.insert(i as int, xs));
    assert forall|a: int, b: int| 0 <= a < b < t.len() implies #[trigger] before(codes(t[a]), codes(t[b])) by {
        let a0 = if a < i { a } else { a - 1 };
        let b0 = if b < i { b } else { b - 1 };
        if a != i && b != i {
            assert(before(codes(s[a0]), codes(s[b0])));
        } else if a == i {
            assert(before(codes(xs), codes(s[b0])));
        } else {
            assert(before(codes(s[a0]), codes(xs)));
        }
    }
    assert forall|y: Seq<char>| t.contains(y) <==> s.contains(y) || y == xs by {
        if t.contains(y) {
            let k = choose|k: int| 0 <= k < t.len() && t[k] == y;
            if k < i {
                assert(s[k] == y);
            } else if k > i {
                assert(s[k - 1] == y);
            }
        }
        if s.contains(y) {
            let k = choose|k: int| 0 <= k < s.len() && s[k] == y;
            if k < i {
                assert(t[k] == y);
            } else {
                assert(t[k + 1] == y);
            }
        }
        if y == xs {
            assert(t[i as int] == y);
        }
    }
}

/// No path of the list comes before one that stands ahead of it.
pub open spec fn in_path_order(s: Seq<Seq<char>>) -> bool {
    forall|i: int, j: int| 0 <= i < j < s.len() ==> !#[trigger] before(path_codes(s[j]), path_codes(s[i]))
}

fn path_code_of(c: char) -> (r: i64)
    ensures
        r == path_code(c),
{
    if c == '/' {
        -1
    } else {
        c as u32 as i64
    }
}

/// Whether the path `a` comes before the path `b`, component by component.
pub fn path_before(a: &str, b: &str) -> (r: bool)
    ensures
        r == before(path_codes(a@), path_codes(b@)),
{
    let av = chars_of(a);
    let bv = chars_of(b);
    let ghost pa = path_codes(a@);
    let ghost pb = path_codes(b@);
    let mut i: usize = 0;
    assert(pa.skip(0) =~= pa);
    assert(pb.skip(0) =~= pb);
    while i < av.len() && i < bv.len()
        invariant
            0 <= i <= av@.len(),
            i <= bv@.len(),
            av@ == a@,
            bv@ == b@,
            pa == path_codes(a@),
            pb == path_codes(b@),
            before(pa, pb) == before(pa.skip(i as int), pb.skip(i as int)),
        decreases av.len() - i,
    {
        let x = path_code_of(av[i]);
        let y = path_code_of(bv[i]);
        assert(pa.skip(i as int)[0] == x);
        assert(pb.skip(i as int)[0] == y);
        if x != y {
            return x < y;
        }
        assert(pa.skip(i as int).skip(1) =~= pa.skip(i + 1));
        assert(pb.skip(i as int).skip(1) =~= pb.skip(i + 1));
        i = i + 1;
    }
    assert(pa.skip(i as int).len() == av@.len() - i);
    assert(pb.skip(i as int).len() == bv@.len() - i);
    i < bv.len()
}

/// Puts a path into a list in path order, after those that it does not come
/// before.
fn insert_path(v: &mut Vec<String>, x: String)
    requires
        in_path_order(views(old(v)@)),
    ensures
        in_path_order(views(final(v)@)),
        views(final(v)@).to_multiset() == views(old(v)@).to_multiset().insert(x@),
{
    let ghost s = views(v@);
    let mut i: usize = v.len();
    while i > 0 && path_before(x.as_str(), v[i - 1].as_str())
        invariant
            0 <= i <= v@.len(),
            *v == *old(v),
            s == views(v@),
            forall|k: int| i <= k < s.len() ==> #[trigger] before(path_codes(x@), path_codes(s[k])),
        decreases i,
    {
        i = i - 1;
    }
    let ghost xs = x@;
    proof {
        if i > 0 {
            assert(s[i - 1] == v@[i - 1]@);
        }
        assert forall|k: int| 0 <= k < i implies !#[trigger] before(path_codes(xs), path_codes(s[k])) by {
            if k < i - 1 {
                assert(!before(path_codes(s[i - 1]), path_codes(s[k])));
                if before(path_codes(xs), path_codes(s[k])) {
                    lemma_not_before(path_codes(xs), path_codes(s[k]), path_codes(s[i - 1]));
                }
            }
        }
    }
    v.insert(i, x);
    let ghost t = views(v@);
    assert(t =~= s.insert(i as int, xs));
    assert forall|a: int, b: int| 0 <= a < b < t.len() implies !#[trigger] before(path_codes(t[b]), path_codes(t[a])) by {
        let a0 = if a < i { a } else { a - 1 };
        let b0 = if b < i { b } else { b - 1 };
        if a != i && b != i {
            assert(!before(path_codes(s[b0]), path_codes(s[a0])));
        } else if b == i {
            assert(!before(path_codes(xs), path_codes(s[a0])));
        } else {
            assert(before(path_codes(xs), path_codes(s[b0])));
            if before(path_codes(s[b0]), path_codes(xs)) {
                lemma_before_transitive(path_codes(xs), path_codes(s[b0]), path_codes(xs));
                lemma_before_irreflexive(path_codes(xs));
            }
        }
    }
    proof {
        s.insert_ensures(i as int, xs);
        s.to_multiset_ensures();
        t.to_multiset_ensures();
        assert(s.insert(i as int, xs).to_multiset() =~= s.to_multiset().insert(xs)) by {
            vstd::seq_lib::to_multiset_insert(s, i as int, xs);
        }
    }
}

/// What comes before `b` also comes before all that `b` does not come after.
proof fn lemma_not_before(x: Seq<int>, b: Seq<int>, c: Seq<int>)
    requires
        before(x, b),
        !before(c, b),
    ensures
        before(x, c),
{
    if !before(b, c) {
        lemma_before_total(b, c);
    } else {
        lemma_before_transitive(x, b, c);
    }
}

/// The paths in path order.
pub fn sort_paths(v: Vec<String>) -> (r: Vec<String>)
    ensures
        in_path_order(views(r@)),
        views(r@).to_multiset() == views(v@).to_multiset(),
{
    let mut out: Vec<String> = Vec::new();
    let mut i: usize = 0;
    assert(views(out@) =~= views(v@).take(0));
    while i < v.len()
        invariant
            0 <= i <= v@.len(),
            in_path_order(views(out@)),
            views(out@).to_multiset() == views(v@).take(i as int).to_multiset(),
        decreases v.len() - i,
    {
        let ghost done = views(v@).take(i as int);
        insert_path(&mut out, v[i].clone());
        proof {
            done.to_multiset_ensures();
            assert(views(v@).take(i + 1) =~= done.push(v@[i as int]@));
        }
        i = i + 1;
    }
    assert(views(v@).take(v@.len() as int) =~= views(v@));
    out
}

/// One list comes before another exactly where they agree up to some place, and
/// there the one ends or has the lesser number.
pub proof fn law_before(a: Seq<int>, b: Seq<int>)
    ensures
        before(a, b) <==> exists|n: int| differ_at(a, b, n),
    decreases a.len(),
{
    if b.len() > 0 && a.len() == 0 {
        assert(differ_at(a, b, 0));
    }
    if b.len() > 0 && a.len() > 0 {
        let c = a.skip(1);
        let d = b.skip(1);
        law_before(c, d);
        if a[0] < b[0] {
            assert(differ_at(a, b, 0));
        }
        if a[0] == b[0] && before(c, d) {
            let n = choose|n: int| differ_at(c, d, n);
            assert forall|k: int| 0 <= k < n + 1 implies #[trigger] a[k] == b[k] by {
                if k > 0 {
                    assert(c[k - 1] == d[k - 1]);
                }
            }
            if n < c.len() {
                assert(c[n] == a[n + 1] && d[n] == b[n + 1]);
            }
            assert(differ_at(a, b, n + 1));
        }
        if exists|n: int| differ_at(a, b, n) {
            let n = choose|n: int| differ_at(a, b, n);
            if n > 0 {
                assert(a[0] == b[0]);
                assert forall|k: int| 0 <= k < n - 1 implies #[trigger] c[k] == d[k] by {
                    assert(a[k + 1] == b[k + 1]);
                }
                assert(differ_at(c, d, n - 1));
            }
        }
    }
}

/// Whether two lists agree up to a place, where the first ends or has the
/// lesser number.
pub open spec fn differ_at(a: Seq<int>, b: Seq<int>, n: int) -> bool {
    0 <= n <= a.len() && n < b.len() && (n == a.len() || a[n] < b[n]) && forall|k: int|
        0 <= k < n ==> #[trigger] a[k] == b[k]
}

/// The ascending list with a text more.
proof fn lemma_inserted(s: Seq<Seq<char>>, x: Seq<char>) -> (t: Seq<Seq<char>>)
    requires
        ascending(s),
    ensures
        ascending(t),
        forall|y: Seq<char>| #[trigger] t.contains(y) <==> s.contains(y) || y == x,
    decreases s.len(),
{
    if s.contains(x) {
        s
    } else if s.len() == 0 {
        let t = seq![x];
        assert(t[0] == x);
        t
    } else {
        let last = s.last();
        let less = s.drop_last();
        assert(ascending(less)) by {
            assert forall|i: int, j: int| 0 <= i < j < less.len() implies #[trigger] before(codes(less[i]), codes(less[j])) by {
                assert(before(codes(s[i]), codes(s[j])));
            }
        }
        if before(codes(last), codes(x)) {
            let t = s.push(x);
            assert forall|i: int, j: int| 0 <= i < j < t.len() implies #[trigger] before(codes(t[i]), codes(t[j])) by {
                if j < s.len() {
                    assert(before(codes(s[i]), codes(s[j])));
                } else if i < s.len() - 1 {
                    assert(before(codes(s[i]), codes(s[s.len() - 1])));
                    lemma_before_transitive(codes(s[i]), codes(last), codes(x));
                }
            }
            assert forall|y: Seq<char>| #[trigger] t.contains(y) <==> s.contains(y) || y == x by {
                if s.contains(y) {
                    let k = choose|k: int| 0 <= k < s.len() && s[k] == y;
                    assert(t[k] == y);
                }
                assert(t[s.len() as int] == x);
                if t.contains(y) {
                    let k = choose|k: int| 0 <= k < t.len() && t[k] == y;
                    if k < s.len() {
                        assert(s[k] == y);
                    }
                }
            }
            t
        } else {
            let u = lemma_inserted(less, x);
            let t = u.push(last);
            assert(before(codes(x), codes(last))) by {
                if !before(codes(x), codes(last)) {
                    lemma_before_total(codes(x), codes(last));
                    lemma_codes_injective(x, last);
                    assert(s[s.len() - 1] == x);
                }
            }
            assert forall|i: int, j: int| 0 <= i < j < t.len() implies #[trigger] before(codes(t[i]), codes(t[j])) by {
                if j < u.len() {
                    assert(before(codes(u[i]), codes(u[j])));
                } else {
                    assert(u.contains(u[i]));
                    if u[i] != x {
                        let k = choose|k: int| 0 <= k < less.len() && less[k] == u[i];
                        assert(before(codes(s[k]), codes(s[s.len() - 1])));
                    }
                }
            }
            assert forall|y: Seq<char>| #[trigger] t.contains(y) <==> s.contains(y) || y == x by {
                assert(t[u.len() as int] == last);
                assert(s[s.len() - 1] == last);
                if t.contains(y) {
                    let k = choose|k: int| 0 <= k < t.len() && t[k] == y;
                    if k < u.len() {
                        assert(u[k] == y);
                        assert(u.contains(y));
                        if y != x {
                            let q = choose|q: int| 0 <= q < less.len() && less[q] == y;
                            assert(s[q] == y);
                        }
                    }
                }
                if s.contains(y) || y == x {
                    if y != last {
                        if y != x {
                            let q = choose|q: int| 0 <= q < s.len() && s[q] == y;
                            assert(less[q] == y);
                        }
                        assert(u.contains(y));
                        let k = choose|k: int| 0 <= k < u.len() && u[k] == y;
                        assert(t[k] == y);
                    }
                }
            }
            t
        }
    }
}

/// The texts of a list that are to be kept can be put in order.
pub proof fn lemma_sorted(c: Seq<Seq<char>>, keep: spec_fn(Seq<char>) -> bool) -> (t: Seq<Seq<char>>)
    ensures
        ascending(t),
        forall|y: Seq<char>| #[trigger] t.contains(y) <==> c.contains(y) && keep(y),
    decreases c.len(),
{
    if c.len() == 0 {
        Seq::empty()
    } else {
        let less = c.drop_last();
        let u = lemma_sorted(less, keep);
        let t = if keep(c.last()) {
            lemma_inserted(u, c.last())
        } else {
            u
        };
        assert forall|y: Seq<char>| #[trigger] t.contains(y) <==> c.contains(y) && keep(y) by {
            assert(u.contains(y) <==> less.contains(y) && keep(y));
            if less.contains(y) {
                let k = choose|k: int| 0 <= k < less.len() && less[k] == y;
                assert(c[k] == y);
            }
            if c.contains(y) && y != c.last() {
                let k = choose|k: int| 0 <= k < c.len() && c[k] == y;
                assert(less[k] == y);
            }
            assert(c[c.len() - 1] == c.last());
        }
        t
    }
}

/// Paths are ordered component by component: what lies in a directory comes
/// before what has a longer name that begins like the directory's.
pub proof fn law_path_order(dir: Seq<char>, x: Seq<char>, c: char, y: Seq<char>, d: char)
    requires
        c != '/',
        d != '/',
    ensures
        before(path_codes(dir.push('/') + x), path_codes(dir.push(c) + y)),
        before(path_codes(dir), path_codes(dir.push(c) + y)),
        c < d ==> before(path_codes(dir.push(c) + x), path_codes(dir.push(d) + y)),
{
    let n = dir.len() as int;
    let a = path_codes(dir.push('/') + x);
    let b = path_codes(dir.push(c) + y);
    let e = path_codes(dir);
    let f = path_codes(dir.push(c) + x);
    let g = path_codes(dir.push(d) + y);
    assert(differ_at(a, b, n));
    law_before(a, b);
    assert(differ_at(e, b, n));
    law_before(e, b);
    if c < d {
        assert(differ_at(f, g, n));
        law_before(f, g);
    }
}

} // verus!
