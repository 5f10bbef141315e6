//! The blank lines between the entries of a written manifest.

use crate::text::{begins, chars_of, ends, ends_with, same, starts_with, views};
use vstd::prelude::*;

verus! {

/// The lines, each with its break behind it.
pub open spec fn unspaced(v: Seq<Seq<char>>) -> Seq<char>
    decreases v.len(),
{
    if v.len() == 0 {
        Seq::empty()
    } else {
        unspaced(v.drop_last()) + v.last().push('\n')
    }
}

/// The lines, each with its break behind it, with a blank line before each that
/// is marked.
pub open spec fn laid_out(v: Seq<Seq<char>>, marks: Seq<bool>) -> Seq<char>
    decreases v.len(),
{
    if v.len() == 0 {
        Seq::empty()
    } else {
        let before = laid_out(v.drop_last(), marks.drop_last());
        (if marks.last() {
            before.push('\n')
        } else {
            before
        }) + v.last().push('\n')
    }
}

/// Lines with blank lines before those that are marked, and the rest of a text
/// behind them.
pub open spec fn spaced_text(v: Seq<Seq<char>>, marks: Seq<bool>, rest: Seq<char>) -> Seq<char> {
    laid_out(v, marks) + rest
}

/// The lines of a text that end in a break, and what comes after the last.
pub open spec fn cut_lines(s: Seq<char>) -> (Seq<Seq<char>>, Seq<char>)
    decreases s.len(),
{
    if s.len() == 0 {
        (Seq::empty(), Seq::empty())
    } else {
        let (v, rest) = cut_lines(s.drop_last());
        if s.last() == '\n' {
            (v.push(rest), Seq::empty())
        } else {
            (v, rest.push(s.last()))
        }
    }
}

/// A text is its lines and what comes after them.
pub proof fn lemma_cut_lines(s: Seq<char>)
    ensures
        s == unspaced(cut_lines(s).0) + cut_lines(s).1,
    decreases s.len(),
{
    if s.len() == 0 {
        assert(unspaced(cut_lines(s).0) + cut_lines(s).1 =~= s);
    } else {
        let (v, rest) = cut_lines(s.drop_last());
        lemma_cut_lines(s.drop_last());
        assert(s =~= s.drop_last().push(s.last()));
        if s.last() == '\n' {
            assert(v.push(rest).drop_last() =~= v);
            assert(unspaced(v.push(rest)) =~= unspaced(v) + rest.push('\n'));
            assert(s =~= unspaced(v.push(rest)) + Seq::<char>::empty());
        } else {
            assert(s =~= unspaced(v) + rest.push(s.last()));
        }
    }
}

/// No line of a text has a break in it.
pub proof fn lemma_lines_unbroken(s: Seq<char>)
    ensures
        forall|i: int| 0 <= i < cut_lines(s).0.len() ==> !(#[trigger] cut_lines(s).0[i]).contains('\n'),
        !cut_lines(s).1.contains('\n'),
    decreases s.len(),
{
    if s.len() > 0 {
        let (v, rest) = cut_lines(s.drop_last());
        lemma_lines_unbroken(s.drop_last());
        if s.last() != '\n' {
            let more = rest.push(s.last());
            if more.contains('\n') {
                let k = choose|k: int| 0 <= k < more.len() && more[k] == '\n';
                assert(rest[k] == '\n');
            }
        }
    }
}

/// Whether a dash and a space stand at `n`, with nothing but spaces before.
pub open spec fn dash_at(line: Seq<char>, n: int) -> bool {
    0 <= n && n + 1 < line.len() && line[n] == '-' && line[n + 1] == ' ' && forall|k: int|
        0 <= k < n ==> #[trigger] line[k] == ' '
}

/// Whether a line looks like the first of an item.
pub open spec fn item_line(line: Seq<char>) -> bool {
    exists|n: int| dash_at(line, n)
}

/// Whether these are single lines, and only such are marked as look like items.
pub open spec fn marks_items(v: Seq<Seq<char>>, marks: Seq<bool>) -> bool {
    &&& v.len() == marks.len()
    &&& forall|i: int| 0 <= i < v.len() ==> !(#[trigger] v[i]).contains('\n')
    &&& forall|i: int| 0 <= i < v.len() && marks[i] ==> item_line(#[trigger] v[i])
}

/// Whether a character breaks a line.
pub open spec fn is_break(c: char) -> bool {
    c == '\n' || c == '\r' || c == '\u{85}' || separates(c)
}

/// Whether a character is a separator of lines or paragraphs.
pub open spec fn separates(c: char) -> bool {
    c == '\u{2028}' || c == '\u{2029}'
}

/// Whether a text has no break in it.
pub open spec fn unbroken(s: Seq<char>) -> bool {
    forall|i: int| 0 <= i < s.len() ==> !is_break(#[trigger] s[i])
}

/// Whether a text ends in an empty line.
pub open spec fn open_ended(s: Seq<char>) -> bool {
    s.len() > 0 && s.last() == '\n' && (s.len() == 1 || s[s.len() - 2] == '\n')
}

/// Whether no line of a text looks like the first of an item.
pub open spec fn itemless(s: Seq<char>) -> bool {
    &&& forall|i: int| 0 <= i < cut_lines(s).0.len() ==> !item_line(#[trigger] cut_lines(s).0[i])
    &&& !item_line(cut_lines(s).1)
}

/// Whether blank lines around a text leave it as it is: it has no break in it,
/// or no line of it looks like an item and it does not end in an empty line.
pub open spec fn steady_text(s: Seq<char>) -> bool {
    unbroken(s) || (itemless(s) && !open_ended(s) && forall|i: int| 0 <= i < s.len() ==> !separates(#[trigger] s[i]))
}

/// Whether a line looks like the first of an item.
fn looks_like_item(line: &str) -> (r: bool)
    ensures
        r == item_line(line@),
{
    let cs = chars_of(line);
    let mut n: usize = 0;
    while n < cs.len() && cs[n] == ' '
        invariant
            0 <= n <= cs@.len(),
            cs@ == line@,
            forall|k: int| 0 <= k < n ==> #[trigger] line@[k] == ' ',
        decreases cs.len() - n,
    {
        n = n + 1;
    }
    let r = cs.len() >= 2 && n < cs.len() - 1 && cs[n] == '-' && cs[n + 1] == ' ';
    proof {
        if r {
            assert(dash_at(line@, n as int));
        }
        if item_line(line@) {
            let m = choose|m: int| dash_at(line@, m);
            if m < n {
                assert(line@[m] == ' ');
            }
            if n < m {
                assert(line@[n as int] == ' ');
            }
        }
    }
    r
}

/// Whether blank lines around a text leave it as it is.
pub fn is_steady_text(s: &str) -> (r: bool)
    ensures
        r == steady_text(s@),
{
    let cs = chars_of(s);
    let mut broken: bool = false;
    let mut parted: bool = false;
    let mut i: usize = 0;
    while i < cs.len()
        invariant
            0 <= i <= cs@.len(),
            cs@ == s@,
            broken == exists|k: int| 0 <= k < i && is_break(#[trigger] s@[k]),
            parted == exists|k: int| 0 <= k < i && separates(#[trigger] s@[k]),
        decreases cs.len() - i,
    {
        let c = cs[i];
        let separator = c == '\u{2028}' || c == '\u{2029}';
        broken = broken || c == '\n' || c == '\r' || c == '\u{85}' || separator;
        parted = parted || separator;
        assert(s@[i as int] == c);
        i = i + 1;
    }
    if !broken {
        return true;
    }
    if parted || (cs.len() > 0 && cs[cs.len() - 1] == '\n' && (cs.len() == 1 || cs[cs.len() - 2] == '\n')) {
        return false;
    }
    let (v, rest) = lines_and_rest(s);
    let mut j: usize = 0;
    while j < v.len()
        invariant
            0 <= j <= v@.len(),
            !unbroken(s@),
            views(v@) == cut_lines(s@).0,
            forall|k: int| 0 <= k < j ==> !item_line(#[trigger] cut_lines(s@).0[k]),
        decreases v.len() - j,
    {
        assert(cut_lines(s@).0[j as int] == v@[j as int]@);
        if looks_like_item(v[j].as_str()) {
            return false;
        }
        j = j + 1;
    }
    !looks_like_item(rest.as_str())
}

/// Where a line stands.
pub struct Place {
    /// Under `domains`.
    pub section: bool,
    /// In a domain with a flat list.
    pub flat: bool,
    /// The line before.
    pub last: Seq<char>,
}

/// Whether a line stands at the left edge.
pub open spec fn outer(line: Seq<char>) -> bool {
    line.len() > 0 && !begins(line, " "@)
}

/// Whether a line stands where the names of domains do.
pub open spec fn at_domain(line: Seq<char>) -> bool {
    begins(line, "  "@) && !begins(line, "   "@)
}

/// The place of the line after the lines.
pub open spec fn place_after(v: Seq<Seq<char>>) -> Place
    decreases v.len(),
{
    if v.len() == 0 {
        Place { section: false, flat: false, last: Seq::empty() }
    } else {
        let p = place_after(v.drop_last());
        let line = v.last();
        Place {
            section: if outer(line) {
                line == "domains:"@
            } else {
                p.section
            },
            flat: if at_domain(line) {
                begins(line, "  - "@)
            } else {
                p.flat
            },
            last: line,
        }
    }
}

/// Whether an entry starts in a line that is not the first of its list: the
/// first stands directly under a name.
pub open spec fn further_entry(p: Place, line: Seq<char>) -> bool {
    p.section && (begins(line, "  - "@) || (!p.flat && begins(line, "    - "@))) && !ends(p.last, ":"@)
}

/// The lines in which further entries start.
pub open spec fn entry_marks(v: Seq<Seq<char>>) -> Seq<bool>
    decreases v.len(),
{
    if v.len() == 0 {
        Seq::empty()
    } else {
        entry_marks(v.drop_last()).push(further_entry(place_after(v.drop_last()), v.last()))
    }
}

/// The text of a manifest with a blank line between the entries of each list.
pub open spec fn spaced(s: Seq<char>) -> Seq<char> {
    spaced_text(cut_lines(s).0, entry_marks(cut_lines(s).0), cut_lines(s).1)
}

/// There is a mark for each line, and the marked lines look like items.
proof fn lemma_entry_marks(v: Seq<Seq<char>>)
    ensures
        entry_marks(v).len() == v.len(),
        forall|i: int| 0 <= i < v.len() && entry_marks(v)[i] ==> item_line(#[trigger] v[i]),
    decreases v.len(),
{
    if v.len() > 0 {
        let less = v.drop_last();
        let line = v.last();
        lemma_entry_marks(less);
        reveal_strlit("  - ");
        reveal_strlit("    - ");
        if begins(line, "  - "@) {
            assert(line.take(4)[0] == ' ' && line.take(4)[1] == ' ' && line.take(4)[2] == '-' && line.take(4)[3] == ' ');
            assert(dash_at(line, 2));
        }
        if begins(line, "    - "@) {
            let t = line.take(6);
            assert(t[0] == ' ' && t[1] == ' ' && t[2] == ' ' && t[3] == ' ' && t[4] == '-' && t[5] == ' ');
            assert(dash_at(line, 4));
        }
        assert forall|i: int| 0 <= i < v.len() && entry_marks(v)[i] implies item_line(#[trigger] v[i]) by {
            if i < less.len() {
                assert(less[i] == v[i]);
                assert(entry_marks(less)[i]);
            }
        }
    }
}

/// A text with blank lines between its entries is the text with blank lines
/// before some of its items.
pub proof fn law_spaced_before_items(s: Seq<char>)
    ensures
        ({
            let (v, rest) = cut_lines(s);
            &&& s == unspaced(v) + rest
            &&& marks_items(v, entry_marks(v))
            &&& spaced(s) == spaced_text(v, entry_marks(v), rest)
        }),
{
    lemma_cut_lines(s);
    lemma_lines_unbroken(s);
    lemma_entry_marks(cut_lines(s).0);
}

fn lines_and_rest(s: &str) -> (r: (Vec<String>, String))
    ensures
        (views(r.0@), r.1@) == cut_lines(s@),
{
    let cs = chars_of(s);
    let mut v: Vec<String> = Vec::new();
    let mut rest: String = String::new();
    let mut i: usize = 0;
    assert(s@.take(0) =~= Seq::<char>::empty());
    assert(views(v@) =~= Seq::<Seq<char>>::empty());
    assert(rest@ =~= Seq::<char>::empty());
    while i < cs.len()
        invariant
            0 <= i <= cs@.len(),
            cs@ == s@,
            (views(v@), rest@) == cut_lines(s@.take(i as int)),
        decreases cs.len() - i,
    {
        let ghost before = v@;
        assert(s@.take(i + 1).drop_last() =~= s@.take(i as int));
        let c = cs[i];
        if c == '\n' {
            let ghost line = rest@;
            v.push(rest);
            assert(views(v@) =~= views(before).push(line));
            rest = String::new();
            assert(rest@ =~= Seq::<char>::empty());
        } else {
            rest.push(c);
        }
        i = i + 1;
    }
    assert(s@.take(s@.len() as int) =~= s@);
    (v, rest)
}

/// The text of a manifest with a blank line between the entries of each list.
pub fn space_entries(s: &str) -> (r: String)
    ensures
        r@ == spaced(s@),
{
    let (v, rest) = lines_and_rest(s);
    let ghost all = views(v@);
    let mut out: String = String::new();
    let mut section: bool = false;
    let mut flat: bool = false;
    let mut i: usize = 0;
    assert(all.take(0) =~= Seq::<Seq<char>>::empty());
    assert(out@ =~= Seq::<char>::empty());
    while i < v.len()
        invariant
            0 <= i <= v@.len(),
            all == views(v@),
            place_after(all.take(i as int)).section == section,
            place_after(all.take(i as int)).flat == flat,
            out@ == laid_out(all.take(i as int), entry_marks(all.take(i as int))),
        decreases v.len() - i,
    {
        let ghost done = all.take(i as int);
        let ghost p = place_after(done);
        let ghost out0 = out@;
        assert(all.take(i + 1).drop_last() =~= done);
        assert(all.take(i + 1).last() == v@[i as int]@);
        assert(entry_marks(all.take(i + 1)).drop_last() =~= entry_marks(done));
        let line = v[i].as_str();
        let under_name = if i > 0 {
            assert(done.last() == v@[i - 1]@);
            ends_with(v[i - 1].as_str(), ":")
        } else {
            assert(!ends(p.last, ":"@)) by {
                reveal_strlit(":");
            }
            false
        };
        assert(under_name == ends(p.last, ":"@));
        let flat_entry = starts_with(line, "  - ");
        if section && (flat_entry || (!flat && starts_with(line, "    - "))) && !under_name {
            out.push('\n');
        }
        out.append(line);
        out.push('\n');
        assert(out@ =~= (if further_entry(p, line@) {
            out0.push('\n')
        } else {
            out0
        }) + line@.push('\n'));
        if !line.is_empty() && !starts_with(line, " ") {
            section = same(line, "domains:");
        }
        if starts_with(line, "  ") && !starts_with(line, "   ") {
            flat = flat_entry;
        }
        i = i + 1;
    }
    assert(all.take(all.len() as int) =~= all);
    out.append(rest.as_str());
    out
}

/// A line that is marked has an empty line before it, and no other has; nothing
/// else is changed.
pub proof fn law_laid_out(v: Seq<Seq<char>>, marks: Seq<bool>, line: Seq<char>)
    requires
        v.len() == marks.len(),
    ensures
        laid_out(Seq::empty(), Seq::empty()) == Seq::<char>::empty(),
        laid_out(v.push(line), marks.push(true)) == laid_out(v, marks) + seq!['\n'] + line + seq!['\n'],
        laid_out(v.push(line), marks.push(false)) == laid_out(v, marks) + line + seq!['\n'],
        unspaced(v.push(line)) == unspaced(v) + line + seq!['\n'],
        unspaced(Seq::empty()) == Seq::<char>::empty(),
{
    assert(v.push(line).drop_last() =~= v);
    assert(marks.push(true).drop_last() =~= marks);
    assert(marks.push(false).drop_last() =~= marks);
    let s = laid_out(v, marks);
    assert(s.push('\n') + line.push('\n') =~= s + seq!['\n'] + line + seq!['\n']);
    assert(s + line.push('\n') =~= s + line + seq!['\n']);
    assert(unspaced(v) + line.push('\n') =~= unspaced(v) + line + seq!['\n']);
}

/// A line is an item where a dash and a space stand in it behind nothing but
/// spaces.
pub proof fn law_item_line(n: nat, x: Seq<char>, line: Seq<char>)
    ensures
        item_line(Seq::new(n, |i: int| ' ') + seq!['-', ' '] + x),
        item_line(line) ==> exists|k: int| 0 <= k < line.len() - 1 && #[trigger] line[k] == '-' && line[k + 1] == ' ',
        line.len() > 0 && line[0] != ' ' && line[0] != '-' ==> !item_line(line),
        line.len() > 1 && line[0] == '-' && line[1] != ' ' ==> !item_line(line),
        line.len() < 2 ==> !item_line(line),
{
    let s = Seq::new(n, |i: int| ' ') + seq!['-', ' '] + x;
    assert(dash_at(s, n as int));
    if item_line(line) {
        let k = choose|k: int| dash_at(line, k);
        assert(line[k] == '-');
        if k > 0 {
            assert(line[0] == ' ');
        }
    }
}

/// A text is cut into the lines that it is made of.
pub proof fn law_cut_lines(s: Seq<char>, line: Seq<char>)
    requires
        !line.contains('\n'),
        cut_lines(s).1.len() == 0,
    ensures
        cut_lines(s + line) == (cut_lines(s).0, line),
        cut_lines((s + line).push('\n')) == (cut_lines(s).0.push(line), Seq::<char>::empty()),
        cut_lines(Seq::empty()) == (Seq::<Seq<char>>::empty(), Seq::<char>::empty()),
    decreases line.len(),
{
    if line.len() == 0 {
        assert(s + line =~= s);
        assert(cut_lines(s).1 =~= line);
    } else {
        let less = line.drop_last();
        assert(line.contains(line.last()));
        assert forall|c: char| less.contains(c) implies line.contains(c) by {
            let i = choose|i: int| 0 <= i < less.len() && less[i] == c;
            assert(line[i] == c);
        }
        law_cut_lines(s, less);
        assert((s + line).drop_last() =~= s + less);
        assert((s + line).last() == line.last());
        assert(less.push(line.last()) =~= line);
    }
    assert((s + line).push('\n').drop_last() =~= s + line);
}

/// Whether a line is decided by the last line before it that is not indented:
/// lines stand under the domains exactly where that is the line that begins them.
pub proof fn law_under_domains(v: Seq<Seq<char>>, k: int)
    requires
        0 <= k < v.len(),
        v[k].len() > 0 && !begins(v[k], " "@),
        forall|j: int| k < j < v.len() ==> (#[trigger] v[j]).len() == 0 || begins(v[j], " "@),
    ensures
        place_after(v).section <==> v[k] == "domains:"@,
    decreases v.len(),
{
    if k < v.len() - 1 {
        let less = v.drop_last();
        assert(v[v.len() - 1].len() == 0 || begins(v[v.len() - 1], " "@));
        assert(less[k] == v[k]);
        law_under_domains(less, k);
    }
}

/// A domain has a flat list exactly where the last line at its level is an item.
pub proof fn law_flat_list(v: Seq<Seq<char>>, k: int)
    requires
        0 <= k < v.len(),
        begins(v[k], "  "@) && !begins(v[k], "   "@),
        forall|j: int| k < j < v.len() ==> !(begins(#[trigger] v[j], "  "@) && !begins(v[j], "   "@)),
    ensures
        place_after(v).flat <==> begins(v[k], "  - "@),
    decreases v.len(),
{
    if k < v.len() - 1 {
        let less = v.drop_last();
        assert(!at_domain(v[v.len() - 1]));
        assert(less[k] == v[k]);
        law_flat_list(less, k);
    }
}

/// An empty line is put before an item under the domains that is not the first
/// of its list: the line before it does not end in a colon. Items of a flat list
/// are indented by two, and those of a list of a type by four.
pub proof fn law_entry_marked(v: Seq<Seq<char>>, i: int)
    requires
        0 <= i < v.len(),
    ensures
        entry_marks(v).len() == v.len(),
        ({
            let before = v.take(i);
            let p = place_after(before);
            &&& entry_marks(v)[i] <==> p.section && (begins(v[i], "  - "@) || (begins(v[i], "    - "@) && !p.flat))
                && !ends(p.last, ":"@)
            &&& i > 0 ==> p.last == v[i - 1]
        }),
    decreases v.len(),
{
    lemma_entry_marks(v);
    let less = v.drop_last();
    if i < v.len() - 1 {
        law_entry_marked(less, i);
        assert(less.take(i) =~= v.take(i));
        assert(entry_marks(v)[i] == entry_marks(less)[i]);
        if i > 0 {
            assert(less[i - 1] == v[i - 1]);
        }
    } else {
        assert(v.take(i) =~= less);
        lemma_entry_marks(less);
    }
}

} // verus!
