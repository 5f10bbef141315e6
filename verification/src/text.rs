//! Operations on text, seen as sequences of characters.

use vstd::prelude::*;

verus! {

/// `String::push`: appends the character at the end of the string.
pub assume_specification[ String::push ](s: &mut String, c: char)
    ensures
        final(s)@ == old(s)@.push(c),
;

/// The characters of a string, in order.
pub fn chars_of(s: &str) -> (r: Vec<char>)
    ensures
        r@ == s@,
{
    let mut out: Vec<char> = Vec::new();
    for c in it: s.chars()
        invariant
            it.seq() == s@,
            out@ == s@.take(it.index() as int),
    {
        out.push(c);
        assert(s@.take(it.index() + 1) =~= s@.take(it.index() as int).push(c));
    }
    assert(s@.take(s@.len() as int) =~= s@);
    out
}

/// The string made of the characters `v[from..to]`.
pub fn string_of(v: &Vec<char>, from: usize, to: usize) -> (r: String)
    requires
        from <= to <= v@.len(),
    ensures
        r@ == v@.subrange(from as int, to as int),
{
    let mut out = String::new();
    let mut i: usize = from;
    while i < to
        invariant
            from <= i <= to <= v@.len(),
            out@ == v@.subrange(from as int, i as int),
        decreases to - i,
    {
        out.push(v[i]);
        assert(v@.subrange(from as int, i + 1) =~= v@.subrange(from as int, i as int).push(v@[i as int]));
        i = i + 1;
    }
    out
}


/// The contents of a list of strings.
pub open spec fn views(v: Seq<String>) -> Seq<Seq<char>> {
    v.map_values(|s: String| s@)
}

/// The text in an optional string.
pub open spec fn text_of(s: Option<String>) -> Option<Seq<char>> {
    match s {
        Some(t) => Some(t@),
        None => None,
    }
}

/// The text of an optional string slice.
pub open spec fn shown(s: Option<&str>) -> Option<Seq<char>> {
    match s {
        Some(t) => Some(t@),
        None => None,
    }
}

/// The string that is borrowed, where there is one.
pub fn owned(s: Option<&str>) -> (r: Option<String>)
    ensures
        text_of(r) == shown(s),
{
    match s {
        Some(t) => Some(t.to_owned()),
        None => None,
    }
}

/// A borrow of the string, where there is one.
pub fn borrowed(s: &Option<String>) -> (r: Option<&str>)
    ensures
        shown(r) == text_of(*s),
{
    match s {
        Some(t) => Some(t.as_str()),
        None => None,
    }
}

/// Adds a text at the end of a list.
pub fn push_text(v: &mut Vec<String>, s: &str)
    ensures
        views(final(v)@) == views(old(v)@).push(s@),
{
    let ghost before = v@;
    v.push(s.to_owned());
    assert(views(v@) =~= views(before).push(s@));
}

/// Whether two strings hold the same characters.
pub fn same(a: &str, b: &str) -> (r: bool)
    ensures
        r == (a@ == b@),
{
    a.to_owned() == b.to_owned()
}

/// Whether a list of strings holds `x`.
pub fn holds(list: &Vec<String>, x: &str) -> (r: bool)
    ensures
        r == views(list@).contains(x@),
{
    let mut i: usize = 0;
    while i < list.len()
        invariant
            0 <= i <= list@.len(),
            forall|k: int| 0 <= k < i ==> views(list@)[k] != x@,
        decreases list.len() - i,
    {
        if same(list[i].as_str(), x) {
            assert(views(list@)[i as int] == x@);
            return true;
        }
        i = i + 1;
    }
    false
}

/// Whether `p` stands in `s` at index `i`.
pub open spec fn occurs_at(s: Seq<char>, p: Seq<char>, i: int) -> bool {
    0 <= i && i + p.len() <= s.len() && s.subrange(i, i + p.len()) == p
}

/// The least index at or after `i` at which `p` stands in `s`.
pub open spec fn find_from(s: Seq<char>, p: Seq<char>, i: int) -> Option<int>
    decreases s.len() + 1 - i,
{
    if i < 0 || i + p.len() > s.len() {
        None
    } else if occurs_at(s, p, i) {
        Some(i)
    } else {
        find_from(s, p, i + 1)
    }
}

/// The least index at which `p` stands in `s`.
pub open spec fn find_in(s: Seq<char>, p: Seq<char>) -> Option<int> {
    find_from(s, p, 0)
}

/// What `find_from` gives is an occurrence, and none comes before it.
pub proof fn lemma_find_from(s: Seq<char>, p: Seq<char>, i: int)
    requires
        0 <= i,
    ensures
        find_from(s, p, i) matches Some(k) ==> i <= k && occurs_at(s, p, k) && forall|j: int|
            i <= j < k ==> !occurs_at(s, p, j),
        find_from(s, p, i) is None ==> forall|j: int| i <= j ==> !occurs_at(s, p, j),
    decreases s.len() + 1 - i,
{
    if i + p.len() <= s.len() && !occurs_at(s, p, i) {
        lemma_find_from(s, p, i + 1);
    }
}

fn occurs(s: &Vec<char>, p: &Vec<char>, i: usize) -> (r: bool)
    requires
        i + p@.len() <= s@.len(),
    ensures
        r == occurs_at(s@, p@, i as int),
{
    let n: usize = s.len();
    let mut k: usize = 0;
    while k < p.len()
        invariant
            0 <= k <= p@.len(),
            i + p@.len() <= n == s@.len(),
            forall|j: int| 0 <= j < k ==> s@[i + j] == p@[j],
        decreases p.len() - k,
    {
        if s[i + k] != p[k] {
            assert(s@.subrange(i as int, i + p@.len())[k as int] != p@[k as int]);
            return false;
        }
        k = k + 1;
    }
    assert(s@.subrange(i as int, i + p@.len()) =~= p@);
    true
}

fn search(s: &Vec<char>, p: &Vec<char>, from: usize) -> (r: Option<usize>)
    requires
        from <= s@.len(),
    ensures
        r is Some == find_from(s@, p@, from as int) is Some,
        r matches Some(k) ==> find_from(s@, p@, from as int) == Some(k as int) && from <= k && k
            + p@.len() <= s@.len(),
{
    let mut i: usize = from;
    while i <= s.len() && p.len() <= s.len() - i
        invariant
            from <= i <= s@.len() + 1,
            from <= s@.len(),
            find_from(s@, p@, from as int) == find_from(s@, p@, i as int),
        decreases s@.len() + 1 - i,
    {
        if occurs(s, p, i) {
            return Some(i);
        }
        if i == s.len() {
            assert(find_from(s@, p@, i + 1) is None);
            return None;
        }
        i = i + 1;
    }
    None
}

/// The index, in characters, of the first occurrence of `p` in `s`.
pub fn find(s: &str, p: &str) -> (r: Option<usize>)
    ensures
        r is Some == find_in(s@, p@) is Some,
        r matches Some(k) ==> find_in(s@, p@) == Some(k as int) && k + p@.len() <= s@.len(),
{
    let sv = chars_of(s);
    let pv = chars_of(p);
    search(&sv, &pv, 0)
}

/// Whether `p` stands somewhere in `s`.
pub open spec fn contains_text(s: Seq<char>, p: Seq<char>) -> bool {
    exists|i: int| occurs_at(s, p, i)
}

/// Whether `p` stands somewhere in `s`.
pub fn contains(s: &str, p: &str) -> (r: bool)
    ensures
        r == contains_text(s@, p@),
{
    let k = find(s, p);
    proof {
        lemma_find_from(s@, p@, 0);
    }
    k.is_some()
}

/// Whether `s` begins with `p`.
pub open spec fn begins(s: Seq<char>, p: Seq<char>) -> bool {
    p.len() <= s.len() && s.take(p.len() as int) == p
}

/// Whether `s` ends with `p`.
pub open spec fn ends(s: Seq<char>, p: Seq<char>) -> bool {
    p.len() <= s.len() && s.skip(s.len() - p.len()) == p
}

/// Whether `s` begins with `p`.
pub fn starts_with(s: &str, p: &str) -> (r: bool)
    ensures
        r == begins(s@, p@),
{
    let sv = chars_of(s);
    let pv = chars_of(p);
    if pv.len() > sv.len() {
        return false;
    }
    assert(s@.take(p@.len() as int) == s@.subrange(0, p@.len() as int));
    occurs(&sv, &pv, 0)
}

/// Whether `s` ends with `p`.
pub fn ends_with(s: &str, p: &str) -> (r: bool)
    ensures
        r == ends(s@, p@),
{
    let sv = chars_of(s);
    let pv = chars_of(p);
    if pv.len() > sv.len() {
        return false;
    }
    assert(s@.skip(s@.len() - p@.len()) == s@.subrange(s@.len() - p@.len(), s@.len() as int));
    occurs(&sv, &pv, sv.len() - pv.len())
}

/// `s` without the prefix `p`, where it has it.
pub fn strip_prefix(s: &str, p: &str) -> (r: Option<String>)
    ensures
        r is Some == begins(s@, p@),
        r matches Some(t) ==> t@ == s@.skip(p@.len() as int),
{
    if starts_with(s, p) {
        let sv = chars_of(s);
        let pv = chars_of(p);
        Some(string_of(&sv, pv.len(), sv.len()))
    } else {
        None
    }
}

/// `s` without the suffix `p`, where it has it.
pub fn strip_suffix(s: &str, p: &str) -> (r: Option<String>)
    ensures
        r is Some == ends(s@, p@),
        r matches Some(t) ==> t@ == s@.take(s@.len() - p@.len()),
{
    if ends_with(s, p) {
        let sv = chars_of(s);
        let pv = chars_of(p);
        Some(string_of(&sv, 0, sv.len() - pv.len()))
    } else {
        None
    }
}

/// The text before and after the first occurrence of `sep`.
pub open spec fn split_at_first(s: Seq<char>, sep: Seq<char>) -> Option<(Seq<char>, Seq<char>)> {
    match find_in(s, sep) {
        Some(k) => Some((s.take(k), s.skip(k + sep.len()))),
        None => None,
    }
}

/// The text before and after the first occurrence of `sep`.
pub fn split_once(s: &str, sep: &str) -> (r: Option<(String, String)>)
    ensures
        r is Some == split_at_first(s@, sep@) is Some,
        r matches Some(p) ==> split_at_first(s@, sep@) == Some((p.0@, p.1@)),
{
    let sv = chars_of(s);
    let pv = chars_of(sep);
    match search(&sv, &pv, 0) {
        Some(k) => {
            let n: usize = sv.len();
            let head = string_of(&sv, 0, k);
            let tail = string_of(&sv, k + pv.len(), n);
            Some((head, tail))
        },
        None => None,
    }
}

/// The characters with the Unicode property White_Space.
pub open spec fn white(c: char) -> bool {
    ||| '\u{9}' <= c <= '\u{d}'
    ||| c == ' '
    ||| c == '\u{85}'
    ||| c == '\u{a0}'
    ||| c == '\u{1680}'
    ||| '\u{2000}' <= c <= '\u{200a}'
    ||| c == '\u{2028}'
    ||| c == '\u{2029}'
    ||| c == '\u{202f}'
    ||| c == '\u{205f}'
    ||| c == '\u{3000}'
}

fn is_white(c: char) -> (r: bool)
    ensures
        r == white(c),
{
    ('\u{9}' <= c && c <= '\u{d}') || c == ' ' || c == '\u{85}' || c == '\u{a0}' || c == '\u{1680}'
        || ('\u{2000}' <= c && c <= '\u{200a}') || c == '\u{2028}' || c == '\u{2029}' || c
        == '\u{202f}' || c == '\u{205f}' || c == '\u{3000}'
}

/// `s` without the white space at its start.
pub open spec fn trimmed_start(s: Seq<char>) -> Seq<char>
    decreases s.len(),
{
    if s.len() > 0 && white(s[0]) {
        trimmed_start(s.skip(1))
    } else {
        s
    }
}

/// `s` without the white space at its end.
pub open spec fn trimmed_end(s: Seq<char>) -> Seq<char>
    decreases s.len(),
{
    if s.len() > 0 && white(s.last()) {
        trimmed_end(s.drop_last())
    } else {
        s
    }
}

/// `s` without the white space at either end.
pub open spec fn trimmed(s: Seq<char>) -> Seq<char> {
    trimmed_end(trimmed_start(s))
}

fn skip_white(v: &Vec<char>) -> (i: usize)
    ensures
        i <= v@.len(),
        v@.skip(i as int) == trimmed_start(v@),
{
    let mut i: usize = 0;
    assert(v@.skip(0) =~= v@);
    while i < v.len() && is_white(v[i])
        invariant
            0 <= i <= v@.len(),
            trimmed_start(v@.skip(i as int)) == trimmed_start(v@),
        decreases v.len() - i,
    {
        assert(v@.skip(i as int).skip(1) =~= v@.skip(i + 1));
        i = i + 1;
    }
    i
}

/// `s` without the white space at either end.
pub fn trim(s: &str) -> (r: String)
    ensures
        r@ == trimmed(s@),
{
    let v = chars_of(s);
    let i = skip_white(&v);
    let mut j: usize = v.len();
    assert(v@.subrange(i as int, j as int) =~= v@.skip(i as int));
    while i < j && is_white(v[j - 1])
        invariant
            i <= j <= v@.len(),
            trimmed_end(v@.subrange(i as int, j as int)) == trimmed_end(v@.skip(i as int)),
        decreases j - i,
    {
        assert(v@.subrange(i as int, j as int).drop_last() =~= v@.subrange(i as int, j - 1));
        j = j - 1;
    }
    string_of(&v, i, j)
}

/// The lower-case form of an ASCII letter, other characters unchanged.
pub open spec fn lower(c: char) -> char {
    if 'A' <= c <= 'Z' {
        (c as u8 + 32) as char
    } else {
        c
    }
}

fn lower_of(c: char) -> (r: char)
    ensures
        r == lower(c),
{
    if 'A' <= c && c <= 'Z' {
        ((c as u8) + 32) as char
    } else {
        c
    }
}

/// Whether two texts differ at most in the case of ASCII letters.
pub open spec fn same_ignoring_case(a: Seq<char>, b: Seq<char>) -> bool {
    a.len() == b.len() && forall|i: int| 0 <= i < a.len() ==> lower(#[trigger] a[i]) == lower(b[i])
}

/// Whether two texts differ at most in the case of ASCII letters.
pub fn eq_ignore_ascii_case(a: &str, b: &str) -> (r: bool)
    ensures
        r == same_ignoring_case(a@, b@),
{
    let av = chars_of(a);
    let bv = chars_of(b);
    if av.len() != bv.len() {
        return false;
    }
    let mut i: usize = 0;
    while i < av.len()
        invariant
            0 <= i <= av@.len(),
            av@.len() == bv@.len(),
            av@ == a@,
            bv@ == b@,
            forall|k: int| 0 <= k < i ==> lower(#[trigger] a@[k]) == lower(b@[k]),
        decreases av.len() - i,
    {
        if lower_of(av[i]) != lower_of(bv[i]) {
            return false;
        }
        i = i + 1;
    }
    true
}

/// A line without the carriage return that ends it.
pub open spec fn without_cr(s: Seq<char>) -> Seq<char> {
    if s.len() > 0 && s.last() == '\r' {
        s.drop_last()
    } else {
        s
    }
}

/// The lines of `s[from..]`, where a line feed, or a carriage return and a
/// line feed, ends each but perhaps the last.
pub open spec fn lines_from(s: Seq<char>, from: int) -> Seq<Seq<char>>
    decreases s.len() - from,
{
    if from < 0 || from >= s.len() {
        Seq::empty()
    } else {
        let end = line_end(s, from);
        if from <= end < s.len() {
            seq![without_cr(s.subrange(from, end))] + lines_from(s, end + 1)
        } else {
            seq![s.skip(from)]
        }
    }
}

/// The index of the first line feed at or after `from`, or the length.
pub open spec fn line_end(s: Seq<char>, from: int) -> int
    decreases s.len() - from,
{
    if from < 0 || from >= s.len() {
        s.len() as int
    } else if s[from] == '\n' {
        from
    } else {
        line_end(s, from + 1)
    }
}

/// The lines of `s`.
pub open spec fn lines_of(s: Seq<char>) -> Seq<Seq<char>> {
    lines_from(s, 0)
}

/// The lines of `s`, without their line ends.
pub fn lines(s: &str) -> (r: Vec<String>)
    ensures
        views(r@) == lines_of(s@),
{
    let v = chars_of(s);
    let mut out: Vec<String> = Vec::new();
    let mut from: usize = 0;
    assert(views(out@) + lines_from(s@, 0) =~= lines_of(s@));
    while from < v.len()
        invariant
            0 <= from <= v@.len(),
            v@ == s@,
            views(out@) + lines_from(s@, from as int) == lines_of(s@),
        decreases v.len() - from,
    {
        let mut end: usize = from;
        while end < v.len() && v[end] != '\n'
            invariant
                from <= end <= v@.len(),
                v@ == s@,
                line_end(s@, from as int) == line_end(s@, end as int),
            decreases v.len() - end,
        {
            end = end + 1;
        }
        let ghost before = views(out@);
        if end < v.len() {
            let stop = if end > from && v[end - 1] == '\r' {
                end - 1
            } else {
                end
            };
            let line = string_of(&v, from, stop);
            assert(line@ =~= without_cr(s@.subrange(from as int, end as int)));
            let ghost rest = lines_from(s@, end + 1);
            assert(lines_from(s@, from as int) == seq![line@] + rest);
            out.push(line);
            assert(views(out@) =~= before.push(line@));
            assert(before + (seq![line@] + rest) =~= before.push(line@) + rest);
            from = end + 1;
        } else {
            let line = string_of(&v, from, end);
            assert(line@ =~= s@.skip(from as int));
            assert(lines_from(s@, from as int) == seq![line@]);
            out.push(line);
            assert(views(out@) =~= before.push(line@));
            assert(before + seq![line@] =~= before.push(line@) + Seq::<Seq<char>>::empty());
            from = end;
        }
    }
    assert(views(out@) =~= views(out@) + Seq::<Seq<char>>::empty());
    out
}

/// The texts of `parts`, with `sep` between each two.
pub open spec fn joined(parts: Seq<Seq<char>>, sep: Seq<char>) -> Seq<char>
    decreases parts.len(),
{
    if parts.len() == 0 {
        Seq::empty()
    } else if parts.len() == 1 {
        parts[0]
    } else {
        joined(parts.drop_last(), sep) + sep + parts.last()
    }
}

/// The texts of `parts`, with `sep` between each two.
pub fn join(parts: &Vec<String>, sep: &str) -> (r: String)
    ensures
        r@ == joined(views(parts@), sep@),
{
    let mut out = String::new();
    let mut i: usize = 0;
    while i < parts.len()
        invariant
            0 <= i <= parts@.len(),
            out@ == joined(views(parts@).take(i as int), sep@),
        decreases parts.len() - i,
    {
        let ghost next = views(parts@).take(i + 1);
        assert(next.drop_last() =~= views(parts@).take(i as int));
        assert(next.last() == parts@[i as int]@);
        if i > 0 {
            out.append(sep);
        }
        out.append(parts[i].as_str());
        assert(i == 0 ==> out@ =~= parts@[0]@);
        i = i + 1;
    }
    assert(views(parts@).take(parts@.len() as int) =~= views(parts@));
    out
}

/// The text in these bytes, where what is no UTF-8 is replaced.
pub uninterp spec fn lossy_text(bytes: Seq<u8>) -> Seq<char>;

/// `String::from_utf8_lossy`: the same bytes give the same text.
#[verifier::external_body]
pub(crate) fn from_utf8_lossy(bytes: &Vec<u8>) -> (r: String)
    ensures
        r@ == lossy_text(bytes@),
{
    String::from_utf8_lossy(bytes).into_owned()
}

/// The decimal digits of a number, most significant first.
pub open spec fn digits(n: nat) -> Seq<char>
    decreases n,
{
    if n < 10 {
        seq![digit(n)]
    } else {
        digits(n / 10).push(digit(n % 10))
    }
}

/// The decimal digit for a number below ten.
pub open spec fn digit(n: nat) -> char {
    (48 + n) as char
}

fn push_digits(out: &mut String, n: u64)
    ensures
        final(out)@ == old(out)@ + digits(n as nat),
    decreases n,
{
    if n < 10 {
        let c: char = (48u8 + n as u8) as char;
        out.push(c);
        assert(out@ =~= old(out)@ + digits(n as nat));
    } else {
        push_digits(out, n / 10);
        let c: char = (48u8 + (n % 10) as u8) as char;
        out.push(c);
        assert(out@ =~= old(out)@ + digits(n as nat));
    }
}

/// The decimal digits of a number.
pub fn decimal(n: u64) -> (r: String)
    ensures
        r@ == digits(n as nat),
{
    let mut out = String::new();
    push_digits(&mut out, n);
    assert(out@ =~= digits(n as nat));
    out
}

/// A text begins with another exactly where it is the other with something
/// behind it, and ends with another exactly where it is something with the
/// other behind it.
pub proof fn law_begins_and_ends(s: Seq<char>, p: Seq<char>)
    ensures
        begins(s, p) <==> exists|t: Seq<char>| s == #[trigger] (p + t),
        ends(s, p) <==> exists|t: Seq<char>| s == #[trigger] (t + p),
{
    if begins(s, p) {
        assert(s =~= p + s.skip(p.len() as int));
    }
    if exists|t: Seq<char>| s == #[trigger] (p + t) {
        let t = choose|t: Seq<char>| s == #[trigger] (p + t);
        assert(s.take(p.len() as int) =~= p);
    }
    if ends(s, p) {
        assert(s =~= s.take(s.len() - p.len()) + p);
    }
    if exists|t: Seq<char>| s == #[trigger] (t + p) {
        let t = choose|t: Seq<char>| s == #[trigger] (t + p);
        assert(s.skip(s.len() - p.len()) =~= p);
    }
}

/// A text is split at its first separator: the parts and the separator make it
/// up, no other way to do so has a shorter first part, and it is not split
/// where there is none.
pub proof fn law_split_at_first(s: Seq<char>, sep: Seq<char>, x: Seq<char>, y: Seq<char>)
    ensures
        split_at_first(s, sep) matches Some(p) ==> s == p.0 + sep + p.1,
        s == x + sep + y ==> (split_at_first(s, sep) matches Some(p) && p.0.len() <= x.len()),
{
    lemma_find_from(s, sep, 0);
    if let Some(p) = split_at_first(s, sep) {
        let k = find_in(s, sep)->0;
        assert(s =~= s.take(k) + s.subrange(k, k + sep.len()) + s.skip(k + sep.len()));
    }
    if s == x + sep + y {
        assert(s.subrange(x.len() as int, (x.len() + sep.len()) as int) =~= sep);
        assert(occurs_at(s, sep, x.len() as int));
    }
}

/// A text is found at the first place where it stands.
pub proof fn law_found_first(s: Seq<char>, p: Seq<char>, i: int)
    ensures
        find_in(s, p) matches Some(k) ==> 0 <= k && k + p.len() <= s.len() && s.subrange(k, k + p.len()) == p,
        0 <= i && i + p.len() <= s.len() && s.subrange(i, i + p.len()) == p ==> (find_in(s, p) matches Some(k) && k <= i),
{
    lemma_find_from(s, p, 0);
    if 0 <= i && i + p.len() <= s.len() && s.subrange(i, i + p.len()) == p {
        assert(occurs_at(s, p, i));
    }
}

proof fn lemma_trimmed_start_cut(a: Seq<char>, t: Seq<char>)
    requires
        forall|i: int| 0 <= i < a.len() ==> white(#[trigger] a[i]),
        t.len() == 0 || !white(t[0]),
    ensures
        trimmed_start(a + t) == t,
    decreases a.len(),
{
    if a.len() == 0 {
        assert(a + t =~= t);
    } else {
        let b = a.skip(1);
        assert((a + t).skip(1) =~= b + t);
        assert(white((a + t)[0])) by {
            assert((a + t)[0] == a[0]);
        }
        assert forall|i: int| 0 <= i < b.len() implies white(#[trigger] b[i]) by {
            assert(b[i] == a[i + 1]);
        }
        lemma_trimmed_start_cut(b, t);
    }
}

proof fn lemma_trimmed_end_cut(t: Seq<char>, b: Seq<char>)
    requires
        forall|i: int| 0 <= i < b.len() ==> white(#[trigger] b[i]),
        t.len() == 0 || !white(t.last()),
    ensures
        trimmed_end(t + b) == t,
    decreases b.len(),
{
    if b.len() == 0 {
        assert(t + b =~= t);
    } else {
        let c = b.drop_last();
        assert((t + b).drop_last() =~= t + c);
        assert(white((t + b).last())) by {
            assert((t + b).last() == b[b.len() - 1]);
        }
        assert forall|i: int| 0 <= i < c.len() implies white(#[trigger] c[i]) by {
            assert(c[i] == b[i]);
        }
        lemma_trimmed_end_cut(t, c);
    }
}

/// Trimming takes away exactly the white space at both ends.
pub proof fn law_trimmed(a: Seq<char>, t: Seq<char>, b: Seq<char>)
    requires
        forall|i: int| 0 <= i < a.len() ==> white(#[trigger] a[i]),
        forall|i: int| 0 <= i < b.len() ==> white(#[trigger] b[i]),
        t.len() == 0 || (!white(t[0]) && !white(t.last())),
    ensures
        trimmed(a + t + b) == t,
{
    if t.len() == 0 {
        let w = a + b;
        assert(a + t + b =~= w + t);
        assert forall|i: int| 0 <= i < w.len() implies white(#[trigger] w[i]) by {
            if i < a.len() {
                assert(w[i] == a[i]);
            } else {
                assert(w[i] == b[i - a.len()]);
            }
        }
        lemma_trimmed_start_cut(w, t);
    } else {
        let u = t + b;
        assert(a + t + b =~= a + u);
        assert(u[0] == t[0]);
        lemma_trimmed_start_cut(a, u);
        lemma_trimmed_end_cut(t, b);
    }
}

/// The usual white space is white, and no letter, digit or sign of ASCII is.
pub proof fn law_white(c: char)
    ensures
        white(' ') && white('\t') && white('\n') && white('\r'),
        '!' <= c <= '~' ==> !white(c),
{
}

/// The parts of a text that is joined stand in it in order, with the separator
/// between each two.
pub proof fn law_joined(a: Seq<Seq<char>>, b: Seq<Seq<char>>, x: Seq<char>, sep: Seq<char>)
    ensures
        joined(seq![x], sep) == x,
        a.len() > 0 && b.len() > 0 ==> joined(a + b, sep) == joined(a, sep) + sep + joined(b, sep),
    decreases b.len(),
{
    if a.len() > 0 && b.len() > 0 {
        let c = b.drop_last();
        assert((a + b).drop_last() =~= a + c);
        assert((a + b).last() == b.last());
        if b.len() == 1 {
            assert(a + c =~= a);
        } else {
            law_joined(a, c, x, sep);
            assert(joined(a + b, sep) =~= joined(a, sep) + sep + joined(b, sep));
        }
    }
}

/// The number that decimal digits stand for.
pub open spec fn number_shown(s: Seq<char>) -> int
    decreases s.len(),
{
    if s.len() == 0 {
        0
    } else {
        10 * number_shown(s.drop_last()) + (s.last() as int - '0' as int)
    }
}

/// The digits of a number stand for it, are digits, and do not begin with a
/// zero unless the number is zero.
pub proof fn law_digits(n: nat)
    ensures
        number_shown(digits(n)) == n,
        digits(n).len() > 0,
        forall|i: int| 0 <= i < digits(n).len() ==> '0' <= #[trigger] digits(n)[i] <= '9',
        n > 0 ==> digits(n)[0] != '0',
    decreases n,
{
    let d = digits(n);
    if n < 10 {
        assert(d.drop_last() =~= Seq::<char>::empty());
        assert(number_shown(d.drop_last()) == 0);
        assert(d.last() == digit(n));
    } else {
        law_digits(n / 10);
        let less = digits(n / 10);
        assert(d.drop_last() =~= less);
        assert(d.last() == digit(n % 10));
        assert forall|i: int| 0 <= i < d.len() implies '0' <= #[trigger] d[i] <= '9' by {
            if i < less.len() {
                assert(d[i] == less[i]);
            }
        }
        assert(d[0] == less[0]);
    }
}

/// Texts without breaks, each with a line feed behind it, are the lines of what
/// they make up; so are they with a carriage return before each line feed.
pub proof fn law_lines(x: Seq<char>, rest: Seq<char>)
    requires
        forall|i: int| 0 <= i < x.len() ==> #[trigger] x[i] != '\n',
    ensures
        lines_of(Seq::empty()) == Seq::<Seq<char>>::empty(),
        x.len() > 0 ==> lines_of(x) == seq![x],
        x.len() == 0 || x.last() != '\r' ==> lines_of(x.push('\n') + rest) == seq![x] + lines_of(rest),
        lines_of(x.push('\r').push('\n') + rest) == seq![x] + lines_of(rest),
{
    if x.len() > 0 {
        lemma_line_end_at(x, 0, x.len() as int);
        assert(x.skip(0) =~= x);
    }
    let s = x.push('\n') + rest;
    lemma_line_end_at(s, 0, x.len() as int);
    assert(s.subrange(0, x.len() as int) =~= x);
    lemma_lines_shift(x.push('\n'), rest, 0);
    let y = x.push('\r');
    let u = y.push('\n') + rest;
    lemma_line_end_at(u, 0, y.len() as int);
    assert(u.subrange(0, y.len() as int) =~= y);
    assert(y.drop_last() =~= x);
    lemma_lines_shift(y.push('\n'), rest, 0);
}

proof fn lemma_line_end_at(s: Seq<char>, from: int, n: int)
    requires
        0 <= from <= n <= s.len(),
        forall|i: int| from <= i < n ==> #[trigger] s[i] != '\n',
        n < s.len() ==> s[n] == '\n',
    ensures
        line_end(s, from) == n,
    decreases n - from,
{
    if from < n {
        assert(s[from] != '\n');
        lemma_line_end_at(s, from + 1, n);
    }
}

proof fn lemma_line_end_shift(a: Seq<char>, b: Seq<char>, from: int)
    requires
        0 <= from <= b.len(),
    ensures
        line_end(a + b, a.len() + from) == a.len() + line_end(b, from),
        from <= line_end(b, from) <= b.len(),
    decreases b.len() - from,
{
    if from < b.len() {
        assert((a + b)[a.len() + from] == b[from]);
        if b[from] != '\n' {
            lemma_line_end_shift(a, b, from + 1);
        }
    }
}

proof fn lemma_lines_shift(a: Seq<char>, b: Seq<char>, from: int)
    requires
        0 <= from <= b.len(),
    ensures
        lines_from(a + b, a.len() + from) == lines_from(b, from),
    decreases b.len() - from,
{
    if from < b.len() {
        let end = line_end(b, from);
        lemma_line_end_shift(a, b, from);
        if end < b.len() {
            assert((a + b).subrange(a.len() + from, a.len() + end) =~= b.subrange(from, end));
            lemma_lines_shift(a, b, end + 1);
        } else {
            assert((a + b).skip(a.len() + from) =~= b.skip(from));
        }
    }
}

/// Letters of ASCII are the same in both cases, and no other characters are.
pub proof fn law_same_ignoring_case(a: char, b: char)
    ensures
        same_ignoring_case(seq![a], seq![b]) <==> (a == b || ('A' <= a <= 'Z' && b as int == a as int + 32) || (
        'A' <= b <= 'Z' && a as int == b as int + 32)),
{
    let x = seq![a];
    let y = seq![b];
    assert(x[0] == a && y[0] == b);
    if same_ignoring_case(x, y) {
        assert(lower(x[0]) == lower(y[0]));
    }
}

/// A text is split at a separator that cannot begin any earlier, and is not
/// split where it cannot begin at all.
pub proof fn law_split_where_it_stands(x: Seq<char>, sep: Seq<char>, y: Seq<char>)
    requires
        sep.len() > 0,
        !x.contains(sep[0]),
    ensures
        split_at_first(x + sep + y, sep) == Some((x, y)),
        split_at_first(x, sep) is None,
{
    let s = x + sep + y;
    law_split_at_first(s, sep, x, y);
    let q = split_at_first(s, sep)->0;
    if q.0.len() < x.len() {
        assert((q.0 + sep + q.1)[q.0.len() as int] == sep[0]);
        assert(s[q.0.len() as int] == x[q.0.len() as int]);
    }
    assert(q.0 =~= s.take(x.len() as int));
    assert(s.take(x.len() as int) =~= x);
    assert(q.1 =~= s.skip((x.len() + sep.len()) as int));
    assert(s.skip((x.len() + sep.len()) as int) =~= y);
    if let Some(p) = split_at_first(x, sep) {
        law_split_at_first(x, sep, p.0, p.1);
        assert(x[p.0.len() as int] == sep[0]);
    }
}

} // verus!
