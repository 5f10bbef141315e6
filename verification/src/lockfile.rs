//! The names of the files that guard shared files.

use crate::path::{
    below, ends_plainly, ints, join_path, lemma_spans_of_file, lemma_spans_of_name, spans, spans_of,
};
use crate::text::{chars_of, decimal, digits, same, string_of, text_of};
use vstd::prelude::*;

verus! {

/// The file that is locked for a name, below a directory.
pub fn lock_path(dir: &str, name: &str) -> (r: String)
    ensures
        r@ == below(dir@, name@ + ".lock"@),
{
    let mut file: String = name.to_owned();
    file.append(".lock");
    join_path(dir, file.as_str())
}

/// The directory that a path lies in; the root and the empty path lie in none.
pub open spec fn parent(p: Seq<char>) -> Option<Seq<char>> {
    let c = spans(p);
    if c.len() == 0 || (c.len() == 1 && p[0] == '/') {
        None
    } else if c.len() == 1 {
        Some(Seq::empty())
    } else {
        Some(p.take(c[c.len() - 2].1))
    }
}

/// The last component of a path, where it names a file.
pub open spec fn file_name(p: Seq<char>) -> Option<Seq<char>> {
    let c = spans(p);
    let last = p.subrange(c.last().0, c.last().1);
    if c.len() == 0 || last == "/"@ || last == "."@ || last == ".."@ {
        None
    } else {
        Some(last)
    }
}

/// The file that is written in the place of a path before it is renamed to
/// it: in the same directory, with the process in its name.
pub open spec fn temp_for(p: Seq<char>, pid: u32) -> Seq<char> {
    let dir = match parent(p) {
        Some(d) => d,
        None => "."@,
    };
    let name = match file_name(p) {
        Some(n) => n,
        None => "out"@,
    };
    below(dir, "."@ + name + ".tmp."@ + digits(pid as nat))
}

fn parent_of(p: &str) -> (r: Option<String>)
    ensures
        text_of(r) == parent(p@),
{
    let v = chars_of(p);
    let c = spans_of(&v);
    assert(ints(c@).len() == c@.len());
    let n: usize = c.len();
    if n == 0 {
        return None;
    }
    if n == 1 {
        assert(ints(c@)[0] == (c@[0].0 as int, c@[0].1 as int));
        if v.len() > 0 && v[0] == '/' {
            return None;
        }
        let none = String::new();
        assert(none@ =~= Seq::<char>::empty());
        assert(v@.len() == 0 ==> spans(p@).len() == 0);
        return Some(none);
    }
    assert(ints(c@)[n - 2] == (c@[n - 2].0 as int, c@[n - 2].1 as int));
    let d = string_of(&v, 0, c[n - 2].1);
    assert(d@ =~= p@.take(c@[n - 2].1 as int));
    Some(d)
}

fn file_name_of(p: &str) -> (r: Option<String>)
    ensures
        text_of(r) == file_name(p@),
{
    let v = chars_of(p);
    let c = spans_of(&v);
    assert(ints(c@).len() == c@.len());
    let n: usize = c.len();
    if n == 0 {
        return None;
    }
    assert(ints(c@)[n - 1] == (c@[n - 1].0 as int, c@[n - 1].1 as int));
    let last = string_of(&v, c[n - 1].0, c[n - 1].1);
    if same(last.as_str(), "/") || same(last.as_str(), ".") || same(last.as_str(), "..") {
        None
    } else {
        Some(last)
    }
}

/// The file that is written in the place of a path before it is renamed to
/// it.
pub fn temp_path(path: &str, pid: u32) -> (r: String)
    ensures
        r@ == temp_for(path@, pid),
{
    let dir = match parent_of(path) {
        Some(d) => d,
        None => ".".to_owned(),
    };
    let name = match file_name_of(path) {
        Some(n) => n,
        None => "out".to_owned(),
    };
    let mut file: String = ".".to_owned();
    file.append(name.as_str());
    file.append(".tmp.");
    file.append(decimal(pid as u64).as_str());
    join_path(dir.as_str(), file.as_str())
}

/// A file is written by way of a hidden file in the same directory, which is
/// named after it and after the process.
pub proof fn law_temp_beside(dir: Seq<char>, name: Seq<char>, pid: u32)
    requires
        ends_plainly(dir),
        name.len() > 0,
        forall|i: int| 0 <= i < name.len() ==> #[trigger] name[i] != '/',
        name != "."@ && name != ".."@,
    ensures
        temp_for(dir.push('/') + name, pid) == dir + "/"@ + ("."@ + name + ".tmp."@ + digits(pid as nat)),
        parent(dir.push('/') + name) == Some(dir),
        file_name(dir.push('/') + name) == Some(name),
{
    reveal_strlit(".");
    reveal_strlit("/");
    if name == seq!['.'] {
        assert(name =~= "."@);
    }
    lemma_spans_of_file(dir, name);
    let p = dir.push('/') + name;
    let n = dir.len() as int;
    let c = spans(p);
    assert(c[c.len() - 2] == spans(dir).last());
    assert(p.take(n) =~= dir);
    assert(p.subrange(n + 1, n + 1 + name.len()) =~= name);
    assert("/"@ =~= seq!['/']);
    if name == "/"@ {
        assert(name[0] == '/');
    }
    let t = "."@ + name + ".tmp."@ + digits(pid as nat);
    assert(t[0] == '.');
    assert(dir.push('/') + t =~= dir + "/"@ + t);
}

/// A file without a directory is written by way of a hidden file beside it, too.
pub proof fn law_temp_here(name: Seq<char>, pid: u32)
    requires
        name.len() > 0,
        forall|i: int| 0 <= i < name.len() ==> #[trigger] name[i] != '/',
        name != "."@ && name != ".."@,
    ensures
        temp_for(name, pid) == "."@ + name + ".tmp."@ + digits(pid as nat),
{
    reveal_strlit(".");
    reveal_strlit("/");
    lemma_spans_of_name(name);
    assert(name.subrange(0, name.len() as int) =~= name);
    assert(name[0] != '/');
    if name == "/"@ {
        assert(name[0] == '/');
    }
    let t = "."@ + name + ".tmp."@ + digits(pid as nat);
    assert(t[0] == '.');
    assert(Seq::<char>::empty() + t =~= t);
}

} // verus!
