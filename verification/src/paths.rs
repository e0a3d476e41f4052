//! Paths of the library, as strings.
//!
//! A path below the library root is the root, one `/`, and the path relative
//! to the root. The functions here take such paths apart and put them
//! together again.

use vstd::prelude::*;
use crate::text::chars_of;

verus! {

/// The views of a list of paths.
pub open spec fn path_views(files: Seq<String>) -> Seq<Seq<char>> {
    files.map_values(|file: String| file@)
}

/// `root`, a `/`, and `relative`.
pub open spec fn joined(root: Seq<char>, relative: Seq<char>) -> Seq<char> {
    root.push('/') + relative
}

/// `path` is `root`, a `/`, and something more (possibly empty).
pub open spec fn is_under(root: Seq<char>, path: Seq<char>) -> bool {
    &&& root.len() < path.len()
    &&& path.take(root.len() as int) == root
    &&& path[root.len() as int] == '/'
}

/// The paths below `root`, as a predicate.
pub open spec fn below(root: Seq<char>) -> spec_fn(Seq<char>) -> bool {
    |path: Seq<char>| is_under(root, path)
}

/// What follows `root` and the `/` behind it in `path`.
pub open spec fn relative_of(root: Seq<char>, path: Seq<char>) -> Seq<char> {
    path.skip(root.len() as int + 1)
}

/// Whether `c` separates the components of a path as a client may write it.
pub open spec fn is_separator(c: char) -> bool {
    c == '/' || c == '\\'
}

/// Where the last component of `path` begins: behind its last separator, or
/// at 0 where it has none.
pub open spec fn name_start(path: Seq<char>) -> int
    decreases path.len(),
{
    if path.len() == 0 {
        0
    } else if is_separator(path.last()) {
        path.len() as int
    } else {
        name_start(path.drop_last())
    }
}

/// The last component of `path`; empty where `path` ends in a separator.
pub open spec fn file_name_of(path: Seq<char>) -> Seq<char> {
    path.skip(name_start(path))
}

/// The path of `relative` below `root`.
pub fn resolve(root: &str, relative: &str) -> (out: String)
    ensures
        out@ == joined(root@, relative@),
{
    let mut out = String::from_str(root);
    proof {
        reveal_strlit("/");
    }
    out.append("/");
    out.append(relative);
    assert(out@ =~= joined(root@, relative@));
    out
}

/// Whether `path` lies below `root`.
pub fn under_root(root: &str, path: &str) -> (out: bool)
    ensures
        out == is_under(root@, path@),
{
    let r = chars_of(root);
    let p = chars_of(path);
    if r.len() >= p.len() {
        return false;
    }
    if p[r.len()] != '/' {
        return false;
    }
    let mut i: usize = 0;
    while i < r.len()
        invariant
            i <= r.len() < p.len(),
            r@ == root@,
            p@ == path@,
            p@.take(i as int) == r@.take(i as int),
        decreases r.len() - i,
    {
        if r[i] != p[i] {
            assert(p@.take(r.len() as int)[i as int] != r@[i as int]);
            return false;
        }
        assert(p@.take(i + 1) =~= p@.take(i as int).push(p@[i as int]));
        assert(r@.take(i + 1) =~= r@.take(i as int).push(r@[i as int]));
        i += 1;
    }
    assert(r@.take(r.len() as int) =~= r@);
    true
}

/// The path of `path` relative to `root`, for a path below `root`.
pub(crate) fn strip_root(root: &str, path: &str) -> (out: String)
    requires
        is_under(root@, path@),
    ensures
        out@ == relative_of(root@, path@),
{
    let to = path.unicode_len();
    let from = root.unicode_len() + 1;
    let tail = path.substring_char(from, to);
    assert(tail@ =~= relative_of(root@, path@));
    String::from_str(tail)
}

/// The path of `path` relative to `root`, where `path` lies below `root`.
pub fn relative_to(root: &str, path: &str) -> (out: Option<String>)
    ensures
        match out {
            Some(relative) => is_under(root@, path@) && relative@ == relative_of(root@, path@),
            None => !is_under(root@, path@),
        },
{
    if under_root(root, path) {
        Some(strip_root(root, path))
    } else {
        None
    }
}

/// The last component of `path`, with `/` and `\` both taken as separators.
pub fn file_name(path: &str) -> (out: String)
    ensures
        out@ == file_name_of(path@),
{
    let p = chars_of(path);
    let mut i: usize = p.len();
    assert(path@.take(i as int) =~= path@);
    while i > 0 && !(p[i - 1] == '/' || p[i - 1] == '\\')
        invariant
            i <= p.len(),
            p@ == path@,
            name_start(path@) == name_start(path@.take(i as int)),
        decreases i,
    {
        assert(path@.take(i as int).drop_last() =~= path@.take(i - 1));
        i -= 1;
    }
    assert(name_start(path@) == i);
    let tail = path.substring_char(i, p.len());
    assert(tail@ =~= file_name_of(path@));
    String::from_str(tail)
}

/// Taking a path apart and putting it together again gives the path; putting
/// one together and taking it apart gives the relative path.
pub proof fn lemma_relative_round_trip(root: Seq<char>, path: Seq<char>, relative: Seq<char>)
    ensures
        is_under(root, joined(root, relative)),
        relative_of(root, joined(root, relative)) == relative,
        is_under(root, path) ==> joined(root, relative_of(root, path)) == path,
{
    let j = joined(root, relative);
    assert(j.take(root.len() as int) =~= root);
    assert(relative_of(root, j) =~= relative);
    if is_under(root, path) {
        assert(joined(root, relative_of(root, path)) =~= path) by {
            let back = joined(root, relative_of(root, path));
            assert(back.len() == path.len());
            assert forall|i: int| 0 <= i < path.len() implies back[i] == path[i] by {
                if i < root.len() {
                    assert(path.take(root.len() as int)[i] == root[i]);
                }
            }
        }
    }
}

/// Of paths that all lie below `root`, those below `root` are all.
pub proof fn lemma_all_below(root: Seq<char>, paths: Seq<Seq<char>>)
    requires
        forall|i: int| 0 <= i < paths.len() ==> is_under(root, #[trigger] paths[i]),
    ensures
        paths.filter(below(root)) == paths,
    decreases paths.len(),
{
    reveal(Seq::filter);
    if paths.len() > 0 {
        lemma_all_below(root, paths.drop_last());
        assert(paths.drop_last().push(paths.last()) =~= paths);
    }
}

} // verus!
