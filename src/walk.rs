//! The tree enumerator's logic: from the entries that a recursive walk of a
//! root yields, the root-relative paths of its regular files.

use vstd::prelude::*;
use crate::order::same_bytes;

verus! {

/// The byte that joins the components of a relative path: `/`.
pub const SEPARATOR: u8 = 0x2f;

/// One entry yielded by a recursive walk of a tree.
#[derive(Debug, PartialEq, Eq)]
pub enum WalkEntry {
    /// An entry that could be read: its full path, as components, and whether
    /// it is a regular file.
    Visited { path: Vec<Vec<u8>>, is_file: bool },
    /// An entry that could not be read or stat'ed.
    Unreadable,
}

/// The full path of a regular file, or nothing for any other entry.
pub open spec fn file_of(e: WalkEntry) -> Option<Seq<Seq<u8>>> {
    match e {
        WalkEntry::Visited { path, is_file } => if is_file {
            Some(path.deep_view())
        } else {
            None
        },
        WalkEntry::Unreadable => None,
    }
}

/// `root` is a leading run of the components of `path`.
pub open spec fn under(root: Seq<Seq<u8>>, path: Seq<Seq<u8>>) -> bool {
    root.len() <= path.len() && path.take(root.len() as int) == root
}

/// The components joined by the separator.
pub open spec fn join_components(c: Seq<Seq<u8>>) -> Seq<u8>
    decreases c.len(),
{
    if c.len() == 0 {
        seq![]
    } else if c.len() == 1 {
        c[0]
    } else {
        join_components(c.drop_last()) + seq![SEPARATOR] + c.last()
    }
}

/// The path, relative to `root`, of a path under it.
pub open spec fn relative(root: Seq<Seq<u8>>, path: Seq<Seq<u8>>) -> Seq<u8> {
    join_components(path.skip(root.len() as int))
}

/// Every regular file among the entries lies under `root`.
pub open spec fn normalizable(root: Seq<Seq<u8>>, entries: Seq<WalkEntry>) -> bool {
    forall|i: int|
        0 <= i < entries.len() && (#[trigger] file_of(entries[i])) is Some ==> under(
            root,
            file_of(entries[i])->0,
        )
}

/// The relative paths of the regular files among the entries, in walk order.
pub open spec fn file_paths(root: Seq<Seq<u8>>, entries: Seq<WalkEntry>) -> Seq<Seq<u8>>
    decreases entries.len(),
{
    if entries.len() == 0 {
        seq![]
    } else {
        let earlier = file_paths(root, entries.drop_last());
        match file_of(entries.last()) {
            Some(p) => earlier.push(relative(root, p)),
            None => earlier,
        }
    }
}

/// Appends the bytes of `b` to `out`.
fn append_bytes(out: &mut Vec<u8>, b: &Vec<u8>)
    ensures
        final(out)@ == old(out)@ + b@,
{
    let mut k: usize = 0;
    while k < b.len()
        invariant
            k <= b.len(),
            out@ == old(out)@ + b@.take(k as int),
        decreases b.len() - k,
    {
        out.push(b[k]);
        assert(b@.take(k + 1) =~= b@.take(k as int).push(b[k as int]));
        k = k + 1;
    }
    assert(b@.take(k as int) =~= b@);
}

/// The path of `path` relative to `root`, its remaining components joined by
/// the separator; nothing where `root` is not a leading run of `path`.
pub fn strip_root(root: &Vec<Vec<u8>>, path: &Vec<Vec<u8>>) -> (r: Option<Vec<u8>>)
    ensures
        r is Some <==> under(root.deep_view(), path.deep_view()),
        r is Some ==> r->0@ == relative(root.deep_view(), path.deep_view()),
{
    let ghost dr = root.deep_view();
    let ghost dp = path.deep_view();
    if root.len() > path.len() {
        return None;
    }
    let mut k: usize = 0;
    while k < root.len()
        invariant
            k <= root.len() <= path.len(),
            dr == root.deep_view(),
            dp == path.deep_view(),
            dp.take(k as int) == dr.take(k as int),
        decreases root.len() - k,
    {
        proof {
            assert(root[k as int].deep_view() =~= root[k as int]@);
            assert(path[k as int].deep_view() =~= path[k as int]@);
        }
        if !same_bytes(&root[k], &path[k]) {
            assert(dp.take(dr.len() as int)[k as int] != dr[k as int]);
            return None;
        }
        assert(dp.take(k + 1) =~= dr.take(k + 1));
        k = k + 1;
    }
    assert(dr.take(k as int) =~= dr);
    let ghost rest = dp.skip(dr.len() as int);
    let mut out: Vec<u8> = Vec::new();
    let mut m: usize = k;
    while m < path.len()
        invariant
            root.len() <= m <= path.len(),
            dp == path.deep_view(),
            rest == dp.skip(root.len() as int),
            out@ == join_components(rest.take(m - root.len())),
        decreases path.len() - m,
    {
        let ghost done = rest.take(m - root.len());
        if m > root.len() {
            out.push(SEPARATOR);
        }
        proof {
            assert(path[m as int].deep_view() =~= path[m as int]@);
        }
        append_bytes(&mut out, &path[m]);
        proof {
            let next = rest.take(m + 1 - root.len());
            assert(next.drop_last() =~= done);
            assert(next.last() == path[m as int]@);
            if m == root.len() {
                assert(done.len() == 0);
                assert(out@ =~= next[0]);
            } else {
                assert(out@ =~= join_components(done) + seq![SEPARATOR] + next.last());
            }
        }
        m = m + 1;
    }
    assert(rest.take(m - root.len()) =~= rest);
    Some(out)
}

/// The relative paths of the regular files among `entries`, in walk order,
/// skipping every entry that is not a regular file or could not be read;
/// nothing where a regular file lies outside `root`.
pub fn relative_files(root: &Vec<Vec<u8>>, entries: &Vec<WalkEntry>) -> (r: Option<Vec<Vec<u8>>>)
    ensures
        r is Some <==> normalizable(root.deep_view(), entries@),
        r is Some ==> r->0.deep_view() == file_paths(root.deep_view(), entries@),
{
    let ghost dr = root.deep_view();
    let mut out: Vec<Vec<u8>> = Vec::new();
    let mut i: usize = 0;
    while i < entries.len()
        invariant
            i <= entries.len(),
            dr == root.deep_view(),
            normalizable(dr, entries@.take(i as int)),
            out.deep_view() == file_paths(dr, entries@.take(i as int)),
        decreases entries.len() - i,
    {
        let ghost before = out.deep_view();
        let ghost next = entries@.take(i + 1);
        proof {
            assert(next.drop_last() =~= entries@.take(i as int));
            assert(next.last() == entries@[i as int]);
        }
        match &entries[i] {
            WalkEntry::Visited { path, is_file } => {
                if *is_file {
                    match strip_root(root, path) {
                        Some(rel) => {
                            assert(rel.deep_view() =~= rel@);
                            out.push(rel);
                            proof {
                                assert(out.deep_view() =~= before.push(
                                    relative(dr, path.deep_view()),
                                ));
                            }
                        },
                        None => {
                            proof {
                                assert(file_of(entries@[i as int]) is Some);
                            }
                            return None;
                        },
                    }
                }
            },
            WalkEntry::Unreadable => {},
        }
        proof {
            assert forall|k: int|
                0 <= k < next.len() && (#[trigger] file_of(next[k])) is Some implies under(
                dr,
                file_of(next[k])->0,
            ) by {
                if k < i {
                    assert(next[k] == entries@.take(i as int)[k]);
                }
            }
        }
        i = i + 1;
    }
    assert(entries@.take(i as int) =~= entries@);
    Some(out)
}

} // verus!
