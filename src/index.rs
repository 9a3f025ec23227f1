//! Construction of the snapshot tree from a depth-first listing of the
//! indexed directory.
use vstd::prelude::*;
use vstd::string::*;
use crate::tree::{tree_wf, FileNode, FileTree};

verus! {

/// What kind of filesystem object a listed entry is.
#[derive(Clone, Copy, Debug, PartialEq, Eq, Structural)]
pub enum EntryKind {
    /// A regular file of `size` bytes.
    File { size: u64 },
    Directory,
    /// A symbolic link, which the index does not support.
    Symlink,
}

/// One entry met while walking the root directory.
///
/// Entry `i` of a listing becomes node `i + 1` of the tree; node 0 is the
/// root. `parent` is the node index of the directory that holds the entry.
pub struct IndexEntry {
    pub parent: usize,
    pub name: String,
    pub kind: EntryKind,
}

/// Why a listing does not give a tree.
#[derive(Clone, Copy, Debug, PartialEq, Eq, Structural)]
pub enum IndexError {
    /// Some entry beneath the root is a symbolic link.
    UnsupportedEntry,
    /// Some entry names a parent that is not an earlier directory.
    MalformedListing,
}

pub open spec fn has_symlink(es: Seq<IndexEntry>) -> bool {
    exists|i: int| 0 <= i < es.len() && (#[trigger] es[i]).kind is Symlink
}

/// Whether node `p` of the tree built from `es` is a directory.
pub open spec fn is_dir_node(es: Seq<IndexEntry>, p: int) -> bool {
    p == 0 || (1 <= p <= es.len() && es[p - 1].kind is Directory)
}

/// Each entry's parent is the root or an earlier directory entry.
pub open spec fn listing_wf(es: Seq<IndexEntry>) -> bool {
    forall|i: int|
        0 <= i < es.len() ==> (#[trigger] es[i]).parent <= i && is_dir_node(es, es[i].parent as int)
}

/// The node indices, in listing order, of the entries among the first `k`
/// whose parent is node `p`.
pub open spec fn children_upto(es: Seq<IndexEntry>, p: int, k: int) -> Seq<usize>
    decreases k,
{
    if k <= 0 {
        Seq::empty()
    } else if es[k - 1].parent == p {
        children_upto(es, p, k - 1).push(k as usize)
    } else {
        children_upto(es, p, k - 1)
    }
}

/// The nodes directly inside node `p` of the tree built from `es`.
pub open spec fn children_of(es: Seq<IndexEntry>, p: int) -> Seq<usize> {
    children_upto(es, p, es.len() as int)
}

pub open spec fn entry_size(e: IndexEntry) -> u64 {
    match e.kind {
        EntryKind::File { size } => size,
        _ => 0,
    }
}

/// The text after the last '/' of `p` (all of `p` when it holds none).
pub open spec fn last_segment(p: Seq<char>) -> Seq<char>
    decreases p.len(),
{
    if p.len() == 0 || p.last() == '/' {
        Seq::empty()
    } else {
        last_segment(p.drop_last()).push(p.last())
    }
}

/// The tree `nodes` is exactly the one that the listing `es` under a root
/// named `root_name` describes.
pub open spec fn tree_of_listing(es: Seq<IndexEntry>, root_name: Seq<char>, nodes: Seq<FileNode>) -> bool {
    &&& nodes.len() == es.len() + 1
    &&& nodes[0].name@ == root_name
    &&& nodes[0].size == 0
    &&& nodes[0].children matches Some(c) && c@ == children_of(es, 0)
    &&& forall|i: int|
        0 <= i < es.len() ==> {
            let n = #[trigger] nodes[i + 1];
            &&& n.name@ == es[i].name@
            &&& n.size == entry_size(es[i])
            &&& (n.children is Some <==> es[i].kind is Directory)
            &&& (n.children matches Some(c) ==> c@ == children_of(es, i + 1))
        }
}

proof fn lemma_children_bounds(es: Seq<IndexEntry>, p: int, k: int)
    requires
        listing_wf(es),
        0 <= k <= es.len(),
        es.len() < usize::MAX,
    ensures
        forall|j: int|
            0 <= j < children_upto(es, p, k).len() ==> p < #[trigger] children_upto(es, p, k)[j] <= k,
        p >= k ==> children_upto(es, p, k).len() == 0,
    decreases k,
{
    if k > 0 {
        lemma_children_bounds(es, p, k - 1);
        assert(es[k - 1].parent <= k - 1);
        let prev = children_upto(es, p, k - 1);
        let cur = children_upto(es, p, k);
        assert forall|j: int| 0 <= j < cur.len() implies p < #[trigger] cur[j] <= k by {
            if j < prev.len() {
                assert(cur[j] == prev[j]);
            } else {
                assert(cur[j] == k as usize);
            }
        }
    }
}

/// How many of the first `k` entries sit directly in the root and are
/// regular files.
pub open spec fn top_level_files(es: Seq<IndexEntry>, k: int) -> nat
    decreases k,
{
    if k <= 0 {
        0
    } else {
        top_level_files(es, k - 1) + if es[k - 1].parent == 0 && es[k - 1].kind is File {
            1nat
        } else {
            0
        }
    }
}

/// How many of the first `k` entries sit directly in the root and are
/// directories.
pub open spec fn top_level_dirs(es: Seq<IndexEntry>, k: int) -> nat
    decreases k,
{
    if k <= 0 {
        0
    } else {
        top_level_dirs(es, k - 1) + if es[k - 1].parent == 0 && es[k - 1].kind is Directory {
            1nat
        } else {
            0
        }
    }
}

proof fn lemma_children_count(es: Seq<IndexEntry>, k: int)
    requires
        !has_symlink(es),
        0 <= k <= es.len(),
    ensures
        children_upto(es, 0, k).len() == top_level_files(es, k) + top_level_dirs(es, k),
    decreases k,
{
    if k > 0 {
        lemma_children_count(es, k - 1);
        assert(!(es[k - 1].kind is Symlink));
    }
}

/// A root holding `N` regular files and `M` directories at its top level
/// gets exactly `N + M` children in the tree built from its listing.
pub proof fn lemma_root_children_count(es: Seq<IndexEntry>, root_name: Seq<char>, nodes: Seq<FileNode>)
    requires
        !has_symlink(es),
        tree_of_listing(es, root_name, nodes),
    ensures
        nodes[0].children->0@.len() == top_level_files(es, es.len() as int) + top_level_dirs(
            es,
            es.len() as int,
        ),
{
    lemma_children_count(es, es.len() as int);
}

/// The last segment of `path`, as the name of the root node.
fn last_segment_of(path: &str) -> (r: String)
    ensures
        r@ == last_segment(path@),
{
    let n = path.unicode_len();
    let mut j: usize = n;
    assert(path@.subrange(0, n as int) =~= path@);
    assert(last_segment(path@) =~= last_segment(path@.subrange(0, j as int)) + path@.subrange(
        j as int,
        n as int,
    ));
    while j > 0 && path.get_char(j - 1) != '/'
        invariant
            n == path@.len(),
            j <= n,
            last_segment(path@) == last_segment(path@.subrange(0, j as int)) + path@.subrange(
                j as int,
                n as int,
            ),
        decreases j,
    {
        let ghost pre = path@.subrange(0, j as int);
        assert(pre.drop_last() =~= path@.subrange(0, j - 1));
        assert(path@.subrange(j - 1, n as int) =~= seq![pre.last()] + path@.subrange(
            j as int,
            n as int,
        ));
        assert(last_segment(path@.subrange(0, j - 1)).push(pre.last()) =~= last_segment(
            path@.subrange(0, j - 1),
        ) + seq![pre.last()]);
        assert(last_segment(path@) =~= last_segment(path@.subrange(0, j - 1)) + path@.subrange(
            j - 1,
            n as int,
        ));
        j = j - 1;
    }
    assert(last_segment(path@.subrange(0, j as int)) =~= Seq::<char>::empty());
    assert(last_segment(path@) =~= path@.subrange(j as int, n as int));
    path.substring_char(j, n).to_owned()
}

/// Builds the snapshot tree of a root directory at `root_path` from the
/// depth-first listing `entries` of everything beneath it.
///
/// A symbolic link anywhere in the listing fails the whole build; no
/// partial tree is returned.
pub fn build_index(root_path: &str, entries: &Vec<IndexEntry>) -> (r: Result<FileTree, IndexError>)
    requires
        entries@.len() < usize::MAX,
    ensures
        r matches Err(IndexError::UnsupportedEntry) <==> has_symlink(entries@),
        r matches Err(IndexError::MalformedListing) <==> !has_symlink(entries@) && !listing_wf(
            entries@,
        ),
        r matches Ok(t) ==> tree_of_listing(entries@, last_segment(root_path@), t@),
{
    let len = entries.len();
    let mut i: usize = 0;
    while i < len
        invariant
            len == entries@.len(),
            i <= len,
            forall|j: int| 0 <= j < i ==> !((#[trigger] entries@[j]).kind is Symlink),
        decreases len - i,
    {
        if matches!(entries[i].kind, EntryKind::Symlink) {
            return Err(IndexError::UnsupportedEntry);
        }
        i = i + 1;
    }
    i = 0;
    while i < len
        invariant
            len == entries@.len(),
            i <= len,
            !has_symlink(entries@),
            forall|j: int|
                0 <= j < i ==> (#[trigger] entries@[j]).parent <= j && is_dir_node(
                    entries@,
                    entries@[j].parent as int,
                ),
        decreases len - i,
    {
        let p = entries[i].parent;
        if p > i {
            return Err(IndexError::MalformedListing);
        }
        if p > 0 && !matches!(entries[p - 1].kind, EntryKind::Directory) {
            return Err(IndexError::MalformedListing);
        }
        i = i + 1;
    }
    let ghost es = entries@;
    let mut kids: Vec<Vec<usize>> = Vec::new();
    kids.push(Vec::new());
    i = 0;
    while i < len
        invariant
            len == es.len(),
            es == entries@,
            listing_wf(es),
            len < usize::MAX,
            i <= len,
            kids@.len() == i + 1,
            forall|p: int| 0 <= p <= i ==> (#[trigger] kids@[p])@ == children_upto(es, p, i as int),
        decreases len - i,
    {
        proof {
            lemma_children_bounds(es, i + 1, i as int);
        }
        kids.push(Vec::new());
        let par = entries[i].parent;
        assert(entries@[i as int].parent <= i);
        let mut v: Vec<usize> = Vec::new();
        std::mem::swap(&mut v, &mut kids[par]);
        v.push(i + 1);
        std::mem::swap(&mut v, &mut kids[par]);
        i = i + 1;
        assert forall|p: int| 0 <= p <= i implies (#[trigger] kids@[p])@ == children_upto(
            es,
            p,
            i as int,
        ) by {
            if p == i {
                assert(children_upto(es, p, i - 1).len() == 0);
            }
        }
    }
    let mut nodes: Vec<FileNode> = Vec::new();
    let mut v: Vec<usize> = Vec::new();
    std::mem::swap(&mut v, &mut kids[0]);
    nodes.push(FileNode { name: last_segment_of(root_path), size: 0, children: Some(v) });
    i = 0;
    while i < len
        invariant
            len == es.len(),
            es == entries@,
            listing_wf(es),
            len < usize::MAX,
            i <= len,
            kids@.len() == len + 1,
            nodes@.len() == i + 1,
            forall|p: int| i < p <= len ==> (#[trigger] kids@[p])@ == children_of(es, p),
            nodes@[0].name@ == last_segment(root_path@),
            nodes@[0].size == 0,
            nodes@[0].children matches Some(c) && c@ == children_of(es, 0),
            forall|j: int|
                0 <= j < i ==> {
                    let n = #[trigger] nodes@[j + 1];
                    &&& n.name@ == es[j].name@
                    &&& n.size == entry_size(es[j])
                    &&& (n.children is Some <==> es[j].kind is Directory)
                    &&& (n.children matches Some(c) ==> c@ == children_of(es, j + 1))
                },
        decreases len - i,
    {
        let e = &entries[i];
        let size: u64 = match e.kind {
            EntryKind::File { size } => size,
            _ => 0,
        };
        let children = if matches!(e.kind, EntryKind::Directory) {
            let mut v: Vec<usize> = Vec::new();
            std::mem::swap(&mut v, &mut kids[i + 1]);
            Some(v)
        } else {
            None
        };
        nodes.push(FileNode { name: e.name.clone(), size, children });
        assert(nodes@[i + 1].name@ == es[i as int].name@);
        i = i + 1;
    }
    proof {
        assert forall|m: int, k: int|
            #![trigger nodes@[m].children->0@[k]]
            0 <= m < nodes@.len() && nodes@[m].children is Some && 0 <= k
                < nodes@[m].children->0@.len() implies m < nodes@[m].children->0@[k]
            < nodes@.len() by {
            lemma_children_bounds(es, m, len as int);
            if m > 0 {
                assert(nodes@[(m - 1) + 1] == nodes@[m]);
            }
        }
    }
    Ok(FileTree::from_nodes(nodes))
}

} // verus!
