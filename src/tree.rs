//! The snapshot tree: an arena of nodes addressed by index, and the
//! resolution of '/'-separated relative paths against it.
use vstd::prelude::*;
use vstd::string::*;

verus! {

/// One filesystem entry as it stood when the tree was indexed.
///
/// `children` is `Some` exactly for a directory; it lists the arena indices
/// of the entries directly inside it. A regular file has `children == None`.
pub struct FileNode {
    pub name: String,
    pub size: u64,
    pub children: Option<Vec<usize>>,
}

/// Why a path could not be resolved.
#[derive(Clone, Copy, Debug, PartialEq, Eq, Structural)]
pub enum ResolveError {
    /// A segment names no entry of the directory reached so far.
    NotFound,
    /// A segment remains but the path so far names a regular file.
    NotADirectory,
}

/// Every child index of a directory points past its parent and into the
/// arena; node 0 is the root and is a directory.
pub open spec fn tree_wf(nodes: Seq<FileNode>) -> bool {
    &&& nodes.len() > 0
    &&& nodes[0].children is Some
    &&& forall|i: int, k: int|
        #![trigger nodes[i].children->0@[k]]
        0 <= i < nodes.len() && nodes[i].children is Some && 0 <= k
            < nodes[i].children->0@.len() ==> i < nodes[i].children->0@[k] < nodes.len()
}

/// The first index at or after `i` that holds '/' (or the length).
pub open spec fn seg_end(p: Seq<char>, i: int) -> int
    decreases p.len() - i,
{
    if i >= p.len() || p[i] == '/' {
        i
    } else {
        seg_end(p, i + 1)
    }
}

pub proof fn lemma_seg_end(p: Seq<char>, i: int)
    requires
        0 <= i <= p.len(),
    ensures
        i <= seg_end(p, i) <= p.len(),
        seg_end(p, i) < p.len() ==> p[seg_end(p, i)] == '/',
        forall|j: int| i <= j < seg_end(p, i) ==> p[j] != '/',
    decreases p.len() - i,
{
    if i < p.len() && p[i] != '/' {
        lemma_seg_end(p, i + 1);
    }
}

/// The first of `kids[k..]` whose node is named `name`.
pub open spec fn find_first(nodes: Seq<FileNode>, kids: Seq<usize>, name: Seq<char>, k: int) -> Option<
    int,
>
    decreases kids.len() - k,
{
    if k < 0 || k >= kids.len() {
        None
    } else if nodes[kids[k] as int].name@ == name {
        Some(kids[k] as int)
    } else {
        find_first(nodes, kids, name, k + 1)
    }
}

/// The child of directory `node` named `name`, if any.
pub open spec fn find_child(nodes: Seq<FileNode>, node: int, name: Seq<char>) -> Option<int> {
    find_first(nodes, nodes[node].children->0@, name, 0)
}

/// Resolution of the segments of `p` that begin at `start`, descending from `node`.
pub open spec fn resolve_from(nodes: Seq<FileNode>, node: int, p: Seq<char>, start: int) -> Result<
    int,
    ResolveError,
>
    decreases p.len() - start,
    via resolve_from_decreases
{
    if start < 0 || start > p.len() {
        Err(ResolveError::NotFound)
    } else if nodes[node].children is None {
        Err(ResolveError::NotADirectory)
    } else {
        let e = seg_end(p, start);
        match find_child(nodes, node, p.subrange(start, e)) {
            None => Err(ResolveError::NotFound),
            Some(c) => if e >= p.len() {
                Ok(c)
            } else {
                resolve_from(nodes, c, p, e + 1)
            },
        }
    }
}

#[via_fn]
proof fn resolve_from_decreases(nodes: Seq<FileNode>, node: int, p: Seq<char>, start: int) {
    if 0 <= start <= p.len() {
        lemma_seg_end(p, start);
    }
}

/// The node that `p` names: the root for the empty path, otherwise the
/// node reached by descending once per '/'-separated segment.
pub open spec fn resolve_path(nodes: Seq<FileNode>, p: Seq<char>) -> Result<int, ResolveError> {
    if p.len() == 0 {
        Ok(0)
    } else {
        resolve_from(nodes, 0, p, 0)
    }
}

/// An immutable snapshot of a directory tree.
pub struct FileTree {
    nodes: Vec<FileNode>,
}

impl View for FileTree {
    type V = Seq<FileNode>;

    closed spec fn view(&self) -> Seq<FileNode> {
        self.nodes@
    }
}

/// Whether `name` equals the characters `p[start..end]`.
fn name_matches(name: &String, p: &str, start: usize, end: usize) -> (r: bool)
    requires
        start <= end <= p@.len(),
    ensures
        r == (name@ == p@.subrange(start as int, end as int)),
{
    let s = name.as_str();
    let n = s.unicode_len();
    if n != end - start {
        return false;
    }
    let mut i: usize = 0;
    while i < n
        invariant
            n == s@.len(),
            s@ == name@,
            n == end - start,
            start <= end <= p@.len(),
            i <= n,
            forall|j: int| 0 <= j < i ==> s@[j] == p@[start + j],
        decreases n - i,
    {
        if s.get_char(i) != p.get_char(start + i) {
            assert(name@[i as int] != p@.subrange(start as int, end as int)[i as int]);
            return false;
        }
        i = i + 1;
    }
    assert(name@ =~= p@.subrange(start as int, end as int));
    true
}

impl FileTree {
    #[verifier::type_invariant]
    spec fn inv(&self) -> bool {
        tree_wf(self.nodes@)
    }

    pub(crate) fn from_nodes(nodes: Vec<FileNode>) -> (t: FileTree)
        requires
            tree_wf(nodes@),
        ensures
            t@ == nodes@,
    {
        FileTree { nodes }
    }

    /// Number of nodes in the arena.
    pub fn len(&self) -> (r: usize)
        ensures
            r == self@.len(),
    {
        self.nodes.len()
    }

    /// The node at arena index `i`.
    pub fn node(&self, i: usize) -> (r: &FileNode)
        requires
            i < self@.len(),
        ensures
            *r == self@[i as int],
    {
        &self.nodes[i]
    }

    /// The root node.
    pub fn head(&self) -> (r: &FileNode)
        ensures
            *r == self@[0],
    {
        proof {
            use_type_invariant(self);
        }
        &self.nodes[0]
    }

    /// The child of directory `node` whose name is `p[start..end]`.
    fn find_child(&self, node: usize, p: &str, start: usize, end: usize) -> (r: Option<usize>)
        requires
            node < self@.len(),
            self@[node as int].children is Some,
            start <= end <= p@.len(),
        ensures
            match r {
                Some(c) => find_child(self@, node as int, p@.subrange(start as int, end as int))
                    == Some(c as int),
                None => find_child(self@, node as int, p@.subrange(start as int, end as int))
                    is None,
            },
    {
        proof {
            use_type_invariant(self);
        }
        let kids = self.nodes[node].children.as_ref().unwrap();
        assert forall|j: int| 0 <= j < kids@.len() implies kids@[j] < self@.len() by {
            assert(self.nodes@[node as int].children->0@[j] == kids@[j]);
        }
        let ghost name = p@.subrange(start as int, end as int);
        let mut k: usize = 0;
        while k < kids.len()
            invariant
                kids@ == self@[node as int].children->0@,
                self@ == self.nodes@,
                k <= kids@.len(),
                start <= end <= p@.len(),
                name == p@.subrange(start as int, end as int),
                find_child(self@, node as int, name) == find_first(self@, kids@, name, k as int),
                forall|j: int| 0 <= j < kids@.len() ==> kids@[j] < self@.len(),
            decreases kids.len() - k,
        {
            let c = kids[k];
            if name_matches(&self.nodes[c].name, p, start, end) {
                return Some(c);
            }
            k = k + 1;
        }
        None
    }

    /// Resolves `path` against the tree: the empty path names the root; any
    /// other path descends once per '/'-separated segment.
    pub fn resolve(&self, path: &str) -> (r: Result<usize, ResolveError>)
        ensures
            match r {
                Ok(i) => resolve_path(self@, path@) == Ok::<int, ResolveError>(i as int) && i
                    < self@.len(),
                Err(e) => resolve_path(self@, path@) == Err::<int, ResolveError>(e),
            },
    {
        proof {
            use_type_invariant(self);
        }
        let n = path.unicode_len();
        if n == 0 {
            return Ok(0);
        }
        let mut node: usize = 0;
        let mut start: usize = 0;
        loop
            invariant
                n == path@.len(),
                n > 0,
                start <= n,
                node < self@.len(),
                self@ == self.nodes@,
                tree_wf(self@),
                resolve_path(self@, path@) == resolve_from(self@, node as int, path@, start as int),
            decreases n - start,
        {
            if self.nodes[node].children.is_none() {
                return Err(ResolveError::NotADirectory);
            }
            let mut e: usize = start;
            while e < n && path.get_char(e) != '/'
                invariant
                    n == path@.len(),
                    start <= e <= n,
                    seg_end(path@, start as int) == seg_end(path@, e as int),
                decreases n - e,
            {
                e = e + 1;
            }
            proof {
                lemma_seg_end(path@, start as int);
            }
            match self.find_child(node, path, start, e) {
                None => {
                    return Err(ResolveError::NotFound);
                },
                Some(c) => {
                    proof {
                        let kids = self@[node as int].children->0@;
                        lemma_find_first_in(self@, kids, path@.subrange(start as int, e as int), 0);
                    }
                    if e >= n {
                        return Ok(c);
                    }
                    node = c;
                    start = e + 1;
                },
            }
        }
    }
}

/// A found child is one of the listed children.
pub proof fn lemma_find_first_in(nodes: Seq<FileNode>, kids: Seq<usize>, name: Seq<char>, k: int)
    ensures
        find_first(nodes, kids, name, k) matches Some(c) ==> exists|j: int|
            #![trigger kids[j]]
            0 <= j < kids.len() && kids[j] == c && nodes[c].name@ == name,
    decreases kids.len() - k,
{
    if 0 <= k < kids.len() && nodes[kids[k] as int].name@ != name {
        lemma_find_first_in(nodes, kids, name, k + 1);
    }
}

proof fn lemma_seg_end_prefix(q: Seq<char>, s: Seq<char>, i: int)
    requires
        0 <= i <= q.len(),
    ensures
        seg_end(q + seq!['/'] + s, i) == seg_end(q, i),
    decreases q.len() - i,
{
    let p = q + seq!['/'] + s;
    if i < q.len() {
        assert(p[i] == q[i]);
        if q[i] != '/' {
            lemma_seg_end_prefix(q, s, i + 1);
        }
    } else {
        assert(p[i] == '/');
    }
}

/// Resolving `q + "/" + s` from `node` first resolves the segments of `q`,
/// then continues from the node reached with the segments of `s`.
proof fn lemma_resolve_from_concat(nodes: Seq<FileNode>, node: int, q: Seq<char>, s: Seq<char>, start: int)
    requires
        tree_wf(nodes),
        0 <= node < nodes.len(),
        0 <= start <= q.len(),
    ensures
        resolve_from(nodes, node, q + seq!['/'] + s, start) == match resolve_from(nodes, node, q, start) {
            Ok(d) => resolve_from(nodes, d, q + seq!['/'] + s, q.len() + 1 as int),
            Err(e) => Err(e),
        },
    decreases q.len() - start,
{
    let p = q + seq!['/'] + s;
    if nodes[node].children is Some {
        lemma_seg_end_prefix(q, s, start);
        lemma_seg_end(q, start);
        let e = seg_end(q, start);
        assert(p.subrange(start, e) =~= q.subrange(start, e));
        let kids = nodes[node].children->0@;
        lemma_find_first_in(nodes, kids, q.subrange(start, e), 0);
        if let Some(c) = find_child(nodes, node, q.subrange(start, e)) {
            let j = choose|j: int| #![trigger kids[j]] 0 <= j < kids.len() && kids[j] == c && nodes[c].name@ == q.subrange(start, e);
            assert(nodes[node].children->0@[j] == kids[j]);
            if e < q.len() {
                lemma_resolve_from_concat(nodes, c, q, s, e + 1);
            }
        }
    }
}

/// A path whose leading part names a directory, and whose last segment names
/// nothing in that directory, resolves to "not found".
pub proof fn lemma_missing_last_segment(nodes: Seq<FileNode>, q: Seq<char>, s: Seq<char>)
    requires
        tree_wf(nodes),
        q.len() > 0,
        resolve_path(nodes, q) matches Ok(d) && nodes[d].children is Some && find_child(nodes, d, s)
            is None,
        forall|j: int| 0 <= j < s.len() ==> s[j] != '/',
    ensures
        resolve_path(nodes, q + seq!['/'] + s) == Err::<int, ResolveError>(ResolveError::NotFound),
{
    let p = q + seq!['/'] + s;
    lemma_resolve_from_concat(nodes, 0, q, s, 0);
    let d = resolve_path(nodes, q)->Ok_0;
    lemma_seg_end_in_tail(q, s, q.len() + 1 as int);
    assert(p.subrange(q.len() + 1 as int, p.len() as int) =~= s);
}

proof fn lemma_seg_end_in_tail(q: Seq<char>, s: Seq<char>, i: int)
    requires
        q.len() + 1 <= i <= q.len() + 1 + s.len(),
        forall|j: int| 0 <= j < s.len() ==> s[j] != '/',
    ensures
        seg_end(q + seq!['/'] + s, i) == q.len() + 1 + s.len(),
    decreases q.len() + 1 + s.len() - i,
{
    let p = q + seq!['/'] + s;
    if i < p.len() {
        assert(p[i] == s[i - q.len() - 1]);
        lemma_seg_end_in_tail(q, s, i + 1);
    }
}

/// A path whose leading part names a regular file resolves to "not a
/// directory", whatever follows.
pub proof fn lemma_through_regular_file(nodes: Seq<FileNode>, q: Seq<char>, s: Seq<char>)
    requires
        tree_wf(nodes),
        q.len() > 0,
        resolve_path(nodes, q) matches Ok(f) && nodes[f].children is None,
    ensures
        resolve_path(nodes, q + seq!['/'] + s) == Err::<int, ResolveError>(ResolveError::NotADirectory),
{
    lemma_resolve_from_concat(nodes, 0, q, s, 0);
    lemma_resolve_in_tree(nodes, 0, q, 0);
}

/// Every node that resolution reaches lies in the arena.
pub proof fn lemma_resolve_in_tree(nodes: Seq<FileNode>, node: int, p: Seq<char>, start: int)
    requires
        tree_wf(nodes),
        0 <= node < nodes.len(),
    ensures
        resolve_from(nodes, node, p, start) matches Ok(d) ==> node < d < nodes.len(),
    decreases p.len() - start,
{
    if 0 <= start <= p.len() && nodes[node].children is Some {
        lemma_seg_end(p, start);
        let e = seg_end(p, start);
        let kids = nodes[node].children->0@;
        lemma_find_first_in(nodes, kids, p.subrange(start, e), 0);
        if let Some(c) = find_child(nodes, node, p.subrange(start, e)) {
            let j = choose|j: int| #![trigger kids[j]] 0 <= j < kids.len() && kids[j] == c && nodes[c].name@ == p.subrange(start, e);
            assert(nodes[node].children->0@[j] == kids[j]);
            if e < p.len() {
                lemma_resolve_in_tree(nodes, c, p, e + 1);
            }
        }
    }
}

/// A single-segment path resolves by descending once from the root: to the
/// root's child of that name, never to the root itself.
pub proof fn lemma_single_segment(nodes: Seq<FileNode>, s: Seq<char>)
    requires
        tree_wf(nodes),
        s.len() > 0,
        forall|j: int| 0 <= j < s.len() ==> s[j] != '/',
    ensures
        resolve_path(nodes, s) == match find_child(nodes, 0, s) {
            Some(c) => Ok::<int, ResolveError>(c),
            None => Err(ResolveError::NotFound),
        },
        resolve_path(nodes, s) != Ok::<int, ResolveError>(0),
{
    lemma_seg_end(s, 0);
    assert(s.subrange(0, s.len() as int) =~= s);
    lemma_resolve_in_tree(nodes, 0, s, 0);
}

} // verus!
