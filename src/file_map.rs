//! The file service: a snapshot tree of a root directory, paths resolved
//! against it, and file contents served through a content cache.
//!
//! Disk reads happen outside this module: `get_file` either answers from the
//! cache or says which file to read, and `finish_read` takes the bytes read.
use vstd::prelude::*;
use vstd::string::*;
use std::sync::Arc;
use crate::cache::{after_get, after_put, key_position, ContentCache};
use crate::index::{build_index, has_symlink, last_segment, listing_wf, tree_of_listing, IndexEntry, IndexError};
use crate::tree::{resolve_path, FileNode, FileTree, ResolveError};

verus! {

/// An indexed root directory.
pub struct FileMap {
    /// The path of the root directory as given.
    pub root_path: String,
    /// The snapshot taken when the map was built.
    pub tree: FileTree,
}

/// What a query needs next.
pub enum Fetch {
    /// The bytes were in the cache.
    Cached(Arc<Vec<u8>>),
    /// The bytes must be read from `disk_path`; `size_hint` is the size the
    /// file had when indexed.
    ReadFromDisk { disk_path: String, size_hint: u64 },
}

/// Relies on Arc::clone: the new handle shares the same bytes.
#[verifier::external_body]
fn share(a: &Arc<Vec<u8>>) -> (r: Arc<Vec<u8>>)
    ensures
        r@ == a@,
{
    Arc::clone(a)
}

impl FileMap {
    /// Indexes the root directory at `root_dir` from the depth-first listing
    /// `entries` of everything beneath it.
    pub fn from_root_dir(root_dir: &str, entries: &Vec<IndexEntry>) -> (r: Result<FileMap, IndexError>)
        requires
            entries@.len() < usize::MAX,
        ensures
            r matches Err(IndexError::UnsupportedEntry) <==> has_symlink(entries@),
            r matches Err(IndexError::MalformedListing) <==> !has_symlink(entries@) && !listing_wf(
                entries@,
            ),
            r matches Ok(m) ==> m.root_path@ == root_dir@ && tree_of_listing(
                entries@,
                last_segment(root_dir@),
                m.tree@,
            ),
    {
        match build_index(root_dir, entries) {
            Ok(tree) => Ok(FileMap { root_path: root_dir.to_owned(), tree }),
            Err(e) => Err(e),
        }
    }

    /// The node that `path` names; the empty path names the root.
    pub fn get_file_ref(&self, path: &str) -> (r: Result<&FileNode, ResolveError>)
        ensures
            match r {
                Ok(n) => exists|i: int|
                    resolve_path(self.tree@, path@) == Ok::<int, ResolveError>(i) && 0 <= i
                        < self.tree@.len() && *n == self.tree@[i],
                Err(e) => resolve_path(self.tree@, path@) == Err::<int, ResolveError>(e),
            },
    {
        match self.tree.resolve(path) {
            Ok(i) => Ok(self.tree.node(i)),
            Err(e) => Err(e),
        }
    }

    /// Answers a query for `path`: from the cache on a hit, which marks the
    /// entry most recently used; otherwise, once `path` resolves, with the
    /// file to read. Resolution failures come back as they are.
    pub fn get_file(&self, cache: &mut ContentCache, path: &str) -> (r: Result<Fetch, ResolveError>)
        ensures
            final(cache).capacity() == old(cache).capacity(),
            final(cache)@ == after_get(old(cache)@, path@),
            match key_position(old(cache)@, path@) {
                Some(i) => r matches Ok(Fetch::Cached(v)) && v@ == old(cache)@[i].1,
                None => match resolve_path(self.tree@, path@) {
                    Ok(n) => r matches Ok(Fetch::ReadFromDisk { disk_path, size_hint })
                        && disk_path@ == self.root_path@ + seq!['/'] + path@ && 0 <= n
                        < self.tree@.len() && size_hint == self.tree@[n].size,
                    Err(e) => r matches Err(f) && f == e,
                },
            },
    {
        match cache.get(path) {
            Some(v) => Ok(Fetch::Cached(v)),
            None => {
                match self.tree.resolve(path) {
                    Ok(i) => {
                        let size_hint = self.tree.node(i).size;
                        let mut disk_path = self.root_path.clone();
                        disk_path.append("/");
                        disk_path.append(path);
                        proof {
                            reveal_strlit("/");
                        }
                        assert(disk_path@ =~= self.root_path@ + seq!['/'] + path@);
                        Ok(Fetch::ReadFromDisk { disk_path, size_hint })
                    },
                    Err(e) => Err(e),
                }
            },
        }
    }

    /// Completes a query for `path` whose file was read as `bytes`: stores
    /// them as the most recently used entry and returns them.
    pub fn finish_read(&self, cache: &mut ContentCache, path: &str, bytes: Vec<u8>) -> (r: Arc<
        Vec<u8>,
    >)
        ensures
            r@ == bytes@,
            final(cache).capacity() == old(cache).capacity(),
            final(cache)@ == after_put(old(cache)@, old(cache).capacity(), path@, bytes@),
    {
        let v = Arc::new(bytes);
        cache.put(path.to_owned(), share(&v));
        v
    }
}

} // verus!
