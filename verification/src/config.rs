//! The configuration of one embedded folder: the metadata pinned in its
//! `.embd` file and the manifest of the files it holds, path to hash.
use vstd::prelude::*;
use crate::keymap::KeyMap;
use crate::relpath::{RelPath, rel_view, join_key, path_to_key};

verus! {

/// Represents the metadata stored for a single entry in `embd`'s
/// configuration file.
#[derive(Debug, PartialEq, Eq)]
pub struct Metadata {
    pub remote: String,
    pub commit_hash: String,
    pub allow_untracked: bool,
    /// Glob patterns; when non-empty, only matching files are pulled.
    pub include_patterns: Vec<String>,
    /// Glob patterns; matching files are never pulled (excludes win over the
    /// others).
    pub exclude_patterns: Vec<String>,
}

/// "Lock file" content: pairs of file path from the embedded folder's root
/// (as a key) and the file's hash.
pub struct FileLocks {
    files: KeyMap<String>,
}

/// The manifest a list of hashed files gives: each file's key mapped to its
/// hash, the later of two files with one key winning.
pub open spec fn manifest_of(hashed: Seq<(RelPath, String)>) -> Map<Seq<char>, String>
    decreases hashed.len(),
{
    if hashed.len() == 0 {
        Map::empty()
    } else {
        let last = hashed.last();
        manifest_of(hashed.drop_last()).insert(join_key(rel_view(last.0)), last.1)
    }
}

impl FileLocks {
    /// The invariant: the underlying map is well formed.
    pub closed spec fn wf(&self) -> bool {
        self.files.wf()
    }

    /// The manifest: key to hash.
    pub closed spec fn map(&self) -> Map<Seq<char>, String> {
        self.files.map()
    }

    /// An empty manifest.
    pub fn new() -> (l: Self)
        ensures
            l.wf(),
            l.map() == Map::<Seq<char>, String>::empty(),
    {
        FileLocks { files: KeyMap::new() }
    }

    /// Build the manifest of a folder from its hashed files: each file's
    /// path (relative to the folder) is recorded under its key.
    pub fn build_from_path(hashed_files: Vec<(RelPath, String)>) -> (l: Self)
        ensures
            l.wf(),
            l.map() == manifest_of(hashed_files@),
    {
        let mut files: KeyMap<String> = KeyMap::new();
        let mut rest = hashed_files;
        let ghost all = rest@;
        let mut i: usize = 0;
        let n = rest.len();
        while i < n
            invariant
                i <= n == all.len(),
                rest@ == all,
                files.wf(),
                files.map() == manifest_of(all.take(i as int)),
            decreases n - i,
        {
            let key = path_to_key(rest[i].0.as_slice());
            let hash = rest[i].1.clone();
            proof {
                assert(all.take(i + 1).drop_last() =~= all.take(i as int));
                assert(all.take(i + 1).last() == all[i as int]);
                assert(rest@[i as int].0@.map_values(|s: String| s@) == rel_view(all[i as int].0));
            }
            files.insert(key, hash);
            i = i + 1;
        }
        assert(all.take(n as int) =~= all);
        FileLocks { files }
    }

    /// Borrow the underlying path -> sha256 hash map.
    pub fn as_map(&self) -> (m: &KeyMap<String>)
        requires
            self.wf(),
        ensures
            m.wf(),
            m.map() == self.map(),
    {
        &self.files
    }

    /// Record `hash` under `key`, replacing what was recorded there.
    pub fn insert(&mut self, key: String, hash: String)
        requires
            old(self).wf(),
        ensures
            final(self).wf(),
            final(self).map() == old(self).map().insert(key@, hash),
    {
        self.files.insert(key, hash);
    }
}

/// Represents a single entry in the `embd` configuration: each embedded
/// folder has its own `.embd` file holding exactly one `EmbdEntry`.
pub struct EmbdEntry {
    pub metadata: Metadata,
    pub files: FileLocks,
}

} // verus!
