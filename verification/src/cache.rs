//! Per-entry hash manifest: the files of a synced embed with their hashes,
//! and the commit the folder reflects (distinct from the commit an entry's
//! configuration wants; a mismatch between them is the "stale" status).
use vstd::prelude::*;
use crate::config::manifest_of;
use crate::keymap::KeyMap;
use crate::relpath::{RelPath, path_to_key, rel_view};

verus! {

/// The schema version written into new manifests.
pub const CURRENT_SCHEMA: u32 = 1;

/// Snapshot of a synced embed's contents.
pub struct Manifest {
    pub schema_version: u32,
    pub commit_hash: String,
    pub files: KeyMap<String>,
}

impl Manifest {
    /// Build a manifest from the hashed regular files under a folder (its
    /// `.git` excluded, symlinks never followed), recording each under its
    /// key, with the current schema version.
    pub fn build_from_path(hashed_files: Vec<(RelPath, String)>, commit_hash: String) -> (m: Self)
        ensures
            m.schema_version == CURRENT_SCHEMA,
            m.commit_hash == commit_hash,
            m.files.wf(),
            m.files.map() == manifest_of(hashed_files@),
    {
        let mut files: KeyMap<String> = KeyMap::new();
        let ghost all = hashed_files@;
        let mut i: usize = 0;
        let n = hashed_files.len();
        while i < n
            invariant
                i <= n == all.len(),
                hashed_files@ == all,
                files.wf(),
                files.map() == manifest_of(all.take(i as int)),
            decreases n - i,
        {
            let key = path_to_key(hashed_files[i].0.as_slice());
            let hash = hashed_files[i].1.clone();
            proof {
                assert(all.take(i + 1).drop_last() =~= all.take(i as int));
                assert(all.take(i + 1).last() == all[i as int]);
                assert(hashed_files@[i as int].0@.map_values(|s: String| s@) == rel_view(all[i as int].0));
            }
            files.insert(key, hash);
            i = i + 1;
        }
        assert(all.take(n as int) =~= all);
        Manifest { schema_version: CURRENT_SCHEMA, commit_hash, files }
    }
}

} // verus!
