//! Comparing an embedded folder on disk against its manifest: which tracked
//! files were modified or deleted, which files are untracked, and where
//! symlinks sit. `status` reports these; `update` consults them before it
//! overwrites anything.
use vstd::prelude::*;
use crate::config::{EmbdEntry, FileLocks};
use crate::keymap::{KeyMap, keys_increasing, pairs_map};
use crate::order::{chars_lt, lemma_chars_lt_irreflexive, lemma_chars_lt_transitive,
    lemma_chars_lt_total, lemma_chars_lt_asymmetric, str_less};
use crate::paths::PathComponent;
use crate::relpath::{RelPath, rel_view, join_key, path_to_key};
use crate::text::str_eq;

verus! {

/// What was found on disk at a path of the scanned folder.
#[derive(Debug, PartialEq, Eq)]
pub enum DiskEntry {
    /// A regular file with this content hash.
    Regular { hash: String },
    /// A symlink (never followed).
    Symlink,
}

/// Per-file finding produced when comparing the manifest against the folder.
#[derive(Debug, PartialEq, Eq)]
pub enum FileChange {
    Modified(String),
    Deleted(String),
    Untracked(String),
    Symlink(String),
}

/// Whether the folder could be compared.
#[derive(Debug, Clone, Copy, PartialEq, Eq)]
pub enum EntryState {
    /// Folder exists. Drift status is determined by `changes`.
    Compared,
    /// Folder missing (or it could not be scanned).
    FolderMissing,
}

/// Aggregate report for a single entry.
pub struct EntryReport {
    pub folder: Vec<PathComponent>,
    pub state: EntryState,
    pub changes: Vec<FileChange>,
    pub allow_untracked: bool,
}

// ---------------------------------------------------------------------------
// Specification
// ---------------------------------------------------------------------------

/// The rank that orders kinds of change: modified, deleted, untracked,
/// symlink.
pub open spec fn rank_of(c: FileChange) -> u8 {
    match c {
        FileChange::Modified(_) => 0,
        FileChange::Deleted(_) => 1,
        FileChange::Untracked(_) => 2,
        FileChange::Symlink(_) => 3,
    }
}

/// The key a change is about.
pub open spec fn key_view(c: FileChange) -> Seq<char> {
    match c {
        FileChange::Modified(k) => k@,
        FileChange::Deleted(k) => k@,
        FileChange::Untracked(k) => k@,
        FileChange::Symlink(k) => k@,
    }
}

/// A change as its rank and key.
pub open spec fn change_view(c: FileChange) -> (u8, Seq<char>) {
    (rank_of(c), key_view(c))
}

/// The changes of a list, as ranks and keys.
pub open spec fn changes_view(cs: Seq<FileChange>) -> Seq<(u8, Seq<char>)> {
    cs.map_values(|c: FileChange| change_view(c))
}

/// The report order: by rank, then by key.
pub open spec fn change_lt(a: (u8, Seq<char>), b: (u8, Seq<char>)) -> bool {
    a.0 < b.0 || (a.0 == b.0 && chars_lt(a.1, b.1))
}

/// Whether a list of changes is in strictly increasing report order.
pub open spec fn changes_sorted(s: Seq<(u8, Seq<char>)>) -> bool {
    forall|i: int, j: int| 0 <= i < j < s.len() ==> change_lt(#[trigger] s[i], #[trigger] s[j])
}

/// Whether comparing `manifest` with what is on `disk` finds the change `c`:
/// - modified: tracked, on disk as a regular file with another hash;
/// - deleted: tracked, absent from disk;
/// - untracked: not tracked, on disk as a regular file;
/// - symlink: on disk as a symlink, tracked or not.
pub open spec fn change_expected(
    manifest: Map<Seq<char>, String>,
    disk: Map<Seq<char>, DiskEntry>,
    c: (u8, Seq<char>),
) -> bool {
    let k = c.1;
    if c.0 == 0 {
        manifest.contains_key(k) && disk.contains_key(k) && (match disk[k] {
            DiskEntry::Regular { hash } => hash@ != manifest[k]@,
            DiskEntry::Symlink => false,
        })
    } else if c.0 == 1 {
        manifest.contains_key(k) && !disk.contains_key(k)
    } else if c.0 == 2 {
        !manifest.contains_key(k) && disk.contains_key(k) && disk[k] is Regular
    } else if c.0 == 3 {
        disk.contains_key(k) && disk[k] is Symlink
    } else {
        false
    }
}

/// Whether a report shows drift: a missing folder always does; otherwise any
/// change but an untracked file that the entry allows.
pub open spec fn report_drifts(state: EntryState, changes: Seq<FileChange>, allow_untracked: bool) -> bool {
    match state {
        EntryState::FolderMissing => true,
        EntryState::Compared => exists|i: int|
            0 <= i < changes.len() && !(#[trigger] changes[i] is Untracked && allow_untracked),
    }
}

// ---------------------------------------------------------------------------
// Small functions
// ---------------------------------------------------------------------------

impl FileChange {
    /// Helper to convert [`FileChange`] to a marker (char).
    pub fn as_marker(&self) -> (m: char)
        ensures
            m == match *self {
                FileChange::Modified(_) => 'M',
                FileChange::Deleted(_) => 'D',
                FileChange::Untracked(_) => '?',
                FileChange::Symlink(_) => 'L',
            },
    {
        match self {
            FileChange::Modified(_) => 'M',
            FileChange::Deleted(_) => 'D',
            FileChange::Untracked(_) => '?',
            FileChange::Symlink(_) => 'L',
        }
    }
}

/// The rank of a change in report order.
pub fn change_rank(c: &FileChange) -> (r: u8)
    ensures
        r == rank_of(*c),
{
    match c {
        FileChange::Modified(_) => 0,
        FileChange::Deleted(_) => 1,
        FileChange::Untracked(_) => 2,
        FileChange::Symlink(_) => 3,
    }
}

/// The key a change is about.
pub fn key_of(c: &FileChange) -> (k: &str)
    ensures
        k@ == key_view(*c),
{
    match c {
        FileChange::Modified(k) => k.as_str(),
        FileChange::Deleted(k) => k.as_str(),
        FileChange::Untracked(k) => k.as_str(),
        FileChange::Symlink(k) => k.as_str(),
    }
}

fn change_less(a: &FileChange, b: &FileChange) -> (r: bool)
    ensures
        r == change_lt(change_view(*a), change_view(*b)),
{
    let ra = change_rank(a);
    let rb = change_rank(b);
    ra < rb || (ra == rb && str_less(key_of(a), key_of(b)))
}

impl EntryReport {
    /// Whether this report shows drift.
    pub fn has_drift(&self) -> (r: bool)
        ensures
            r == report_drifts(self.state, self.changes@, self.allow_untracked),
    {
        match self.state {
            EntryState::FolderMissing => true,
            EntryState::Compared => {
                let mut i: usize = 0;
                while i < self.changes.len()
                    invariant
                        i <= self.changes@.len(),
                        forall|j: int| 0 <= j < i ==> (#[trigger] self.changes@[j] is Untracked
                            && self.allow_untracked),
                    decreases self.changes.len() - i,
                {
                    match &self.changes[i] {
                        FileChange::Untracked(_) if self.allow_untracked => {},
                        _ => {
                            return true;
                        },
                    }
                    i = i + 1;
                }
                false
            },
        }
    }
}

// ---------------------------------------------------------------------------
// Scanning and comparing
// ---------------------------------------------------------------------------

/// The map a list of scanned paths gives: each path's key mapped to what was
/// found there, the later of two paths with one key winning.
pub open spec fn disk_map_of(found: Seq<(RelPath, DiskEntry)>) -> Map<Seq<char>, DiskEntry>
    decreases found.len(),
{
    if found.len() == 0 {
        Map::empty()
    } else {
        let last = found.last();
        disk_map_of(found.drop_last()).insert(join_key(rel_view(last.0)), last.1)
    }
}

/// Record what a scan of a folder found, by key.
pub fn scan_folder(found: &Vec<(RelPath, DiskEntry)>) -> (m: KeyMap<DiskEntry>)
    ensures
        m.wf(),
        m.map() == disk_map_of(found@),
{
    let mut m: KeyMap<DiskEntry> = KeyMap::new();
    let mut i: usize = 0;
    while i < found.len()
        invariant
            i <= found@.len(),
            m.wf(),
            m.map() == disk_map_of(found@.take(i as int)),
        decreases found.len() - i,
    {
        proof {
            assert(found@.take(i + 1).drop_last() =~= found@.take(i as int));
            assert(found@.take(i + 1).last() == found@[i as int]);
        }
        let key = path_to_key(found[i].0.as_slice());
        proof {
            assert(found@[i as int].0@.map_values(|s: String| s@) == rel_view(found@[i as int].0));
        }
        let entry = copy_disk_entry(&found[i].1);
        m.insert(key, entry);
        i = i + 1;
    }
    assert(found@.take(found@.len() as int) =~= found@);
    m
}

fn copy_disk_entry(e: &DiskEntry) -> (r: DiskEntry)
    ensures
        r == *e,
{
    match e {
        DiskEntry::Regular { hash } => DiskEntry::Regular { hash: hash.clone() },
        DiskEntry::Symlink => DiskEntry::Symlink,
    }
}

fn clone_key(k: &String) -> (r: String)
    ensures
        r@ == k@,
{
    k.clone()
}

/// Compare the manifest of `entry` with what a scan found on disk (`None`:
/// the folder is missing, or it could not be scanned). The changes come in a
/// stable order: modified, deleted, untracked, symlink; lexicographic within
/// each group.
pub fn inspect_entry(folder: &Vec<PathComponent>, entry: &EmbdEntry, on_disk: Option<&KeyMap<DiskEntry>>) -> (report: EntryReport)
    requires
        entry.files.wf(),
        on_disk matches Some(d) ==> d.wf(),
    ensures
        report.allow_untracked == entry.metadata.allow_untracked,
        report.folder@ == folder@,
        match on_disk {
            None => report.state == EntryState::FolderMissing && report.changes@.len() == 0,
            Some(d) => {
                &&& report.state == EntryState::Compared
                &&& changes_sorted(changes_view(report.changes@))
                &&& forall|c: (u8, Seq<char>)| changes_view(report.changes@).contains(c)
                    <==> change_expected(entry.files.map(), d.map(), c)
            },
        },
{
    let folder_copy = copy_folder(folder);
    let d = match on_disk {
        None => {
            return EntryReport {
                folder: folder_copy,
                state: EntryState::FolderMissing,
                changes: Vec::new(),
                allow_untracked: entry.metadata.allow_untracked,
            };
        },
        Some(d) => d,
    };
    let manifest = entry.files.as_map();
    let ghost mm = manifest.map();
    let ghost dm = d.map();
    let ghost mp = manifest.pairs();
    let ghost dp = d.pairs();
    let mut changes: Vec<FileChange> = Vec::new();
    // Modified / Deleted / Symlink-at-tracked-path
    let mut i: usize = 0;
    while i < manifest.len()
        invariant
            i <= mp.len(),
            mp == manifest.pairs(),
            mm == manifest.map(),
            dm == d.map(),
            manifest.wf(),
            d.wf(),
            forall|c: (u8, Seq<char>)| changes_view(changes@).contains(c) <==> (change_expected(
                mm,
                dm,
                c,
            ) && exists|j: int| 0 <= j < i && #[trigger] mp[j].0 == c.1),
            forall|a: int| #![trigger changes@[a]] 0 <= a < changes@.len() ==> exists|j: int|
                0 <= j < i && #[trigger] mp[j].0 == key_view(changes@[a]),
            forall|a: int, b: int| #![trigger changes@[a], changes@[b]] 0 <= a < b < changes@.len() ==> key_view(changes@[a])
                != key_view(changes@[b]),
        decreases mp.len() - i,
    {
        let key = manifest.key_at(i);
        let expected = manifest.value_at(i);
        proof {
            manifest.lemma_pair_in_map(i as int);
            lemma_tracked_change(mm, dm, key@);
        }
        let ghost k = key@;
        let ghost before = changes@;
        let mut added: Option<FileChange> = None;
        match d.get(key.as_str()) {
            Some(DiskEntry::Regular { hash }) => {
                if !str_eq(hash.as_str(), expected.as_str()) {
                    added = Some(FileChange::Modified(clone_key(key)));
                }
            },
            Some(DiskEntry::Symlink) => {
                added = Some(FileChange::Symlink(clone_key(key)));
            },
            None => {
                added = Some(FileChange::Deleted(clone_key(key)));
            },
        }
        assert(match added {
            Some(c) => tracked_change(mm, dm, k) == Some(change_view(c)),
            None => tracked_change(mm, dm, k) is None,
        });
        match added {
            Some(c) => {
                changes.push(c);
                assert(changes@ == before.push(c));
            },
            None => {},
        }
        proof {
            let after = changes@;
            // No earlier change is about `k`.
            assert forall|a: int| 0 <= a < before.len() implies key_view(#[trigger] before[a]) != k by {
                let j = choose|j: int| 0 <= j < i && #[trigger] mp[j].0 == key_view(before[a]);
                assert(chars_lt(mp[j].0, mp[i as int].0));
                lemma_chars_lt_irreflexive(k);
            }
            assert forall|c: (u8, Seq<char>)| changes_view(after).contains(c) <==> (change_expected(mm, dm, c)
                && exists|j: int| 0 <= j < i + 1 && #[trigger] mp[j].0 == c.1) by {
                lemma_view_push_contains(before, added, c);
                if c.1 == k {
                    assert(mp[i as int].0 == c.1);
                    if changes_view(before).contains(c) {
                        let a = choose|a: int| 0 <= a < changes_view(before).len() && changes_view(before)[a] == c;
                        assert(key_view(before[a]) == c.1);
                    }
                } else {
                    if exists|j: int| 0 <= j < i + 1 && #[trigger] mp[j].0 == c.1 {
                        let j = choose|j: int| 0 <= j < i + 1 && #[trigger] mp[j].0 == c.1;
                        assert(j != i);
                    }
                }
            }
            assert forall|a: int| #![trigger after[a]] 0 <= a < after.len() implies exists|j: int|
                0 <= j < i + 1 && #[trigger] mp[j].0 == key_view(after[a]) by {
                if a < before.len() {
                    assert(after[a] == before[a]);
                    let j = choose|j: int| 0 <= j < i && #[trigger] mp[j].0 == key_view(before[a]);
                    assert(mp[j].0 == key_view(after[a]));
                } else {
                    assert(mp[i as int].0 == key_view(after[a]));
                }
            }
            assert forall|a: int, b: int| #![trigger after[a], after[b]] 0 <= a < b < after.len() implies key_view(after[a]) != key_view(after[b]) by {
                if b < before.len() {
                    assert(after[a] == before[a] && after[b] == before[b]);
                } else {
                    assert(after[a] == before[a]);
                }
            }
        }
        i = i + 1;
    }
    // Untracked / new-symlink
    let mut j: usize = 0;
    while j < d.len()
        invariant
            j <= dp.len(),
            mp == manifest.pairs(),
            dp == d.pairs(),
            mm == manifest.map(),
            dm == d.map(),
            manifest.wf(),
            d.wf(),
            forall|c: (u8, Seq<char>)| changes_view(changes@).contains(c) <==> (change_expected(
                mm,
                dm,
                c,
            ) && (mm.contains_key(c.1) || exists|t: int| 0 <= t < j && #[trigger] dp[t].0 == c.1)),
            forall|a: int| #![trigger changes@[a]] 0 <= a < changes@.len() ==> (mm.contains_key(key_view(changes@[a]))
                || exists|t: int| 0 <= t < j && #[trigger] dp[t].0 == key_view(changes@[a])),
            forall|a: int, b: int| #![trigger changes@[a], changes@[b]] 0 <= a < b < changes@.len() ==> key_view(changes@[a])
                != key_view(changes@[b]),
        decreases dp.len() - j,
    {
        let key = d.key_at(j);
        let found = d.value_at(j);
        proof {
            d.lemma_pair_in_map(j as int);
        }
        let ghost k = key@;
        let ghost before = changes@;
        let ghost mut added: Option<FileChange> = None;
        if !manifest.contains_key(key.as_str()) {
            proof {
                lemma_untracked_change(mm, dm, k);
            }
            let c = match found {
                DiskEntry::Regular { .. } => FileChange::Untracked(clone_key(key)),
                DiskEntry::Symlink => FileChange::Symlink(clone_key(key)),
            };
            assert(untracked_change(dm, k) == change_view(c));
            proof {
                added = Some(c);
            }
            changes.push(c);
            assert(changes@ == before.push(added->Some_0));
        }
        proof {
            let after = changes@;
            if added is Some {
                assert(after == before.push(added->Some_0));
            } else {
                assert(after == before);
            }
            assert forall|a: int| 0 <= a < before.len() && !mm.contains_key(k) implies key_view(#[trigger] before[a]) != k by {
                if !mm.contains_key(key_view(before[a])) {
                    let t = choose|t: int| 0 <= t < j && #[trigger] dp[t].0 == key_view(before[a]);
                    assert(chars_lt(dp[t].0, dp[j as int].0));
                    lemma_chars_lt_irreflexive(k);
                }
            }
            assert forall|c: (u8, Seq<char>)| changes_view(after).contains(c) <==> (change_expected(mm, dm, c)
                && (mm.contains_key(c.1) || exists|t: int| 0 <= t < j + 1 && #[trigger] dp[t].0 == c.1)) by {
                lemma_view_push_contains(before, added, c);
                if c.1 == k {
                    assert(dp[j as int].0 == c.1);
                    if !mm.contains_key(k) && changes_view(before).contains(c) {
                        let a = choose|a: int| 0 <= a < changes_view(before).len() && changes_view(before)[a] == c;
                        assert(key_view(before[a]) == c.1);
                    }
                } else {
                    if exists|t: int| 0 <= t < j + 1 && #[trigger] dp[t].0 == c.1 {
                        let t = choose|t: int| 0 <= t < j + 1 && #[trigger] dp[t].0 == c.1;
                        assert(t != j);
                    }
                }
            }
            assert forall|a: int| #![trigger after[a]] 0 <= a < after.len() implies (mm.contains_key(key_view(after[a]))
                || exists|t: int| 0 <= t < j + 1 && #[trigger] dp[t].0 == key_view(after[a])) by {
                if a < before.len() {
                    assert(after[a] == before[a]);
                    if !mm.contains_key(key_view(after[a])) {
                        let t = choose|t: int| 0 <= t < j && #[trigger] dp[t].0 == key_view(before[a]);
                        assert(dp[t].0 == key_view(after[a]));
                    }
                } else {
                    assert(dp[j as int].0 == key_view(after[a]));
                }
            }
            assert forall|a: int, b: int| #![trigger after[a], after[b]] 0 <= a < b < after.len() implies key_view(after[a]) != key_view(after[b]) by {
                if b < before.len() {
                    assert(after[a] == before[a] && after[b] == before[b]);
                } else {
                    assert(after[a] == before[a]);
                }
            }
        }
        j = j + 1;
    }
    proof {
        assert forall|c: (u8, Seq<char>)| change_expected(mm, dm, c) implies (mm.contains_key(c.1)
            || exists|t: int| 0 <= t < dp.len() && #[trigger] dp[t].0 == c.1) by {
            if !mm.contains_key(c.1) {
                assert(dm.contains_key(c.1));
                let t = d.lemma_key_in_pairs(c.1);
            }
        }
    }
    let sorted = sort_changes(changes);
    proof {
        let u = changes_view(changes@);
        let s = changes_view(sorted@);
        assert forall|c: (u8, Seq<char>)| s.contains(c) <==> u.contains(c) by {
            lemma_view_contains_multiset(sorted@, changes@, c);
        }
    }
    EntryReport {
        folder: folder_copy,
        state: EntryState::Compared,
        changes: sorted,
        allow_untracked: entry.metadata.allow_untracked,
    }
}

fn copy_folder(folder: &Vec<PathComponent>) -> (r: Vec<PathComponent>)
    ensures
        r@ == folder@,
{
    let mut r: Vec<PathComponent> = Vec::new();
    let mut i: usize = 0;
    while i < folder.len()
        invariant
            i <= folder@.len(),
            r@ == folder@.take(i as int),
        decreases folder.len() - i,
    {
        let c = match &folder[i] {
            PathComponent::RootDir => PathComponent::RootDir,
            PathComponent::CurDir => PathComponent::CurDir,
            PathComponent::ParentDir => PathComponent::ParentDir,
            PathComponent::Normal(s) => PathComponent::Normal(s.clone()),
        };
        r.push(c);
        assert(r@ =~= folder@.take(i + 1));
        i = i + 1;
    }
    assert(folder@.take(folder@.len() as int) =~= folder@);
    r
}

/// The change found for a tracked key `k`, if any.
pub open spec fn tracked_change(mm: Map<Seq<char>, String>, dm: Map<Seq<char>, DiskEntry>, k: Seq<char>) -> Option<(u8, Seq<char>)> {
    if !dm.contains_key(k) {
        Some((1u8, k))
    } else {
        match dm[k] {
            DiskEntry::Regular { hash } => if hash@ != mm[k]@ {
                Some((0u8, k))
            } else {
                None
            },
            DiskEntry::Symlink => Some((3u8, k)),
        }
    }
}

proof fn lemma_tracked_change(mm: Map<Seq<char>, String>, dm: Map<Seq<char>, DiskEntry>, k: Seq<char>)
    requires
        mm.contains_key(k),
    ensures
        forall|c: (u8, Seq<char>)| c.1 == k ==> (change_expected(mm, dm, c) <==> tracked_change(mm, dm, k) == Some(c)),
{
}

/// The change found for an untracked key `k` that is on disk.
pub open spec fn untracked_change(dm: Map<Seq<char>, DiskEntry>, k: Seq<char>) -> (u8, Seq<char>) {
    match dm[k] {
        DiskEntry::Regular { .. } => (2u8, k),
        DiskEntry::Symlink => (3u8, k),
    }
}

proof fn lemma_untracked_change(mm: Map<Seq<char>, String>, dm: Map<Seq<char>, DiskEntry>, k: Seq<char>)
    requires
        !mm.contains_key(k),
        dm.contains_key(k),
    ensures
        forall|c: (u8, Seq<char>)| c.1 == k ==> (change_expected(mm, dm, c) <==> untracked_change(dm, k) == c),
{
}

/// Membership in the view of a list after an optional push.
proof fn lemma_view_push_contains(before: Seq<FileChange>, added: Option<FileChange>, c: (u8, Seq<char>))
    ensures
        changes_view(match added { Some(x) => before.push(x), None => before }).contains(c)
            <==> (changes_view(before).contains(c) || (added matches Some(x) && change_view(x) == c)),
{
    match added {
        Some(x) => {
            let after = before.push(x);
            assert(changes_view(after) =~= changes_view(before).push(change_view(x)));
            if changes_view(after).contains(c) {
                let a = choose|a: int| 0 <= a < changes_view(after).len() && changes_view(after)[a] == c;
                if a < before.len() {
                    assert(changes_view(before)[a] == c);
                }
            }
            if changes_view(before).contains(c) {
                let a = choose|a: int| 0 <= a < changes_view(before).len() && changes_view(before)[a] == c;
                assert(changes_view(after)[a] == c);
            }
            if change_view(x) == c {
                assert(changes_view(after)[before.len() as int] == c);
            }
        },
        None => {},
    }
}

/// Views of two lists with the same elements contain the same changes.
proof fn lemma_view_contains_multiset(a: Seq<FileChange>, b: Seq<FileChange>, c: (u8, Seq<char>))
    requires
        a.to_multiset() == b.to_multiset(),
    ensures
        changes_view(a).contains(c) <==> changes_view(b).contains(c),
{
    broadcast use vstd::seq_lib::group_to_multiset_ensures;
    if changes_view(a).contains(c) {
        let i = choose|i: int| 0 <= i < changes_view(a).len() && changes_view(a)[i] == c;
        assert(a.contains(a[i]));
        assert(b.to_multiset().count(a[i]) > 0);
        assert(b.contains(a[i]));
        let j = choose|j: int| 0 <= j < b.len() && b[j] == a[i];
        assert(changes_view(b)[j] == c);
    }
    if changes_view(b).contains(c) {
        let i = choose|i: int| 0 <= i < changes_view(b).len() && changes_view(b)[i] == c;
        assert(b.contains(b[i]));
        assert(a.to_multiset().count(b[i]) > 0);
        assert(a.contains(b[i]));
        let j = choose|j: int| 0 <= j < a.len() && a[j] == b[i];
        assert(changes_view(a)[j] == c);
    }
}

/// Sort changes into report order. Keys are pairwise distinct.
fn sort_changes(changes: Vec<FileChange>) -> (sorted: Vec<FileChange>)
    requires
        forall|a: int, b: int| #![trigger changes@[a], changes@[b]] 0 <= a < b < changes@.len() ==> key_view(changes@[a])
            != key_view(changes@[b]),
    ensures
        sorted@.to_multiset() == changes@.to_multiset(),
        changes_sorted(changes_view(sorted@)),
{
    broadcast use vstd::multiset::group_multiset_axioms, vstd::seq_lib::group_to_multiset_ensures;
    let mut out: Vec<FileChange> = Vec::new();
    let mut rest = changes;
    let ghost given = rest@;
    assert(out@.to_multiset() =~= vstd::multiset::Multiset::empty());
    assert(out@.to_multiset().add(rest@.to_multiset()) =~= given.to_multiset());
    while rest.len() > 0
        invariant
            changes_sorted(changes_view(out@)),
            out@.to_multiset().add(rest@.to_multiset()) == given.to_multiset(),
            // Every element of `out` and `rest` comes from `given`, and no
            // key is shared between them.
            forall|a: int| 0 <= a < out@.len() ==> given.contains(#[trigger] out@[a]),
            forall|a: int| 0 <= a < rest@.len() ==> given.contains(#[trigger] rest@[a]),
            forall|a: int, b: int| 0 <= a < out@.len() && 0 <= b < rest@.len() ==> key_view(#[trigger] out@[a]) != key_view(#[trigger] rest@[b]),
            forall|a: int, b: int| 0 <= a < b < rest@.len() ==> key_view(#[trigger] rest@[a]) != key_view(#[trigger] rest@[b]),
        decreases rest.len(),
    {
        let ghost rest_before = rest@;
        let item = rest.pop().unwrap();
        proof {
            assert(rest_before =~= rest@.push(item));
            vstd::seq_lib::to_multiset_build(rest@, item);
            assert(rest_before[rest_before.len() - 1] == item);
        }
        let ghost before = out@;
        let mut pos: usize = out.len();
        while pos > 0 && change_less(&item, &out[pos - 1])
            invariant
                pos <= out@.len(),
                out@ == before,
                forall|j: int| pos <= j < before.len() ==> change_lt(change_view(item), change_view(
                    #[trigger] before[j],
                )),
            decreases pos,
        {
            pos = pos - 1;
        }
        out.insert(pos, item);
        proof {
            let after = out@;
            assert(after =~= before.insert(pos as int, item));
            vstd::seq_lib::to_multiset_insert(before, pos as int, item);
            let av = changes_view(after);
            let bv = changes_view(before);
            assert forall|a: int| 0 <= a < before.len() implies key_view(#[trigger] before[a]) != key_view(item) by {
                assert(key_view(before[a]) != key_view(rest_before[rest_before.len() - 1]));
            }
            assert forall|a: int, b: int| 0 <= a < b < av.len() implies change_lt(#[trigger] av[a], #[trigger] av[b]) by {
                if b < pos {
                    assert(after[a] == before[a] && after[b] == before[b]);
                    assert(bv[a] == av[a] && bv[b] == av[b]);
                } else if b == pos {
                    assert(after[a] == before[a]);
                    assert(!change_lt(change_view(item), change_view(before[pos - 1])));
                    lemma_change_lt_total(change_view(before[pos - 1]), change_view(item));
                    if a < pos - 1 {
                        assert(bv[a] == change_view(before[a]) && bv[pos - 1] == change_view(before[pos - 1]));
                        lemma_change_lt_transitive(change_view(before[a]), change_view(before[pos - 1]), change_view(item));
                    }
                } else if a < pos {
                    assert(after[a] == before[a] && after[b] == before[b - 1]);
                    assert(bv[a] == av[a] && bv[b - 1] == av[b]);
                } else if a == pos {
                    assert(after[b] == before[b - 1]);
                } else {
                    assert(after[a] == before[a - 1] && after[b] == before[b - 1]);
                    assert(bv[a - 1] == av[a] && bv[b - 1] == av[b]);
                }
            }
            assert forall|a: int| 0 <= a < out@.len() implies given.contains(#[trigger] out@[a]) by {
                if a < pos {
                    assert(after[a] == before[a]);
                } else if a == pos {
                    assert(given.contains(rest_before[rest_before.len() - 1]));
                } else {
                    assert(after[a] == before[a - 1]);
                }
            }
            assert forall|a: int| 0 <= a < rest@.len() implies given.contains(#[trigger] rest@[a]) by {
                assert(rest@[a] == rest_before[a]);
            }
            assert forall|a: int, b: int| 0 <= a < out@.len() && 0 <= b < rest@.len() implies key_view(#[trigger] out@[a]) != key_view(#[trigger] rest@[b]) by {
                assert(rest@[b] == rest_before[b]);
                if a < pos {
                    assert(after[a] == before[a]);
                } else if a == pos {
                    assert(item == rest_before[rest_before.len() - 1]);
                } else {
                    assert(after[a] == before[a - 1]);
                }
            }
            assert forall|a: int, b: int| 0 <= a < b < rest@.len() implies key_view(#[trigger] rest@[a]) != key_view(#[trigger] rest@[b]) by {
                assert(rest@[a] == rest_before[a] && rest@[b] == rest_before[b]);
            }
        }
    }
    proof {
        assert(rest@ =~= Seq::<FileChange>::empty());
        assert(rest@.to_multiset() =~= vstd::multiset::Multiset::empty());
        assert(out@.to_multiset().add(vstd::multiset::Multiset::empty()) =~= out@.to_multiset());
    }
    out
}

proof fn lemma_change_lt_total(a: (u8, Seq<char>), b: (u8, Seq<char>))
    requires
        a.1 != b.1,
    ensures
        change_lt(a, b) || change_lt(b, a),
{
    lemma_chars_lt_total(a.1, b.1);
}

proof fn lemma_change_lt_transitive(a: (u8, Seq<char>), b: (u8, Seq<char>), c: (u8, Seq<char>))
    requires
        change_lt(a, b),
        change_lt(b, c),
    ensures
        change_lt(a, c),
{
    if a.0 == b.0 && b.0 == c.0 {
        lemma_chars_lt_transitive(a.1, b.1, c.1);
    }
}

// ---------------------------------------------------------------------------
// Laws
// ---------------------------------------------------------------------------

/// Whether the folder on disk holds exactly the manifest's files, each a
/// regular file with its recorded hash.
pub open spec fn disk_matches_manifest(manifest: Map<Seq<char>, String>, disk: Map<Seq<char>, DiskEntry>) -> bool {
    &&& forall|k: Seq<char>| #[trigger] disk.contains_key(k) ==> manifest.contains_key(k)
    &&& forall|k: Seq<char>| #[trigger] manifest.contains_key(k) ==> (disk.contains_key(k) && match disk[k] {
        DiskEntry::Regular { hash } => hash@ == manifest[k]@,
        DiskEntry::Symlink => false,
    })
}

/// Law: a folder is reported clean (no change at all) exactly when it holds
/// the manifest's files with their recorded hashes and nothing else.
pub proof fn law_clean_iff_matches_manifest(manifest: Map<Seq<char>, String>, disk: Map<Seq<char>, DiskEntry>)
    ensures
        (forall|c: (u8, Seq<char>)| !#[trigger] change_expected(manifest, disk, c)) <==> disk_matches_manifest(manifest, disk),
{
    if forall|c: (u8, Seq<char>)| !#[trigger] change_expected(manifest, disk, c) {
        assert forall|k: Seq<char>| #[trigger] disk.contains_key(k) implies manifest.contains_key(k) by {
            assert(!change_expected(manifest, disk, (2u8, k)));
            assert(!change_expected(manifest, disk, (3u8, k)));
        }
        assert forall|k: Seq<char>| #[trigger] manifest.contains_key(k) implies (disk.contains_key(k) && match disk[k] {
            DiskEntry::Regular { hash } => hash@ == manifest[k]@,
            DiskEntry::Symlink => false,
        }) by {
            assert(!change_expected(manifest, disk, (0u8, k)));
            assert(!change_expected(manifest, disk, (1u8, k)));
            assert(!change_expected(manifest, disk, (3u8, k)));
        }
    }
    if disk_matches_manifest(manifest, disk) {
        assert forall|c: (u8, Seq<char>)| !#[trigger] change_expected(manifest, disk, c) by {
            if disk.contains_key(c.1) {
                assert(manifest.contains_key(c.1));
            }
            if manifest.contains_key(c.1) {
                assert(disk.contains_key(c.1));
            }
        }
    }
}

/// Law: a modified tracked file is drift even when untracked files are
/// allowed.
pub proof fn law_modified_is_drift(changes: Seq<FileChange>, allow_untracked: bool, i: int)
    requires
        0 <= i < changes.len(),
        changes[i] is Modified,
    ensures
        report_drifts(EntryState::Compared, changes, allow_untracked),
{
    assert(!(changes[i] is Untracked && allow_untracked));
}

/// Law: when untracked files are allowed, a report whose only changes are
/// untracked files shows no drift; when they are not, any change is drift.
pub proof fn law_untracked_drift_follows_flag(changes: Seq<FileChange>, allow_untracked: bool)
    requires
        forall|i: int| 0 <= i < changes.len() ==> #[trigger] changes[i] is Untracked,
    ensures
        report_drifts(EntryState::Compared, changes, allow_untracked) == (!allow_untracked && changes.len() > 0),
{
    if !allow_untracked && changes.len() > 0 {
        assert(!(changes[0] is Untracked && allow_untracked));
    }
}

/// Law: a missing folder is always drift.
pub proof fn law_missing_folder_is_drift(changes: Seq<FileChange>, allow_untracked: bool)
    ensures
        report_drifts(EntryState::FolderMissing, changes, allow_untracked),
{
}

/// Law: every change but an untracked file is drift, whether untracked
/// files are allowed or not; with untracked files not allowed, a compared
/// folder drifts exactly when it shows any change at all.
pub proof fn law_only_allowed_untracked_files_are_not_drift(changes: Seq<FileChange>, allow_untracked: bool, i: int)
    requires
        0 <= i < changes.len(),
    ensures
        !(changes[i] is Untracked) ==> report_drifts(EntryState::Compared, changes, allow_untracked),
        report_drifts(EntryState::Compared, changes, false) <==> changes.len() > 0,
{
    assert(!(changes[i] is Untracked && false));
    if !(changes[i] is Untracked) {
        assert(!(changes[i] is Untracked && allow_untracked));
    }
}

} // verus!
