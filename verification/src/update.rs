//! The decisions of `embd update`: when an entry is already up to date, when
//! local drift blocks the update, and which file operations bring an embedded
//! folder into agreement with a newly pinned tree.
//!
//! Cloning, copying and removing files happen outside; the plan computed here
//! says exactly which keys are written, deleted or swept away.
use vstd::prelude::*;
use crate::keymap::KeyMap;
use crate::relpath::{RelPath, rel_view, key_to_path, key_parts, path_lt, path_less};
use crate::scan::{EntryReport, EntryState, FileChange, DiskEntry, report_drifts, change_expected,
    disk_matches_manifest, law_clean_iff_matches_manifest};
use crate::text::str_eq;
use vstd::string::StringSliceAdditionalSpecFns;

verus! {

/// Per-entry outcome.
#[derive(Debug, PartialEq, Eq)]
pub enum Outcome {
    /// Clean, not stale, no `--rev` (or rev resolves to the existing pin). No
    /// clone done.
    UpToDate,
    /// Drift detected, `--force` not given.
    SkippedDrift,
    /// No manifest to compare against, `--force` not given.
    SkippedNoLockfile,
    /// Applied: files synced, manifest saved, config saved if `--rev` bumped
    /// the pin.
    Updated { old_commit: String, new_commit: String, changes: Vec<UpdateChange> },
}

impl Outcome {
    /// Whether this outcome makes the command fail.
    pub fn is_failure(&self) -> (r: bool)
        ensures
            r == (*self is SkippedDrift || *self is SkippedNoLockfile),
    {
        match self {
            Outcome::SkippedDrift | Outcome::SkippedNoLockfile => true,
            _ => false,
        }
    }
}

/// One file operation of an update.
#[derive(Debug, PartialEq, Eq)]
pub enum UpdateChange {
    /// The file was (re)written from the new tree.
    Wrote(String),
    /// A file of the old manifest that the new tree no longer has was deleted.
    Deleted(String),
    /// An untracked file was swept away (`--overwrite`).
    Removed(String),
}

/// What is at a tracked path of the destination, not following symlinks.
pub enum Observed {
    /// Nothing, or a directory or other entry that is neither a file nor a
    /// symlink.
    Missing,
    /// A regular file; its hash, when it could be read.
    File { hash: Option<String> },
    /// A symlink.
    Symlink,
}

/// Why the arguments of `update` were refused.
#[derive(Debug, Clone, Copy, PartialEq, Eq)]
pub enum UpdateArgsError {
    /// `--overwrite` was given without `--force`.
    OverwriteWithoutForce,
    /// `--rev` was given with other than exactly one name.
    RevNeedsOneName,
}

/// Check the arguments of `update`: `--overwrite` requires `--force`, and
/// `--rev` requires exactly one name.
pub fn validate_update_args(overwrite: bool, force: bool, rev_given: bool, names: usize) -> (r: Result<
    (),
    UpdateArgsError,
>)
    ensures
        r == (if overwrite && !force {
            Err::<(), UpdateArgsError>(UpdateArgsError::OverwriteWithoutForce)
        } else if rev_given && names != 1 {
            Err(UpdateArgsError::RevNeedsOneName)
        } else {
            Ok(())
        }),
{
    if overwrite && !force {
        return Err(UpdateArgsError::OverwriteWithoutForce);
    }
    if rev_given && names != 1 {
        return Err(UpdateArgsError::RevNeedsOneName);
    }
    Ok(())
}

// ---------------------------------------------------------------------------
// Gates
// ---------------------------------------------------------------------------

/// The decision taken before cloning anything.
pub enum Gate {
    /// Stop here with this outcome.
    Stop(Outcome),
    /// Clone the pinned (or requested) revision and carry on.
    Proceed,
}

/// Whether a report is clean: the folder was compared and nothing differs.
pub open spec fn report_clean(report: EntryReport) -> bool {
    report.state == EntryState::Compared && report.changes@.len() == 0
}

/// The decision before cloning: a clean folder with no `--rev` is up to
/// date; file-level drift (any change but an allowed untracked file) blocks
/// the update unless `--force` is given; otherwise the update proceeds (a
/// missing folder is recreated).
pub fn gate_before_clone(report: &EntryReport, rev_given: bool, force: bool) -> (g: Gate)
    ensures
        g matches Gate::Stop(o) ==> ((o is UpToDate && !rev_given && report_clean(*report)) || (
        o is SkippedDrift && !force && report.state == EntryState::Compared && report_drifts(
            report.state,
            report.changes@,
            report.allow_untracked,
        ) && !(!rev_given && report_clean(*report)))),
        g is Proceed <==> !(!rev_given && report_clean(*report)) && !(!force && report.state
            == EntryState::Compared && report_drifts(report.state, report.changes@, report.allow_untracked)),
{
    let compared = match report.state {
        EntryState::Compared => true,
        EntryState::FolderMissing => false,
    };
    if !rev_given && compared && report.changes.len() == 0 {
        return Gate::Stop(Outcome::UpToDate);
    }
    if compared && !force && report.has_drift() {
        return Gate::Stop(Outcome::SkippedDrift);
    }
    Gate::Proceed
}

/// After the requested revision was resolved to `new_commit`: whether it is
/// the existing pin on a clean folder, so there is nothing to do.
pub fn up_to_date_after_resolve(report: &EntryReport, rev_given: bool, new_commit: &str, pinned: &str) -> (r: bool)
    ensures
        r == (rev_given && new_commit@ == pinned@ && report_clean(*report)),
{
    let compared = match report.state {
        EntryState::Compared => true,
        EntryState::FolderMissing => false,
    };
    rev_given && str_eq(new_commit, pinned) && compared && report.changes.len() == 0
}

/// Whether the update moves the entry's pin (and so saves the config first).
pub fn pin_moves(rev_given: bool, new_commit: &str, pinned: &str) -> (r: bool)
    ensures
        r == (rev_given && new_commit@ != pinned@),
{
    rev_given && !str_eq(new_commit, pinned)
}

/// What an update does once the revision to apply was resolved to a commit.
pub enum AfterResolve {
    /// Nothing: the requested revision is the existing pin and the folder is
    /// clean.
    UpToDate,
    /// Bring the folder to the resolved commit.
    Apply {
        /// The folder is missing: create it first.
        create_folder: bool,
        /// The folder was compared: its manifest is what is on disk now
        /// (otherwise the folder is taken to hold nothing).
        diff_against_manifest: bool,
        /// The pin moves to the resolved commit.
        move_pin: bool,
    },
}

/// The decision after the requested revision was resolved to `new_commit`.
pub fn after_resolve(report: &EntryReport, rev_given: bool, new_commit: &str, pinned: &str) -> (a: AfterResolve)
    ensures
        a is UpToDate <==> (rev_given && new_commit@ == pinned@ && report_clean(*report)),
        a matches AfterResolve::Apply { create_folder, diff_against_manifest, move_pin } ==> {
            &&& create_folder == (report.state == EntryState::FolderMissing)
            &&& diff_against_manifest == (report.state == EntryState::Compared)
            &&& move_pin == (rev_given && new_commit@ != pinned@)
        },
{
    if up_to_date_after_resolve(report, rev_given, new_commit, pinned) {
        return AfterResolve::UpToDate;
    }
    let compared = match report.state {
        EntryState::Compared => true,
        EntryState::FolderMissing => false,
    };
    AfterResolve::Apply {
        create_folder: !compared,
        diff_against_manifest: compared,
        move_pin: pin_moves(rev_given, new_commit, pinned),
    }
}

/// The first seven bytes of a commit hash (all of it when shorter).
pub fn short(commit: &str) -> (s: &str)
    requires
        commit.spec_bytes().len() < 7 || vstd::utf8::is_char_boundary(commit.spec_bytes(), 7),
    ensures
        s.spec_bytes() == if commit.spec_bytes().len() >= 7 {
            commit.spec_bytes().take(7)
        } else {
            commit.spec_bytes()
        },
{
    let n = commit.as_bytes().len();
    if n >= 7 {
        let (head, _) = commit.split_at(7);
        assert(commit.spec_bytes().subrange(0, 7) =~= commit.spec_bytes().take(7));
        head
    } else {
        commit
    }
}

// ---------------------------------------------------------------------------
// The plan of file operations
// ---------------------------------------------------------------------------

/// An update change as its kind (0 wrote, 1 deleted, 2 removed) and key.
pub open spec fn update_view(c: UpdateChange) -> (u8, Seq<char>) {
    match c {
        UpdateChange::Wrote(k) => (0u8, k@),
        UpdateChange::Deleted(k) => (1u8, k@),
        UpdateChange::Removed(k) => (2u8, k@),
    }
}

/// The update changes of a list, as kinds and keys.
pub open spec fn updates_view(cs: Seq<UpdateChange>) -> Seq<(u8, Seq<char>)> {
    cs.map_values(|c: UpdateChange| update_view(c))
}

/// What was observed at `k` (nothing, when not recorded).
pub open spec fn observed_at(obs: Map<Seq<char>, Observed>, k: Seq<char>) -> Observed {
    if obs.contains_key(k) {
        obs[k]
    } else {
        Observed::Missing
    }
}

/// Whether the destination already holds the new content at `k`: a regular
/// file whose hash is the new hash.
pub open spec fn already_written(obs: Map<Seq<char>, Observed>, k: Seq<char>, new_hash: Seq<char>) -> bool {
    match observed_at(obs, k) {
        Observed::File { hash: Some(h) } => h@ == new_hash,
        _ => false,
    }
}

/// Writes: the keys of the new tree, in key order, whose destination does
/// not already hold the new content.
pub open spec fn planned_writes(new_pairs: Seq<(Seq<char>, String)>, obs: Map<Seq<char>, Observed>) -> Seq<
    (u8, Seq<char>),
>
    decreases new_pairs.len(),
{
    if new_pairs.len() == 0 {
        Seq::empty()
    } else {
        let prev = planned_writes(new_pairs.drop_last(), obs);
        let (k, h) = new_pairs.last();
        if already_written(obs, k, h@) {
            prev
        } else {
            prev.push((0u8, k))
        }
    }
}

/// Deletes: the keys of the old manifest, in key order, that the new tree
/// lacks and that are on disk as a file or a symlink.
pub open spec fn planned_deletes(
    old_pairs: Seq<(Seq<char>, String)>,
    new_files: Map<Seq<char>, String>,
    obs: Map<Seq<char>, Observed>,
) -> Seq<(u8, Seq<char>)>
    decreases old_pairs.len(),
{
    if old_pairs.len() == 0 {
        Seq::empty()
    } else {
        let prev = planned_deletes(old_pairs.drop_last(), new_files, obs);
        let k = old_pairs.last().0;
        if !new_files.contains_key(k) && !(observed_at(obs, k) is Missing) {
            prev.push((1u8, k))
        } else {
            prev
        }
    }
}

/// Sweeps (`--overwrite`): the keys found on disk, in key order, in neither
/// the new tree nor the old manifest.
pub open spec fn planned_sweeps<T>(
    disk_pairs: Seq<(Seq<char>, T)>,
    new_files: Map<Seq<char>, String>,
    old_files: Map<Seq<char>, String>,
) -> Seq<(u8, Seq<char>)>
    decreases disk_pairs.len(),
{
    if disk_pairs.len() == 0 {
        Seq::empty()
    } else {
        let prev = planned_sweeps(disk_pairs.drop_last(), new_files, old_files);
        let k = disk_pairs.last().0;
        if !new_files.contains_key(k) && !old_files.contains_key(k) {
            prev.push((2u8, k))
        } else {
            prev
        }
    }
}

fn clone_string(s: &String) -> (r: String)
    ensures
        r@ == s@,
{
    s.clone()
}

fn already_written_exec(obs: &KeyMap<Observed>, key: &str, new_hash: &str) -> (r: bool)
    requires
        obs.wf(),
    ensures
        r == already_written(obs.map(), key@, new_hash@),
{
    match obs.get(key) {
        Some(Observed::File { hash: Some(h) }) => str_eq(h.as_str(), new_hash),
        _ => false,
    }
}

/// The file operations that bring the destination into agreement with
/// `new_files`, using `old_files` as the previous manifest: writes (skipped
/// where the destination already holds the new content), then deletes of
/// files the new tree dropped, then — with `overwrite` — the removal of every
/// other file found on disk (`sweep`).
pub fn plan_update<T>(
    old_files: &KeyMap<String>,
    new_files: &KeyMap<String>,
    observed: &KeyMap<Observed>,
    sweep: &KeyMap<T>,
    overwrite: bool,
) -> (changes: Vec<UpdateChange>)
    requires
        old_files.wf(),
        new_files.wf(),
        observed.wf(),
        sweep.wf(),
    ensures
        updates_view(changes@) == full_plan(*old_files, *new_files, observed.map(), *sweep, overwrite),
{
    let mut changes: Vec<UpdateChange> = Vec::new();
    let ghost np = new_files.pairs();
    let ghost op = old_files.pairs();
    let ghost sp = sweep.pairs();
    let ghost om = observed.map();
    let mut i: usize = 0;
    while i < new_files.len()
        invariant
            i <= np.len(),
            np == new_files.pairs(),
            om == observed.map(),
            observed.wf(),
            updates_view(changes@) == planned_writes(np.take(i as int), om),
        decreases np.len() - i,
    {
        let key = new_files.key_at(i);
        let hash = new_files.value_at(i);
        proof {
            assert(np.take(i + 1).drop_last() =~= np.take(i as int));
            assert(np.take(i + 1).last() == np[i as int]);
        }
        if !already_written_exec(observed, key.as_str(), hash.as_str()) {
            let ghost before = updates_view(changes@);
            let c = UpdateChange::Wrote(clone_string(key));
            changes.push(c);
            assert(updates_view(changes@) =~= before.push(update_view(c)));
        }
        i = i + 1;
    }
    assert(np.take(np.len() as int) =~= np);
    let ghost writes = updates_view(changes@);
    let mut j: usize = 0;
    while j < old_files.len()
        invariant
            j <= op.len(),
            op == old_files.pairs(),
            om == observed.map(),
            observed.wf(),
            new_files.wf(),
            updates_view(changes@) == writes + planned_deletes(op.take(j as int), new_files.map(), om),
        decreases op.len() - j,
    {
        let key = old_files.key_at(j);
        proof {
            assert(op.take(j + 1).drop_last() =~= op.take(j as int));
            assert(op.take(j + 1).last() == op[j as int]);
        }
        if !new_files.contains_key(key.as_str()) {
            let present = match observed.get(key.as_str()) {
                Some(Observed::Missing) => false,
                Some(_) => true,
                None => false,
            };
            if present {
                let ghost before = updates_view(changes@);
                let c = UpdateChange::Deleted(clone_string(key));
                changes.push(c);
                assert(updates_view(changes@) =~= before.push(update_view(c)));
            }
        }
        j = j + 1;
    }
    assert(op.take(op.len() as int) =~= op);
    let ghost writes_deletes = updates_view(changes@);
    if overwrite {
        let mut t: usize = 0;
        while t < sweep.len()
            invariant
                t <= sp.len(),
                sp == sweep.pairs(),
                new_files.wf(),
                old_files.wf(),
                updates_view(changes@) == writes_deletes + planned_sweeps(sp.take(t as int), new_files.map(), old_files.map()),
            decreases sp.len() - t,
        {
            let key = sweep.key_at(t);
            proof {
                assert(sp.take(t + 1).drop_last() =~= sp.take(t as int));
                assert(sp.take(t + 1).last().0 == sp[t as int].0);
            }
            if !new_files.contains_key(key.as_str()) && !old_files.contains_key(key.as_str()) {
                let ghost before = updates_view(changes@);
                let c = UpdateChange::Removed(clone_string(key));
                changes.push(c);
                assert(updates_view(changes@) =~= before.push(update_view(c)));
            }
            t = t + 1;
        }
        assert(sp.take(sp.len() as int) =~= sp);
    } else {
        assert(writes_deletes + Seq::<(u8, Seq<char>)>::empty() =~= writes_deletes);
    }
    changes
}

// ---------------------------------------------------------------------------
// Pruning emptied directories
// ---------------------------------------------------------------------------

/// The order in which emptied directories are tried: deepest first, then by
/// path.
pub open spec fn prune_lt(a: Seq<Seq<char>>, b: Seq<Seq<char>>) -> bool {
    a.len() > b.len() || (a.len() == b.len() && path_lt(a, b))
}

/// The directory holding the file at key `k`, relative to the destination.
pub open spec fn parent_of_key(k: Seq<char>) -> Seq<Seq<char>> {
    if key_parts(k).len() == 0 {
        Seq::empty()
    } else {
        key_parts(k).drop_last()
    }
}

/// Whether a change removed a file from disk (deleted or swept).
pub open spec fn removes_file(c: UpdateChange) -> bool {
    c is Deleted || c is Removed
}

/// The key of an update change.
pub open spec fn update_key(c: UpdateChange) -> Seq<char> {
    update_view(c).1
}

/// Whether `d` is the directory of a file that `changes` removed.
pub open spec fn is_emptied_dir(changes: Seq<UpdateChange>, d: Seq<Seq<char>>) -> bool {
    exists|i: int| 0 <= i < changes.len() && removes_file(#[trigger] changes[i]) && parent_of_key(update_key(changes[i])) == d
}

/// Whether some path of `dirs` is `d`.
pub open spec fn holds_dir(dirs: Seq<RelPath>, d: Seq<Seq<char>>) -> bool {
    exists|a: int| 0 <= a < dirs.len() && rel_view(#[trigger] dirs[a]) == d
}

fn prune_less(a: &RelPath, b: &RelPath) -> (r: bool)
    ensures
        r == prune_lt(rel_view(*a), rel_view(*b)),
{
    a.len() > b.len() || (a.len() == b.len() && path_less(a, b))
}

/// The directories of the files an update removed, each once, deepest
/// first (then by path): the order in which they are tried for removal, so
/// that removing a leaf can free its parent.
pub fn prune_candidates(changes: &Vec<UpdateChange>) -> (dirs: Vec<RelPath>)
    ensures
        forall|i: int, j: int| 0 <= i < j < dirs@.len() ==> prune_lt(rel_view(#[trigger] dirs@[i]), rel_view(#[trigger] dirs@[j])),
        forall|d: Seq<Seq<char>>| #[trigger] holds_dir(dirs@, d) <==> (is_emptied_dir(changes@, d) && d.len() > 0),
{
    let mut dirs: Vec<RelPath> = Vec::new();
    let mut i: usize = 0;
    while i < changes.len()
        invariant
            i <= changes@.len(),
            forall|a: int, b: int| 0 <= a < b < dirs@.len() ==> prune_lt(rel_view(#[trigger] dirs@[a]), rel_view(#[trigger] dirs@[b])),
            forall|d: Seq<Seq<char>>| #[trigger] holds_dir(dirs@, d) <==> (is_emptied_dir(changes@.take(i as int), d)
                && d.len() > 0),
        decreases changes.len() - i,
    {
        let ghost t = changes@.take(i + 1);
        assert(t.drop_last() =~= changes@.take(i as int));
        let key: Option<&String> = match &changes[i] {
            UpdateChange::Deleted(k) => Some(k),
            UpdateChange::Removed(k) => Some(k),
            UpdateChange::Wrote(_) => None,
        };
        match key {
            Some(k) => {
                assert(k@ == update_key(changes@[i as int]));
                let mut parent = key_to_path(k.as_str());
                let ghost whole = rel_view(parent);
                if parent.len() > 0 {
                    parent.pop();
                    assert(rel_view(parent) =~= whole.drop_last());
                } else {
                    assert(rel_view(parent) =~= Seq::<Seq<char>>::empty());
                }
                assert(rel_view(parent) == parent_of_key(update_key(changes@[i as int])));
                proof {
                    assert forall|d: Seq<Seq<char>>| is_emptied_dir(t, d) <==> (is_emptied_dir(changes@.take(i as int), d) || d == parent_of_key(update_key(changes@[i as int]))) by {
                        if is_emptied_dir(t, d) {
                            let a = choose|a: int| 0 <= a < t.len() && removes_file(#[trigger] t[a]) && parent_of_key(update_key(t[a])) == d;
                            if a < i {
                                assert(changes@.take(i as int)[a] == t[a]);
                            }
                        }
                        if is_emptied_dir(changes@.take(i as int), d) {
                            let a = choose|a: int| 0 <= a < i && removes_file(#[trigger] changes@.take(i as int)[a]) && parent_of_key(update_key(changes@.take(i as int)[a])) == d;
                            assert(t[a] == changes@.take(i as int)[a]);
                        }
                        if d == parent_of_key(update_key(changes@[i as int])) {
                            assert(t[i as int] == changes@[i as int]);
                        }
                    }
                }
                if parent.len() > 0 {
                    insert_dir(&mut dirs, parent);
                }
            },
            None => {
                proof {
                    assert forall|d: Seq<Seq<char>>| is_emptied_dir(t, d) <==> is_emptied_dir(changes@.take(i as int), d) by {
                        if is_emptied_dir(t, d) {
                            let a = choose|a: int| 0 <= a < t.len() && removes_file(#[trigger] t[a]) && parent_of_key(update_key(t[a])) == d;
                            assert(a != i);
                            assert(changes@.take(i as int)[a] == t[a]);
                        }
                        if is_emptied_dir(changes@.take(i as int), d) {
                            let a = choose|a: int| 0 <= a < i && removes_file(#[trigger] changes@.take(i as int)[a]) && parent_of_key(update_key(changes@.take(i as int)[a])) == d;
                            assert(t[a] == changes@.take(i as int)[a]);
                        }
                    }
                }
            },
        }
        i = i + 1;
    }
    assert(changes@.take(changes@.len() as int) =~= changes@);
    dirs
}

proof fn lemma_prune_lt_transitive(a: Seq<Seq<char>>, b: Seq<Seq<char>>, c: Seq<Seq<char>>)
    requires
        prune_lt(a, b),
        prune_lt(b, c),
    ensures
        prune_lt(a, c),
{
    if a.len() == b.len() && b.len() == c.len() {
        crate::relpath::lemma_path_lt_transitive(a, b, c);
    }
}

/// The directory to try next once `dir` was removed while pruning: its
/// parent, unless that is the destination itself, which is never removed.
/// Pruning tries each candidate, then climbs while removals succeed.
pub fn prune_parent(dir: &RelPath) -> (next: Option<RelPath>)
    ensures
        next is Some <==> rel_view(*dir).len() > 1,
        next matches Some(p) ==> rel_view(p) == rel_view(*dir).drop_last(),
{
    if dir.len() > 1 {
        let mut p = dir.clone();
        assert(p@ =~= dir@);
        p.pop();
        assert(rel_view(p) =~= rel_view(*dir).drop_last());
        Some(p)
    } else {
        None
    }
}

/// Insert `d` into the strictly ordered `dirs` unless it is there already.
fn insert_dir(dirs: &mut Vec<RelPath>, d: RelPath)
    requires
        forall|a: int, b: int| 0 <= a < b < old(dirs)@.len() ==> prune_lt(rel_view(#[trigger] old(dirs)@[a]), rel_view(#[trigger] old(dirs)@[b])),
    ensures
        forall|a: int, b: int| 0 <= a < b < final(dirs)@.len() ==> prune_lt(rel_view(#[trigger] final(dirs)@[a]), rel_view(#[trigger] final(dirs)@[b])),
        forall|x: Seq<Seq<char>>| #[trigger] holds_dir(final(dirs)@, x) <==> (holds_dir(old(dirs)@, x) || x == rel_view(d)),
{
    let ghost before = dirs@;
    let mut pos: usize = 0;
    while pos < dirs.len() && prune_less(&dirs[pos], &d)
        invariant
            pos <= dirs@.len(),
            dirs@ == before,
            forall|a: int| 0 <= a < pos ==> prune_lt(rel_view(#[trigger] before[a]), rel_view(d)),
        decreases dirs.len() - pos,
    {
        pos = pos + 1;
    }
    // Everything from `pos` on does not sort before `d`.
    if pos < dirs.len() && !prune_less(&d, &dirs[pos]) {
        // Neither sorts before the other: the same directory.
        proof {
            let x = rel_view(before[pos as int]);
            let y = rel_view(d);
            if x != y {
                if x.len() == y.len() {
                    crate::relpath::lemma_path_lt_total(x, y);
                }
            }
        }
        return;
    }
    proof {
        assert forall|a: int| pos <= a < before.len() implies prune_lt(rel_view(d), rel_view(#[trigger] before[a])) by {
            if a > pos {
                lemma_prune_lt_transitive(rel_view(d), rel_view(before[pos as int]), rel_view(before[a]));
            }
        }
    }
    dirs.insert(pos, d);
    proof {
        let after = dirs@;
        assert(after =~= before.insert(pos as int, d));
        assert forall|a: int, b: int| 0 <= a < b < after.len() implies prune_lt(rel_view(#[trigger] after[a]), rel_view(#[trigger] after[b])) by {
            if b < pos {
                assert(after[a] == before[a] && after[b] == before[b]);
            } else if b == pos {
                assert(after[a] == before[a]);
            } else if a < pos {
                assert(after[a] == before[a] && after[b] == before[b - 1]);
                lemma_prune_lt_transitive(rel_view(before[a]), rel_view(d), rel_view(before[b - 1]));
            } else if a == pos {
                assert(after[b] == before[b - 1]);
            } else {
                assert(after[a] == before[a - 1] && after[b] == before[b - 1]);
            }
        }
        assert forall|x: Seq<Seq<char>>| #[trigger] holds_dir(after, x) <==> (holds_dir(before, x) || x == rel_view(d)) by {
            if holds_dir(after, x) {
                let a = choose|a: int| 0 <= a < after.len() && rel_view(#[trigger] after[a]) == x;
                if a < pos {
                    assert(after[a] == before[a]);
                } else if a > pos {
                    assert(after[a] == before[a - 1]);
                }
            }
            if holds_dir(before, x) {
                let a = choose|a: int| 0 <= a < before.len() && rel_view(#[trigger] before[a]) == x;
                if a < pos {
                    assert(after[a] == before[a]);
                } else {
                    assert(after[a + 1] == before[a]);
                }
            }
            if x == rel_view(d) {
                assert(after[pos as int] == d);
            }
        }
    }
}

// ---------------------------------------------------------------------------
// Laws
// ---------------------------------------------------------------------------

/// Which changes the planned writes hold: a write of `k` exactly when `k` is
/// a key of the new tree whose destination does not already hold its content.
pub proof fn lemma_planned_writes_contains(np: Seq<(Seq<char>, String)>, obs: Map<Seq<char>, Observed>, c: (u8, Seq<char>))
    ensures
        planned_writes(np, obs).contains(c) <==> (c.0 == 0 && exists|i: int| 0 <= i < np.len() && #[trigger] np[i].0 == c.1
            && !already_written(obs, np[i].0, np[i].1@)),
    decreases np.len(),
{
    if np.len() > 0 {
        let init = np.drop_last();
        lemma_planned_writes_contains(init, obs, c);
        let prev = planned_writes(init, obs);
        let last = np.last();
        if planned_writes(np, obs).contains(c) {
            if !already_written(obs, last.0, last.1@) {
                assert(planned_writes(np, obs) == prev.push((0u8, last.0)));
                let a = choose|a: int| 0 <= a < planned_writes(np, obs).len() && planned_writes(np, obs)[a] == c;
                if a < prev.len() {
                    assert(prev[a] == c);
                    let i = choose|i: int| 0 <= i < init.len() && #[trigger] init[i].0 == c.1 && !already_written(obs, init[i].0, init[i].1@);
                    assert(np[i] == init[i]);
                } else {
                    assert(np[np.len() - 1] == last);
                }
            } else {
                let i = choose|i: int| 0 <= i < init.len() && #[trigger] init[i].0 == c.1 && !already_written(obs, init[i].0, init[i].1@);
                assert(np[i] == init[i]);
            }
        }
        if c.0 == 0 && exists|i: int| 0 <= i < np.len() && #[trigger] np[i].0 == c.1 && !already_written(obs, np[i].0, np[i].1@) {
            let i = choose|i: int| 0 <= i < np.len() && #[trigger] np[i].0 == c.1 && !already_written(obs, np[i].0, np[i].1@);
            if i < np.len() - 1 {
                assert(init[i] == np[i]);
                assert(prev.contains(c));
                if !already_written(obs, last.0, last.1@) {
                    let a = choose|a: int| 0 <= a < prev.len() && prev[a] == c;
                    assert(prev.push((0u8, last.0))[a] == c);
                }
            } else {
                assert(np[i] == last);
                assert(prev.push((0u8, last.0))[prev.len() as int] == c);
            }
        }
    }
}

/// Which changes the planned deletes hold.
pub proof fn lemma_planned_deletes_contains(
    op: Seq<(Seq<char>, String)>,
    new_files: Map<Seq<char>, String>,
    obs: Map<Seq<char>, Observed>,
    c: (u8, Seq<char>),
)
    ensures
        planned_deletes(op, new_files, obs).contains(c) <==> (c.0 == 1 && (exists|i: int| 0 <= i < op.len() && #[trigger] op[i].0 == c.1)
            && !new_files.contains_key(c.1) && !(observed_at(obs, c.1) is Missing)),
    decreases op.len(),
{
    if op.len() > 0 {
        let init = op.drop_last();
        lemma_planned_deletes_contains(init, new_files, obs, c);
        let prev = planned_deletes(init, new_files, obs);
        let k = op.last().0;
        let added = !new_files.contains_key(k) && !(observed_at(obs, k) is Missing);
        if planned_deletes(op, new_files, obs).contains(c) {
            let a = choose|a: int| 0 <= a < planned_deletes(op, new_files, obs).len() && planned_deletes(op, new_files, obs)[a] == c;
            if added && a == prev.len() {
                assert(op[op.len() - 1].0 == k);
            } else {
                assert(prev[a] == c);
                let i = choose|i: int| 0 <= i < init.len() && #[trigger] init[i].0 == c.1;
                assert(op[i] == init[i]);
            }
        }
        if c.0 == 1 && (exists|i: int| 0 <= i < op.len() && #[trigger] op[i].0 == c.1) && !new_files.contains_key(c.1)
            && !(observed_at(obs, c.1) is Missing) {
            let i = choose|i: int| 0 <= i < op.len() && #[trigger] op[i].0 == c.1;
            if i < op.len() - 1 {
                assert(init[i] == op[i]);
                let a = choose|a: int| 0 <= a < prev.len() && prev[a] == c;
                if added {
                    assert(prev.push((1u8, k))[a] == c);
                }
            } else {
                assert(prev.push((1u8, k))[prev.len() as int] == c);
            }
        }
    }
}

/// Which changes the planned sweeps hold.
pub proof fn lemma_planned_sweeps_contains<T>(
    sp: Seq<(Seq<char>, T)>,
    new_files: Map<Seq<char>, String>,
    old_files: Map<Seq<char>, String>,
    c: (u8, Seq<char>),
)
    ensures
        planned_sweeps(sp, new_files, old_files).contains(c) <==> (c.0 == 2 && (exists|i: int| 0 <= i < sp.len() && #[trigger] sp[i].0 == c.1)
            && !new_files.contains_key(c.1) && !old_files.contains_key(c.1)),
    decreases sp.len(),
{
    if sp.len() > 0 {
        let init = sp.drop_last();
        lemma_planned_sweeps_contains(init, new_files, old_files, c);
        let prev = planned_sweeps(init, new_files, old_files);
        let k = sp.last().0;
        let added = !new_files.contains_key(k) && !old_files.contains_key(k);
        if planned_sweeps(sp, new_files, old_files).contains(c) {
            let a = choose|a: int| 0 <= a < planned_sweeps(sp, new_files, old_files).len() && planned_sweeps(sp, new_files, old_files)[a] == c;
            if added && a == prev.len() {
                assert(sp[sp.len() - 1].0 == k);
            } else {
                assert(prev[a] == c);
                let i = choose|i: int| 0 <= i < init.len() && #[trigger] init[i].0 == c.1;
                assert(sp[i] == init[i]);
            }
        }
        if c.0 == 2 && (exists|i: int| 0 <= i < sp.len() && #[trigger] sp[i].0 == c.1) && !new_files.contains_key(c.1)
            && !old_files.contains_key(c.1) {
            let i = choose|i: int| 0 <= i < sp.len() && #[trigger] sp[i].0 == c.1;
            if i < sp.len() - 1 {
                assert(init[i] == sp[i]);
                let a = choose|a: int| 0 <= a < prev.len() && prev[a] == c;
                if added {
                    assert(prev.push((2u8, k))[a] == c);
                }
            } else {
                assert(prev.push((2u8, k))[prev.len() as int] == c);
            }
        }
    }
}

/// Law: re-running an update on a destination that already holds the new
/// content of every tracked file, with the manifest unchanged and without
/// `--overwrite`, plans no file operation at all.
pub proof fn law_update_is_idempotent(
    old_files: KeyMap<String>,
    new_files: KeyMap<String>,
    observed: Map<Seq<char>, Observed>,
)
    requires
        new_files.wf(),
        old_files.map() == new_files.map(),
        forall|i: int| 0 <= i < new_files.pairs().len() ==> already_written(observed, #[trigger] new_files.pairs()[i].0, new_files.pairs()[i].1@),
    ensures
        planned_writes(new_files.pairs(), observed) + planned_deletes(old_files.pairs(), new_files.map(), observed) == Seq::<(u8, Seq<char>)>::empty(),
{
    let w = planned_writes(new_files.pairs(), observed);
    let d = planned_deletes(old_files.pairs(), new_files.map(), observed);
    if w.len() > 0 {
        lemma_planned_writes_contains(new_files.pairs(), observed, w[0]);
        assert(w.contains(w[0]));
    }
    if d.len() > 0 {
        lemma_planned_deletes_contains(old_files.pairs(), new_files.map(), observed, d[0]);
        assert(d.contains(d[0]));
        let i = choose|i: int| 0 <= i < old_files.pairs().len() && #[trigger] old_files.pairs()[i].0 == d[0].1;
        old_files.lemma_pair_in_map(i);
    }
    assert(w + d =~= Seq::<(u8, Seq<char>)>::empty());
}

/// Law: without `--overwrite`, an update touches only keys of the new tree
/// or of the old manifest: untracked files are preserved. Writes only target
/// keys of the new tree, and deletes only keys the new tree dropped.
pub proof fn law_update_touches_only_tracked_keys(
    old_files: KeyMap<String>,
    new_files: KeyMap<String>,
    observed: Map<Seq<char>, Observed>,
    c: (u8, Seq<char>),
)
    requires
        old_files.wf(),
        new_files.wf(),
        (planned_writes(new_files.pairs(), observed) + planned_deletes(old_files.pairs(), new_files.map(), observed)).contains(c),
    ensures
        c.0 == 0 ==> new_files.map().contains_key(c.1),
        c.0 == 1 ==> old_files.map().contains_key(c.1) && !new_files.map().contains_key(c.1),
        c.0 == 0 || c.0 == 1,
{
    let w = planned_writes(new_files.pairs(), observed);
    let d = planned_deletes(old_files.pairs(), new_files.map(), observed);
    let a = choose|a: int| 0 <= a < (w + d).len() && (w + d)[a] == c;
    if a < w.len() {
        assert(w[a] == c);
        assert(w.contains(c));
        lemma_planned_writes_contains(new_files.pairs(), observed, c);
        let i = choose|i: int| 0 <= i < new_files.pairs().len() && #[trigger] new_files.pairs()[i].0 == c.1 && !already_written(observed, new_files.pairs()[i].0, new_files.pairs()[i].1@);
        new_files.lemma_pair_in_map(i);
    } else {
        assert(d[a - w.len()] == c);
        assert(d.contains(c));
        lemma_planned_deletes_contains(old_files.pairs(), new_files.map(), observed, c);
        let i = choose|i: int| 0 <= i < old_files.pairs().len() && #[trigger] old_files.pairs()[i].0 == c.1;
        old_files.lemma_pair_in_map(i);
    }
}

/// Law: with `--overwrite`, every file found on disk that is in neither the
/// new tree nor the old manifest is swept away.
pub proof fn law_overwrite_sweeps_untracked<T>(
    old_files: KeyMap<String>,
    new_files: KeyMap<String>,
    sweep: KeyMap<T>,
    i: int,
)
    requires
        sweep.wf(),
        0 <= i < sweep.pairs().len(),
        !new_files.map().contains_key(sweep.pairs()[i].0),
        !old_files.map().contains_key(sweep.pairs()[i].0),
    ensures
        planned_sweeps(sweep.pairs(), new_files.map(), old_files.map()).contains((2u8, sweep.pairs()[i].0)),
{
    lemma_planned_sweeps_contains(sweep.pairs(), new_files.map(), old_files.map(), (2u8, sweep.pairs()[i].0));
}

/// Law: with `--overwrite`, every file found on disk that the new tree does
/// not hold is removed: a dropped tracked file by the deletes (it is seen on
/// disk), any other by the sweep.
pub proof fn law_overwrite_leaves_only_the_new_tree<T>(
    old_files: KeyMap<String>,
    new_files: KeyMap<String>,
    observed: Map<Seq<char>, Observed>,
    sweep: KeyMap<T>,
    k: Seq<char>,
)
    requires
        old_files.wf(),
        sweep.wf(),
        sweep.map().contains_key(k),
        !new_files.map().contains_key(k),
        old_files.map().contains_key(k) ==> !(observed_at(observed, k) is Missing),
    ensures
        (planned_deletes(old_files.pairs(), new_files.map(), observed) + planned_sweeps(
            sweep.pairs(),
            new_files.map(),
            old_files.map(),
        )).contains((if old_files.map().contains_key(k) { 1u8 } else { 2u8 }, k)),
{
    let d = planned_deletes(old_files.pairs(), new_files.map(), observed);
    let w = planned_sweeps(sweep.pairs(), new_files.map(), old_files.map());
    if old_files.map().contains_key(k) {
        let i = old_files.lemma_key_in_pairs(k);
        lemma_planned_deletes_contains(old_files.pairs(), new_files.map(), observed, (1u8, k));
        let a = choose|a: int| 0 <= a < d.len() && d[a] == (1u8, k);
        assert((d + w)[a] == (1u8, k));
    } else {
        let i = sweep.lemma_key_in_pairs(k);
        lemma_planned_sweeps_contains(sweep.pairs(), new_files.map(), old_files.map(), (2u8, k));
        let a = choose|a: int| 0 <= a < w.len() && w[a] == (2u8, k);
        assert((d + w)[d.len() + a] == (2u8, k));
    }
}

// ---------------------------------------------------------------------------
// Carrying out a plan
// ---------------------------------------------------------------------------

/// What a folder holds after one planned operation: a write leaves the new
/// content (a regular file with the new tree's hash), a delete or a sweep
/// leaves nothing.
pub open spec fn apply_op(
    disk: Map<Seq<char>, DiskEntry>,
    op: (u8, Seq<char>),
    new_files: Map<Seq<char>, String>,
) -> Map<Seq<char>, DiskEntry> {
    if op.0 == 0 {
        disk.insert(op.1, DiskEntry::Regular { hash: new_files[op.1] })
    } else {
        disk.remove(op.1)
    }
}

/// What a folder holds after the operations of a plan, in order.
pub open spec fn apply_plan(
    disk: Map<Seq<char>, DiskEntry>,
    plan: Seq<(u8, Seq<char>)>,
    new_files: Map<Seq<char>, String>,
) -> Map<Seq<char>, DiskEntry>
    decreases plan.len(),
{
    if plan.len() == 0 {
        disk
    } else {
        apply_op(apply_plan(disk, plan.drop_last(), new_files), plan.last(), new_files)
    }
}

/// Whether what was observed at `k` is what the folder holds there.
pub open spec fn observed_agrees(obs: Map<Seq<char>, Observed>, disk: Map<Seq<char>, DiskEntry>, k: Seq<char>) -> bool {
    match observed_at(obs, k) {
        Observed::Missing => !disk.contains_key(k),
        Observed::Symlink => disk.contains_key(k) && disk[k] is Symlink,
        Observed::File { hash: Some(h) } => disk.contains_key(k) && disk[k] == DiskEntry::Regular { hash: h },
        Observed::File { hash: None } => disk.contains_key(k) && disk[k] is Regular,
    }
}

/// The operations of a plan on `k`: with none, the folder keeps what it
/// held at `k`; when all of them are writes, `k` holds the new content; when
/// all of them remove, `k` holds nothing.
proof fn lemma_apply_plan_at(
    disk: Map<Seq<char>, DiskEntry>,
    plan: Seq<(u8, Seq<char>)>,
    new_files: Map<Seq<char>, String>,
    k: Seq<char>,
)
    ensures
        (forall|i: int| 0 <= i < plan.len() ==> #[trigger] plan[i].1 != k) ==> (apply_plan(disk, plan, new_files).contains_key(k)
            == disk.contains_key(k) && (disk.contains_key(k) ==> apply_plan(disk, plan, new_files)[k] == disk[k])),
        (exists|i: int| 0 <= i < plan.len() && #[trigger] plan[i].1 == k) && (forall|i: int|
            0 <= i < plan.len() && #[trigger] plan[i].1 == k ==> plan[i].0 == 0) ==> (apply_plan(disk, plan, new_files).contains_key(k)
            && apply_plan(disk, plan, new_files)[k] == DiskEntry::Regular { hash: new_files[k] }),
        (exists|i: int| 0 <= i < plan.len() && #[trigger] plan[i].1 == k) && (forall|i: int|
            0 <= i < plan.len() && #[trigger] plan[i].1 == k ==> plan[i].0 != 0) ==> !apply_plan(disk, plan, new_files).contains_key(k),
    decreases plan.len(),
{
    if plan.len() > 0 {
        let init = plan.drop_last();
        let op = plan.last();
        lemma_apply_plan_at(disk, init, new_files, k);
        assert forall|i: int| 0 <= i < init.len() implies #[trigger] init[i] == plan[i] by {}
        if op.1 != k {
            if exists|i: int| 0 <= i < plan.len() && #[trigger] plan[i].1 == k {
                let i = choose|i: int| 0 <= i < plan.len() && #[trigger] plan[i].1 == k;
                assert(i < init.len());
                assert(init[i].1 == k);
            }
        } else {
            assert(plan[plan.len() - 1] == op);
        }
    }
}

/// The keys the planned operations touch, by kind.
proof fn lemma_plan_ops<T>(
    old_files: KeyMap<String>,
    new_files: KeyMap<String>,
    observed: Map<Seq<char>, Observed>,
    sweep_pairs: Seq<(Seq<char>, T)>,
    plan: Seq<(u8, Seq<char>)>,
    i: int,
)
    requires
        old_files.wf(),
        new_files.wf(),
        plan == planned_writes(new_files.pairs(), observed) + planned_deletes(old_files.pairs(), new_files.map(), observed)
            + planned_sweeps(sweep_pairs, new_files.map(), old_files.map()),
        0 <= i < plan.len(),
    ensures
        plan[i].0 == 0 ==> new_files.map().contains_key(plan[i].1) && !already_written(observed, plan[i].1, new_files.map()[plan[i].1]@),
        plan[i].0 == 1 ==> old_files.map().contains_key(plan[i].1) && !new_files.map().contains_key(plan[i].1)
            && !(observed_at(observed, plan[i].1) is Missing),
        plan[i].0 == 2 ==> !new_files.map().contains_key(plan[i].1) && !old_files.map().contains_key(plan[i].1)
            && exists|j: int| 0 <= j < sweep_pairs.len() && #[trigger] sweep_pairs[j].0 == plan[i].1,
        plan[i].0 <= 2,
{
    let w = planned_writes(new_files.pairs(), observed);
    let d = planned_deletes(old_files.pairs(), new_files.map(), observed);
    let sw = planned_sweeps(sweep_pairs, new_files.map(), old_files.map());
    let c = plan[i];
    if i < w.len() {
        assert(w[i] == c);
        lemma_planned_writes_contains(new_files.pairs(), observed, c);
        let j = choose|j: int| 0 <= j < new_files.pairs().len() && #[trigger] new_files.pairs()[j].0 == c.1
            && !already_written(observed, new_files.pairs()[j].0, new_files.pairs()[j].1@);
        new_files.lemma_pair_in_map(j);
    } else if i < w.len() + d.len() {
        assert(d[i - w.len()] == c);
        lemma_planned_deletes_contains(old_files.pairs(), new_files.map(), observed, c);
        let j = choose|j: int| 0 <= j < old_files.pairs().len() && #[trigger] old_files.pairs()[j].0 == c.1;
        old_files.lemma_pair_in_map(j);
    } else {
        assert(sw[i - w.len() - d.len()] == c);
        lemma_planned_sweeps_contains(sweep_pairs, new_files.map(), old_files.map(), c);
    }
}

/// Law: carrying out the plan of a forced update with `--overwrite` leaves
/// the folder exactly as the new manifest records it, so `status` reports it
/// clean. This holds when the observations of the tracked paths and the scan
/// of the folder (`sweep`) are what the folder held before the update, and
/// each write puts the new tree's content.
pub proof fn law_overwrite_update_leaves_folder_clean(
    old_files: KeyMap<String>,
    new_files: KeyMap<String>,
    observed: Map<Seq<char>, Observed>,
    sweep: KeyMap<DiskEntry>,
    disk: Map<Seq<char>, DiskEntry>,
)
    requires
        old_files.wf(),
        new_files.wf(),
        sweep.wf(),
        sweep.map() == disk,
        forall|k: Seq<char>|
            (old_files.map().contains_key(k) || new_files.map().contains_key(k)) ==> #[trigger] observed_agrees(observed, disk, k),
    ensures
        disk_matches_manifest(
            new_files.map(),
            apply_plan(
                disk,
                planned_writes(new_files.pairs(), observed) + planned_deletes(old_files.pairs(), new_files.map(), observed)
                    + planned_sweeps(sweep.pairs(), new_files.map(), old_files.map()),
                new_files.map(),
            ),
        ),
        forall|c: (u8, Seq<char>)| !#[trigger] change_expected(
            new_files.map(),
            apply_plan(
                disk,
                planned_writes(new_files.pairs(), observed) + planned_deletes(old_files.pairs(), new_files.map(), observed)
                    + planned_sweeps(sweep.pairs(), new_files.map(), old_files.map()),
                new_files.map(),
            ),
            c,
        ),
{
    let nm = new_files.map();
    let om = old_files.map();
    let plan = planned_writes(new_files.pairs(), observed) + planned_deletes(old_files.pairs(), nm, observed)
        + planned_sweeps(sweep.pairs(), nm, om);
    let after = apply_plan(disk, plan, nm);
    assert forall|k: Seq<char>| #[trigger] after.contains_key(k) implies nm.contains_key(k) by {
        lemma_apply_plan_at(disk, plan, nm, k);
        if !nm.contains_key(k) {
            if exists|i: int| 0 <= i < plan.len() && #[trigger] plan[i].1 == k {
                assert forall|i: int| 0 <= i < plan.len() && #[trigger] plan[i].1 == k implies plan[i].0 != 0 by {
                    lemma_plan_ops(old_files, new_files, observed, sweep.pairs(), plan, i);
                }
            } else {
                // Nothing touched `k`: it was not on disk either.
                if disk.contains_key(k) {
                    if om.contains_key(k) {
                        assert(observed_agrees(observed, disk, k));
                        lemma_planned_deletes_contains(old_files.pairs(), nm, observed, (1u8, k));
                        let j = old_files.lemma_key_in_pairs(k);
                        let w = planned_writes(new_files.pairs(), observed);
                        let d = planned_deletes(old_files.pairs(), nm, observed);
                        let a = choose|a: int| 0 <= a < d.len() && d[a] == (1u8, k);
                        assert(plan[w.len() + a] == (1u8, k));
                    } else {
                        let j = sweep.lemma_key_in_pairs(k);
                        lemma_planned_sweeps_contains(sweep.pairs(), nm, om, (2u8, k));
                        let w = planned_writes(new_files.pairs(), observed);
                        let d = planned_deletes(old_files.pairs(), nm, observed);
                        let sw = planned_sweeps(sweep.pairs(), nm, om);
                        let a = choose|a: int| 0 <= a < sw.len() && sw[a] == (2u8, k);
                        assert(plan[w.len() + d.len() + a] == (2u8, k));
                    }
                }
            }
        }
    }
    assert forall|k: Seq<char>| #[trigger] nm.contains_key(k) implies (after.contains_key(k) && match after[k] {
        DiskEntry::Regular { hash } => hash@ == nm[k]@,
        DiskEntry::Symlink => false,
    }) by {
        lemma_apply_plan_at(disk, plan, nm, k);
        assert forall|i: int| 0 <= i < plan.len() && #[trigger] plan[i].1 == k implies plan[i].0 == 0 by {
            lemma_plan_ops(old_files, new_files, observed, sweep.pairs(), plan, i);
        }
        if !(exists|i: int| 0 <= i < plan.len() && #[trigger] plan[i].1 == k) {
            // Not written: the destination already held the new content.
            let j = new_files.lemma_key_in_pairs(k);
            if !already_written(observed, k, nm[k]@) {
                lemma_planned_writes_contains(new_files.pairs(), observed, (0u8, k));
                let w = planned_writes(new_files.pairs(), observed);
                let a = choose|a: int| 0 <= a < w.len() && w[a] == (0u8, k);
                assert(plan[a] == (0u8, k));
            }
            assert(observed_agrees(observed, disk, k));
        }
    }
    law_clean_iff_matches_manifest(nm, after);
}

/// Law: carrying out the plan of a forced update without `--overwrite`
/// leaves every tracked file as the new manifest records it and every
/// dropped file gone; whatever `status` still reports is a file in neither
/// manifest, left as it was. This holds when the observations of the tracked
/// paths are what the folder held before the update, and each write puts the
/// new tree's content.
pub proof fn law_update_leaves_only_untracked_extras(
    old_files: KeyMap<String>,
    new_files: KeyMap<String>,
    observed: Map<Seq<char>, Observed>,
    disk: Map<Seq<char>, DiskEntry>,
    c: (u8, Seq<char>),
)
    requires
        old_files.wf(),
        new_files.wf(),
        forall|k: Seq<char>|
            (old_files.map().contains_key(k) || new_files.map().contains_key(k)) ==> #[trigger] observed_agrees(observed, disk, k),
        change_expected(
            new_files.map(),
            apply_plan(
                disk,
                planned_writes(new_files.pairs(), observed) + planned_deletes(old_files.pairs(), new_files.map(), observed),
                new_files.map(),
            ),
            c,
        ),
    ensures
        !new_files.map().contains_key(c.1),
        !old_files.map().contains_key(c.1),
        disk.contains_key(c.1),
        apply_plan(
            disk,
            planned_writes(new_files.pairs(), observed) + planned_deletes(old_files.pairs(), new_files.map(), observed),
            new_files.map(),
        )[c.1] == disk[c.1],
{
    let nm = new_files.map();
    let om = old_files.map();
    let none = Seq::<(Seq<char>, DiskEntry)>::empty();
    let wd = planned_writes(new_files.pairs(), observed) + planned_deletes(old_files.pairs(), nm, observed);
    assert(planned_sweeps(none, nm, om) =~= Seq::<(u8, Seq<char>)>::empty());
    let plan = wd + planned_sweeps(none, nm, om);
    assert(plan =~= wd);
    let after = apply_plan(disk, plan, nm);
    let k = c.1;
    lemma_apply_plan_at(disk, plan, nm, k);
    if nm.contains_key(k) {
        assert forall|i: int| 0 <= i < plan.len() && #[trigger] plan[i].1 == k implies plan[i].0 == 0 by {
            lemma_plan_ops(old_files, new_files, observed, none, plan, i);
        }
        if !(exists|i: int| 0 <= i < plan.len() && #[trigger] plan[i].1 == k) {
            let j = new_files.lemma_key_in_pairs(k);
            if !already_written(observed, k, nm[k]@) {
                lemma_planned_writes_contains(new_files.pairs(), observed, (0u8, k));
                let w = planned_writes(new_files.pairs(), observed);
                let a = choose|a: int| 0 <= a < w.len() && w[a] == (0u8, k);
                assert(plan[a] == (0u8, k));
            }
            assert(observed_agrees(observed, disk, k));
        }
        // A tracked key holds its new content, so no change is about it.
        assert(false);
    } else {
        assert forall|i: int| 0 <= i < plan.len() && #[trigger] plan[i].1 == k implies plan[i].0 == 1 by {
            lemma_plan_ops(old_files, new_files, observed, none, plan, i);
        }
        if exists|i: int| 0 <= i < plan.len() && #[trigger] plan[i].1 == k {
            assert(!after.contains_key(k));
        }
        if om.contains_key(k) {
            assert(observed_agrees(observed, disk, k));
            if disk.contains_key(k) {
                lemma_planned_deletes_contains(old_files.pairs(), nm, observed, (1u8, k));
                let j = old_files.lemma_key_in_pairs(k);
                let w = planned_writes(new_files.pairs(), observed);
                let d = planned_deletes(old_files.pairs(), nm, observed);
                let a = choose|a: int| 0 <= a < d.len() && d[a] == (1u8, k);
                assert(plan[w.len() + a] == (1u8, k));
            }
        }
    }
}

/// Whether what was observed at `k` is exactly what the folder holds there,
/// a regular file's hash included.
pub open spec fn observed_exactly(obs: Map<Seq<char>, Observed>, disk: Map<Seq<char>, DiskEntry>, k: Seq<char>) -> bool {
    match observed_at(obs, k) {
        Observed::Missing => !disk.contains_key(k),
        Observed::Symlink => disk.contains_key(k) && disk[k] is Symlink,
        Observed::File { hash: Some(h) } => disk.contains_key(k) && disk[k] == DiskEntry::Regular { hash: h },
        Observed::File { hash: None } => false,
    }
}

/// The file operations `plan_update` plans.
pub open spec fn full_plan<T>(
    old_files: KeyMap<String>,
    new_files: KeyMap<String>,
    observed: Map<Seq<char>, Observed>,
    sweep: KeyMap<T>,
    overwrite: bool,
) -> Seq<(u8, Seq<char>)> {
    planned_writes(new_files.pairs(), observed) + planned_deletes(old_files.pairs(), new_files.map(), observed) + (
    if overwrite {
        planned_sweeps(sweep.pairs(), new_files.map(), old_files.map())
    } else {
        Seq::empty()
    })
}

/// What a folder holds after a plan was carried out: each key of the new
/// tree its new content; no key the new tree dropped; with `--overwrite`,
/// nothing outside the new tree.
proof fn lemma_carried_out<T>(
    old_files: KeyMap<String>,
    new_files: KeyMap<String>,
    observed: Map<Seq<char>, Observed>,
    sweep: KeyMap<T>,
    overwrite: bool,
    disk: Map<Seq<char>, DiskEntry>,
    k: Seq<char>,
)
    requires
        old_files.wf(),
        new_files.wf(),
        sweep.wf(),
        overwrite ==> sweep.map().dom() == disk.dom(),
        forall|x: Seq<char>|
            (old_files.map().contains_key(x) || new_files.map().contains_key(x)) ==> #[trigger] observed_agrees(observed, disk, x),
    ensures
        ({
            let after = apply_plan(disk, full_plan(old_files, new_files, observed, sweep, overwrite), new_files.map());
            &&& new_files.map().contains_key(k) ==> after.contains_key(k) && (match after[k] {
                DiskEntry::Regular { hash } => hash@ == new_files.map()[k]@,
                DiskEntry::Symlink => false,
            })
            &&& !new_files.map().contains_key(k) && old_files.map().contains_key(k) ==> !after.contains_key(k)
            &&& overwrite && !new_files.map().contains_key(k) ==> !after.contains_key(k)
        }),
{
    let nm = new_files.map();
    let om = old_files.map();
    let none = Seq::<(Seq<char>, T)>::empty();
    let sp = if overwrite { sweep.pairs() } else { none };
    assert(planned_sweeps(none, nm, om) =~= Seq::<(u8, Seq<char>)>::empty());
    let plan = full_plan(old_files, new_files, observed, sweep, overwrite);
    assert(plan == planned_writes(new_files.pairs(), observed) + planned_deletes(old_files.pairs(), nm, observed)
        + planned_sweeps(sp, nm, om));
    let after = apply_plan(disk, plan, nm);
    let w = planned_writes(new_files.pairs(), observed);
    let d = planned_deletes(old_files.pairs(), nm, observed);
    lemma_apply_plan_at(disk, plan, nm, k);
    if nm.contains_key(k) {
        assert forall|i: int| 0 <= i < plan.len() && #[trigger] plan[i].1 == k implies plan[i].0 == 0 by {
            lemma_plan_ops(old_files, new_files, observed, sp, plan, i);
        }
        if !(exists|i: int| 0 <= i < plan.len() && #[trigger] plan[i].1 == k) {
            let j = new_files.lemma_key_in_pairs(k);
            if !already_written(observed, k, nm[k]@) {
                lemma_planned_writes_contains(new_files.pairs(), observed, (0u8, k));
                let a = choose|a: int| 0 <= a < w.len() && w[a] == (0u8, k);
                assert(plan[a] == (0u8, k));
            }
            assert(observed_agrees(observed, disk, k));
        }
    } else {
        assert forall|i: int| 0 <= i < plan.len() && #[trigger] plan[i].1 == k implies plan[i].0 != 0 by {
            lemma_plan_ops(old_files, new_files, observed, sp, plan, i);
        }
        if disk.contains_key(k) && !(exists|i: int| 0 <= i < plan.len() && #[trigger] plan[i].1 == k) {
            if om.contains_key(k) {
                assert(observed_agrees(observed, disk, k));
                lemma_planned_deletes_contains(old_files.pairs(), nm, observed, (1u8, k));
                let j = old_files.lemma_key_in_pairs(k);
                let a = choose|a: int| 0 <= a < d.len() && d[a] == (1u8, k);
                assert(plan[w.len() + a] == (1u8, k));
            } else if overwrite {
                assert(sweep.map().contains_key(k));
                let j = sweep.lemma_key_in_pairs(k);
                lemma_planned_sweeps_contains(sp, nm, om, (2u8, k));
                let sw = planned_sweeps(sp, nm, om);
                let a = choose|a: int| 0 <= a < sw.len() && sw[a] == (2u8, k);
                assert(plan[w.len() + d.len() + a] == (2u8, k));
            }
        }
    }
}

/// Law: once a plan was carried out, planning the same update again plans
/// nothing, with or without `--overwrite`: every key of the new tree holds
/// its new content, every dropped key is gone and, with `--overwrite`,
/// nothing else is left. This holds when the first observations agree with
/// the folder before, the second ones (and, with `--overwrite`, the scans)
/// are exact, and each write puts the new tree's content.
pub proof fn law_second_update_plans_nothing<T, U>(
    old_files: KeyMap<String>,
    new_files: KeyMap<String>,
    observed: Map<Seq<char>, Observed>,
    sweep: KeyMap<T>,
    overwrite: bool,
    disk: Map<Seq<char>, DiskEntry>,
    observed_again: Map<Seq<char>, Observed>,
    sweep_again: KeyMap<U>,
)
    requires
        old_files.wf(),
        new_files.wf(),
        sweep.wf(),
        sweep_again.wf(),
        overwrite ==> sweep.map().dom() == disk.dom(),
        forall|x: Seq<char>|
            (old_files.map().contains_key(x) || new_files.map().contains_key(x)) ==> #[trigger] observed_agrees(observed, disk, x),
        forall|x: Seq<char>|
            (old_files.map().contains_key(x) || new_files.map().contains_key(x)) ==> #[trigger] observed_exactly(
                observed_again,
                apply_plan(disk, full_plan(old_files, new_files, observed, sweep, overwrite), new_files.map()),
                x,
            ),
        overwrite ==> sweep_again.map().dom() == apply_plan(
            disk,
            full_plan(old_files, new_files, observed, sweep, overwrite),
            new_files.map(),
        ).dom(),
    ensures
        full_plan(old_files, new_files, observed_again, sweep_again, overwrite) == Seq::<(u8, Seq<char>)>::empty(),
{
    let nm = new_files.map();
    let om = old_files.map();
    let after = apply_plan(disk, full_plan(old_files, new_files, observed, sweep, overwrite), nm);
    let w = planned_writes(new_files.pairs(), observed_again);
    let d = planned_deletes(old_files.pairs(), nm, observed_again);
    let sw = planned_sweeps(sweep_again.pairs(), nm, om);
    if w.len() > 0 {
        assert(w.contains(w[0]));
        lemma_planned_writes_contains(new_files.pairs(), observed_again, w[0]);
        let i = choose|i: int| 0 <= i < new_files.pairs().len() && #[trigger] new_files.pairs()[i].0 == w[0].1
            && !already_written(observed_again, new_files.pairs()[i].0, new_files.pairs()[i].1@);
        new_files.lemma_pair_in_map(i);
        let k = w[0].1;
        lemma_carried_out(old_files, new_files, observed, sweep, overwrite, disk, k);
        assert(observed_exactly(observed_again, after, k));
    }
    if d.len() > 0 {
        assert(d.contains(d[0]));
        lemma_planned_deletes_contains(old_files.pairs(), nm, observed_again, d[0]);
        let i = choose|i: int| 0 <= i < old_files.pairs().len() && #[trigger] old_files.pairs()[i].0 == d[0].1;
        old_files.lemma_pair_in_map(i);
        let k = d[0].1;
        lemma_carried_out(old_files, new_files, observed, sweep, overwrite, disk, k);
        assert(observed_exactly(observed_again, after, k));
    }
    if overwrite && sw.len() > 0 {
        assert(sw.contains(sw[0]));
        lemma_planned_sweeps_contains(sweep_again.pairs(), nm, om, sw[0]);
        let i = choose|i: int| 0 <= i < sweep_again.pairs().len() && #[trigger] sweep_again.pairs()[i].0 == sw[0].1;
        sweep_again.lemma_pair_in_map(i);
        let k = sw[0].1;
        lemma_carried_out(old_files, new_files, observed, sweep, overwrite, disk, k);
        assert(after.contains_key(k));
    }
    assert(w =~= Seq::<(u8, Seq<char>)>::empty());
    assert(d =~= Seq::<(u8, Seq<char>)>::empty());
    if overwrite {
        assert(sw =~= Seq::<(u8, Seq<char>)>::empty());
    }
    assert(full_plan(old_files, new_files, observed_again, sweep_again, overwrite) =~= Seq::<(u8, Seq<char>)>::empty());
}

} // verus!
