//! The decisions taken in each directory of a walk over an embedded folder
//! (or over the whole repository, when discovering embeds). Reading a
//! directory is left to the caller; given the directory's listing, these
//! functions say which files are collected, which subdirectories are entered
//! next, and which entries are refused.
use vstd::prelude::*;
use crate::filter::Filter;
use crate::paths::EntryKind;
use crate::relpath::{RelPath, rel_view, join_key, path_to_key, paths_sorted, sort_paths};
use crate::text::str_eq;

verus! {

/// One entry of a directory listing: its file name and what it is (not
/// following symlinks).
#[derive(Debug, PartialEq, Eq)]
pub struct ListedEntry {
    pub name: String,
    pub kind: EntryKind,
}

/// `.git`.
pub open spec fn git_dir_name() -> Seq<char> {
    seq!['.', 'g', 'i', 't']
}

/// Return true if a directory entry should be skipped when walking embedded
/// folders (both during copy and during status hashing). Centralizing the
/// rule here keeps the walkers in sync.
pub fn is_skipped_entry(name: &str) -> (r: bool)
    ensures
        r == (name@ == git_dir_name()),
{
    proof {
        reveal_strlit(".git");
        assert(".git"@ =~= git_dir_name());
    }
    str_eq(name, ".git")
}

/// The path of entry `name` inside `dir`.
pub open spec fn child(dir: Seq<Seq<char>>, name: Seq<char>) -> Seq<Seq<char>> {
    dir.push(name)
}

fn child_path(dir: &RelPath, name: &String) -> (p: RelPath)
    ensures
        rel_view(p) == child(rel_view(*dir), name@),
{
    let mut p = dir.clone();
    proof {
        assert(p@ =~= dir@);
    }
    p.push(name.clone());
    assert(rel_view(p) =~= rel_view(*dir).push(name@));
    p
}

/// The paths of a sequence of relative paths, by their characters.
pub open spec fn paths_view(ps: Seq<RelPath>) -> Seq<Seq<Seq<char>>> {
    ps.map_values(|p: RelPath| rel_view(p))
}

// ---------------------------------------------------------------------------
// Walking files for a manifest
// ---------------------------------------------------------------------------

/// The files a walk collects from one directory: regular files, not named
/// `.git`, that the filter pulls, in listing order.
pub open spec fn walk_files_in(dir: Seq<Seq<char>>, listing: Seq<ListedEntry>, filter: Filter) -> Seq<
    Seq<Seq<char>>,
>
    decreases listing.len(),
{
    if listing.len() == 0 {
        Seq::empty()
    } else {
        let prev = walk_files_in(dir, listing.drop_last(), filter);
        let e = listing.last();
        if e.name@ != git_dir_name() && e.kind == EntryKind::File && filter.accepts(
            join_key(child(dir, e.name@)),
        ) {
            prev.push(child(dir, e.name@))
        } else {
            prev
        }
    }
}

/// The subdirectories a walk enters from one directory: directories not
/// named `.git`, in listing order. Symlinks are never followed.
pub open spec fn subdirs_in(dir: Seq<Seq<char>>, listing: Seq<ListedEntry>) -> Seq<Seq<Seq<char>>>
    decreases listing.len(),
{
    if listing.len() == 0 {
        Seq::empty()
    } else {
        let prev = subdirs_in(dir, listing.drop_last());
        let e = listing.last();
        if e.name@ != git_dir_name() && e.kind == EntryKind::Dir {
            prev.push(child(dir, e.name@))
        } else {
            prev
        }
    }
}

/// What one directory contributes to a walk.
pub struct WalkStep {
    /// Files collected here.
    pub files: Vec<RelPath>,
    /// Subdirectories to walk next.
    pub subdirs: Vec<RelPath>,
}

/// The decisions of a file walk in directory `dir` (relative to the walk's
/// root): `.git` entries and symlinks are skipped, regular files are
/// collected when `filter` pulls them, directories are entered, anything else
/// is ignored.
pub fn walk_step(dir: &RelPath, listing: &Vec<ListedEntry>, filter: &Filter) -> (step: WalkStep)
    ensures
        paths_view(step.files@) == walk_files_in(rel_view(*dir), listing@, *filter),
        paths_view(step.subdirs@) == subdirs_in(rel_view(*dir), listing@),
{
    let mut files: Vec<RelPath> = Vec::new();
    let mut subdirs: Vec<RelPath> = Vec::new();
    let mut i: usize = 0;
    while i < listing.len()
        invariant
            i <= listing@.len(),
            paths_view(files@) == walk_files_in(rel_view(*dir), listing@.take(i as int), *filter),
            paths_view(subdirs@) == subdirs_in(rel_view(*dir), listing@.take(i as int)),
        decreases listing.len() - i,
    {
        let e = &listing[i];
        proof {
            assert(listing@.take(i + 1).drop_last() =~= listing@.take(i as int));
            assert(listing@.take(i + 1).last() == listing@[i as int]);
        }
        if !is_skipped_entry(e.name.as_str()) {
            match e.kind {
                EntryKind::File => {
                    let p = child_path(dir, &e.name);
                    let key = path_to_key(p.as_slice());
                    proof {
                        assert(p@.map_values(|s: String| s@) == rel_view(p));
                    }
                    if filter.includes(key.as_str()) {
                        let ghost before = paths_view(files@);
                        files.push(p);
                        assert(paths_view(files@) =~= before.push(rel_view(p)));
                    }
                },
                EntryKind::Dir => {
                    let p = child_path(dir, &e.name);
                    let ghost before = paths_view(subdirs@);
                    subdirs.push(p);
                    assert(paths_view(subdirs@) =~= before.push(rel_view(p)));
                },
                _ => {},
            }
        }
        i = i + 1;
    }
    assert(listing@.take(listing@.len() as int) =~= listing@);
    WalkStep { files, subdirs }
}

// ---------------------------------------------------------------------------
// Scanning a folder for status
// ---------------------------------------------------------------------------

/// Whether a status scan skips the entry `name` of directory `dir`: `.git`
/// anywhere, and the folder's own `.embd` file at its top.
pub open spec fn scan_skips(dir: Seq<Seq<char>>, name: Seq<char>) -> bool {
    name == git_dir_name() || (dir.len() == 0 && name == crate::paths::embed_file_name())
}

fn scan_skips_exec(dir: &RelPath, name: &str) -> (r: bool)
    ensures
        r == scan_skips(rel_view(*dir), name@),
{
    if is_skipped_entry(name) {
        return true;
    }
    if dir.len() == 0 {
        let marker = crate::paths::embed_file_string();
        str_eq(name, marker.as_str())
    } else {
        false
    }
}

/// The entries of one directory a status scan records as symlinks.
pub open spec fn symlinks_in(dir: Seq<Seq<char>>, listing: Seq<ListedEntry>) -> Seq<Seq<Seq<char>>>
    decreases listing.len(),
{
    if listing.len() == 0 {
        Seq::empty()
    } else {
        let prev = symlinks_in(dir, listing.drop_last());
        let e = listing.last();
        if !scan_skips(dir, e.name@) && e.kind == EntryKind::Symlink {
            prev.push(child(dir, e.name@))
        } else {
            prev
        }
    }
}

/// The regular files of one directory that a status scan hashes.
pub open spec fn regular_files_in(dir: Seq<Seq<char>>, listing: Seq<ListedEntry>) -> Seq<
    Seq<Seq<char>>,
>
    decreases listing.len(),
{
    if listing.len() == 0 {
        Seq::empty()
    } else {
        let prev = regular_files_in(dir, listing.drop_last());
        let e = listing.last();
        if !scan_skips(dir, e.name@) && e.kind == EntryKind::File {
            prev.push(child(dir, e.name@))
        } else {
            prev
        }
    }
}

/// The subdirectories a status scan enters from one directory.
pub open spec fn scan_subdirs_in(dir: Seq<Seq<char>>, listing: Seq<ListedEntry>) -> Seq<Seq<Seq<char>>>
    decreases listing.len(),
{
    if listing.len() == 0 {
        Seq::empty()
    } else {
        let prev = scan_subdirs_in(dir, listing.drop_last());
        let e = listing.last();
        if !scan_skips(dir, e.name@) && e.kind == EntryKind::Dir {
            prev.push(child(dir, e.name@))
        } else {
            prev
        }
    }
}

/// What a status scan does with one entry of a directory, entries being
/// taken in listing order and each directory scanned completely (depth
/// first) before the next entry.
pub enum ScanAction {
    /// Nothing: `.git`, or the folder's own `.embd` file at its top.
    Skip,
    /// Record this symlink (never followed).
    Symlink(RelPath),
    /// Hash this regular file.
    Hash(RelPath),
    /// Scan this directory, then go on with the next entry.
    Enter(RelPath),
    /// An entry of an unsupported type: the scan fails here.
    Refuse(RelPath),
}

/// The decision of a status scan on entry `e` of directory `dir`: `.git`
/// anywhere, and the folder's own `.embd` file at its top, are skipped;
/// symlinks are recorded, regular files hashed, directories entered; an entry
/// of any other type fails the scan.
pub fn scan_entry(dir: &RelPath, e: &ListedEntry) -> (a: ScanAction)
    ensures
        a is Skip <==> scan_skips(rel_view(*dir), e.name@),
        a is Symlink <==> (!scan_skips(rel_view(*dir), e.name@) && e.kind == EntryKind::Symlink),
        a is Hash <==> (!scan_skips(rel_view(*dir), e.name@) && e.kind == EntryKind::File),
        a is Enter <==> (!scan_skips(rel_view(*dir), e.name@) && e.kind == EntryKind::Dir),
        a is Refuse <==> (!scan_skips(rel_view(*dir), e.name@) && e.kind == EntryKind::Other),
        match a {
            ScanAction::Symlink(p) => rel_view(p) == child(rel_view(*dir), e.name@),
            ScanAction::Hash(p) => rel_view(p) == child(rel_view(*dir), e.name@),
            ScanAction::Enter(p) => rel_view(p) == child(rel_view(*dir), e.name@),
            ScanAction::Refuse(p) => rel_view(p) == child(rel_view(*dir), e.name@),
            ScanAction::Skip => true,
        },
{
    if scan_skips_exec(dir, e.name.as_str()) {
        return ScanAction::Skip;
    }
    match e.kind {
        EntryKind::Symlink => ScanAction::Symlink(child_path(dir, &e.name)),
        EntryKind::File => ScanAction::Hash(child_path(dir, &e.name)),
        EntryKind::Dir => ScanAction::Enter(child_path(dir, &e.name)),
        EntryKind::Other => ScanAction::Refuse(child_path(dir, &e.name)),
    }
}

// ---------------------------------------------------------------------------
// Copying a folder
// ---------------------------------------------------------------------------

/// Why a copy stopped at an entry.
#[derive(Debug)]
pub enum CopyRefusal {
    /// A symlink: refusing to copy it (following one could escape the source
    /// repository).
    Symlink(RelPath),
    /// An entry of an unsupported file type.
    Unsupported(RelPath),
}

/// What a copy does with one entry of a directory, entries being taken in
/// listing order and each directory copied completely (depth first) before
/// the next entry.
pub enum CopyAction {
    /// Nothing: a `.git` entry, or a file the filter does not pull.
    Skip,
    /// Copy this file.
    Copy(RelPath),
    /// Copy this directory, then go on with the next entry.
    Enter(RelPath),
    /// Stop the whole copy here.
    Refuse(CopyRefusal),
}

/// The decision of a folder copy on entry `e` of directory `dir`: `.git`
/// is skipped; a regular file is copied when `filter` pulls it; a directory
/// is entered; a symlink or an entry of any other type stops the copy.
pub fn copy_entry(dir: &RelPath, e: &ListedEntry, filter: &Filter) -> (a: CopyAction)
    ensures
        a is Skip <==> (e.name@ == git_dir_name() || (e.kind == EntryKind::File && !filter.accepts(
            join_key(child(rel_view(*dir), e.name@)),
        ))),
        a matches CopyAction::Copy(p) ==> e.name@ != git_dir_name() && e.kind == EntryKind::File
            && filter.accepts(join_key(child(rel_view(*dir), e.name@))) && rel_view(p) == child(
            rel_view(*dir),
            e.name@,
        ),
        a is Copy <==> (e.name@ != git_dir_name() && e.kind == EntryKind::File && filter.accepts(
            join_key(child(rel_view(*dir), e.name@)),
        )),
        a matches CopyAction::Enter(p) ==> rel_view(p) == child(rel_view(*dir), e.name@),
        a is Enter <==> (e.name@ != git_dir_name() && e.kind == EntryKind::Dir),
        a matches CopyAction::Refuse(CopyRefusal::Symlink(p)) ==> rel_view(p) == child(rel_view(*dir), e.name@),
        (a matches CopyAction::Refuse(CopyRefusal::Symlink(_))) <==> (e.name@ != git_dir_name() && e.kind
            == EntryKind::Symlink),
        a matches CopyAction::Refuse(CopyRefusal::Unsupported(p)) ==> rel_view(p) == child(rel_view(*dir), e.name@),
        (a matches CopyAction::Refuse(CopyRefusal::Unsupported(_))) <==> (e.name@ != git_dir_name() && e.kind
            == EntryKind::Other),
{
    if is_skipped_entry(e.name.as_str()) {
        return CopyAction::Skip;
    }
    match e.kind {
        EntryKind::Symlink => CopyAction::Refuse(CopyRefusal::Symlink(child_path(dir, &e.name))),
        EntryKind::Dir => CopyAction::Enter(child_path(dir, &e.name)),
        EntryKind::File => {
            let p = child_path(dir, &e.name);
            let key = path_to_key(p.as_slice());
            proof {
                assert(p@.map_values(|s: String| s@) == rel_view(p));
            }
            if filter.includes(key.as_str()) {
                CopyAction::Copy(p)
            } else {
                CopyAction::Skip
            }
        },
        EntryKind::Other => CopyAction::Refuse(CopyRefusal::Unsupported(child_path(dir, &e.name))),
    }
}

// ---------------------------------------------------------------------------
// Discovering embeds
// ---------------------------------------------------------------------------

/// Whether discovery skips a directory entry by name: `.git` and well-known
/// non-source directories.
pub open spec fn discovery_ignores(name: Seq<char>) -> bool {
    name == git_dir_name() || name == seq!['t', 'a', 'r', 'g', 'e', 't'] || name == seq![
        'n',
        'o',
        'd',
        'e',
        '_',
        'm',
        'o',
        'd',
        'u',
        'l',
        'e',
        's',
    ] || name == seq!['.', 'w', 'o', 'r', 'k', 't', 'r', 'e', 'e', 's'] || name == seq![
        'w',
        'o',
        'r',
        'k',
        't',
        'r',
        'e',
        'e',
        's',
    ]
}

/// Whether discovery skips an entry with this name.
pub fn is_ignored_by_discovery(name: &str) -> (r: bool)
    ensures
        r == discovery_ignores(name@),
{
    proof {
        reveal_strlit(".git");
        reveal_strlit("target");
        reveal_strlit("node_modules");
        reveal_strlit(".worktrees");
        reveal_strlit("worktrees");
        assert(".git"@ =~= git_dir_name());
        assert("target"@ =~= seq!['t', 'a', 'r', 'g', 'e', 't']);
        assert("node_modules"@ =~= seq!['n', 'o', 'd', 'e', '_', 'm', 'o', 'd', 'u', 'l', 'e', 's']);
        assert(".worktrees"@ =~= seq!['.', 'w', 'o', 'r', 'k', 't', 'r', 'e', 'e', 's']);
        assert("worktrees"@ =~= seq!['w', 'o', 'r', 'k', 't', 'r', 'e', 'e', 's']);
    }
    str_eq(name, ".git") || str_eq(name, "target") || str_eq(name, "node_modules") || str_eq(
        name,
        ".worktrees",
    ) || str_eq(name, "worktrees")
}

/// Whether a directory's listing holds the `.embd` marker file (entries
/// that discovery ignores by name do not count; symlinks never do).
pub open spec fn has_embed_marker(listing: Seq<ListedEntry>) -> bool {
    exists|i: int|
        0 <= i < listing.len() && !discovery_ignores(#[trigger] listing[i].name@) && listing[i].kind
            == EntryKind::File && listing[i].name@ == crate::paths::embed_file_name()
}

/// The subdirectories discovery enters from one directory.
pub open spec fn discovery_subdirs(dir: Seq<Seq<char>>, listing: Seq<ListedEntry>) -> Seq<
    Seq<Seq<char>>,
>
    decreases listing.len(),
{
    if listing.len() == 0 {
        Seq::empty()
    } else {
        let prev = discovery_subdirs(dir, listing.drop_last());
        let e = listing.last();
        if !discovery_ignores(e.name@) && e.kind == EntryKind::Dir {
            prev.push(child(dir, e.name@))
        } else {
            prev
        }
    }
}

/// What discovery decides for one directory.
pub struct DiscoverStep {
    /// This directory, when it is an embed folder.
    pub found: Option<RelPath>,
    /// Subdirectories to search next.
    pub subdirs: Vec<RelPath>,
}

/// Discovery's decision in directory `dir` (relative to the git root): a
/// directory holding a `.embd` file is an embed folder and is not searched
/// any further (the git root itself is never reported); otherwise its
/// subdirectories are searched, skipping `.git`, `target`, `node_modules`,
/// `.worktrees`, `worktrees` and symlinks.
pub fn discover_step(dir: &RelPath, listing: &Vec<ListedEntry>) -> (step: DiscoverStep)
    ensures
        has_embed_marker(listing@) ==> {
            &&& step.subdirs@.len() == 0
            &&& match step.found {
                Some(f) => dir@.len() > 0 && rel_view(f) == rel_view(*dir),
                None => dir@.len() == 0,
            }
        },
        !has_embed_marker(listing@) ==> {
            &&& step.found is None
            &&& paths_view(step.subdirs@) == discovery_subdirs(rel_view(*dir), listing@)
        },
{
    let mut has_marker = false;
    let mut subdirs: Vec<RelPath> = Vec::new();
    let mut i: usize = 0;
    while i < listing.len()
        invariant
            i <= listing@.len(),
            has_marker == has_embed_marker(listing@.take(i as int)),
            paths_view(subdirs@) == discovery_subdirs(rel_view(*dir), listing@.take(i as int)),
        decreases listing.len() - i,
    {
        let e = &listing[i];
        let ghost t = listing@.take(i + 1);
        proof {
            assert(t.drop_last() =~= listing@.take(i as int));
            assert(t.last() == listing@[i as int]);
        }
        if !is_ignored_by_discovery(e.name.as_str()) {
            match e.kind {
                EntryKind::File => {
                    let marker = crate::paths::embed_file_string();
                    if str_eq(e.name.as_str(), marker.as_str()) {
                        has_marker = true;
                        assert(t[i as int] == listing@[i as int]);
                    }
                },
                EntryKind::Dir => {
                    let p = child_path(dir, &e.name);
                    let ghost before = paths_view(subdirs@);
                    subdirs.push(p);
                    assert(paths_view(subdirs@) =~= before.push(rel_view(p)));
                },
                _ => {},
            }
        }
        proof {
            let prev = listing@.take(i as int);
            let here = !discovery_ignores(listing@[i as int].name@) && listing@[i as int].kind == EntryKind::File
                && listing@[i as int].name@ == crate::paths::embed_file_name();
            if has_embed_marker(t) {
                let k = choose|k: int|
                    0 <= k < t.len() && !discovery_ignores(#[trigger] t[k].name@) && t[k].kind
                        == EntryKind::File && t[k].name@ == crate::paths::embed_file_name();
                if k < i {
                    assert(prev[k] == t[k]);
                    assert(!discovery_ignores(prev[k].name@));
                } else {
                    assert(t[k] == listing@[i as int]);
                }
            }
            if has_embed_marker(prev) {
                let k = choose|k: int|
                    0 <= k < prev.len() && !discovery_ignores(#[trigger] prev[k].name@) && prev[k].kind
                        == EntryKind::File && prev[k].name@ == crate::paths::embed_file_name();
                assert(t[k] == prev[k]);
                assert(!discovery_ignores(t[k].name@));
            }
            if here {
                assert(t[i as int] == listing@[i as int]);
                assert(!discovery_ignores(t[i as int].name@));
            }
            assert(has_embed_marker(t) == (has_embed_marker(prev) || here));
        }
        i = i + 1;
    }
    assert(listing@.take(listing@.len() as int) =~= listing@);
    if has_marker {
        if dir.len() > 0 {
            let f = dir.clone();
            assert(f@ =~= dir@);
            DiscoverStep { found: Some(f), subdirs: Vec::new() }
        } else {
            DiscoverStep { found: None, subdirs: Vec::new() }
        }
    } else {
        DiscoverStep { found: None, subdirs }
    }
}


// ---------------------------------------------------------------------------
// Whole walks
// ---------------------------------------------------------------------------

/// Sequences with the same elements (counted) keep the same elements after
/// mapping each element.
proof fn lemma_map_values_multiset<A, B>(s1: Seq<A>, s2: Seq<A>, f: spec_fn(A) -> B)
    requires
        s1.to_multiset() == s2.to_multiset(),
    ensures
        s1.map_values(f).to_multiset() == s2.map_values(f).to_multiset(),
    decreases s1.len(),
{
    broadcast use vstd::seq_lib::group_to_multiset_ensures, vstd::multiset::group_multiset_axioms;
    assert(s1.len() == s1.to_multiset().len());
    assert(s2.len() == s2.to_multiset().len());
    if s1.len() == 0 {
        assert(s1.map_values(f) =~= Seq::<B>::empty());
        assert(s2.map_values(f) =~= Seq::<B>::empty());
    } else {
        let x = s1.last();
        let init = s1.drop_last();
        assert(s1 =~= init.push(x));
        assert(s1.to_multiset().count(x) > 0);
        assert(s2.contains(x));
        let k = choose|k: int| 0 <= k < s2.len() && s2[k] == x;
        let rest = s2.remove(k);
        assert(rest.to_multiset() =~= s2.to_multiset().remove(x));
        assert(init.to_multiset() =~= s1.to_multiset().remove(x));
        lemma_map_values_multiset(init, rest, f);
        let m1 = s1.map_values(f);
        let m2 = s2.map_values(f);
        assert(m1 =~= init.map_values(f).push(f(x)));
        assert(m2.remove(k) =~= rest.map_values(f));
        assert(m2[k] == f(x));
        assert(m2.remove(k).to_multiset() =~= m2.to_multiset().remove(f(x)));
        assert(m2.to_multiset().count(f(x)) > 0);
        assert(m1.to_multiset() =~= m2.to_multiset());
    }
}

/// A sorted copy of `paths` holds the same paths, by their characters.
proof fn lemma_sorted_copy_same_paths(sorted: Seq<RelPath>, all: Seq<RelPath>)
    requires
        sorted.to_multiset() == all.to_multiset(),
    ensures
        paths_view(sorted).to_multiset() == paths_view(all).to_multiset(),
{
    lemma_map_values_multiset(sorted, all, |p: RelPath| rel_view(p));
}

/// The files that a walk collects from the directories it visited, in
/// visiting order.
pub open spec fn walked_files(visited: Seq<(RelPath, Vec<ListedEntry>)>, filter: Filter) -> Seq<
    Seq<Seq<char>>,
>
    decreases visited.len(),
{
    if visited.len() == 0 {
        Seq::empty()
    } else {
        walked_files(visited.drop_last(), filter) + walk_files_in(
            rel_view(visited.last().0),
            visited.last().1@,
            filter,
        )
    }
}

/// Every regular file of a folder that `filter` pulls, relative to the
/// folder and sorted, given the listings of the directories a walk visited
/// (`.git` skipped, symlinks not followed: each listing's subdirectories are
/// those `walk_step` enters).
pub fn walk_files(visited: &Vec<(RelPath, Vec<ListedEntry>)>, filter: &Filter) -> (files: Vec<
    RelPath,
>)
    ensures
        paths_sorted(files@),
        paths_view(files@).to_multiset() == walked_files(visited@, *filter).to_multiset(),
{
    let mut all: Vec<RelPath> = Vec::new();
    let mut i: usize = 0;
    while i < visited.len()
        invariant
            i <= visited@.len(),
            paths_view(all@) == walked_files(visited@.take(i as int), *filter),
        decreases visited.len() - i,
    {
        let step = walk_step(&visited[i].0, &visited[i].1, filter);
        let ghost before = all@;
        let mut files = step.files;
        all.append(&mut files);
        proof {
            assert(visited@.take(i + 1).drop_last() =~= visited@.take(i as int));
            assert(visited@.take(i + 1).last() == visited@[i as int]);
            assert(paths_view(all@) =~= paths_view(before) + paths_view(step.files@));
        }
        i = i + 1;
    }
    assert(visited@.take(visited@.len() as int) =~= visited@);
    let ghost unsorted = all@;
    let files = sort_paths(all);
    proof {
        lemma_sorted_copy_same_paths(files@, unsorted);
    }
    files
}

/// Every path a directory contributes to a walk is a regular file of that
/// directory, not named `.git`, whose key the filter accepts.
proof fn lemma_walk_files_in_accepted(dir: Seq<Seq<char>>, listing: Seq<ListedEntry>, filter: Filter, p: Seq<Seq<char>>)
    requires
        walk_files_in(dir, listing, filter).contains(p),
    ensures
        filter.accepts(join_key(p)),
        exists|i: int|
            0 <= i < listing.len() && #[trigger] listing[i].kind == EntryKind::File && listing[i].name@
                != git_dir_name() && p == child(dir, listing[i].name@),
    decreases listing.len(),
{
    let prev = walk_files_in(dir, listing.drop_last(), filter);
    let e = listing.last();
    let a = choose|a: int| 0 <= a < walk_files_in(dir, listing, filter).len() && walk_files_in(dir, listing, filter)[a] == p;
    if a < prev.len() {
        assert(prev[a] == p);
        lemma_walk_files_in_accepted(dir, listing.drop_last(), filter, p);
        let i = choose|i: int|
            0 <= i < listing.drop_last().len() && #[trigger] listing.drop_last()[i].kind == EntryKind::File
                && listing.drop_last()[i].name@ != git_dir_name() && p == child(dir, listing.drop_last()[i].name@);
        assert(listing[i] == listing.drop_last()[i]);
    } else {
        assert(listing[listing.len() - 1] == e);
    }
}

/// Law: a walk only ever collects regular files, never anything named
/// `.git`, and only files whose keys the filter accepts; so a manifest built
/// from a filtered walk never holds a file the filter refuses.
pub proof fn law_walk_respects_filter(visited: Seq<(RelPath, Vec<ListedEntry>)>, filter: Filter, p: Seq<Seq<char>>)
    requires
        walked_files(visited, filter).contains(p),
    ensures
        filter.accepts(join_key(p)),
        p.len() > 0 && p.last() != git_dir_name(),
        exists|i: int| 0 <= i < visited.len() && p.drop_last() == rel_view(#[trigger] visited[i].0),
    decreases visited.len(),
{
    let init = visited.drop_last();
    let last = visited.last();
    let prev = walked_files(init, filter);
    let here = walk_files_in(rel_view(last.0), last.1@, filter);
    let a = choose|a: int| 0 <= a < (prev + here).len() && (prev + here)[a] == p;
    if a < prev.len() {
        assert(prev[a] == p);
        law_walk_respects_filter(init, filter, p);
        let i = choose|i: int| 0 <= i < init.len() && p.drop_last() == rel_view(#[trigger] init[i].0);
        assert(visited[i] == init[i]);
    } else {
        assert(here[a - prev.len()] == p);
        assert(here.contains(p));
        lemma_walk_files_in_accepted(rel_view(last.0), last.1@, filter, p);
        let i = choose|i: int|
            0 <= i < last.1@.len() && #[trigger] last.1@[i].kind == EntryKind::File && last.1@[i].name@
                != git_dir_name() && p == child(rel_view(last.0), last.1@[i].name@);
        assert(p.drop_last() =~= rel_view(last.0));
        assert(visited[visited.len() - 1] == last);
    }
}

/// The embed folder that discovery reports for one directory.
pub open spec fn found_in(dir: Seq<Seq<char>>, listing: Seq<ListedEntry>) -> Seq<Seq<Seq<char>>> {
    if has_embed_marker(listing) && dir.len() > 0 {
        seq![dir]
    } else {
        Seq::empty()
    }
}

/// The embed folders reported for the directories discovery visited, in
/// visiting order.
pub open spec fn discovered(visited: Seq<(RelPath, Vec<ListedEntry>)>) -> Seq<Seq<Seq<char>>>
    decreases visited.len(),
{
    if visited.len() == 0 {
        Seq::empty()
    } else {
        discovered(visited.drop_last()) + found_in(rel_view(visited.last().0), visited.last().1@)
    }
}

/// Every folder (relative to the git root) that directly holds a `.embd`
/// file, sorted, given the listings of the directories discovery visited
/// (each listing's subdirectories are those `discover_step` searches).
pub fn discover_embed_folders(visited: &Vec<(RelPath, Vec<ListedEntry>)>) -> (folders: Vec<RelPath>)
    ensures
        paths_sorted(folders@),
        paths_view(folders@).to_multiset() == discovered(visited@).to_multiset(),
{
    let mut all: Vec<RelPath> = Vec::new();
    let mut i: usize = 0;
    while i < visited.len()
        invariant
            i <= visited@.len(),
            paths_view(all@) == discovered(visited@.take(i as int)),
        decreases visited.len() - i,
    {
        let step = discover_step(&visited[i].0, &visited[i].1);
        let ghost before = all@;
        proof {
            assert(visited@.take(i + 1).drop_last() =~= visited@.take(i as int));
            assert(visited@.take(i + 1).last() == visited@[i as int]);
        }
        match step.found {
            Some(f) => {
                all.push(f);
                assert(paths_view(all@) =~= paths_view(before) + found_in(rel_view(visited@[i as int].0), visited@[i as int].1@));
            },
            None => {
                assert(found_in(rel_view(visited@[i as int].0), visited@[i as int].1@) =~= Seq::<Seq<Seq<char>>>::empty());
                assert(paths_view(all@) =~= paths_view(before) + found_in(rel_view(visited@[i as int].0), visited@[i as int].1@));
            },
        }
        i = i + 1;
    }
    assert(visited@.take(visited@.len() as int) =~= visited@);
    let ghost unsorted = all@;
    let folders = sort_paths(all);
    proof {
        lemma_sorted_copy_same_paths(folders@, unsorted);
    }
    folders
}

// ---------------------------------------------------------------------------
// What each directory step takes, entry by entry
// ---------------------------------------------------------------------------

/// Law: a walk collects, from one directory, exactly its regular files that
/// are not named `.git` and whose key the filter accepts; any other name,
/// hidden or not, is collected like the rest.
pub proof fn law_walk_collects_every_pulled_file(
    dir: Seq<Seq<char>>,
    listing: Seq<ListedEntry>,
    filter: Filter,
    q: Seq<Seq<char>>,
)
    ensures
        walk_files_in(dir, listing, filter).contains(q) <==> exists|i: int|
            0 <= i < listing.len() && #[trigger] listing[i].kind == EntryKind::File && listing[i].name@ != seq![
                '.',
                'g',
                'i',
                't',
            ] && filter.accepts(join_key(dir.push(listing[i].name@))) && q == dir.push(listing[i].name@),
    decreases listing.len(),
{
    assert(git_dir_name() =~= seq!['.', 'g', 'i', 't']);
    if walk_files_in(dir, listing, filter).contains(q) {
        lemma_walk_files_in_accepted(dir, listing, filter, q);
        let i = choose|i: int|
            0 <= i < listing.len() && #[trigger] listing[i].kind == EntryKind::File && listing[i].name@
                != git_dir_name() && q == child(dir, listing[i].name@);
        assert(listing[i].kind == EntryKind::File);
    }
    if listing.len() > 0 {
        let init = listing.drop_last();
        law_walk_collects_every_pulled_file(dir, init, filter, q);
        let prev = walk_files_in(dir, init, filter);
        if exists|i: int|
            0 <= i < listing.len() && #[trigger] listing[i].kind == EntryKind::File && listing[i].name@ != seq![
                '.',
                'g',
                'i',
                't',
            ] && filter.accepts(join_key(dir.push(listing[i].name@))) && q == dir.push(listing[i].name@) {
            let i = choose|i: int|
                0 <= i < listing.len() && #[trigger] listing[i].kind == EntryKind::File && listing[i].name@ != seq![
                    '.',
                    'g',
                    'i',
                    't',
                ] && filter.accepts(join_key(dir.push(listing[i].name@))) && q == dir.push(listing[i].name@);
            if i < init.len() {
                assert(init[i] == listing[i]);
                assert(init[i].kind == EntryKind::File);
                assert(prev.contains(q));
                let a = choose|a: int| 0 <= a < prev.len() && prev[a] == q;
                assert(walk_files_in(dir, listing, filter)[a] == q);
            } else {
                assert(listing.last() == listing[i]);
                assert(walk_files_in(dir, listing, filter) == prev.push(q));
                assert(walk_files_in(dir, listing, filter)[prev.len() as int] == q);
            }
        }
    }
}

/// Law: discovery ignores a name exactly when it is `.git`, `target`,
/// `node_modules`, `.worktrees` or `worktrees`; every other name is searched.
pub proof fn law_discovery_ignores_only_five_names(n: Seq<char>)
    ensures
        discovery_ignores(n) <==> (n == ".git"@ || n == "target"@ || n == "node_modules"@ || n == ".worktrees"@
            || n == "worktrees"@),
{
    reveal_strlit(".git");
    reveal_strlit("target");
    reveal_strlit("node_modules");
    reveal_strlit(".worktrees");
    reveal_strlit("worktrees");
    assert(".git"@ =~= git_dir_name());
    assert("target"@ =~= seq!['t', 'a', 'r', 'g', 'e', 't']);
    assert("node_modules"@ =~= seq!['n', 'o', 'd', 'e', '_', 'm', 'o', 'd', 'u', 'l', 'e', 's']);
    assert(".worktrees"@ =~= seq!['.', 'w', 'o', 'r', 'k', 't', 'r', 'e', 'e', 's']);
    assert("worktrees"@ =~= seq!['w', 'o', 'r', 'k', 't', 'r', 'e', 'e', 's']);
}

/// Law: discovery searches every subdirectory of a directory without a
/// `.embd` file, except the five ignored names.
pub proof fn law_discovery_enters_every_other_dir(dir: Seq<Seq<char>>, listing: Seq<ListedEntry>, i: int)
    requires
        0 <= i < listing.len(),
        listing[i].kind == EntryKind::Dir,
        !(listing[i].name@ == ".git"@ || listing[i].name@ == "target"@ || listing[i].name@ == "node_modules"@
            || listing[i].name@ == ".worktrees"@ || listing[i].name@ == "worktrees"@),
    ensures
        discovery_subdirs(dir, listing).contains(dir.push(listing[i].name@)),
    decreases listing.len(),
{
    law_discovery_ignores_only_five_names(listing[i].name@);
    let init = listing.drop_last();
    let prev = discovery_subdirs(dir, init);
    if i < init.len() {
        assert(init[i] == listing[i]);
        law_discovery_enters_every_other_dir(dir, init, i);
        let a = choose|a: int| 0 <= a < prev.len() && prev[a] == dir.push(listing[i].name@);
        assert(discovery_subdirs(dir, listing)[a] == dir.push(listing[i].name@));
    } else {
        assert(listing.last() == listing[i]);
        assert(discovery_subdirs(dir, listing)[prev.len() as int] == dir.push(listing[i].name@));
    }
}

} // verus!
