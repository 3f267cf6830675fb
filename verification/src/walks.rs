//! Laws of whole walks: what holds of everything a walk, a status scan or a
//! discovery collects when the directories visited are exactly those the
//! per-directory decisions asked for, each once.
use vstd::prelude::*;
use crate::filter::Filter;
use crate::paths::EntryKind;
use crate::relpath::{RelPath, rel_view, join_key};
use crate::tree::{
    child, discovered, discovery_ignores, discovery_subdirs, found_in, git_dir_name, has_embed_marker,
    regular_files_in, scan_skips, scan_subdirs_in, subdirs_in, symlinks_in, walk_files_in, walked_files,
    ListedEntry,
};

verus! {

// ---------------------------------------------------------------------------
// Picking entries of one directory
// ---------------------------------------------------------------------------

/// The paths of the entries of `listing` (in directory `dir`) that `keep`
/// selects, in listing order.
pub open spec fn picked(dir: Seq<Seq<char>>, listing: Seq<ListedEntry>, keep: spec_fn(ListedEntry) -> bool) -> Seq<
    Seq<Seq<char>>,
>
    decreases listing.len(),
{
    if listing.len() == 0 {
        Seq::empty()
    } else {
        let prev = picked(dir, listing.drop_last(), keep);
        if keep(listing.last()) {
            prev.push(child(dir, listing.last().name@))
        } else {
            prev
        }
    }
}

/// Whether no two entries of a listing share a name (as in any real
/// directory).
pub open spec fn names_distinct(listing: Seq<ListedEntry>) -> bool {
    forall|i: int, j: int| 0 <= i < j < listing.len() ==> listing[i].name@ != listing[j].name@
}

/// Whether no element of `s` occurs twice.
pub open spec fn no_duplicates(s: Seq<Seq<Seq<char>>>) -> bool {
    forall|a: int, b: int| 0 <= a < b < s.len() ==> s[a] != s[b]
}

proof fn lemma_picked_contains(dir: Seq<Seq<char>>, listing: Seq<ListedEntry>, keep: spec_fn(ListedEntry) -> bool, q: Seq<Seq<char>>)
    requires
        picked(dir, listing, keep).contains(q),
    ensures
        exists|i: int| 0 <= i < listing.len() && keep(#[trigger] listing[i]) && q == child(dir, listing[i].name@),
    decreases listing.len(),
{
    let init = listing.drop_last();
    let prev = picked(dir, init, keep);
    let a = choose|a: int| 0 <= a < picked(dir, listing, keep).len() && picked(dir, listing, keep)[a] == q;
    if a < prev.len() {
        assert(prev[a] == q);
        lemma_picked_contains(dir, init, keep, q);
        let i = choose|i: int| 0 <= i < init.len() && keep(#[trigger] init[i]) && q == child(dir, init[i].name@);
        assert(listing[i] == init[i]);
    } else {
        assert(listing[listing.len() - 1] == listing.last());
    }
}

proof fn lemma_picked_distinct(dir: Seq<Seq<char>>, listing: Seq<ListedEntry>, keep: spec_fn(ListedEntry) -> bool)
    requires
        names_distinct(listing),
    ensures
        no_duplicates(picked(dir, listing, keep)),
    decreases listing.len(),
{
    if listing.len() > 0 {
        let init = listing.drop_last();
        let prev = picked(dir, init, keep);
        assert forall|i: int, j: int| 0 <= i < j < init.len() implies init[i].name@ != init[j].name@ by {
            assert(init[i] == listing[i] && init[j] == listing[j]);
        }
        lemma_picked_distinct(dir, init, keep);
        if keep(listing.last()) {
            let s = prev.push(child(dir, listing.last().name@));
            assert forall|a: int, b: int| 0 <= a < b < s.len() implies s[a] != s[b] by {
                if b == prev.len() {
                    assert(prev.contains(prev[a]));
                    lemma_picked_contains(dir, init, keep, prev[a]);
                    let i = choose|i: int| 0 <= i < init.len() && keep(#[trigger] init[i]) && prev[a] == child(dir, init[i].name@);
                    assert(init[i] == listing[i]);
                    assert(listing[i].name@ != listing[listing.len() - 1].name@);
                    assert(child(dir, init[i].name@).last() == init[i].name@);
                } else {
                    assert(s[a] == prev[a] && s[b] == prev[b]);
                }
            }
        }
    }
}

/// Which entries a walk collects as files.
pub open spec fn walk_file_keep(dir: Seq<Seq<char>>, filter: Filter) -> spec_fn(ListedEntry) -> bool {
    |e: ListedEntry| e.name@ != git_dir_name() && e.kind == EntryKind::File && filter.accepts(join_key(child(dir, e.name@)))
}

/// Which entries a walk enters.
pub open spec fn walk_dir_keep() -> spec_fn(ListedEntry) -> bool {
    |e: ListedEntry| e.name@ != git_dir_name() && e.kind == EntryKind::Dir
}

/// Which entries a status scan records as `kind` (file, symlink or
/// directory to enter).
pub open spec fn scan_keep(dir: Seq<Seq<char>>, kind: EntryKind) -> spec_fn(ListedEntry) -> bool {
    |e: ListedEntry| !scan_skips(dir, e.name@) && e.kind == kind
}

/// Which entries discovery searches.
pub open spec fn discovery_keep() -> spec_fn(ListedEntry) -> bool {
    |e: ListedEntry| !discovery_ignores(e.name@) && e.kind == EntryKind::Dir
}

proof fn lemma_walk_files_picked(dir: Seq<Seq<char>>, listing: Seq<ListedEntry>, filter: Filter)
    ensures
        walk_files_in(dir, listing, filter) == picked(dir, listing, walk_file_keep(dir, filter)),
    decreases listing.len(),
{
    if listing.len() > 0 {
        lemma_walk_files_picked(dir, listing.drop_last(), filter);
    }
}

proof fn lemma_subdirs_picked(dir: Seq<Seq<char>>, listing: Seq<ListedEntry>)
    ensures
        subdirs_in(dir, listing) == picked(dir, listing, walk_dir_keep()),
    decreases listing.len(),
{
    if listing.len() > 0 {
        lemma_subdirs_picked(dir, listing.drop_last());
    }
}

proof fn lemma_scan_picked(dir: Seq<Seq<char>>, listing: Seq<ListedEntry>)
    ensures
        regular_files_in(dir, listing) == picked(dir, listing, scan_keep(dir, EntryKind::File)),
        symlinks_in(dir, listing) == picked(dir, listing, scan_keep(dir, EntryKind::Symlink)),
        scan_subdirs_in(dir, listing) == picked(dir, listing, scan_keep(dir, EntryKind::Dir)),
    decreases listing.len(),
{
    if listing.len() > 0 {
        lemma_scan_picked(dir, listing.drop_last());
    }
}

proof fn lemma_discovery_picked(dir: Seq<Seq<char>>, listing: Seq<ListedEntry>)
    ensures
        discovery_subdirs(dir, listing) == picked(dir, listing, discovery_keep()),
    decreases listing.len(),
{
    if listing.len() > 0 {
        lemma_discovery_picked(dir, listing.drop_last());
    }
}

// ---------------------------------------------------------------------------
// Walks
// ---------------------------------------------------------------------------

/// The directory of visit `i`, by its names.
pub open spec fn visit_dir(visited: Seq<(RelPath, Vec<ListedEntry>)>, i: int) -> Seq<Seq<char>> {
    rel_view(visited[i].0)
}

/// The listing of visit `i`.
pub open spec fn visit_listing(visited: Seq<(RelPath, Vec<ListedEntry>)>, i: int) -> Seq<ListedEntry> {
    visited[i].1@
}

/// Whether visit `i` enters a directory that visit `j`, an earlier one,
/// asked to enter.
pub open spec fn entered_from(
    visited: Seq<(RelPath, Vec<ListedEntry>)>,
    next: spec_fn(Seq<Seq<char>>, Seq<ListedEntry>) -> Seq<Seq<Seq<char>>>,
    i: int,
    j: int,
) -> bool {
    0 <= j < i && next(visit_dir(visited, j), visit_listing(visited, j)).contains(visit_dir(visited, i))
}

/// Whether no two visits are of the same directory.
pub open spec fn visits_distinct(visited: Seq<(RelPath, Vec<ListedEntry>)>) -> bool {
    forall|i: int, j: int| 0 <= i < j < visited.len() ==> visit_dir(visited, i) != visit_dir(visited, j)
}

/// Whether `visited` is a walk that enters exactly where `next` says: it
/// starts at the root, visits each directory once, every later directory is
/// one an earlier visit asked to enter, and no listing repeats a name.
pub open spec fn is_walk(
    visited: Seq<(RelPath, Vec<ListedEntry>)>,
    next: spec_fn(Seq<Seq<char>>, Seq<ListedEntry>) -> Seq<Seq<Seq<char>>>,
) -> bool {
    &&& visited.len() > 0 ==> visit_dir(visited, 0).len() == 0
    &&& visits_distinct(visited)
    &&& forall|i: int| #![trigger visit_dir(visited, i)] 0 < i < visited.len() ==> exists|j: int| #[trigger] entered_from(visited, next, i, j)
    &&& forall|i: int| 0 <= i < visited.len() ==> names_distinct(#[trigger] visit_listing(visited, i))
}

/// Where a file walk goes next: the subdirectories `walk_step` enters.
pub open spec fn walk_next() -> spec_fn(Seq<Seq<char>>, Seq<ListedEntry>) -> Seq<Seq<Seq<char>>> {
    |d: Seq<Seq<char>>, l: Seq<ListedEntry>| subdirs_in(d, l)
}

/// Where a status scan goes next: the subdirectories `scan_entry` enters.
pub open spec fn scan_next() -> spec_fn(Seq<Seq<char>>, Seq<ListedEntry>) -> Seq<Seq<Seq<char>>> {
    |d: Seq<Seq<char>>, l: Seq<ListedEntry>| scan_subdirs_in(d, l)
}

/// Where discovery goes next: the subdirectories `discover_step` searches
/// (none below an embed folder).
pub open spec fn discovery_next() -> spec_fn(Seq<Seq<char>>, Seq<ListedEntry>) -> Seq<Seq<Seq<char>>> {
    |d: Seq<Seq<char>>, l: Seq<ListedEntry>| if has_embed_marker(l) {
        Seq::empty()
    } else {
        discovery_subdirs(d, l)
    }
}

/// Whether each directory `next` asks to enter is a child of the directory
/// whose name `ok` accepts.
pub open spec fn enters_children(
    next: spec_fn(Seq<Seq<char>>, Seq<ListedEntry>) -> Seq<Seq<Seq<char>>>,
    ok: spec_fn(Seq<char>) -> bool,
) -> bool {
    forall|d: Seq<Seq<char>>, l: Seq<ListedEntry>, q: Seq<Seq<char>>|
        #[trigger] next(d, l).contains(q) ==> q.len() == d.len() + 1 && q.drop_last() == d && ok(q.last())
}

/// Every directory a walk visits is made of names that `ok` accepts.
proof fn lemma_walk_dir_names(
    visited: Seq<(RelPath, Vec<ListedEntry>)>,
    next: spec_fn(Seq<Seq<char>>, Seq<ListedEntry>) -> Seq<Seq<Seq<char>>>,
    ok: spec_fn(Seq<char>) -> bool,
    i: int,
)
    requires
        is_walk(visited, next),
        enters_children(next, ok),
        0 <= i < visited.len(),
    ensures
        forall|c: int| 0 <= c < visit_dir(visited, i).len() ==> ok(#[trigger] visit_dir(visited, i)[c]),
    decreases i,
{
    if i > 0 {
        assert(visit_dir(visited, i) == visit_dir(visited, i));
        let j = choose|j: int| #[trigger] entered_from(visited, next, i, j);
        lemma_walk_dir_names(visited, next, ok, j);
        let q = visit_dir(visited, i);
        let d = visit_dir(visited, j);
        assert(next(d, visit_listing(visited, j)).contains(q));
        assert forall|c: int| 0 <= c < q.len() implies ok(#[trigger] q[c]) by {
            if c < q.len() - 1 {
                assert(q[c] == q.drop_last()[c]);
            }
        }
    }
}

/// What the visits contribute, in visiting order.
pub open spec fn gathered(
    visited: Seq<(RelPath, Vec<ListedEntry>)>,
    f: spec_fn(Seq<Seq<char>>, Seq<ListedEntry>) -> Seq<Seq<Seq<char>>>,
) -> Seq<Seq<Seq<char>>>
    decreases visited.len(),
{
    if visited.len() == 0 {
        Seq::empty()
    } else {
        gathered(visited.drop_last(), f) + f(rel_view(visited.last().0), visited.last().1@)
    }
}

/// When each visit contributes distinct children of its own directory and
/// no directory is visited twice, the contributions hold nothing twice, and
/// each of them comes from some visit.
proof fn lemma_gathered(
    visited: Seq<(RelPath, Vec<ListedEntry>)>,
    f: spec_fn(Seq<Seq<char>>, Seq<ListedEntry>) -> Seq<Seq<Seq<char>>>,
)
    requires
        visits_distinct(visited),
        forall|i: int| 0 <= i < visited.len() ==> no_duplicates(#[trigger] f(visit_dir(visited, i), visit_listing(visited, i))),
        forall|i: int, q: Seq<Seq<char>>|
            0 <= i < visited.len() && #[trigger] f(visit_dir(visited, i), visit_listing(visited, i)).contains(q) ==> q.len() > 0
                && q.drop_last() == visit_dir(visited, i),
    ensures
        no_duplicates(gathered(visited, f)),
        forall|q: Seq<Seq<char>>| #[trigger] gathered(visited, f).contains(q) ==> exists|i: int|
            0 <= i < visited.len() && #[trigger] f(visit_dir(visited, i), visit_listing(visited, i)).contains(q),
    decreases visited.len(),
{
    if visited.len() > 0 {
        let init = visited.drop_last();
        let n = visited.len() - 1;
        assert forall|i: int| 0 <= i < init.len() implies #[trigger] visit_dir(init, i) == visit_dir(visited, i)
            && visit_listing(init, i) == visit_listing(visited, i) by {
            assert(init[i] == visited[i]);
        }
        assert forall|i: int, j: int| 0 <= i < j < init.len() implies visit_dir(init, i) != visit_dir(init, j) by {
            assert(visit_dir(init, i) == visit_dir(visited, i));
            assert(visit_dir(init, j) == visit_dir(visited, j));
        }
        assert forall|i: int| 0 <= i < init.len() implies no_duplicates(#[trigger] f(visit_dir(init, i), visit_listing(init, i))) by {
            assert(visit_dir(init, i) == visit_dir(visited, i));
        }
        assert forall|i: int, q: Seq<Seq<char>>|
            0 <= i < init.len() && #[trigger] f(visit_dir(init, i), visit_listing(init, i)).contains(q) implies q.len() > 0
                && q.drop_last() == visit_dir(init, i) by {
            assert(visit_dir(init, i) == visit_dir(visited, i));
            assert(visit_listing(init, i) == visit_listing(visited, i));
        }
        lemma_gathered(init, f);
        let prev = gathered(init, f);
        let here = f(visit_dir(visited, n), visit_listing(visited, n));
        assert(visited.last() == visited[n]);
        assert(gathered(visited, f) == prev + here);
        assert(no_duplicates(here));
        assert forall|a: int, b: int| 0 <= a < b < (prev + here).len() implies (prev + here)[a] != (prev + here)[b] by {
            if a < prev.len() && b >= prev.len() {
                let x = prev[a];
                assert(prev.contains(x));
                let i = choose|i: int| 0 <= i < init.len() && #[trigger] f(visit_dir(init, i), visit_listing(init, i)).contains(x);
                assert(visit_dir(init, i) == visit_dir(visited, i));
                assert(visit_listing(init, i) == visit_listing(visited, i));
                assert(here.contains(here[b - prev.len()]));
                assert(visit_dir(visited, i) != visit_dir(visited, n));
            } else if a >= prev.len() {
                assert((prev + here)[a] == here[a - prev.len()]);
                assert((prev + here)[b] == here[b - prev.len()]);
            }
        }
        assert forall|q: Seq<Seq<char>>| #[trigger] gathered(visited, f).contains(q) implies exists|i: int|
            0 <= i < visited.len() && #[trigger] f(visit_dir(visited, i), visit_listing(visited, i)).contains(q) by {
            let a = choose|a: int| 0 <= a < (prev + here).len() && (prev + here)[a] == q;
            if a < prev.len() {
                assert(prev.contains(q));
                let i = choose|i: int| 0 <= i < init.len() && #[trigger] f(visit_dir(init, i), visit_listing(init, i)).contains(q);
                assert(visit_dir(init, i) == visit_dir(visited, i));
                assert(visit_listing(init, i) == visit_listing(visited, i));
                assert(f(visit_dir(visited, i), visit_listing(visited, i)).contains(q));
            } else {
                assert(here[a - prev.len()] == q);
                assert(f(visit_dir(visited, n), visit_listing(visited, n)).contains(q));
            }
        }
    }
}

/// Whether no name of `p` is `.git`.
pub open spec fn has_no_git_name(p: Seq<Seq<char>>) -> bool {
    forall|c: int| 0 <= c < p.len() ==> p[c] != git_dir_name()
}

/// What a file walk collects in one directory.
pub open spec fn walk_contrib(filter: Filter) -> spec_fn(Seq<Seq<char>>, Seq<ListedEntry>) -> Seq<Seq<Seq<char>>> {
    |d: Seq<Seq<char>>, l: Seq<ListedEntry>| walk_files_in(d, l, filter)
}

proof fn lemma_walked_gathered(visited: Seq<(RelPath, Vec<ListedEntry>)>, filter: Filter)
    ensures
        walked_files(visited, filter) == gathered(visited, walk_contrib(filter)),
    decreases visited.len(),
{
    if visited.len() > 0 {
        lemma_walked_gathered(visited.drop_last(), filter);
    }
}

proof fn lemma_walk_enters_children()
    ensures
        enters_children(walk_next(), |n: Seq<char>| n != git_dir_name()),
{
    assert forall|d: Seq<Seq<char>>, l: Seq<ListedEntry>, q: Seq<Seq<char>>| #[trigger] walk_next()(d, l).contains(q) implies q.len()
        == d.len() + 1 && q.drop_last() == d && q.last() != git_dir_name() by {
        lemma_subdirs_picked(d, l);
        lemma_picked_contains(d, l, walk_dir_keep(), q);
        let i = choose|i: int| 0 <= i < l.len() && walk_dir_keep()(#[trigger] l[i]) && q == child(d, l[i].name@);
    }
}

/// Law: the files a whole walk collects (every directory entered where
/// `walk_step` says, each once) are each collected once, and none of them
/// lies in or is named `.git`.
pub proof fn law_whole_walk_files(visited: Seq<(RelPath, Vec<ListedEntry>)>, filter: Filter)
    requires
        is_walk(visited, walk_next()),
    ensures
        no_duplicates(walked_files(visited, filter)),
        forall|q: Seq<Seq<char>>| #[trigger] walked_files(visited, filter).contains(q) ==> q.len() > 0 && has_no_git_name(q)
            && filter.accepts(join_key(q)),
{
    let f = walk_contrib(filter);
    lemma_walked_gathered(visited, filter);
    assert forall|i: int| 0 <= i < visited.len() implies no_duplicates(#[trigger] f(visit_dir(visited, i), visit_listing(visited, i))) by {
        let d = visit_dir(visited, i);
        let l = visit_listing(visited, i);
        lemma_walk_files_picked(d, l, filter);
        lemma_picked_distinct(d, l, walk_file_keep(d, filter));
    }
    assert forall|i: int, q: Seq<Seq<char>>|
        0 <= i < visited.len() && #[trigger] f(visit_dir(visited, i), visit_listing(visited, i)).contains(q) implies q.len() > 0
            && q.drop_last() == visit_dir(visited, i) by {
        let d = visit_dir(visited, i);
        let l = visit_listing(visited, i);
        lemma_walk_files_picked(d, l, filter);
        lemma_picked_contains(d, l, walk_file_keep(d, filter), q);
        let k = choose|k: int| 0 <= k < l.len() && walk_file_keep(d, filter)(#[trigger] l[k]) && q == child(d, l[k].name@);
        assert(q.drop_last() =~= d);
    }
    lemma_gathered(visited, f);
    lemma_walk_enters_children();
    assert forall|q: Seq<Seq<char>>| #[trigger] walked_files(visited, filter).contains(q) implies q.len() > 0 && has_no_git_name(q)
        && filter.accepts(join_key(q)) by {
        let i = choose|i: int| 0 <= i < visited.len() && #[trigger] f(visit_dir(visited, i), visit_listing(visited, i)).contains(q);
        let d = visit_dir(visited, i);
        let l = visit_listing(visited, i);
        lemma_walk_files_picked(d, l, filter);
        lemma_picked_contains(d, l, walk_file_keep(d, filter), q);
        let k = choose|k: int| 0 <= k < l.len() && walk_file_keep(d, filter)(#[trigger] l[k]) && q == child(d, l[k].name@);
        lemma_walk_dir_names(visited, walk_next(), |n: Seq<char>| n != git_dir_name(), i);
        assert forall|c: int| 0 <= c < q.len() implies q[c] != git_dir_name() by {
            if c < d.len() {
                assert(q[c] == d[c]);
            }
        }
    }
}

/// What a status scan records in one directory: its symlinks, then its
/// regular files.
pub open spec fn scan_contrib() -> spec_fn(Seq<Seq<char>>, Seq<ListedEntry>) -> Seq<Seq<Seq<char>>> {
    |d: Seq<Seq<char>>, l: Seq<ListedEntry>| symlinks_in(d, l) + regular_files_in(d, l)
}

/// The paths a status scan records over the directories it visited.
pub open spec fn scanned(visited: Seq<(RelPath, Vec<ListedEntry>)>) -> Seq<Seq<Seq<char>>> {
    gathered(visited, scan_contrib())
}

proof fn lemma_scan_enters_children()
    ensures
        enters_children(scan_next(), |n: Seq<char>| n != git_dir_name()),
{
    assert forall|d: Seq<Seq<char>>, l: Seq<ListedEntry>, q: Seq<Seq<char>>| #[trigger] scan_next()(d, l).contains(q) implies q.len()
        == d.len() + 1 && q.drop_last() == d && q.last() != git_dir_name() by {
        lemma_scan_picked(d, l);
        lemma_picked_contains(d, l, scan_keep(d, EntryKind::Dir), q);
        let i = choose|i: int| 0 <= i < l.len() && scan_keep(d, EntryKind::Dir)(#[trigger] l[i]) && q == child(d, l[i].name@);
    }
}

/// Law: what a whole status scan records (every directory entered where
/// `scan_entry` says, each once) is recorded once per path; no path lies in or
/// is named `.git`, and the folder's own `.embd` file is never among them.
pub proof fn law_whole_scan(visited: Seq<(RelPath, Vec<ListedEntry>)>)
    requires
        is_walk(visited, scan_next()),
    ensures
        no_duplicates(scanned(visited)),
        forall|q: Seq<Seq<char>>| #[trigger] scanned(visited).contains(q) ==> q.len() > 0 && has_no_git_name(q) && q
            != seq![crate::paths::embed_file_name()],
{
    let f = scan_contrib();
    assert forall|i: int| 0 <= i < visited.len() implies no_duplicates(#[trigger] f(visit_dir(visited, i), visit_listing(visited, i))) by {
        let d = visit_dir(visited, i);
        let l = visit_listing(visited, i);
        lemma_scan_picked(d, l);
        let ks = scan_keep(d, EntryKind::Symlink);
        let kf = scan_keep(d, EntryKind::File);
        lemma_picked_distinct(d, l, ks);
        lemma_picked_distinct(d, l, kf);
        let a1 = picked(d, l, ks);
        let a2 = picked(d, l, kf);
        assert forall|a: int, b: int| 0 <= a < b < (a1 + a2).len() implies (a1 + a2)[a] != (a1 + a2)[b] by {
            if a < a1.len() && b >= a1.len() {
                let x = a1[a];
                let y = a2[b - a1.len()];
                assert(a1.contains(x));
                assert(a2.contains(y));
                lemma_picked_contains(d, l, ks, x);
                lemma_picked_contains(d, l, kf, y);
                let i1 = choose|i1: int| 0 <= i1 < l.len() && ks(#[trigger] l[i1]) && x == child(d, l[i1].name@);
                let i2 = choose|i2: int| 0 <= i2 < l.len() && kf(#[trigger] l[i2]) && y == child(d, l[i2].name@);
                if x == y {
                    assert(x.last() == l[i1].name@ && y.last() == l[i2].name@);
                    if i1 < i2 {
                        assert(l[i1].name@ != l[i2].name@);
                    } else if i2 < i1 {
                        assert(l[i2].name@ != l[i1].name@);
                    }
                }
            } else if a >= a1.len() {
                assert((a1 + a2)[a] == a2[a - a1.len()]);
                assert((a1 + a2)[b] == a2[b - a1.len()]);
            }
        }
    }
    assert forall|i: int, q: Seq<Seq<char>>|
        0 <= i < visited.len() && #[trigger] f(visit_dir(visited, i), visit_listing(visited, i)).contains(q) implies q.len() > 0
            && q.drop_last() == visit_dir(visited, i) && q.last() != git_dir_name() && !(visit_dir(visited, i).len() == 0
            && q.last() == crate::paths::embed_file_name()) by {
        let d = visit_dir(visited, i);
        let l = visit_listing(visited, i);
        lemma_scan_picked(d, l);
        let a1 = picked(d, l, scan_keep(d, EntryKind::Symlink));
        let a2 = picked(d, l, scan_keep(d, EntryKind::File));
        let a = choose|a: int| 0 <= a < (a1 + a2).len() && (a1 + a2)[a] == q;
        let kind = if a < a1.len() { EntryKind::Symlink } else { EntryKind::File };
        if a < a1.len() {
            assert(a1[a] == q && a1.contains(q));
        } else {
            assert(a2[a - a1.len()] == q && a2.contains(q));
        }
        lemma_picked_contains(d, l, scan_keep(d, kind), q);
        let k = choose|k: int| 0 <= k < l.len() && scan_keep(d, kind)(#[trigger] l[k]) && q == child(d, l[k].name@);
        assert(q.drop_last() =~= d);
    }
    lemma_gathered(visited, f);
    lemma_scan_enters_children();
    assert forall|q: Seq<Seq<char>>| #[trigger] scanned(visited).contains(q) implies q.len() > 0 && has_no_git_name(q) && q
        != seq![crate::paths::embed_file_name()] by {
        let i = choose|i: int| 0 <= i < visited.len() && #[trigger] f(visit_dir(visited, i), visit_listing(visited, i)).contains(q);
        let d = visit_dir(visited, i);
        lemma_walk_dir_names(visited, scan_next(), |n: Seq<char>| n != git_dir_name(), i);
        assert forall|c: int| 0 <= c < q.len() implies q[c] != git_dir_name() by {
            if c < d.len() {
                assert(q[c] == q.drop_last()[c]);
            }
        }
        if q == seq![crate::paths::embed_file_name()] {
            assert(q.drop_last() =~= Seq::<Seq<char>>::empty());
        }
    }
}

proof fn lemma_discovered_facts(visited: Seq<(RelPath, Vec<ListedEntry>)>)
    requires
        visits_distinct(visited),
    ensures
        no_duplicates(discovered(visited)),
        forall|q: Seq<Seq<char>>| #[trigger] discovered(visited).contains(q) ==> q.len() > 0 && exists|i: int|
            0 <= i < visited.len() && visit_dir(visited, i) == q && #[trigger] has_embed_marker(visit_listing(visited, i)),
    decreases visited.len(),
{
    if visited.len() > 0 {
        let init = visited.drop_last();
        let n = visited.len() - 1;
        assert forall|i: int| 0 <= i < init.len() implies #[trigger] visit_dir(init, i) == visit_dir(visited, i)
            && visit_listing(init, i) == visit_listing(visited, i) by {
            assert(init[i] == visited[i]);
        }
        assert forall|i: int, j: int| 0 <= i < j < init.len() implies visit_dir(init, i) != visit_dir(init, j) by {
            assert(visit_dir(init, i) == visit_dir(visited, i));
            assert(visit_dir(init, j) == visit_dir(visited, j));
        }
        lemma_discovered_facts(init);
        let prev = discovered(init);
        assert(visited.last() == visited[n]);
        let here = found_in(visit_dir(visited, n), visit_listing(visited, n));
        assert(discovered(visited) == prev + here);
        assert forall|a: int, b: int| 0 <= a < b < (prev + here).len() implies (prev + here)[a] != (prev + here)[b] by {
            if b >= prev.len() {
                let x = prev[a];
                assert(prev.contains(x));
                let i = choose|i: int| 0 <= i < init.len() && visit_dir(init, i) == x && #[trigger] has_embed_marker(visit_listing(init, i));
                assert(visit_dir(init, i) == visit_dir(visited, i));
                assert(here[b - prev.len()] == visit_dir(visited, n));
            }
        }
        assert forall|q: Seq<Seq<char>>| #[trigger] discovered(visited).contains(q) implies q.len() > 0 && exists|i: int|
            0 <= i < visited.len() && visit_dir(visited, i) == q && #[trigger] has_embed_marker(visit_listing(visited, i)) by {
            let a = choose|a: int| 0 <= a < (prev + here).len() && (prev + here)[a] == q;
            if a < prev.len() {
                assert(prev.contains(q));
                let i = choose|i: int| 0 <= i < init.len() && visit_dir(init, i) == q && #[trigger] has_embed_marker(visit_listing(init, i));
                assert(visit_dir(init, i) == visit_dir(visited, i));
                assert(visit_listing(init, i) == visit_listing(visited, i));
            } else {
                assert(here[a - prev.len()] == q);
            }
        }
    }
}

proof fn lemma_discovery_enters_children()
    ensures
        enters_children(discovery_next(), |n: Seq<char>| !discovery_ignores(n)),
{
    assert forall|d: Seq<Seq<char>>, l: Seq<ListedEntry>, q: Seq<Seq<char>>| #[trigger] discovery_next()(d, l).contains(q) implies q.len()
        == d.len() + 1 && q.drop_last() == d && !discovery_ignores(q.last()) by {
        lemma_discovery_picked(d, l);
        lemma_picked_contains(d, l, discovery_keep(), q);
        let i = choose|i: int| 0 <= i < l.len() && discovery_keep()(#[trigger] l[i]) && q == child(d, l[i].name@);
    }
}

/// No directory a discovery visits lies below an embed folder it visited.
proof fn lemma_not_below_embed(visited: Seq<(RelPath, Vec<ListedEntry>)>, i: int, k: int)
    requires
        is_walk(visited, discovery_next()),
        0 <= i < visited.len(),
        0 <= k < visited.len(),
        has_embed_marker(visit_listing(visited, k)),
    ensures
        !(visit_dir(visited, k).len() < visit_dir(visited, i).len() && visit_dir(visited, i).take(
            visit_dir(visited, k).len() as int,
        ) == visit_dir(visited, k)),
    decreases i,
{
    let p = visit_dir(visited, k);
    let q = visit_dir(visited, i);
    if i > 0 && p.len() < q.len() && q.take(p.len() as int) == p {
        assert(visit_dir(visited, i) == q);
        let j = choose|j: int| #[trigger] entered_from(visited, discovery_next(), i, j);
        let d = visit_dir(visited, j);
        let l = visit_listing(visited, j);
        lemma_discovery_enters_children();
        assert(discovery_next()(d, l).contains(q));
        assert(!has_embed_marker(l));
        if p.len() == d.len() {
            assert(p =~= d);
            if k < j {
                assert(visit_dir(visited, k) != visit_dir(visited, j));
            } else if j < k {
                assert(visit_dir(visited, j) != visit_dir(visited, k));
            }
        } else {
            assert(d.take(p.len() as int) =~= q.take(p.len() as int));
            lemma_not_below_embed(visited, j, k);
        }
    }
}

/// Law: a whole discovery (every directory searched where `discover_step`
/// says, each once) reports each embed folder once; each is a directory
/// below the root holding a `.embd` file, none of its names is one that
/// discovery ignores (`.git`, `target`, `node_modules`, `.worktrees`,
/// `worktrees`), and no reported folder lies inside another.
pub proof fn law_whole_discovery(visited: Seq<(RelPath, Vec<ListedEntry>)>)
    requires
        is_walk(visited, discovery_next()),
    ensures
        no_duplicates(discovered(visited)),
        forall|q: Seq<Seq<char>>| #[trigger] discovered(visited).contains(q) ==> {
            &&& q.len() > 0
            &&& forall|c: int| 0 <= c < q.len() ==> !discovery_ignores(#[trigger] q[c])
            &&& exists|i: int| 0 <= i < visited.len() && visit_dir(visited, i) == q && #[trigger] has_embed_marker(visit_listing(visited, i))
        },
        forall|p: Seq<Seq<char>>, q: Seq<Seq<char>>|
            #[trigger] discovered(visited).contains(p) && #[trigger] discovered(visited).contains(q) ==> !(p.len() < q.len()
                && q.take(p.len() as int) == p),
{
    lemma_discovered_facts(visited);
    lemma_discovery_enters_children();
    assert forall|q: Seq<Seq<char>>| #[trigger] discovered(visited).contains(q) implies forall|c: int| 0 <= c < q.len() ==> !discovery_ignores(#[trigger] q[c]) by {
        let i = choose|i: int| 0 <= i < visited.len() && visit_dir(visited, i) == q && #[trigger] has_embed_marker(visit_listing(visited, i));
        lemma_walk_dir_names(visited, discovery_next(), |n: Seq<char>| !discovery_ignores(n), i);
    }
    assert forall|p: Seq<Seq<char>>, q: Seq<Seq<char>>|
        #[trigger] discovered(visited).contains(p) && #[trigger] discovered(visited).contains(q) implies !(p.len() < q.len()
            && q.take(p.len() as int) == p) by {
        let k = choose|k: int| 0 <= k < visited.len() && visit_dir(visited, k) == p && #[trigger] has_embed_marker(visit_listing(visited, k));
        let i = choose|i: int| 0 <= i < visited.len() && visit_dir(visited, i) == q && #[trigger] has_embed_marker(visit_listing(visited, i));
        lemma_not_below_embed(visited, i, k);
    }
}

/// Every entry that `keep` selects is picked.
proof fn lemma_picked_complete(dir: Seq<Seq<char>>, listing: Seq<ListedEntry>, keep: spec_fn(ListedEntry) -> bool, i: int)
    requires
        0 <= i < listing.len(),
        keep(listing[i]),
    ensures
        picked(dir, listing, keep).contains(child(dir, listing[i].name@)),
    decreases listing.len(),
{
    let init = listing.drop_last();
    let prev = picked(dir, init, keep);
    if i < init.len() {
        assert(init[i] == listing[i]);
        lemma_picked_complete(dir, init, keep, i);
        let a = choose|a: int| 0 <= a < prev.len() && prev[a] == child(dir, listing[i].name@);
        assert(picked(dir, listing, keep)[a] == child(dir, listing[i].name@));
    } else {
        assert(listing.last() == listing[i]);
        assert(picked(dir, listing, keep)[prev.len() as int] == child(dir, listing[i].name@));
    }
}

/// Whether a status scan skips the entry `name` of `dir`: `.git` anywhere,
/// `.embd` at the top of the folder.
pub open spec fn scan_passes_over(dir: Seq<Seq<char>>, name: Seq<char>) -> bool {
    name == ".git"@ || (dir.len() == 0 && name == ".embd"@)
}

proof fn lemma_scan_skips_names(dir: Seq<Seq<char>>, name: Seq<char>)
    ensures
        scan_skips(dir, name) == scan_passes_over(dir, name),
{
    reveal_strlit(".git");
    reveal_strlit(".embd");
    assert(".git"@ =~= git_dir_name());
    assert(".embd"@ =~= crate::paths::embed_file_name());
}

/// Law: a status scan of one directory records exactly its symlinks and its
/// regular files, and enters exactly its subdirectories, but for `.git`
/// anywhere and the folder's own `.embd` file at its top.
pub proof fn law_scan_takes_every_entry(dir: Seq<Seq<char>>, listing: Seq<ListedEntry>, q: Seq<Seq<char>>)
    ensures
        regular_files_in(dir, listing).contains(q) <==> exists|i: int|
            0 <= i < listing.len() && #[trigger] listing[i].kind == EntryKind::File && !scan_passes_over(dir, listing[i].name@)
                && q == dir.push(listing[i].name@),
        symlinks_in(dir, listing).contains(q) <==> exists|i: int|
            0 <= i < listing.len() && #[trigger] listing[i].kind == EntryKind::Symlink && !scan_passes_over(dir, listing[i].name@)
                && q == dir.push(listing[i].name@),
        scan_subdirs_in(dir, listing).contains(q) <==> exists|i: int|
            0 <= i < listing.len() && #[trigger] listing[i].kind == EntryKind::Dir && !scan_passes_over(dir, listing[i].name@)
                && q == dir.push(listing[i].name@),
{
    lemma_scan_picked(dir, listing);
    assert forall|k: EntryKind| #![auto] true implies (picked(dir, listing, scan_keep(dir, k)).contains(q) <==> exists|i: int|
        0 <= i < listing.len() && #[trigger] listing[i].kind == k && !scan_passes_over(dir, listing[i].name@) && q == dir.push(
            listing[i].name@,
        )) by {
        if picked(dir, listing, scan_keep(dir, k)).contains(q) {
            lemma_picked_contains(dir, listing, scan_keep(dir, k), q);
            let i = choose|i: int| 0 <= i < listing.len() && scan_keep(dir, k)(#[trigger] listing[i]) && q == child(dir, listing[i].name@);
            lemma_scan_skips_names(dir, listing[i].name@);
            assert(listing[i].kind == k);
        }
        if exists|i: int|
            0 <= i < listing.len() && #[trigger] listing[i].kind == k && !scan_passes_over(dir, listing[i].name@) && q == dir.push(
                listing[i].name@,
            ) {
            let i = choose|i: int|
                0 <= i < listing.len() && #[trigger] listing[i].kind == k && !scan_passes_over(dir, listing[i].name@) && q
                    == dir.push(listing[i].name@);
            lemma_scan_skips_names(dir, listing[i].name@);
            lemma_picked_complete(dir, listing, scan_keep(dir, k), i);
        }
    }
    assert(picked(dir, listing, scan_keep(dir, EntryKind::File)).contains(q) == regular_files_in(dir, listing).contains(q));
}

/// Law: a file walk enters exactly the subdirectories not named `.git`.
pub proof fn law_walk_enters_every_dir_but_git(dir: Seq<Seq<char>>, listing: Seq<ListedEntry>, q: Seq<Seq<char>>)
    ensures
        subdirs_in(dir, listing).contains(q) <==> exists|i: int|
            0 <= i < listing.len() && #[trigger] listing[i].kind == EntryKind::Dir && listing[i].name@ != ".git"@ && q
                == dir.push(listing[i].name@),
{
    reveal_strlit(".git");
    assert(".git"@ =~= git_dir_name());
    lemma_subdirs_picked(dir, listing);
    if subdirs_in(dir, listing).contains(q) {
        lemma_picked_contains(dir, listing, walk_dir_keep(), q);
        let i = choose|i: int| 0 <= i < listing.len() && walk_dir_keep()(#[trigger] listing[i]) && q == child(dir, listing[i].name@);
        assert(listing[i].kind == EntryKind::Dir);
    }
    if exists|i: int|
        0 <= i < listing.len() && #[trigger] listing[i].kind == EntryKind::Dir && listing[i].name@ != ".git"@ && q == dir.push(
            listing[i].name@,
        ) {
        let i = choose|i: int|
            0 <= i < listing.len() && #[trigger] listing[i].kind == EntryKind::Dir && listing[i].name@ != ".git"@ && q
                == dir.push(listing[i].name@);
        lemma_picked_complete(dir, listing, walk_dir_keep(), i);
    }
}

} // verus!
