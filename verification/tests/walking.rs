use embd::filter::Filter;
use embd::paths::EntryKind;
use embd::tree::{
    copy_entry, discover_embed_folders, discover_step, is_ignored_by_discovery, is_skipped_entry, scan_entry,
    walk_files, walk_step, CopyAction, CopyRefusal, ListedEntry, ScanAction,
};

fn listing(entries: &[(&str, EntryKind)]) -> Vec<ListedEntry> {
    entries.iter().map(|(n, k)| ListedEntry { name: n.to_string(), kind: *k }).collect()
}

fn p(parts: &[&str]) -> Vec<String> {
    parts.iter().map(|s| s.to_string()).collect()
}

use EntryKind::{Dir, File, Other, Symlink};

#[test]
fn walk_step_collects_files_and_enters_directories() {
    let l = listing(&[("b.txt", File), (".git", Dir), ("sub", Dir), ("link", Symlink), ("pipe", Other)]);
    let step = walk_step(&p(&["x"]), &l, &Filter::allow_all());
    assert_eq!(step.files, vec![p(&["x", "b.txt"])]);
    assert_eq!(step.subdirs, vec![p(&["x", "sub"])]);
}

#[test]
fn walk_step_applies_the_filter_to_keys() {
    let f = Filter::from_patterns(&["src/**".to_string()], &[]).ok().unwrap();
    let l = listing(&[("lib.rs", File), ("Cargo.toml", File)]);
    assert_eq!(walk_step(&p(&["src"]), &l, &f).files, vec![p(&["src", "lib.rs"]), p(&["src", "Cargo.toml"])]);
    assert!(walk_step(&p(&[]), &l, &f).files.is_empty());
}

#[test]
fn walk_files_sorts_what_the_walk_collected() {
    let visited = vec![
        (p(&[]), listing(&[("b.txt", File), ("b", Dir), ("a.txt", File)])),
        (p(&["b"]), listing(&[("sub", Dir), ("b.txt", File)])),
        (p(&["b", "sub"]), listing(&[("c.txt", File)])),
    ];
    let files = walk_files(&visited, &Filter::allow_all());
    assert_eq!(
        files,
        vec![p(&["a.txt"]), p(&["b", "b.txt"]), p(&["b", "sub", "c.txt"]), p(&["b.txt"])]
    );
}

#[test]
fn walk_skips_git_directory_and_symlinks() {
    let visited = vec![(p(&[]), listing(&[(".git", Dir), ("keep.txt", File), ("link.txt", Symlink)]))];
    assert_eq!(walk_files(&visited, &Filter::allow_all()), vec![p(&["keep.txt"])]);
}

#[test]
fn scan_decides_entry_by_entry() {
    let e = |n: &str, k: EntryKind| ListedEntry { name: n.to_string(), kind: k };
    assert!(matches!(scan_entry(&p(&[]), &e(".embd", File)), ScanAction::Skip));
    assert!(matches!(scan_entry(&p(&["d"]), &e(".embd", File)), ScanAction::Hash(q) if q == p(&["d", ".embd"])));
    assert!(matches!(scan_entry(&p(&["d"]), &e(".git", Dir)), ScanAction::Skip));
    assert!(matches!(scan_entry(&p(&[]), &e("a", File)), ScanAction::Hash(q) if q == p(&["a"])));
    assert!(matches!(scan_entry(&p(&[]), &e("l", Symlink)), ScanAction::Symlink(q) if q == p(&["l"])));
    assert!(matches!(scan_entry(&p(&[]), &e("d", Dir)), ScanAction::Enter(q) if q == p(&["d"])));
    assert!(matches!(scan_entry(&p(&["x"]), &e("fifo", Other)), ScanAction::Refuse(q) if q == p(&["x", "fifo"])));
}

#[test]
fn copy_decides_entry_by_entry() {
    let f = Filter::from_patterns(&[], &["*.md".to_string()]).ok().unwrap();
    let e = |n: &str, k: EntryKind| ListedEntry { name: n.to_string(), kind: k };
    assert!(matches!(copy_entry(&p(&["d"]), &e("a.rs", File), &f), CopyAction::Copy(q) if q == p(&["d", "a.rs"])));
    assert!(matches!(copy_entry(&p(&[]), &e("notes.md", File), &f), CopyAction::Skip));
    assert!(matches!(copy_entry(&p(&[]), &e(".git", Symlink), &f), CopyAction::Skip));
    assert!(matches!(copy_entry(&p(&[]), &e("sub", Dir), &f), CopyAction::Enter(q) if q == p(&["sub"])));
    assert!(matches!(
        copy_entry(&p(&["d"]), &e("link.txt", Symlink), &f),
        CopyAction::Refuse(CopyRefusal::Symlink(q)) if q == p(&["d", "link.txt"])
    ));
    assert!(matches!(copy_entry(&p(&[]), &e("dev", Other), &f), CopyAction::Refuse(CopyRefusal::Unsupported(_))));
}

#[test]
fn discover_finds_embed_folders_sorted() {
    let visited = vec![
        (p(&[]), listing(&[("zebra", Dir), ("nested", Dir)])),
        (p(&["zebra"]), listing(&[(".embd", File)])),
        (p(&["nested"]), listing(&[("alpha", Dir)])),
        (p(&["nested", "alpha"]), listing(&[(".embd", File)])),
    ];
    assert_eq!(discover_embed_folders(&visited), vec![p(&["nested", "alpha"]), p(&["zebra"])]);
}

#[test]
fn discover_does_not_search_inside_an_embed() {
    let step = discover_step(&p(&["outer"]), &listing(&[(".embd", File), ("inner", Dir)]));
    assert_eq!(step.found, Some(p(&["outer"])));
    assert!(step.subdirs.is_empty());
}

#[test]
fn discover_skips_ignored_directories_and_the_root_marker() {
    let l = listing(&[
        (".embd", File),
        (".git", Dir),
        ("target", Dir),
        ("node_modules", Dir),
        (".worktrees", Dir),
        ("worktrees", Dir),
    ]);
    let step = discover_step(&p(&[]), &l);
    assert_eq!(step.found, None);
    assert!(step.subdirs.is_empty());
    let l = listing(&[("target", Dir), ("src", Dir), ("link", Symlink)]);
    assert_eq!(discover_step(&p(&[]), &l).subdirs, vec![p(&["src"])]);
    // A symlink named `.embd` does not mark a folder.
    let step = discover_step(&p(&["a"]), &listing(&[(".embd", Symlink)]));
    assert_eq!(step.found, None);
}

#[test]
fn skipped_and_ignored_names() {
    assert!(is_skipped_entry(".git"));
    assert!(!is_skipped_entry("git"));
    for n in [".git", "target", "node_modules", ".worktrees", "worktrees"] {
        assert!(is_ignored_by_discovery(n));
    }
    assert!(!is_ignored_by_discovery("src"));
}
