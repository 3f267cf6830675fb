use embd::config::{EmbdEntry, FileLocks, Metadata};
use embd::hash::hash_content;
use embd::keymap::KeyMap;
use embd::paths::PathComponent;
use embd::relpath::{key_to_path, path_to_key};
use embd::scan::{change_rank, inspect_entry, key_of, scan_folder, DiskEntry, EntryState, FileChange};

fn entry(files: &[(&str, &str)], allow_untracked: bool) -> EmbdEntry {
    let hashed: Vec<(Vec<String>, String)> = files
        .iter()
        .map(|(k, content)| (key_to_path(k), hash_content(content.as_bytes())))
        .collect();
    EmbdEntry {
        metadata: Metadata {
            remote: "https://example.git".to_string(),
            commit_hash: "abc123".to_string(),
            allow_untracked,
            include_patterns: Vec::new(),
            exclude_patterns: Vec::new(),
        },
        files: FileLocks::build_from_path(hashed),
    }
}

fn disk(files: &[(&str, Option<&str>)]) -> KeyMap<DiskEntry> {
    let found: Vec<(Vec<String>, DiskEntry)> = files
        .iter()
        .map(|(k, content)| {
            let e = match content {
                Some(c) => DiskEntry::Regular { hash: hash_content(c.as_bytes()) },
                None => DiskEntry::Symlink,
            };
            (key_to_path(k), e)
        })
        .collect();
    scan_folder(&found)
}

fn folder() -> Vec<PathComponent> {
    vec![PathComponent::Normal("vendor".to_string()), PathComponent::Normal("foo".to_string())]
}

#[test]
fn reports_clean_when_folder_matches_manifest() {
    let e = entry(&[("a.txt", "alpha")], false);
    let d = disk(&[("a.txt", Some("alpha"))]);
    let report = inspect_entry(&folder(), &e, Some(&d));
    assert_eq!(report.state, EntryState::Compared);
    assert!(report.changes.is_empty());
    assert!(!report.has_drift());
    assert_eq!(report.folder, folder());
}

#[test]
fn reports_modified_file() {
    let e = entry(&[("a.txt", "alpha")], false);
    let d = disk(&[("a.txt", Some("ALPHA"))]);
    let report = inspect_entry(&folder(), &e, Some(&d));
    assert_eq!(report.changes, vec![FileChange::Modified("a.txt".into())]);
    assert!(report.has_drift());
}

#[test]
fn reports_deleted_file() {
    let e = entry(&[("a.txt", "alpha"), ("b.txt", "beta")], false);
    let d = disk(&[("b.txt", Some("beta"))]);
    let report = inspect_entry(&folder(), &e, Some(&d));
    assert_eq!(report.changes, vec![FileChange::Deleted("a.txt".into())]);
    assert!(report.has_drift());
}

#[test]
fn untracked_is_drift_when_flag_off() {
    let e = entry(&[("a.txt", "alpha")], false);
    let d = disk(&[("a.txt", Some("alpha")), ("extra.txt", Some("x"))]);
    let report = inspect_entry(&folder(), &e, Some(&d));
    assert_eq!(report.changes, vec![FileChange::Untracked("extra.txt".into())]);
    assert!(report.has_drift());
}

#[test]
fn untracked_is_clean_when_flag_on() {
    let e = entry(&[("a.txt", "alpha")], true);
    let d = disk(&[("a.txt", Some("alpha")), ("extra.txt", Some("x"))]);
    let report = inspect_entry(&folder(), &e, Some(&d));
    assert_eq!(report.changes, vec![FileChange::Untracked("extra.txt".into())]);
    assert!(!report.has_drift());
}

#[test]
fn modified_overrides_allow_untracked() {
    let e = entry(&[("a.txt", "alpha")], true);
    let d = disk(&[("a.txt", Some("ALPHA")), ("extra.txt", Some("x"))]);
    let report = inspect_entry(&folder(), &e, Some(&d));
    assert!(report.has_drift(), "modified file must always count as drift");
}

#[test]
fn crlf_checkout_of_lf_lockfile_is_not_drift() {
    let e = entry(&[("a.txt", "alpha\nbeta\n")], false);
    let d = disk(&[("a.txt", Some("alpha\r\nbeta\r\n"))]);
    let report = inspect_entry(&folder(), &e, Some(&d));
    assert!(report.changes.is_empty(), "{:?}", report.changes);
    assert!(!report.has_drift());
}

#[test]
fn folder_missing_reports_drift() {
    let e = entry(&[("a.txt", "alpha")], false);
    let report = inspect_entry(&folder(), &e, None);
    assert_eq!(report.state, EntryState::FolderMissing);
    assert!(report.changes.is_empty());
    assert!(report.has_drift());
}

#[test]
fn change_ordering_is_stable() {
    let e = entry(&[("a.txt", "alpha"), ("b.txt", "beta")], false);
    let d = disk(&[("z.txt", Some("z")), ("b.txt", Some("BETA"))]);
    let report = inspect_entry(&folder(), &e, Some(&d));
    assert_eq!(
        report.changes,
        vec![
            FileChange::Modified("b.txt".into()),
            FileChange::Deleted("a.txt".into()),
            FileChange::Untracked("z.txt".into()),
        ]
    );
}

#[test]
fn symlink_reported_as_drift() {
    let e = entry(&[("a.txt", "alpha")], true);
    let d = disk(&[("a.txt", Some("alpha")), ("link.txt", None)]);
    let report = inspect_entry(&folder(), &e, Some(&d));
    assert_eq!(report.changes, vec![FileChange::Symlink("link.txt".into())]);
    assert!(report.has_drift());
}

#[test]
fn symlink_at_tracked_path_is_reported_as_symlink() {
    let e = entry(&[("a.txt", "alpha"), ("b.txt", "beta")], false);
    let d = disk(&[("a.txt", None), ("b.txt", Some("beta"))]);
    let report = inspect_entry(&folder(), &e, Some(&d));
    assert_eq!(report.changes, vec![FileChange::Symlink("a.txt".into())]);
}

#[test]
fn every_kind_of_change_sorted_by_kind_then_key() {
    let e = entry(&[("m2", "x"), ("m1", "x"), ("d2", "x"), ("d1", "x"), ("s1", "x")], false);
    let d = disk(&[
        ("u2", Some("y")),
        ("m2", Some("y")),
        ("s2", None),
        ("u1", Some("y")),
        ("m1", Some("y")),
        ("s1", None),
    ]);
    let report = inspect_entry(&folder(), &e, Some(&d));
    assert_eq!(
        report.changes,
        vec![
            FileChange::Modified("m1".into()),
            FileChange::Modified("m2".into()),
            FileChange::Deleted("d1".into()),
            FileChange::Deleted("d2".into()),
            FileChange::Untracked("u1".into()),
            FileChange::Untracked("u2".into()),
            FileChange::Symlink("s1".into()),
            FileChange::Symlink("s2".into()),
        ]
    );
}

#[test]
fn markers_ranks_and_keys() {
    let cs = [
        FileChange::Modified("a".into()),
        FileChange::Deleted("b".into()),
        FileChange::Untracked("c".into()),
        FileChange::Symlink("d".into()),
    ];
    let markers: Vec<char> = cs.iter().map(|c| c.as_marker()).collect();
    assert_eq!(markers, vec!['M', 'D', '?', 'L']);
    let ranks: Vec<u8> = cs.iter().map(change_rank).collect();
    assert_eq!(ranks, vec![0, 1, 2, 3]);
    let keys: Vec<&str> = cs.iter().map(key_of).collect();
    assert_eq!(keys, vec!["a", "b", "c", "d"]);
}

#[test]
fn scanned_paths_are_recorded_by_key() {
    let found = vec![
        (vec!["sub".to_string(), "b.txt".to_string()], DiskEntry::Regular { hash: "h1".to_string() }),
        (vec!["a.txt".to_string()], DiskEntry::Symlink),
    ];
    let m = scan_folder(&found);
    assert_eq!(m.len(), 2);
    assert_eq!(m.get("sub/b.txt"), Some(&DiskEntry::Regular { hash: "h1".to_string() }));
    assert_eq!(m.get("a.txt"), Some(&DiskEntry::Symlink));
    assert_eq!(m.get("b.txt"), None);
    // Keys come out in order.
    assert_eq!(m.key_at(0), "a.txt");
    assert_eq!(m.key_at(1), "sub/b.txt");
}

#[test]
fn path_keys_use_forward_slashes_and_round_trip() {
    let parts = vec!["a".to_string(), "b c".to_string(), "d.txt".to_string()];
    let key = path_to_key(&parts);
    assert_eq!(key, "a/b c/d.txt");
    assert_eq!(key_to_path(&key), parts);
    assert_eq!(path_to_key(&[]), "");
}

#[test]
fn keys_with_non_empty_segments_round_trip() {
    for key in ["sub/b.txt", "a", "x/y/z.rs", "with space/f"] {
        assert_eq!(path_to_key(&key_to_path(key)), key);
    }
    // Empty segments are dropped when a key is read.
    assert_eq!(path_to_key(&key_to_path("a//b/")), "a/b");
}
