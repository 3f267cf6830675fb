use embd::add::{folder_blocks_add, parse_patterns, rollback_removes_folder};
use embd::cache::{Manifest, CURRENT_SCHEMA};
use embd::color::{bad, dim, error_label, header, marker, ok, warn, warning_label};
use embd::config::FileLocks;

#[test]
fn colors_are_ansi_sequences() {
    assert_eq!(ok("clean"), "\x1b[32mclean\x1b[39m");
    assert_eq!(warn("drift"), "\x1b[33mdrift\x1b[39m");
    assert_eq!(bad("missing"), "\x1b[31mmissing\x1b[39m");
    assert_eq!(header("name"), "\x1b[1mname\x1b[0m");
    assert_eq!(dim("abc"), "\x1b[2mabc\x1b[0m");
    assert_eq!(error_label(), "\x1b[1m\x1b[31merror:\x1b[39m\x1b[0m");
    assert_eq!(warning_label(), "\x1b[1m\x1b[33mwarning:\x1b[39m\x1b[0m");
}

#[test]
fn markers_follow_git_status_colors() {
    assert_eq!(marker('M'), "\x1b[33mM\x1b[39m");
    assert_eq!(marker('D'), "\x1b[31mD\x1b[39m");
    assert_eq!(marker('X'), "\x1b[31mX\x1b[39m");
    assert_eq!(marker('?'), "\x1b[36m?\x1b[39m");
    assert_eq!(marker('L'), "\x1b[35mL\x1b[39m");
    assert_eq!(marker('W'), "\x1b[32mW\x1b[39m");
    assert_eq!(marker('Z'), "Z");
}

#[test]
fn patterns_are_split_trimmed_and_cleaned() {
    assert_eq!(parse_patterns(&None), Vec::<String>::new());
    assert_eq!(parse_patterns(&Some(String::new())), Vec::<String>::new());
    assert_eq!(
        parse_patterns(&Some(" **/*.md , docs/** ,, ,src/*".to_string())),
        vec!["**/*.md".to_string(), "docs/**".to_string(), "src/*".to_string()]
    );
    assert_eq!(parse_patterns(&Some("single".to_string())), vec!["single".to_string()]);
}

#[test]
fn add_folder_rules() {
    assert!(folder_blocks_add(true, true, false));
    assert!(!folder_blocks_add(true, true, true));
    assert!(!folder_blocks_add(true, false, false));
    assert!(!folder_blocks_add(false, false, false));
    assert!(rollback_removes_folder(false, false));
    assert!(rollback_removes_folder(false, true));
    assert!(rollback_removes_folder(true, false));
    assert!(!rollback_removes_folder(true, true));
}

#[test]
fn manifest_records_files_by_key() {
    let hashed = vec![
        (vec!["sub".to_string(), "b.txt".to_string()], "beta".to_string()),
        (vec!["a.txt".to_string()], "alpha".to_string()),
    ];
    let m = Manifest::build_from_path(hashed, "abc123".to_string());
    assert_eq!(m.schema_version, CURRENT_SCHEMA);
    assert_eq!(m.commit_hash, "abc123");
    assert_eq!(m.files.len(), 2);
    assert_eq!(m.files.get("a.txt"), Some(&"alpha".to_string()));
    assert_eq!(m.files.get("sub/b.txt"), Some(&"beta".to_string()));
}

#[test]
fn file_locks_keep_the_last_hash_for_a_key() {
    let hashed = vec![
        (vec!["a".to_string()], "1".to_string()),
        (vec!["a".to_string()], "2".to_string()),
    ];
    let locks = FileLocks::build_from_path(hashed);
    assert_eq!(locks.as_map().len(), 1);
    assert_eq!(locks.as_map().get("a"), Some(&"2".to_string()));
    let mut locks = FileLocks::new();
    assert_eq!(locks.as_map().len(), 0);
    locks.insert("x/y".to_string(), "h".to_string());
    locks.insert("b".to_string(), "g".to_string());
    assert_eq!(locks.as_map().key_at(0), "b");
    assert_eq!(locks.as_map().get("x/y"), Some(&"h".to_string()));
}

use embd::paths::PathComponent;
use embd::render::{outcome_lines, report_lines};
use embd::scan::{EntryReport, EntryState, FileChange};
use embd::update::{Outcome, UpdateChange};

fn report(state: EntryState, changes: Vec<FileChange>, allow_untracked: bool) -> EntryReport {
    EntryReport { folder: vec![PathComponent::Normal("vendor".to_string())], state, changes, allow_untracked }
}

#[test]
fn status_lines_of_a_clean_and_a_missing_folder() {
    let clean = report(EntryState::Compared, vec![], false);
    assert_eq!(report_lines(&clean, "vendor/foo", false), vec!["\x1b[1mvendor/foo\x1b[0m: \x1b[32mclean\x1b[39m"]);
    let missing = report(EntryState::FolderMissing, vec![], false);
    assert_eq!(report_lines(&missing, "x", false), vec!["\x1b[1mx\x1b[0m: \x1b[31mfolder missing\x1b[39m"]);
}

#[test]
fn status_lines_list_each_change_unless_quiet() {
    let changes = vec![
        FileChange::Modified("a".into()),
        FileChange::Deleted("b".into()),
        FileChange::Untracked("c".into()),
        FileChange::Symlink("d".into()),
    ];
    let r = report(EntryState::Compared, changes, true);
    assert_eq!(
        report_lines(&r, "f", false),
        vec![
            "\x1b[1mf\x1b[0m: \x1b[33mdrift\x1b[39m".to_string(),
            "  \x1b[33mM\x1b[39m  a".to_string(),
            "  \x1b[31mD\x1b[39m  b".to_string(),
            "  \x1b[36m?\x1b[39m  c (untracked, allowed)".to_string(),
            "  \x1b[35mL\x1b[39m  d (symlink)".to_string(),
        ]
    );
    assert_eq!(report_lines(&r, "f", true).len(), 1);
    let r = report(EntryState::Compared, vec![FileChange::Untracked("c".into())], false);
    assert_eq!(report_lines(&r, "f", false)[1], "  \x1b[36m?\x1b[39m  c (untracked)");
}

#[test]
fn update_lines() {
    assert_eq!(outcome_lines("vendor", &Outcome::UpToDate, false), vec!["vendor: up to date"]);
    assert_eq!(outcome_lines("vendor", &Outcome::SkippedNoLockfile, false), vec!["vendor: no lock file (use --force)"]);
    assert_eq!(
        outcome_lines("vendor", &Outcome::SkippedDrift, false),
        vec!["error: re-run with --force to overwrite local modifications"]
    );
    let moved = Outcome::Updated {
        old_commit: "0123456789abcdef".into(),
        new_commit: "fedcba9876543210".into(),
        changes: vec![
            UpdateChange::Wrote("a.txt".into()),
            UpdateChange::Deleted("b.txt".into()),
            UpdateChange::Removed("c.txt".into()),
        ],
    };
    assert_eq!(
        outcome_lines("vendor", &moved, false),
        vec![
            "vendor: updated 0123456 -> fedcba9, 3 changes",
            "  W  a.txt",
            "  D  b.txt",
            "  X  c.txt (untracked, removed)",
        ]
    );
    assert_eq!(outcome_lines("vendor", &moved, true).len(), 1);
    let same = Outcome::Updated {
        old_commit: "abc".into(),
        new_commit: "abc".into(),
        changes: vec![UpdateChange::Wrote("a".into())],
    };
    assert_eq!(outcome_lines("v", &same, true), vec!["v: updated, 1 change"]);
    let many = Outcome::Updated {
        old_commit: "x".into(),
        new_commit: "x".into(),
        changes: (0..120).map(|i| UpdateChange::Wrote(format!("f{i}"))).collect(),
    };
    assert_eq!(outcome_lines("v", &many, true), vec!["v: updated, 120 changes"]);
    let none = Outcome::Updated { old_commit: "x".into(), new_commit: "x".into(), changes: vec![] };
    assert_eq!(outcome_lines("v", &none, true), vec!["v: updated, 0 changes"]);
}
