use embd::keymap::KeyMap;
use embd::update::{
    after_resolve, AfterResolve, gate_before_clone, pin_moves, plan_update, prune_candidates, prune_parent, short, up_to_date_after_resolve,
    validate_update_args, Gate, Observed, Outcome, UpdateArgsError, UpdateChange,
};
use embd::paths::{is_legacy_layout, PathComponent};
use embd::scan::{EntryReport, EntryState, FileChange};

fn files(pairs: &[(&str, &str)]) -> KeyMap<String> {
    let mut m = KeyMap::new();
    for (k, v) in pairs {
        m.insert(k.to_string(), v.to_string());
    }
    m
}

fn observed(pairs: &[(&str, Observed)]) -> KeyMap<Observed> {
    let mut m = KeyMap::new();
    for (k, v) in pairs {
        let o = match v {
            Observed::Missing => Observed::Missing,
            Observed::Symlink => Observed::Symlink,
            Observed::File { hash } => Observed::File { hash: hash.clone() },
        };
        m.insert(k.to_string(), o);
    }
    m
}

fn file(h: &str) -> Observed {
    Observed::File { hash: Some(h.to_string()) }
}

fn report(state: EntryState, changes: Vec<FileChange>, allow_untracked: bool) -> EntryReport {
    EntryReport { folder: vec![PathComponent::Normal("f".to_string())], state, changes, allow_untracked }
}

#[test]
fn writes_everything_new_into_an_empty_destination() {
    let new = files(&[("a.txt", "h1"), ("sub/b.txt", "h2")]);
    let none: KeyMap<()> = KeyMap::new();
    let changes = plan_update(&KeyMap::new(), &new, &observed(&[]), &none, false);
    assert_eq!(changes, vec![UpdateChange::Wrote("a.txt".into()), UpdateChange::Wrote("sub/b.txt".into())]);
}

#[test]
fn skips_writes_when_disk_already_matches() {
    let new = files(&[("a.txt", "h1")]);
    let none: KeyMap<()> = KeyMap::new();
    let changes = plan_update(&new, &new, &observed(&[("a.txt", file("h1"))]), &none, false);
    assert!(changes.is_empty(), "got: {changes:?}");
}

#[test]
fn rewrites_modified_or_unreadable_or_symlinked_files() {
    let new = files(&[("a", "h"), ("b", "h"), ("c", "h")]);
    let obs = observed(&[("a", file("other")), ("b", Observed::File { hash: None }), ("c", Observed::Symlink)]);
    let none: KeyMap<()> = KeyMap::new();
    let changes = plan_update(&new, &new, &obs, &none, false);
    assert_eq!(
        changes,
        vec![UpdateChange::Wrote("a".into()), UpdateChange::Wrote("b".into()), UpdateChange::Wrote("c".into())]
    );
}

#[test]
fn deletes_files_removed_from_new_tree() {
    let old = files(&[("gone.txt", "sha256:dummy"), ("kept.txt", "k")]);
    let new = files(&[("kept.txt", "k")]);
    let obs = observed(&[("gone.txt", file("g")), ("kept.txt", file("k"))]);
    let none: KeyMap<()> = KeyMap::new();
    let changes = plan_update(&old, &new, &obs, &none, false);
    assert_eq!(changes, vec![UpdateChange::Deleted("gone.txt".into())]);
}

#[test]
fn dropped_file_already_gone_is_not_reported() {
    let old = files(&[("gone.txt", "g")]);
    let new = files(&[]);
    let none: KeyMap<()> = KeyMap::new();
    let changes = plan_update(&old, &new, &observed(&[("gone.txt", Observed::Missing)]), &none, false);
    assert!(changes.is_empty());
    let changes = plan_update(&old, &new, &observed(&[("gone.txt", Observed::Symlink)]), &none, false);
    assert_eq!(changes, vec![UpdateChange::Deleted("gone.txt".into())]);
}

#[test]
fn without_overwrite_untracked_files_stay() {
    let new = files(&[("a.txt", "h")]);
    let on_disk = files(&[("a.txt", "h"), ("extra.txt", "x")]);
    let changes = plan_update(&new, &new, &observed(&[("a.txt", file("h"))]), &on_disk, false);
    assert!(changes.is_empty());
}

#[test]
fn with_overwrite_untracked_files_are_removed() {
    let new = files(&[("a.txt", "h")]);
    let on_disk = files(&[("a.txt", "h"), ("extra.txt", "x")]);
    let changes = plan_update(&new, &new, &observed(&[("a.txt", file("h"))]), &on_disk, true);
    assert_eq!(changes, vec![UpdateChange::Removed("extra.txt".into())]);
}

#[test]
fn sweep_does_not_double_report_deleted_files() {
    let old = files(&[("gone.txt", "g")]);
    let new = files(&[("a.txt", "h")]);
    let on_disk = files(&[("a.txt", "old"), ("gone.txt", "g"), ("z.txt", "z")]);
    let obs = observed(&[("a.txt", file("old")), ("gone.txt", file("g"))]);
    let changes = plan_update(&old, &new, &obs, &on_disk, true);
    assert_eq!(
        changes,
        vec![
            UpdateChange::Wrote("a.txt".into()),
            UpdateChange::Deleted("gone.txt".into()),
            UpdateChange::Removed("z.txt".into()),
        ]
    );
}

#[test]
fn replaying_an_update_changes_nothing() {
    // Once every new file is on disk with its new hash, planning again finds
    // nothing to write or delete.
    let old = files(&[("a", "1"), ("b", "2")]);
    let new = files(&[("a", "1x"), ("c", "3")]);
    let obs = observed(&[("a", file("1x")), ("b", Observed::Missing), ("c", file("3"))]);
    let none: KeyMap<()> = KeyMap::new();
    assert!(plan_update(&old, &new, &obs, &none, false).is_empty());
}

#[test]
fn emptied_directories_are_pruned_deepest_first() {
    let changes = vec![
        UpdateChange::Wrote("w/x.txt".into()),
        UpdateChange::Deleted("deep/sub/gone.txt".into()),
        UpdateChange::Removed("deep/other.txt".into()),
        UpdateChange::Deleted("top.txt".into()),
        UpdateChange::Removed("deep/sub/also.txt".into()),
    ];
    let dirs = prune_candidates(&changes);
    assert_eq!(
        dirs,
        vec![
            vec!["deep".to_string(), "sub".to_string()],
            vec!["deep".to_string()],
        ]
    );
}

#[test]
fn pruning_climbs_to_but_not_into_the_destination() {
    let d = vec!["deep".to_string(), "sub".to_string(), "leaf".to_string()];
    assert_eq!(prune_parent(&d), Some(vec!["deep".to_string(), "sub".to_string()]));
    assert_eq!(prune_parent(&vec!["deep".to_string()]), None);
    assert_eq!(prune_parent(&Vec::new()), None);
}

#[test]
fn legacy_layout_needs_both_signs() {
    assert!(is_legacy_layout(true, true));
    assert!(!is_legacy_layout(false, true));
    assert!(!is_legacy_layout(true, false));
}

#[test]
fn update_argument_rules() {
    assert_eq!(validate_update_args(true, false, false, 0), Err(UpdateArgsError::OverwriteWithoutForce));
    assert_eq!(validate_update_args(true, true, false, 0), Ok(()));
    assert_eq!(validate_update_args(false, false, true, 0), Err(UpdateArgsError::RevNeedsOneName));
    assert_eq!(validate_update_args(false, false, true, 2), Err(UpdateArgsError::RevNeedsOneName));
    assert_eq!(validate_update_args(false, false, true, 1), Ok(()));
    // The overwrite rule is checked first.
    assert_eq!(validate_update_args(true, false, true, 3), Err(UpdateArgsError::OverwriteWithoutForce));
}

#[test]
fn clean_entry_without_rev_is_up_to_date() {
    let r = report(EntryState::Compared, vec![], false);
    assert!(matches!(gate_before_clone(&r, false, false), Gate::Stop(Outcome::UpToDate)));
    assert!(matches!(gate_before_clone(&r, true, false), Gate::Proceed));
}

#[test]
fn drift_blocks_update_unless_forced() {
    let r = report(EntryState::Compared, vec![FileChange::Modified("a".into())], false);
    assert!(matches!(gate_before_clone(&r, false, false), Gate::Stop(Outcome::SkippedDrift)));
    assert!(matches!(gate_before_clone(&r, false, true), Gate::Proceed));
    // An allowed untracked file is no drift.
    let r = report(EntryState::Compared, vec![FileChange::Untracked("x".into())], true);
    assert!(matches!(gate_before_clone(&r, false, false), Gate::Proceed));
}

#[test]
fn missing_folder_proceeds_to_recreate() {
    let r = report(EntryState::FolderMissing, vec![], false);
    assert!(matches!(gate_before_clone(&r, false, false), Gate::Proceed));
}

#[test]
fn resolved_rev_equal_to_pin_on_clean_folder_is_up_to_date() {
    let clean = report(EntryState::Compared, vec![], false);
    assert!(up_to_date_after_resolve(&clean, true, "abc", "abc"));
    assert!(!up_to_date_after_resolve(&clean, true, "abd", "abc"));
    assert!(!up_to_date_after_resolve(&clean, false, "abc", "abc"));
    let dirty = report(EntryState::Compared, vec![FileChange::Deleted("a".into())], false);
    assert!(!up_to_date_after_resolve(&dirty, true, "abc", "abc"));
    assert!(pin_moves(true, "new", "old"));
    assert!(!pin_moves(true, "same", "same"));
    assert!(!pin_moves(false, "new", "old"));
}

#[test]
fn outcome_failures() {
    assert!(Outcome::SkippedDrift.is_failure());
    assert!(Outcome::SkippedNoLockfile.is_failure());
    assert!(!Outcome::UpToDate.is_failure());
    let updated = Outcome::Updated { old_commit: "a".into(), new_commit: "b".into(), changes: vec![] };
    assert!(!updated.is_failure());
}

#[test]
fn short_commit_is_first_seven_bytes() {
    assert_eq!(short("0123456789abcdef"), "0123456");
    assert_eq!(short("0123456"), "0123456");
    assert_eq!(short("abc"), "abc");
    assert_eq!(short(""), "");
}

#[test]
fn decision_after_resolving_the_revision() {
    let clean = report(EntryState::Compared, vec![], false);
    assert!(matches!(after_resolve(&clean, true, "abc", "abc"), AfterResolve::UpToDate));
    assert!(matches!(
        after_resolve(&clean, true, "new", "abc"),
        AfterResolve::Apply { create_folder: false, diff_against_manifest: true, move_pin: true }
    ));
    let missing = report(EntryState::FolderMissing, vec![], false);
    assert!(matches!(
        after_resolve(&missing, false, "abc", "abc"),
        AfterResolve::Apply { create_folder: true, diff_against_manifest: false, move_pin: false }
    ));
    let dirty = report(EntryState::Compared, vec![FileChange::Modified("a".into())], false);
    assert!(matches!(
        after_resolve(&dirty, true, "abc", "abc"),
        AfterResolve::Apply { create_folder: false, diff_against_manifest: true, move_pin: false }
    ));
}
