use embd::command::{run, Action, Command};
use embd::update::UpdateArgsError;

#[test]
fn add_splits_its_pattern_arguments() {
    let cmd = Command::Add {
        link: "https://example.com/a/b.git".to_string(),
        folder: "vendor/b".to_string(),
        allow_untracked: true,
        rev: Some("v1".to_string()),
        include_arg: Some(" src/** , docs/**,".to_string()),
        exclude_arg: None,
    };
    match run(cmd) {
        Ok(Action::Add { link, folder, allow_untracked, rev, include_patterns, exclude_patterns }) => {
            assert_eq!(link, "https://example.com/a/b.git");
            assert_eq!(folder, "vendor/b");
            assert!(allow_untracked);
            assert_eq!(rev, Some("v1".to_string()));
            assert_eq!(include_patterns, vec!["src/**".to_string(), "docs/**".to_string()]);
            assert!(exclude_patterns.is_empty());
        }
        _ => panic!("expected the add action"),
    }
}

#[test]
fn status_passes_its_arguments_through() {
    match run(Command::Status { folders: vec!["a".to_string()], quiet: true }) {
        Ok(Action::Status { folders, quiet }) => {
            assert_eq!(folders, vec!["a".to_string()]);
            assert!(quiet);
        }
        _ => panic!("expected the status action"),
    }
}

#[test]
fn update_refuses_overwrite_without_force() {
    let cmd = Command::Update { folders: vec![], rev: None, force: false, overwrite: true, quiet: false };
    assert!(matches!(run(cmd), Err(UpdateArgsError::OverwriteWithoutForce)));
    let cmd = Command::Update { folders: vec!["x".to_string()], rev: Some("r".to_string()), force: true, overwrite: true, quiet: false };
    match run(cmd) {
        Ok(Action::Update { folders, rev, force, overwrite, quiet }) => {
            assert_eq!(folders, vec!["x".to_string()]);
            assert_eq!(rev, Some("r".to_string()));
            assert!(force && overwrite && !quiet);
        }
        _ => panic!("expected the update action"),
    }
}
