use std::path::{Component, Path, PathBuf};

use embd::paths::{
    check_existing_folder, embed_file_path, lexically_normalize, resolve_inside_root, EntryKind,
    PathComponent, PathError,
};

fn comps(p: &Path) -> Vec<PathComponent> {
    p.components()
        .filter_map(|c| match c {
            Component::RootDir => Some(PathComponent::RootDir),
            Component::CurDir => Some(PathComponent::CurDir),
            Component::ParentDir => Some(PathComponent::ParentDir),
            Component::Normal(n) => Some(PathComponent::Normal(n.to_string_lossy().into_owned())),
            Component::Prefix(_) => None,
        })
        .collect()
}

fn to_path(v: &[PathComponent]) -> PathBuf {
    let mut p = PathBuf::new();
    for c in v {
        match c {
            PathComponent::RootDir => p.push("/"),
            PathComponent::CurDir => p.push("."),
            PathComponent::ParentDir => p.push(".."),
            PathComponent::Normal(n) => p.push(n),
        }
    }
    p
}

fn resolve(folder: &Path, root: &Path, cwd: &Path) -> Result<(PathBuf, PathBuf), PathError> {
    resolve_inside_root(&comps(folder), &comps(root), &comps(cwd))
        .map(|(abs, rel)| (to_path(&abs), to_path(&rel)))
}

#[test]
fn resolves_relative_path_inside_root() {
    let tmp = tempfile::tempdir().unwrap();
    let root = tmp.path();
    let (abs, rel) = resolve(Path::new("vendor/foo"), root, root).unwrap();
    assert_eq!(abs, root.join("vendor").join("foo"));
    assert_eq!(rel, PathBuf::from("vendor").join("foo"));
}

#[test]
fn rejects_path_escaping_root_via_parent_dir() {
    let tmp = tempfile::tempdir().unwrap();
    let root = tmp.path();
    let result = resolve(Path::new("../outside"), root, root);
    assert!(result.is_err());
    let message = result.unwrap_err().message("../outside", &root.display().to_string());
    assert!(message.contains("outside the git root"));
}

#[test]
fn rejects_absolute_path_outside_root() {
    let tmp = tempfile::tempdir().unwrap();
    let other = tempfile::tempdir().unwrap();
    let result = resolve(other.path(), tmp.path(), tmp.path());
    assert!(result.is_err());
}

#[test]
fn rejects_root_itself() {
    let tmp = tempfile::tempdir().unwrap();
    let result = resolve(Path::new("."), tmp.path(), tmp.path());
    assert!(result.is_err());
}

#[test]
fn accepts_absolute_path_inside_root() {
    let tmp = tempfile::tempdir().unwrap();
    let root = tmp.path();
    let abs = root.join("nested").join("dir");
    let (_, rel) = resolve(&abs, root, root).unwrap();
    assert_eq!(rel, PathBuf::from("nested").join("dir"));
}

#[test]
fn embed_file_path_is_dot_embd_inside_folder() {
    let folder = Path::new("/repo/infra");
    assert_eq!(to_path(&embed_file_path(&comps(folder))), PathBuf::from("/repo/infra/.embd"));
}

#[test]
fn rejects_existing_file_at_path() {
    let result = check_existing_folder(Some(EntryKind::File));
    assert_eq!(result, Err(PathError::NotADirectory));
    assert!(PathError::NotADirectory.message("regular.txt", "/r").contains("not a directory"));
}

#[test]
fn rejects_symlink_at_path() {
    let result = check_existing_folder(Some(EntryKind::Symlink));
    assert_eq!(result, Err(PathError::IsSymlink));
    assert!(PathError::IsSymlink.message("link", "/r").contains("symlink"));
}

#[test]
fn existing_directory_or_nothing_is_accepted() {
    assert_eq!(check_existing_folder(None), Ok(()));
    assert_eq!(check_existing_folder(Some(EntryKind::Dir)), Ok(()));
    assert_eq!(check_existing_folder(Some(EntryKind::Other)), Err(PathError::NotADirectory));
}

#[test]
fn error_kinds_for_each_refusal() {
    let root = Path::new("/work/repo");
    assert_eq!(resolve(Path::new("../x"), root, root), Err(PathError::OutsideRoot));
    assert_eq!(resolve(Path::new("a/.."), root, root), Err(PathError::IsRoot));
    assert_eq!(resolve(Path::new("/work/repository/x"), root, root), Err(PathError::OutsideRoot));
    assert_eq!(
        PathError::OutsideRoot.message("../x", "/work/repo"),
        "folder '../x' is outside the git root '/work/repo'"
    );
    assert_eq!(PathError::IsRoot.message("a/..", "/work/repo"), "folder cannot be the git root itself");
}

#[test]
fn relative_folder_resolves_against_cwd() {
    let root = Path::new("/work/repo");
    let cwd = Path::new("/work/repo/sub/dir");
    let (abs, rel) = resolve(Path::new("../vendor/./lib"), root, cwd).unwrap();
    assert_eq!(abs, PathBuf::from("/work/repo/sub/vendor/lib"));
    assert_eq!(rel, PathBuf::from("sub/vendor/lib"));
}

#[test]
fn lexical_normalization() {
    let n = |p: &str| to_path(&lexically_normalize(&comps(Path::new(p))));
    assert_eq!(n("/a/./b/../c"), PathBuf::from("/a/c"));
    assert_eq!(n("../a"), PathBuf::from("../a"));
    assert_eq!(n("a/../../b"), PathBuf::from("../b"));
    assert_eq!(n("/.."), PathBuf::from("/.."));
    // Normalizing twice changes nothing.
    let once = lexically_normalize(&comps(Path::new("x/../y/./z/..")));
    assert_eq!(lexically_normalize(&once), once);
}

#[test]
fn normalizing_without_parent_drops_only_dots() {
    let n = |p: &str| to_path(&lexically_normalize(&comps(Path::new(p))));
    assert_eq!(n("/a/./b/c"), PathBuf::from("/a/b/c"));
    assert_eq!(n("./x/./y"), PathBuf::from("x/y"));
}
