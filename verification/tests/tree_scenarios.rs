//! Scenarios on small directory trees held in memory: the listing, reading
//! and file operations are simulated here, every decision is the library's.
use std::collections::BTreeMap;

use sha2::{Digest, Sha256};

use embd::config::FileLocks;
use embd::filter::Filter;
use embd::hash::{ContentHasher, HASH_BUFFER_SIZE};
use embd::keymap::KeyMap;
use embd::paths::EntryKind;
use embd::relpath::{key_to_path, path_to_key};
use embd::config::{EmbdEntry, Metadata};
use embd::paths::PathComponent;
use embd::scan::{inspect_entry, scan_folder, DiskEntry, FileChange};
use embd::tree::{
    copy_entry, discover_embed_folders, discover_step, scan_entry, walk_files, walk_step, CopyAction, CopyRefusal,
    ListedEntry, ScanAction,
};
use embd::update::{plan_update, prune_candidates, prune_parent, Observed, UpdateChange};

#[derive(Clone)]
enum Node {
    File(Vec<u8>),
    Dir,
    Symlink,
}

/// A directory tree: every path (as its components) that exists, and what
/// it is. The empty path is the tree's root directory.
#[derive(Clone)]
struct Tree {
    nodes: BTreeMap<Vec<String>, Node>,
}

fn parts(path: &str) -> Vec<String> {
    if path.is_empty() {
        Vec::new()
    } else {
        path.split('/').map(|s| s.to_string()).collect()
    }
}

impl Tree {
    fn new() -> Tree {
        let mut nodes = BTreeMap::new();
        nodes.insert(Vec::new(), Node::Dir);
        Tree { nodes }
    }

    fn mkdir(&mut self, path: &str) {
        let p = parts(path);
        for i in 1..=p.len() {
            self.nodes.entry(p[..i].to_vec()).or_insert(Node::Dir);
        }
    }

    fn put(&mut self, path: &str, node: Node) {
        let p = parts(path);
        let parent = p[..p.len() - 1].join("/");
        self.mkdir(&parent);
        self.nodes.insert(p, node);
    }

    fn write(&mut self, path: &str, contents: &str) {
        self.put(path, Node::File(contents.as_bytes().to_vec()));
    }

    fn write_bytes(&mut self, path: &str, contents: &[u8]) {
        self.put(path, Node::File(contents.to_vec()));
    }

    fn symlink(&mut self, path: &str) {
        self.put(path, Node::Symlink);
    }

    fn has(&self, path: &str) -> bool {
        self.nodes.contains_key(&parts(path))
    }

    fn read(&self, path: &[String]) -> Vec<u8> {
        match self.nodes.get(path) {
            Some(Node::File(c)) => c.clone(),
            _ => panic!("not a file: {path:?}"),
        }
    }

    fn read_str(&self, path: &str) -> String {
        String::from_utf8(self.read(&parts(path))).unwrap()
    }

    fn list(&self, dir: &[String]) -> Vec<ListedEntry> {
        self.nodes
            .iter()
            .filter(|(p, _)| p.len() == dir.len() + 1 && p.starts_with(dir))
            .map(|(p, n)| ListedEntry {
                name: p[dir.len()].clone(),
                kind: match n {
                    Node::File(_) => EntryKind::File,
                    Node::Dir => EntryKind::Dir,
                    Node::Symlink => EntryKind::Symlink,
                },
            })
            .collect()
    }

    fn is_file(&self, path: &str) -> bool {
        matches!(self.nodes.get(&parts(path)), Some(Node::File(_)))
    }

    fn remove_file(&mut self, path: &[String]) {
        assert!(matches!(self.nodes.get(path), Some(Node::File(_)) | Some(Node::Symlink)));
        self.nodes.remove(path);
    }

    /// Remove an empty directory; false when it is not one.
    fn remove_dir(&mut self, path: &[String]) -> bool {
        let empty = matches!(self.nodes.get(path), Some(Node::Dir)) && self.list(path).is_empty();
        if empty {
            self.nodes.remove(path);
        }
        empty
    }
}

/// The recorded hash of a file: streamed in buffers, its first buffer
/// deciding text or binary.
fn hash_file(tree: &Tree, path: &[String]) -> String {
    let data = tree.read(path);
    let probe = &data[..data.len().min(HASH_BUFFER_SIZE)];
    let mut h = ContentHasher::new(probe);
    for chunk in data.chunks(HASH_BUFFER_SIZE) {
        h.update(chunk);
    }
    h.finish()
}

/// The byte-for-byte hash the manifest cache records.
fn raw_hash_file(tree: &Tree, path: &[String]) -> String {
    let mut h = ContentHasher::new_raw();
    for chunk in tree.read(path).chunks(HASH_BUFFER_SIZE) {
        h.update(chunk);
    }
    h.finish()
}

fn walk(tree: &Tree, filter: &Filter) -> Vec<Vec<String>> {
    let mut visited = Vec::new();
    let mut pending = vec![Vec::new()];
    while let Some(dir) = pending.pop() {
        let listing = tree.list(&dir);
        let step = walk_step(&dir, &listing, filter);
        pending.extend(step.subdirs);
        visited.push((dir, listing));
    }
    walk_files(&visited, filter)
}

fn walk_keys(tree: &Tree) -> Vec<String> {
    walk(tree, &Filter::allow_all()).iter().map(|p| path_to_key(p)).collect()
}

fn build_locks(tree: &Tree, filter: &Filter) -> FileLocks {
    let hashed = walk(tree, filter)
        .into_iter()
        .map(|p| {
            let h = hash_file(tree, &p);
            (p, h)
        })
        .collect();
    FileLocks::build_from_path(hashed)
}

fn scan(tree: &Tree) -> Option<KeyMap<DiskEntry>> {
    let mut found = Vec::new();
    scan_inner(tree, &Vec::new(), &mut found)?;
    Some(scan_folder(&found))
}

fn scan_inner(tree: &Tree, dir: &Vec<String>, found: &mut Vec<(Vec<String>, DiskEntry)>) -> Option<()> {
    for entry in tree.list(dir) {
        match scan_entry(dir, &entry) {
            ScanAction::Skip => {}
            ScanAction::Symlink(p) => found.push((p, DiskEntry::Symlink)),
            ScanAction::Enter(p) => scan_inner(tree, &p, found)?,
            ScanAction::Hash(p) => {
                let hash = hash_file(tree, &p);
                found.push((p, DiskEntry::Regular { hash }));
            }
            ScanAction::Refuse(_) => return None,
        }
    }
    Some(())
}

fn copy_dir(src: &Tree, dst: &mut Tree, filter: &Filter) -> Result<(), CopyRefusal> {
    copy_dir_inner(src, dst, &Vec::new(), filter)
}

fn copy_dir_inner(src: &Tree, dst: &mut Tree, dir: &Vec<String>, filter: &Filter) -> Result<(), CopyRefusal> {
    for entry in src.list(dir) {
        match copy_entry(dir, &entry, filter) {
            CopyAction::Skip => {}
            CopyAction::Enter(sub) => copy_dir_inner(src, dst, &sub, filter)?,
            CopyAction::Copy(f) => dst.write_bytes(&path_to_key(&f), &src.read(&f)),
            CopyAction::Refuse(r) => return Err(r),
        }
    }
    Ok(())
}

fn discover(tree: &Tree) -> Vec<Vec<String>> {
    let mut visited = Vec::new();
    let mut pending = vec![Vec::new()];
    while let Some(dir) = pending.pop() {
        let listing = tree.list(&dir);
        let step = discover_step(&dir, &listing);
        pending.extend(step.subdirs);
        visited.push((dir, listing));
    }
    discover_embed_folders(&visited)
}

fn observe(tree: &Tree, path: &[String]) -> Observed {
    match tree.nodes.get(path) {
        Some(Node::Symlink) => Observed::Symlink,
        Some(Node::File(_)) => Observed::File { hash: Some(hash_file(tree, path)) },
        _ => Observed::Missing,
    }
}

/// Bring `dst` into agreement with `new_files` (taken from `src`), using
/// `old_files` as the previous manifest.
fn apply_update(
    src: &Tree,
    dst: &mut Tree,
    old_files: &KeyMap<String>,
    new_files: &KeyMap<String>,
    overwrite: bool,
) -> Vec<UpdateChange> {
    let mut observed = KeyMap::new();
    for m in [old_files, new_files] {
        for i in 0..m.len() {
            let key = m.key_at(i);
            observed.insert(key.clone(), observe(dst, &key_to_path(key)));
        }
    }
    let on_disk = if overwrite { scan(dst).unwrap_or_else(KeyMap::new) } else { KeyMap::new() };
    let changes = plan_update(old_files, new_files, &observed, &on_disk, overwrite);
    for c in &changes {
        match c {
            UpdateChange::Wrote(k) => dst.write_bytes(k, &src.read(&key_to_path(k))),
            UpdateChange::Deleted(k) | UpdateChange::Removed(k) => dst.remove_file(&key_to_path(k)),
        }
    }
    for candidate in prune_candidates(&changes) {
        let mut next = Some(candidate);
        while let Some(dir) = next {
            if !dst.remove_dir(&dir) {
                break;
            }
            next = prune_parent(&dir);
        }
    }
    changes
}

fn manifest_for(tree: &Tree) -> KeyMap<String> {
    let locks = build_locks(tree, &Filter::allow_all());
    let map = locks.as_map();
    let mut m = KeyMap::new();
    for i in 0..map.len() {
        m.insert(map.key_at(i).clone(), map.value_at(i).clone());
    }
    m
}

// --- manifests of folders ------------------------------------------------------

/// The folder of design notes that ships with the project.
fn docs_folder() -> Tree {
    let mut t = Tree::new();
    t.write("design.md", "# Design of `embd`\n\nThe basic goal of `embd` is to embed one git repository into another.\n");
    t
}

#[test]
fn build_file_locks_from_path() {
    let files = build_locks(&docs_folder(), &Filter::allow_all());
    assert!(files.as_map().len() > 0);
}

#[test]
fn build_file_locks_from_path_recursive() {
    let mut project = Tree::new();
    project.write("README.md", "# embd\n");
    project.write("src/main.rs", "fn main() {}\n");
    project.write("src/commands/add.rs", "pub fn execute() {}\n");
    project.write("docs/design.md", "# Design\n");
    let src_files = walk(&project, &Filter::allow_all());
    assert!(src_files.iter().any(|p| p[0] == "src"));
    let files = build_locks(&project, &Filter::allow_all());
    assert!(files.as_map().len() > 0);
    let readme_pattern = String::from("README.md");
    let filter = Filter::from_patterns(&[readme_pattern], &[]).ok().unwrap();
    let files_filtered = build_locks(&project, &filter);
    assert!(files_filtered.as_map().len() > 0);
    assert_eq!(files_filtered.as_map().len(), 1);
    assert!(files_filtered.as_map().contains_key("README.md"));
}

#[test]
fn manifest_hashes_match_file_contents() {
    let mut t = Tree::new();
    t.write("a.txt", "alpha\r\n");
    t.write("sub/b.bin", "\0x");
    let locks = build_locks(&t, &Filter::allow_all());
    assert_eq!(locks.as_map().get("a.txt"), Some(&embd::hash::hash_content(b"alpha\n")));
    assert_eq!(locks.as_map().get("sub/b.bin"), Some(&embd::hash::hash_content(b"\0x")));
}

// --- hashing files -----------------------------------------------------------------

fn one_file(contents: &[u8]) -> Tree {
    let mut t = Tree::new();
    t.write_bytes("data", contents);
    t
}

#[test]
fn hash_hash_file_matches_known_sha256() {
    let t = one_file(b"hello world");
    assert_eq!(hash_file(&t, &parts("data")), "sha256:b94d27b9934d3e08a52e52d7da7dabfac484efe37a5380ee9088f7ace2efcde9");
}

#[test]
fn cache_hash_file_matches_known_sha256() {
    let t = one_file(b"hello world");
    assert_eq!(raw_hash_file(&t, &parts("data")), "sha256:b94d27b9934d3e08a52e52d7da7dabfac484efe37a5380ee9088f7ace2efcde9");
}

#[test]
fn hash_hash_file_streams_large_inputs() {
    let t = one_file(&vec![0u8; 1024 * 1024]);
    let hash = hash_file(&t, &parts("data"));
    assert!(hash.starts_with("sha256:"));
    assert_eq!(hash.len(), "sha256:".len() + 64);
}

#[test]
fn cache_hash_file_streams_large_inputs() {
    let t = one_file(&vec![0u8; 1024 * 1024]);
    let hash = raw_hash_file(&t, &parts("data"));
    assert!(hash.starts_with("sha256:"));
    assert_eq!(hash.len(), "sha256:".len() + 64);
}

#[test]
fn hash_file_normalizes_crlf_to_lf() {
    let mut t = Tree::new();
    t.write("crlf.txt", "alpha\r\nbeta\r\ngamma");
    t.write("lf.txt", "alpha\nbeta\ngamma");
    assert_eq!(hash_file(&t, &parts("crlf.txt")), hash_file(&t, &parts("lf.txt")));
}

#[test]
fn hash_file_preserves_lone_cr() {

    let t = one_file(b"alpha\rbeta");
    let expected = format!("sha256:{:x}", Sha256::digest(b"alpha\rbeta"));
    assert_eq!(hash_file(&t, &parts("data")), expected);
}

#[test]
fn hash_file_does_not_normalize_binary_content() {

    let mut data = vec![0u8, 1, 2];
    data.extend_from_slice(b"\r\n");
    let t = one_file(&data);
    let expected = format!("sha256:{:x}", Sha256::digest(&data));
    assert_eq!(hash_file(&t, &parts("data")), expected);
}

#[test]
fn hash_file_normalizes_crlf_split_across_chunk_boundary() {
    let mut crlf_data = vec![b'a'; HASH_BUFFER_SIZE - 1];
    crlf_data.push(b'\r');
    crlf_data.push(b'\n');
    crlf_data.extend_from_slice(b"tail");
    let mut lf_data = vec![b'a'; HASH_BUFFER_SIZE - 1];
    lf_data.push(b'\n');
    lf_data.extend_from_slice(b"tail");
    let mut t = Tree::new();
    t.write_bytes("crlf.txt", &crlf_data);
    t.write_bytes("lf.txt", &lf_data);
    assert_eq!(hash_file(&t, &parts("crlf.txt")), hash_file(&t, &parts("lf.txt")));
}

// --- walking -------------------------------------------------------------------------

fn sorted_tree() -> Tree {
    let mut t = Tree::new();
    t.mkdir("b/sub");
    t.write("a.txt", "a");
    t.write("b/b.txt", "b");
    t.write("b/sub/c.txt", "c");
    t.write("b.txt", "b");
    t
}

#[test]
fn walk_walk_files_returns_sorted_relative_paths() {
    assert_eq!(walk_keys(&sorted_tree()), vec!["a.txt", "b/b.txt", "b/sub/c.txt", "b.txt"]);
}

#[test]
fn cache_walk_files_returns_sorted_relative_paths() {
    let files = walk(&sorted_tree(), &Filter::allow_all());
    let expected: Vec<Vec<String>> =
        vec![parts("a.txt"), parts("b/b.txt"), parts("b/sub/c.txt"), parts("b.txt")];
    assert_eq!(files, expected);
}

fn git_tree() -> Tree {
    let mut t = Tree::new();
    t.write(".git/HEAD", "x");
    t.write("keep.txt", "k");
    t
}

#[test]
fn walk_walk_files_skips_git_directory() {
    assert_eq!(walk_keys(&git_tree()), vec!["keep.txt"]);
}

#[test]
fn cache_walk_files_skips_git_directory() {
    assert_eq!(walk(&git_tree(), &Filter::allow_all()), vec![parts("keep.txt")]);
}

fn link_tree() -> Tree {
    let mut t = Tree::new();
    t.write("real.txt", "r");
    t.symlink("link.txt");
    t
}

#[test]
fn walk_walk_files_skips_symlinks() {
    assert_eq!(walk_keys(&link_tree()), vec!["real.txt"]);
}

#[test]
fn cache_walk_files_skips_symlinks() {
    assert_eq!(walk(&link_tree(), &Filter::allow_all()), vec![parts("real.txt")]);
}

// --- scanning ------------------------------------------------------------------------

#[test]
fn scan_folder_skips_embd_marker() {
    let mut t = Tree::new();
    t.write(".embd", "marker");
    t.write("keep.txt", "k");
    let scanned = scan(&t).unwrap();
    assert!(scanned.contains_key("keep.txt"));
    assert!(!scanned.contains_key(".embd"));
}

#[test]
fn scan_records_symlinks_and_hashes() {
    let mut t = Tree::new();
    t.write("sub/a.txt", "alpha\r\n");
    t.symlink("l");
    let scanned = scan(&t).unwrap();
    assert_eq!(scanned.len(), 2);
    assert_eq!(scanned.get("l"), Some(&DiskEntry::Symlink));
    assert_eq!(scanned.get("sub/a.txt"), Some(&DiskEntry::Regular { hash: embd::hash::hash_content(b"alpha\n") }));
}

// --- copying -------------------------------------------------------------------------

#[test]
fn copies_files_and_subdirs() {
    let mut src = Tree::new();
    src.write("a.txt", "a");
    src.write("sub/b.txt", "b");
    let mut dst = Tree::new();
    copy_dir(&src, &mut dst, &Filter::allow_all()).ok().unwrap();
    assert_eq!(dst.read_str("a.txt"), "a");
    assert_eq!(dst.read_str("sub/b.txt"), "b");
}

#[test]
fn exclude_pattern_drops_files() {
    let mut src = Tree::new();
    src.write("keep.rs", "k");
    src.write("notes.md", "n");
    src.write("docs/guide.md", "g");
    let filter = Filter::from_patterns(&[], &["**/*.md".to_string(), "docs/**".to_string()]).ok().unwrap();
    let mut dst = Tree::new();
    copy_dir(&src, &mut dst, &filter).ok().unwrap();
    assert!(dst.has("keep.rs"));
    assert!(!dst.has("notes.md"));
    assert!(!dst.has("docs"));
}

#[test]
fn include_pattern_keeps_only_matches() {
    let mut src = Tree::new();
    src.write("src/lib.rs", "l");
    src.write("Cargo.toml", "c");
    let filter = Filter::from_patterns(&["src/**".to_string()], &[]).ok().unwrap();
    let mut dst = Tree::new();
    copy_dir(&src, &mut dst, &filter).ok().unwrap();
    assert!(dst.has("src/lib.rs"));
    assert!(!dst.has("Cargo.toml"));
}

#[test]
fn skips_git_directory() {
    let mut src = Tree::new();
    src.write(".git/HEAD", "x");
    src.write("keep.txt", "k");
    let mut dst = Tree::new();
    copy_dir(&src, &mut dst, &Filter::allow_all()).ok().unwrap();
    assert!(dst.has("keep.txt"));
    assert!(!dst.has(".git"));
}

#[test]
fn refuses_to_copy_symlinks() {
    let mut src = Tree::new();
    src.write("real.txt", "r");
    src.symlink("link.txt");
    let mut dst = Tree::new();
    let err = copy_dir(&src, &mut dst, &Filter::allow_all()).err().unwrap();
    assert!(matches!(err, CopyRefusal::Symlink(p) if p == parts("link.txt")));
}

// --- discovering embeds ------------------------------------------------------------------

#[test]
fn discover_finds_all_dot_embd_files_sorted() {
    let mut t = Tree::new();
    t.write("zebra/.embd", "x");
    t.write("nested/alpha/.embd", "x");
    assert_eq!(discover(&t), vec![parts("nested/alpha"), parts("zebra")]);
}

#[test]
fn discover_skips_git_directory() {
    let mut t = Tree::new();
    t.write(".git/.embd", "x");
    assert!(discover(&t).is_empty());
}

#[test]
fn discover_returns_empty_for_no_embeds() {
    let mut t = Tree::new();
    t.mkdir("plain");
    assert!(discover(&t).is_empty());
}

#[test]
fn discover_skips_well_known_ignored_directories() {
    let mut t = Tree::new();
    for d in ["target", "node_modules", ".worktrees", "worktrees"] {
        t.write(&format!("{d}/.embd"), "x");
    }
    assert!(discover(&t).is_empty());
}

#[test]
fn discover_does_not_recurse_into_an_already_found_embed() {
    let mut t = Tree::new();
    t.write("outer/.embd", "x");
    t.write("outer/inner/.embd", "x");
    assert_eq!(discover(&t), vec![parts("outer")]);
}

#[test]
fn discover_skips_embd_marker_at_git_root_itself() {
    let mut t = Tree::new();
    t.write(".embd", "x");
    assert!(discover(&t).is_empty());
}

// --- applying updates ----------------------------------------------------------------------

#[test]
fn apply_write_creates_new_files_and_subdirs() {
    let mut src = Tree::new();
    src.write("a.txt", "alpha");
    src.write("sub/b.txt", "beta");
    let mut dst = Tree::new();
    let new = manifest_for(&src);
    let changes = apply_update(&src, &mut dst, &KeyMap::new(), &new, false);
    assert!(changes.iter().any(|c| matches!(c, UpdateChange::Wrote(k) if k == "a.txt")));
    assert!(changes.iter().any(|c| matches!(c, UpdateChange::Wrote(k) if k == "sub/b.txt")));
    assert_eq!(dst.read_str("a.txt"), "alpha");
    assert_eq!(dst.read_str("sub/b.txt"), "beta");
}

#[test]
fn apply_skips_writes_when_disk_already_matches() {
    let mut src = Tree::new();
    src.write("a.txt", "alpha");
    let mut dst = Tree::new();
    dst.write("a.txt", "alpha");
    let new = manifest_for(&src);
    let changes = apply_update(&src, &mut dst, &new, &new, false);
    assert!(changes.is_empty(), "got: {changes:?}");
}

#[test]
fn apply_overwrites_modified_when_forced() {
    let mut src = Tree::new();
    src.write("a.txt", "alpha");
    let mut dst = Tree::new();
    dst.write("a.txt", "MODIFIED");
    let old = manifest_for(&src);
    let new = manifest_for(&src);
    let changes = apply_update(&src, &mut dst, &old, &new, false);
    assert_eq!(changes, vec![UpdateChange::Wrote("a.txt".into())]);
    assert_eq!(dst.read_str("a.txt"), "alpha");
}

#[test]
fn apply_deletes_files_removed_from_new_tree() {
    let mut src = Tree::new();
    src.write("kept.txt", "k");
    let mut dst = Tree::new();
    dst.write("kept.txt", "k");
    dst.write("gone.txt", "g");
    let mut old = manifest_for(&src);
    old.insert("gone.txt".into(), "sha256:dummy".into());
    let new = manifest_for(&src);
    let changes = apply_update(&src, &mut dst, &old, &new, false);
    assert_eq!(changes, vec![UpdateChange::Deleted("gone.txt".into())]);
    assert!(!dst.has("gone.txt"));
    assert!(dst.has("kept.txt"));
}

#[test]
fn apply_without_overwrite_preserves_untracked() {
    let mut src = Tree::new();
    src.write("a.txt", "alpha");
    let mut dst = Tree::new();
    dst.write("a.txt", "alpha");
    dst.write("extra.txt", "x");
    let new = manifest_for(&src);
    apply_update(&src, &mut dst, &new, &new, false);
    assert!(dst.has("extra.txt"));
}

#[test]
fn apply_with_overwrite_removes_untracked() {
    let mut src = Tree::new();
    src.write("a.txt", "alpha");
    let mut dst = Tree::new();
    dst.write("a.txt", "alpha");
    dst.write("extra.txt", "x");
    let new = manifest_for(&src);
    let changes = apply_update(&src, &mut dst, &new, &new, true);
    assert_eq!(changes, vec![UpdateChange::Removed("extra.txt".into())]);
    assert!(!dst.has("extra.txt"));
    assert!(dst.has("a.txt"));
}

#[test]
fn apply_prunes_emptied_directories() {
    let mut src = Tree::new();
    src.write("keep.txt", "k");
    let mut dst = Tree::new();
    dst.write("keep.txt", "k");
    dst.write("deep/sub/gone.txt", "g");
    let mut old = manifest_for(&src);
    old.insert("deep/sub/gone.txt".into(), "sha256:dummy".into());
    let new = manifest_for(&src);
    apply_update(&src, &mut dst, &old, &new, false);
    assert!(!dst.has("deep/sub"), "empty subdir should be pruned");
    assert!(!dst.has("deep"), "empty parent should also be pruned");
}

#[test]
fn apply_replaces_symlink_at_tracked_path_when_forced() {
    let mut src = Tree::new();
    src.write("a.txt", "alpha");
    let mut dst = Tree::new();
    dst.write("real", "r");
    dst.symlink("a.txt");
    let old = manifest_for(&src);
    let new = manifest_for(&src);
    apply_update(&src, &mut dst, &old, &new, false);
    assert!(dst.is_file("a.txt"), "tracked path must be a regular file now");
    assert_eq!(dst.read_str("a.txt"), "alpha");
}

#[test]
fn apply_no_lockfile_path_writes_everything_from_new_tree() {
    let mut src = Tree::new();
    src.write("a.txt", "alpha");
    src.write("b.txt", "beta");
    let mut dst = Tree::new();
    dst.write("a.txt", "DIFFERENT");
    let new = manifest_for(&src);
    let changes = apply_update(&src, &mut dst, &KeyMap::new(), &new, false);
    assert_eq!(dst.read_str("a.txt"), "alpha");
    assert_eq!(dst.read_str("b.txt"), "beta");
    let wrote_keys: Vec<&str> = changes
        .iter()
        .filter_map(|c| match c {
            UpdateChange::Wrote(k) => Some(k.as_str()),
            _ => None,
        })
        .collect();
    assert!(wrote_keys.contains(&"a.txt"));
    assert!(wrote_keys.contains(&"b.txt"));
}

#[test]
fn apply_twice_is_a_no_op() {
    let mut src = Tree::new();
    src.write("a.txt", "alpha");
    src.write("d/b.txt", "beta");
    let mut dst = Tree::new();
    dst.write("old.txt", "o");
    let mut old = KeyMap::new();
    old.insert("old.txt".to_string(), "sha256:dummy".to_string());
    let new = manifest_for(&src);
    assert_eq!(apply_update(&src, &mut dst, &old, &new, false).len(), 3);
    let before = dst.clone();
    assert!(apply_update(&src, &mut dst, &old, &new, false).is_empty());
    assert_eq!(before.nodes.len(), dst.nodes.len());
}

#[test]
fn apply_with_overwrite_never_sweeps_the_embd_file() {
    let mut src = Tree::new();
    src.write("a.txt", "alpha");
    let mut dst = Tree::new();
    dst.write(".embd", "[metadata]");
    dst.write("x/.embd", "nested");
    let new = manifest_for(&src);
    let changes = apply_update(&src, &mut dst, &KeyMap::new(), &new, true);
    assert_eq!(changes, vec![UpdateChange::Wrote("a.txt".into()), UpdateChange::Removed("x/.embd".into())]);
    assert!(dst.has(".embd"));
}

fn entry_for(locks: FileLocks, allow_untracked: bool) -> EmbdEntry {
    EmbdEntry {
        metadata: Metadata {
            remote: "https://example.git".to_string(),
            commit_hash: "new".to_string(),
            allow_untracked,
            include_patterns: Vec::new(),
            exclude_patterns: Vec::new(),
        },
        files: locks,
    }
}

fn drifted_destination() -> Tree {
    let mut dst = Tree::new();
    dst.write("a.txt", "MODIFIED");
    dst.symlink("b.txt");
    dst.write("old/gone.txt", "g");
    dst.write("extra.txt", "x");
    dst.symlink("stray");
    dst
}

fn upstream() -> Tree {
    let mut src = Tree::new();
    src.write("a.txt", "alpha");
    src.write("b.txt", "beta");
    src.write("c/d.txt", "delta");
    src
}

#[test]
fn forced_overwrite_update_leaves_status_clean() {
    let src = upstream();
    let mut dst = drifted_destination();
    let mut old = KeyMap::new();
    old.insert("a.txt".to_string(), "sha256:old".to_string());
    old.insert("old/gone.txt".to_string(), "sha256:old".to_string());
    let new = manifest_for(&src);
    apply_update(&src, &mut dst, &old, &new, true);
    let entry = entry_for(build_locks(&src, &Filter::allow_all()), false);
    let on_disk = scan(&dst).unwrap();
    let folder = vec![PathComponent::Normal("vendor".to_string())];
    let report = inspect_entry(&folder, &entry, Some(&on_disk));
    assert!(report.changes.is_empty(), "{:?}", report.changes);
    assert!(!report.has_drift());
}

#[test]
fn update_without_overwrite_leaves_only_untracked_extras() {
    let src = upstream();
    let mut dst = drifted_destination();
    let mut old = KeyMap::new();
    old.insert("a.txt".to_string(), "sha256:old".to_string());
    old.insert("old/gone.txt".to_string(), "sha256:old".to_string());
    let new = manifest_for(&src);
    apply_update(&src, &mut dst, &old, &new, false);
    let entry = entry_for(build_locks(&src, &Filter::allow_all()), true);
    let on_disk = scan(&dst).unwrap();
    let folder = vec![PathComponent::Normal("vendor".to_string())];
    let report = inspect_entry(&folder, &entry, Some(&on_disk));
    assert_eq!(
        report.changes,
        vec![FileChange::Untracked("extra.txt".into()), FileChange::Symlink("stray".into())]
    );
    assert!(!dst.has("old/gone.txt") && !dst.has("old"));
}

#[test]
fn copy_goes_depth_first_and_stops_at_the_first_symlink() {
    let mut src = Tree::new();
    src.write("a/file1", "1");
    src.symlink("a/zlink");
    src.write("b.txt", "b");
    let mut dst = Tree::new();
    let err = copy_dir(&src, &mut dst, &Filter::allow_all()).err().unwrap();
    assert!(matches!(err, CopyRefusal::Symlink(p) if p == parts("a/zlink")));
    // What was reached before the symlink is copied; nothing after it.
    assert!(dst.has("a/file1"));
    assert!(!dst.has("b.txt"));
}

#[test]
fn overwrite_update_twice_is_a_no_op() {
    let src = upstream();
    let mut dst = drifted_destination();
    let mut old = KeyMap::new();
    old.insert("old/gone.txt".to_string(), "sha256:old".to_string());
    let new = manifest_for(&src);
    assert!(!apply_update(&src, &mut dst, &old, &new, true).is_empty());
    assert!(apply_update(&src, &mut dst, &old, &new, true).is_empty());
}

#[test]
fn whole_walks_collect_each_path_once() {
    let mut t = Tree::new();
    t.write("a/x.txt", "1");
    t.write("a/.git/HEAD", "2");
    t.write("b/a/x.txt", "3");
    t.write("x.txt", "4");
    let keys = walk_keys(&t);
    assert_eq!(keys, vec!["a/x.txt", "b/a/x.txt", "x.txt"]);
    let scanned = scan(&t).unwrap();
    assert_eq!(scanned.len(), 3);
    assert!(!scanned.contains_key("a/.git/HEAD"));
}
