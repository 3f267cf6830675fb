//! Path handling for `embd`: the lexical normalization of paths, resolving a
//! user-supplied target folder against the git root, and the location of the
//! `.embd` file inside an embedded folder.
//!
//! Paths are handled as their component sequences (what `Path::components`
//! yields on Unix).
use vstd::prelude::*;
use crate::text::str_eq;

verus! {

/// One component of a path.
#[derive(Debug, PartialEq, Eq)]
pub enum PathComponent {
    /// The root directory `/` at the start of an absolute path.
    RootDir,
    /// `.` at the start of a relative path.
    CurDir,
    /// `..`.
    ParentDir,
    /// A plain name.
    Normal(String),
}

/// A path component by the characters of its name.
pub enum Comp {
    Root,
    Cur,
    Parent,
    Normal(Seq<char>),
}

/// The view of one component.
pub open spec fn comp_view(c: PathComponent) -> Comp {
    match c {
        PathComponent::RootDir => Comp::Root,
        PathComponent::CurDir => Comp::Cur,
        PathComponent::ParentDir => Comp::Parent,
        PathComponent::Normal(s) => Comp::Normal(s@),
    }
}

/// The view of a path.
pub open spec fn path_view(p: Seq<PathComponent>) -> Seq<Comp> {
    p.map_values(|c: PathComponent| comp_view(c))
}

/// Pushing one component onto a normalized path, as `lexically_normalize`
/// does it with `PathBuf::push` and `PathBuf::pop`: `.` is dropped, `..`
/// removes the last component unless there is none or it is the root (then
/// `..` stays), and the root replaces everything before it.
pub open spec fn normalize_push(out: Seq<Comp>, c: Comp) -> Seq<Comp> {
    match c {
        Comp::Cur => out,
        Comp::Parent => if out.len() > 0 && out.last() != Comp::Root {
            out.drop_last()
        } else {
            out.push(Comp::Parent)
        },
        Comp::Root => seq![Comp::Root],
        Comp::Normal(n) => out.push(Comp::Normal(n)),
    }
}

/// The lexical normal form of a path.
pub open spec fn lexical_normal(p: Seq<Comp>) -> Seq<Comp>
    decreases p.len(),
{
    if p.len() == 0 {
        Seq::<Comp>::empty()
    } else {
        normalize_push(lexical_normal(p.drop_last()), p.last())
    }
}

/// Whether a path holds no `.` component.
pub open spec fn has_no_cur(p: Seq<Comp>) -> bool {
    forall|i: int| 0 <= i < p.len() ==> p[i] != Comp::Cur
}

/// Whether `p` is absolute: it starts at the root.
pub open spec fn is_absolute(p: Seq<Comp>) -> bool {
    p.len() > 0 && p[0] == Comp::Root
}

/// `folder` resolved against `cwd` (`cwd.join(folder)`, or `folder` itself
/// when it is absolute).
pub open spec fn joined(folder: Seq<Comp>, cwd: Seq<Comp>) -> Seq<Comp> {
    if is_absolute(folder) {
        folder
    } else {
        cwd + folder
    }
}

/// Why a target folder was refused.
#[derive(Debug, Clone, Copy, PartialEq, Eq)]
pub enum PathError {
    /// The folder does not lie inside the git root.
    OutsideRoot,
    /// The folder is the git root itself.
    IsRoot,
    /// Something exists at the folder's path and it is a symlink.
    IsSymlink,
    /// Something exists at the folder's path and it is not a directory.
    NotADirectory,
}

impl PathError {
    /// The error's message, for the target folder as the user gave it and
    /// the git root (both as displayed).
    pub fn message(&self, folder: &str, root: &str) -> (s: String)
        ensures
            s@ == match *self {
                PathError::OutsideRoot => "folder '"@ + folder@ + "' is outside the git root '"@ + root@ + "'"@,
                PathError::IsRoot => "folder cannot be the git root itself"@,
                PathError::IsSymlink => "folder '"@ + folder@ + "' is a symlink; refusing to follow"@,
                PathError::NotADirectory => "folder '"@ + folder@ + "' exists and is not a directory"@,
            },
    {
        let mut s = String::new();
        assert(s@ =~= Seq::<char>::empty());
        match self {
            PathError::OutsideRoot => {
                s.append("folder '");
                s.append(folder);
                s.append("' is outside the git root '");
                s.append(root);
                s.append("'");
                assert(s@ =~= "folder '"@ + folder@ + "' is outside the git root '"@ + root@ + "'"@);
            },
            PathError::IsRoot => {
                s.append("folder cannot be the git root itself");
                assert(s@ =~= "folder cannot be the git root itself"@);
            },
            PathError::IsSymlink => {
                s.append("folder '");
                s.append(folder);
                s.append("' is a symlink; refusing to follow");
                assert(s@ =~= "folder '"@ + folder@ + "' is a symlink; refusing to follow"@);
            },
            PathError::NotADirectory => {
                s.append("folder '");
                s.append(folder);
                s.append("' exists and is not a directory");
                assert(s@ =~= "folder '"@ + folder@ + "' exists and is not a directory"@);
            },
        }
        s
    }
}

/// What is found at a path on disk, without following symlinks.
#[derive(Debug, Clone, Copy, PartialEq, Eq)]
pub enum EntryKind {
    File,
    Dir,
    Symlink,
    Other,
}

fn copy_component(c: &PathComponent) -> (r: PathComponent)
    ensures
        comp_view(r) == comp_view(*c),
{
    match c {
        PathComponent::RootDir => PathComponent::RootDir,
        PathComponent::CurDir => PathComponent::CurDir,
        PathComponent::ParentDir => PathComponent::ParentDir,
        PathComponent::Normal(s) => PathComponent::Normal(s.clone()),
    }
}

/// Lexically normalize a path: drop `.`, resolve `..` against the component
/// before it, never touching the disk.
pub fn lexically_normalize(p: &[PathComponent]) -> (out: Vec<PathComponent>)
    ensures
        path_view(out@) == lexical_normal(path_view(p@)),
{
    let mut out: Vec<PathComponent> = Vec::new();
    let mut i: usize = 0;
    while i < p.len()
        invariant
            i <= p@.len(),
            path_view(out@) == lexical_normal(path_view(p@.take(i as int))),
        decreases p.len() - i,
    {
        let ghost before = path_view(out@);
        proof {
            assert(path_view(p@.take(i + 1)).drop_last() =~= path_view(p@.take(i as int)));
            assert(path_view(p@.take(i + 1)).last() == comp_view(p@[i as int]));
        }
        match &p[i] {
            PathComponent::CurDir => {},
            PathComponent::ParentDir => {
                let n = out.len();
                if n > 0 && !matches!(out[n - 1], PathComponent::RootDir) {
                    out.pop();
                    assert(path_view(out@) =~= before.drop_last());
                } else {
                    out.push(PathComponent::ParentDir);
                    assert(path_view(out@) =~= before.push(Comp::Parent));
                }
            },
            PathComponent::RootDir => {
                out = Vec::new();
                out.push(PathComponent::RootDir);
                assert(path_view(out@) =~= seq![Comp::Root]);
            },
            PathComponent::Normal(s) => {
                out.push(PathComponent::Normal(s.clone()));
                assert(path_view(out@) =~= before.push(comp_view(p@[i as int])));
            },
        }
        i = i + 1;
    }
    assert(p@.take(p@.len() as int) =~= p@);
    out
}

/// Whether the components of `a` and `b` agree (names by their characters).
fn same_component(a: &PathComponent, b: &PathComponent) -> (r: bool)
    ensures
        r == (comp_view(*a) == comp_view(*b)),
{
    match (a, b) {
        (PathComponent::RootDir, PathComponent::RootDir) => true,
        (PathComponent::CurDir, PathComponent::CurDir) => true,
        (PathComponent::ParentDir, PathComponent::ParentDir) => true,
        (PathComponent::Normal(x), PathComponent::Normal(y)) => str_eq(x.as_str(), y.as_str()),
        _ => false,
    }
}

/// `path` with the leading components `prefix` removed (`Path::strip_prefix`),
/// or `None` when `prefix` is not a leading part of `path`.
pub fn strip_prefix(path: &[PathComponent], prefix: &[PathComponent]) -> (r: Option<Vec<PathComponent>>)
    ensures
        match r {
            Some(rest) => {
                &&& prefix@.len() <= path@.len()
                &&& path_view(path@).take(prefix@.len() as int) == path_view(prefix@)
                &&& path_view(rest@) == path_view(path@).skip(prefix@.len() as int)
            },
            None => !(prefix@.len() <= path@.len() && path_view(path@).take(prefix@.len() as int)
                == path_view(prefix@)),
        },
{
    if prefix.len() > path.len() {
        return None;
    }
    let mut i: usize = 0;
    while i < prefix.len()
        invariant
            i <= prefix@.len() <= path@.len(),
            forall|j: int| 0 <= j < i ==> comp_view(path@[j]) == comp_view(prefix@[j]),
        decreases prefix.len() - i,
    {
        if !same_component(&path[i], &prefix[i]) {
            proof {
                assert(path_view(path@).take(prefix@.len() as int)[i as int] == comp_view(path@[i as int]));
                assert(path_view(prefix@)[i as int] == comp_view(prefix@[i as int]));
            }
            return None;
        }
        i = i + 1;
    }
    assert(path_view(path@).take(prefix@.len() as int) =~= path_view(prefix@));
    let mut rest: Vec<PathComponent> = Vec::new();
    let mut j: usize = prefix.len();
    while j < path.len()
        invariant
            prefix@.len() <= j <= path@.len(),
            path_view(rest@) == path_view(path@).subrange(prefix@.len() as int, j as int),
        decreases path.len() - j,
    {
        let c = copy_component(&path[j]);
        assert(comp_view(c) == path_view(path@)[j as int]);
        let ghost before = path_view(rest@);
        rest.push(c);
        assert(path_view(rest@) =~= before.push(comp_view(c)));
        assert(path_view(rest@) =~= path_view(path@).subrange(prefix@.len() as int, j + 1));
        j = j + 1;
    }
    assert(path_view(path@).skip(prefix@.len() as int) =~= path_view(path@).subrange(
        prefix@.len() as int,
        path@.len() as int,
    ));
    Some(rest)
}

/// The outcome of resolving `folder` against `root` and `cwd`.
pub open spec fn resolve_spec(folder: Seq<Comp>, root: Seq<Comp>, cwd: Seq<Comp>) -> Result<
    (Seq<Comp>, Seq<Comp>),
    PathError,
> {
    let normalized = lexical_normal(joined(folder, cwd));
    let root_normalized = lexical_normal(root);
    if !(root_normalized.len() <= normalized.len() && normalized.take(root_normalized.len() as int)
        == root_normalized) {
        Err(PathError::OutsideRoot)
    } else if normalized.len() == root_normalized.len() {
        Err(PathError::IsRoot)
    } else {
        Ok((normalized, normalized.skip(root_normalized.len() as int)))
    }
}

/// `folder` joined onto `cwd` (or `folder` itself when it is absolute).
fn joined_path(folder: &[PathComponent], cwd: &[PathComponent]) -> (absolute: Vec<PathComponent>)
    ensures
        path_view(absolute@) == joined(path_view(folder@), path_view(cwd@)),
{
    let absolute_is = folder.len() > 0 && matches!(folder[0], PathComponent::RootDir);
    let mut absolute: Vec<PathComponent> = Vec::new();
    if !absolute_is {
        let mut i: usize = 0;
        while i < cwd.len()
            invariant
                i <= cwd@.len(),
                path_view(absolute@) == path_view(cwd@).take(i as int),
            decreases cwd.len() - i,
        {
            let c = copy_component(&cwd[i]);
            assert(comp_view(c) == path_view(cwd@)[i as int]);
            let ghost before = path_view(absolute@);
            absolute.push(c);
            assert(path_view(absolute@) =~= before.push(comp_view(c)));
            assert(before.push(comp_view(c)) =~= path_view(cwd@).take(i + 1));
            i = i + 1;
        }
        assert(path_view(cwd@).take(cwd@.len() as int) =~= path_view(cwd@));
    }
    let ghost base = path_view(absolute@);
    let mut j: usize = 0;
    while j < folder.len()
        invariant
            j <= folder@.len(),
            path_view(absolute@) == base + path_view(folder@).take(j as int),
        decreases folder.len() - j,
    {
        let c = copy_component(&folder[j]);
        assert(comp_view(c) == path_view(folder@)[j as int]);
        let ghost before = path_view(absolute@);
        absolute.push(c);
        assert(path_view(absolute@) =~= before.push(comp_view(c)));
        assert(before.push(comp_view(c)) =~= base + path_view(folder@).take(j + 1));
        j = j + 1;
    }
    proof {
        assert(path_view(folder@).take(folder@.len() as int) =~= path_view(folder@));
        if absolute_is {
            assert(base =~= Seq::<Comp>::empty());
            assert(path_view(absolute@) =~= path_view(folder@));
        }
        assert(path_view(absolute@) == joined(path_view(folder@), path_view(cwd@)));
    }
    absolute
}

/// Resolve a user-supplied target folder against the current working
/// directory and check, lexically, that it lies strictly inside `root`.
/// Returns `(absolute, relative_to_root)`, both normalized. What is on disk at
/// that path is checked separately by [`check_existing_folder`].
pub fn resolve_inside_root(folder: &[PathComponent], root: &[PathComponent], cwd: &[PathComponent])
    -> (r: Result<(Vec<PathComponent>, Vec<PathComponent>), PathError>)
    ensures
        match r {
            Ok((abs, rel)) => resolve_spec(path_view(folder@), path_view(root@), path_view(cwd@))
                == Ok::<(Seq<Comp>, Seq<Comp>), PathError>((path_view(abs@), path_view(rel@))),
            Err(e) => resolve_spec(path_view(folder@), path_view(root@), path_view(cwd@)) == Err::<
                (Seq<Comp>, Seq<Comp>),
                PathError,
            >(e),
        },
{
    let absolute = joined_path(folder, cwd);
    let normalized = lexically_normalize(absolute.as_slice());
    let root_normalized = lexically_normalize(root);
    let ghost nv = path_view(normalized@);
    let ghost rv = path_view(root_normalized@);
    assert(nv == lexical_normal(joined(path_view(folder@), path_view(cwd@))));
    assert(rv == lexical_normal(path_view(root@)));
    assert(nv.len() == normalized@.len() && rv.len() == root_normalized@.len());
    match strip_prefix(normalized.as_slice(), root_normalized.as_slice()) {
        None => Err(PathError::OutsideRoot),
        Some(relative) => {
            assert(path_view(relative@).len() == relative@.len());
            if relative.len() == 0 {
                assert(nv.len() == rv.len());
                Err(PathError::IsRoot)
            } else {
                assert(path_view(relative@) == nv.skip(rv.len() as int));
                Ok((normalized, relative))
            }
        },
    }
}

/// Check what already exists at a resolved target folder (`None`: nothing).
/// A symlink is refused rather than followed, and anything that is not a
/// directory is refused.
pub fn check_existing_folder(existing: Option<EntryKind>) -> (r: Result<(), PathError>)
    ensures
        r == match existing {
            None => Ok::<(), PathError>(()),
            Some(EntryKind::Symlink) => Err(PathError::IsSymlink),
            Some(EntryKind::Dir) => Ok(()),
            Some(_) => Err(PathError::NotADirectory),
        },
{
    match existing {
        None => Ok(()),
        Some(EntryKind::Symlink) => Err(PathError::IsSymlink),
        Some(EntryKind::Dir) => Ok(()),
        Some(_) => Err(PathError::NotADirectory),
    }
}

/// Whether a repository still has the old layout, one project-wide `.embd/`
/// configuration directory at its root instead of a `.embd` file in each
/// embedded folder: discovery found no embed folder and that directory exists.
pub fn is_legacy_layout(nothing_discovered: bool, embd_dir_at_root: bool) -> (r: bool)
    ensures
        r == (nothing_discovered && embd_dir_at_root),
{
    nothing_discovered && embd_dir_at_root
}

/// Name of the file `embd` stores inside each embedded folder, holding that
/// embed's pinned metadata and file manifest.
pub open spec fn embed_file_name() -> Seq<char> {
    seq!['.', 'e', 'm', 'b', 'd']
}

/// `.embd` as a string.
pub fn embed_file_string() -> (s: String)
    ensures
        s@ == embed_file_name(),
{
    let mut s = String::new();
    crate::text::push_char(&mut s, '.');
    crate::text::push_char(&mut s, 'e');
    crate::text::push_char(&mut s, 'm');
    crate::text::push_char(&mut s, 'b');
    crate::text::push_char(&mut s, 'd');
    assert(s@ =~= embed_file_name());
    s
}

/// Get the path to the `.embd` file inside a given embedded folder. Note that
/// this function does not ensure that the file exists.
pub fn embed_file_path(folder: &[PathComponent]) -> (p: Vec<PathComponent>)
    ensures
        path_view(p@) == path_view(folder@).push(Comp::Normal(embed_file_name())),
{
    let mut p: Vec<PathComponent> = Vec::new();
    let mut i: usize = 0;
    while i < folder.len()
        invariant
            i <= folder@.len(),
            path_view(p@) == path_view(folder@).take(i as int),
        decreases folder.len() - i,
    {
        let c = copy_component(&folder[i]);
        assert(comp_view(c) == path_view(folder@)[i as int]);
        let ghost before = path_view(p@);
        p.push(c);
        assert(path_view(p@) =~= before.push(comp_view(c)));
        assert(before.push(comp_view(c)) =~= path_view(folder@).take(i + 1));
        i = i + 1;
    }
    let name = embed_file_string();
    let last = PathComponent::Normal(name);
    assert(comp_view(last) == Comp::Normal(embed_file_name()));
    let ghost before = path_view(p@);
    p.push(last);
    assert(path_view(p@) =~= before.push(comp_view(last)));
    assert(path_view(folder@).take(folder@.len() as int) =~= path_view(folder@));
    p
}

// ---------------------------------------------------------------------------
// Laws
// ---------------------------------------------------------------------------

/// Whether position `i` of `p` is as in a normal form: no `.`, the root only
/// at the start, and `..` only at the start or right after the root.
pub open spec fn normal_at(p: Seq<Comp>, i: int) -> bool {
    &&& p[i] != Comp::Cur
    &&& (i > 0 ==> p[i] != Comp::Root)
    &&& (i > 0 && p[i] == Comp::Parent ==> p[i - 1] == Comp::Root)
}

/// Whether `p` is in lexical normal form.
pub open spec fn is_lexically_normal(p: Seq<Comp>) -> bool {
    forall|i: int| 0 <= i < p.len() ==> #[trigger] normal_at(p, i)
}

/// Law: the result of normalization is in normal form.
pub proof fn law_normalize_is_normal(p: Seq<Comp>)
    ensures
        is_lexically_normal(lexical_normal(p)),
    decreases p.len(),
{
    if p.len() > 0 {
        law_normalize_is_normal(p.drop_last());
        let out = lexical_normal(p.drop_last());
        let r = lexical_normal(p);
        assert forall|i: int| 0 <= i < r.len() implies #[trigger] normal_at(r, i) by {
            if p.last() == Comp::Root {
                assert(r =~= seq![Comp::Root]);
            } else if i < out.len() && i < r.len() - 1 {
                assert(normal_at(out, i));
                assert(r[i] == out[i]);
                if i > 0 {
                    assert(r[i - 1] == out[i - 1]);
                }
            } else if i < out.len() {
                assert(normal_at(out, i));
                assert(r[i] == out[i]);
                if i > 0 {
                    assert(r[i - 1] == out[i - 1]);
                }
            } else {
                if i > 0 {
                    assert(r[i - 1] == out[i - 1]);
                }
            }
        }
    }
}

/// Law: normalizing a path already in normal form leaves it as it is; in
/// particular normalization is idempotent.
pub proof fn law_normalize_fixes_normal(p: Seq<Comp>)
    requires
        is_lexically_normal(p),
    ensures
        lexical_normal(p) == p,
    decreases p.len(),
{
    if p.len() > 0 {
        let init = p.drop_last();
        assert forall|i: int| 0 <= i < init.len() implies #[trigger] normal_at(init, i) by {
            assert(normal_at(p, i));
            assert(init[i] == p[i]);
            if i > 0 {
                assert(init[i - 1] == p[i - 1]);
            }
        }
        law_normalize_fixes_normal(init);
        let last = p.last();
        assert(normal_at(p, p.len() - 1));
        if p.len() > 1 {
            assert(init.last() == p[p.len() - 2]);
        }
        assert(lexical_normal(p) == normalize_push(init, last));
        match last {
            Comp::Root => {
                assert(p.len() == 1);
                assert(p =~= seq![Comp::Root]);
            },
            Comp::Cur => {},
            Comp::Parent => {
                assert(init.push(last) =~= p);
            },
            Comp::Normal(n) => {
                assert(init.push(last) =~= p);
            },
        }
    }
}

/// Law: normalization is idempotent.
pub proof fn law_normalize_idempotent(p: Seq<Comp>)
    ensures
        lexical_normal(lexical_normal(p)) == lexical_normal(p),
{
    law_normalize_is_normal(p);
    law_normalize_fixes_normal(lexical_normal(p));
}

/// `p` with its `.` components dropped.
pub open spec fn without_cur(p: Seq<Comp>) -> Seq<Comp>
    decreases p.len(),
{
    if p.len() == 0 {
        Seq::<Comp>::empty()
    } else if p.last() == Comp::Cur {
        without_cur(p.drop_last())
    } else {
        without_cur(p.drop_last()).push(p.last())
    }
}

/// Law: a path without `..` (whose root, if any, comes first, as in any
/// parsed path) normalizes to itself with its `.` components dropped.
pub proof fn law_normalize_without_parent(p: Seq<Comp>)
    requires
        forall|i: int| 0 <= i < p.len() ==> #[trigger] p[i] != Comp::Parent,
        forall|i: int| 0 < i < p.len() ==> #[trigger] p[i] != Comp::Root,
    ensures
        lexical_normal(p) == without_cur(p),
    decreases p.len(),
{
    if p.len() > 0 {
        let init = p.drop_last();
        assert forall|i: int| 0 <= i < init.len() implies #[trigger] init[i] != Comp::Parent by {
            assert(init[i] == p[i]);
        }
        assert forall|i: int| 0 < i < init.len() implies #[trigger] init[i] != Comp::Root by {
            assert(init[i] == p[i]);
        }
        law_normalize_without_parent(init);
        assert(p[p.len() - 1] == p.last());
        if p.last() == Comp::Root {
            assert(p.len() == 1);
            assert(init.len() == 0);
            assert(without_cur(init) =~= Seq::<Comp>::empty());
            assert(seq![Comp::Root] =~= Seq::<Comp>::empty().push(Comp::Root));
        }
    }
}

/// Law: a folder accepted by `resolve_inside_root` lies strictly inside the
/// root: the normalized root followed by the relative part is the normalized
/// absolute path, and the relative part is not empty.
pub proof fn law_resolved_lies_inside_root(folder: Seq<Comp>, root: Seq<Comp>, cwd: Seq<Comp>)
    requires
        resolve_spec(folder, root, cwd) is Ok,
    ensures
        ({
            let (abs, rel) = resolve_spec(folder, root, cwd)->Ok_0;
            &&& rel.len() > 0
            &&& abs == lexical_normal(root) + rel
            &&& has_no_cur(rel)
        }),
{
    let normalized = lexical_normal(joined(folder, cwd));
    let rn = lexical_normal(root);
    law_normalize_is_normal(joined(folder, cwd));
    assert(normalized =~= rn + normalized.skip(rn.len() as int));
    let rel = normalized.skip(rn.len() as int);
    assert forall|i: int| 0 <= i < rel.len() implies rel[i] != Comp::Cur by {
        assert(rel[i] == normalized[i + rn.len()]);
        assert(normal_at(normalized, i + rn.len()));
    }
}

} // verus!
