//! Include/exclude glob filtering for embedded folders. A single [`Filter`] is
//! the source of truth for "should this file be pulled?", consulted by the
//! copy walker and the manifest walker so `add` and `update` stay in
//! agreement.
//!
//! Semantics: a file is pulled when it matches the include set (or the
//! include set is empty, meaning "everything") AND it does not match the
//! exclude set. Excludes therefore win over includes.
//!
//! Patterns are matched against forward-slash relative keys. Globs are
//! compiled with `literal_separator(true)`, so `*` does not cross `/`; use
//! `**` for recursive matches (e.g. `**/*.rs`, `docs/**`).
use vstd::prelude::*;
use globset::{Glob, GlobBuilder, GlobSet, GlobSetBuilder};

verus! {

// ---------------------------------------------------------------------------
// Trusted items: globset
// ---------------------------------------------------------------------------

#[verifier::external_type_specification]
#[verifier::external_body]
pub struct ExGlob(Glob);

#[verifier::external_type_specification]
#[verifier::external_body]
pub struct ExGlobSet(GlobSet);

#[verifier::external_type_specification]
#[verifier::external_body]
pub struct ExGlobSetBuilder(GlobSetBuilder);

#[verifier::external_type_specification]
#[verifier::external_body]
pub struct ExGlobError(globset::Error);

/// Whether globset parses `pattern` (with `literal_separator(true)`).
pub uninterp spec fn glob_compiles(pattern: Seq<char>) -> bool;

/// Whether the glob `pattern`, compiled with `literal_separator(true)`,
/// matches the path `key`. Every glob here is compiled so: `compile_glob`
/// is the only way to one.
pub uninterp spec fn glob_matches(pattern: Seq<char>, key: Seq<char>) -> bool;

/// The patterns of the globs added to a set builder, in order.
pub uninterp spec fn builder_patterns(b: GlobSetBuilder) -> Seq<Seq<char>>;

/// The patterns of the globs a set was built from, in order.
pub uninterp spec fn set_patterns(s: GlobSet) -> Seq<Seq<char>>;

/// Whether globset builds a set from globs of these patterns (each compiled
/// with `literal_separator(true)`).
pub uninterp spec fn set_builds(patterns: Seq<Seq<char>>) -> bool;

/// A glob compiled from a pattern, with the pattern it was compiled from.
pub struct CompiledGlob {
    glob: Glob,
    pattern: Ghost<Seq<char>>,
}

impl CompiledGlob {
    /// The pattern this glob was compiled from.
    pub closed spec fn pattern(&self) -> Seq<char> {
        self.pattern@
    }
}

/// `GlobBuilder::new(pattern).literal_separator(true).build()`: succeeds
/// exactly when the pattern parses.
#[verifier::external_body]
fn compile_glob(pattern: &str) -> (r: Result<CompiledGlob, globset::Error>)
    ensures
        r is Ok <==> glob_compiles(pattern@),
        r matches Ok(g) ==> g.pattern() == pattern@,
{
    match GlobBuilder::new(pattern).literal_separator(true).build() {
        Ok(glob) => Ok(CompiledGlob { glob, pattern: Ghost(pattern@) }),
        Err(e) => Err(e),
    }
}

/// `GlobSetBuilder::new`: a builder holding no globs.
#[verifier::external_body]
fn new_set_builder() -> (b: GlobSetBuilder)
    ensures
        builder_patterns(b) == Seq::<Seq<char>>::empty(),
{
    GlobSetBuilder::new()
}

/// `GlobSetBuilder::add`: appends the glob to the builder.
#[verifier::external_body]
fn builder_add(b: &mut GlobSetBuilder, g: CompiledGlob)
    ensures
        builder_patterns(*final(b)) == builder_patterns(*old(b)).push(g.pattern()),
{
    b.add(g.glob);
}

/// `GlobSetBuilder::build`: a set of the globs added, unless building fails
/// (the globs' combined regular expressions are compiled here), which depends
/// on the added patterns alone.
#[verifier::external_body]
fn builder_build(b: &GlobSetBuilder) -> (r: Result<GlobSet, globset::Error>)
    ensures
        r is Ok <==> set_builds(builder_patterns(*b)),
        r matches Ok(s) ==> set_patterns(s) == builder_patterns(*b),
{
    b.build()
}

/// `GlobSet::is_match`: whether any glob of the set matches the path.
#[verifier::external_body]
fn set_is_match(s: &GlobSet, key: &str) -> (r: bool)
    ensures
        r == (exists|i: int| 0 <= i < set_patterns(*s).len() && glob_matches(#[trigger] set_patterns(*s)[i], key@)),
{
    s.is_match(key)
}

/// The text of a globset error (its `Display`).
#[verifier::external_body]
fn glob_error_text(e: &globset::Error) -> String {
    e.to_string()
}

// ---------------------------------------------------------------------------
// Specification
// ---------------------------------------------------------------------------

/// Whether some pattern of `patterns` matches `key`.
pub open spec fn any_matches(patterns: Seq<Seq<char>>, key: Seq<char>) -> bool {
    exists|i: int| 0 <= i < patterns.len() && glob_matches(#[trigger] patterns[i], key)
}

/// The filter's rule: `None` on a side places no constraint there.
pub open spec fn filter_accepts(
    wanted: Option<Seq<Seq<char>>>,
    exclude: Option<Seq<Seq<char>>>,
    key: Seq<char>,
) -> bool {
    &&& match wanted {
        Some(p) => any_matches(p, key),
        None => true,
    }
    &&& match exclude {
        Some(p) => !any_matches(p, key),
        None => true,
    }
}

/// The patterns of a string list, by their characters.
pub open spec fn pattern_view(patterns: Seq<String>) -> Seq<Seq<char>> {
    patterns.map_values(|s: String| s@)
}

/// Whether a pattern list gives a side of a filter: it is empty, or the set
/// of its globs builds.
pub open spec fn side_builds(patterns: Seq<String>) -> bool {
    patterns.len() == 0 || set_builds(pattern_view(patterns))
}

/// The side of a filter that a pattern list gives: no constraint when empty.
pub open spec fn side_of(patterns: Seq<String>) -> Option<Seq<Seq<char>>> {
    if patterns.len() == 0 {
        None
    } else {
        Some(pattern_view(patterns))
    }
}

/// The index of the first pattern that fails to compile, if any.
pub open spec fn first_invalid(patterns: Seq<String>) -> Option<int> {
    if exists|i: int| 0 <= i < patterns.len() && !glob_compiles(#[trigger] patterns[i]@) {
        Some(
            choose|i: int|
                0 <= i < patterns.len() && !glob_compiles(#[trigger] patterns[i]@) && forall|j: int|
                    0 <= j < i ==> glob_compiles(#[trigger] patterns[j]@),
        )
    } else {
        None
    }
}

/// Why patterns could not become a filter.
#[derive(Debug)]
pub enum FilterError {
    /// A pattern does not parse as a glob; `detail` is globset's account.
    InvalidPattern { pattern: String, detail: String },
    /// The globs parsed but the set of them could not be built.
    SetBuild { detail: String },
}

impl FilterError {
    /// The error's message: `invalid glob pattern '<pattern>': <detail>`, or
    /// `failed to build glob set from patterns: <detail>`.
    pub fn message(&self) -> (s: String)
        ensures
            s@ == match *self {
                FilterError::InvalidPattern { pattern, detail } => "invalid glob pattern '"@ + pattern@ + "': "@ + detail@,
                FilterError::SetBuild { detail } => "failed to build glob set from patterns: "@ + detail@,
            },
    {
        let mut s = String::new();
        assert(s@ =~= Seq::<char>::empty());
        match self {
            FilterError::InvalidPattern { pattern, detail } => {
                s.append("invalid glob pattern '");
                s.append(pattern.as_str());
                s.append("': ");
                s.append(detail.as_str());
                assert(s@ =~= "invalid glob pattern '"@ + pattern@ + "': "@ + detail@);
            },
            FilterError::SetBuild { detail } => {
                s.append("failed to build glob set from patterns: ");
                s.append(detail.as_str());
                assert(s@ =~= "failed to build glob set from patterns: "@ + detail@);
            },
        }
        s
    }
}

// ---------------------------------------------------------------------------
// The filter
// ---------------------------------------------------------------------------

/// Decides whether a given relative path should be pulled into an embed.
pub struct Filter {
    /// `None` means "include everything" (no include patterns were given).
    include_globs: Option<GlobSet>,
    /// `None` means "exclude nothing" (no exclude patterns were given).
    exclude_globs: Option<GlobSet>,
}

/// Lemma: the first failing pattern exists and fails, and all before it compile.
proof fn lemma_first_invalid(patterns: Seq<String>, i: int)
    requires
        0 <= i < patterns.len(),
        !glob_compiles(patterns[i]@),
        forall|j: int| 0 <= j < i ==> glob_compiles(#[trigger] patterns[j]@),
    ensures
        first_invalid(patterns) == Some(i),
{
    let k = choose|k: int|
        0 <= k < patterns.len() && !glob_compiles(#[trigger] patterns[k]@) && forall|j: int|
            0 <= j < k ==> glob_compiles(#[trigger] patterns[j]@);
    assert(0 <= k < patterns.len() && !glob_compiles(patterns[k]@));
    if k < i {
        assert(glob_compiles(patterns[k]@));
    } else if k > i {
        assert(glob_compiles(patterns[i]@));
    }
}

/// Compile a list of patterns into a set, or `None` when the list is empty.
fn build_set(patterns: &[String]) -> (r: Result<Option<GlobSet>, FilterError>)
    ensures
        match r {
            Ok(None) => patterns@.len() == 0,
            Ok(Some(s)) => patterns@.len() > 0 && first_invalid(patterns@) is None && set_builds(
                pattern_view(patterns@),
            ) && set_patterns(s) == pattern_view(patterns@),
            Err(FilterError::InvalidPattern { pattern, .. }) => first_invalid(patterns@) matches Some(
                i,
            ) && pattern@ == patterns@[i]@,
            Err(FilterError::SetBuild { .. }) => patterns@.len() > 0 && first_invalid(patterns@) is None
                && !set_builds(pattern_view(patterns@)),
        },
{
    if patterns.len() == 0 {
        return Ok(None);
    }
    let mut builder = new_set_builder();
    let mut i: usize = 0;
    while i < patterns.len()
        invariant
            i <= patterns@.len(),
            builder_patterns(builder) == pattern_view(patterns@).take(i as int),
            forall|j: int| 0 <= j < i ==> glob_compiles(#[trigger] patterns@[j]@),
        decreases patterns.len() - i,
    {
        match compile_glob(patterns[i].as_str()) {
            Ok(g) => {
                let ghost before = builder_patterns(builder);
                builder_add(&mut builder, g);
                assert(builder_patterns(builder) =~= pattern_view(patterns@).take(i + 1));
            },
            Err(e) => {
                proof {
                    lemma_first_invalid(patterns@, i as int);
                }
                return Err(
                    FilterError::InvalidPattern {
                        pattern: patterns[i].clone(),
                        detail: glob_error_text(&e),
                    },
                );
            },
        }
        i = i + 1;
    }
    proof {
        assert(pattern_view(patterns@).take(patterns@.len() as int) =~= pattern_view(patterns@));
        if first_invalid(patterns@) is Some {
            let k = choose|k: int| 0 <= k < patterns@.len() && !glob_compiles(#[trigger] patterns@[k]@);
            assert(glob_compiles(patterns@[k]@));
        }
    }
    match builder_build(&builder) {
        Ok(set) => Ok(Some(set)),
        Err(e) => Err(FilterError::SetBuild { detail: glob_error_text(&e) }),
    }
}

impl Filter {
    /// The include side: `None` when there is no include constraint.
    pub closed spec fn include_side(&self) -> Option<Seq<Seq<char>>> {
        match self.include_globs {
            Some(s) => Some(set_patterns(s)),
            None => None,
        }
    }

    /// The exclude side: `None` when nothing is excluded.
    pub closed spec fn exclude_side(&self) -> Option<Seq<Seq<char>>> {
        match self.exclude_globs {
            Some(s) => Some(set_patterns(s)),
            None => None,
        }
    }

    /// Whether this filter pulls the file at `key`.
    pub open spec fn accepts(&self, key: Seq<char>) -> bool {
        filter_accepts(self.include_side(), self.exclude_side(), key)
    }

    /// Compile a filter from raw pattern strings (as stored in the config or
    /// passed on the command line). An empty list yields no constraint for
    /// that side. The first pattern that does not parse (include patterns
    /// first) is named in the error.
    pub fn from_patterns(include_patterns: &[String], exclude_patterns: &[String]) -> (r: Result<Filter, FilterError>)
        ensures
            match r {
                Ok(f) => {
                    &&& first_invalid(include_patterns@) is None
                    &&& side_builds(include_patterns@)
                    &&& first_invalid(exclude_patterns@) is None
                    &&& side_builds(exclude_patterns@)
                    &&& f.include_side() == side_of(include_patterns@)
                    &&& f.exclude_side() == side_of(exclude_patterns@)
                },
                Err(FilterError::InvalidPattern { pattern, .. }) => match first_invalid(include_patterns@) {
                    Some(i) => pattern@ == include_patterns@[i]@,
                    None => side_builds(include_patterns@) && (first_invalid(exclude_patterns@) matches Some(j)
                        && pattern@ == exclude_patterns@[j]@),
                },
                Err(FilterError::SetBuild { .. }) => first_invalid(include_patterns@) is None && (
                !side_builds(include_patterns@) || (first_invalid(exclude_patterns@) is None
                    && !side_builds(exclude_patterns@))),
            },
    {
        let include_set = match build_set(include_patterns) {
            Ok(s) => s,
            Err(e) => {
                return Err(e);
            },
        };
        let exclude_set = match build_set(exclude_patterns) {
            Ok(s) => s,
            Err(e) => {
                return Err(e);
            },
        };
        Ok(Filter { include_globs: include_set, exclude_globs: exclude_set })
    }

    /// An all-pass filter: includes everything, excludes nothing.
    pub fn allow_all() -> (f: Filter)
        ensures
            f.include_side() is None,
            f.exclude_side() is None,
            forall|key: Seq<char>| #[trigger] f.accepts(key),
    {
        Filter { include_globs: None, exclude_globs: None }
    }

    /// Return true if a file at the given forward-slash relative `key` should
    /// be included.
    pub fn includes(&self, key: &str) -> (r: bool)
        ensures
            r == self.accepts(key@),
    {
        let included = match &self.include_globs {
            Some(set) => set_is_match(set, key),
            None => true,
        };
        if !included {
            return false;
        }
        match &self.exclude_globs {
            Some(set) => !set_is_match(set, key),
            None => true,
        }
    }
}

// ---------------------------------------------------------------------------
// Laws
// ---------------------------------------------------------------------------

/// Law: excludes win over includes. A key that some exclude pattern matches
/// is never pulled, whatever the include patterns.
pub proof fn law_exclude_beats_include(f: Filter, key: Seq<char>, i: int)
    requires
        f.exclude_side() matches Some(p) && 0 <= i < p.len() && glob_matches(p[i], key),
    ensures
        !f.accepts(key),
{
    let p = f.exclude_side()->Some_0;
    assert(glob_matches(p[i], key));
}

/// Law: without include patterns the filter is a denylist: a key is pulled
/// exactly when no exclude pattern matches it.
pub proof fn law_exclude_only_is_denylist(f: Filter, key: Seq<char>)
    requires
        f.include_side() is None,
    ensures
        f.accepts(key) == match f.exclude_side() {
            Some(p) => !any_matches(p, key),
            None => true,
        },
{
}

/// Law: without exclude patterns the filter is an allowlist: a key is
/// pulled exactly when some include pattern matches it.
pub proof fn law_include_only_is_allowlist(f: Filter, key: Seq<char>)
    requires
        f.exclude_side() is None,
        f.include_side() is Some,
    ensures
        f.accepts(key) == any_matches(f.include_side()->Some_0, key),
{
}

/// Law: a filter built from two empty pattern lists pulls everything.
pub proof fn law_empty_patterns_pull_everything(
    include_patterns: Seq<String>,
    exclude_patterns: Seq<String>,
    f: Filter,
    key: Seq<char>,
)
    requires
        include_patterns.len() == 0,
        exclude_patterns.len() == 0,
        f.include_side() == side_of(include_patterns),
        f.exclude_side() == side_of(exclude_patterns),
    ensures
        f.accepts(key),
{
}

} // verus!
