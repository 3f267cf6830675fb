//! Repository links: accepting a link given on the command line and
//! extracting the name of the repository it points to.
use vstd::prelude::*;
use crate::text::{to_chars, from_chars};

verus! {

// ---------------------------------------------------------------------------
// Whitespace and trimming
// ---------------------------------------------------------------------------

/// The characters with the Unicode `White_Space` property.
pub open spec fn is_white_space(c: char) -> bool {
    let u = c as u32;
    (0x9 <= u <= 0xD) || u == 0x20 || u == 0x85 || u == 0xA0 || u == 0x1680 || (0x2000 <= u
        <= 0x200A) || u == 0x2028 || u == 0x2029 || u == 0x202F || u == 0x205F || u == 0x3000
}

/// Whether the character has the Unicode `White_Space` property (what
/// `char::is_whitespace` answers).
fn char_is_whitespace(c: char) -> (r: bool)
    ensures
        r == is_white_space(c),
{
    let u = c as u32;
    (0x9 <= u && u <= 0xD) || u == 0x20 || u == 0x85 || u == 0xA0 || u == 0x1680 || (0x2000 <= u && u <= 0x200A)
        || u == 0x2028 || u == 0x2029 || u == 0x202F || u == 0x205F || u == 0x3000
}

/// Number of leading whitespace characters.
pub open spec fn leading_ws(s: Seq<char>) -> nat
    decreases s.len(),
{
    if s.len() > 0 && is_white_space(s[0]) {
        1 + leading_ws(s.drop_first())
    } else {
        0
    }
}

/// Number of trailing whitespace characters.
pub open spec fn trailing_ws(s: Seq<char>) -> nat
    decreases s.len(),
{
    if s.len() > 0 && is_white_space(s.last()) {
        1 + trailing_ws(s.drop_last())
    } else {
        0
    }
}

/// `s` without leading and trailing whitespace (`str::trim`).
pub open spec fn trimmed(s: Seq<char>) -> Seq<char> {
    if leading_ws(s) >= s.len() {
        Seq::empty()
    } else {
        s.subrange(leading_ws(s) as int, s.len() - trailing_ws(s))
    }
}

proof fn lemma_leading_ws_bound(s: Seq<char>)
    ensures
        leading_ws(s) <= s.len(),
    decreases s.len(),
{
    if s.len() > 0 && is_white_space(s[0]) {
        lemma_leading_ws_bound(s.drop_first());
    }
}

proof fn lemma_trailing_ws_bound(s: Seq<char>)
    ensures
        trailing_ws(s) <= s.len(),
        trailing_ws(s) < s.len() ==> !is_white_space(s[s.len() - 1 - trailing_ws(s)]),
    decreases s.len(),
{
    if s.len() > 0 && is_white_space(s.last()) {
        lemma_trailing_ws_bound(s.drop_last());
    }
}

/// When not all of `s` is whitespace, its trailing run stops after the
/// leading run.
proof fn lemma_trailing_after_leading(s: Seq<char>)
    requires
        leading_ws(s) < s.len(),
    ensures
        leading_ws(s) + trailing_ws(s) < s.len(),
    decreases s.len(),
{
    lemma_trailing_ws_bound(s);
    lemma_leading_stop(s);
    if s.len() > 0 && is_white_space(s.last()) {
        let init = s.drop_last();
        // The leading run of `s` lies within `init`.
        lemma_leading_prefix(s, init);
        if leading_ws(init) < init.len() {
            lemma_trailing_after_leading(init);
        } else {
            lemma_leading_ws_bound(init);
            assert(s[s.len() - 1] == s.last());
        }
    }
}

/// The leading run stops at a character that is not whitespace.
proof fn lemma_leading_stop(s: Seq<char>)
    ensures
        leading_ws(s) < s.len() ==> !is_white_space(s[leading_ws(s) as int]),
    decreases s.len(),
{
    if s.len() > 0 && is_white_space(s[0]) {
        lemma_leading_stop(s.drop_first());
    }
}

/// The leading run of `s` is that of `init = s.drop_last()` when `s` does not
/// consist of whitespace only.
proof fn lemma_leading_prefix(s: Seq<char>, init: Seq<char>)
    requires
        s.len() > 0,
        init == s.drop_last(),
        leading_ws(s) < s.len(),
    ensures
        leading_ws(init) == leading_ws(s),
    decreases s.len(),
{
    if is_white_space(s[0]) {
        assert(s.len() > 1);
        assert(init.drop_first() =~= s.drop_first().drop_last());
        lemma_leading_prefix(s.drop_first(), init.drop_first());
    }
}

/// Law: trimming twice is trimming once; a trimmed text neither starts nor
/// ends with whitespace.
pub proof fn law_trim_is_idempotent(s: Seq<char>)
    ensures
        trimmed(trimmed(s)) == trimmed(s),
        trimmed(s).len() > 0 ==> !is_white_space(trimmed(s)[0]) && !is_white_space(trimmed(s).last()),
{
    let t = trimmed(s);
    lemma_leading_ws_bound(s);
    if leading_ws(s) < s.len() {
        lemma_leading_stop(s);
        lemma_trailing_after_leading(s);
        lemma_trailing_ws_bound(s);
        assert(t[0] == s[leading_ws(s) as int]);
        assert(t.last() == s[s.len() - 1 - trailing_ws(s)]);
        assert(leading_ws(t) == 0);
        assert(trailing_ws(t) == 0);
        assert(t.subrange(0, t.len() as int) =~= t);
    } else {
        assert(t.len() == 0);
        assert(trimmed(t) =~= t);
    }
}

/// Count the leading whitespace of `c`.
fn count_leading(c: &Vec<char>) -> (n: usize)
    ensures
        n == leading_ws(c@),
{
    let mut i: usize = 0;
    assert(c@.skip(0) =~= c@);
    while i < c.len() && char_is_whitespace(c[i])
        invariant
            i <= c@.len(),
            leading_ws(c@) == i + leading_ws(c@.skip(i as int)),
        decreases c.len() - i,
    {
        assert(c@.skip(i as int).drop_first() =~= c@.skip(i + 1));
        i = i + 1;
    }
    i
}

fn count_trailing(c: &Vec<char>) -> (n: usize)
    ensures
        n == trailing_ws(c@),
{
    let mut j: usize = c.len();
    assert(c@.take(c@.len() as int) =~= c@);
    while j > 0 && char_is_whitespace(c[j - 1])
        invariant
            j <= c@.len(),
            trailing_ws(c@) == (c@.len() - j) + trailing_ws(c@.take(j as int)),
        decreases j,
    {
        assert(c@.take(j as int).drop_last() =~= c@.take(j - 1));
        j = j - 1;
    }
    (c.len() - j) as usize
}

/// `s` without leading and trailing whitespace.
pub fn trim(s: &str) -> (r: String)
    ensures
        r@ == trimmed(s@),
{
    let c = to_chars(s);
    let lead = count_leading(&c);
    if lead >= c.len() {
        return String::new();
    }
    let trail = count_trailing(&c);
    proof {
        lemma_trailing_after_leading(c@);
    }
    from_chars(c.as_slice(), lead, c.len() - trail)
}

// ---------------------------------------------------------------------------
// Link parsing
// ---------------------------------------------------------------------------

/// Whether `s` holds `://` somewhere.
pub open spec fn has_scheme_separator(s: Seq<char>) -> bool {
    exists|i: int| 0 <= i && i + 2 < s.len() && #[trigger] separator_at(s, i)
}

/// Whether `://` starts at index `i` of `s`.
pub open spec fn separator_at(s: Seq<char>, i: int) -> bool {
    s[i] == ':' && s[i + 1] == '/' && s[i + 2] == '/'
}

/// Whether `s` holds the character `c`.
pub open spec fn has_char(s: Seq<char>, c: char) -> bool {
    exists|i: int| 0 <= i < s.len() && s[i] == c
}

/// The index of the first `:` of `s` (when there is one).
pub open spec fn first_colon(s: Seq<char>) -> int {
    choose|i: int| 0 <= i < s.len() && s[i] == ':' && forall|j: int| 0 <= j < i ==> s[j] != ':'
}

/// Whether `c` is an ASCII letter.
pub open spec fn is_ascii_alpha(c: char) -> bool {
    ('a' <= c && c <= 'z') || ('A' <= c && c <= 'Z')
}

/// The path part of an scp-style SSH reference like `git@host:org/repo.git`:
/// what follows the first `:`. None for anything that holds `://`, has no
/// `:`, has nothing before or after it, or looks like a Windows drive path
/// (one ASCII letter before the `:`).
pub open spec fn ssh_style_path(s: Seq<char>) -> Option<Seq<char>> {
    if has_scheme_separator(s) || !has_char(s, ':') {
        None
    } else {
        let i = first_colon(s);
        let before = s.take(i);
        let after = s.skip(i + 1);
        if before.len() == 0 || after.len() == 0 {
            None
        } else if before.len() == 1 && is_ascii_alpha(before[0]) {
            None
        } else {
            Some(after)
        }
    }
}

/// Recognize scp-style SSH refs like `git@host:org/repo.git` and return the
/// path portion after the colon. Returns None for anything that looks like a
/// URL (contains `://`) or doesn't match the pattern.
pub fn parse_ssh_style_path(link: &str) -> (r: Option<String>)
    ensures
        match r {
            Some(p) => ssh_style_path(link@) == Some(p@),
            None => ssh_style_path(link@) is None,
        },
{
    let c = to_chars(link);
    let n = c.len();
    // `://` anywhere?
    let mut i: usize = 0;
    while i < n
        invariant
            n == c@.len(),
            c@ == link@,
            forall|j: int| 0 <= j < i && j + 2 < n ==> !#[trigger] separator_at(link@, j),
        decreases n - i,
    {
        if n - i > 2 && c[i] == ':' && c[i + 1] == '/' && c[i + 2] == '/' {
            assert(separator_at(link@, i as int));
            return None;
        }
        i = i + 1;
    }
    assert(!has_scheme_separator(link@));
    // First `:`.
    let mut k: usize = 0;
    while k < n && c[k] != ':'
        invariant
            k <= n == c@.len(),
            c@ == link@,
            forall|j: int| 0 <= j < k ==> c@[j] != ':',
        decreases n - k,
    {
        k = k + 1;
    }
    if k == n {
        assert(!has_char(link@, ':'));
        return None;
    }
    proof {
        assert(has_char(link@, ':'));
        let f = first_colon(link@);
        if f < k {
            assert(c@[f] != ':');
        } else if f > k {
            assert(link@[k as int] == ':');
        }
        assert(f == k);
    }
    if k == 0 || k + 1 == n {
        proof {
            assert(link@.take(k as int).len() == k);
            assert(link@.skip(k + 1).len() == n - k - 1);
        }
        return None;
    }
    if k == 1 && ((c[0] >= 'a' && c[0] <= 'z') || (c[0] >= 'A' && c[0] <= 'Z')) {
        assert(link@.take(1)[0] == c@[0]);
        return None;
    }
    proof {
        assert(link@.take(k as int).len() == k);
        if k == 1 {
            assert(link@.take(1)[0] == c@[0]);
        }
    }
    let p = from_chars(c.as_slice(), k + 1, n);
    assert(p@ =~= link@.skip(k + 1));
    Some(p)
}

/// `s` without its trailing `/` characters.
pub open spec fn trim_trailing_slashes(s: Seq<char>) -> Seq<char>
    decreases s.len(),
{
    if s.len() > 0 && s.last() == '/' {
        trim_trailing_slashes(s.drop_last())
    } else {
        s
    }
}

/// What follows the last `/` of `s` (all of `s` when it has none).
pub open spec fn last_segment(s: Seq<char>) -> Seq<char>
    decreases s.len(),
{
    if s.len() == 0 {
        s
    } else if s.last() == '/' {
        Seq::empty()
    } else {
        last_segment(s.drop_last()).push(s.last())
    }
}

/// Whether `s` ends with `.git`.
pub open spec fn ends_with_dot_git(s: Seq<char>) -> bool {
    s.len() >= 4 && s.skip(s.len() - 4) == seq!['.', 'g', 'i', 't']
}

/// The repository name a link's path gives: its last non-empty segment with
/// one trailing `.git` removed; None when there is no such segment or the
/// name left is empty.
pub open spec fn repo_name_of_path(path: Seq<char>) -> Option<Seq<char>> {
    let t = trim_trailing_slashes(path);
    if t.len() == 0 {
        None
    } else {
        let seg = last_segment(t);
        let name = if ends_with_dot_git(seg) {
            seg.take(seg.len() - 4)
        } else {
            seg
        };
        if name.len() == 0 {
            None
        } else {
            Some(name)
        }
    }
}

proof fn lemma_last_segment_is_suffix(s: Seq<char>)
    ensures
        last_segment(s).len() <= s.len(),
        last_segment(s) == s.skip(s.len() - last_segment(s).len()),
        forall|i: int| 0 <= i < last_segment(s).len() ==> last_segment(s)[i] != '/',
        last_segment(s).len() < s.len() ==> s[s.len() - last_segment(s).len() - 1] == '/',
    decreases s.len(),
{
    if s.len() > 0 && s.last() != '/' {
        let init = s.drop_last();
        lemma_last_segment_is_suffix(init);
        let ls = last_segment(init);
        assert(last_segment(s) == ls.push(s.last()));
        assert(s.skip(s.len() - ls.len() - 1) =~= init.skip(init.len() - ls.len()).push(s.last()));
        assert forall|i: int| 0 <= i < last_segment(s).len() implies last_segment(s)[i] != '/' by {
            if i < ls.len() {
                assert(last_segment(s)[i] == ls[i]);
            }
        }
        if ls.len() < init.len() {
            assert(s[s.len() - ls.len() - 2] == init[init.len() - ls.len() - 1]);
        }
    } else if s.len() > 0 {
        assert(s.skip(s.len() as int) =~= Seq::<char>::empty());
    } else {
        assert(s.skip(0) =~= s);
    }
}

/// The end of `c` without its trailing `/` characters.
fn trailing_slash_start(c: &Vec<char>) -> (end: usize)
    ensures
        end <= c@.len(),
        trim_trailing_slashes(c@) == c@.take(end as int),
{
    let mut end: usize = c.len();
    assert(c@.take(c@.len() as int) =~= c@);
    while end > 0 && c[end - 1] == '/'
        invariant
            end <= c@.len(),
            trim_trailing_slashes(c@) == trim_trailing_slashes(c@.take(end as int)),
        decreases end,
    {
        assert(c@.take(end as int).drop_last() =~= c@.take(end - 1));
        end = end - 1;
    }
    end
}

/// The start of the last segment of `c[..end]`.
fn last_segment_start(c: &Vec<char>, end: usize) -> (start: usize)
    requires
        end <= c@.len(),
    ensures
        start <= end,
        last_segment(c@.take(end as int)) == c@.subrange(start as int, end as int),
{
    let ghost t = c@.take(end as int);
    let mut start: usize = end;
    assert(c@.subrange(end as int, end as int) =~= Seq::<char>::empty());
    assert(c@.take(end as int) + Seq::<char>::empty() =~= c@.take(end as int));
    while start > 0 && c[start - 1] != '/'
        invariant
            start <= end <= c@.len(),
            t == c@.take(end as int),
            last_segment(t) == last_segment(c@.take(start as int)) + c@.subrange(start as int, end as int),
        decreases start,
    {
        proof {
            let u = c@.take(start as int);
            assert(u.drop_last() =~= c@.take(start - 1));
            assert(u.last() == c@[start - 1]);
            assert(last_segment(u) == last_segment(c@.take(start - 1)).push(c@[start - 1]));
            assert(last_segment(c@.take(start - 1)).push(c@[start - 1]) + c@.subrange(start as int, end as int)
                =~= last_segment(c@.take(start - 1)) + c@.subrange(start - 1, end as int));
        }
        start = start - 1;
    }
    proof {
        let u = c@.take(start as int);
        if start > 0 {
            assert(u.last() == '/');
        }
        assert(last_segment(u) =~= Seq::<char>::empty());
        assert(Seq::<char>::empty() + c@.subrange(start as int, end as int) =~= c@.subrange(start as int, end as int));
    }
    start
}

/// Whether `c[start..end]` ends with `.git`.
fn segment_ends_with_dot_git(c: &Vec<char>, start: usize, end: usize) -> (r: bool)
    requires
        start <= end <= c@.len(),
    ensures
        r == ends_with_dot_git(c@.subrange(start as int, end as int)),
{
    let ghost seg = c@.subrange(start as int, end as int);
    if end - start >= 4 && c[end - 4] == '.' && c[end - 3] == 'g' && c[end - 2] == 'i' && c[end - 1] == 't' {
        assert(seg.skip(seg.len() - 4) =~= seq!['.', 'g', 'i', 't']);
        true
    } else {
        proof {
            if seg.len() >= 4 && seg.skip(seg.len() - 4) == seq!['.', 'g', 'i', 't'] {
                assert(seg.skip(seg.len() - 4)[0] == c@[end - 4]);
                assert(seg.skip(seg.len() - 4)[1] == c@[end - 3]);
                assert(seg.skip(seg.len() - 4)[2] == c@[end - 2]);
                assert(seg.skip(seg.len() - 4)[3] == c@[end - 1]);
            }
        }
        false
    }
}

/// The repository name in the path of a link: the last non-empty path
/// segment with any trailing `.git` removed.
pub fn repo_name_from_path(path: &str) -> (r: Option<String>)
    ensures
        match r {
            Some(name) => repo_name_of_path(path@) == Some(name@),
            None => repo_name_of_path(path@) is None,
        },
{
    let c = to_chars(path);
    let end = trailing_slash_start(&c);
    if end == 0 {
        assert(c@.take(0) =~= Seq::<char>::empty());
        return None;
    }
    let start = last_segment_start(&c, end);
    let dot_git = segment_ends_with_dot_git(&c, start, end);
    let name_end = if dot_git {
        end - 4
    } else {
        end
    };
    if name_end == start {
        return None;
    }
    let name = from_chars(c.as_slice(), start, name_end);
    proof {
        let seg = c@.subrange(start as int, end as int);
        if dot_git {
            assert(name@ =~= seg.take(seg.len() - 4));
        } else {
            assert(name@ =~= seg);
        }
    }
    Some(name)
}

/// Whether the url crate parses `link` as a URL (`Url::parse`).
pub uninterp spec fn url_parses(link: Seq<char>) -> bool;

/// The path (`Url::path`) of the URL the url crate parses from `link`.
pub uninterp spec fn url_path(link: Seq<char>) -> Seq<char>;

#[verifier::external_type_specification]
#[verifier::external_body]
pub struct ExUrl(url::Url);

#[verifier::external_type_specification]
#[verifier::external_body]
pub struct ExUrlParseError(url::ParseError);

/// A URL parsed from a link, with the link it was parsed from.
pub struct ParsedLink {
    url: url::Url,
    link: Ghost<Seq<char>>,
}

impl ParsedLink {
    /// The link this URL was parsed from.
    pub closed spec fn link(&self) -> Seq<char> {
        self.link@
    }
}

/// `url::Url::parse`: a URL when the url crate accepts the link, the
/// parser's error otherwise.
#[verifier::external_body]
fn parse_url(link: &str) -> (r: Result<ParsedLink, url::ParseError>)
    ensures
        r is Ok <==> url_parses(link@),
        r matches Ok(p) ==> p.link() == link@,
{
    match url::Url::parse(link) {
        Ok(url) => Ok(ParsedLink { url, link: Ghost(link@) }),
        Err(e) => Err(e),
    }
}

/// `Url::path`: the path of a parsed URL.
#[verifier::external_body]
fn url_path_of(p: &ParsedLink) -> (s: String)
    ensures
        s@ == url_path(p.link()),
{
    p.url.path().to_string()
}

/// The text of a URL parse error (its `Display`).
#[verifier::external_body]
fn url_error_text(e: &url::ParseError) -> String {
    e.to_string()
}

/// Why a repository link was refused.
#[derive(Debug)]
pub enum RepoLinkError {
    /// The link is empty (or whitespace only).
    Empty,
    /// The link is neither an scp-style SSH reference nor a URL.
    InvalidLink { link: String, detail: String },
    /// No repository name could be extracted from the link.
    NoName { link: String },
}

impl RepoLinkError {
    /// The error's message.
    pub fn message(&self) -> (s: String)
        ensures
            s@ == match *self {
                RepoLinkError::Empty => "repository link is empty"@,
                RepoLinkError::InvalidLink { link, detail } => "invalid repository link: "@ + link@ + ": "@ + detail@,
                RepoLinkError::NoName { link } => "could not extract repo name from "@ + link@,
            },
    {
        let mut s = String::new();
        assert(s@ =~= Seq::<char>::empty());
        match self {
            RepoLinkError::Empty => {
                s.append("repository link is empty");
                assert(s@ =~= "repository link is empty"@);
            },
            RepoLinkError::InvalidLink { link, detail } => {
                s.append("invalid repository link: ");
                s.append(link.as_str());
                s.append(": ");
                s.append(detail.as_str());
                assert(s@ =~= "invalid repository link: "@ + link@ + ": "@ + detail@);
            },
            RepoLinkError::NoName { link } => {
                s.append("could not extract repo name from ");
                s.append(link.as_str());
                assert(s@ =~= "could not extract repo name from "@ + link@);
            },
        }
        s
    }
}

/// The path a trimmed link gives: its scp-style path, or else its URL path.
pub open spec fn link_path(trimmed_link: Seq<char>) -> Option<Seq<char>> {
    match ssh_style_path(trimmed_link) {
        Some(p) => Some(p),
        None => if url_parses(trimmed_link) {
            Some(url_path(trimmed_link))
        } else {
            None
        },
    }
}

/// Parse a repository link and extract a name for it.
///
/// Accepts both standard URLs (`https://github.com/org/repo.git`) and SSH
/// refs (`git@github.com:org/repo.git`). Returns the trimmed link and the
/// repo name (last path segment with any trailing `.git` removed).
pub fn parse_repo_link(link: &str) -> (r: Result<(String, String), RepoLinkError>)
    ensures
        trimmed(link@).len() == 0 ==> r matches Err(RepoLinkError::Empty),
        trimmed(link@).len() > 0 ==> match link_path(trimmed(link@)) {
            None => r matches Err(RepoLinkError::InvalidLink { link: l, .. }) && l@ == trimmed(link@),
            Some(path) => match repo_name_of_path(path) {
                None => r matches Err(RepoLinkError::NoName { link: l }) && l@ == trimmed(link@),
                Some(name) => r matches Ok((l, n)) && l@ == trimmed(link@) && n@ == name,
            },
        },
{
    let t = trim(link);
    if t.as_str().is_empty() {
        return Err(RepoLinkError::Empty);
    }
    let path = match parse_ssh_style_path(t.as_str()) {
        Some(p) => p,
        None => match parse_url(t.as_str()) {
            Ok(u) => url_path_of(&u),
            Err(e) => {
                return Err(RepoLinkError::InvalidLink { link: t.clone(), detail: url_error_text(&e) });
            },
        },
    };
    match repo_name_from_path(path.as_str()) {
        Some(name) => Ok((t, name)),
        None => Err(RepoLinkError::NoName { link: t }),
    }
}

/// Law: a repository name is never empty and never holds a `/`.
pub proof fn law_repo_name_is_plain(path: Seq<char>)
    requires
        repo_name_of_path(path) is Some,
    ensures
        repo_name_of_path(path)->Some_0.len() > 0,
        forall|i: int| 0 <= i < repo_name_of_path(path)->Some_0.len() ==> repo_name_of_path(path)->Some_0[i] != '/',
{
    let t = trim_trailing_slashes(path);
    lemma_last_segment_is_suffix(t);
    let seg = last_segment(t);
    let name = repo_name_of_path(path)->Some_0;
    assert forall|i: int| 0 <= i < name.len() implies name[i] != '/' by {
        assert(name[i] == seg[i]);
    }
}

} // verus!
