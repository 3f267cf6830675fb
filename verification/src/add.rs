//! The decisions of `embd add`: reading the comma-separated pattern
//! arguments, refusing to fill a non-empty folder, and what a failed add
//! cleans up.
use vstd::prelude::*;
use crate::git::{trimmed, trim, is_white_space};
use crate::text::{to_chars, from_chars};

verus! {

/// One step of splitting at commas: the parts completed so far and the part
/// being read.
pub open spec fn comma_step(state: (Seq<Seq<char>>, Seq<char>), c: char) -> (Seq<Seq<char>>, Seq<char>) {
    if c == ',' {
        (state.0.push(state.1), Seq::<char>::empty())
    } else {
        (state.0, state.1.push(c))
    }
}

/// The state after reading all of `s`.
pub open spec fn comma_scan(s: Seq<char>) -> (Seq<Seq<char>>, Seq<char>)
    decreases s.len(),
{
    if s.len() == 0 {
        (Seq::<Seq<char>>::empty(), Seq::<char>::empty())
    } else {
        comma_step(comma_scan(s.drop_last()), s.last())
    }
}

/// The comma-separated parts of `s` (`str::split(',')`), empty parts
/// included.
pub open spec fn comma_parts(s: Seq<char>) -> Seq<Seq<char>> {
    comma_scan(s).0.push(comma_scan(s).1)
}

/// The trimmed parts that are not empty, in order.
pub open spec fn kept_patterns(parts: Seq<Seq<char>>) -> Seq<Seq<char>>
    decreases parts.len(),
{
    if parts.len() == 0 {
        Seq::empty()
    } else {
        let prev = kept_patterns(parts.drop_last());
        let t = trimmed(parts.last());
        if t.len() > 0 {
            prev.push(t)
        } else {
            prev
        }
    }
}

/// The patterns a comma-separated argument gives.
pub open spec fn parsed_patterns(arg: Option<Seq<char>>) -> Seq<Seq<char>> {
    match arg {
        None => Seq::empty(),
        Some(s) => kept_patterns(comma_parts(s)),
    }
}

/// The patterns of a list, by their characters.
pub open spec fn strings_view(v: Seq<String>) -> Seq<Seq<char>> {
    v.map_values(|s: String| s@)
}

/// Split a comma-separated pattern argument into a list of trimmed,
/// non-empty patterns. `None` and the empty string both yield an empty list.
pub fn parse_patterns(arg: &Option<String>) -> (patterns: Vec<String>)
    ensures
        strings_view(patterns@) == parsed_patterns(match arg {
            Some(s) => Some(s@),
            None => None,
        }),
{
    let mut out: Vec<String> = Vec::new();
    let s = match arg {
        None => {
            return out;
        },
        Some(s) => s,
    };
    let c = to_chars(s.as_str());
    let ghost sv = s@;
    let mut start: usize = 0;
    let mut i: usize = 0;
    assert(c@.take(0) =~= Seq::<char>::empty());
    while i < c.len()
        invariant
            start <= i <= c@.len(),
            c@ == sv,
            strings_view(out@) == kept_patterns(comma_scan(c@.take(i as int)).0),
            c@.subrange(start as int, i as int) == comma_scan(c@.take(i as int)).1,
        decreases c.len() - i,
    {
        let ghost prev = c@.take(i as int);
        assert(c@.take(i + 1).drop_last() =~= prev);
        if c[i] == ',' {
            let part = from_chars(c.as_slice(), start, i);
            let t = trim(part.as_str());
            let ghost before = strings_view(out@);
            if !t.as_str().is_empty() {
                out.push(t);
                assert(strings_view(out@) =~= before.push(trimmed(part@)));
            }
            proof {
                let done = comma_scan(prev).0.push(comma_scan(prev).1);
                assert(done.drop_last() =~= comma_scan(prev).0);
                assert(done.last() == part@);
            }
            start = i + 1;
            assert(c@.subrange(start as int, i + 1) =~= Seq::<char>::empty());
        } else {
            assert(c@.subrange(start as int, i + 1) =~= c@.subrange(start as int, i as int).push(c@[i as int]));
        }
        i = i + 1;
    }
    assert(c@.take(c@.len() as int) =~= c@);
    let part = from_chars(c.as_slice(), start, c.len());
    let t = trim(part.as_str());
    let ghost before = strings_view(out@);
    if !t.as_str().is_empty() {
        out.push(t);
        assert(strings_view(out@) =~= before.push(trimmed(part@)));
    }
    proof {
        let parts = comma_parts(sv);
        assert(parts.drop_last() =~= comma_scan(sv).0);
        assert(parts.last() == part@);
    }
    out
}

/// Law: every parsed pattern is non-empty, holds no comma, and has no
/// surrounding whitespace.
pub proof fn law_parsed_patterns_are_clean(parts: Seq<Seq<char>>, i: int)
    requires
        0 <= i < kept_patterns(parts).len(),
    ensures
        kept_patterns(parts)[i].len() > 0,
        kept_patterns(parts)[i] == trimmed(kept_patterns(parts)[i]),
    decreases parts.len(),
{
    let prev = kept_patterns(parts.drop_last());
    let t = trimmed(parts.last());
    if i < prev.len() {
        law_parsed_patterns_are_clean(parts.drop_last(), i);
        if t.len() > 0 {
            assert(kept_patterns(parts)[i] == prev[i]);
        }
    } else {
        assert(kept_patterns(parts)[i] == t);
        crate::git::law_trim_is_idempotent(parts.last());
    }
}

/// Whether `add` refuses to fill a folder: it already existed, holds
/// something, and untracked files were not allowed.
pub fn folder_blocks_add(folder_existed: bool, folder_non_empty: bool, allow_untracked: bool) -> (r: bool)
    ensures
        r == (folder_existed && folder_non_empty && !allow_untracked),
{
    folder_existed && folder_non_empty && !allow_untracked
}

/// Whether cleaning up a failed add removes the destination folder: it does
/// unless the folder existed before and untracked files were allowed (then
/// the copied files cannot be told apart from the user's).
pub fn rollback_removes_folder(folder_existed: bool, allow_untracked: bool) -> (r: bool)
    ensures
        r == !(allow_untracked && folder_existed),
{
    !(allow_untracked && folder_existed)
}

/// Reading text without a comma completes no part.
proof fn lemma_scan_without_comma(s: Seq<char>)
    requires
        forall|i: int| 0 <= i < s.len() ==> #[trigger] s[i] != ',',
    ensures
        comma_scan(s) == (Seq::<Seq<char>>::empty(), s),
    decreases s.len(),
{
    if s.len() > 0 {
        let init = s.drop_last();
        assert forall|i: int| 0 <= i < init.len() implies #[trigger] init[i] != ',' by {
            assert(init[i] == s[i]);
        }
        lemma_scan_without_comma(init);
        assert(s[s.len() - 1] != ',');
        assert(init.push(s.last()) =~= s);
    }
}

/// Reading `p`, a comma, then `y`: the parts of `p` are complete, and the
/// rest is read as `y` alone.
proof fn lemma_scan_after_comma(p: Seq<char>, y: Seq<char>)
    ensures
        comma_scan(p + seq![','] + y) == (comma_parts(p) + comma_scan(y).0, comma_scan(y).1),
    decreases y.len(),
{
    if y.len() == 0 {
        let x = p + seq![','];
        assert(p + seq![','] + y =~= x);
        assert(x.drop_last() =~= p);
        assert(comma_parts(p) + Seq::<Seq<char>>::empty() =~= comma_parts(p));
    } else {
        let init = y.drop_last();
        lemma_scan_after_comma(p, init);
        assert((p + seq![','] + y).drop_last() =~= p + seq![','] + init);
        assert((p + seq![','] + y).last() == y.last());
        if y.last() == ',' {
            assert(comma_parts(p) + comma_scan(init).0.push(comma_scan(init).1) =~= (comma_parts(p)
                + comma_scan(init).0).push(comma_scan(init).1));
        }
    }
}

/// The kept patterns of two lists of parts, one after the other.
proof fn lemma_kept_concat(a: Seq<Seq<char>>, b: Seq<Seq<char>>)
    ensures
        kept_patterns(a + b) == kept_patterns(a) + kept_patterns(b),
    decreases b.len(),
{
    if b.len() == 0 {
        assert(a + b =~= a);
        assert(kept_patterns(a) + Seq::<Seq<char>>::empty() =~= kept_patterns(a));
    } else {
        lemma_kept_concat(a, b.drop_last());
        assert((a + b).drop_last() =~= a + b.drop_last());
        assert((a + b).last() == b.last());
        let t = trimmed(b.last());
        if t.len() > 0 {
            assert((kept_patterns(a) + kept_patterns(b.drop_last())).push(t) =~= kept_patterns(a) + kept_patterns(
                b.drop_last(),
            ).push(t));
        }
    }
}

/// Law: an argument is split at its commas and nowhere else: text holding no
/// comma gives one pattern, itself trimmed (none when that is empty).
pub proof fn law_patterns_split_only_at_commas(s: Seq<char>)
    requires
        forall|i: int| 0 <= i < s.len() ==> #[trigger] s[i] != ',',
    ensures
        parsed_patterns(Some(s)) == if trimmed(s).len() > 0 {
            seq![trimmed(s)]
        } else {
            Seq::<Seq<char>>::empty()
        },
{
    lemma_scan_without_comma(s);
    let parts = comma_parts(s);
    assert(parts =~= seq![s]);
    assert(parts.drop_last() =~= Seq::<Seq<char>>::empty());
    assert(parts.last() == s);
    assert(kept_patterns(parts.drop_last()) =~= Seq::<Seq<char>>::empty());
    if trimmed(s).len() > 0 {
        assert(Seq::<Seq<char>>::empty().push(trimmed(s)) =~= seq![trimmed(s)]);
    }
}

/// Law: a pattern without commas and without whitespace at either end comes
/// back unchanged, inner spaces included.
pub proof fn law_plain_pattern_is_kept_whole(s: Seq<char>)
    requires
        s.len() > 0,
        forall|i: int| 0 <= i < s.len() ==> #[trigger] s[i] != ',',
        !is_white_space(s[0]),
        !is_white_space(s.last()),
    ensures
        parsed_patterns(Some(s)) == seq![s],
{
    law_patterns_split_only_at_commas(s);
    assert(crate::git::leading_ws(s) == 0);
    assert(crate::git::trailing_ws(s) == 0);
    assert(trimmed(s) =~= s);
}

/// Law: the patterns of `a,b` are those of `a` followed by those of `b`.
pub proof fn law_patterns_of_joined_arguments(a: Seq<char>, b: Seq<char>)
    ensures
        parsed_patterns(Some(a + seq![','] + b)) == parsed_patterns(Some(a)) + parsed_patterns(Some(b)),
{
    lemma_scan_after_comma(a, b);
    assert(comma_parts(a + seq![','] + b) =~= comma_parts(a) + comma_parts(b));
    lemma_kept_concat(comma_parts(a), comma_parts(b));
}

} // verus!
