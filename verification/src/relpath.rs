//! Relative paths inside an embedded folder, as sequences of component names,
//! and the forward-slash keys under which files are recorded.
//!
//! Paths are stored with forward slashes regardless of host OS so manifests
//! stay portable. Relative paths sort the way `PathBuf` sorts them: component
//! by component.
use vstd::prelude::*;
use crate::order::{chars_lt, lemma_chars_lt_irreflexive, lemma_chars_lt_asymmetric,
    lemma_chars_lt_transitive, lemma_chars_lt_total, chars_less};
use crate::text::{push_char, to_chars, from_chars};

verus! {

/// A path relative to some root: its component names, first to last.
pub type RelPath = Vec<String>;

/// The component names of a relative path, by their characters.
pub open spec fn rel_view(p: RelPath) -> Seq<Seq<char>> {
    p@.map_values(|s: String| s@)
}

// ---------------------------------------------------------------------------
// Keys
// ---------------------------------------------------------------------------

/// The key of a path: its component names joined by `/`.
pub open spec fn join_key(parts: Seq<Seq<char>>) -> Seq<char>
    decreases parts.len(),
{
    if parts.len() == 0 {
        Seq::<char>::empty()
    } else if parts.len() == 1 {
        parts[0]
    } else {
        join_key(parts.drop_last()) + seq!['/'] + parts.last()
    }
}

/// One step of reading a key left to right: the parts completed so far and
/// the part being read.
pub open spec fn key_step(state: (Seq<Seq<char>>, Seq<char>), c: char) -> (Seq<Seq<char>>, Seq<char>) {
    if c == '/' {
        (if state.1.len() > 0 {
            state.0.push(state.1)
        } else {
            state.0
        }, Seq::<char>::empty())
    } else {
        (state.0, state.1.push(c))
    }
}

/// The state after reading all of `k`.
pub open spec fn key_scan(k: Seq<char>) -> (Seq<Seq<char>>, Seq<char>)
    decreases k.len(),
{
    if k.len() == 0 {
        (Seq::<Seq<char>>::empty(), Seq::<char>::empty())
    } else {
        key_step(key_scan(k.drop_last()), k.last())
    }
}

/// The non-empty `/`-separated parts of a key, in order.
pub open spec fn key_parts(k: Seq<char>) -> Seq<Seq<char>> {
    let s = key_scan(k);
    if s.1.len() > 0 {
        s.0.push(s.1)
    } else {
        s.0
    }
}

/// Whether `name` can be one component of a key: non-empty and free of `/`.
pub open spec fn is_plain_name(name: Seq<char>) -> bool {
    name.len() > 0 && forall|i: int| 0 <= i < name.len() ==> name[i] != '/'
}

/// Convert a relative path to the string key used in the manifest.
pub fn path_to_key(relative: &[String]) -> (key: String)
    ensures
        key@ == join_key(relative@.map_values(|s: String| s@)),
{
    let ghost parts = relative@.map_values(|s: String| s@);
    let mut key = String::new();
    let mut i: usize = 0;
    while i < relative.len()
        invariant
            i <= relative@.len(),
            parts == relative@.map_values(|s: String| s@),
            key@ == join_key(parts.take(i as int)),
        decreases relative.len() - i,
    {
        let ghost before = key@;
        if i > 0 {
            push_char(&mut key, '/');
        }
        key.append(relative[i].as_str());
        proof {
            let t = parts.take(i + 1);
            assert(t.drop_last() =~= parts.take(i as int));
            assert(t.last() == relative@[i as int]@);
            if i == 0 {
                assert(before =~= Seq::<char>::empty());
                assert(key@ =~= t[0]);
            } else {
                assert(key@ =~= before + seq!['/'] + t.last());
            }
        }
        i = i + 1;
    }
    assert(parts.take(relative@.len() as int) =~= parts);
    key
}

/// Split a key into its path components (the non-empty `/`-separated parts).
pub fn key_to_path(key: &str) -> (parts: RelPath)
    ensures
        rel_view(parts) == key_parts(key@),
{
    let chars = to_chars(key);
    let mut done: Vec<String> = Vec::new();
    let mut start: usize = 0;
    let mut i: usize = 0;
    assert(chars@.take(0) =~= Seq::<char>::empty());
    while i < chars.len()
        invariant
            start <= i <= chars@.len(),
            chars@ == key@,
            rel_view(done) == key_scan(chars@.take(i as int)).0,
            chars@.subrange(start as int, i as int) == key_scan(chars@.take(i as int)).1,
        decreases chars.len() - i,
    {
        let ghost prev = chars@.take(i as int);
        assert(chars@.take(i + 1).drop_last() =~= prev);
        if chars[i] == '/' {
            if start < i {
                let part = from_chars(chars.as_slice(), start, i);
                done.push(part);
                assert(rel_view(done) =~= key_scan(prev).0.push(key_scan(prev).1));
            }
            start = i + 1;
            assert(chars@.subrange(start as int, i + 1) =~= Seq::<char>::empty());
        } else {
            assert(chars@.subrange(start as int, i + 1) =~= chars@.subrange(start as int, i as int).push(
                chars@[i as int],
            ));
        }
        i = i + 1;
    }
    assert(chars@.take(chars@.len() as int) =~= chars@);
    if start < chars.len() {
        let part = from_chars(chars.as_slice(), start, chars.len());
        done.push(part);
        assert(rel_view(done) =~= key_scan(chars@).0.push(key_scan(chars@).1));
    }
    done
}

/// Reading a run of characters without `/` extends the part being read.
proof fn lemma_scan_plain_suffix(s: Seq<char>, t: Seq<char>)
    requires
        forall|i: int| 0 <= i < t.len() ==> t[i] != '/',
    ensures
        key_scan(s + t) == (key_scan(s).0, key_scan(s).1 + t),
    decreases t.len(),
{
    if t.len() == 0 {
        assert(s + t =~= s);
        assert(key_scan(s).1 + t =~= key_scan(s).1);
    } else {
        let t0 = t.drop_last();
        lemma_scan_plain_suffix(s, t0);
        assert((s + t).drop_last() =~= s + t0);
        assert((s + t).last() == t.last());
        assert(key_scan(s).1 + t0 + seq![t.last()] =~= key_scan(s).1 + t);
    }
}

/// Law: reading back the key of a path whose names are non-empty and free of
/// `/` gives the path itself.
pub proof fn law_key_round_trip(parts: Seq<Seq<char>>)
    requires
        forall|i: int| 0 <= i < parts.len() ==> is_plain_name(#[trigger] parts[i]),
    ensures
        key_parts(join_key(parts)) == parts,
{
    if parts.len() > 0 {
        lemma_scan_join(parts);
        assert(parts.drop_last().push(parts.last()) =~= parts);
    } else {
        assert(key_scan(Seq::<char>::empty()).1.len() == 0);
    }
}

/// Whether every `/`-separated segment of `k` is non-empty: `k` is not
/// empty, does not start or end with `/`, and holds no `//`.
pub open spec fn segments_nonempty(k: Seq<char>) -> bool {
    &&& k.len() > 0
    &&& k[0] != '/'
    &&& k.last() != '/'
    &&& forall|i: int| 0 <= i < k.len() - 1 ==> !(k[i] == '/' && #[trigger] k[i + 1] == '/')
}

/// The key of parts with one more part.
proof fn lemma_join_push(parts: Seq<Seq<char>>, x: Seq<char>)
    ensures
        join_key(parts.push(x)) == if parts.len() == 0 {
            x
        } else {
            join_key(parts) + seq!['/'] + x
        },
{
    assert(parts.push(x).drop_last() =~= parts);
}

/// Reading a key that does not start with `/` and holds no `//`: where the
/// key does not end with `/`, the parts read so far and the part being read
/// join back to it; where it does, the completed parts and a `/` do.
proof fn lemma_scan_rejoins(k: Seq<char>)
    requires
        k.len() > 0 ==> k[0] != '/',
        forall|i: int| 0 <= i < k.len() - 1 ==> !(k[i] == '/' && #[trigger] k[i + 1] == '/'),
    ensures
        k.len() == 0 ==> key_scan(k).0.len() == 0 && key_scan(k).1.len() == 0,
        k.len() > 0 && k.last() != '/' ==> key_scan(k).1.len() > 0 && join_key(key_scan(k).0.push(key_scan(k).1)) == k,
        k.len() > 0 && k.last() == '/' ==> key_scan(k).1.len() == 0 && key_scan(k).0.len() > 0 && join_key(key_scan(k).0)
            + seq!['/'] == k,
    decreases k.len(),
{
    if k.len() > 0 {
        let init = k.drop_last();
        let c = k.last();
        assert forall|i: int| 0 <= i < init.len() - 1 implies !(init[i] == '/' && #[trigger] init[i + 1] == '/') by {
            assert(init[i] == k[i] && init[i + 1] == k[i + 1]);
        }
        if init.len() > 0 {
            assert(init[0] == k[0]);
        }
        lemma_scan_rejoins(init);
        let (ps, cur) = key_scan(init);
        assert(init.push(c) =~= k);
        if c != '/' {
            lemma_join_push(ps, cur.push(c));
            if init.len() == 0 {
                assert(cur.push(c) =~= k);
            } else if init.last() != '/' {
                lemma_join_push(ps, cur);
                assert(join_key(ps.push(cur.push(c))) =~= join_key(ps.push(cur)).push(c));
            } else {
                assert(cur.push(c) =~= seq![c]);
                assert(join_key(ps.push(cur.push(c))) =~= (join_key(ps) + seq!['/']).push(c));
            }
        } else {
            if init.len() == 0 {
                assert(k[0] == c);
            } else if init.last() == '/' {
                assert(k[init.len() - 1] == '/' && k[init.len() as int] == '/');
            } else {
                assert(join_key(ps.push(cur)) + seq!['/'] =~= k);
            }
        }
    }
}

/// Law: splitting a key whose segments are all non-empty and joining the
/// parts back with `/` gives the key (`path_to_key(key_to_path(k)) == k`).
pub proof fn law_key_parts_rejoin(k: Seq<char>)
    requires
        segments_nonempty(k),
    ensures
        join_key(key_parts(k)) == k,
{
    lemma_scan_rejoins(k);
}

/// Reading the key of a non-empty path completes all parts but the last and
/// is in the middle of reading the last.
proof fn lemma_scan_join(parts: Seq<Seq<char>>)
    requires
        parts.len() > 0,
        forall|i: int| 0 <= i < parts.len() ==> is_plain_name(#[trigger] parts[i]),
    ensures
        key_scan(join_key(parts)) == (parts.drop_last(), parts.last()),
    decreases parts.len(),
{
    let last = parts.last();
    assert(is_plain_name(parts[parts.len() - 1]));
    if parts.len() == 1 {
        lemma_scan_plain_suffix(Seq::<char>::empty(), last);
        assert(Seq::<char>::empty() + last =~= last);
        assert(Seq::<char>::empty() + last =~= last);
        assert(parts.drop_last() =~= Seq::<Seq<char>>::empty());
    } else {
        let init = parts.drop_last();
        assert forall|i: int| 0 <= i < init.len() implies is_plain_name(#[trigger] init[i]) by {
            assert(init[i] == parts[i]);
        }
        lemma_scan_join(init);
        let prefix = join_key(init) + seq!['/'];
        assert(prefix.drop_last() =~= join_key(init));
        assert(key_scan(prefix) == (init.drop_last().push(init.last()), Seq::<char>::empty()));
        assert(init.drop_last().push(init.last()) =~= init);
        lemma_scan_plain_suffix(prefix, last);
        assert(Seq::<char>::empty() + last =~= last);
    }
}

// ---------------------------------------------------------------------------
// Order
// ---------------------------------------------------------------------------

/// Strict component-wise lexicographic order on paths (`PathBuf`'s `<` on
/// paths made of plain names).
pub open spec fn path_lt(a: Seq<Seq<char>>, b: Seq<Seq<char>>) -> bool
    decreases a.len(),
{
    if a.len() == 0 {
        b.len() > 0
    } else if b.len() == 0 {
        false
    } else if chars_lt(a[0], b[0]) {
        true
    } else if a[0] == b[0] {
        path_lt(a.drop_first(), b.drop_first())
    } else {
        false
    }
}

/// `path_lt` is irreflexive.
pub proof fn lemma_path_lt_irreflexive(a: Seq<Seq<char>>)
    ensures
        !path_lt(a, a),
    decreases a.len(),
{
    if a.len() > 0 {
        lemma_chars_lt_irreflexive(a[0]);
        lemma_path_lt_irreflexive(a.drop_first());
    }
}

/// `path_lt` is transitive.
pub proof fn lemma_path_lt_transitive(a: Seq<Seq<char>>, b: Seq<Seq<char>>, c: Seq<Seq<char>>)
    requires
        path_lt(a, b),
        path_lt(b, c),
    ensures
        path_lt(a, c),
    decreases a.len(),
{
    if a.len() > 0 && b.len() > 0 && c.len() > 0 {
        if chars_lt(a[0], b[0]) {
            if chars_lt(b[0], c[0]) {
                lemma_chars_lt_transitive(a[0], b[0], c[0]);
            }
        } else if chars_lt(b[0], c[0]) {
        } else {
            lemma_path_lt_transitive(a.drop_first(), b.drop_first(), c.drop_first());
        }
    }
}

/// `path_lt` is total on distinct paths.
pub proof fn lemma_path_lt_total(a: Seq<Seq<char>>, b: Seq<Seq<char>>)
    requires
        a != b,
    ensures
        path_lt(a, b) || path_lt(b, a),
    decreases a.len(),
{
    if a.len() == 0 {
        if b.len() == 0 {
            assert(a =~= b);
        }
    } else if b.len() > 0 {
        if a[0] == b[0] {
            if a.drop_first() == b.drop_first() {
                assert(a =~= seq![a[0]] + a.drop_first());
                assert(b =~= seq![b[0]] + b.drop_first());
            }
            lemma_path_lt_total(a.drop_first(), b.drop_first());
        } else {
            lemma_chars_lt_total(a[0], b[0]);
        }
    }
}

/// Whether `a` sorts strictly before `b`.
pub fn path_less(a: &RelPath, b: &RelPath) -> (r: bool)
    ensures
        r == path_lt(rel_view(*a), rel_view(*b)),
{
    let ghost va = rel_view(*a);
    let ghost vb = rel_view(*b);
    let mut i: usize = 0;
    assert(va.skip(0) =~= va && vb.skip(0) =~= vb);
    while i < a.len() && i < b.len()
        invariant
            i <= a@.len(),
            i <= b@.len(),
            va == rel_view(*a),
            vb == rel_view(*b),
            path_lt(va, vb) == path_lt(va.skip(i as int), vb.skip(i as int)),
        decreases a.len() - i,
    {
        let x = to_chars(a[i].as_str());
        let y = to_chars(b[i].as_str());
        assert(va.skip(i as int)[0] == x@ && vb.skip(i as int)[0] == y@);
        if chars_less(x.as_slice(), y.as_slice()) {
            return true;
        }
        if chars_less(y.as_slice(), x.as_slice()) {
            proof {
                lemma_chars_lt_asymmetric(y@, x@);
            }
            return false;
        }
        proof {
            if x@ != y@ {
                lemma_chars_lt_total(x@, y@);
            }
        }
        assert(va.skip(i as int).drop_first() =~= va.skip(i + 1));
        assert(vb.skip(i as int).drop_first() =~= vb.skip(i + 1));
        i = i + 1;
    }
    i < b.len()
}

/// Whether `s` is in non-decreasing path order.
pub open spec fn paths_sorted(s: Seq<RelPath>) -> bool {
    forall|i: int, j: int| 0 <= i < j < s.len() ==> !path_lt(rel_view(#[trigger] s[j]), rel_view(
        #[trigger] s[i],
    ))
}

/// `path_lt` is asymmetric.
pub proof fn lemma_path_lt_asymmetric(a: Seq<Seq<char>>, b: Seq<Seq<char>>)
    requires
        path_lt(a, b),
    ensures
        !path_lt(b, a),
{
    if path_lt(b, a) {
        lemma_path_lt_transitive(a, b, a);
        lemma_path_lt_irreflexive(a);
    }
}

/// Sort relative paths the way `Vec<PathBuf>::sort` does.
pub fn sort_paths(paths: Vec<RelPath>) -> (sorted: Vec<RelPath>)
    ensures
        paths_sorted(sorted@),
        sorted@.to_multiset() == paths@.to_multiset(),
{
    broadcast use vstd::multiset::group_multiset_axioms, vstd::seq_lib::group_to_multiset_ensures;
    let mut out: Vec<RelPath> = Vec::new();
    let mut rest = paths;
    let ghost given = rest@;
    assert(out@.to_multiset() =~= vstd::multiset::Multiset::empty());
    assert(out@.to_multiset().add(rest@.to_multiset()) =~= given.to_multiset());
    // Insertion sort: take items off the end of `rest` and insert each into
    // the sorted `out`.
    while rest.len() > 0
        invariant
            paths_sorted(out@),
            out@.to_multiset().add(rest@.to_multiset()) == given.to_multiset(),
        decreases rest.len(),
    {
        let ghost rest_before = rest@;
        let item = rest.pop().unwrap();
        proof {
            assert(rest_before =~= rest@.push(item));
            vstd::seq_lib::to_multiset_build(rest@, item);
        }
        let ghost before = out@;
        let mut pos: usize = out.len();
        while pos > 0 && path_less(&item, &out[pos - 1])
            invariant
                pos <= out@.len(),
                out@ == before,
                forall|j: int| pos <= j < before.len() ==> path_lt(rel_view(item), rel_view(
                    #[trigger] before[j],
                )),
            decreases pos,
        {
            pos = pos - 1;
        }
        out.insert(pos, item);
        proof {
            let after = out@;
            assert(after =~= before.insert(pos as int, item));
            vstd::seq_lib::to_multiset_insert(before, pos as int, item);
            assert forall|i: int, j: int| 0 <= i < j < after.len() implies !path_lt(
                rel_view(#[trigger] after[j]),
                rel_view(#[trigger] after[i]),
            ) by {
                if j < pos {
                    assert(after[i] == before[i] && after[j] == before[j]);
                } else if j == pos {
                    assert(after[i] == before[i]);
                    assert(!path_lt(rel_view(item), rel_view(before[pos - 1])));
                    if i < pos - 1 {
                        assert(!path_lt(rel_view(before[pos - 1]), rel_view(before[i])));
                        if path_lt(rel_view(item), rel_view(before[i])) {
                            if rel_view(before[pos - 1]) != rel_view(before[i]) {
                                lemma_path_lt_total(rel_view(before[pos - 1]), rel_view(before[i]));
                                lemma_path_lt_transitive(rel_view(item), rel_view(before[i]), rel_view(before[pos - 1]));
                            }
                        }
                    }
                } else if i < pos {
                    assert(after[i] == before[i] && after[j] == before[j - 1]);
                } else if i == pos {
                    assert(after[j] == before[j - 1]);
                    lemma_path_lt_asymmetric(rel_view(item), rel_view(before[j - 1]));
                } else {
                    assert(after[i] == before[i - 1] && after[j] == before[j - 1]);
                }
            }
        }
    }
    proof {
        assert(rest@ =~= Seq::<RelPath>::empty());
        assert(rest@.to_multiset() =~= vstd::multiset::Multiset::empty());
        assert(out@.to_multiset().add(vstd::multiset::Multiset::empty()) =~= out@.to_multiset());
    }
    out
}

} // verus!
