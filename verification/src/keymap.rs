//! An ordered map from string keys to values, kept as a vector of pairs in
//! strictly increasing key order: like a `BTreeMap<String, _>`, it iterates
//! in byte-wise key order and holds each key at most once.
use vstd::prelude::*;
use crate::order::{chars_lt, lemma_chars_lt_irreflexive, lemma_chars_lt_transitive,
    lemma_chars_lt_total, str_less};

verus! {

/// Whether the keys of `p` increase strictly.
pub open spec fn keys_increasing<T>(p: Seq<(Seq<char>, T)>) -> bool {
    forall|i: int, j: int| 0 <= i < j < p.len() ==> chars_lt(#[trigger] p[i].0, #[trigger] p[j].0)
}

/// Whether some pair of `p` has key `k`.
pub open spec fn pairs_have_key<T>(p: Seq<(Seq<char>, T)>, k: Seq<char>) -> bool {
    exists|i: int| 0 <= i < p.len() && #[trigger] p[i].0 == k
}

/// The map that the pairs `p` stand for.
pub open spec fn pairs_map<T>(p: Seq<(Seq<char>, T)>) -> Map<Seq<char>, T> {
    Map::new(
        |k: Seq<char>| pairs_have_key(p, k),
        |k: Seq<char>| p[pair_index(p, k)].1,
    )
}

/// A position of `p` whose key is `k`, when there is one.
pub open spec fn pair_index<T>(p: Seq<(Seq<char>, T)>, k: Seq<char>) -> int {
    choose|i: int| 0 <= i < p.len() && #[trigger] p[i].0 == k
}

/// In a strictly increasing sequence, distinct positions hold distinct keys.
pub proof fn lemma_keys_distinct<T>(p: Seq<(Seq<char>, T)>, i: int, j: int)
    requires
        keys_increasing(p),
        0 <= i < p.len(),
        0 <= j < p.len(),
        i != j,
    ensures
        p[i].0 != p[j].0,
{
    if i < j {
        assert(chars_lt(p[i].0, p[j].0));
        lemma_chars_lt_irreflexive(p[i].0);
    } else {
        assert(chars_lt(p[j].0, p[i].0));
        lemma_chars_lt_irreflexive(p[j].0);
    }
}

/// The map of strictly increasing pairs maps each key to the value beside it.
pub proof fn lemma_pairs_map_at<T>(p: Seq<(Seq<char>, T)>, i: int)
    requires
        keys_increasing(p),
        0 <= i < p.len(),
    ensures
        pairs_map(p).contains_key(p[i].0),
        pairs_map(p)[p[i].0] == p[i].1,
{
    let k = p[i].0;
    assert(pairs_have_key(p, k));
    let j = pair_index(p, k);
    if j != i {
        lemma_keys_distinct(p, i, j);
    }
}

/// Ordered map from string keys to values.
pub struct KeyMap<T> {
    entries: Vec<(String, T)>,
}

impl<T> KeyMap<T> {
    /// The pairs, keys by their characters, in increasing key order.
    pub closed spec fn pairs(&self) -> Seq<(Seq<char>, T)> {
        self.entries@.map_values(|e: (String, T)| (e.0@, e.1))
    }

    /// The invariant: keys increase strictly.
    pub open spec fn wf(&self) -> bool {
        keys_increasing(self.pairs())
    }

    /// The map the pairs stand for.
    pub open spec fn map(&self) -> Map<Seq<char>, T> {
        pairs_map(self.pairs())
    }

    /// An empty map.
    pub fn new() -> (m: Self)
        ensures
            m.wf(),
            m.pairs() == Seq::<(Seq<char>, T)>::empty(),
            m.map() == Map::<Seq<char>, T>::empty(),
    {
        let m = KeyMap { entries: Vec::new() };
        assert(m.pairs() =~= Seq::<(Seq<char>, T)>::empty());
        assert(m.map() =~= Map::<Seq<char>, T>::empty());
        m
    }

    /// Number of keys.
    pub fn len(&self) -> (n: usize)
        ensures
            n == self.pairs().len(),
    {
        self.entries.len()
    }

    /// The key at position `i` in key order.
    pub fn key_at(&self, i: usize) -> (k: &String)
        requires
            i < self.pairs().len(),
        ensures
            k@ == self.pairs()[i as int].0,
    {
        &self.entries[i].0
    }

    /// The value at position `i` in key order.
    pub fn value_at(&self, i: usize) -> (v: &T)
        requires
            i < self.pairs().len(),
        ensures
            *v == self.pairs()[i as int].1,
    {
        &self.entries[i].1
    }

    /// Where `key` stands: `Ok(i)` if position `i` holds it, otherwise
    /// `Err(i)` with `i` the position where it would be inserted.
    pub fn search(&self, key: &str) -> (r: Result<usize, usize>)
        requires
            self.wf(),
        ensures
            match r {
                Ok(i) => i < self.pairs().len() && self.pairs()[i as int].0 == key@,
                Err(i) => {
                    &&& i <= self.pairs().len()
                    &&& forall|j: int| 0 <= j < i ==> chars_lt(#[trigger] self.pairs()[j].0, key@)
                    &&& forall|j: int| i <= j < self.pairs().len() ==> chars_lt(
                        key@,
                        #[trigger] self.pairs()[j].0,
                    )
                },
            },
    {
        let ghost p = self.pairs();
        let mut lo: usize = 0;
        let mut hi: usize = self.entries.len();
        while lo < hi
            invariant
                p == self.pairs(),
                keys_increasing(p),
                lo <= hi <= p.len(),
                p.len() == self.entries@.len(),
                forall|j: int| 0 <= j < lo ==> chars_lt(#[trigger] p[j].0, key@),
                forall|j: int| hi <= j < p.len() ==> chars_lt(key@, #[trigger] p[j].0),
            decreases hi - lo,
        {
            let mid = lo + (hi - lo) / 2;
            let k = &self.entries[mid].0;
            assert(p[mid as int].0 == k@);
            if str_less(k.as_str(), key) {
                proof {
                    assert forall|j: int| 0 <= j < mid + 1 implies chars_lt(#[trigger] p[j].0, key@) by {
                        if j < mid {
                            assert(chars_lt(p[j].0, p[mid as int].0));
                            lemma_chars_lt_transitive(p[j].0, p[mid as int].0, key@);
                        }
                    }
                }
                lo = mid + 1;
            } else if str_less(key, k.as_str()) {
                proof {
                    assert forall|j: int| mid <= j < p.len() implies chars_lt(key@, #[trigger] p[j].0) by {
                        if j > mid {
                            assert(chars_lt(p[mid as int].0, p[j].0));
                            lemma_chars_lt_transitive(key@, p[mid as int].0, p[j].0);
                        }
                    }
                }
                hi = mid;
            } else {
                proof {
                    if k@ != key@ {
                        lemma_chars_lt_total(k@, key@);
                    }
                }
                return Ok(mid);
            }
        }
        Err(lo)
    }

    /// The value stored under `key`, if any.
    pub fn get(&self, key: &str) -> (r: Option<&T>)
        requires
            self.wf(),
        ensures
            match r {
                Some(v) => self.map().contains_key(key@) && *v == self.map()[key@],
                None => !self.map().contains_key(key@),
            },
    {
        match self.search(key) {
            Ok(i) => {
                proof {
                    lemma_pairs_map_at(self.pairs(), i as int);
                }
                Some(&self.entries[i].1)
            },
            Err(i) => {
                proof {
                    self.lemma_absent(key@, i as int);
                }
                None
            },
        }
    }

    /// Whether `key` is present.
    pub fn contains_key(&self, key: &str) -> (r: bool)
        requires
            self.wf(),
        ensures
            r == self.map().contains_key(key@),
    {
        match self.get(key) {
            Some(_) => true,
            None => false,
        }
    }

    /// Each pair stands in the map.
    pub proof fn lemma_pair_in_map(&self, i: int)
        requires
            self.wf(),
            0 <= i < self.pairs().len(),
        ensures
            self.map().contains_key(self.pairs()[i].0),
            self.map()[self.pairs()[i].0] == self.pairs()[i].1,
    {
        lemma_pairs_map_at(self.pairs(), i);
    }

    /// Each key of the map stands in some pair.
    pub proof fn lemma_key_in_pairs(&self, k: Seq<char>) -> (i: int)
        requires
            self.wf(),
            self.map().contains_key(k),
        ensures
            0 <= i < self.pairs().len(),
            self.pairs()[i].0 == k,
            self.map()[k] == self.pairs()[i].1,
    {
        let i = pair_index(self.pairs(), k);
        lemma_pairs_map_at(self.pairs(), i);
        i
    }

    proof fn lemma_absent(&self, k: Seq<char>, i: int)
        requires
            self.wf(),
            0 <= i <= self.pairs().len(),
            forall|j: int| 0 <= j < i ==> chars_lt(#[trigger] self.pairs()[j].0, k),
            forall|j: int| i <= j < self.pairs().len() ==> chars_lt(k, #[trigger] self.pairs()[j].0),
        ensures
            !self.map().contains_key(k),
    {
        let p = self.pairs();
        if pairs_have_key(p, k) {
            let j = choose|j: int| 0 <= j < p.len() && #[trigger] p[j].0 == k;
            lemma_chars_lt_irreflexive(k);
            if j < i {
                assert(chars_lt(p[j].0, k));
            } else {
                assert(chars_lt(k, p[j].0));
            }
        }
    }

    /// Store `value` under `key`, replacing any value stored there before.
    pub fn insert(&mut self, key: String, value: T)
        requires
            old(self).wf(),
        ensures
            final(self).wf(),
            final(self).map() == old(self).map().insert(key@, value),
    {
        let ghost p0 = self.pairs();
        let ghost k = key@;
        match self.search(key.as_str()) {
            Ok(i) => {
                self.entries.set(i, (key, value));
                proof {
                    let p1 = self.pairs();
                    assert(p1 =~= p0.update(i as int, (k, value)));
                    assert(keys_increasing(p1)) by {
                        assert forall|a: int, b: int| 0 <= a < b < p1.len() implies chars_lt(
                            #[trigger] p1[a].0,
                            #[trigger] p1[b].0,
                        ) by {
                            assert(p1[a].0 == p0[a].0);
                            assert(p1[b].0 == p0[b].0);
                        }
                    }
                    self.lemma_map_after_update(p0, i as int, k, value);
                }
            },
            Err(i) => {
                self.entries.insert(i, (key, value));
                proof {
                    let p1 = self.pairs();
                    assert(p1 =~= p0.insert(i as int, (k, value)));
                    assert(keys_increasing(p1)) by {
                        assert forall|a: int, b: int| 0 <= a < b < p1.len() implies chars_lt(
                            #[trigger] p1[a].0,
                            #[trigger] p1[b].0,
                        ) by {
                            if b < i {
                                assert(p1[a] == p0[a] && p1[b] == p0[b]);
                            } else if b == i {
                                assert(p1[a] == p0[a]);
                            } else if a < i {
                                assert(p1[a] == p0[a] && p1[b] == p0[b - 1]);
                                assert(chars_lt(p0[a].0, k));
                                assert(chars_lt(k, p0[b - 1].0));
                                lemma_chars_lt_transitive(p0[a].0, k, p0[b - 1].0);
                            } else if a == i {
                                assert(p1[b] == p0[b - 1]);
                            } else {
                                assert(p1[a] == p0[a - 1] && p1[b] == p0[b - 1]);
                            }
                        }
                    }
                    self.lemma_map_after_insert(p0, i as int, k, value);
                }
            },
        }
    }

    proof fn lemma_map_after_update(&self, p0: Seq<(Seq<char>, T)>, i: int, k: Seq<char>, v: T)
        requires
            keys_increasing(p0),
            0 <= i < p0.len(),
            p0[i].0 == k,
            self.pairs() == p0.update(i, (k, v)),
            keys_increasing(self.pairs()),
        ensures
            self.map() == pairs_map(p0).insert(k, v),
    {
        let p1 = self.pairs();
        assert forall|key: Seq<char>| #[trigger] pairs_have_key(p1, key) == pairs_have_key(p0, key) by {
            if pairs_have_key(p0, key) {
                let j = choose|j: int| 0 <= j < p0.len() && #[trigger] p0[j].0 == key;
                assert(p1[j].0 == key);
            }
            if pairs_have_key(p1, key) {
                let j = choose|j: int| 0 <= j < p1.len() && #[trigger] p1[j].0 == key;
                assert(p0[j].0 == key);
            }
        }
        assert forall|key: Seq<char>| pairs_have_key(p1, key) implies #[trigger] pairs_map(p1)[key]
            == pairs_map(p0).insert(k, v)[key] by {
            let j = choose|j: int| 0 <= j < p1.len() && #[trigger] p1[j].0 == key;
            lemma_pairs_map_at(p1, j);
            if j == i {
                assert(p1[j] == (k, v));
            } else {
                assert(p1[j] == p0[j]);
                lemma_keys_distinct(p0, i, j);
                lemma_pairs_map_at(p0, j);
            }
        }
        assert(pairs_have_key(p0, k)) by {
            assert(p0[i].0 == k);
        }
        assert(pairs_map(p1) =~= pairs_map(p0).insert(k, v));
    }

    proof fn lemma_map_after_insert(&self, p0: Seq<(Seq<char>, T)>, i: int, k: Seq<char>, v: T)
        requires
            keys_increasing(p0),
            0 <= i <= p0.len(),
            self.pairs() == p0.insert(i, (k, v)),
            keys_increasing(self.pairs()),
        ensures
            self.map() == pairs_map(p0).insert(k, v),
    {
        let p1 = self.pairs();
        assert(p1[i].0 == k);
        assert forall|key: Seq<char>| #[trigger] pairs_have_key(p1, key) == (pairs_have_key(p0, key)
            || key == k) by {
            if pairs_have_key(p0, key) {
                let j = choose|j: int| 0 <= j < p0.len() && #[trigger] p0[j].0 == key;
                if j < i {
                    assert(p1[j] == p0[j]);
                } else {
                    assert(p1[j + 1] == p0[j]);
                }
            }
            if pairs_have_key(p1, key) {
                let j = choose|j: int| 0 <= j < p1.len() && #[trigger] p1[j].0 == key;
                if j < i {
                    assert(p0[j] == p1[j]);
                } else if j > i {
                    assert(p0[j - 1] == p1[j]);
                }
            }
        }
        assert forall|key: Seq<char>| pairs_have_key(p1, key) implies #[trigger] pairs_map(p1)[key]
            == pairs_map(p0).insert(k, v)[key] by {
            let j = choose|j: int| 0 <= j < p1.len() && #[trigger] p1[j].0 == key;
            lemma_pairs_map_at(p1, j);
            if j == i {
            } else {
                lemma_keys_distinct(p1, i, j);
                if j < i {
                    assert(p1[j] == p0[j]);
                    lemma_pairs_map_at(p0, j);
                } else {
                    assert(p1[j] == p0[j - 1]);
                    lemma_pairs_map_at(p0, j - 1);
                }
            }
        }
        assert(pairs_map(p1) =~= pairs_map(p0).insert(k, v));
    }
}

} // verus!
