//! An identifier-keyed map kept as an association list with unique keys.
//!
//! The aggregator's per-metric state lives in these maps.  Entries are
//! stored in a vector, which gives the exporters a deterministic iteration
//! order; the spec-level value of a map is the `Map` it denotes.

use vstd::prelude::*;

verus! {

/// No two entries share a key.
pub open spec fn unique_keys<V>(s: Seq<(u64, V)>) -> bool {
    forall|i: int, j: int| 0 <= i < j < s.len() ==> (#[trigger] s[i]).0 != (#[trigger] s[j]).0
}

/// An id-keyed map: a vector of key/value pairs with pairwise distinct keys.
pub struct IdMap<V> {
    pub entries: Vec<(u64, V)>,
}

impl<V> IdMap<V> {
    pub open spec fn wf(&self) -> bool {
        unique_keys(self.entries@)
    }

    pub open spec fn has_key(&self, k: u64) -> bool {
        exists|i: int| 0 <= i < self.entries@.len() && (#[trigger] self.entries@[i]).0 == k
    }

    pub open spec fn index_of(&self, k: u64) -> int {
        choose|i: int| 0 <= i < self.entries@.len() && (#[trigger] self.entries@[i]).0 == k
    }

    /// The map this association list denotes.
    pub open spec fn as_map(&self) -> Map<u64, V> {
        Map::new(|k: u64| self.has_key(k), |k: u64| self.entries@[self.index_of(k)].1)
    }

    pub fn new() -> (r: Self)
        ensures
            r.wf(),
            r.entries@.len() == 0,
            r.as_map() =~= Map::<u64, V>::empty(),
    {
        IdMap { entries: Vec::new() }
    }

    pub fn len(&self) -> (n: usize)
        ensures
            n == self.entries@.len(),
    {
        self.entries.len()
    }

    pub fn is_empty(&self) -> (b: bool)
        ensures
            b == (self.entries@.len() == 0),
    {
        self.entries.len() == 0
    }

    /// Index of the entry holding `k`, if any.
    fn find(&self, k: u64) -> (r: Option<usize>)
        ensures
            match r {
                Option::Some(i) => i < self.entries@.len() && self.entries@[i as int].0 == k,
                Option::None => !self.has_key(k),
            },
    {
        let n = self.entries.len();
        let mut i: usize = 0;
        while i < n
            invariant
                i <= n,
                n == self.entries@.len(),
                forall|j: int| 0 <= j < i ==> (#[trigger] self.entries@[j]).0 != k,
            decreases n - i,
        {
            if self.entries[i].0 == k {
                return Some(i);
            }
            i += 1;
        }
        None
    }

    pub fn get(&self, k: u64) -> (r: Option<&V>)
        requires
            self.wf(),
        ensures
            match r {
                Option::Some(v) => self.as_map().contains_key(k) && *v == self.as_map()[k],
                Option::None => !self.as_map().contains_key(k),
            },
    {
        match self.find(k) {
            Option::Some(i) => {
                proof {
                    lemma_entry_lookup(*self, i as int);
                }
                Some(&self.entries[i].1)
            },
            Option::None => None,
        }
    }

    /// Inserts `v` under `k`, replacing any entry that held `k` before.
    pub fn insert(&mut self, k: u64, v: V)
        requires
            old(self).wf(),
        ensures
            final(self).wf(),
            final(self).as_map() =~= old(self).as_map().insert(k, v),
            final(self).entries@.len() <= old(self).entries@.len() + 1,
    {
        match self.find(k) {
            Option::Some(i) => {
                proof {
                    lemma_remove_keeps_unique(self.entries@, i as int);
                }
                self.entries.remove(i);
            },
            Option::None => {},
        }
        assert(!self.has_key(k)) by {
            assert forall|j: int| 0 <= j < self.entries@.len() implies (#[trigger] self.entries@[j]).0 != k by {
                if self.entries@[j].0 == k {
                    lemma_remove_key_gone(old(self).entries@, k, j);
                }
            }
        }
        let ghost pre = *self;
        self.entries.push((k, v));
        proof {
            lemma_push_fresh(pre, k, v, *self);
            assert(final(self).as_map() =~= old(self).as_map().insert(k, v)) by {
                lemma_map_after_edit(*old(self), pre, k, *self);
            }
        }
    }

    /// Removes the entry under `k`, returning its value.
    pub fn remove(&mut self, k: u64) -> (r: Option<V>)
        requires
            old(self).wf(),
        ensures
            final(self).wf(),
            final(self).as_map() =~= old(self).as_map().remove(k),
            match r {
                Option::Some(v) => old(self).as_map().contains_key(k) && v == old(self).as_map()[k],
                Option::None => !old(self).as_map().contains_key(k) && *final(self) == *old(self),
            },
    {
        match self.find(k) {
            Option::Some(i) => {
                proof {
                    lemma_entry_lookup(*self, i as int);
                    lemma_remove_keeps_unique(self.entries@, i as int);
                }
                let pair = self.entries.remove(i);
                proof {
                    assert(!self.has_key(k)) by {
                        assert forall|j: int| 0 <= j < self.entries@.len() implies (#[trigger] self.entries@[j]).0 != k by {
                            if self.entries@[j].0 == k {
                                lemma_remove_key_gone(old(self).entries@, k, j);
                            }
                        }
                    }
                    assert(final(self).as_map() =~= old(self).as_map().remove(k)) by {
                        lemma_map_after_edit(*old(self), *self, k, *self);
                        assert(!self.as_map().contains_key(k));
                    }
                }
                Some(pair.1)
            },
            Option::None => {
                proof {
                    assert(self.as_map() =~= self.as_map().remove(k));
                }
                None
            },
        }
    }
}

/// The entry at `i` is what the denoted map holds under its key.
pub proof fn lemma_entry_lookup<V>(m: IdMap<V>, i: int)
    requires
        m.wf(),
        0 <= i < m.entries@.len(),
    ensures
        m.has_key(m.entries@[i].0),
        m.index_of(m.entries@[i].0) == i,
        m.as_map().contains_key(m.entries@[i].0),
        m.as_map()[m.entries@[i].0] == m.entries@[i].1,
{
    let k = m.entries@[i].0;
    assert(m.has_key(k));
    let j = m.index_of(k);
    assert(0 <= j < m.entries@.len() && m.entries@[j].0 == k);
    if i < j {
        assert(false);
    } else if j < i {
        assert(false);
    }
}

/// Removing an entry keeps the remaining keys unique.
proof fn lemma_remove_keeps_unique<V>(s: Seq<(u64, V)>, i: int)
    requires
        unique_keys(s),
        0 <= i < s.len(),
    ensures
        unique_keys(s.remove(i)),
{
    let t = s.remove(i);
    assert forall|a: int, b: int| 0 <= a < b < t.len() implies (#[trigger] t[a]).0 != (#[trigger] t[b]).0 by {
        let a2 = if a < i { a } else { a + 1 };
        let b2 = if b < i { b } else { b + 1 };
        assert(t[a] == s[a2] && t[b] == s[b2]);
    }
}

/// After removing the only entry with key `k`, no entry holds `k`.
proof fn lemma_remove_key_gone<V>(s: Seq<(u64, V)>, k: u64, j: int)
    requires
        unique_keys(s),
        exists|i: int| 0 <= i < s.len() && (#[trigger] s[i]).0 == k,
    ensures
        ({
            let i = choose|i: int| 0 <= i < s.len() && (#[trigger] s[i]).0 == k;
            0 <= j < s.remove(i).len() ==> s.remove(i)[j].0 != k
        }),
{
    let i = choose|i: int| 0 <= i < s.len() && (#[trigger] s[i]).0 == k;
    let t = s.remove(i);
    if 0 <= j < t.len() {
        let j2 = if j < i { j } else { j + 1 };
        assert(t[j] == s[j2]);
        if t[j].0 == k {
            assert(s[j2].0 == k && s[i].0 == k && j2 != i);
            assert(false);
        }
    }
}

/// Pushing a pair whose key is absent keeps the keys unique.
proof fn lemma_push_fresh<V>(pre: IdMap<V>, k: u64, v: V, post: IdMap<V>)
    requires
        pre.wf(),
        !pre.has_key(k),
        post.entries@ == pre.entries@.push((k, v)),
    ensures
        post.wf(),
        post.as_map().contains_key(k),
        post.as_map()[k] == v,
{
    let s = post.entries@;
    let n = pre.entries@.len() as int;
    assert forall|a: int, b: int| 0 <= a < b < s.len() implies (#[trigger] s[a]).0 != (#[trigger] s[b]).0 by {
        if b == n {
            assert(s[a] == pre.entries@[a]);
            if s[a].0 == k {
                assert(pre.has_key(k));
            }
        } else {
            assert(s[a] == pre.entries@[a] && s[b] == pre.entries@[b]);
        }
    }
    assert(s[n] == (k, v));
    lemma_entry_lookup(post, n);
}

/// An edit that only touches the entry under `k` leaves the rest of the
/// denoted map unchanged: for every other key, membership and value agree
/// between a map, the same map with `k`'s entry removed, and that map with
/// a fresh entry for `k` pushed on the end.
proof fn lemma_map_after_edit<V>(orig: IdMap<V>, mid: IdMap<V>, k: u64, post: IdMap<V>)
    requires
        orig.wf(),
        mid.wf(),
        post.wf(),
        mid.entries@ == orig.entries@ || (exists|i: int|
            0 <= i < orig.entries@.len() && (#[trigger] orig.entries@[i]).0 == k && mid.entries@
                == orig.entries@.remove(i)),
        !mid.has_key(k),
        post.entries@ == mid.entries@ || (exists|v: V| post.entries@ == #[trigger] mid.entries@.push((k, v))),
    ensures
        forall|k2: u64|
            k2 != k ==> (#[trigger] post.as_map().contains_key(k2)) == orig.as_map().contains_key(k2),
        forall|k2: u64|
            k2 != k && orig.as_map().contains_key(k2) ==> #[trigger] post.as_map()[k2] == orig.as_map()[k2],
{
    assert forall|k2: u64| k2 != k implies (#[trigger] post.as_map().contains_key(k2)) == orig.as_map().contains_key(
        k2,
    ) by {
        lemma_edit_step(orig, mid, k, k2);
        lemma_push_step(mid, post, k, k2);
    }
    assert forall|k2: u64| k2 != k && orig.as_map().contains_key(k2) implies #[trigger] post.as_map()[k2]
        == orig.as_map()[k2] by {
        lemma_edit_step(orig, mid, k, k2);
        lemma_push_step(mid, post, k, k2);
        assert(post.has_key(k2));
        assert(post.entries@[post.index_of(k2)] == orig.entries@[orig.index_of(k2)]);
        assert(post.as_map()[k2] == post.entries@[post.index_of(k2)].1);
        assert(orig.as_map()[k2] == orig.entries@[orig.index_of(k2)].1);
    }
}

/// Membership and looked-up pairs are unchanged for keys other than `k`
/// when the entry under `k` is removed.
proof fn lemma_edit_step<V>(orig: IdMap<V>, mid: IdMap<V>, k: u64, k2: u64)
    requires
        orig.wf(),
        mid.wf(),
        k2 != k,
        mid.entries@ == orig.entries@ || (exists|i: int|
            0 <= i < orig.entries@.len() && (#[trigger] orig.entries@[i]).0 == k && mid.entries@
                == orig.entries@.remove(i)),
    ensures
        mid.has_key(k2) == orig.has_key(k2),
        orig.has_key(k2) ==> mid.entries@[mid.index_of(k2)] == orig.entries@[orig.index_of(k2)],
{
    if mid.entries@ == orig.entries@ {
        if orig.has_key(k2) {
            let i1 = orig.index_of(k2);
            lemma_entry_lookup(orig, i1);
            lemma_entry_lookup(mid, i1);
        }
    } else {
        let i = choose|i: int|
            0 <= i < orig.entries@.len() && (#[trigger] orig.entries@[i]).0 == k && mid.entries@
                == orig.entries@.remove(i);
        if orig.has_key(k2) {
            let i1 = orig.index_of(k2);
            assert(orig.entries@[i1].0 == k2);
            assert(i1 != i);
            let i1m = if i1 < i { i1 } else { i1 - 1 };
            assert(mid.entries@[i1m] == orig.entries@[i1]);
            lemma_entry_lookup(mid, i1m);
            lemma_entry_lookup(orig, i1);
            assert(mid.index_of(k2) == i1m);
        }
        if mid.has_key(k2) {
            let i2 = mid.index_of(k2);
            assert(mid.entries@[i2].0 == k2);
            let i2o = if i2 < i { i2 } else { i2 + 1 };
            assert(orig.entries@[i2o] == mid.entries@[i2]);
            assert(orig.has_key(k2));
        }
    }
}

/// Membership and looked-up pairs are unchanged for keys other than `k`
/// when a fresh entry for `k` is pushed.
proof fn lemma_push_step<V>(mid: IdMap<V>, post: IdMap<V>, k: u64, k2: u64)
    requires
        mid.wf(),
        post.wf(),
        k2 != k,
        post.entries@ == mid.entries@ || (exists|v: V| post.entries@ == #[trigger] mid.entries@.push((k, v))),
    ensures
        post.has_key(k2) == mid.has_key(k2),
        mid.has_key(k2) ==> post.entries@[post.index_of(k2)] == mid.entries@[mid.index_of(k2)],
{
    if post.entries@ == mid.entries@ {
        if mid.has_key(k2) {
            let i1 = mid.index_of(k2);
            lemma_entry_lookup(mid, i1);
            lemma_entry_lookup(post, i1);
        }
    } else {
        let n = mid.entries@.len() as int;
        if mid.has_key(k2) {
            let i1 = mid.index_of(k2);
            assert(mid.entries@[i1].0 == k2);
            assert(post.entries@[i1] == mid.entries@[i1]);
            lemma_entry_lookup(mid, i1);
            lemma_entry_lookup(post, i1);
        }
        if post.has_key(k2) {
            let i2 = post.index_of(k2);
            assert(post.entries@[i2].0 == k2);
            if i2 == n {
                assert(post.entries@[i2].0 == k);
            } else {
                assert(post.entries@[i2] == mid.entries@[i2]);
                assert(mid.has_key(k2));
            }
        }
    }
}

} // verus!
