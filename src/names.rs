//! An ordered map from names to values, kept as a list of entries with unique keys.
//!
//! Lookups compare names by their characters; insertion keeps the position of an
//! existing key and appends new keys at the end, so iteration order is the order in
//! which keys were first inserted.
use vstd::prelude::*;

verus! {

/// Ordered association list from `String` names to values.
pub struct NameMap<V> {
    entries: Vec<(String, V)>,
}

/// The characters of each key, in entry order.
pub open spec fn keys_of<V>(s: Seq<(String, V)>) -> Seq<Seq<char>> {
    s.map_values(|e: (String, V)| e.0@)
}

/// Whether some entry of `s` has key `k`.
pub open spec fn has_key<V>(s: Seq<(String, V)>, k: Seq<char>) -> bool {
    exists|i: int| 0 <= i < s.len() && #[trigger] s[i].0@ == k
}

/// The map that an entry list describes.
pub open spec fn map_of<V>(s: Seq<(String, V)>) -> Map<Seq<char>, V> {
    Map::new(
        |k: Seq<char>| has_key(s, k),
        |k: Seq<char>| s[choose|i: int| 0 <= i < s.len() && #[trigger] s[i].0@ == k].1,
    )
}

/// No two entries share a key.
pub open spec fn unique_keys<V>(s: Seq<(String, V)>) -> bool {
    forall|i: int, j: int|
        0 <= i < s.len() && 0 <= j < s.len() && i != j ==> #[trigger] s[i].0@ != #[trigger] s[j].0@
}

proof fn lemma_map_of_push<V>(s: Seq<(String, V)>, k: String, v: V)
    requires
        unique_keys(s),
        !has_key(s, k@),
    ensures
        map_of(s.push((k, v))) == map_of(s).insert(k@, v),
{
    let t = s.push((k, v));
    let n = s.len() as int;
    assert forall|key: Seq<char>| #[trigger] map_of(t).contains_key(key) <==> map_of(s).insert(k@, v).contains_key(key) by {
        if has_key(t, key) {
            let j = choose|j: int| 0 <= j < t.len() && #[trigger] t[j].0@ == key;
            if j < n {
                assert(s[j].0@ == key);
            }
        }
        if has_key(s, key) {
            let j = choose|j: int| 0 <= j < s.len() && #[trigger] s[j].0@ == key;
            assert(t[j].0@ == key);
        }
        if key == k@ {
            assert(t[n].0@ == key);
        }
    }
    assert forall|key: Seq<char>| #[trigger] map_of(t).contains_key(key) implies map_of(t)[key] == map_of(s).insert(k@, v)[key] by {
        let j = choose|j: int| 0 <= j < t.len() && #[trigger] t[j].0@ == key;
        if j < n {
            assert(s[j].0@ == key);
            assert(key != k@);
            let jj = choose|jj: int| 0 <= jj < s.len() && #[trigger] s[jj].0@ == key;
            assert(t[jj].0@ == key);
            if jj != j {
                assert(t[jj] == s[jj]);
            }
            assert(unique_keys(t)) by {
                assert forall|a: int, b: int| 0 <= a < t.len() && 0 <= b < t.len() && a != b
                    implies #[trigger] t[a].0@ != #[trigger] t[b].0@ by {
                    if a < n && b < n {
                        assert(t[a] == s[a] && t[b] == s[b]);
                    } else if a < n {
                        assert(t[a] == s[a]);
                    } else {
                        assert(t[b] == s[b]);
                    }
                }
            }
        } else {
            assert(j == n);
            assert(key == k@);
            assert(unique_keys(t)) by {
                assert forall|a: int, b: int| 0 <= a < t.len() && 0 <= b < t.len() && a != b
                    implies #[trigger] t[a].0@ != #[trigger] t[b].0@ by {
                    if a < n && b < n {
                        assert(t[a] == s[a] && t[b] == s[b]);
                    } else if a < n {
                        assert(t[a] == s[a]);
                    } else {
                        assert(t[b] == s[b]);
                    }
                }
            }
        }
    }
    assert(map_of(t) =~= map_of(s).insert(k@, v));
}

impl<V> NameMap<V> {
    /// The entries as they are stored.
    pub closed spec fn entries(&self) -> Seq<(String, V)> {
        self.entries@
    }

    /// Keys in iteration order.
    pub open spec fn key_seq(&self) -> Seq<Seq<char>> {
        keys_of(self.entries())
    }

    pub open spec fn wf(&self) -> bool {
        unique_keys(self.entries())
    }

    /// Whether some entry has key `k`.
    pub open spec fn has(&self, k: Seq<char>) -> bool {
        has_key(self.entries(), k)
    }

    /// The map that the entries describe.
    pub open spec fn view(&self) -> Map<Seq<char>, V> {
        map_of(self.entries())
    }

    pub proof fn lemma_entry(&self, i: int)
        requires
            self.wf(),
            0 <= i < self.entries().len(),
        ensures
            self@.contains_key(self.entries()[i].0@),
            self@[self.entries()[i].0@] == self.entries()[i].1,
            self.key_seq()[i] == self.entries()[i].0@,
    {
        let k = self.entries()[i].0@;
        assert(self.has(k));
        let j = choose|j: int| 0 <= j < self.entries().len() && #[trigger] self.entries()[j].0@ == k;
        assert(self.entries()[j].0@ == k);
        assert(i == j);
    }

    pub proof fn lemma_keys(&self)
        requires
            self.wf(),
        ensures
            self.key_seq().len() == self.entries().len(),
            forall|k: Seq<char>| self@.contains_key(k) <==> self.key_seq().contains(k),
            self.key_seq().no_duplicates(),
    {
        assert forall|k: Seq<char>| self@.contains_key(k) <==> self.key_seq().contains(k) by {
            if self@.contains_key(k) {
                let i = choose|i: int| 0 <= i < self.entries().len() && #[trigger] self.entries()[i].0@ == k;
                assert(self.key_seq()[i] == k);
            }
            if self.key_seq().contains(k) {
                let i = choose|i: int| 0 <= i < self.key_seq().len() && self.key_seq()[i] == k;
                assert(self.entries()[i].0@ == k);
            }
        }
        assert forall|i: int, j: int|
            0 <= i < self.key_seq().len() && 0 <= j < self.key_seq().len() && i != j implies
            self.key_seq()[i] != self.key_seq()[j] by {
            assert(self.entries()[i].0@ != self.entries()[j].0@);
        }
    }

    pub fn new() -> (r: Self)
        ensures
            r.wf(),
            r@ == Map::<Seq<char>, V>::empty(),
            r.key_seq() == Seq::<Seq<char>>::empty(),
    {
        let r = NameMap { entries: Vec::new() };
        assert(r@ =~= Map::<Seq<char>, V>::empty());
        assert(r.key_seq() =~= Seq::<Seq<char>>::empty());
        r
    }

    pub fn len(&self) -> (r: usize)
        ensures
            r == self.entries().len(),
            r == self.key_seq().len(),
    {
        self.entries.len()
    }

    /// Position of the entry with key `k`, if any.
    pub fn find(&self, k: &String) -> (r: Option<usize>)
        requires
            self.wf(),
        ensures
            r is None <==> !self@.contains_key(k@),
            r matches Some(i) ==> i < self.entries().len() && self.entries()[i as int].0@ == k@
                && self.key_seq()[i as int] == k@,
    {
        let mut i: usize = 0;
        while i < self.entries.len()
            invariant
                i <= self.entries().len(),
                forall|j: int| 0 <= j < i ==> self.entries()[j].0@ != k@,
            decreases self.entries().len() - i,
        {
            if self.entries[i].0 == *k {
                return Some(i);
            }
            i += 1;
        }
        None
    }

    pub fn contains_key(&self, k: &String) -> (r: bool)
        requires
            self.wf(),
        ensures
            r == self@.contains_key(k@),
    {
        self.find(k).is_some()
    }

    pub fn get(&self, k: &String) -> (r: Option<&V>)
        requires
            self.wf(),
        ensures
            r is None <==> !self@.contains_key(k@),
            r matches Some(v) ==> self@.contains_key(k@) && *v == self@[k@],
    {
        match self.find(k) {
            Some(i) => {
                proof {
                    self.lemma_entry(i as int);
                }
                Some(&self.entries[i].1)
            },
            None => None,
        }
    }

    pub fn key_at(&self, i: usize) -> (r: &String)
        requires
            i < self.entries().len(),
        ensures
            r@ == self.key_seq()[i as int],
    {
        &self.entries[i].0
    }

    pub fn value_at(&self, i: usize) -> (r: &V)
        requires
            self.wf(),
            i < self.entries().len(),
        ensures
            *r == self@[self.key_seq()[i as int]],
            *r == self.entries()[i as int].1,
    {
        proof {
            self.lemma_entry(i as int);
        }
        &self.entries[i].1
    }

    /// Sets the value of `k`, keeping its position, or appends it.
    pub fn insert(&mut self, k: String, v: V)
        requires
            old(self).wf(),
        ensures
            final(self).wf(),
            final(self)@ == old(self)@.insert(k@, v),
            old(self)@.contains_key(k@) ==> final(self).key_seq() == old(self).key_seq(),
            !old(self)@.contains_key(k@) ==> final(self).key_seq() == old(self).key_seq().push(k@),
    {
        let ghost k_view = k@;
        match self.find(&k) {
            Some(i) => {
                self.entries.set(i, (k, v));
                proof {
                    assert(keys_of(self.entries@) =~= keys_of(old(self).entries@));
                    assert(unique_keys(self.entries@)) by {
                        assert forall|a: int, b: int|
                            0 <= a < self.entries@.len() && 0 <= b < self.entries@.len() && a != b
                            implies #[trigger] self.entries@[a].0@ != #[trigger] self.entries@[b].0@ by {
                            assert(self.entries@[a].0@ == old(self).entries@[a].0@);
                            assert(self.entries@[b].0@ == old(self).entries@[b].0@);
                        }
                    }
                    self.lemma_view_after_set(old(self).entries@, i as int, k_view, v);
                }
            },
            None => {
                self.entries.push((k, v));
                proof {
                    assert(keys_of(self.entries@) =~= keys_of(old(self).entries@).push(k_view));
                    assert(unique_keys(self.entries@)) by {
                        assert forall|a: int, b: int|
                            0 <= a < self.entries@.len() && 0 <= b < self.entries@.len() && a != b
                            implies #[trigger] self.entries@[a].0@ != #[trigger] self.entries@[b].0@ by {
                            if a < old(self).entries@.len() && b < old(self).entries@.len() {
                                assert(self.entries@[a] == old(self).entries@[a]);
                                assert(self.entries@[b] == old(self).entries@[b]);
                            } else if a < old(self).entries@.len() {
                                assert(old(self).has(old(self).entries@[a].0@));
                            } else {
                                assert(old(self).has(old(self).entries@[b].0@));
                            }
                        }
                    }
                    self.lemma_view_after_push(old(self).entries@, k_view, v);
                }
            },
        }
    }

    /// Removes the entry with key `k`, if any, keeping the order of the others.
    pub fn remove(&mut self, k: &String)
        requires
            old(self).wf(),
        ensures
            final(self).wf(),
            final(self)@ == old(self)@.remove(k@),
            !old(self)@.contains_key(k@) ==> final(self).key_seq() == old(self).key_seq(),
            old(self)@.contains_key(k@) ==> exists|i: int|
                0 <= i < old(self).key_seq().len() && old(self).key_seq()[i] == k@
                && final(self).key_seq() == old(self).key_seq().remove(i),
    {
        match self.find(k) {
            Some(i) => {
                self.entries.remove(i);
                proof {
                    let prev = old(self).entries@;
                    let cur = self.entries@;
                    assert(cur =~= prev.remove(i as int));
                    assert(keys_of(cur) =~= keys_of(prev).remove(i as int));
                    assert(unique_keys(cur)) by {
                        assert forall|a: int, b: int|
                            0 <= a < cur.len() && 0 <= b < cur.len() && a != b
                            implies #[trigger] cur[a].0@ != #[trigger] cur[b].0@ by {
                            let pa = if a < i { a } else { a + 1 };
                            let pb = if b < i { b } else { b + 1 };
                            assert(cur[a] == prev[pa]);
                            assert(cur[b] == prev[pb]);
                        }
                    }
                    let m = map_of(prev).remove(k@);
                    assert forall|key: Seq<char>| #[trigger] map_of(cur).contains_key(key) <==> m.contains_key(key) by {
                        if has_key(cur, key) {
                            let j = choose|j: int| 0 <= j < cur.len() && #[trigger] cur[j].0@ == key;
                            let pj = if j < i { j } else { j + 1 };
                            assert(prev[pj].0@ == key);
                            assert(pj != i);
                        }
                        if m.contains_key(key) {
                            let j = choose|j: int| 0 <= j < prev.len() && #[trigger] prev[j].0@ == key;
                            assert(j != i);
                            let cj = if j < i { j } else { j - 1 };
                            assert(cur[cj].0@ == key);
                        }
                    }
                    assert forall|key: Seq<char>| #[trigger] map_of(cur).contains_key(key) implies map_of(cur)[key] == m[key] by {
                        let j = choose|j: int| 0 <= j < cur.len() && #[trigger] cur[j].0@ == key;
                        self.lemma_entry(j);
                        let pj = if j < i { j } else { j + 1 };
                        assert(prev[pj] == cur[j]);
                        old(self).lemma_entry(pj);
                    }
                    assert(map_of(cur) =~= m);
                    assert(old(self).key_seq()[i as int] == k@);
                }
            },
            None => {
                proof {
                    assert(old(self)@.remove(k@) =~= old(self)@);
                }
            },
        }
    }

    /// The keys, in iteration order.
    pub fn keys(&self) -> (r: Vec<String>)
        ensures
            r@.len() == self.key_seq().len(),
            forall|i: int| 0 <= i < r@.len() ==> #[trigger] r@[i]@ == self.key_seq()[i],
    {
        let mut r: Vec<String> = Vec::new();
        let mut i: usize = 0;
        while i < self.entries.len()
            invariant
                i <= self.entries().len(),
                r@.len() == i,
                forall|j: int| 0 <= j < i ==> #[trigger] r@[j]@ == self.key_seq()[j],
            decreases self.entries().len() - i,
        {
            r.push(self.entries[i].0.clone());
            i += 1;
        }
        r
    }

    /// Inserts every entry of `other`, in its order; values of `other` win on equal keys.
    pub fn extend(&mut self, other: NameMap<V>)
        requires
            old(self).wf(),
            other.wf(),
        ensures
            final(self).wf(),
            final(self)@ == old(self)@.union_prefer_right(other@),
    {
        let ghost target = old(self)@.union_prefer_right(other@);
        let ghost all = other.entries@;
        let mut rest = other.entries;
        let ghost mut done: int = 0;
        while rest.len() > 0
            invariant
                self.wf(),
                unique_keys(all),
                0 <= done <= all.len(),
                rest@ == all.subrange(done, all.len() as int),
                self@ == old(self)@.union_prefer_right(map_of(all.take(done))),
            decreases rest@.len(),
        {
            let (k, v) = rest.remove(0);
            proof {
                assert(all[done] == (k, v));
            }
            let ghost kv = k@;
            self.insert(k, v);
            proof {
                let before = all.take(done);
                let after = all.take(done + 1);
                assert(after =~= before.push((k, v)));
                assert(unique_keys(before)) by {
                    assert forall|a: int, b: int| 0 <= a < before.len() && 0 <= b < before.len() && a != b
                        implies #[trigger] before[a].0@ != #[trigger] before[b].0@ by {
                        assert(before[a] == all[a] && before[b] == all[b]);
                    }
                }
                assert(!has_key(before, kv)) by {
                    if has_key(before, kv) {
                        let j = choose|j: int| 0 <= j < before.len() && #[trigger] before[j].0@ == kv;
                        assert(all[j].0@ == all[done].0@);
                    }
                }
                lemma_map_of_push(before, k, v);
                assert(self@ =~= old(self)@.union_prefer_right(map_of(after)));
                done = done + 1;
                assert(rest@ =~= all.subrange(done, all.len() as int));
            }
        }
        proof {
            assert(all.take(done) =~= all);
            assert(map_of(all) == other@);
        }
    }

    proof fn lemma_view_after_set(&self, prev: Seq<(String, V)>, i: int, k: Seq<char>, v: V)
        requires
            unique_keys(prev),
            self.wf(),
            0 <= i < prev.len(),
            prev[i].0@ == k,
            self.entries().len() == prev.len(),
            self.entries()[i].0@ == k,
            self.entries()[i].1 == v,
            forall|j: int| 0 <= j < prev.len() && j != i ==> self.entries()[j] == prev[j],
        ensures
            self@ == map_of(prev).insert(k, v),
    {
        let old_map = map_of(prev);
        assert forall|key: Seq<char>| #[trigger] self@.contains_key(key) <==> old_map.insert(k, v).contains_key(key) by {
            if self@.contains_key(key) {
                let j = choose|j: int| 0 <= j < self.entries().len() && #[trigger] self.entries()[j].0@ == key;
                if j != i {
                    assert(prev[j].0@ == key);
                }
            }
            if old_map.contains_key(key) {
                let j = choose|j: int| 0 <= j < prev.len() && #[trigger] prev[j].0@ == key;
                if j != i {
                    assert(self.entries()[j].0@ == key);
                } else {
                    assert(self.entries()[i].0@ == key);
                }
            }
            if key == k {
                assert(self.entries()[i].0@ == key);
            }
        }
        assert forall|key: Seq<char>| #[trigger] self@.contains_key(key) implies self@[key] == old_map.insert(k, v)[key] by {
            let j = choose|j: int| 0 <= j < self.entries().len() && #[trigger] self.entries()[j].0@ == key;
            self.lemma_entry(j);
            if j != i {
                assert(prev[j].0@ == key);
                assert(old_map.contains_key(key));
                let jj = choose|jj: int| 0 <= jj < prev.len() && #[trigger] prev[jj].0@ == key;
                assert(prev[jj].0@ == prev[j].0@);
                assert(jj == j);
            }
        }
        assert(self@ =~= old_map.insert(k, v));
    }

    proof fn lemma_view_after_push(&self, prev: Seq<(String, V)>, k: Seq<char>, v: V)
        requires
            unique_keys(prev),
            self.wf(),
            self.entries() == prev.push((self.entries().last().0, v)),
            self.entries().last().0@ == k,
        ensures
            self@ == map_of(prev).insert(k, v),
    {
        let old_map = map_of(prev);
        let n = prev.len() as int;
        assert forall|key: Seq<char>| #[trigger] self@.contains_key(key) <==> old_map.insert(k, v).contains_key(key) by {
            if self@.contains_key(key) {
                let j = choose|j: int| 0 <= j < self.entries().len() && #[trigger] self.entries()[j].0@ == key;
                if j != n {
                    assert(prev[j].0@ == key);
                }
            }
            if old_map.contains_key(key) {
                let j = choose|j: int| 0 <= j < prev.len() && #[trigger] prev[j].0@ == key;
                assert(self.entries()[j].0@ == key);
            }
            if key == k {
                assert(self.entries()[n].0@ == key);
            }
        }
        assert forall|key: Seq<char>| #[trigger] self@.contains_key(key) implies self@[key] == old_map.insert(k, v)[key] by {
            let j = choose|j: int| 0 <= j < self.entries().len() && #[trigger] self.entries()[j].0@ == key;
            self.lemma_entry(j);
            if j != n {
                assert(prev[j].0@ == key);
                assert(old_map.contains_key(key));
                let jj = choose|jj: int| 0 <= jj < prev.len() && #[trigger] prev[jj].0@ == key;
                assert(prev[jj].0@ == prev[j].0@);
                assert(jj == j);
            }
        }
        assert(self@ =~= old_map.insert(k, v));
    }
}

} // verus!
