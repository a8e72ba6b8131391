//! A small map keyed by variable names.
//!
//! Bindings, interval tables and metadata are keyed by strings. The map keeps
//! its entries in insertion order and never holds the same key twice; it is
//! viewed as a mathematical map from the key's characters to the value.

use vstd::prelude::*;

verus! {

/// A finite map from string keys to values.
#[derive(Debug)]
pub struct StrMap<X> {
    entries: Vec<(String, X)>,
}

/// No key occurs twice in the entry sequence.
pub open spec fn keys_distinct<X>(s: Seq<(String, X)>) -> bool {
    forall|i: int, j: int|
        0 <= i < s.len() && 0 <= j < s.len() && i != j ==> (#[trigger] s[i]).0@ != (#[trigger] s[j]).0@
}

/// Some entry of the sequence has key `k`.
pub open spec fn has_key<X>(s: Seq<(String, X)>, k: Seq<char>) -> bool {
    exists|i: int| 0 <= i < s.len() && (#[trigger] s[i]).0@ == k
}

/// The position of key `k` in the sequence (meaningful when it is present).
pub open spec fn pos_of<X>(s: Seq<(String, X)>, k: Seq<char>) -> int {
    choose|i: int| 0 <= i < s.len() && (#[trigger] s[i]).0@ == k
}

/// The map that an entry sequence denotes.
pub open spec fn map_of<X>(s: Seq<(String, X)>) -> Map<Seq<char>, X> {
    Map::new(|k: Seq<char>| has_key(s, k), |k: Seq<char>| s[pos_of(s, k)].1)
}

proof fn lemma_pos_of<X>(s: Seq<(String, X)>, i: int)
    requires
        keys_distinct(s),
        0 <= i < s.len(),
    ensures
        has_key(s, s[i].0@),
        pos_of(s, s[i].0@) == i,
        map_of(s).contains_key(s[i].0@),
        map_of(s)[s[i].0@] == s[i].1,
{
    let k = s[i].0@;
    assert(has_key(s, k));
    let p = pos_of(s, k);
    assert(s[p].0@ == k);
}

impl<X> View for StrMap<X> {
    type V = Map<Seq<char>, X>;

    closed spec fn view(&self) -> Map<Seq<char>, X> {
        map_of(self.entries@)
    }
}

impl<X> StrMap<X> {
    #[verifier::type_invariant]
    closed spec fn wf(self) -> bool {
        keys_distinct(self.entries@)
    }

    /// The entries in insertion order.
    pub closed spec fn entries(self) -> Seq<(String, X)> {
        self.entries@
    }

    /// An empty map.
    pub fn new() -> (r: Self)
        ensures
            r@ == Map::<Seq<char>, X>::empty(),
            r.entries().len() == 0,
    {
        let r = StrMap { entries: Vec::new() };
        assert(r@ =~= Map::<Seq<char>, X>::empty());
        r
    }

    /// Number of entries.
    pub fn len(&self) -> (r: usize)
        ensures
            r == self.entries().len(),
            r == self@.dom().len(),
            self@.dom().finite(),
            keys_distinct(self.entries()),
            self@ == map_of(self.entries()),
    {
        proof {
            use_type_invariant(self);
            lemma_dom_finite(self.entries@);
        }
        self.entries.len()
    }

    /// Is the map empty?
    pub fn is_empty(&self) -> (r: bool)
        ensures
            r == (self@.dom().len() == 0),
    {
        proof {
            use_type_invariant(self);
            lemma_dom_finite(self.entries@);
        }
        self.entries.len() == 0
    }

    fn find(&self, key: &String) -> (r: Option<usize>)
        ensures
            match r {
                Some(i) => i < self.entries().len() && self.entries()[i as int].0@ == key@,
                None => !has_key(self.entries(), key@),
            },
    {
        let mut i: usize = 0;
        while i < self.entries.len()
            invariant
                i <= self.entries@.len(),
                forall|j: int| 0 <= j < i ==> (#[trigger] self.entries@[j]).0@ != key@,
            decreases self.entries@.len() - i,
        {
            if self.entries[i].0 == *key {
                return Some(i);
            }
            i = i + 1;
        }
        None
    }

    /// The value stored under `key`, if any.
    pub fn get(&self, key: &str) -> (r: Option<&X>)
        ensures
            match r {
                Some(x) => self@.contains_key(key@) && *x == self@[key@],
                None => !self@.contains_key(key@),
            },
    {
        proof {
            use_type_invariant(self);
        }
        let k = key.to_owned();
        match self.find(&k) {
            Some(i) => {
                proof {
                    lemma_pos_of(self.entries@, i as int);
                }
                Some(&self.entries[i].1)
            },
            None => None,
        }
    }

    /// Is there a value under `key`?
    pub fn contains_key(&self, key: &str) -> (r: bool)
        ensures
            r == self@.contains_key(key@),
    {
        let k = key.to_owned();
        let f = self.find(&k);
        f.is_some()
    }

    /// The `i`-th entry in insertion order.
    pub fn entry_at(&self, i: usize) -> (r: (&String, &X))
        requires
            i < self.entries().len(),
        ensures
            *r.0 == self.entries()[i as int].0,
            *r.1 == self.entries()[i as int].1,
            self@.contains_key(r.0@),
            self@[r.0@] == *r.1,
    {
        proof {
            use_type_invariant(self);
            lemma_pos_of(self.entries@, i as int);
        }
        let e = &self.entries[i];
        (&e.0, &e.1)
    }

    /// Store `value` under `key`, returning the value it replaces.
    pub fn insert(&mut self, key: String, value: X) -> (r: Option<X>)
        ensures
            final(self)@ == old(self)@.insert(key@, value),
            match r {
                Some(x) => old(self)@.contains_key(key@) && x == old(self)@[key@],
                None => !old(self)@.contains_key(key@),
            },
    {
        proof {
            use_type_invariant(&*self);
        }
        let ghost old_entries = self.entries@;
        match self.find(&key) {
            Some(i) => {
                proof {
                    lemma_pos_of(old_entries, i as int);
                }
                let mut es: Vec<(String, X)> = Vec::new();
                std::mem::swap(&mut es, &mut self.entries);
                let old_pair = es.remove(i);
                es.insert(i, (key, value));
                let ghost new_entries = es@;
                assert(new_entries =~= old_entries.update(i as int, (key, value)));
                assert(keys_distinct(new_entries)) by {
                    assert forall|a: int, b: int|
                        0 <= a < new_entries.len() && 0 <= b < new_entries.len() && a != b
                        implies (#[trigger] new_entries[a]).0@ != (#[trigger] new_entries[b]).0@ by {
                        if a != i && b != i {
                            assert(old_entries[a] == new_entries[a]);
                            assert(old_entries[b] == new_entries[b]);
                        } else if a == i {
                            assert(old_entries[b] == new_entries[b]);
                        } else {
                            assert(old_entries[a] == new_entries[a]);
                        }
                    }
                }
                proof {
                    lemma_pos_of(new_entries, i as int);
                    assert forall|k: Seq<char>|
                        #![auto]
                        map_of(new_entries).contains_key(k) == map_of(old_entries).insert(
                            key@,
                            value,
                        ).contains_key(k) by {
                        if has_key(old_entries, k) {
                            let p = pos_of(old_entries, k);
                            if p != i {
                                assert(new_entries[p] == old_entries[p]);
                            }
                        }
                        if has_key(new_entries, k) {
                            let p = pos_of(new_entries, k);
                            if p != i {
                                assert(new_entries[p] == old_entries[p]);
                            }
                        }
                    }
                    assert forall|k: Seq<char>|
                        #![auto]
                        map_of(new_entries).contains_key(k) implies map_of(new_entries)[k]
                            == map_of(old_entries).insert(key@, value)[k] by {
                        if k != key@ {
                            let p = pos_of(new_entries, k);
                            assert(p != i);
                            assert(new_entries[p] == old_entries[p]);
                            lemma_pos_of(old_entries, p);
                            lemma_pos_of(new_entries, p);
                        }
                    }
                    assert(map_of(new_entries) =~= map_of(old_entries).insert(key@, value));
                }
                self.entries = es;
                Some(old_pair.1)
            },
            None => {
                let mut es: Vec<(String, X)> = Vec::new();
                std::mem::swap(&mut es, &mut self.entries);
                es.push((key, value));
                let ghost new_entries = es@;
                let ghost n = old_entries.len();
                assert(keys_distinct(new_entries)) by {
                    assert forall|a: int, b: int|
                        0 <= a < new_entries.len() && 0 <= b < new_entries.len() && a != b
                        implies (#[trigger] new_entries[a]).0@ != (#[trigger] new_entries[b]).0@ by {
                        if a < n && b < n {
                            assert(old_entries[a] == new_entries[a]);
                            assert(old_entries[b] == new_entries[b]);
                        } else if a == n {
                            assert(old_entries[b] == new_entries[b]);
                            if new_entries[b].0@ == key@ {
                                assert(has_key(old_entries, key@));
                            }
                        } else {
                            assert(old_entries[a] == new_entries[a]);
                            if new_entries[a].0@ == key@ {
                                assert(has_key(old_entries, key@));
                            }
                        }
                    }
                }
                proof {
                    lemma_pos_of(new_entries, n as int);
                    assert forall|k: Seq<char>|
                        #![auto]
                        map_of(new_entries).contains_key(k) == map_of(old_entries).insert(
                            key@,
                            value,
                        ).contains_key(k) by {
                        if has_key(old_entries, k) {
                            let p = pos_of(old_entries, k);
                            assert(new_entries[p] == old_entries[p]);
                        }
                        if has_key(new_entries, k) && k != key@ {
                            let p = pos_of(new_entries, k);
                            assert(p != n);
                            assert(new_entries[p] == old_entries[p]);
                        }
                    }
                    assert forall|k: Seq<char>|
                        #![auto]
                        map_of(new_entries).contains_key(k) implies map_of(new_entries)[k]
                            == map_of(old_entries).insert(key@, value)[k] by {
                        if k != key@ {
                            let p = pos_of(new_entries, k);
                            assert(p != n);
                            assert(new_entries[p] == old_entries[p]);
                            lemma_pos_of(old_entries, p);
                            lemma_pos_of(new_entries, p);
                        }
                    }
                    assert(map_of(new_entries) =~= map_of(old_entries).insert(key@, value));
                }
                self.entries = es;
                None
            },
        }
    }

    /// Remove the value under `key`, returning it.
    pub fn remove(&mut self, key: &str) -> (r: Option<X>)
        ensures
            final(self)@ == old(self)@.remove(key@),
            match r {
                Some(x) => old(self)@.contains_key(key@) && x == old(self)@[key@],
                None => !old(self)@.contains_key(key@),
            },
    {
        proof {
            use_type_invariant(&*self);
        }
        let ghost old_entries = self.entries@;
        let k = key.to_owned();
        match self.find(&k) {
            Some(i) => {
                proof {
                    lemma_pos_of(old_entries, i as int);
                }
                let mut es: Vec<(String, X)> = Vec::new();
                std::mem::swap(&mut es, &mut self.entries);
                let pair = es.remove(i);
                let ghost new_entries = es@;
                assert(new_entries == old_entries.remove(i as int));
                assert(keys_distinct(new_entries)) by {
                    assert forall|a: int, b: int|
                        0 <= a < new_entries.len() && 0 <= b < new_entries.len() && a != b
                        implies (#[trigger] new_entries[a]).0@ != (#[trigger] new_entries[b]).0@ by {
                        let oa = if a < i { a } else { a + 1 };
                        let ob = if b < i { b } else { b + 1 };
                        assert(new_entries[a] == old_entries[oa]);
                        assert(new_entries[b] == old_entries[ob]);
                    }
                }
                proof {
                    assert forall|kk: Seq<char>|
                        #![auto]
                        map_of(new_entries).contains_key(kk) == map_of(old_entries).remove(
                            key@,
                        ).contains_key(kk) by {
                        if has_key(old_entries, kk) && kk != key@ {
                            let p = pos_of(old_entries, kk);
                            assert(p != i);
                            let q = if p < i { p } else { p - 1 };
                            assert(new_entries[q] == old_entries[p]);
                        }
                        if has_key(new_entries, kk) {
                            let q = pos_of(new_entries, kk);
                            let p = if q < i { q } else { q + 1 };
                            assert(new_entries[q] == old_entries[p]);
                            assert(p != i);
                        }
                    }
                    assert forall|kk: Seq<char>|
                        #![auto]
                        map_of(new_entries).contains_key(kk) implies map_of(new_entries)[kk]
                            == map_of(old_entries).remove(key@)[kk] by {
                        let q = pos_of(new_entries, kk);
                        let p = if q < i { q } else { q + 1 };
                        assert(new_entries[q] == old_entries[p]);
                        lemma_pos_of(old_entries, p);
                        lemma_pos_of(new_entries, q);
                    }
                    assert(map_of(new_entries) =~= map_of(old_entries).remove(key@));
                }
                self.entries = es;
                Some(pair.1)
            },
            None => {
                proof {
                    assert(map_of(old_entries) =~= map_of(old_entries).remove(key@));
                }
                None
            },
        }
    }
}

impl<X: Clone> StrMap<X> {
    /// A copy of the map: the same keys, each value a clone of the copied one.
    pub fn duplicate(&self) -> (r: Self)
        ensures
            r@.dom() == self@.dom(),
            forall|k: Seq<char>| #[trigger] r@.contains_key(k) ==> cloned(self@[k], r@[k]),
            r.entries().len() == self.entries().len(),
            forall|i: int|
                0 <= i < self.entries().len() ==> (#[trigger] r.entries()[i]).0@
                    == self.entries()[i].0@,
    {
        proof {
            use_type_invariant(self);
        }
        let mut out: Vec<(String, X)> = Vec::new();
        let mut i: usize = 0;
        while i < self.entries.len()
            invariant
                i <= self.entries@.len(),
                out@.len() == i,
                keys_distinct(self.entries@),
                forall|j: int| 0 <= j < i ==> (#[trigger] out@[j]).0@ == self.entries@[j].0@,
                forall|j: int| 0 <= j < i ==> cloned(self.entries@[j].1, (#[trigger] out@[j]).1),
            decreases self.entries@.len() - i,
        {
            let k = self.entries[i].0.clone();
            let v = self.entries[i].1.clone();
            out.push((k, v));
            i = i + 1;
        }
        let r = StrMap { entries: out };
        proof {
            let s = self.entries@;
            let o = out@;
            assert(keys_distinct(o)) by {
                assert forall|a: int, b: int|
                    0 <= a < o.len() && 0 <= b < o.len() && a != b implies (#[trigger] o[a]).0@
                        != (#[trigger] o[b]).0@ by {
                    assert(o[a].0@ == s[a].0@);
                    assert(o[b].0@ == s[b].0@);
                }
            }
            assert forall|k: Seq<char>| #![auto] has_key(o, k) == has_key(s, k) by {
                if has_key(o, k) {
                    let p = pos_of(o, k);
                    assert(s[p].0@ == k);
                }
                if has_key(s, k) {
                    let p = pos_of(s, k);
                    assert(o[p].0@ == k);
                }
            }
            assert(map_of(o).dom() =~= map_of(s).dom());
            assert forall|k: Seq<char>| #[trigger] map_of(o).contains_key(k) implies cloned(
                map_of(s)[k],
                map_of(o)[k],
            ) by {
                let p = pos_of(o, k);
                assert(o[p].0@ == k);
                assert(s[p].0@ == k);
                lemma_pos_of(o, p);
                lemma_pos_of(s, p);
            }
        }
        r
    }
}

impl<X: Clone> StrMap<X> {
    /// Copy every entry of `other` into `self`; `other`'s values win on
    /// shared keys.
    pub fn extend_from(&mut self, other: &StrMap<X>)
        ensures
            final(self)@.dom() == old(self)@.dom().union(other@.dom()),
            forall|k: Seq<char>| #[trigger] other@.contains_key(k) ==> cloned(other@[k], final(self)@[k]),
            forall|k: Seq<char>|
                !other@.contains_key(k) && #[trigger] old(self)@.contains_key(k) ==> final(self)@[k] == old(self)@[k],
    {
        let n = other.len();
        let ghost oe = other.entries();
        let mut i: usize = 0;
        while i < n
            invariant
                n == oe.len(),
                oe == other.entries(),
                keys_distinct(oe),
                other@ == map_of(oe),
                i <= n,
                self@.dom() == old(self)@.dom().union(Set::new(|k: Seq<char>| exists|j: int| 0 <= j < i && (#[trigger] oe[j]).0@ == k)),
                forall|j: int| 0 <= j < i ==> cloned((#[trigger] oe[j]).1, self@[oe[j].0@]),
                forall|k: Seq<char>|
                    !(exists|j: int| 0 <= j < i && (#[trigger] oe[j]).0@ == k) && #[trigger] old(self)@.contains_key(k)
                        ==> self@[k] == old(self)@[k],
            decreases n - i,
        {
            let (k, v) = other.entry_at(i);
            let kc = k.clone();
            let vc = v.clone();
            self.insert(kc, vc);
            proof {
                assert forall|j: int| 0 <= j < i + 1 implies cloned((#[trigger] oe[j]).1, self@[oe[j].0@]) by {
                    if j < i {
                        assert(oe[j].0@ != oe[i as int].0@);
                    }
                }
                assert forall|k2: Seq<char>|
                    !(exists|j: int| 0 <= j < i + 1 && (#[trigger] oe[j]).0@ == k2) && #[trigger] old(self)@.contains_key(k2)
                        implies self@[k2] == old(self)@[k2] by {
                    assert(oe[i as int].0@ != k2);
                }
                assert(self@.dom() =~= old(self)@.dom().union(Set::new(|k: Seq<char>| exists|j: int| 0 <= j < i + 1 && (#[trigger] oe[j]).0@ == k)));
            }
            i = i + 1;
        }
        proof {
            assert forall|k: Seq<char>| #[trigger] other@.contains_key(k) implies cloned(other@[k], self@[k]) by {
                let j = choose|j: int| 0 <= j < oe.len() && (#[trigger] oe[j]).0@ == k;
                lemma_pos_of(oe, j);
            }
            assert forall|k: Seq<char>| #[trigger] other@.contains_key(k) <==> (exists|j: int| 0 <= j < n && (#[trigger] oe[j]).0@ == k) by {
                if other@.contains_key(k) {
                    let j = choose|j: int| 0 <= j < oe.len() && (#[trigger] oe[j]).0@ == k;
                }
            }
            assert(self@.dom() =~= old(self)@.dom().union(other@.dom()));
        }
    }
}

impl<X: Clone> Clone for StrMap<X> {
    fn clone(&self) -> (r: Self)
        ensures
            r@.dom() == self@.dom(),
            forall|k: Seq<char>| #[trigger] r@.contains_key(k) ==> cloned(self@[k], r@[k]),
    {
        self.duplicate()
    }
}

proof fn lemma_dom_finite<X>(s: Seq<(String, X)>)
    requires
        keys_distinct(s),
    ensures
        map_of(s).dom().finite(),
        map_of(s).dom().len() == s.len(),
    decreases s.len(),
{
    if s.len() == 0 {
        assert(map_of(s).dom() =~= Set::<Seq<char>>::empty());
    } else {
        let t = s.drop_last();
        let last = s.last();
        assert(keys_distinct(t)) by {
            assert forall|a: int, b: int|
                0 <= a < t.len() && 0 <= b < t.len() && a != b implies (#[trigger] t[a]).0@
                    != (#[trigger] t[b]).0@ by {
                assert(t[a] == s[a]);
                assert(t[b] == s[b]);
            }
        }
        lemma_dom_finite(t);
        assert forall|k: Seq<char>| #![auto] has_key(s, k) == (has_key(t, k) || k == last.0@) by {
            if has_key(s, k) {
                let p = pos_of(s, k);
                if p < t.len() {
                    assert(t[p] == s[p]);
                }
            }
            if has_key(t, k) {
                let p = pos_of(t, k);
                assert(t[p] == s[p]);
            }
            if k == last.0@ {
                assert(s[s.len() - 1] == last);
            }
        }
        assert(map_of(s).dom() =~= map_of(t).dom().insert(last.0@));
        assert(!map_of(t).dom().contains(last.0@)) by {
            if has_key(t, last.0@) {
                let p = pos_of(t, last.0@);
                assert(t[p] == s[p]);
                assert(s[s.len() - 1] == last);
            }
        }
    }
}

} // verus!
