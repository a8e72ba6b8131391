//! Per-pattern property frequency tables.
//!
//! A table counts how many matches were observed and, for each property, in
//! how many of them it occurred (presence, not multiplicity); optionally it
//! also counts co-occurring property pairs, each pair kept in lexicographic
//! order.

use crate::strmap::{keys_distinct, map_of, StrMap};
use crate::text::{lemma_seq_less_trichotomy, seq_less, str_less};
use vstd::prelude::*;

verus! {

/// Frequency table for one pattern (or one pattern/role pair).
#[derive(Debug)]
pub struct PropertyTable {
    /// How many matches have been observed.
    pub total_matches: u64,
    /// How many matches contained each property.
    pub property_counts: StrMap<u64>,
    /// Co-occurrence counts: first property (the lesser) -> second -> count.
    pub pair_counts: StrMap<StrMap<u64>>,
}

/// The count a map holds for `k` (zero when absent).
pub open spec fn count_in(m: Map<Seq<char>, u64>, k: Seq<char>) -> nat {
    if m.contains_key(k) {
        m[k] as nat
    } else {
        0
    }
}

/// The count a nested map holds for the pair `(a, b)` (zero when absent).
pub open spec fn pair_in(m: Map<Seq<char>, StrMap<u64>>, a: Seq<char>, b: Seq<char>) -> nat {
    if m.contains_key(a) {
        count_in(m[a]@, b)
    } else {
        0
    }
}

/// The set of names in a list of strings.
pub open spec fn name_set(props: Seq<String>) -> Set<Seq<char>> {
    Set::new(|x: Seq<char>| exists|i: int| 0 <= i < props.len() && (#[trigger] props[i])@ == x)
}

/// The pair `(a, b)` is counted for an observation of the property set `s`:
/// two distinct members, `a` lexicographically first.
pub open spec fn pair_counted(s: Set<Seq<char>>, a: Seq<char>, b: Seq<char>) -> bool {
    s.contains(a) && s.contains(b) && seq_less(a, b)
}

impl PropertyTable {
    /// Matches observed.
    pub open spec fn total(self) -> nat {
        self.total_matches as nat
    }

    /// Matches that contained property `x`.
    pub open spec fn count(self, x: Seq<char>) -> nat {
        count_in(self.property_counts@, x)
    }

    /// Distinct properties seen.
    pub open spec fn vocab(self) -> Set<Seq<char>> {
        self.property_counts@.dom()
    }

    /// Matches in which `a` and `b` (with `a` first) both occurred.
    pub open spec fn pair(self, a: Seq<char>, b: Seq<char>) -> nat {
        pair_in(self.pair_counts@, a, b)
    }

    /// One more observation of the properties `props` fits the counters.
    pub open spec fn can_record(self, props: Set<Seq<char>>, pairs: bool) -> bool {
        &&& self.total() < u64::MAX
        &&& forall|x: Seq<char>| props.contains(x) ==> #[trigger] self.count(x) < u64::MAX
        &&& pairs ==> forall|a: Seq<char>, b: Seq<char>|
            pair_counted(props, a, b) ==> #[trigger] self.pair(a, b) < u64::MAX
    }

    /// `self` is `old` after one observation of the property set `props`.
    pub open spec fn recorded(self, old: PropertyTable, props: Set<Seq<char>>, pairs: bool) -> bool {
        &&& self.total() == old.total() + 1
        &&& forall|x: Seq<char>|
            #[trigger] self.count(x) == old.count(x) + (if props.contains(x) { 1int } else { 0int })
        &&& self.vocab() == old.vocab().union(props)
        &&& forall|a: Seq<char>, b: Seq<char>|
            #[trigger] self.pair(a, b) == old.pair(a, b) + (if pairs && pair_counted(props, a, b) {
                1int
            } else {
                0int
            })
    }

    /// An empty table.
    pub fn new() -> (r: Self)
        ensures
            r.total() == 0,
            r.vocab() == Set::<Seq<char>>::empty(),
            forall|x: Seq<char>| #[trigger] r.count(x) == 0,
            forall|a: Seq<char>, b: Seq<char>| #[trigger] r.pair(a, b) == 0,
    {
        PropertyTable { total_matches: 0, property_counts: StrMap::new(), pair_counts: StrMap::new() }
    }

    /// Record one observation: the match count grows by one, each distinct
    /// property's count by one, and (when `pairs`) each co-occurring pair's.
    pub fn record(&mut self, properties: &[String], pairs: bool)
        requires
            old(self).can_record(name_set(properties@), pairs),
        ensures
            final(self).recorded(*old(self), name_set(properties@), pairs),
    {
        let unique = distinct_names(properties);
        let ghost props = name_set(properties@);
        self.total_matches = self.total_matches + 1;
        let ghost counts0 = self.property_counts@;
        proof {
            assert forall|x: Seq<char>| props.contains(x) implies #[trigger] count_in(counts0, x) < u64::MAX by {
                assert(old(self).count(x) < u64::MAX);
            }
            assert(unique@.take(0) =~= Seq::<String>::empty());
            assert(name_set(unique@.take(0)) =~= Set::<Seq<char>>::empty());
            assert(self.property_counts@.dom() =~= counts0.dom().union(name_set(unique@.take(0))));
        }
        let mut i: usize = 0;
        while i < unique.len()
            invariant
                i <= unique@.len(),
                keys_distinct_names(unique@),
                name_set(unique@) == props,
                self.pair_counts@ == old(self).pair_counts@,
                self.total_matches == old(self).total_matches + 1,
                counts0 == old(self).property_counts@,
                forall|x: Seq<char>| props.contains(x) ==> #[trigger] count_in(counts0, x) < u64::MAX,
                forall|x: Seq<char>|
                    #[trigger] count_in(self.property_counts@, x) == count_in(counts0, x) + (if name_set(
                        unique@.take(i as int),
                    ).contains(x) {
                        1int
                    } else {
                        0int
                    }),
                self.property_counts@.dom() == counts0.dom().union(name_set(unique@.take(i as int))),
            decreases unique@.len() - i,
        {
            let ghost before = self.property_counts@;
            let name = &unique[i];
            proof {
                assert(props.contains(name@));
                assert(!name_set(unique@.take(i as int)).contains(name@)) by {
                    if name_set(unique@.take(i as int)).contains(name@) {
                        let k = choose|k: int| 0 <= k < i && (#[trigger] unique@.take(i as int)[k])@ == name@;
                        assert(unique@[k]@ == unique@[i as int]@);
                    }
                }
            }
            bump(&mut self.property_counts, name);
            proof {
                lemma_name_set_push(unique@, i as int);
                assert forall|x: Seq<char>|
                    #[trigger] count_in(self.property_counts@, x) == count_in(counts0, x) + (if name_set(
                        unique@.take(i + 1),
                    ).contains(x) {
                        1int
                    } else {
                        0int
                    }) by {
                    assert(count_in(before, x) == count_in(counts0, x) + (if name_set(unique@.take(i as int)).contains(x) {
                        1int
                    } else {
                        0int
                    }));
                }
                assert(self.property_counts@.dom() =~= counts0.dom().union(name_set(unique@.take(i + 1))));
            }
            i = i + 1;
        }
        proof {
            assert(unique@.take(unique@.len() as int) =~= unique@);
        }
        if pairs {
            let ghost pairs0 = self.pair_counts@;
            let ghost counts1 = self.property_counts@;
            let ghost total1 = self.total_matches;
            proof {
                assert(old(self).can_record(props, pairs));
                assert(pairs0 == old(self).pair_counts@);
                assert forall|x: Seq<char>, y: Seq<char>|
                    pair_counted(props, x, y) implies #[trigger] pair_in(pairs0, x, y) < u64::MAX by {
                    assert(old(self).pair(x, y) < u64::MAX);
                }
            }
            let n = unique.len();
            let mut a: usize = 0;
            while a < n
                invariant
                    n == unique@.len(),
                    a <= n,
                    self.property_counts@ == counts1,
                    self.total_matches == total1,
                    keys_distinct_names(unique@),
                    name_set(unique@) == props,
                    forall|x: Seq<char>, y: Seq<char>|
                        pair_counted(props, x, y) ==> #[trigger] pair_in(pairs0, x, y) < u64::MAX,
                    forall|x: Seq<char>, y: Seq<char>|
                        #[trigger] pair_in(self.pair_counts@, x, y) == pair_in(pairs0, x, y) + (if done_pair(
                            unique@,
                            a as int,
                            (a + 1) as int,
                            x,
                            y,
                        ) {
                            1int
                        } else {
                            0int
                        }),
                decreases n - a,
            {
                let mut b: usize = a + 1;
                while b < n
                    invariant
                        n == unique@.len(),
                        a < n,
                        self.property_counts@ == counts1,
                        self.total_matches == total1,
                        a + 1 <= b <= n,
                        keys_distinct_names(unique@),
                        name_set(unique@) == props,
                        forall|x: Seq<char>, y: Seq<char>|
                            pair_counted(props, x, y) ==> #[trigger] pair_in(pairs0, x, y) < u64::MAX,
                        forall|x: Seq<char>, y: Seq<char>|
                            #[trigger] pair_in(self.pair_counts@, x, y) == pair_in(pairs0, x, y) + (if done_pair(
                                unique@,
                                a as int,
                                b as int,
                                x,
                                y,
                            ) {
                                1int
                            } else {
                                0int
                            }),
                    decreases n - b,
                {
                    let ua = &unique[a];
                    let ub = &unique[b];
                    let less = str_less(ua.as_str(), ub.as_str());
                    let (lo, hi) = if less { (ua, ub) } else { (ub, ua) };
                    proof {
                        lemma_seq_less_trichotomy(ua@, ub@);
                        assert(ua@ != ub@);
                        assert(seq_less(lo@, hi@));
                        assert(props.contains(ua@));
                        assert(props.contains(ub@));
                        assert(pair_counted(props, lo@, hi@));
                        lemma_done_pair_fresh(unique@, a as int, b as int, lo@, hi@);
                    }
                    bump_pair(&mut self.pair_counts, lo, hi);
                    proof {
                        assert forall|x: Seq<char>, y: Seq<char>|
                            #[trigger] done_pair(unique@, a as int, (b + 1) as int, x, y) == (done_pair(
                                unique@,
                                a as int,
                                b as int,
                                x,
                                y,
                            ) || (x == lo@ && y == hi@)) by {
                            lemma_done_pair_step(unique@, a as int, b as int, x, y);
                        }
                    }
                    b = b + 1;
                }
                proof {
                    assert forall|x: Seq<char>, y: Seq<char>|
                        #[trigger] done_pair(unique@, (a + 1) as int, (a + 2) as int, x, y) == done_pair(
                            unique@,
                            a as int,
                            n as int,
                            x,
                            y,
                        ) by {
                        lemma_done_pair_row(unique@, a as int, x, y);
                    }
                }
                a = a + 1;
            }
            proof {
                assert forall|x: Seq<char>, y: Seq<char>|
                    #[trigger] done_pair(unique@, n as int, (n + 1) as int, x, y) == pair_counted(props, x, y) by {
                    lemma_done_pair_all(unique@, x, y);
                }
            }
        }
    }
}

/// No name occurs twice.
pub open spec fn keys_distinct_names(s: Seq<String>) -> bool {
    forall|i: int, j: int| 0 <= i < s.len() && 0 <= j < s.len() && i != j ==> (#[trigger] s[i])@ != (#[trigger] s[j])@
}

/// Among the position pairs `(x, y)`, `x < y`, of `u` that come before
/// `(a, b)` in row-major order, one names the pair `(p, q)` in
/// lexicographic order.
pub open spec fn done_pair(u: Seq<String>, a: int, b: int, p: Seq<char>, q: Seq<char>) -> bool {
    exists|x: int, y: int|
        #![trigger u[x], u[y]]
        0 <= x < y < u.len() && (x < a || (x == a && y < b)) && ((u[x]@ == p && u[y]@ == q) || (u[x]@
            == q && u[y]@ == p)) && seq_less(p, q)
}

proof fn lemma_done_pair_fresh(u: Seq<String>, a: int, b: int, p: Seq<char>, q: Seq<char>)
    requires
        keys_distinct_names(u),
        0 <= a < b < u.len(),
        (u[a]@ == p && u[b]@ == q) || (u[a]@ == q && u[b]@ == p),
    ensures
        !done_pair(u, a, b, p, q),
{
    if done_pair(u, a, b, p, q) {
        let (x, y) = choose|x: int, y: int|
            #![trigger u[x], u[y]]
            0 <= x < y < u.len() && (x < a || (x == a && y < b)) && ((u[x]@ == p && u[y]@ == q) || (
            u[x]@ == q && u[y]@ == p)) && seq_less(p, q);
        assert(u[x]@ == u[a]@ || u[x]@ == u[b]@);
        assert(u[y]@ == u[a]@ || u[y]@ == u[b]@);
    }
}

proof fn lemma_done_pair_step(u: Seq<String>, a: int, b: int, p: Seq<char>, q: Seq<char>)
    requires
        0 <= a < b < u.len(),
        u[a]@ != u[b]@,
    ensures
        done_pair(u, a, b + 1, p, q) == (done_pair(u, a, b, p, q) || ({
            let (lo, hi) = if seq_less(u[a]@, u[b]@) { (u[a]@, u[b]@) } else { (u[b]@, u[a]@) };
            p == lo && q == hi
        })),
{
    lemma_seq_less_trichotomy(u[a]@, u[b]@);
    let (lo, hi) = if seq_less(u[a]@, u[b]@) { (u[a]@, u[b]@) } else { (u[b]@, u[a]@) };
    if p == lo && q == hi {
        assert(done_pair(u, a, b + 1, p, q)) by {
            assert(u[a] == u[a] && u[b] == u[b]);
        }
    }
    if done_pair(u, a, b + 1, p, q) && !done_pair(u, a, b, p, q) {
        let (x, y) = choose|x: int, y: int|
            #![trigger u[x], u[y]]
            0 <= x < y < u.len() && (x < a || (x == a && y < b + 1)) && ((u[x]@ == p && u[y]@ == q)
                || (u[x]@ == q && u[y]@ == p)) && seq_less(p, q);
        assert(x == a && y == b);
        lemma_seq_less_trichotomy(p, q);
    }
}

proof fn lemma_done_pair_row(u: Seq<String>, a: int, p: Seq<char>, q: Seq<char>)
    requires
        0 <= a < u.len(),
    ensures
        done_pair(u, a + 1, a + 2, p, q) == done_pair(u, a, u.len() as int, p, q),
{
    if done_pair(u, a + 1, a + 2, p, q) {
        let (x, y) = choose|x: int, y: int|
            #![trigger u[x], u[y]]
            0 <= x < y < u.len() && (x < a + 1 || (x == a + 1 && y < a + 2)) && ((u[x]@ == p && u[y]@
                == q) || (u[x]@ == q && u[y]@ == p)) && seq_less(p, q);
        assert(x < a || (x == a && y < u.len()));
    }
    if done_pair(u, a, u.len() as int, p, q) {
        let (x, y) = choose|x: int, y: int|
            #![trigger u[x], u[y]]
            0 <= x < y < u.len() && (x < a || (x == a && y < u.len())) && ((u[x]@ == p && u[y]@
                == q) || (u[x]@ == q && u[y]@ == p)) && seq_less(p, q);
        assert(x < a + 1);
    }
}

proof fn lemma_done_pair_all(u: Seq<String>, p: Seq<char>, q: Seq<char>)
    ensures
        done_pair(u, u.len() as int, u.len() as int + 1, p, q) == pair_counted(name_set(u), p, q),
{
    let n = u.len() as int;
    if pair_counted(name_set(u), p, q) {
        let i = choose|i: int| 0 <= i < u.len() && (#[trigger] u[i])@ == p;
        let j = choose|j: int| 0 <= j < u.len() && (#[trigger] u[j])@ == q;
        lemma_seq_less_trichotomy(p, q);
        assert(i != j);
        if i < j {
            assert(done_pair(u, n, n + 1, p, q)) by {
                assert(u[i] == u[i] && u[j] == u[j]);
            }
        } else {
            assert(done_pair(u, n, n + 1, p, q)) by {
                assert(u[j] == u[j] && u[i] == u[i]);
            }
        }
    }
    if done_pair(u, n, n + 1, p, q) {
        let (x, y) = choose|x: int, y: int|
            #![trigger u[x], u[y]]
            0 <= x < y < u.len() && (x < n || (x == n && y < n + 1)) && ((u[x]@ == p && u[y]@ == q) || (
            u[x]@ == q && u[y]@ == p)) && seq_less(p, q);
        assert(name_set(u).contains(u[x]@));
        assert(name_set(u).contains(u[y]@));
    }
}

proof fn lemma_name_set_push(u: Seq<String>, i: int)
    requires
        0 <= i < u.len(),
    ensures
        name_set(u.take(i + 1)) == name_set(u.take(i)).insert(u[i]@),
{
    assert forall|x: Seq<char>| #[trigger] name_set(u.take(i + 1)).contains(x) == name_set(u.take(i)).insert(
        u[i]@,
    ).contains(x) by {
        if name_set(u.take(i + 1)).contains(x) {
            let k = choose|k: int| 0 <= k < i + 1 && (#[trigger] u.take(i + 1)[k])@ == x;
            if k < i {
                assert(u.take(i)[k] == u.take(i + 1)[k]);
            }
        }
        if name_set(u.take(i)).contains(x) {
            let k = choose|k: int| 0 <= k < i && (#[trigger] u.take(i)[k])@ == x;
            assert(u.take(i)[k] == u.take(i + 1)[k]);
        }
        if x == u[i]@ {
            assert(u.take(i + 1)[i] == u[i]);
        }
    }
    assert(name_set(u.take(i + 1)) =~= name_set(u.take(i)).insert(u[i]@));
}

/// The distinct names of `props`, first occurrences in order.
pub fn distinct_names(props: &[String]) -> (r: Vec<String>)
    ensures
        keys_distinct_names(r@),
        name_set(r@) == name_set(props@),
{
    let mut out: Vec<String> = Vec::new();
    let mut i: usize = 0;
    while i < props.len()
        invariant
            i <= props@.len(),
            keys_distinct_names(out@),
            name_set(out@) == name_set(props@.take(i as int)),
        decreases props@.len() - i,
    {
        let p = &props[i];
        let mut found = false;
        let mut j: usize = 0;
        while j < out.len()
            invariant
                j <= out@.len(),
                found == exists|k: int| 0 <= k < j && (#[trigger] out@[k])@ == p@,
            decreases out@.len() - j,
        {
            if out[j] == *p {
                found = true;
            }
            j = j + 1;
        }
        let ghost before = out@;
        if !found {
            let pc = p.clone();
            out.push(pc);
            proof {
                assert forall|a: int, b: int|
                    0 <= a < out@.len() && 0 <= b < out@.len() && a != b implies (#[trigger] out@[a])@
                        != (#[trigger] out@[b])@ by {
                    if a < before.len() && b < before.len() {
                        assert(out@[a] == before[a]);
                        assert(out@[b] == before[b]);
                    } else if a == before.len() {
                        assert(out@[b] == before[b]);
                    } else {
                        assert(out@[a] == before[a]);
                    }
                }
                assert(out@ == before.push(pc));
            }
        }
        proof {
            lemma_name_set_push(props@, i as int);
            assert forall|x: Seq<char>| #[trigger] name_set(out@).contains(x) == name_set(before).insert(
                p@,
            ).contains(x) by {
                if name_set(out@).contains(x) {
                    let k = choose|k: int| 0 <= k < out@.len() && (#[trigger] out@[k])@ == x;
                    if k < before.len() {
                        assert(out@[k] == before[k]);
                    }
                }
                if name_set(before).contains(x) {
                    let k = choose|k: int| 0 <= k < before.len() && (#[trigger] before[k])@ == x;
                    if !found {
                        assert(out@[k] == before[k]);
                    }
                }
                if x == p@ && !found {
                    assert(out@[before.len() as int]@ == p@);
                }
                if x == p@ && found {
                    let k = choose|k: int| 0 <= k < before.len() && (#[trigger] before[k])@ == p@;
                    assert(name_set(before).contains(before[k]@));
                }
            }
            assert(name_set(out@) =~= name_set(props@.take(i + 1)));
        }
        i = i + 1;
    }
    proof {
        assert(props@.take(props@.len() as int) =~= props@);
    }
    out
}

/// Add one to the count under `k`.
fn bump(m: &mut StrMap<u64>, k: &String)
    requires
        count_in(old(m)@, k@) < u64::MAX,
    ensures
        final(m)@ == old(m)@.insert(k@, (count_in(old(m)@, k@) + 1) as u64),
{
    let cur = match m.get(k.as_str()) {
        Some(c) => *c,
        None => 0,
    };
    m.insert(k.clone(), cur + 1);
}

/// Add one to the count of the pair `(a, b)`.
fn bump_pair(m: &mut StrMap<StrMap<u64>>, a: &String, b: &String)
    requires
        pair_in(old(m)@, a@, b@) < u64::MAX,
    ensures
        forall|x: Seq<char>, y: Seq<char>|
            #[trigger] pair_in(final(m)@, x, y) == pair_in(old(m)@, x, y) + (if x == a@ && y == b@ {
                1int
            } else {
                0int
            }),
{
    let mut inner = match m.remove(a.as_str()) {
        Some(t) => t,
        None => StrMap::new(),
    };
    let ghost inner0 = inner@;
    bump(&mut inner, b);
    m.insert(a.clone(), inner);
    proof {
        assert forall|x: Seq<char>, y: Seq<char>|
            #[trigger] pair_in(m@, x, y) == pair_in(old(m)@, x, y) + (if x == a@ && y == b@ {
                1int
            } else {
                0int
            }) by {
            if x == a@ {
                assert(m@[x]@ == inner0.insert(b@, (count_in(inner0, b@) + 1) as u64));
            }
        }
    }
}


/// Matches observed under key `k` (zero when never observed).
pub open spec fn t_total(m: Map<Seq<char>, PropertyTable>, k: Seq<char>) -> nat {
    if m.contains_key(k) {
        m[k].total()
    } else {
        0
    }
}

/// Matches under key `k` that contained property `x`.
pub open spec fn t_count(m: Map<Seq<char>, PropertyTable>, k: Seq<char>, x: Seq<char>) -> nat {
    if m.contains_key(k) {
        m[k].count(x)
    } else {
        0
    }
}

/// Distinct properties seen under key `k`.
pub open spec fn t_vocab(m: Map<Seq<char>, PropertyTable>, k: Seq<char>) -> Set<Seq<char>> {
    if m.contains_key(k) {
        m[k].vocab()
    } else {
        Set::empty()
    }
}

/// Matches under key `k` in which `a` and `b` (with `a` first) co-occurred.
pub open spec fn t_pair(m: Map<Seq<char>, PropertyTable>, k: Seq<char>, a: Seq<char>, b: Seq<char>) -> nat {
    if m.contains_key(k) {
        m[k].pair(a, b)
    } else {
        0
    }
}

/// One more observation under `k` fits the counters.
pub open spec fn can_observe(m: Map<Seq<char>, PropertyTable>, k: Seq<char>, props: Set<Seq<char>>, pairs: bool) -> bool {
    &&& t_total(m, k) < u64::MAX
    &&& forall|x: Seq<char>| props.contains(x) ==> #[trigger] t_count(m, k, x) < u64::MAX
    &&& pairs ==> forall|a: Seq<char>, b: Seq<char>|
        pair_counted(props, a, b) ==> #[trigger] t_pair(m, k, a, b) < u64::MAX
}

/// `m2` is `m1` after one observation of the property set `props` under `k`:
/// every other key's table is untouched.
pub open spec fn observed_once(
    m2: Map<Seq<char>, PropertyTable>,
    m1: Map<Seq<char>, PropertyTable>,
    k: Seq<char>,
    props: Set<Seq<char>>,
    pairs: bool,
) -> bool {
    &&& m2.dom() == m1.dom().insert(k)
    &&& forall|q: Seq<char>| q != k && #[trigger] m1.contains_key(q) ==> m2[q] == m1[q]
    &&& t_total(m2, k) == t_total(m1, k) + 1
    &&& forall|x: Seq<char>|
        #[trigger] t_count(m2, k, x) == t_count(m1, k, x) + (if props.contains(x) { 1int } else { 0int })
    &&& t_vocab(m2, k) == t_vocab(m1, k).union(props)
    &&& forall|a: Seq<char>, b: Seq<char>|
        #[trigger] t_pair(m2, k, a, b) == t_pair(m1, k, a, b) + (if pairs && pair_counted(props, a, b) {
            1int
        } else {
            0int
        })
}

/// Record one observation of `properties` under `key`, creating its table
/// on first use.
pub fn observe_in(tables: &mut StrMap<PropertyTable>, key: &str, properties: &[String], pairs: bool)
    requires
        can_observe(old(tables)@, key@, name_set(properties@), pairs),
    ensures
        observed_once(final(tables)@, old(tables)@, key@, name_set(properties@), pairs),
{
    let ghost props = name_set(properties@);
    let ghost m1 = tables@;
    let mut t = match tables.remove(key) {
        Some(t) => t,
        None => PropertyTable::new(),
    };
    proof {
        assert forall|x: Seq<char>| props.contains(x) implies #[trigger] t.count(x) < u64::MAX by {
            assert(t_count(m1, key@, x) < u64::MAX);
        }
        if pairs {
            assert forall|a: Seq<char>, b: Seq<char>| pair_counted(props, a, b) implies #[trigger] t.pair(a, b) < u64::MAX by {
                assert(t_pair(m1, key@, a, b) < u64::MAX);
            }
        }
    }
    let ghost t0 = t;
    t.record(properties, pairs);
    let ghost t1 = t;
    tables.insert(key.to_owned(), t);
    proof {
        let m2 = tables@;
        assert(m2.dom() =~= m1.dom().insert(key@));
        assert(m2[key@] == t1);
        assert forall|x: Seq<char>| #[trigger] t_count(m2, key@, x) == t_count(m1, key@, x) + (if props.contains(x) {
            1int
        } else {
            0int
        }) by {
            assert(t1.count(x) == t0.count(x) + (if props.contains(x) { 1int } else { 0int }));
        }
        assert forall|a: Seq<char>, b: Seq<char>| #[trigger] t_pair(m2, key@, a, b) == t_pair(m1, key@, a, b) + (if pairs
            && pair_counted(props, a, b) {
            1int
        } else {
            0int
        }) by {
            assert(t1.pair(a, b) == t0.pair(a, b) + (if pairs && pair_counted(props, a, b) { 1int } else { 0int }));
        }
        if !m1.contains_key(key@) {
            assert(t0.vocab() =~= Set::<Seq<char>>::empty());
        }
        assert(t_vocab(m2, key@) =~= t_vocab(m1, key@).union(props));
    }
}

/// The number of distinct properties seen under `key`, and the table's
/// counters `(count of property, matches)` when the key was observed.
pub fn table_terms(tables: &StrMap<PropertyTable>, key: &str, property: &str) -> (r: Option<(u64, u64, usize)>)
    ensures
        match r {
            Some((c, t, v)) => tables@.contains_key(key@) && c == t_count(tables@, key@, property@) && t
                == t_total(tables@, key@) && v == t_vocab(tables@, key@).len() && t_vocab(tables@, key@).finite(),
            None => !tables@.contains_key(key@),
        },
{
    match tables.get(key) {
        Some(t) => {
            let c = match t.property_counts.get(property) {
                Some(c) => *c,
                None => 0,
            };
            let v = t.property_counts.len();
            Some((c, t.total_matches, v))
        },
        None => None,
    }
}

} // verus!
