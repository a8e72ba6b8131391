//! Pattern-level surprise bookkeeping (Shannon surprise).
//!
//! The surprise of a pattern is `-log2(p / baseline)` with the Laplace
//! smoothed match rate `p = (count + 1) / (rounds + 1)`. This scorer keeps
//! the integer side of that formula: how many observation rounds there were,
//! how often each pattern (by registration index) matched, and each
//! pattern's baseline, carried as the bits of an IEEE-754 double. Counters
//! saturate at `u64::MAX`.

use crate::pattern::Pattern;
use crate::types::{Match, SiftEvent};
use vstd::prelude::*;

verus! {

/// The keys of an association list are pairwise distinct.
pub open spec fn keys_distinct(e: Seq<(usize, u64)>) -> bool {
    forall|i: int, j: int| 0 <= i < j < e.len() ==> (#[trigger] e[i]).0 != (#[trigger] e[j]).0
}

/// The value an association list holds for `k`.
pub open spec fn lookup(e: Seq<(usize, u64)>, k: usize) -> Option<u64>
    decreases e.len(),
{
    if e.len() == 0 {
        None
    } else if e.last().0 == k {
        Some(e.last().1)
    } else {
        lookup(e.drop_last(), k)
    }
}

/// `a + n`, capped at `u64::MAX`.
pub open spec fn sat_add(a: nat, n: nat) -> nat {
    if a + n > u64::MAX {
        u64::MAX as nat
    } else {
        a + n
    }
}

/// The first position of `name` in `names`, if it occurs.
#[verifier::opaque]
pub open spec fn position_of(names: Seq<Seq<char>>, name: Seq<char>) -> Option<int> {
    if exists|i: int| 0 <= i < names.len() && names[i] == name {
        Some(choose|i: int| 0 <= i < names.len() && names[i] == name && forall|j: int| 0 <= j < i ==> names[j] != name)
    } else {
        None
    }
}

/// The names of the patterns, in order.
pub open spec fn pattern_names<L, V>(patterns: Seq<Pattern<L, V>>) -> Seq<Seq<char>> {
    patterns.map_values(|p: Pattern<L, V>| p.name@)
}

/// Some match of `matches` is of the pattern at position `idx`.
pub open spec fn round_hits<N, V, T>(matches: Seq<Match<N, V, T>>, names: Seq<Seq<char>>, idx: int) -> bool {
    exists|i: int| 0 <= i < matches.len() && position_of(names, (#[trigger] matches[i]).pattern@) == Some(idx)
}

/// How many `Completed` events of `events` are of the pattern at position `idx`.
pub open spec fn completions_of<N, V>(events: Seq<SiftEvent<N, V>>, names: Seq<Seq<char>>, idx: int) -> nat
    decreases events.len(),
{
    if events.len() == 0 {
        0
    } else {
        completions_of(events.drop_last(), names, idx) + match events.last() {
            SiftEvent::Completed { pattern, .. } => if position_of(names, pattern@) == Some(idx) {
                1nat
            } else {
                0nat
            },
            _ => 0nat,
        }
    }
}

proof fn lemma_lookup_none(e: Seq<(usize, u64)>, k: usize)
    ensures
        lookup(e, k) is None <==> forall|i: int| 0 <= i < e.len() ==> (#[trigger] e[i]).0 != k,
    decreases e.len(),
{
    if e.len() > 0 {
        let d = e.drop_last();
        lemma_lookup_none(d, k);
        if lookup(e, k) is None {
            assert forall|i: int| 0 <= i < e.len() implies (#[trigger] e[i]).0 != k by {
                if i < e.len() - 1 {
                    assert(d[i] == e[i]);
                }
            }
        }
        if forall|i: int| 0 <= i < e.len() ==> (#[trigger] e[i]).0 != k {
            assert forall|i: int| 0 <= i < d.len() implies (#[trigger] d[i]).0 != k by {
                assert(d[i] == e[i]);
            }
            assert(e[e.len() - 1].0 != k);
        }
    }
}

proof fn lemma_lookup_at(e: Seq<(usize, u64)>, i: int)
    requires
        keys_distinct(e),
        0 <= i < e.len(),
    ensures
        lookup(e, e[i].0) == Some(e[i].1),
    decreases e.len(),
{
    if i < e.len() - 1 {
        assert(e.drop_last()[i] == e[i]);
        lemma_lookup_at(e.drop_last(), i);
    }
}

proof fn lemma_lookup_update(e: Seq<(usize, u64)>, i: int, v: u64, k: usize)
    requires
        keys_distinct(e),
        0 <= i < e.len(),
    ensures
        keys_distinct(e.update(i, (e[i].0, v))),
        lookup(e.update(i, (e[i].0, v)), k) == if k == e[i].0 {
            Some(v)
        } else {
            lookup(e, k)
        },
    decreases e.len(),
{
    let u = e.update(i, (e[i].0, v));
    assert forall|a: int, b: int| 0 <= a < b < u.len() implies (#[trigger] u[a]).0 != (#[trigger] u[b]).0 by {
        assert(u[a].0 == e[a].0 && u[b].0 == e[b].0);
    }
    if i == e.len() - 1 {
        assert(u.drop_last() =~= e.drop_last());
    } else {
        lemma_lookup_update(e.drop_last(), i, v, k);
        assert(u.drop_last() =~= e.drop_last().update(i, (e[i].0, v)));
        assert(e.last().0 != e[i].0);
    }
}

proof fn lemma_round_hits_step<N, V, T>(matches: Seq<Match<N, V, T>>, names: Seq<Seq<char>>, i: int)
    requires
        0 <= i < matches.len(),
    ensures
        forall|x: int| #[trigger] round_hits(matches.take(i + 1), names, x) <==> (round_hits(matches.take(i), names, x)
            || position_of(names, matches[i].pattern@) == Some(x)),
{
    let t = matches.take(i + 1);
    let u = matches.take(i);
    assert forall|x: int| #[trigger] round_hits(t, names, x) <==> (round_hits(u, names, x) || position_of(
        names,
        matches[i].pattern@,
    ) == Some(x)) by {
        if round_hits(t, names, x) {
            let w = choose|w: int| 0 <= w < t.len() && position_of(names, (#[trigger] t[w]).pattern@) == Some(x);
            if w < i {
                assert(u[w] == t[w]);
            }
        }
        if round_hits(u, names, x) {
            let w = choose|w: int| 0 <= w < u.len() && position_of(names, (#[trigger] u[w]).pattern@) == Some(x);
            assert(t[w] == u[w]);
        }
        if position_of(names, matches[i].pattern@) == Some(x) {
            assert(t[i] == matches[i]);
        }
    }
}

/// Set the value of `k` in an association list.
fn assoc_set(e: &mut Vec<(usize, u64)>, k: usize, v: u64)
    requires
        keys_distinct(old(e)@),
    ensures
        keys_distinct(final(e)@),
        forall|x: usize| #[trigger] lookup(final(e)@, x) == if x == k {
            Some(v)
        } else {
            lookup(old(e)@, x)
        },
{
    let mut i: usize = 0;
    while i < e.len()
        invariant
            i <= e@.len(),
            e@ == old(e)@,
            keys_distinct(old(e)@),
            forall|j: int| 0 <= j < i ==> (#[trigger] e@[j]).0 != k,
        decreases e@.len() - i,
    {
        if e[i].0 == k {
            let ghost before = e@;
            e.set(i, (k, v));
            proof {
                assert forall|x: usize| #[trigger] lookup(e@, x) == if x == k {
                    Some(v)
                } else {
                    lookup(before, x)
                } by {
                    lemma_lookup_update(before, i as int, v, x);
                    assert(e@ =~= before.update(i as int, (before[i as int].0, v)));
                }
                lemma_lookup_update(before, i as int, v, k);
                assert(e@ =~= before.update(i as int, (before[i as int].0, v)));
            }
            return;
        }
        i = i + 1;
    }
    let ghost before = e@;
    proof {
        lemma_lookup_none(before, k);
    }
    e.push((k, v));
    proof {
        assert(e@.drop_last() =~= before);
        assert forall|a: int, b: int| 0 <= a < b < e@.len() implies (#[trigger] e@[a]).0 != (#[trigger] e@[b]).0 by {
            if b == e@.len() - 1 {
                assert(e@[a] == before[a]);
            } else {
                assert(e@[a] == before[a] && e@[b] == before[b]);
            }
        }
    }
}

/// The value of `k` in an association list.
fn assoc_get(e: &Vec<(usize, u64)>, k: usize) -> (r: Option<u64>)
    requires
        keys_distinct(e@),
    ensures
        r == lookup(e@, k),
{
    let mut i: usize = 0;
    while i < e.len()
        invariant
            i <= e@.len(),
            keys_distinct(e@),
            forall|j: int| 0 <= j < i ==> (#[trigger] e@[j]).0 != k,
        decreases e@.len() - i,
    {
        if e[i].0 == k {
            proof {
                lemma_lookup_at(e@, i as int);
            }
            return Some(e[i].1);
        }
        i = i + 1;
    }
    proof {
        lemma_lookup_none(e@, k);
    }
    None
}

/// The position of the first pattern named `name`, if any.
pub fn pattern_position<L, V>(patterns: &[Pattern<L, V>], name: &String) -> (r: Option<usize>)
    ensures
        match r {
            Some(i) => position_of(pattern_names(patterns@), name@) == Some(i as int),
            None => position_of(pattern_names(patterns@), name@) is None,
        },
{
    let ghost names = pattern_names(patterns@);
    let mut i: usize = 0;
    while i < patterns.len()
        invariant
            i <= patterns@.len(),
            names == pattern_names(patterns@),
            forall|j: int| 0 <= j < i ==> names[j] != name@,
        decreases patterns@.len() - i,
    {
        if patterns[i].name == *name {
            proof {
                reveal(position_of);
                assert(names[i as int] == name@);
                let c = choose|c: int| 0 <= c < names.len() && names[c] == name@ && forall|j: int| 0 <= j < c ==> names[j] != name@;
                if c < i {
                    assert(names[c] != name@);
                } else if c > i {
                    assert(names[i as int] != name@);
                }
            }
            return Some(i);
        }
        i = i + 1;
    }
    proof {
        reveal(position_of);
    }
    None
}

/// Pattern-level surprise bookkeeping: baselines, match counts and rounds.
pub struct SurpriseScorer {
    baselines: Vec<(usize, u64)>,
    counts: Vec<(usize, u64)>,
    total_rounds: u64,
}

impl SurpriseScorer {
    /// The baseline of a pattern (as the bits of a double), if set.
    pub closed spec fn baseline_of(self, idx: usize) -> Option<u64> {
        lookup(self.baselines@, idx)
    }

    /// The observed match count of a pattern.
    pub closed spec fn count_of(self, idx: usize) -> nat {
        match lookup(self.counts@, idx) {
            Some(c) => c as nat,
            None => 0,
        }
    }

    /// The observation rounds recorded.
    pub closed spec fn rounds(self) -> nat {
        self.total_rounds as nat
    }

    /// The association lists have distinct keys.
    #[verifier::type_invariant]
    spec fn inv(self) -> bool {
        keys_distinct(self.baselines@) && keys_distinct(self.counts@)
    }

    /// A scorer with no baselines and no observations.
    pub fn new() -> (r: Self)
        ensures
            r.rounds() == 0,
            forall|idx: usize| #[trigger] r.count_of(idx) == 0,
            forall|idx: usize| #[trigger] r.baseline_of(idx) is None,
    {
        SurpriseScorer { baselines: Vec::new(), counts: Vec::new(), total_rounds: 0 }
    }

    /// Set the expected match frequency of a pattern, given as the bits of a
    /// double.
    pub fn set_baseline_bits(&mut self, pattern_idx: usize, bits: u64)
        ensures
            forall|idx: usize| #[trigger] final(self).baseline_of(idx) == if idx == pattern_idx {
                Some(bits)
            } else {
                old(self).baseline_of(idx)
            },
            forall|idx: usize| #[trigger] final(self).count_of(idx) == old(self).count_of(idx),
            final(self).rounds() == old(self).rounds(),
    {
        proof {
            use_type_invariant(&*self);
        }
        let mut baselines: Vec<(usize, u64)> = Vec::new();
        std::mem::swap(&mut baselines, &mut self.baselines);
        assoc_set(&mut baselines, pattern_idx, bits);
        self.baselines = baselines;
    }

    /// The baseline of a pattern, as the bits of a double; `None` if unset.
    pub fn baseline_bits(&self, pattern_idx: usize) -> (r: Option<u64>)
        ensures
            r == self.baseline_of(pattern_idx),
    {
        proof {
            use_type_invariant(self);
        }
        assoc_get(&self.baselines, pattern_idx)
    }

    /// Observed match count for a pattern.
    pub fn count_for(&self, pattern_idx: usize) -> (r: u64)
        ensures
            r == self.count_of(pattern_idx),
    {
        proof {
            use_type_invariant(self);
        }
        match assoc_get(&self.counts, pattern_idx) {
            Some(c) => c,
            None => 0,
        }
    }

    /// Total observation rounds recorded.
    pub fn total_rounds(&self) -> (r: u64)
        ensures
            r == self.rounds(),
    {
        self.total_rounds
    }

    /// Mark one observation round in incremental mode.
    pub fn tick(&mut self)
        ensures
            final(self).rounds() == sat_add(old(self).rounds(), 1),
            forall|idx: usize| #[trigger] final(self).count_of(idx) == old(self).count_of(idx),
            forall|idx: usize| #[trigger] final(self).baseline_of(idx) == old(self).baseline_of(idx),
    {
        proof {
            use_type_invariant(&*self);
        }
        self.total_rounds = self.total_rounds.saturating_add(1);
    }

    /// Add one to a pattern's count (saturating).
    fn bump(&mut self, idx: usize)
        ensures
            forall|x: usize| #[trigger] final(self).count_of(x) == if x == idx {
                sat_add(old(self).count_of(idx), 1)
            } else {
                old(self).count_of(x)
            },
            forall|x: usize| #[trigger] final(self).baseline_of(x) == old(self).baseline_of(x),
            final(self).rounds() == old(self).rounds(),
    {
        proof {
            use_type_invariant(&*self);
        }
        let c = match assoc_get(&self.counts, idx) {
            Some(c) => c,
            None => 0,
        };
        let mut counts: Vec<(usize, u64)> = Vec::new();
        std::mem::swap(&mut counts, &mut self.counts);
        assoc_set(&mut counts, idx, c.saturating_add(1));
        self.counts = counts;
    }

    /// Record one round of batch results: the round counter grows by one
    /// and each pattern that matched in the round (matches are mapped to
    /// the first pattern of the same name) is counted once.
    pub fn observe<N, V, L, VV>(&mut self, matches: &[Match<N, V, i64>], patterns: &[Pattern<L, VV>])
        ensures
            final(self).rounds() == sat_add(old(self).rounds(), 1),
            forall|idx: usize| #[trigger] final(self).count_of(idx) == if round_hits(matches@, pattern_names(patterns@), idx as int) {
                sat_add(old(self).count_of(idx), 1)
            } else {
                old(self).count_of(idx)
            },
            forall|idx: usize| #[trigger] final(self).baseline_of(idx) == old(self).baseline_of(idx),
    {
        proof {
            use_type_invariant(&*self);
        }
        self.total_rounds = self.total_rounds.saturating_add(1);
        let ghost names = pattern_names(patterns@);
        let mut counted: Vec<usize> = Vec::new();
        let mut i: usize = 0;
        while i < matches.len()
            invariant
                i <= matches@.len(),
                names == pattern_names(patterns@),
                self.rounds() == sat_add(old(self).rounds(), 1),
                forall|x: usize| #[trigger] self.baseline_of(x) == old(self).baseline_of(x),
                forall|x: usize| counted@.contains(x) <==> round_hits(matches@.take(i as int), names, x as int),
                forall|x: usize| #[trigger] self.count_of(x) == if round_hits(matches@.take(i as int), names, x as int) {
                    sat_add(old(self).count_of(x), 1)
                } else {
                    old(self).count_of(x)
                },
            decreases matches@.len() - i,
        {
            let pos = pattern_position(patterns, &matches[i].pattern);
            proof {
                lemma_round_hits_step(matches@, names, i as int);
            }
            match pos {
                Some(idx) => {
                    if !crate::pattern::contains_index(&counted, idx) {
                        let ghost before = counted@;
                        self.bump(idx);
                        counted.push(idx);
                        proof {
                            assert forall|x: usize| counted@.contains(x) <==> round_hits(matches@.take(i + 1), names, x as int) by {
                                crate::engine::sift::lemma_contains_push(before, idx, x);
                                assert(before.push(idx) =~= counted@);
                                assert(round_hits(matches@.take(i + 1), names, x as int) <==> (round_hits(matches@.take(i as int), names, x as int) || x == idx));
                            }
                        }
                    }
                },
                None => {},
            }
            i = i + 1;
        }
        proof {
            assert(matches@.take(matches@.len() as int) =~= matches@);
        }
    }

    /// Record the `Completed` events of an incremental step: each counts
    /// once for the first pattern of its name. The round counter is left
    /// alone (see [`SurpriseScorer::tick`]).
    pub fn observe_events<N, V, L, VV>(&mut self, events: &[SiftEvent<N, V>], patterns: &[Pattern<L, VV>])
        ensures
            final(self).rounds() == old(self).rounds(),
            forall|idx: usize| #[trigger] final(self).count_of(idx) == sat_add(
                old(self).count_of(idx),
                completions_of(events@, pattern_names(patterns@), idx as int),
            ),
            forall|idx: usize| #[trigger] final(self).baseline_of(idx) == old(self).baseline_of(idx),
    {
        let ghost names = pattern_names(patterns@);
        let mut i: usize = 0;
        while i < events.len()
            invariant
                i <= events@.len(),
                names == pattern_names(patterns@),
                self.rounds() == old(self).rounds(),
                forall|x: usize| #[trigger] self.baseline_of(x) == old(self).baseline_of(x),
                forall|x: usize| #[trigger] self.count_of(x) == sat_add(
                    old(self).count_of(x),
                    completions_of(events@.take(i as int), names, x as int),
                ),
            decreases events@.len() - i,
        {
            proof {
                assert(events@.take(i + 1).drop_last() =~= events@.take(i as int));
            }
            match &events[i] {
                SiftEvent::Completed { pattern, .. } => {
                    match pattern_position(patterns, pattern) {
                        Some(idx) => {
                            self.bump(idx);
                        },
                        None => {},
                    }
                },
                _ => {},
            }
            i = i + 1;
        }
        proof {
            assert(events@.take(events@.len() as int) =~= events@);
        }
    }

    /// Forget the observations (counts and rounds); baselines are kept.
    pub fn reset_counts(&mut self)
        ensures
            final(self).rounds() == 0,
            forall|idx: usize| #[trigger] final(self).count_of(idx) == 0,
            forall|idx: usize| #[trigger] final(self).baseline_of(idx) == old(self).baseline_of(idx),
    {
        proof {
            use_type_invariant(&*self);
        }
        self.counts = Vec::new();
        self.total_rounds = 0;
    }
}

} // verus!
