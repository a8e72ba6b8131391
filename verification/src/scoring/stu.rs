//! Property-level surprise bookkeeping (Select the Unexpected).
//!
//! Matches are scored by the empirical frequency of their properties. This
//! scorer keeps the counts: per pattern, how many matches were observed, in
//! how many each property occurred, and (optionally) how often two
//! properties occurred together. The smoothed frequency of a property is
//! `(count + 1) / (matches + vocabulary)`; its integer terms come from
//! [`StuScorer::frequency_terms`].

use crate::scoring::table::{
    can_observe, name_set, observe_in, observed_once, pair_counted, t_count, t_pair, t_total, t_vocab,
    table_terms, PropertyTable,
};
use crate::strmap::StrMap;
use crate::text::{lemma_seq_less_trichotomy, seq_less, str_less};
use vstd::prelude::*;

verus! {

/// How many matches of `pattern` held both properties, looked up under
/// their canonical (sorted) order.
pub open spec fn pair_of(m: Map<Seq<char>, PropertyTable>, pattern: Seq<char>, pi: Seq<char>, pj: Seq<char>) -> nat {
    if seq_less(pi, pj) {
        t_pair(m, pattern, pi, pj)
    } else {
        t_pair(m, pattern, pj, pi)
    }
}

/// The pair count of two properties does not depend on the order in which
/// they are named.
pub proof fn law_pair_count_symmetric(m: Map<Seq<char>, PropertyTable>, pattern: Seq<char>, pi: Seq<char>, pj: Seq<char>)
    ensures
        pair_of(m, pattern, pi, pj) == pair_of(m, pattern, pj, pi),
{
    lemma_seq_less_trichotomy(pi, pj);
}

/// Aggregation strategy for combining per-property frequencies into a score.
#[derive(Debug, Clone, Copy, PartialEq, Eq, Structural)]
pub enum StuAggregation {
    /// Arithmetic mean of per-property frequencies. Lower = more surprising.
    ArithmeticMean,
    /// TF-IDF style: `sum(-log2(freq))`. Higher = more surprising.
    TfIdf,
    /// Geometric mean of per-property frequencies. Lower = more surprising.
    GeometricMean,
    /// Minimum per-property frequency. Lower = more surprising.
    Min,
}

impl Default for StuAggregation {
    fn default() -> (r: Self)
        ensures
            r == StuAggregation::ArithmeticMean,
    {
        StuAggregation::ArithmeticMean
    }
}

/// Observations with pattern `p`.
pub open spec fn n_obs(obs: Seq<(&str, &[String])>, p: Seq<char>) -> nat
    decreases obs.len(),
{
    if obs.len() == 0 {
        0
    } else {
        n_obs(obs.drop_last(), p) + (if obs.last().0@ == p { 1nat } else { 0nat })
    }
}

/// Observations with pattern `p` whose properties include `x`.
pub open spec fn n_obs_with(obs: Seq<(&str, &[String])>, p: Seq<char>, x: Seq<char>) -> nat
    decreases obs.len(),
{
    if obs.len() == 0 {
        0
    } else {
        n_obs_with(obs.drop_last(), p, x) + (if obs.last().0@ == p && name_set(obs.last().1@).contains(x) {
            1nat
        } else {
            0nat
        })
    }
}

/// Observations with pattern `p` in which `a` and `b` (with `a` first) co-occur.
pub open spec fn n_obs_pair(obs: Seq<(&str, &[String])>, p: Seq<char>, a: Seq<char>, b: Seq<char>) -> nat
    decreases obs.len(),
{
    if obs.len() == 0 {
        0
    } else {
        n_obs_pair(obs.drop_last(), p, a, b) + (if obs.last().0@ == p && pair_counted(
            name_set(obs.last().1@),
            a,
            b,
        ) {
            1nat
        } else {
            0nat
        })
    }
}

/// Properties observed with pattern `p`.
pub open spec fn obs_vocab(obs: Seq<(&str, &[String])>, p: Seq<char>) -> Set<Seq<char>>
    decreases obs.len(),
{
    if obs.len() == 0 {
        Set::empty()
    } else {
        obs_vocab(obs.drop_last(), p).union(
            if obs.last().0@ == p {
                name_set(obs.last().1@)
            } else {
                Set::empty()
            },
        )
    }
}

/// Patterns named by the observations.
pub open spec fn obs_patterns(obs: Seq<(&str, &[String])>) -> Set<Seq<char>> {
    Set::new(|p: Seq<char>| exists|i: int| 0 <= i < obs.len() && (#[trigger] obs[i]).0@ == p)
}

proof fn lemma_counts_prefix(obs: Seq<(&str, &[String])>, j: int, p: Seq<char>, x: Seq<char>, b: Seq<char>)
    requires
        0 <= j <= obs.len(),
    ensures
        n_obs(obs.take(j), p) <= n_obs(obs, p),
        n_obs_with(obs.take(j), p, x) <= n_obs_with(obs, p, x),
        n_obs_pair(obs.take(j), p, x, b) <= n_obs_pair(obs, p, x, b),
    decreases obs.len(),
{
    if j < obs.len() {
        assert(obs.drop_last().take(j) =~= obs.take(j));
        lemma_counts_prefix(obs.drop_last(), j, p, x, b);
    } else {
        assert(obs.take(j) =~= obs);
    }
}

/// Property-level surprise scorer state (Select the Unexpected).
#[derive(Debug)]
pub struct StuScorer {
    tables: StrMap<PropertyTable>,
    aggregation: StuAggregation,
    pmi_correction: bool,
}

impl StuScorer {
    /// Per-pattern frequency tables.
    pub closed spec fn tables_view(self) -> Map<Seq<char>, PropertyTable> {
        self.tables@
    }

    /// The aggregation mode.
    pub closed spec fn aggregation_view(self) -> StuAggregation {
        self.aggregation
    }

    /// Whether co-occurring pairs are counted.
    pub closed spec fn pmi_view(self) -> bool {
        self.pmi_correction
    }

    /// Create a new empty scorer with arithmetic mean aggregation.
    pub fn new() -> (r: Self)
        ensures
            r.tables_view() == Map::<Seq<char>, PropertyTable>::empty(),
            r.aggregation_view() == StuAggregation::ArithmeticMean,
            !r.pmi_view(),
    {
        StuScorer { tables: StrMap::new(), aggregation: StuAggregation::ArithmeticMean, pmi_correction: false }
    }

    /// Set the aggregation strategy.
    pub fn with_aggregation(self, aggregation: StuAggregation) -> (r: Self)
        ensures
            r.aggregation_view() == aggregation,
            r.tables_view() == self.tables_view(),
            r.pmi_view() == self.pmi_view(),
    {
        let mut this = self;
        this.aggregation = aggregation;
        this
    }

    /// Count co-occurring property pairs from now on (for PMI correction).
    pub fn with_pmi_correction(self) -> (r: Self)
        ensures
            r.pmi_view(),
            r.tables_view() == self.tables_view(),
            r.aggregation_view() == self.aggregation_view(),
    {
        let mut this = self;
        this.pmi_correction = true;
        this
    }

    /// The aggregation mode.
    pub fn aggregation(&self) -> (r: StuAggregation)
        ensures
            r == self.aggregation_view(),
    {
        self.aggregation
    }

    /// Whether co-occurring pairs are counted.
    pub fn pmi_correction(&self) -> (r: bool)
        ensures
            r == self.pmi_view(),
    {
        self.pmi_correction
    }

    /// Record properties for a single match of `pattern`. Each distinct
    /// property counts once per match.
    pub fn observe_one(&mut self, pattern: &str, properties: &[String])
        requires
            can_observe(old(self).tables_view(), pattern@, name_set(properties@), old(self).pmi_view()),
        ensures
            observed_once(final(self).tables_view(), old(self).tables_view(), pattern@, name_set(properties@), old(self).pmi_view()),
            final(self).aggregation_view() == old(self).aggregation_view(),
            final(self).pmi_view() == old(self).pmi_view(),
    {
        observe_in(&mut self.tables, pattern, properties, self.pmi_correction);
    }

    /// Record properties for a batch of matches, in order; each entry is
    /// `(pattern_name, properties)`.
    pub fn observe_batch(&mut self, observations: &[(&str, &[String])])
        requires
            forall|p: Seq<char>| #[trigger] t_total(old(self).tables_view(), p) + n_obs(observations@, p) <= u64::MAX,
            forall|p: Seq<char>, x: Seq<char>|
                #[trigger] t_count(old(self).tables_view(), p, x) + n_obs_with(observations@, p, x) <= u64::MAX,
            old(self).pmi_view() ==> forall|p: Seq<char>, a: Seq<char>, b: Seq<char>|
                #[trigger] t_pair(old(self).tables_view(), p, a, b) + n_obs_pair(observations@, p, a, b) <= u64::MAX,
        ensures
            final(self).tables_view().dom() == old(self).tables_view().dom().union(obs_patterns(observations@)),
            forall|p: Seq<char>|
                #[trigger] t_total(final(self).tables_view(), p) == t_total(old(self).tables_view(), p) + n_obs(observations@, p),
            forall|p: Seq<char>, x: Seq<char>|
                #[trigger] t_count(final(self).tables_view(), p, x) == t_count(old(self).tables_view(), p, x) + n_obs_with(
                    observations@,
                    p,
                    x,
                ),
            forall|p: Seq<char>|
                #[trigger] t_vocab(final(self).tables_view(), p) == t_vocab(old(self).tables_view(), p).union(
                    obs_vocab(observations@, p),
                ),
            forall|p: Seq<char>, a: Seq<char>, b: Seq<char>|
                #[trigger] t_pair(final(self).tables_view(), p, a, b) == t_pair(old(self).tables_view(), p, a, b) + (if old(
                    self,
                ).pmi_view() {
                    n_obs_pair(observations@, p, a, b)
                } else {
                    0
                }),
            final(self).aggregation_view() == old(self).aggregation_view(),
            final(self).pmi_view() == old(self).pmi_view(),
    {
        let ghost m0 = self.tables@;
        let ghost obs = observations@;
        let pmi = self.pmi_correction;
        proof {
            assert forall|p: Seq<char>| #[trigger] t_total(m0, p) + n_obs(obs, p) <= u64::MAX by {
                assert(t_total(old(self).tables_view(), p) + n_obs(observations@, p) <= u64::MAX);
            }
            assert forall|p: Seq<char>, x: Seq<char>| #[trigger] t_count(m0, p, x) + n_obs_with(obs, p, x) <= u64::MAX by {
                assert(t_count(old(self).tables_view(), p, x) + n_obs_with(observations@, p, x) <= u64::MAX);
            }
            if pmi {
                assert forall|p: Seq<char>, a: Seq<char>, b: Seq<char>|
                    #[trigger] t_pair(m0, p, a, b) + n_obs_pair(obs, p, a, b) <= u64::MAX by {
                    assert(t_pair(old(self).tables_view(), p, a, b) + n_obs_pair(observations@, p, a, b) <= u64::MAX);
                }
            }
            assert(obs.take(0) =~= Seq::<(&str, &[String])>::empty());
            assert(obs_patterns(obs.take(0)) =~= Set::<Seq<char>>::empty());
            assert(m0.dom() =~= m0.dom().union(obs_patterns(obs.take(0))));
            assert forall|p: Seq<char>| #[trigger] t_vocab(m0, p) == t_vocab(m0, p).union(obs_vocab(obs.take(0), p)) by {
                assert(t_vocab(m0, p) =~= t_vocab(m0, p).union(obs_vocab(obs.take(0), p)));
            }
        }
        let mut i: usize = 0;
        while i < observations.len()
            invariant
                i <= obs.len(),
                obs == observations@,
                pmi == self.pmi_correction,
                pmi == old(self).pmi_view(),
                self.aggregation == old(self).aggregation_view(),
                m0 == old(self).tables_view(),
                forall|p: Seq<char>| #[trigger] t_total(m0, p) + n_obs(obs, p) <= u64::MAX,
                forall|p: Seq<char>, x: Seq<char>| #[trigger] t_count(m0, p, x) + n_obs_with(obs, p, x) <= u64::MAX,
                pmi ==> forall|p: Seq<char>, a: Seq<char>, b: Seq<char>|
                    #[trigger] t_pair(m0, p, a, b) + n_obs_pair(obs, p, a, b) <= u64::MAX,
                self.tables@.dom() == m0.dom().union(obs_patterns(obs.take(i as int))),
                forall|p: Seq<char>| #[trigger] t_total(self.tables@, p) == t_total(m0, p) + n_obs(obs.take(i as int), p),
                forall|p: Seq<char>, x: Seq<char>|
                    #[trigger] t_count(self.tables@, p, x) == t_count(m0, p, x) + n_obs_with(obs.take(i as int), p, x),
                forall|p: Seq<char>| #[trigger] t_vocab(self.tables@, p) == t_vocab(m0, p).union(obs_vocab(obs.take(i as int), p)),
                forall|p: Seq<char>, a: Seq<char>, b: Seq<char>|
                    #[trigger] t_pair(self.tables@, p, a, b) == t_pair(m0, p, a, b) + (if pmi {
                        n_obs_pair(obs.take(i as int), p, a, b)
                    } else {
                        0
                    }),
            decreases obs.len() - i,
        {
            let (pattern, props) = observations[i];
            let ghost cur = self.tables@;
            let ghost k = pattern@;
            let ghost ps = name_set(props@);
            let ghost pre = obs.take(i as int);
            let ghost post = obs.take(i + 1);
            proof {
                assert(post.drop_last() =~= pre);
                assert(post.last() == obs[i as int]);
                lemma_counts_prefix(obs, i + 1, k, Seq::empty(), Seq::empty());
                assert forall|x: Seq<char>| ps.contains(x) implies #[trigger] t_count(cur, k, x) < u64::MAX by {
                    lemma_counts_prefix(obs, i + 1, k, x, Seq::empty());
                }
                if pmi {
                    assert forall|a: Seq<char>, b: Seq<char>| pair_counted(ps, a, b) implies #[trigger] t_pair(cur, k, a, b)
                        < u64::MAX by {
                        lemma_counts_prefix(obs, i + 1, k, a, b);
                    }
                }
            }
            observe_in(&mut self.tables, pattern, props, pmi);
            proof {
                let nxt = self.tables@;
                assert forall|p: Seq<char>| #[trigger] obs_patterns(post).contains(p) == (obs_patterns(pre).contains(p) || p == k) by {
                    if obs_patterns(post).contains(p) {
                        let j = choose|j: int| 0 <= j < post.len() && (#[trigger] post[j]).0@ == p;
                        if j < i {
                            assert(pre[j] == post[j]);
                        }
                    }
                    if obs_patterns(pre).contains(p) {
                        let j = choose|j: int| 0 <= j < pre.len() && (#[trigger] pre[j]).0@ == p;
                        assert(pre[j] == post[j]);
                    }
                    if p == k {
                        assert(post[i as int].0@ == k);
                    }
                }
                assert(nxt.dom() =~= m0.dom().union(obs_patterns(post)));
                assert forall|p: Seq<char>| #[trigger] t_total(nxt, p) == t_total(m0, p) + n_obs(post, p) by {
                    assert(t_total(cur, p) == t_total(m0, p) + n_obs(pre, p));
                    assert(n_obs(post, p) == n_obs(pre, p) + (if k == p { 1nat } else { 0nat }));
                    if p != k {
                        if cur.contains_key(p) {
                            assert(nxt[p] == cur[p]);
                        }
                    }
                }
                assert forall|p: Seq<char>, x: Seq<char>| #[trigger] t_count(nxt, p, x) == t_count(m0, p, x) + n_obs_with(post, p, x) by {
                    assert(t_count(cur, p, x) == t_count(m0, p, x) + n_obs_with(pre, p, x));
                    assert(n_obs_with(post, p, x) == n_obs_with(pre, p, x) + (if k == p && ps.contains(x) { 1nat } else { 0nat }));
                    if p != k {
                        if cur.contains_key(p) {
                            assert(nxt[p] == cur[p]);
                        }
                    } else {
                        assert(t_count(nxt, k, x) == t_count(cur, k, x) + (if ps.contains(x) { 1int } else { 0int }));
                    }
                }
                assert forall|p: Seq<char>| #[trigger] t_vocab(nxt, p) == t_vocab(m0, p).union(obs_vocab(post, p)) by {
                    assert(t_vocab(cur, p) == t_vocab(m0, p).union(obs_vocab(pre, p)));
                    if p != k {
                        if cur.contains_key(p) {
                            assert(nxt[p] == cur[p]);
                        }
                        assert(obs_vocab(post, p) =~= obs_vocab(pre, p).union(Set::empty()));
                    } else {
                        assert(t_vocab(m0, p).union(obs_vocab(pre, p)).union(ps) =~= t_vocab(m0, p).union(obs_vocab(post, p)));
                    }
                }
                assert forall|p: Seq<char>, a: Seq<char>, b: Seq<char>| #[trigger] t_pair(nxt, p, a, b) == t_pair(m0, p, a, b) + (if pmi {
                    n_obs_pair(post, p, a, b)
                } else {
                    0
                }) by {
                    assert(t_pair(cur, p, a, b) == t_pair(m0, p, a, b) + (if pmi { n_obs_pair(pre, p, a, b) } else { 0 }));
                    assert(n_obs_pair(post, p, a, b) == n_obs_pair(pre, p, a, b) + (if k == p && pair_counted(ps, a, b) { 1nat } else { 0nat }));
                    if p != k {
                        if cur.contains_key(p) {
                            assert(nxt[p] == cur[p]);
                        }
                    } else {
                        assert(t_pair(nxt, k, a, b) == t_pair(cur, k, a, b) + (if pmi && pair_counted(ps, a, b) { 1int } else { 0int }));
                    }
                }
            }
            i = i + 1;
        }
        proof {
            assert(obs.take(obs.len() as int) =~= obs);
        }
    }

    /// Total matches observed for a pattern.
    pub fn match_count(&self, pattern: &str) -> (r: u64)
        ensures
            r == t_total(self.tables_view(), pattern@),
    {
        match self.tables.get(pattern) {
            Some(t) => t.total_matches,
            None => 0,
        }
    }

    /// Number of distinct properties seen for a pattern.
    pub fn vocabulary_size(&self, pattern: &str) -> (r: usize)
        ensures
            t_vocab(self.tables_view(), pattern@).finite(),
            r == t_vocab(self.tables_view(), pattern@).len(),
    {
        match self.tables.get(pattern) {
            Some(t) => t.property_counts.len(),
            None => 0,
        }
    }

    /// The integer terms of a property's smoothed frequency within a
    /// pattern's matches: `(count, matches, vocabulary)`, from which the
    /// frequency is `(count + 1) / (matches + vocabulary)`. `None` if the
    /// pattern has never been observed.
    pub fn frequency_terms(&self, pattern: &str, property: &str) -> (r: Option<(u64, u64, usize)>)
        ensures
            match r {
                Some((c, t, v)) => self.tables_view().contains_key(pattern@) && c == t_count(self.tables_view(), pattern@, property@)
                    && t == t_total(self.tables_view(), pattern@) && v == t_vocab(self.tables_view(), pattern@).len(),
                None => !self.tables_view().contains_key(pattern@),
            },
    {
        table_terms(&self.tables, pattern, property)
    }

    /// How many matches of `pattern` contained both `pi` and `pj` (in either
    /// order); zero unless pair counting is on.
    pub fn pair_count(&self, pattern: &str, pi: &str, pj: &str) -> (r: u64)
        ensures
            r == pair_of(self.tables_view(), pattern@, pi@, pj@),
    {
        let (a, b) = if str_less(pi, pj) { (pi, pj) } else { (pj, pi) };
        match self.tables.get(pattern) {
            Some(t) => match t.pair_counts.get(a) {
                Some(inner) => match inner.get(b) {
                    Some(c) => *c,
                    None => 0,
                },
                None => 0,
            },
            None => 0,
        }
    }

    /// Reset all observations.
    pub fn reset(&mut self)
        ensures
            final(self).tables_view() == Map::<Seq<char>, PropertyTable>::empty(),
            final(self).aggregation_view() == old(self).aggregation_view(),
            final(self).pmi_view() == old(self).pmi_view(),
    {
        self.tables = StrMap::new();
    }
}

} // verus!
