//! Sequential surprise bookkeeping (bigram pattern transitions).
//!
//! Counts which pattern completed after which. The Laplace-smoothed
//! transition probability `P(current | prev)` is
//! `(count + 1) / (total + successors)`; its integer terms come from
//! [`SequentialScorer::transition_terms`].

use crate::scoring::table::{can_observe, name_set, observe_in, observed_once, t_count, t_total, t_vocab, table_terms, PropertyTable};
use crate::strmap::StrMap;
use vstd::prelude::*;

verus! {

/// Bigram transition counts: per predecessor, how many transitions were
/// observed and how many went to each successor.
#[derive(Debug)]
pub struct SequentialScorer {
    rows: StrMap<PropertyTable>,
}

impl SequentialScorer {
    /// Per-predecessor rows: the row's matches are its transitions, its
    /// properties its successors.
    pub closed spec fn rows_view(self) -> Map<Seq<char>, PropertyTable> {
        self.rows@
    }

    /// Create a new empty scorer.
    pub fn new() -> (r: Self)
        ensures
            r.rows_view() == Map::<Seq<char>, PropertyTable>::empty(),
    {
        SequentialScorer { rows: StrMap::new() }
    }

    /// Record a transition: `prev` completed, then `current` completed.
    pub fn observe_transition(&mut self, prev: &str, current: &str)
        requires
            t_total(old(self).rows_view(), prev@) < u64::MAX,
            t_count(old(self).rows_view(), prev@, current@) < u64::MAX,
        ensures
            observed_once(final(self).rows_view(), old(self).rows_view(), prev@, set![current@], false),
    {
        let mut one: Vec<String> = Vec::new();
        one.push(current.to_owned());
        proof {
            assert(name_set(one@) =~= set![current@]) by {
                assert(one@[0]@ == current@);
            }
            assert(can_observe(self.rows@, prev@, name_set(one@), false));
        }
        observe_in(&mut self.rows, prev, one.as_slice(), false);
    }

    /// The integer terms of `P(current | prev)`: `(count, total, successors)`,
    /// from which the smoothed probability is `(count + 1) / (total + successors)`.
    /// `None` if `prev` has never been observed as a predecessor.
    pub fn transition_terms(&self, prev: &str, current: &str) -> (r: Option<(u64, u64, usize)>)
        ensures
            match r {
                Some((c, t, v)) => self.rows_view().contains_key(prev@) && c == t_count(self.rows_view(), prev@, current@)
                    && t == t_total(self.rows_view(), prev@) && v == t_vocab(self.rows_view(), prev@).len(),
                None => !self.rows_view().contains_key(prev@),
            },
    {
        table_terms(&self.rows, prev, current)
    }

    /// Total transitions observed from a predecessor.
    pub fn total_transitions_from(&self, prev: &str) -> (r: u64)
        ensures
            r == t_total(self.rows_view(), prev@),
    {
        match self.rows.get(prev) {
            Some(t) => t.total_matches,
            None => 0,
        }
    }

    /// Number of distinct successors observed after a predecessor.
    pub fn vocabulary_size(&self, prev: &str) -> (r: usize)
        ensures
            t_vocab(self.rows_view(), prev@).finite(),
            r == t_vocab(self.rows_view(), prev@).len(),
    {
        match self.rows.get(prev) {
            Some(t) => t.property_counts.len(),
            None => 0,
        }
    }

    /// Reset all observations.
    pub fn reset(&mut self)
        ensures
            final(self).rows_view() == Map::<Seq<char>, PropertyTable>::empty(),
    {
        self.rows = StrMap::new();
    }
}

} // verus!
