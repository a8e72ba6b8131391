//! Role-conditioned property bookkeeping.
//!
//! Like [`StuScorer`](crate::scoring::stu::StuScorer), but observations and
//! lookups are keyed on `(pattern, role)`: a villain's harmful actions are
//! compared with other villains' actions, not with everyone's.

use crate::scoring::stu::StuAggregation;
use crate::scoring::table::{can_observe, name_set, observe_in, observed_once, t_total, table_terms, PropertyTable};
use crate::strmap::StrMap;
use vstd::prelude::*;

verus! {

/// Surprise scorer state that conditions on entity role.
#[derive(Debug)]
pub struct RoleConditionedStuScorer {
    tables: StrMap<StrMap<PropertyTable>>,
    aggregation: StuAggregation,
}

/// The role tables recorded for pattern `p` (none when never observed).
pub open spec fn role_tables(m: Map<Seq<char>, StrMap<PropertyTable>>, p: Seq<char>) -> Map<Seq<char>, PropertyTable> {
    if m.contains_key(p) {
        m[p]@
    } else {
        Map::empty()
    }
}

impl RoleConditionedStuScorer {
    /// Pattern -> its role tables.
    pub closed spec fn tables_view(self) -> Map<Seq<char>, StrMap<PropertyTable>> {
        self.tables@
    }

    /// The aggregation mode.
    pub closed spec fn aggregation_view(self) -> StuAggregation {
        self.aggregation
    }

    /// Create a new empty scorer with arithmetic mean aggregation.
    pub fn new() -> (r: Self)
        ensures
            forall|p: Seq<char>| #[trigger] role_tables(r.tables_view(), p) == Map::<Seq<char>, PropertyTable>::empty(),
            r.aggregation_view() == StuAggregation::ArithmeticMean,
    {
        RoleConditionedStuScorer { tables: StrMap::new(), aggregation: StuAggregation::ArithmeticMean }
    }

    /// Set the aggregation strategy.
    pub fn with_aggregation(self, aggregation: StuAggregation) -> (r: Self)
        ensures
            r.aggregation_view() == aggregation,
            r.tables_view() == self.tables_view(),
    {
        let mut this = self;
        this.aggregation = aggregation;
        this
    }

    /// The aggregation mode.
    pub fn aggregation(&self) -> (r: StuAggregation)
        ensures
            r == self.aggregation_view(),
    {
        self.aggregation
    }

    /// Record properties for a single match in the context of a role; each
    /// distinct property counts once.
    pub fn observe_one(&mut self, pattern: &str, role: &str, properties: &[String])
        requires
            can_observe(role_tables(old(self).tables_view(), pattern@), role@, name_set(properties@), false),
        ensures
            forall|p: Seq<char>|
                p != pattern@ ==> #[trigger] role_tables(final(self).tables_view(), p) == role_tables(old(self).tables_view(), p),
            observed_once(
                role_tables(final(self).tables_view(), pattern@),
                role_tables(old(self).tables_view(), pattern@),
                role@,
                name_set(properties@),
                false,
            ),
            final(self).aggregation_view() == old(self).aggregation_view(),
    {
        let ghost m0 = self.tables@;
        let mut inner = match self.tables.remove(pattern) {
            Some(t) => t,
            None => StrMap::new(),
        };
        proof {
            assert(inner@ == role_tables(m0, pattern@));
        }
        observe_in(&mut inner, role, properties, false);
        let ghost inner1 = inner@;
        self.tables.insert(pattern.to_owned(), inner);
        proof {
            assert(role_tables(self.tables@, pattern@) == inner1);
            assert forall|p: Seq<char>| p != pattern@ implies #[trigger] role_tables(self.tables@, p) == role_tables(m0, p) by {
                if m0.contains_key(p) {
                    assert(self.tables@[p] == m0[p]);
                }
            }
        }
    }

    /// The integer terms of `P(property | pattern, role)`:
    /// `(count, matches, vocabulary)`; `None` if the pair was never observed.
    pub fn frequency_terms(&self, pattern: &str, role: &str, property: &str) -> (r: Option<(u64, u64, usize)>)
        ensures
            match r {
                Some((c, t, v)) => role_tables(self.tables_view(), pattern@).contains_key(role@)
                    && c == crate::scoring::table::t_count(role_tables(self.tables_view(), pattern@), role@, property@)
                    && t == t_total(role_tables(self.tables_view(), pattern@), role@)
                    && v == crate::scoring::table::t_vocab(role_tables(self.tables_view(), pattern@), role@).len(),
                None => !role_tables(self.tables_view(), pattern@).contains_key(role@),
            },
    {
        match self.tables.get(pattern) {
            Some(inner) => table_terms(inner, role, property),
            None => None,
        }
    }

    /// Number of observations recorded for a `(pattern, role)` pair.
    pub fn match_count(&self, pattern: &str, role: &str) -> (r: u64)
        ensures
            r == t_total(role_tables(self.tables_view(), pattern@), role@),
    {
        match self.tables.get(pattern) {
            Some(inner) => match inner.get(role) {
                Some(t) => t.total_matches,
                None => 0,
            },
            None => 0,
        }
    }

    /// Reset all training data.
    pub fn reset(&mut self)
        ensures
            forall|p: Seq<char>| #[trigger] role_tables(final(self).tables_view(), p) == Map::<Seq<char>, PropertyTable>::empty(),
            final(self).aggregation_view() == old(self).aggregation_view(),
    {
        self.tables = StrMap::new();
    }
}

} // verus!
