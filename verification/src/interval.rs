//! Allen's interval algebra over integer time.
//!
//! An `Interval` is the half-open span `[start, end)`; a missing `end` means
//! the interval is still open ("ongoing"). The thirteen Allen relations are
//! classified by comparing endpoints.

use crate::text::{push_signed, signed_decimal};
use vstd::prelude::*;

verus! {

/// A time interval `[start, end)`. If `end` is `None`, the interval is
/// open-ended (still active).
#[derive(Debug, Clone, Copy, PartialEq, Eq, Structural, Hash)]
pub struct Interval<T> {
    /// Inclusive start of the interval.
    pub start: T,
    /// Exclusive end of the interval, or `None` if open-ended.
    pub end: Option<T>,
}

/// Allen's 13 mutually exclusive temporal relations between two bounded intervals.
#[derive(Debug, Clone, Copy, PartialEq, Eq, Structural, Hash)]
pub enum AllenRelation {
    /// A ends before B starts.
    Before,
    /// A starts after B ends.
    After,
    /// A ends exactly where B starts.
    Meets,
    /// A starts exactly where B ends.
    MetBy,
    /// A starts before B, A ends during B.
    Overlaps,
    /// B starts before A, B ends during A.
    OverlappedBy,
    /// A and B start together, A ends before B.
    Starts,
    /// A and B start together, A ends after B.
    StartedBy,
    /// A is entirely within B.
    During,
    /// B is entirely within A.
    Contains,
    /// A and B end together, A starts after B.
    Finishes,
    /// A and B end together, A starts before B.
    FinishedBy,
    /// A and B have identical start and end.
    Equals,
}

/// The relation between two bounded intervals `[a_start, a_end)` and
/// `[b_start, b_end)`, decided by the first condition in Allen's table that
/// holds (the conditions are mutually exclusive for non-empty intervals).
pub open spec fn allen_of(a_start: int, a_end: int, b_start: int, b_end: int) -> Option<AllenRelation> {
    if a_end < b_start {
        Some(AllenRelation::Before)
    } else if b_end < a_start {
        Some(AllenRelation::After)
    } else if a_end == b_start {
        Some(AllenRelation::Meets)
    } else if b_end == a_start {
        Some(AllenRelation::MetBy)
    } else if a_start == b_start && a_end == b_end {
        Some(AllenRelation::Equals)
    } else if a_start == b_start && a_end < b_end {
        Some(AllenRelation::Starts)
    } else if a_start == b_start && a_end > b_end {
        Some(AllenRelation::StartedBy)
    } else if a_end == b_end && a_start > b_start {
        Some(AllenRelation::Finishes)
    } else if a_end == b_end && a_start < b_start {
        Some(AllenRelation::FinishedBy)
    } else if a_start > b_start && a_end < b_end {
        Some(AllenRelation::During)
    } else if a_start < b_start && a_end > b_end {
        Some(AllenRelation::Contains)
    } else if a_start < b_start && a_end > b_start && a_end < b_end {
        Some(AllenRelation::Overlaps)
    } else if b_start < a_start && b_end > a_start && b_end < a_end {
        Some(AllenRelation::OverlappedBy)
    } else {
        None
    }
}

/// The text of an interval: `[start, end)`, or `[start, ∞)` when open.
pub open spec fn interval_text(iv: Interval<i64>) -> Seq<char> {
    seq!['['] + signed_decimal(iv.start as int) + seq![',', ' '] + match iv.end {
        Some(e) => signed_decimal(e as int),
        None => seq!['\u{221e}'],
    } + seq![')']
}

impl Interval<i64> {
    /// The interval as text: `[start, end)`, or `[start, ∞)` when open.
    pub fn to_text(&self) -> (r: String)
        ensures
            r@ == interval_text(*self),
    {
        let mut out = String::new();
        out.append("[");
        push_signed(&mut out, self.start);
        out.append(", ");
        match self.end {
            Some(e) => push_signed(&mut out, e),
            None => out.append("\u{221e}"),
        }
        out.append(")");
        proof {
            reveal_strlit("[");
            reveal_strlit(", ");
            reveal_strlit("\u{221e}");
            reveal_strlit(")");
            assert(out@ =~= interval_text(*self));
        }
        out
    }
}

impl Interval<i64> {
    /// A bounded interval is non-empty when it starts before it ends.
    pub open spec fn well_formed(self) -> bool {
        self.end matches Some(e) && self.start < e
    }

    /// Does the interval cover time `t`?
    pub open spec fn covers_spec(self, t: i64) -> bool {
        self.start <= t && (self.end matches Some(e) ==> t < e)
    }

    /// The Allen relation of `self` to `other`; `None` when either is open-ended.
    pub open spec fn relation_spec(self, other: Interval<i64>) -> Option<AllenRelation> {
        match (self.end, other.end) {
            (Some(a_end), Some(b_end)) => allen_of(
                self.start as int,
                a_end as int,
                other.start as int,
                b_end as int,
            ),
            _ => None,
        }
    }

    /// Do the two intervals share any time?
    pub open spec fn intersects_spec(self, other: Interval<i64>) -> bool {
        &&& (other.end matches Some(b_end) ==> self.start < b_end)
        &&& (self.end matches Some(a_end) ==> other.start < a_end)
    }

    /// Create a bounded interval `[start, end)`.
    pub fn new(start: i64, end: i64) -> (r: Self)
        ensures
            r.start == start,
            r.end == Some(end),
    {
        Interval { start, end: Some(end) }
    }

    /// Create an open-ended interval `[start, ∞)`.
    pub fn open(start: i64) -> (r: Self)
        ensures
            r.start == start,
            r.end is None,
    {
        Interval { start, end: None }
    }

    /// Does this interval cover time `t`?
    pub fn covers(&self, t: &i64) -> (r: bool)
        ensures
            r == self.covers_spec(*t),
    {
        match self.end {
            Some(end) => self.start <= *t && *t < end,
            None => self.start <= *t,
        }
    }

    /// Is this interval bounded (has an end)?
    pub fn is_bounded(&self) -> (r: bool)
        ensures
            r == self.end is Some,
    {
        self.end.is_some()
    }

    /// Classify the temporal relation between `self` and `other` using Allen's
    /// 13-relation algebra. Returns `None` if either interval is open-ended
    /// and the relation cannot be determined.
    pub fn relation(&self, other: &Interval<i64>) -> (r: Option<AllenRelation>)
        ensures
            r == self.relation_spec(*other),
    {
        let a_start = self.start;
        let b_start = other.start;
        let a_end = match self.end {
            Some(e) => e,
            None => return None,
        };
        let b_end = match other.end {
            Some(e) => e,
            None => return None,
        };
        if a_end < b_start {
            Some(AllenRelation::Before)
        } else if b_end < a_start {
            Some(AllenRelation::After)
        } else if a_end == b_start {
            Some(AllenRelation::Meets)
        } else if b_end == a_start {
            Some(AllenRelation::MetBy)
        } else if a_start == b_start && a_end == b_end {
            Some(AllenRelation::Equals)
        } else if a_start == b_start && a_end < b_end {
            Some(AllenRelation::Starts)
        } else if a_start == b_start && a_end > b_end {
            Some(AllenRelation::StartedBy)
        } else if a_end == b_end && a_start > b_start {
            Some(AllenRelation::Finishes)
        } else if a_end == b_end && a_start < b_start {
            Some(AllenRelation::FinishedBy)
        } else if a_start > b_start && a_end < b_end {
            Some(AllenRelation::During)
        } else if a_start < b_start && a_end > b_end {
            Some(AllenRelation::Contains)
        } else if a_start < b_start && a_end > b_start && a_end < b_end {
            Some(AllenRelation::Overlaps)
        } else if b_start < a_start && b_end > a_start && b_end < a_end {
            Some(AllenRelation::OverlappedBy)
        } else {
            None
        }
    }

    /// Does `self` start strictly before `other`?
    pub fn before(&self, other: &Interval<i64>) -> (r: bool)
        ensures
            r == (self.start < other.start),
    {
        self.start < other.start
    }

    /// Does `self` end exactly where `other` starts?
    pub fn meets(&self, other: &Interval<i64>) -> (r: bool)
        ensures
            r == (self.end matches Some(e) && e == other.start),
    {
        match self.end {
            Some(end) => end == other.start,
            None => false,
        }
    }

    /// Do the two intervals share any time?
    pub fn intersects(&self, other: &Interval<i64>) -> (r: bool)
        ensures
            r == self.intersects_spec(*other),
    {
        let start_ok = match other.end {
            Some(b_end) => self.start < b_end,
            None => true,
        };
        let end_ok = match self.end {
            Some(a_end) => other.start < a_end,
            None => true,
        };
        start_ok && end_ok
    }
}

impl Interval<i64> {
    /// The natural gap distance of a relation, from the endpoints (Meiri's
    /// endpoint decomposition); `None` when it needs a missing end.
    pub open spec fn gap_spec(self, other: Interval<i64>, relation: AllenRelation) -> Option<int> {
        match relation {
            AllenRelation::Before => match self.end {
                Some(a_end) => Some(other.start - a_end),
                None => None,
            },
            AllenRelation::After => match other.end {
                Some(b_end) => Some(self.start - b_end),
                None => None,
            },
            AllenRelation::Meets | AllenRelation::MetBy | AllenRelation::Equals => Some(0),
            AllenRelation::Overlaps => match self.end {
                Some(a_end) => Some(a_end - other.start),
                None => None,
            },
            AllenRelation::OverlappedBy => match other.end {
                Some(b_end) => Some(b_end - self.start),
                None => None,
            },
            AllenRelation::During | AllenRelation::Finishes => Some(self.start - other.start),
            AllenRelation::Contains | AllenRelation::FinishedBy => Some(other.start - self.start),
            AllenRelation::Starts => match (self.end, other.end) {
                (Some(a_end), Some(b_end)) => Some(b_end - a_end),
                _ => None,
            },
            AllenRelation::StartedBy => match (self.end, other.end) {
                (Some(a_end), Some(b_end)) => Some(a_end - b_end),
                _ => None,
            },
        }
    }

    /// Compute the gap distance for a given Allen relation, exactly (the
    /// difference of two `i64` times always fits an `i128`). Returns `None`
    /// if the computation requires an endpoint that is missing.
    pub fn gap_for_relation(&self, other: &Interval<i64>, relation: AllenRelation) -> (r: Option<i128>)
        ensures
            match self.gap_spec(*other, relation) {
                Some(g) => r == Some(g as i128),
                None => r is None,
            },
    {
        let a_start = self.start as i128;
        let b_start = other.start as i128;
        match relation {
            AllenRelation::Before => match self.end {
                Some(a_end) => Some(b_start - a_end as i128),
                None => None,
            },
            AllenRelation::After => match other.end {
                Some(b_end) => Some(a_start - b_end as i128),
                None => None,
            },
            AllenRelation::Meets | AllenRelation::MetBy | AllenRelation::Equals => Some(0),
            AllenRelation::Overlaps => match self.end {
                Some(a_end) => Some(a_end as i128 - b_start),
                None => None,
            },
            AllenRelation::OverlappedBy => match other.end {
                Some(b_end) => Some(b_end as i128 - a_start),
                None => None,
            },
            AllenRelation::During | AllenRelation::Finishes => Some(a_start - b_start),
            AllenRelation::Contains | AllenRelation::FinishedBy => Some(b_start - a_start),
            AllenRelation::Starts => match (self.end, other.end) {
                (Some(a_end), Some(b_end)) => Some(b_end as i128 - a_end as i128),
                _ => None,
            },
            AllenRelation::StartedBy => match (self.end, other.end) {
                (Some(a_end), Some(b_end)) => Some(a_end as i128 - b_end as i128),
                _ => None,
            },
        }
    }
}

impl AllenRelation {
    /// The relation seen from the other interval (A and B swapped).
    pub open spec fn inverse_spec(self) -> AllenRelation {
        match self {
            AllenRelation::Before => AllenRelation::After,
            AllenRelation::After => AllenRelation::Before,
            AllenRelation::Meets => AllenRelation::MetBy,
            AllenRelation::MetBy => AllenRelation::Meets,
            AllenRelation::Overlaps => AllenRelation::OverlappedBy,
            AllenRelation::OverlappedBy => AllenRelation::Overlaps,
            AllenRelation::Starts => AllenRelation::StartedBy,
            AllenRelation::StartedBy => AllenRelation::Starts,
            AllenRelation::During => AllenRelation::Contains,
            AllenRelation::Contains => AllenRelation::During,
            AllenRelation::Finishes => AllenRelation::FinishedBy,
            AllenRelation::FinishedBy => AllenRelation::Finishes,
            AllenRelation::Equals => AllenRelation::Equals,
        }
    }

    /// The inverse relation (swap A and B).
    pub fn inverse(self) -> (r: Self)
        ensures
            r == self.inverse_spec(),
    {
        match self {
            AllenRelation::Before => AllenRelation::After,
            AllenRelation::After => AllenRelation::Before,
            AllenRelation::Meets => AllenRelation::MetBy,
            AllenRelation::MetBy => AllenRelation::Meets,
            AllenRelation::Overlaps => AllenRelation::OverlappedBy,
            AllenRelation::OverlappedBy => AllenRelation::Overlaps,
            AllenRelation::Starts => AllenRelation::StartedBy,
            AllenRelation::StartedBy => AllenRelation::Starts,
            AllenRelation::During => AllenRelation::Contains,
            AllenRelation::Contains => AllenRelation::During,
            AllenRelation::Finishes => AllenRelation::FinishedBy,
            AllenRelation::FinishedBy => AllenRelation::Finishes,
            AllenRelation::Equals => AllenRelation::Equals,
        }
    }

    /// Does this relation imply A ends before or when B starts?
    pub fn is_before_or_meets(self) -> (r: bool)
        ensures
            r == (self == AllenRelation::Before || self == AllenRelation::Meets),
    {
        match self {
            AllenRelation::Before | AllenRelation::Meets => true,
            _ => false,
        }
    }
}

/// Swapping A and B twice gives back the same relation.
pub proof fn lemma_inverse_involutive(r: AllenRelation)
    ensures
        r.inverse_spec().inverse_spec() == r,
{
}

/// Seen from the other side, the relation between two non-empty bounded
/// intervals is the inverse relation: `b.relation(a) == a.relation(b).map(inverse)`.
pub proof fn lemma_relation_converse(a: Interval<i64>, b: Interval<i64>)
    requires
        a.well_formed(),
        b.well_formed(),
    ensures
        b.relation_spec(a) == match a.relation_spec(b) {
            Some(r) => Some(r.inverse_spec()),
            None => None,
        },
{
}

/// Any two non-empty bounded intervals stand in exactly one Allen relation:
/// classification never fails.
pub proof fn lemma_relation_total(a: Interval<i64>, b: Interval<i64>)
    requires
        a.well_formed(),
        b.well_formed(),
    ensures
        a.relation_spec(b) is Some,
{
}

/// Two non-empty bounded intervals share time exactly when their relation is
/// none of before, after, meets and met-by.
pub proof fn lemma_intersects_iff_overlapping_relation(a: Interval<i64>, b: Interval<i64>)
    requires
        a.well_formed(),
        b.well_formed(),
    ensures
        a.intersects_spec(b) <==> !(a.relation_spec(b) == Some(AllenRelation::Before)
            || a.relation_spec(b) == Some(AllenRelation::After)
            || a.relation_spec(b) == Some(AllenRelation::Meets)
            || a.relation_spec(b) == Some(AllenRelation::MetBy)),
{
}

/// `before` (starts strictly earlier) holds, for non-empty bounded
/// intervals, exactly when the relation is `Before`, `Meets`, `Overlaps`,
/// `Contains` or `FinishedBy`.
pub proof fn lemma_before_iff_starts_first(a: Interval<i64>, b: Interval<i64>)
    requires
        a.well_formed(),
        b.well_formed(),
    ensures
        a.start < b.start <==> (a.relation_spec(b) == Some(AllenRelation::Before) || a.relation_spec(b) == Some(
            AllenRelation::Meets,
        ) || a.relation_spec(b) == Some(AllenRelation::Overlaps) || a.relation_spec(b) == Some(AllenRelation::Contains)
            || a.relation_spec(b) == Some(AllenRelation::FinishedBy)),
{
}

/// An interval covers its own start, and a bounded one does not cover its end.
pub proof fn lemma_covers_endpoints(a: Interval<i64>)
    requires
        a.end matches Some(e) ==> a.start < e,
    ensures
        a.covers_spec(a.start),
        a.end matches Some(e) ==> !a.covers_spec(e),
{
}

} // verus!
