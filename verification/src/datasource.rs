//! Value constraints on edge targets, and the edge record a graph returns.
//!
//! Comparisons go through the value type's `PartialEq` / `PartialOrd`; the
//! contracts state the result for every value type whose comparison impls
//! follow their specification (all of std's integer types do).

use crate::interval::Interval;
use std::fmt::Debug;
use std::hash::Hash;
use vstd::prelude::*;
use vstd::std_specs::cmp::{PartialEqSpec, PartialOrdIs, PartialOrdSpec};

verus! {

/// A value constraint used in pattern clauses and scans.
#[derive(Debug, PartialEq)]
pub enum ValueConstraint<V> {
    /// Must equal this exact value.
    Eq(V),
    /// Must be less than this value.
    Lt(V),
    /// Must be greater than this value.
    Gt(V),
    /// Must be less than or equal to this value.
    Lte(V),
    /// Must be greater than or equal to this value.
    Gte(V),
    /// Must fall within `[low, high]`.
    Between(V, V),
    /// Any value matches.
    Any,
    /// Must equal one of these values.
    OneOf(Vec<V>),
    /// Must equal the value bound to this variable name.
    EqVar(String),
    /// Must be less than the value bound to this variable name.
    LtVar(String),
    /// Must be greater than the value bound to this variable name.
    GtVar(String),
    /// Must be less than or equal to the value bound to this variable name.
    LteVar(String),
    /// Must be greater than or equal to the value bound to this variable name.
    GteVar(String),
}

/// Does `value` occur in `values` (by the value type's equality)?
pub open spec fn one_of_admits<V: PartialEq>(values: Seq<V>, value: V) -> bool {
    exists|i: int| 0 <= i < values.len() && value.eq_spec(&values[i])
}

/// Cloning a value of `X` gives back an equal value.
pub open spec fn clone_exact<X: Clone>() -> bool {
    forall|a: X, b: X| #[trigger] cloned(a, b) ==> a == b
}

/// Both comparison impls of `V` follow their specification.
pub open spec fn comparisons_lawful<V: PartialOrd>() -> bool {
    V::obeys_eq_spec() && V::obeys_partial_cmp_spec()
}

impl<V> ValueConstraint<V> {
    /// The constraint names a bound variable (it must be resolved before use).
    pub open spec fn is_var_spec(self) -> bool {
        self is EqVar || self is LtVar || self is GtVar || self is LteVar || self is GteVar
    }

    /// Returns `true` if this constraint references a bound variable.
    pub fn is_var(&self) -> (r: bool)
        ensures
            r == self.is_var_spec(),
    {
        match self {
            ValueConstraint::EqVar(_)
            | ValueConstraint::LtVar(_)
            | ValueConstraint::GtVar(_)
            | ValueConstraint::LteVar(_)
            | ValueConstraint::GteVar(_) => true,
            _ => false,
        }
    }

    /// `r` is `self` with every value `v` replaced by some `w` that `f` may
    /// return for `v`; variable names are kept.
    pub open spec fn mapped_by<V2, F: Fn(&V) -> V2>(self, f: F, r: ValueConstraint<V2>) -> bool {
        match (self, r) {
            (ValueConstraint::Eq(a), ValueConstraint::Eq(b)) => call_ensures(f, (&a,), b),
            (ValueConstraint::Lt(a), ValueConstraint::Lt(b)) => call_ensures(f, (&a,), b),
            (ValueConstraint::Gt(a), ValueConstraint::Gt(b)) => call_ensures(f, (&a,), b),
            (ValueConstraint::Lte(a), ValueConstraint::Lte(b)) => call_ensures(f, (&a,), b),
            (ValueConstraint::Gte(a), ValueConstraint::Gte(b)) => call_ensures(f, (&a,), b),
            (ValueConstraint::Between(a1, a2), ValueConstraint::Between(b1, b2)) => call_ensures(
                f,
                (&a1,),
                b1,
            ) && call_ensures(f, (&a2,), b2),
            (ValueConstraint::Any, ValueConstraint::Any) => true,
            (ValueConstraint::OneOf(a), ValueConstraint::OneOf(b)) => a@.len() == b@.len() && (
            forall|i: int| 0 <= i < a@.len() ==> call_ensures(f, (&a@[i],), #[trigger] b@[i])),
            (ValueConstraint::EqVar(a), ValueConstraint::EqVar(b)) => a@ == b@,
            (ValueConstraint::LtVar(a), ValueConstraint::LtVar(b)) => a@ == b@,
            (ValueConstraint::GtVar(a), ValueConstraint::GtVar(b)) => a@ == b@,
            (ValueConstraint::LteVar(a), ValueConstraint::LteVar(b)) => a@ == b@,
            (ValueConstraint::GteVar(a), ValueConstraint::GteVar(b)) => a@ == b@,
            _ => false,
        }
    }

    /// The variable a constraint names, when it names one.
    pub open spec fn var_name_spec(self) -> Option<Seq<char>> {
        match self {
            ValueConstraint::EqVar(a) => Some(a@),
            ValueConstraint::LtVar(a) => Some(a@),
            ValueConstraint::GtVar(a) => Some(a@),
            ValueConstraint::LteVar(a) => Some(a@),
            ValueConstraint::GteVar(a) => Some(a@),
            _ => None,
        }
    }

    /// Mapping the values of a constraint keeps its kind: it names a variable
    /// exactly when the original does, and the same one.
    pub proof fn law_map_keeps_variable<V2, F: Fn(&V) -> V2>(self, f: F, r: ValueConstraint<V2>)
        requires
            self.mapped_by(f, r),
        ensures
            r.is_var_spec() == self.is_var_spec(),
            r.var_name_spec() == self.var_name_spec(),
    {
    }

    /// `f` may be called on every value the constraint holds.
    pub open spec fn map_callable<V2, F: Fn(&V) -> V2>(self, f: F) -> bool {
        match self {
            ValueConstraint::Eq(a) => call_requires(f, (&a,)),
            ValueConstraint::Lt(a) => call_requires(f, (&a,)),
            ValueConstraint::Gt(a) => call_requires(f, (&a,)),
            ValueConstraint::Lte(a) => call_requires(f, (&a,)),
            ValueConstraint::Gte(a) => call_requires(f, (&a,)),
            ValueConstraint::Between(a1, a2) => call_requires(f, (&a1,)) && call_requires(
                f,
                (&a2,),
            ),
            ValueConstraint::OneOf(a) => forall|i: int|
                0 <= i < a@.len() ==> call_requires(f, (&#[trigger] a@[i],)),
            _ => true,
        }
    }

    /// Transform the value type of this constraint.
    pub fn map<V2, F: Fn(&V) -> V2>(&self, f: F) -> (r: ValueConstraint<V2>)
        requires
            self.map_callable(f),
        ensures
            self.mapped_by(f, r),
    {
        match self {
            ValueConstraint::Eq(v) => ValueConstraint::Eq(f(v)),
            ValueConstraint::Lt(v) => ValueConstraint::Lt(f(v)),
            ValueConstraint::Gt(v) => ValueConstraint::Gt(f(v)),
            ValueConstraint::Lte(v) => ValueConstraint::Lte(f(v)),
            ValueConstraint::Gte(v) => ValueConstraint::Gte(f(v)),
            ValueConstraint::Between(lo, hi) => {
                let a = f(lo);
                let b = f(hi);
                ValueConstraint::Between(a, b)
            },
            ValueConstraint::Any => ValueConstraint::Any,
            ValueConstraint::OneOf(vs) => {
                let mut out: Vec<V2> = Vec::new();
                let mut i: usize = 0;
                while i < vs.len()
                    invariant
                        i <= vs@.len(),
                        out@.len() == i,
                        forall|k: int| 0 <= k < vs@.len() ==> call_requires(f, (&#[trigger] vs@[k],)),
                        forall|k: int| 0 <= k < i ==> call_ensures(f, (&vs@[k],), #[trigger] out@[k]),
                    decreases vs@.len() - i,
                {
                    let w = f(&vs[i]);
                    out.push(w);
                    i = i + 1;
                }
                ValueConstraint::OneOf(out)
            },
            ValueConstraint::EqVar(s) => ValueConstraint::EqVar(s.clone()),
            ValueConstraint::LtVar(s) => ValueConstraint::LtVar(s.clone()),
            ValueConstraint::GtVar(s) => ValueConstraint::GtVar(s.clone()),
            ValueConstraint::LteVar(s) => ValueConstraint::LteVar(s.clone()),
            ValueConstraint::GteVar(s) => ValueConstraint::GteVar(s.clone()),
        }
    }
}

impl<V: Clone> ValueConstraint<V> {
    /// `r` has the variant of `self`, each value a clone, each name the same.
    pub open spec fn copied_to(self, r: ValueConstraint<V>) -> bool {
        match (self, r) {
            (ValueConstraint::Eq(a), ValueConstraint::Eq(b)) => cloned(a, b),
            (ValueConstraint::Lt(a), ValueConstraint::Lt(b)) => cloned(a, b),
            (ValueConstraint::Gt(a), ValueConstraint::Gt(b)) => cloned(a, b),
            (ValueConstraint::Lte(a), ValueConstraint::Lte(b)) => cloned(a, b),
            (ValueConstraint::Gte(a), ValueConstraint::Gte(b)) => cloned(a, b),
            (ValueConstraint::Between(a1, a2), ValueConstraint::Between(b1, b2)) => cloned(a1, b1) && cloned(a2, b2),
            (ValueConstraint::Any, ValueConstraint::Any) => true,
            (ValueConstraint::OneOf(a), ValueConstraint::OneOf(b)) => a@.len() == b@.len() && forall|i: int|
                0 <= i < a@.len() ==> cloned(a@[i], #[trigger] b@[i]),
            (ValueConstraint::EqVar(a), ValueConstraint::EqVar(b)) => a@ == b@,
            (ValueConstraint::LtVar(a), ValueConstraint::LtVar(b)) => a@ == b@,
            (ValueConstraint::GtVar(a), ValueConstraint::GtVar(b)) => a@ == b@,
            (ValueConstraint::LteVar(a), ValueConstraint::LteVar(b)) => a@ == b@,
            (ValueConstraint::GteVar(a), ValueConstraint::GteVar(b)) => a@ == b@,
            _ => false,
        }
    }
}

impl<V: Clone> Clone for ValueConstraint<V> {
    fn clone(&self) -> (r: Self)
        ensures
            self.copied_to(r),
    {
        match self {
            ValueConstraint::Eq(v) => ValueConstraint::Eq(v.clone()),
            ValueConstraint::Lt(v) => ValueConstraint::Lt(v.clone()),
            ValueConstraint::Gt(v) => ValueConstraint::Gt(v.clone()),
            ValueConstraint::Lte(v) => ValueConstraint::Lte(v.clone()),
            ValueConstraint::Gte(v) => ValueConstraint::Gte(v.clone()),
            ValueConstraint::Between(lo, hi) => ValueConstraint::Between(lo.clone(), hi.clone()),
            ValueConstraint::Any => ValueConstraint::Any,
            ValueConstraint::OneOf(vs) => {
                let mut out: Vec<V> = Vec::new();
                let mut i: usize = 0;
                while i < vs.len()
                    invariant
                        i <= vs@.len(),
                        out@.len() == i,
                        forall|k: int| 0 <= k < i ==> cloned(vs@[k], #[trigger] out@[k]),
                    decreases vs@.len() - i,
                {
                    out.push(vs[i].clone());
                    i = i + 1;
                }
                ValueConstraint::OneOf(out)
            },
            ValueConstraint::EqVar(s) => ValueConstraint::EqVar(s.clone()),
            ValueConstraint::LtVar(s) => ValueConstraint::LtVar(s.clone()),
            ValueConstraint::GtVar(s) => ValueConstraint::GtVar(s.clone()),
            ValueConstraint::LteVar(s) => ValueConstraint::LteVar(s.clone()),
            ValueConstraint::GteVar(s) => ValueConstraint::GteVar(s.clone()),
        }
    }
}

impl<V: PartialOrd> ValueConstraint<V> {
    /// Does `value` satisfy the constraint? A constraint that still names a
    /// variable admits nothing.
    pub open spec fn admits(self, value: V) -> bool {
        match self {
            ValueConstraint::Eq(v) => value.eq_spec(&v),
            ValueConstraint::Lt(v) => value.is_lt(&v),
            ValueConstraint::Gt(v) => value.is_gt(&v),
            ValueConstraint::Lte(v) => value.is_le(&v),
            ValueConstraint::Gte(v) => value.is_ge(&v),
            ValueConstraint::Between(lo, hi) => value.is_ge(&lo) && value.is_le(&hi),
            ValueConstraint::Any => true,
            ValueConstraint::OneOf(vs) => one_of_admits(vs@, value),
            _ => false,
        }
    }

    /// Check whether a value satisfies this constraint. `*Var` constraints
    /// must be resolved first; unresolved ones match nothing.
    pub fn matches(&self, value: &V) -> (r: bool)
        ensures
            comparisons_lawful::<V>() ==> r == self.admits(*value),
            self.is_var_spec() ==> !r,
            self is Any ==> r,
    {
        match self {
            ValueConstraint::Eq(v) => *value == *v,
            ValueConstraint::Lt(v) => *value < *v,
            ValueConstraint::Gt(v) => *value > *v,
            ValueConstraint::Lte(v) => *value <= *v,
            ValueConstraint::Gte(v) => *value >= *v,
            ValueConstraint::Between(lo, hi) => *value >= *lo && *value <= *hi,
            ValueConstraint::Any => true,
            ValueConstraint::OneOf(vs) => {
                let mut i: usize = 0;
                while i < vs.len()
                    invariant
                        i <= vs@.len(),
                        *self == ValueConstraint::<V>::OneOf(*vs),
                        comparisons_lawful::<V>() ==> forall|k: int|
                            0 <= k < i ==> !value.eq_spec(&#[trigger] vs@[k]),
                    decreases vs@.len() - i,
                {
                    if *value == vs[i] {
                        return true;
                    }
                    i = i + 1;
                }
                false
            },
            ValueConstraint::EqVar(_)
            | ValueConstraint::LtVar(_)
            | ValueConstraint::GtVar(_)
            | ValueConstraint::LteVar(_)
            | ValueConstraint::GteVar(_) => false,
        }
    }
}

/// Trait bound alias for node identifier types, implemented for every type
/// with these bounds.
pub trait NodeId: Eq + Hash + Clone + Debug {
}

impl<T: Eq + Hash + Clone + Debug> NodeId for T {
}

/// Trait bound alias for edge label types, implemented for every type with
/// these bounds.
pub trait Label: Eq + Hash + Clone + Debug {
}

impl<T: Eq + Hash + Clone + Debug> Label for T {
}

/// Trait bound alias for value types, implemented for every type with these
/// bounds.
pub trait Val: PartialEq + PartialOrd + Clone + Debug + Hash {
}

impl<T: PartialEq + PartialOrd + Clone + Debug + Hash> Val for T {
}

/// An edge returned from a graph query.
#[derive(Debug, Clone)]
pub struct Edge<N, V, T> {
    /// The target node or value this edge points to.
    pub target: V,
    /// The time interval during which this edge is/was valid.
    pub interval: Interval<T>,
    /// The source node (useful for scan results).
    pub source: N,
}

/// A temporal graph that the matcher can query.
///
/// This is the trait a backing store implements. Node, label and value
/// types are the implementor's; time is an `i64`. Each query is described
/// by a specification function of the same name: an implementation answers
/// every query as that function says, so equal queries on one graph get
/// equal answers. A verified implementation defines those functions; their
/// default bodies name no particular answer, so that one which leaves them
/// as they are cannot prove its queries.
pub trait DataSource {
    /// Node identifier type.
    type N: PartialEq + Clone + Hash + Debug;
    /// Edge label type.
    type L: PartialEq + Clone + Debug;
    /// Value type (edge targets — can be nodes, strings, numbers, booleans).
    type V: PartialOrd + Clone + Hash + Debug;

    /// Edges from `node` with `label` active at time `at`.
    open spec fn edges_from_spec(&self, node: Self::N, label: Self::L, at: i64) -> Seq<Edge<Self::N, Self::V, i64>> {
        vstd::pervasive::arbitrary()
    }

    /// Edges with `label` whose target satisfies `constraint`, active at `at`.
    open spec fn scan_spec(&self, label: Self::L, constraint: ValueConstraint<Self::V>, at: i64) -> Seq<Edge<Self::N, Self::V, i64>> {
        vstd::pervasive::arbitrary()
    }

    /// Edges from `node` with `label`, whenever valid.
    open spec fn edges_from_any_time_spec(&self, node: Self::N, label: Self::L) -> Seq<Edge<Self::N, Self::V, i64>> {
        vstd::pervasive::arbitrary()
    }

    /// Edges with `label` whose target satisfies `constraint`, whenever valid.
    open spec fn scan_any_time_spec(&self, label: Self::L, constraint: ValueConstraint<Self::V>) -> Seq<Edge<Self::N, Self::V, i64>> {
        vstd::pervasive::arbitrary()
    }

    /// The current time.
    open spec fn now_spec(&self) -> i64 {
        vstd::pervasive::arbitrary()
    }

    /// The node a value refers to, if it is a node reference.
    open spec fn value_as_node_spec(&self, value: Self::V) -> Option<Self::N> {
        vstd::pervasive::arbitrary()
    }

    /// Follow edges from `node` with `label`, active at time `at`.
    fn edges_from(&self, node: &Self::N, label: &Self::L, at: &i64) -> (r: Vec<Edge<Self::N, Self::V, i64>>)
        ensures
            r@ == self.edges_from_spec(*node, *label, *at);

    /// Find all edges with `label` whose target matches `constraint`, active at
    /// time `at` (the index scan that finds starting points).
    fn scan(&self, label: &Self::L, constraint: &ValueConstraint<Self::V>, at: &i64) -> (r: Vec<Edge<Self::N, Self::V, i64>>)
        ensures
            r@ == self.scan_spec(*label, *constraint, *at);

    /// Find all edges from `node` with `label` that were ever valid.
    fn edges_from_any_time(&self, node: &Self::N, label: &Self::L) -> (r: Vec<Edge<Self::N, Self::V, i64>>)
        ensures
            r@ == self.edges_from_any_time_spec(*node, *label);

    /// Scan for edges with `label` matching `constraint` at any time.
    fn scan_any_time(&self, label: &Self::L, constraint: &ValueConstraint<Self::V>) -> (r: Vec<Edge<Self::N, Self::V, i64>>)
        ensures
            r@ == self.scan_any_time_spec(*label, *constraint);

    /// The current time in the graph's time model.
    fn now(&self) -> (r: i64)
        ensures
            r == self.now_spec();

    /// Whether a value is a node reference (for traversal) rather than a
    /// literal (for comparison), and which node.
    fn value_as_node(&self, value: &Self::V) -> (r: Option<Self::N>)
        ensures
            r == self.value_as_node_spec(*value);
}

/// The graph's node, label and value types compare by their specifications
/// and clone exactly.
pub open spec fn lawful<DS: DataSource>() -> bool {
    &&& clone_exact::<DS::N>()
    &&& clone_exact::<DS::L>()
    &&& clone_exact::<DS::V>()
    &&& DS::N::obeys_eq_spec()
    &&& DS::L::obeys_eq_spec()
    &&& comparisons_lawful::<DS::V>()
}

} // verus!
