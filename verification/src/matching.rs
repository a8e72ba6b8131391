//! Clause-level matching against a graph.
//!
//! These functions decide whether an edge target satisfies a clause's
//! target, bind target variables, resolve constraints that name bound
//! variables, and check whether a clause holds under a set of bindings.

use crate::datasource::{clone_exact, comparisons_lawful, lawful, DataSource, Edge, ValueConstraint};
use crate::pattern::{Clause, Target};
use crate::strmap::StrMap;
use crate::types::{lemma_bound_value_clone_exact, BoundValue};
use vstd::prelude::*;
use vstd::std_specs::cmp::{PartialEqSpec, PartialOrdSpec};

verus! {

/// Variable bindings as a mathematical map.
pub type BindingMap<N, V> = Map<Seq<char>, BoundValue<N, V>>;

/// The data value bound to `var`, if it is bound to a value (not a node).
pub open spec fn value_of<N, V>(b: BindingMap<N, V>, var: Seq<char>) -> Option<V> {
    if b.contains_key(var) {
        match b[var] {
            BoundValue::Value(v) => Some(v),
            BoundValue::Node(_) => None,
        }
    } else {
        None
    }
}

/// The node bound to `var`, if it is bound to a node.
pub open spec fn node_of<N, V>(b: BindingMap<N, V>, var: Seq<char>) -> Option<N> {
    if b.contains_key(var) {
        match b[var] {
            BoundValue::Node(n) => Some(n),
            BoundValue::Value(_) => None,
        }
    } else {
        None
    }
}

/// A constraint with its variable (if any) replaced by the bound value;
/// `None` when the variable is unbound or bound to a node.
pub open spec fn resolve_spec<N, V>(c: ValueConstraint<V>, b: BindingMap<N, V>) -> Option<ValueConstraint<V>> {
    match c {
        ValueConstraint::EqVar(s) => match value_of(b, s@) {
            Some(v) => Some(ValueConstraint::Eq(v)),
            None => None,
        },
        ValueConstraint::LtVar(s) => match value_of(b, s@) {
            Some(v) => Some(ValueConstraint::Lt(v)),
            None => None,
        },
        ValueConstraint::GtVar(s) => match value_of(b, s@) {
            Some(v) => Some(ValueConstraint::Gt(v)),
            None => None,
        },
        ValueConstraint::LteVar(s) => match value_of(b, s@) {
            Some(v) => Some(ValueConstraint::Lte(v)),
            None => None,
        },
        ValueConstraint::GteVar(s) => match value_of(b, s@) {
            Some(v) => Some(ValueConstraint::Gte(v)),
            None => None,
        },
        _ => Some(c),
    }
}

/// A target with its constraint resolved against the bindings; `None` when
/// a constraint names a variable that is not bound to a value.
pub open spec fn resolve_target_spec<N, V>(t: Target<V>, b: BindingMap<N, V>) -> Option<Target<V>> {
    match t {
        Target::Constraint(c) => match resolve_spec(c, b) {
            Some(k) => Some(Target::Constraint(k)),
            None => None,
        },
        _ => Some(t),
    }
}

/// A bound value matches an edge value: a node matches a value that refers
/// to the same node, a data value matches an equal value.
pub open spec fn bound_matches<DS: DataSource>(ds: DS, bv: BoundValue<DS::N, DS::V>, value: DS::V) -> bool {
    match bv {
        BoundValue::Node(n) => match ds.value_as_node_spec(value) {
            Some(vn) => vn.eq_spec(&n),
            None => false,
        },
        BoundValue::Value(v) => value.eq_spec(&v),
    }
}

/// An edge value satisfies an already resolved target: equal to a literal,
/// admitted by the constraint, or consistent with the variable's binding
/// (an unbound variable admits anything).
pub open spec fn resolved_admits<DS: DataSource>(
    ds: DS,
    t: Target<DS::V>,
    value: DS::V,
    b: BindingMap<DS::N, DS::V>,
) -> bool {
    match t {
        Target::Literal(v) => value.eq_spec(&v),
        Target::Constraint(c) => c.admits(value),
        Target::Bind(var) => if b.contains_key(var.0@) {
            bound_matches(ds, b[var.0@], value)
        } else {
            true
        },
    }
}

/// An edge value satisfies a clause target under the bindings; a constraint
/// naming a variable is first resolved, and admits nothing if it cannot be.
pub open spec fn target_admits<DS: DataSource>(
    ds: DS,
    t: Target<DS::V>,
    value: DS::V,
    b: BindingMap<DS::N, DS::V>,
) -> bool {
    match resolve_target_spec(t, b) {
        Some(r) => resolved_admits(ds, r, value, b),
        None => false,
    }
}

/// The binding an edge value gets: the node it refers to, else the value.
pub open spec fn binding_for<DS: DataSource>(ds: DS, value: DS::V) -> BoundValue<DS::N, DS::V> {
    match ds.value_as_node_spec(value) {
        Some(n) => BoundValue::Node(n),
        None => BoundValue::Value(value),
    }
}

/// Some edge of `edges` has a target the clause target admits.
pub open spec fn some_edge_admits<DS: DataSource>(
    ds: DS,
    edges: Seq<Edge<DS::N, DS::V, i64>>,
    t: Target<DS::V>,
    b: BindingMap<DS::N, DS::V>,
) -> bool {
    exists|i: int| 0 <= i < edges.len() && target_admits(ds, t, #[trigger] edges[i].target, b)
}

/// A clause holds under the bindings: its source is bound to a node, and
/// an edge with its label from that node, active at `now`, matches its
/// target — or, for a negated clause, no such edge does.
pub open spec fn clause_holds<DS: DataSource>(
    ds: DS,
    c: Clause<DS::L, DS::V>,
    b: BindingMap<DS::N, DS::V>,
    now: i64,
) -> bool {
    match node_of(b, c.source.0@) {
        Some(src) => some_edge_admits(ds, ds.edges_from_spec(src, c.label, now), c.target, b) != c.negated,
        None => false,
    }
}

impl<N: PartialEq, V: PartialEq> BoundValue<N, V> {
    /// Check if this bound value matches a graph value: a bound node matches
    /// a value that `value_as_node` maps to the same node; a bound data value
    /// matches an equal value.
    pub fn matches_value<F: Fn(&V) -> Option<N>>(&self, value_as_node: &F, value: &V) -> (r: bool)
        requires
            call_requires(*value_as_node, (value,)),
        ensures
            match *self {
                BoundValue::Node(n) => exists|o: Option<N>|
                    #[trigger] call_ensures(*value_as_node, (value,), o) && (N::obeys_eq_spec() ==> r == (
                    o matches Some(vn) && vn.eq_spec(&n))),
                BoundValue::Value(v) => V::obeys_eq_spec() ==> r == value.eq_spec(&v),
            },
    {
        match self {
            BoundValue::Node(n) => {
                let o = value_as_node(value);
                match o {
                    Some(vn) => vn == *n,
                    None => false,
                }
            },
            BoundValue::Value(v) => *value == *v,
        }
    }
}

/// A copied constraint admits exactly what the constraint it was copied from admits when values
/// clone exactly.
pub proof fn lemma_admits_copied<V: PartialOrd + Clone>(a: ValueConstraint<V>, b: ValueConstraint<V>, value: V)
    requires
        clone_exact::<V>(),
        a.copied_to(b),
    ensures
        a.admits(value) == b.admits(value),
        a.is_var_spec() == b.is_var_spec(),
{
    match (a, b) {
        (ValueConstraint::Eq(x), ValueConstraint::Eq(y)) => {
            assert(cloned(x, y));
        },
        (ValueConstraint::Lt(x), ValueConstraint::Lt(y)) => {
            assert(cloned(x, y));
        },
        (ValueConstraint::Gt(x), ValueConstraint::Gt(y)) => {
            assert(cloned(x, y));
        },
        (ValueConstraint::Lte(x), ValueConstraint::Lte(y)) => {
            assert(cloned(x, y));
        },
        (ValueConstraint::Gte(x), ValueConstraint::Gte(y)) => {
            assert(cloned(x, y));
        },
        (ValueConstraint::Between(x1, x2), ValueConstraint::Between(y1, y2)) => {
            assert(cloned(x1, y1));
            assert(cloned(x2, y2));
        },
        (ValueConstraint::OneOf(x), ValueConstraint::OneOf(y)) => {
            assert forall|i: int| 0 <= i < x@.len() implies x@[i] == y@[i] by {
                assert(cloned(x@[i], y@[i]));
            }
            assert(x@ =~= y@);
        },
        _ => {},
    }
}

/// A copied target admits exactly what the target it was copied from admits when values
/// clone exactly.
pub proof fn lemma_resolved_admits_copied<DS: DataSource>(
    ds: DS,
    a: Target<DS::V>,
    b: Target<DS::V>,
    value: DS::V,
    bm: BindingMap<DS::N, DS::V>,
)
    requires
        clone_exact::<DS::V>(),
        a.copied_to(b),
    ensures
        resolved_admits(ds, a, value, bm) == resolved_admits(ds, b, value, bm),
{
    match (a, b) {
        (Target::Literal(x), Target::Literal(y)) => {
            assert(cloned(x, y));
        },
        (Target::Constraint(x), Target::Constraint(y)) => {
            lemma_admits_copied(x, y, value);
        },
        _ => {},
    }
}

/// The data value bound to `var`, if it is bound to a value (not a node).
pub fn extract_value<'a, N, V>(bindings: &'a StrMap<BoundValue<N, V>>, var: &str) -> (r: Option<&'a V>)
    ensures
        match value_of(bindings@, var@) {
            Some(v) => r == Some(&v),
            None => r is None,
        },
{
    match bindings.get(var) {
        Some(BoundValue::Value(v)) => Some(v),
        _ => None,
    }
}

/// Resolve a `*Var` constraint against the bindings, producing a concrete
/// constraint (a copy of the constraint itself if it names no variable);
/// `None` if the variable is not bound or is bound to a node.
pub fn resolve_constraint<N, V: Clone>(constraint: &ValueConstraint<V>, bindings: &StrMap<BoundValue<N, V>>) -> (r: Option<
    ValueConstraint<V>,
>)
    ensures
        (r is Some) == (resolve_spec(*constraint, bindings@) is Some),
        r matches Some(k) ==> resolve_spec(*constraint, bindings@)->0.copied_to(k),
{
    match constraint {
        ValueConstraint::EqVar(var) => match extract_value(bindings, var.as_str()) {
            Some(v) => Some(ValueConstraint::Eq(v.clone())),
            None => None,
        },
        ValueConstraint::LtVar(var) => match extract_value(bindings, var.as_str()) {
            Some(v) => Some(ValueConstraint::Lt(v.clone())),
            None => None,
        },
        ValueConstraint::GtVar(var) => match extract_value(bindings, var.as_str()) {
            Some(v) => Some(ValueConstraint::Gt(v.clone())),
            None => None,
        },
        ValueConstraint::LteVar(var) => match extract_value(bindings, var.as_str()) {
            Some(v) => Some(ValueConstraint::Lte(v.clone())),
            None => None,
        },
        ValueConstraint::GteVar(var) => match extract_value(bindings, var.as_str()) {
            Some(v) => Some(ValueConstraint::Gte(v.clone())),
            None => None,
        },
        other => Some(other.clone()),
    }
}

/// Resolve `*Var` constraints in a target; `None` if a `*Var` constraint
/// cannot be resolved.
pub fn resolve_target<N, V: Clone>(target: &Target<V>, bindings: &StrMap<BoundValue<N, V>>) -> (r: Option<Target<V>>)
    ensures
        (r is Some) == (resolve_target_spec(*target, bindings@) is Some),
        r matches Some(t) ==> resolve_target_spec(*target, bindings@)->0.copied_to(t),
{
    match target {
        Target::Constraint(c) => {
            if c.is_var() {
                match resolve_constraint(c, bindings) {
                    Some(k) => Some(Target::Constraint(k)),
                    None => None,
                }
            } else {
                Some(target.clone())
            }
        },
        _ => Some(target.clone()),
    }
}

/// Does a resolved target admit `value` under the bindings?
pub fn resolved_matches<DS: DataSource>(
    ds: &DS,
    target: &Target<DS::V>,
    value: &DS::V,
    bindings: &StrMap<BoundValue<DS::N, DS::V>>,
) -> (r: bool)
    ensures
        lawful::<DS>() ==> r == resolved_admits(*ds, *target, *value, bindings@),
{
    match target {
        Target::Literal(v) => *value == *v,
        Target::Constraint(c) => c.matches(value),
        Target::Bind(var) => match bindings.get(var.0.as_str()) {
            Some(bound) => {
                let f = |v: &DS::V| -> (o: Option<DS::N>)
                    ensures
                        o == ds.value_as_node_spec(*v),
                    { ds.value_as_node(v) };
                bound.matches_value(&f, value)
            },
            None => true,
        },
    }
}

/// Does an edge value satisfy a clause target under the bindings?
pub fn target_matches_ds<DS: DataSource>(
    ds: &DS,
    target: &Target<DS::V>,
    value: &DS::V,
    bindings: &StrMap<BoundValue<DS::N, DS::V>>,
) -> (r: bool)
    ensures
        lawful::<DS>() ==> r == target_admits(*ds, *target, *value, bindings@),
{
    match target {
        Target::Constraint(c) => {
            if c.is_var() {
                match resolve_constraint(c, bindings) {
                    Some(k) => {
                        let r = k.matches(value);
                        proof {
                            if lawful::<DS>() {
                                lemma_admits_copied(resolve_spec(*c, bindings@)->0, k, *value);
                            }
                        }
                        r
                    },
                    None => false,
                }
            } else {
                c.matches(value)
            }
        },
        _ => resolved_matches(ds, target, value, bindings),
    }
}

/// Bind a `Bind` target's variable to an edge value: a variable already
/// bound must match the value (the bindings stay as they are); an unbound
/// one is bound to the node the value refers to, else to the value. Other
/// targets bind nothing and succeed.
pub fn bind_target<DS: DataSource>(
    ds: &DS,
    target: &Target<DS::V>,
    value: &DS::V,
    bindings: &mut StrMap<BoundValue<DS::N, DS::V>>,
) -> (r: bool)
    ensures
        match *target {
            Target::Bind(var) => if old(bindings)@.contains_key(var.0@) {
                &&& final(bindings)@ == old(bindings)@
                &&& lawful::<DS>() ==> r == bound_matches(*ds, old(bindings)@[var.0@], *value)
            } else {
                &&& r
                &&& lawful::<DS>() ==> final(bindings)@ == old(bindings)@.insert(var.0@, binding_for(*ds, *value))
                &&& final(bindings)@.dom() == old(bindings)@.dom().insert(var.0@)
                &&& forall|k: Seq<char>| k != var.0@ && #[trigger] old(bindings)@.contains_key(k) ==> final(bindings)@[k] == old(bindings)@[k]
            },
            _ => r && final(bindings)@ == old(bindings)@,
        },
{
    match target {
        Target::Bind(var) => {
            match bindings.get(var.0.as_str()) {
                Some(existing) => {
                    let f = |v: &DS::V| -> (o: Option<DS::N>)
                        ensures
                            o == ds.value_as_node_spec(*v),
                        { ds.value_as_node(v) };
                    return existing.matches_value(&f, value);
                },
                None => {},
            }
            match ds.value_as_node(value) {
                Some(n) => {
                    bindings.insert(var.0.clone(), BoundValue::Node(n));
                },
                None => {
                    let c = value.clone();
                    proof {
                        if lawful::<DS>() {
                            assert(cloned(*value, c));
                        }
                    }
                    bindings.insert(var.0.clone(), BoundValue::Value(c));
                },
            }
            true
        },
        _ => true,
    }
}

/// Does the clause hold under the bindings at time `now`? Its source must be
/// bound to a node; some edge from it with the clause's label must match
/// the target (for a negated clause: none may).
pub fn clause_satisfied<DS: DataSource>(
    ds: &DS,
    clause: &Clause<DS::L, DS::V>,
    bindings: &StrMap<BoundValue<DS::N, DS::V>>,
    now: &i64,
) -> (r: bool)
    ensures
        lawful::<DS>() ==> r == clause_holds(*ds, *clause, bindings@, *now),
{
    let source = match bindings.get(clause.source.0.as_str()) {
        Some(BoundValue::Node(n)) => n,
        _ => return false,
    };
    let edges = ds.edges_from(source, &clause.label, now);
    let found = any_edge_matches(ds, &edges, &clause.target, bindings);
    if clause.negated {
        !found
    } else {
        found
    }
}

/// Does some edge of `edges` have a target that the clause target admits?
pub fn any_edge_matches<DS: DataSource>(
    ds: &DS,
    edges: &Vec<Edge<DS::N, DS::V, i64>>,
    target: &Target<DS::V>,
    bindings: &StrMap<BoundValue<DS::N, DS::V>>,
) -> (r: bool)
    ensures
        lawful::<DS>() ==> r == some_edge_admits(*ds, edges@, *target, bindings@),
{
    let mut i: usize = 0;
    while i < edges.len()
        invariant
            i <= edges@.len(),
            lawful::<DS>() ==> forall|j: int|
                0 <= j < i ==> !target_admits(*ds, *target, #[trigger] edges@[j].target, bindings@),
        decreases edges@.len() - i,
    {
        if target_matches_ds(ds, target, &edges[i].target, bindings) {
            return true;
        }
        i = i + 1;
    }
    false
}

/// The first edge of `edges` whose target the resolved target admits.
pub fn first_matching_edge<DS: DataSource>(
    ds: &DS,
    edges: &Vec<Edge<DS::N, DS::V, i64>>,
    target: &Target<DS::V>,
    bindings: &StrMap<BoundValue<DS::N, DS::V>>,
) -> (r: Option<usize>)
    ensures
        match r {
            Some(i) => i < edges@.len() && (lawful::<DS>() ==> resolved_admits(*ds, *target, edges@[i as int].target, bindings@)
                && forall|j: int| 0 <= j < i ==> !resolved_admits(*ds, *target, #[trigger] edges@[j].target, bindings@)),
            None => lawful::<DS>() ==> forall|j: int|
                0 <= j < edges@.len() ==> !resolved_admits(*ds, *target, #[trigger] edges@[j].target, bindings@),
        },
{
    let mut i: usize = 0;
    while i < edges.len()
        invariant
            i <= edges@.len(),
            lawful::<DS>() ==> forall|j: int|
                0 <= j < i ==> !resolved_admits(*ds, *target, #[trigger] edges@[j].target, bindings@),
        decreases edges@.len() - i,
    {
        if resolved_matches(ds, target, &edges[i].target, bindings) {
            return Some(i);
        }
        i = i + 1;
    }
    None
}

/// The binding for an edge value: the node it refers to, else a copy of it.
pub fn binding_of<DS: DataSource>(ds: &DS, value: &DS::V) -> (r: BoundValue<DS::N, DS::V>)
    ensures
        lawful::<DS>() ==> r == binding_for(*ds, *value),
        ds.value_as_node_spec(*value) is Some ==> r == binding_for(*ds, *value),
{
    match ds.value_as_node(value) {
        Some(n) => BoundValue::Node(n),
        None => {
            let c = value.clone();
            proof {
                if lawful::<DS>() {
                    assert(cloned(*value, c));
                }
            }
            BoundValue::Value(c)
        },
    }
}

/// A copy of a binding map equals it when nodes and values clone exactly.
pub proof fn lemma_duplicate_exact<N: Clone, V: Clone>(a: BindingMap<N, V>, b: BindingMap<N, V>)
    requires
        clone_exact::<N>(),
        clone_exact::<V>(),
        a.dom() == b.dom(),
        forall|k: Seq<char>| #[trigger] b.contains_key(k) ==> cloned(a[k], b[k]),
    ensures
        a == b,
{
    assert forall|k: Seq<char>| #[trigger] b.contains_key(k) implies a[k] == b[k] by {
        lemma_bound_value_clone_exact(a[k], b[k]);
    }
    assert(a =~= b);
}

} // verus!
