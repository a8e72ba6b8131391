//! Pattern composition operators — build complex patterns from simpler ones.
//!
//! - [`sequence`] — A then B, with shared variable bindings
//! - [`choice`] — any of N alternatives (optionally exclusive)
//! - [`repeat`] — A happens N times
//!
//! All operators rename variables to avoid collisions between sub-patterns:
//! a variable listed as shared keeps its name, every other one is prefixed
//! with the sub-pattern's position (`a_`, `b_`, `rep0_`, ...).

use crate::datasource::ValueConstraint;
use crate::expr::{ComputedBinding, Expr};
use crate::pattern::{
    Clause, Negation, Pattern, RepeatRange, Stage, TemporalConstraint, Target, Var, DEFAULT_IMPORTANCE_BITS,
};
use crate::strmap::StrMap;
use crate::text::{decimal, push_decimal};
use vstd::prelude::*;

verus! {

/// The name is listed in `keep`.
pub open spec fn kept(v: Seq<char>, keep: Seq<&str>) -> bool {
    exists|i: int| 0 <= i < keep.len() && (#[trigger] keep[i])@ == v
}

/// The name a variable gets: unchanged when kept (or when everything is
/// kept), else `prefix_name`.
pub open spec fn renamed(v: Seq<char>, prefix: Seq<char>, keep: Seq<&str>, all: bool) -> Seq<char> {
    if all || kept(v, keep) {
        v
    } else {
        prefix + seq!['_'] + v
    }
}

/// `r` is the expression `e` with its variables renamed, literals cloned.
pub open spec fn expr_renamed<V: Clone>(e: Expr<V>, r: Expr<V>, prefix: Seq<char>, keep: Seq<&str>, all: bool) -> bool
    decreases e,
{
    match (e, r) {
        (Expr::Literal(a), Expr::Literal(b)) => cloned(a, b),
        (Expr::Var(a), Expr::Var(b)) => b@ == renamed(a@, prefix, keep, all),
        (Expr::BinOp(o1, l1, r1), Expr::BinOp(o2, l2, r2)) => o1 == o2 && expr_renamed(*l1, *l2, prefix, keep, all)
            && expr_renamed(*r1, *r2, prefix, keep, all),
        _ => false,
    }
}

/// `r` is the constraint `k` with the variable it names renamed, values cloned.
pub open spec fn constraint_renamed<V: Clone>(
    k: ValueConstraint<V>,
    r: ValueConstraint<V>,
    prefix: Seq<char>,
    keep: Seq<&str>,
    all: bool,
) -> bool {
    match (k, r) {
        (ValueConstraint::EqVar(a), ValueConstraint::EqVar(b)) => b@ == renamed(a@, prefix, keep, all),
        (ValueConstraint::LtVar(a), ValueConstraint::LtVar(b)) => b@ == renamed(a@, prefix, keep, all),
        (ValueConstraint::GtVar(a), ValueConstraint::GtVar(b)) => b@ == renamed(a@, prefix, keep, all),
        (ValueConstraint::LteVar(a), ValueConstraint::LteVar(b)) => b@ == renamed(a@, prefix, keep, all),
        (ValueConstraint::GteVar(a), ValueConstraint::GteVar(b)) => b@ == renamed(a@, prefix, keep, all),
        (ValueConstraint::EqVar(_), _) => false,
        (ValueConstraint::LtVar(_), _) => false,
        (ValueConstraint::GtVar(_), _) => false,
        (ValueConstraint::LteVar(_), _) => false,
        (ValueConstraint::GteVar(_), _) => false,
        (a, b) => a.copied_to(b),
    }
}

/// `r` is the clause `c` with its variables renamed, label and values cloned.
pub open spec fn clause_renamed<L: Clone, V: Clone>(
    c: Clause<L, V>,
    r: Clause<L, V>,
    prefix: Seq<char>,
    keep: Seq<&str>,
    all: bool,
) -> bool {
    &&& r.source.0@ == renamed(c.source.0@, prefix, keep, all)
    &&& cloned(c.label, r.label)
    &&& r.negated == c.negated
    &&& match (c.target, r.target) {
        (Target::Bind(a), Target::Bind(b)) => b.0@ == renamed(a.0@, prefix, keep, all),
        (Target::Bind(_), _) => false,
        (Target::Constraint(a), Target::Constraint(b)) => constraint_renamed(a, b, prefix, keep, all),
        (Target::Constraint(_), _) => false,
        (t1, t2) => t1.copied_to(t2),
    }
}

/// Clause lists renamed pointwise.
pub open spec fn clauses_renamed<L: Clone, V: Clone>(
    cs: Seq<Clause<L, V>>,
    rs: Seq<Clause<L, V>>,
    prefix: Seq<char>,
    keep: Seq<&str>,
    all: bool,
) -> bool {
    cs.len() == rs.len() && forall|i: int| 0 <= i < cs.len() ==> clause_renamed(cs[i], #[trigger] rs[i], prefix, keep, all)
}

/// `r` is the stage `s` with its variables renamed.
pub open spec fn stage_renamed<L: Clone, V: Clone>(
    s: Stage<L, V>,
    r: Stage<L, V>,
    prefix: Seq<char>,
    keep: Seq<&str>,
    all: bool,
) -> bool {
    &&& r.anchor.0@ == renamed(s.anchor.0@, prefix, keep, all)
    &&& clauses_renamed(s.clauses@, r.clauses@, prefix, keep, all)
    &&& r.let_bindings@.len() == s.let_bindings@.len()
    &&& forall|i: int| 0 <= i < s.let_bindings@.len() ==> {
        &&& (#[trigger] r.let_bindings@[i]).name@ == renamed(s.let_bindings@[i].name@, prefix, keep, all)
        &&& expr_renamed(s.let_bindings@[i].expr, r.let_bindings@[i].expr, prefix, keep, all)
    }
}

/// `r` is the negation window `n` with its variables renamed.
pub open spec fn negation_renamed<L: Clone, V: Clone>(
    n: Negation<L, V>,
    r: Negation<L, V>,
    prefix: Seq<char>,
    keep: Seq<&str>,
    all: bool,
) -> bool {
    &&& r.between_start.0@ == renamed(n.between_start.0@, prefix, keep, all)
    &&& match (n.between_end, r.between_end) {
        (Some(a), Some(b)) => b.0@ == renamed(a.0@, prefix, keep, all),
        (None, None) => true,
        _ => false,
    }
    &&& clauses_renamed(n.clauses@, r.clauses@, prefix, keep, all)
    &&& r.is_global == n.is_global
}

/// `r` is the temporal constraint `t` with its variables renamed.
pub open spec fn temporal_renamed(t: TemporalConstraint, r: TemporalConstraint, prefix: Seq<char>, keep: Seq<&str>, all: bool) -> bool {
    &&& r.left.0@ == renamed(t.left.0@, prefix, keep, all)
    &&& r.right.0@ == renamed(t.right.0@, prefix, keep, all)
    &&& r.relation == t.relation
    &&& r.gap == t.gap
}

/// `r` carries the body of `p` (stages, temporal constraints and negations)
/// with every variable renamed.
pub open spec fn body_renamed<L: Clone, V: Clone>(
    p: Pattern<L, V>,
    r: Pattern<L, V>,
    prefix: Seq<char>,
    keep: Seq<&str>,
    all: bool,
) -> bool {
    &&& r.stages@.len() == p.stages@.len()
    &&& forall|i: int| 0 <= i < p.stages@.len() ==> stage_renamed(p.stages@[i], #[trigger] r.stages@[i], prefix, keep, all)
    &&& r.temporal@.len() == p.temporal@.len()
    &&& forall|i: int| 0 <= i < p.temporal@.len() ==> temporal_renamed(p.temporal@[i], #[trigger] r.temporal@[i], prefix, keep, all)
    &&& r.negations@.len() == p.negations@.len()
    &&& forall|i: int| 0 <= i < p.negations@.len() ==> negation_renamed(p.negations@[i], #[trigger] r.negations@[i], prefix, keep, all)
}

fn is_kept(v: &String, keep: &[&str]) -> (r: bool)
    ensures
        r == kept(v@, keep@),
{
    let mut i: usize = 0;
    while i < keep.len()
        invariant
            i <= keep@.len(),
            forall|j: int| 0 <= j < i ==> (#[trigger] keep@[j])@ != v@,
        decreases keep@.len() - i,
    {
        let k = keep[i].to_owned();
        if k == *v {
            return true;
        }
        i = i + 1;
    }
    false
}

fn rename_name(v: &String, prefix: &str, keep: &[&str], all: bool) -> (r: String)
    ensures
        r@ == renamed(v@, prefix@, keep@, all),
{
    if all || is_kept(v, keep) {
        v.clone()
    } else {
        let mut s = prefix.to_owned();
        s.append("_");
        s.append(v.as_str());
        proof {
            reveal_strlit("_");
        }
        s
    }
}

fn rename_var(v: &Var, prefix: &str, keep: &[&str], all: bool) -> (r: Var)
    ensures
        r.0@ == renamed(v.0@, prefix@, keep@, all),
{
    Var(rename_name(&v.0, prefix, keep, all))
}

fn rename_expr<V: Clone>(e: &Expr<V>, prefix: &str, keep: &[&str], all: bool) -> (r: Expr<V>)
    ensures
        expr_renamed(*e, r, prefix@, keep@, all),
    decreases e,
{
    match e {
        Expr::Literal(v) => Expr::Literal(v.clone()),
        Expr::Var(s) => Expr::Var(rename_name(s, prefix, keep, all)),
        Expr::BinOp(op, l, r) => {
            let lr = rename_expr(&**l, prefix, keep, all);
            let rr = rename_expr(&**r, prefix, keep, all);
            Expr::BinOp(*op, Box::new(lr), Box::new(rr))
        },
    }
}

fn rename_constraint<V: Clone>(k: &ValueConstraint<V>, prefix: &str, keep: &[&str], all: bool) -> (r: ValueConstraint<V>)
    ensures
        constraint_renamed(*k, r, prefix@, keep@, all),
{
    match k {
        ValueConstraint::EqVar(n) => ValueConstraint::EqVar(rename_name(n, prefix, keep, all)),
        ValueConstraint::LtVar(n) => ValueConstraint::LtVar(rename_name(n, prefix, keep, all)),
        ValueConstraint::GtVar(n) => ValueConstraint::GtVar(rename_name(n, prefix, keep, all)),
        ValueConstraint::LteVar(n) => ValueConstraint::LteVar(rename_name(n, prefix, keep, all)),
        ValueConstraint::GteVar(n) => ValueConstraint::GteVar(rename_name(n, prefix, keep, all)),
        _ => k.clone(),
    }
}

fn rename_clause<L: Clone, V: Clone>(c: &Clause<L, V>, prefix: &str, keep: &[&str], all: bool) -> (r: Clause<L, V>)
    ensures
        clause_renamed(*c, r, prefix@, keep@, all),
{
    let target = match &c.target {
        Target::Bind(v) => Target::Bind(rename_var(v, prefix, keep, all)),
        Target::Literal(v) => Target::Literal(v.clone()),
        Target::Constraint(k) => Target::Constraint(rename_constraint(k, prefix, keep, all)),
    };
    Clause { source: rename_var(&c.source, prefix, keep, all), label: c.label.clone(), target, negated: c.negated }
}

fn rename_clauses<L: Clone, V: Clone>(cs: &Vec<Clause<L, V>>, prefix: &str, keep: &[&str], all: bool) -> (r: Vec<Clause<L, V>>)
    ensures
        clauses_renamed(cs@, r@, prefix@, keep@, all),
{
    let mut out: Vec<Clause<L, V>> = Vec::new();
    let mut i: usize = 0;
    while i < cs.len()
        invariant
            i <= cs@.len(),
            out@.len() == i,
            forall|k: int| 0 <= k < i ==> clause_renamed(cs@[k], #[trigger] out@[k], prefix@, keep@, all),
        decreases cs@.len() - i,
    {
        out.push(rename_clause(&cs[i], prefix, keep, all));
        i = i + 1;
    }
    out
}

fn rename_stage<L: Clone, V: Clone>(s: &Stage<L, V>, prefix: &str, keep: &[&str], all: bool) -> (r: Stage<L, V>)
    ensures
        stage_renamed(*s, r, prefix@, keep@, all),
{
    let clauses = rename_clauses(&s.clauses, prefix, keep, all);
    let mut lets: Vec<ComputedBinding<V>> = Vec::new();
    let mut i: usize = 0;
    while i < s.let_bindings.len()
        invariant
            i <= s.let_bindings@.len(),
            lets@.len() == i,
            forall|k: int| 0 <= k < i ==> {
                &&& (#[trigger] lets@[k]).name@ == renamed(s.let_bindings@[k].name@, prefix@, keep@, all)
                &&& expr_renamed(s.let_bindings@[k].expr, lets@[k].expr, prefix@, keep@, all)
            },
        decreases s.let_bindings@.len() - i,
    {
        let cb = &s.let_bindings[i];
        lets.push(ComputedBinding { name: rename_name(&cb.name, prefix, keep, all), expr: rename_expr(&cb.expr, prefix, keep, all) });
        i = i + 1;
    }
    Stage { anchor: rename_var(&s.anchor, prefix, keep, all), clauses, let_bindings: lets }
}

fn rename_negation<L: Clone, V: Clone>(n: &Negation<L, V>, prefix: &str, keep: &[&str], all: bool) -> (r: Negation<L, V>)
    ensures
        negation_renamed(*n, r, prefix@, keep@, all),
{
    let end = match &n.between_end {
        Some(v) => Some(rename_var(v, prefix, keep, all)),
        None => None,
    };
    Negation {
        between_start: rename_var(&n.between_start, prefix, keep, all),
        between_end: end,
        clauses: rename_clauses(&n.clauses, prefix, keep, all),
        is_global: n.is_global,
    }
}

/// The pattern `p` with every variable renamed; name, group, metadata and
/// settings are copied.
fn rename_all<L: Clone, V: Clone>(p: &Pattern<L, V>, prefix: &str, keep: &[&str], all: bool) -> (r: Pattern<L, V>)
    ensures
        body_renamed(*p, r, prefix@, keep@, all),
        r.name@ == p.name@,
        (r.group is Some) == (p.group is Some),
        r.group matches Some(g) ==> g@ == p.group->0@,
        r.metadata@.dom() == p.metadata@.dom(),
        forall|k: Seq<char>| #[trigger] r.metadata@.contains_key(k) ==> r.metadata@[k]@ == p.metadata@[k]@,
        r.deadline_ticks == p.deadline_ticks,
        r.inactivity_threshold == p.inactivity_threshold,
        crate::pattern::same_range_opt(p.repeat_range, r.repeat_range),
        r.unordered_groups@.len() == p.unordered_groups@.len(),
        forall|i: int| 0 <= i < p.unordered_groups@.len() ==> (#[trigger] r.unordered_groups@[i])@ == p.unordered_groups@[i]@,
        r.private == p.private,
        r.importance_bits == p.importance_bits,
        r.advance_in_place == p.advance_in_place,
{
    let mut stages: Vec<Stage<L, V>> = Vec::new();
    let mut i: usize = 0;
    while i < p.stages.len()
        invariant
            i <= p.stages@.len(),
            stages@.len() == i,
            forall|k: int| 0 <= k < i ==> stage_renamed(p.stages@[k], #[trigger] stages@[k], prefix@, keep@, all),
        decreases p.stages@.len() - i,
    {
        stages.push(rename_stage(&p.stages[i], prefix, keep, all));
        i = i + 1;
    }
    let mut temporal: Vec<TemporalConstraint> = Vec::new();
    let mut t: usize = 0;
    while t < p.temporal.len()
        invariant
            t <= p.temporal@.len(),
            temporal@.len() == t,
            forall|k: int| 0 <= k < t ==> temporal_renamed(p.temporal@[k], #[trigger] temporal@[k], prefix@, keep@, all),
        decreases p.temporal@.len() - t,
    {
        let tc = &p.temporal[t];
        temporal.push(
            TemporalConstraint {
                left: rename_var(&tc.left, prefix, keep, all),
                relation: tc.relation,
                right: rename_var(&tc.right, prefix, keep, all),
                gap: tc.gap,
            },
        );
        t = t + 1;
    }
    let mut negations: Vec<Negation<L, V>> = Vec::new();
    let mut j: usize = 0;
    while j < p.negations.len()
        invariant
            j <= p.negations@.len(),
            negations@.len() == j,
            forall|k: int| 0 <= k < j ==> negation_renamed(p.negations@[k], #[trigger] negations@[k], prefix@, keep@, all),
        decreases p.negations@.len() - j,
    {
        negations.push(rename_negation(&p.negations[j], prefix, keep, all));
        j = j + 1;
    }
    let mut groups: Vec<Vec<usize>> = Vec::new();
    let mut g: usize = 0;
    while g < p.unordered_groups.len()
        invariant
            g <= p.unordered_groups@.len(),
            groups@.len() == g,
            forall|k: int| 0 <= k < g ==> (#[trigger] groups@[k])@ == p.unordered_groups@[k]@,
        decreases p.unordered_groups@.len() - g,
    {
        groups.push(crate::pattern::copy_indices(&p.unordered_groups[g]));
        g = g + 1;
    }
    let group = match &p.group {
        Some(s) => Some(s.clone()),
        None => None,
    };
    let repeat_range: Option<RepeatRange> = match &p.repeat_range {
        Some(rr) => Some(rr.copy()),
        None => None,
    };
    let metadata = p.metadata.duplicate();
    Pattern {
        name: p.name.clone(),
        stages,
        temporal,
        negations,
        group,
        metadata,
        deadline_ticks: p.deadline_ticks,
        inactivity_threshold: p.inactivity_threshold,
        repeat_range,
        unordered_groups: groups,
        private: p.private,
        importance_bits: p.importance_bits,
        advance_in_place: p.advance_in_place,
    }
}

/// Rename all variables in a pattern, prefixing with `prefix_` unless the
/// variable name is in `keep`. Returns a new pattern with renamed variables.
pub fn rename_vars<L: Clone, V: Clone>(pattern: &Pattern<L, V>, prefix: &str, keep: &[&str]) -> (r: Pattern<L, V>)
    ensures
        body_renamed(*pattern, r, prefix@, keep@, false),
        r.name@ == pattern.name@,
        (r.group is Some) == (pattern.group is Some),
        r.group matches Some(g) ==> g@ == pattern.group->0@,
        r.metadata@.dom() == pattern.metadata@.dom(),
        forall|k: Seq<char>| #[trigger] r.metadata@.contains_key(k) ==> r.metadata@[k]@ == pattern.metadata@[k]@,
        r.deadline_ticks == pattern.deadline_ticks,
        r.inactivity_threshold == pattern.inactivity_threshold,
        crate::pattern::same_range_opt(pattern.repeat_range, r.repeat_range),
        r.unordered_groups@.len() == pattern.unordered_groups@.len(),
        forall|i: int|
            0 <= i < pattern.unordered_groups@.len() ==> (#[trigger] r.unordered_groups@[i])@ == pattern.unordered_groups@[i]@,
        r.private == pattern.private,
        r.importance_bits == pattern.importance_bits,
        r.advance_in_place == pattern.advance_in_place,
{
    rename_all(pattern, prefix, keep, false)
}

/// Append `b` to `a`.
fn append_all<X>(a: &mut Vec<X>, b: Vec<X>)
    ensures
        final(a)@ == old(a)@ + b@,
{
    let mut b = b;
    a.append(&mut b);
}

/// Compose two patterns in sequence: all of A's stages, then all of B's.
/// Variables in `shared` bind across both; all others are prefixed `a_` and
/// `b_`. Metadata is merged, B's value winning on a shared key.
pub fn sequence<L: Clone, V: Clone>(name: &str, a: &Pattern<L, V>, b: &Pattern<L, V>, shared: &[&str]) -> (r: Pattern<L, V>)
    ensures
        r.name@ == name@,
        r.stages@.len() == a.stages@.len() + b.stages@.len(),
        forall|i: int| 0 <= i < a.stages@.len() ==> stage_renamed(a.stages@[i], #[trigger] r.stages@[i], seq!['a'], shared@, false),
        forall|i: int|
            0 <= i < b.stages@.len() ==> stage_renamed(b.stages@[i], #[trigger] r.stages@[a.stages@.len() + i], seq!['b'], shared@, false),
        r.temporal@.len() == a.temporal@.len() + b.temporal@.len(),
        forall|i: int| 0 <= i < a.temporal@.len() ==> temporal_renamed(a.temporal@[i], #[trigger] r.temporal@[i], seq!['a'], shared@, false),
        forall|i: int|
            0 <= i < b.temporal@.len() ==> temporal_renamed(b.temporal@[i], #[trigger] r.temporal@[a.temporal@.len() + i], seq!['b'], shared@, false),
        r.negations@.len() == a.negations@.len() + b.negations@.len(),
        forall|i: int| 0 <= i < a.negations@.len() ==> negation_renamed(a.negations@[i], #[trigger] r.negations@[i], seq!['a'], shared@, false),
        forall|i: int|
            0 <= i < b.negations@.len() ==> negation_renamed(b.negations@[i], #[trigger] r.negations@[a.negations@.len() + i], seq!['b'], shared@, false),
        r.metadata@.dom() == a.metadata@.dom().union(b.metadata@.dom()),
        forall|k: Seq<char>| #[trigger] b.metadata@.contains_key(k) ==> r.metadata@[k]@ == b.metadata@[k]@,
        forall|k: Seq<char>| !b.metadata@.contains_key(k) && #[trigger] a.metadata@.contains_key(k) ==> r.metadata@[k]@ == a.metadata@[k]@,
        r.group is None,
        r.deadline_ticks is None,
        r.inactivity_threshold is None,
        r.repeat_range is None,
        r.unordered_groups@.len() == 0,
        !r.private,
        r.importance_bits == DEFAULT_IMPORTANCE_BITS,
        !r.advance_in_place,
{
    let ra = rename_all(a, "a", shared, false);
    let rb = rename_all(b, "b", shared, false);
    proof {
        reveal_strlit("a");
        reveal_strlit("b");
        assert("a"@ =~= seq!['a']);
        assert("b"@ =~= seq!['b']);
    }
    let ghost gra = ra;
    let ghost grb = rb;
    let Pattern { stages: sa, temporal: ta, negations: na, metadata: ma, .. } = ra;
    let Pattern { stages: sb, temporal: tb, negations: nb, metadata: mb, .. } = rb;
    let ghost gsa = sa@;
    let ghost gsb = sb@;
    let mut stages = sa;
    append_all(&mut stages, sb);
    proof {
        assert forall|i: int| 0 <= i < a.stages@.len() implies stage_renamed(a.stages@[i], #[trigger] stages@[i], seq!['a'], shared@, false) by {
            assert(stages@[i] == gsa[i]);
            assert(gra.stages@[i] == gsa[i]);
            assert(stage_renamed(a.stages@[i], gra.stages@[i], "a"@, shared@, false));
        }
        assert forall|i: int| 0 <= i < b.stages@.len() implies stage_renamed(b.stages@[i], #[trigger] stages@[a.stages@.len() + i], seq!['b'], shared@, false) by {
            assert(stages@[a.stages@.len() + i] == gsb[i]);
            assert(grb.stages@[i] == gsb[i]);
            assert(stage_renamed(b.stages@[i], grb.stages@[i], "b"@, shared@, false));
        }
    }
    let mut temporal = ta;
    append_all(&mut temporal, tb);
    let mut negations = na;
    append_all(&mut negations, nb);
    let mut metadata = ma;
    metadata.extend_from(&mb);
    Pattern {
        name: name.to_owned(),
        stages,
        temporal,
        negations,
        group: None,
        metadata,
        deadline_ticks: None,
        inactivity_threshold: None,
        repeat_range: None,
        unordered_groups: Vec::new(),
        private: false,
        importance_bits: DEFAULT_IMPORTANCE_BITS,
        advance_in_place: false,
    }
}

/// Create a set of alternative patterns, one per alternative, each named
/// `name_<alternative>`. If `exclusive`, they share the mutual-exclusion
/// group `name`: when one completes, the engine kills the others' partial
/// matches.
pub fn choice<L: Clone, V: Clone>(name: &str, alternatives: &[&Pattern<L, V>], exclusive: bool) -> (r: Vec<Pattern<L, V>>)
    requires
        alternatives@.len() > 0,
    ensures
        r@.len() == alternatives@.len(),
        forall|i: int|
            0 <= i < alternatives@.len() ==> {
                let p = *alternatives@[i];
                let q = #[trigger] r@[i];
                &&& q.name@ == name@ + seq!['_'] + p.name@
                &&& body_renamed(p, q, Seq::empty(), Seq::empty(), true)
                &&& if exclusive {
                    q.group matches Some(g) && g@ == name@
                } else {
                    q.group is None
                }
                &&& q.metadata@.dom() == p.metadata@.dom()
                &&& forall|k: Seq<char>| #[trigger] q.metadata@.contains_key(k) ==> q.metadata@[k]@ == p.metadata@[k]@
                &&& q.deadline_ticks == p.deadline_ticks
                &&& q.private == p.private
                &&& q.inactivity_threshold == p.inactivity_threshold
                &&& crate::pattern::same_range_opt(p.repeat_range, q.repeat_range)
                &&& q.unordered_groups@.map_values(|g: Vec<usize>| g@) == p.unordered_groups@.map_values(|g: Vec<usize>| g@)
                &&& q.importance_bits == p.importance_bits
                &&& q.advance_in_place == p.advance_in_place
            },
{
    let mut out: Vec<Pattern<L, V>> = Vec::new();
    let mut i: usize = 0;
    while i < alternatives.len()
        invariant
            i <= alternatives@.len(),
            out@.len() == i,
            forall|k: int|
                0 <= k < i ==> {
                    let p = *alternatives@[k];
                    let q = #[trigger] out@[k];
                    &&& q.name@ == name@ + seq!['_'] + p.name@
                    &&& body_renamed(p, q, Seq::empty(), Seq::empty(), true)
                    &&& if exclusive {
                        q.group matches Some(g) && g@ == name@
                    } else {
                        q.group is None
                    }
                    &&& q.metadata@.dom() == p.metadata@.dom()
                    &&& forall|k: Seq<char>| #[trigger] q.metadata@.contains_key(k) ==> q.metadata@[k]@ == p.metadata@[k]@
                    &&& q.deadline_ticks == p.deadline_ticks
                    &&& q.private == p.private
                    &&& q.inactivity_threshold == p.inactivity_threshold
                    &&& crate::pattern::same_range_opt(p.repeat_range, q.repeat_range)
                    &&& q.unordered_groups@.map_values(|g: Vec<usize>| g@) == p.unordered_groups@.map_values(|g: Vec<usize>| g@)
                    &&& q.importance_bits == p.importance_bits
                    &&& q.advance_in_place == p.advance_in_place
                },
        decreases alternatives@.len() - i,
    {
        let src: &Pattern<L, V> = alternatives[i];
        let keep_none: &[&str] = &[];
        proof {
            assert(keep_none@ =~= Seq::<&str>::empty());
        }
        let mut p = rename_all(src, "", keep_none, true);
        let mut full = name.to_owned();
        full.append("_");
        full.append(src.name.as_str());
        proof {
            reveal_strlit("_");
            reveal_strlit("");
            assert(""@ =~= Seq::<char>::empty());
        }
        p.name = full;
        p.group = if exclusive { Some(name.to_owned()) } else { None };
        let ghost before = out@;
        let ghost q = p;
        out.push(p);
        proof {
            let pk = *alternatives@[i as int];
            assert(pk == *src);
            assert(q.name@ == name@ + seq!['_'] + pk.name@);
            assert(body_renamed(pk, q, Seq::empty(), Seq::empty(), true));
            assert(q.unordered_groups@.map_values(|g: Vec<usize>| g@) =~= pk.unordered_groups@.map_values(|g: Vec<usize>| g@));
            assert(out@[i as int] == q);
            assert forall|k: int| 0 <= k < i implies #[trigger] out@[k] == before[k] by {}
        }
        i = i + 1;
    }
    out
}

/// The prefix of repetition `i`: `rep<i>`.
pub open spec fn rep_prefix(i: nat) -> Seq<char> {
    seq!['r', 'e', 'p'] + decimal(i)
}

/// Repeat a pattern `count` times in sequence. Variables in `shared` bind
/// across all repetitions; others are prefixed per repetition (`rep0_`,
/// `rep1_`, ...). Metadata is merged across repetitions.
pub fn repeat<L: Clone, V: Clone>(name: &str, pattern: &Pattern<L, V>, count: usize, shared: &[&str]) -> (r: Pattern<L, V>)
    requires
        count > 0,
        pattern.stages@.len() * count <= usize::MAX,
        pattern.temporal@.len() * count <= usize::MAX,
        pattern.negations@.len() * count <= usize::MAX,
    ensures
        r.name@ == name@,
        r.stages@.len() == pattern.stages@.len() * count,
        forall|rep: int, i: int|
            0 <= rep < count && 0 <= i < pattern.stages@.len() ==> stage_renamed(
                pattern.stages@[i],
                #[trigger] r.stages@[rep * pattern.stages@.len() + i],
                rep_prefix(rep as nat),
                shared@,
                false,
            ),
        r.temporal@.len() == pattern.temporal@.len() * count,
        r.negations@.len() == pattern.negations@.len() * count,
        r.metadata@.dom() == pattern.metadata@.dom(),
        forall|k: Seq<char>| #[trigger] r.metadata@.contains_key(k) ==> r.metadata@[k]@ == pattern.metadata@[k]@,
        r.group is None,
        r.deadline_ticks is None,
        r.inactivity_threshold is None,
        r.repeat_range is None,
        r.unordered_groups@.len() == 0,
        !r.private,
        r.importance_bits == DEFAULT_IMPORTANCE_BITS,
        !r.advance_in_place,
{
    let ns = pattern.stages.len();
    let mut stages: Vec<Stage<L, V>> = Vec::new();
    let mut temporal: Vec<TemporalConstraint> = Vec::new();
    let mut negations: Vec<Negation<L, V>> = Vec::new();
    let mut metadata: StrMap<String> = StrMap::new();
    let mut i: usize = 0;
    while i < count
        invariant
            i <= count,
            ns == pattern.stages@.len(),
            pattern.stages@.len() * count <= usize::MAX,
            pattern.temporal@.len() * count <= usize::MAX,
            pattern.negations@.len() * count <= usize::MAX,
            stages@.len() == ns * i,
            temporal@.len() == pattern.temporal@.len() * i,
            negations@.len() == pattern.negations@.len() * i,
            forall|rep: int, j: int|
                0 <= rep < i && 0 <= j < ns ==> stage_renamed(
                    pattern.stages@[j],
                    #[trigger] stages@[rep * ns + j],
                    rep_prefix(rep as nat),
                    shared@,
                    false,
                ),
            i == 0 ==> metadata@.dom() == Set::<Seq<char>>::empty(),
            i > 0 ==> metadata@.dom() == pattern.metadata@.dom(),
            forall|k: Seq<char>| #[trigger] metadata@.contains_key(k) ==> metadata@[k]@ == pattern.metadata@[k]@,
        decreases count - i,
    {
        let mut prefix = String::new();
        prefix.append("rep");
        push_decimal(&mut prefix, i as u64);
        proof {
            reveal_strlit("rep");
            assert(prefix@ =~= rep_prefix(i as nat));
        }
        let renamed_p = rename_all(pattern, prefix.as_str(), shared, false);
        let Pattern { stages: rs, temporal: rt, negations: rn, metadata: rm, .. } = renamed_p;
        let ghost before = stages@;
        proof {
            assert(ns * (i + 1) == ns * i + ns) by (nonlinear_arith);
            assert(ns * (i + 1) <= ns * count) by (nonlinear_arith)
                requires i + 1 <= count;
            assert(pattern.temporal@.len() * (i + 1) == pattern.temporal@.len() * i + pattern.temporal@.len()) by (nonlinear_arith);
            assert(pattern.negations@.len() * (i + 1) == pattern.negations@.len() * i + pattern.negations@.len()) by (nonlinear_arith);
        }
        append_all(&mut stages, rs);
        append_all(&mut temporal, rt);
        append_all(&mut negations, rn);
        metadata.extend_from(&rm);
        proof {
            assert forall|rep: int, j: int|
                0 <= rep < i + 1 && 0 <= j < ns implies stage_renamed(
                    pattern.stages@[j],
                    #[trigger] stages@[rep * ns + j],
                    rep_prefix(rep as nat),
                    shared@,
                    false,
                ) by {
                if rep < i {
                    assert(rep * ns + j < ns * i) by (nonlinear_arith)
                        requires rep < i, j < ns, 0 <= j;
                    assert(stages@[rep * ns + j] == before[rep * ns + j]);
                } else {
                    assert(rep * ns == ns * i) by (nonlinear_arith)
                        requires rep == i;
                }
            }
            assert(metadata@.dom() =~= pattern.metadata@.dom());
        }
        i = i + 1;
    }
    proof {
        assert(ns * count == pattern.stages@.len() * count);
    }
    Pattern {
        name: name.to_owned(),
        stages,
        temporal,
        negations,
        group: None,
        metadata,
        deadline_ticks: None,
        inactivity_threshold: None,
        repeat_range: None,
        unordered_groups: Vec::new(),
        private: false,
        importance_bits: DEFAULT_IMPORTANCE_BITS,
        advance_in_place: false,
    }
}

} // verus!
