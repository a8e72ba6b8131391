//! Pattern types — the compiled representation of a sifting query.
//!
//! A pattern describes a subgraph template with named variables, temporal
//! ordering constraints and negation windows: multi-stage patterns whose
//! stages are matched left to right, joined on shared variables.

use crate::datasource::ValueConstraint;
use crate::expr::ComputedBinding;
use crate::interval::AllenRelation;
use crate::strmap::StrMap;
use crate::text::{lemma_seq_less_transitive, lemma_seq_less_trichotomy, seq_less, sorted_strictly, str_less};
use vstd::prelude::*;

verus! {

/// A named position in a pattern traversal. Variables that appear in several
/// clauses create joins: the matcher binds them to the same node.
#[derive(Debug, PartialEq, Eq, Hash)]
pub struct Var(pub String);

impl Clone for Var {
    fn clone(&self) -> (r: Self)
        ensures
            r.0@ == self.0@,
    {
        Var(self.0.clone())
    }
}

impl Var {
    /// A variable with the given name.
    pub fn new(name: &str) -> (r: Self)
        ensures
            r.0@ == name@,
    {
        Var(name.to_owned())
    }

    /// The variable as text: its name after a `?`.
    pub fn to_text(&self) -> (r: String)
        ensures
            r@ == seq!['?'] + self.0@,
    {
        let mut out = String::new();
        out.append("?");
        out.append(self.0.as_str());
        proof {
            reveal_strlit("?");
            assert(out@ =~= seq!['?'] + self.0@);
        }
        out
    }

    /// A variable taking ownership of the given name.
    pub fn from_string(name: String) -> (r: Self)
        ensures
            r.0@ == name@,
    {
        Var(name)
    }
}

/// What an edge's target should match against.
#[derive(Debug, PartialEq)]
pub enum Target<V> {
    /// Bind the target to a variable (for traversal / join).
    Bind(Var),
    /// The target must equal this literal value.
    Literal(V),
    /// The target must satisfy this constraint.
    Constraint(ValueConstraint<V>),
}

/// A single clause in a pattern — one edge traversal constraint.
#[derive(Debug, PartialEq)]
pub struct Clause<L, V> {
    /// The source node variable (must be bound by a prior clause or be a scan root).
    pub source: Var,
    /// The edge label to follow.
    pub label: L,
    /// What the target should match.
    pub target: Target<V>,
    /// If true, this clause is negated — the edge must NOT exist.
    pub negated: bool,
}

/// Optional metric bound on the gap distance of a temporal constraint, in
/// time units. A gap is an integer distance between interval endpoints, so
/// integer bounds are exact: a real lower bound `x` admits the same gaps as
/// `ceil(x)`, a real upper bound `y` the same as `floor(y)`.
#[derive(Debug, Clone, Copy, PartialEq, Eq, Structural)]
pub struct MetricGap {
    /// Minimum gap distance. `None` = no lower bound.
    pub min: Option<i64>,
    /// Maximum gap distance. `None` = no upper bound.
    pub max: Option<i64>,
}

/// A temporal ordering constraint between two event variables.
#[derive(Debug, Clone, PartialEq)]
pub struct TemporalConstraint {
    /// The variable whose interval should come first.
    pub left: Var,
    /// The required Allen relation (typically `Before` or `Meets`).
    pub relation: AllenRelation,
    /// The variable whose interval should come second.
    pub right: Var,
    /// Optional metric bound on the gap distance (STN-style).
    pub gap: Option<MetricGap>,
}

/// A negation window — a set of clauses that must NOT match between two events.
#[derive(Debug, Clone, PartialEq)]
pub struct Negation<L, V> {
    /// Start of the negation window (must be bound).
    pub between_start: Var,
    /// End of the negation window (must be bound or open to "now").
    pub between_end: Option<Var>,
    /// The clauses that must not match within the window.
    pub clauses: Vec<Clause<L, V>>,
    /// True if this negation should span the entire pattern; resolved to the
    /// first/last stage anchors when the pattern is built.
    pub is_global: bool,
}

/// Configuration for looping repeat patterns (`* N..M` or `* N..`).
///
/// When a partial match advances past `stage_end - 1`, matching resumes at
/// `stage_start` and the repetition count grows. Completion is reported once
/// `min_reps` is reached; looping stops at `max_reps` (never if unbounded).
#[derive(Debug, Clone, PartialEq)]
pub struct RepeatRange {
    /// First stage index of the looping segment (inclusive).
    pub stage_start: usize,
    /// Last stage index of the looping segment (exclusive).
    pub stage_end: usize,
    /// Minimum repetitions before the first completion.
    pub min_reps: usize,
    /// Maximum repetitions. `None` = unlimited.
    pub max_reps: Option<usize>,
    /// Variables shared across repetitions (not prefixed, persist across loops).
    pub shared_vars: Vec<String>,
}

/// The ranges have the same bounds and the same shared variables.
pub open spec fn same_range(a: RepeatRange, b: RepeatRange) -> bool {
    &&& a.stage_start == b.stage_start
    &&& a.stage_end == b.stage_end
    &&& a.min_reps == b.min_reps
    &&& a.max_reps == b.max_reps
    &&& a.shared_vars@ == b.shared_vars@
}

/// Both are absent, or both present and the same range.
pub open spec fn same_range_opt(a: Option<RepeatRange>, b: Option<RepeatRange>) -> bool {
    match (a, b) {
        (Some(x), Some(y)) => same_range(x, y),
        (None, None) => true,
        _ => false,
    }
}

impl RepeatRange {
    /// A copy of the range.
    pub fn copy(&self) -> (r: Self)
        ensures
            same_range(*self, r),
    {
        let mut shared: Vec<String> = Vec::new();
        let mut i: usize = 0;
        while i < self.shared_vars.len()
            invariant
                i <= self.shared_vars@.len(),
                shared@ == self.shared_vars@.take(i as int),
            decreases self.shared_vars@.len() - i,
        {
            shared.push(self.shared_vars[i].clone());
            proof {
                assert(self.shared_vars@.take(i + 1) =~= self.shared_vars@.take(i as int).push(self.shared_vars@[i as int]));
            }
            i = i + 1;
        }
        proof {
            assert(self.shared_vars@.take(self.shared_vars@.len() as int) =~= self.shared_vars@);
        }
        RepeatRange {
            stage_start: self.stage_start,
            stage_end: self.stage_end,
            min_reps: self.min_reps,
            max_reps: self.max_reps,
            shared_vars: shared,
        }
    }
}

/// A stage is a group of clauses anchored to a single event/node variable.
#[derive(Debug, Clone, PartialEq)]
pub struct Stage<L, V> {
    /// The event/node variable this stage is anchored to.
    pub anchor: Var,
    /// Clauses that constrain this event/node.
    pub clauses: Vec<Clause<L, V>>,
    /// Named expressions evaluated after the clauses match, in order.
    pub let_bindings: Vec<ComputedBinding<V>>,
}

/// The default importance weight, `1.0`, as the bits of an IEEE-754 double.
pub const DEFAULT_IMPORTANCE_BITS: u64 = 0x3FF0_0000_0000_0000u64;

/// A compiled sifting pattern — a named subgraph template with temporal
/// constraints and negation windows.
#[derive(Debug, Clone)]
pub struct Pattern<L, V> {
    /// Pattern name (for identification in matches and gap analysis).
    pub name: String,
    /// Ordered event stages; stages are temporally ordered left to right.
    pub stages: Vec<Stage<L, V>>,
    /// Additional temporal constraints beyond implicit stage ordering.
    pub temporal: Vec<TemporalConstraint>,
    /// Negation windows — clauses that must NOT match between events.
    pub negations: Vec<Negation<L, V>>,
    /// Optional mutual-exclusion group: when a pattern with a group completes,
    /// all other active partial matches in the same group are killed.
    pub group: Option<String>,
    /// Arbitrary key-value metadata attached to this pattern.
    pub metadata: StrMap<String>,
    /// Optional deadline in engine ticks for partial match expiry.
    pub deadline_ticks: Option<u64>,
    /// If set, partial matches that don't advance for this many ticks are pruned.
    pub inactivity_threshold: Option<u64>,
    /// Repeat range configuration (loop over a segment of stages).
    pub repeat_range: Option<RepeatRange>,
    /// Unordered stage groups: stage indices that may match in any order.
    pub unordered_groups: Vec<Vec<usize>>,
    /// If true, this pattern's matches and events are suppressed from output.
    pub private: bool,
    /// Relative importance weight for scoring, carried as the bits of an
    /// IEEE-754 double (the library never computes with it). Default `1.0`.
    pub importance_bits: u64,
    /// When true, a partial match is consumed when it advances strictly forward.
    pub advance_in_place: bool,
}

/// The first group of `groups` that contains `idx`, by position.
pub open spec fn first_group_with(groups: Seq<Vec<usize>>, idx: usize) -> Option<int> {
    if exists|g: int| 0 <= g < groups.len() && groups[g]@.contains(idx) {
        Some(
            choose|g: int|
                0 <= g < groups.len() && groups[g]@.contains(idx) && forall|h: int|
                    0 <= h < g ==> !groups[h]@.contains(idx),
        )
    } else {
        None
    }
}

/// `b` is a copy of the temporal constraint `a`.
pub open spec fn temporal_copied(a: TemporalConstraint, b: TemporalConstraint) -> bool {
    &&& b.left.0@ == a.left.0@
    &&& b.relation == a.relation
    &&& b.right.0@ == a.right.0@
    &&& b.gap == a.gap
}

/// Total number of clauses across the stages.
pub open spec fn clause_total<L, V>(stages: Seq<Stage<L, V>>) -> int
    decreases stages.len(),
{
    if stages.len() == 0 {
        0
    } else {
        clause_total(stages.drop_last()) + stages.last().clauses@.len()
    }
}

impl<V: Clone> Target<V> {
    /// `r` has the variant of `self`, values cloned, names the same.
    pub open spec fn copied_to(self, r: Target<V>) -> bool {
        match (self, r) {
            (Target::Bind(a), Target::Bind(b)) => a.0@ == b.0@,
            (Target::Literal(a), Target::Literal(b)) => cloned(a, b),
            (Target::Constraint(a), Target::Constraint(b)) => a.copied_to(b),
            _ => false,
        }
    }
}

impl<V: Clone> Clone for Target<V> {
    fn clone(&self) -> (r: Self)
        ensures
            self.copied_to(r),
    {
        match self {
            Target::Bind(v) => Target::Bind(v.clone()),
            Target::Literal(v) => Target::Literal(v.clone()),
            Target::Constraint(c) => Target::Constraint(c.clone()),
        }
    }
}

impl<L: Clone, V: Clone> Clause<L, V> {
    /// `r` is a clone of `self`: same variables and polarity, label and values cloned.
    pub open spec fn copied_to(self, r: Clause<L, V>) -> bool {
        &&& r.source.0@ == self.source.0@
        &&& cloned(self.label, r.label)
        &&& self.target.copied_to(r.target)
        &&& r.negated == self.negated
    }
}

impl<L: Clone, V: Clone> Clone for Clause<L, V> {
    fn clone(&self) -> (r: Self)
        ensures
            self.copied_to(r),
    {
        Clause {
            source: self.source.clone(),
            label: self.label.clone(),
            target: self.target.clone(),
            negated: self.negated,
        }
    }
}

impl<V> Target<V> {
    /// `f` may be called on every value in the target.
    pub open spec fn map_callable<V2, F: Fn(&V) -> V2>(self, f: F) -> bool {
        match self {
            Target::Literal(v) => call_requires(f, (&v,)),
            Target::Constraint(c) => c.map_callable(f),
            Target::Bind(_) => true,
        }
    }

    /// `r` is `self` with values transformed by `f`, variables kept.
    pub open spec fn mapped_by<V2, F: Fn(&V) -> V2>(self, f: F, r: Target<V2>) -> bool {
        match (self, r) {
            (Target::Bind(a), Target::Bind(b)) => a.0@ == b.0@,
            (Target::Literal(a), Target::Literal(b)) => call_ensures(f, (&a,), b),
            (Target::Constraint(a), Target::Constraint(b)) => a.mapped_by(f, b),
            _ => false,
        }
    }

    /// Transform the value type.
    pub fn map<V2, F: Fn(&V) -> V2>(&self, f: &F) -> (r: Target<V2>)
        requires
            self.map_callable(*f),
        ensures
            self.mapped_by(*f, r),
    {
        match self {
            Target::Bind(v) => Target::Bind(v.clone()),
            Target::Literal(v) => Target::Literal(f(v)),
            Target::Constraint(c) => Target::Constraint(c.map(f)),
        }
    }
}

impl<L, V> Clause<L, V> {
    /// Both functions may be called on the clause's label and values.
    pub open spec fn map_callable<L2, V2, LF: Fn(&L) -> L2, VF: Fn(&V) -> V2>(
        self,
        lf: LF,
        vf: VF,
    ) -> bool {
        call_requires(lf, (&self.label,)) && self.target.map_callable(vf)
    }

    /// `r` is `self` with label and values transformed, variables and polarity kept.
    pub open spec fn mapped_by<L2, V2, LF: Fn(&L) -> L2, VF: Fn(&V) -> V2>(
        self,
        lf: LF,
        vf: VF,
        r: Clause<L2, V2>,
    ) -> bool {
        &&& r.source.0@ == self.source.0@
        &&& call_ensures(lf, (&self.label,), r.label)
        &&& self.target.mapped_by(vf, r.target)
        &&& r.negated == self.negated
    }

    /// Transform label and value types.
    pub fn map_types<L2, V2, LF: Fn(&L) -> L2, VF: Fn(&V) -> V2>(
        &self,
        label_fn: &LF,
        value_fn: &VF,
    ) -> (r: Clause<L2, V2>)
        requires
            self.map_callable(*label_fn, *value_fn),
        ensures
            self.mapped_by(*label_fn, *value_fn, r),
    {
        Clause {
            source: self.source.clone(),
            label: label_fn(&self.label),
            target: self.target.map(value_fn),
            negated: self.negated,
        }
    }
}

/// Map every clause of `cs`.
fn map_clauses<L, V, L2, V2, LF: Fn(&L) -> L2, VF: Fn(&V) -> V2>(
    cs: &Vec<Clause<L, V>>,
    label_fn: &LF,
    value_fn: &VF,
) -> (r: Vec<Clause<L2, V2>>)
    requires
        forall|i: int| 0 <= i < cs@.len() ==> (#[trigger] cs@[i]).map_callable(*label_fn, *value_fn),
    ensures
        r@.len() == cs@.len(),
        forall|i: int|
            0 <= i < cs@.len() ==> (#[trigger] cs@[i]).mapped_by(*label_fn, *value_fn, r@[i]),
{
    let mut out: Vec<Clause<L2, V2>> = Vec::new();
    let mut i: usize = 0;
    while i < cs.len()
        invariant
            i <= cs@.len(),
            out@.len() == i,
            forall|k: int| 0 <= k < cs@.len() ==> (#[trigger] cs@[k]).map_callable(*label_fn, *value_fn),
            forall|k: int| 0 <= k < i ==> (#[trigger] cs@[k]).mapped_by(*label_fn, *value_fn, out@[k]),
        decreases cs@.len() - i,
    {
        let c = cs[i].map_types(label_fn, value_fn);
        out.push(c);
        i = i + 1;
    }
    out
}

impl<L, V> Stage<L, V> {
    /// Both functions may be called on every label and value of the stage.
    pub open spec fn map_callable<L2, V2, LF: Fn(&L) -> L2, VF: Fn(&V) -> V2>(
        self,
        lf: LF,
        vf: VF,
    ) -> bool {
        &&& forall|i: int| 0 <= i < self.clauses@.len() ==> (#[trigger] self.clauses@[i]).map_callable(lf, vf)
        &&& forall|i: int| 0 <= i < self.let_bindings@.len() ==> (#[trigger] self.let_bindings@[i]).expr.map_callable(vf)
    }

    /// `r` is `self` with labels and values transformed, structure kept.
    pub open spec fn mapped_by<L2, V2, LF: Fn(&L) -> L2, VF: Fn(&V) -> V2>(
        self,
        lf: LF,
        vf: VF,
        r: Stage<L2, V2>,
    ) -> bool {
        &&& r.anchor.0@ == self.anchor.0@
        &&& r.clauses@.len() == self.clauses@.len()
        &&& forall|i: int| 0 <= i < self.clauses@.len() ==> (#[trigger] self.clauses@[i]).mapped_by(lf, vf, r.clauses@[i])
        &&& r.let_bindings@.len() == self.let_bindings@.len()
        &&& forall|i: int| 0 <= i < self.let_bindings@.len() ==> {
            &&& (#[trigger] self.let_bindings@[i]).name@ == r.let_bindings@[i].name@
            &&& self.let_bindings@[i].expr.mapped_by(vf, r.let_bindings@[i].expr)
        }
    }

    /// Transform label and value types.
    pub fn map_types<L2, V2, LF: Fn(&L) -> L2, VF: Fn(&V) -> V2>(
        &self,
        label_fn: &LF,
        value_fn: &VF,
    ) -> (r: Stage<L2, V2>)
        requires
            self.map_callable(*label_fn, *value_fn),
        ensures
            self.mapped_by(*label_fn, *value_fn, r),
    {
        let clauses = map_clauses(&self.clauses, label_fn, value_fn);
        let mut lets: Vec<ComputedBinding<V2>> = Vec::new();
        let mut i: usize = 0;
        while i < self.let_bindings.len()
            invariant
                i <= self.let_bindings@.len(),
                lets@.len() == i,
                forall|k: int| 0 <= k < self.let_bindings@.len() ==> (#[trigger] self.let_bindings@[k]).expr.map_callable(*value_fn),
                forall|k: int| 0 <= k < i ==> {
                    &&& (#[trigger] self.let_bindings@[k]).name@ == lets@[k].name@
                    &&& self.let_bindings@[k].expr.mapped_by(*value_fn, lets@[k].expr)
                },
            decreases self.let_bindings@.len() - i,
        {
            let cb = self.let_bindings[i].map(value_fn);
            lets.push(cb);
            i = i + 1;
        }
        Stage { anchor: self.anchor.clone(), clauses, let_bindings: lets }
    }
}

impl<L, V> Negation<L, V> {
    /// Both functions may be called on every label and value of the negation.
    pub open spec fn map_callable<L2, V2, LF: Fn(&L) -> L2, VF: Fn(&V) -> V2>(
        self,
        lf: LF,
        vf: VF,
    ) -> bool {
        forall|i: int| 0 <= i < self.clauses@.len() ==> (#[trigger] self.clauses@[i]).map_callable(lf, vf)
    }

    /// `r` is `self` with labels and values transformed, window kept.
    pub open spec fn mapped_by<L2, V2, LF: Fn(&L) -> L2, VF: Fn(&V) -> V2>(
        self,
        lf: LF,
        vf: VF,
        r: Negation<L2, V2>,
    ) -> bool {
        &&& r.between_start.0@ == self.between_start.0@
        &&& (match (self.between_end, r.between_end) {
            (Some(a), Some(b)) => a.0@ == b.0@,
            (None, None) => true,
            _ => false,
        })
        &&& r.clauses@.len() == self.clauses@.len()
        &&& forall|i: int| 0 <= i < self.clauses@.len() ==> (#[trigger] self.clauses@[i]).mapped_by(lf, vf, r.clauses@[i])
        &&& r.is_global == self.is_global
    }

    /// Transform label and value types.
    pub fn map_types<L2, V2, LF: Fn(&L) -> L2, VF: Fn(&V) -> V2>(
        &self,
        label_fn: &LF,
        value_fn: &VF,
    ) -> (r: Negation<L2, V2>)
        requires
            self.map_callable(*label_fn, *value_fn),
        ensures
            self.mapped_by(*label_fn, *value_fn, r),
    {
        let end = match &self.between_end {
            Some(v) => Some(v.clone()),
            None => None,
        };
        Negation {
            between_start: self.between_start.clone(),
            between_end: end,
            clauses: map_clauses(&self.clauses, label_fn, value_fn),
            is_global: self.is_global,
        }
    }
}

impl<L, V> Pattern<L, V> {
    /// Both functions may be called on every label and value of the pattern.
    pub open spec fn map_callable<L2, V2, LF: Fn(&L) -> L2, VF: Fn(&V) -> V2>(
        self,
        lf: LF,
        vf: VF,
    ) -> bool {
        &&& forall|i: int| 0 <= i < self.stages@.len() ==> (#[trigger] self.stages@[i]).map_callable(lf, vf)
        &&& forall|i: int| 0 <= i < self.negations@.len() ==> (#[trigger] self.negations@[i]).map_callable(lf, vf)
    }

    /// Transform label and value types throughout the pattern. Name, group,
    /// variables, temporal constraints, metadata and settings are kept.
    pub fn map_types<L2, V2, LF: Fn(&L) -> L2, VF: Fn(&V) -> V2>(
        &self,
        label_fn: LF,
        value_fn: VF,
    ) -> (r: Pattern<L2, V2>)
        requires
            self.map_callable(label_fn, value_fn),
        ensures
            r.name@ == self.name@,
            r.stages@.len() == self.stages@.len(),
            forall|i: int| 0 <= i < self.stages@.len() ==> (#[trigger] self.stages@[i]).mapped_by(label_fn, value_fn, r.stages@[i]),
            r.negations@.len() == self.negations@.len(),
            forall|i: int| 0 <= i < self.negations@.len() ==> (#[trigger] self.negations@[i]).mapped_by(label_fn, value_fn, r.negations@[i]),
            r.temporal@.len() == self.temporal@.len(),
            forall|i: int| 0 <= i < self.temporal@.len() ==> temporal_copied(#[trigger] self.temporal@[i], r.temporal@[i]),
            r.metadata@ == self.metadata@,
            r.deadline_ticks == self.deadline_ticks,
            r.inactivity_threshold == self.inactivity_threshold,
            r.group is Some <==> self.group is Some,
            r.group is Some ==> r.group->0@ == self.group->0@,
            same_range_opt(self.repeat_range, r.repeat_range),
            r.unordered_groups@.map_values(|g: Vec<usize>| g@) == self.unordered_groups@.map_values(|g: Vec<usize>| g@),
            r.private == self.private,
            r.importance_bits == self.importance_bits,
            r.advance_in_place == self.advance_in_place,
            r.unordered_groups@.len() == self.unordered_groups@.len(),
            forall|i: int| 0 <= i < self.unordered_groups@.len() ==> (#[trigger] r.unordered_groups@[i])@ == self.unordered_groups@[i]@,
    {
        let mut stages: Vec<Stage<L2, V2>> = Vec::new();
        let mut i: usize = 0;
        while i < self.stages.len()
            invariant
                i <= self.stages@.len(),
                stages@.len() == i,
                forall|k: int| 0 <= k < self.stages@.len() ==> (#[trigger] self.stages@[k]).map_callable(label_fn, value_fn),
                forall|k: int| 0 <= k < i ==> (#[trigger] self.stages@[k]).mapped_by(label_fn, value_fn, stages@[k]),
            decreases self.stages@.len() - i,
        {
            let s = self.stages[i].map_types(&label_fn, &value_fn);
            stages.push(s);
            i = i + 1;
        }
        let mut negations: Vec<Negation<L2, V2>> = Vec::new();
        let mut j: usize = 0;
        while j < self.negations.len()
            invariant
                j <= self.negations@.len(),
                negations@.len() == j,
                forall|k: int| 0 <= k < self.negations@.len() ==> (#[trigger] self.negations@[k]).map_callable(label_fn, value_fn),
                forall|k: int| 0 <= k < j ==> (#[trigger] self.negations@[k]).mapped_by(label_fn, value_fn, negations@[k]),
            decreases self.negations@.len() - j,
        {
            let n = self.negations[j].map_types(&label_fn, &value_fn);
            negations.push(n);
            j = j + 1;
        }
        let mut temporal: Vec<TemporalConstraint> = Vec::new();
        let mut t: usize = 0;
        while t < self.temporal.len()
            invariant
                t <= self.temporal@.len(),
                temporal@.len() == t,
                forall|k: int| 0 <= k < t ==> temporal_copied(#[trigger] self.temporal@[k], temporal@[k]),
            decreases self.temporal@.len() - t,
        {
            let tc = &self.temporal[t];
            temporal.push(
                TemporalConstraint {
                    left: tc.left.clone(),
                    relation: tc.relation,
                    right: tc.right.clone(),
                    gap: tc.gap,
                },
            );
            t = t + 1;
        }
        let mut groups: Vec<Vec<usize>> = Vec::new();
        let mut g: usize = 0;
        while g < self.unordered_groups.len()
            invariant
                g <= self.unordered_groups@.len(),
                groups@.len() == g,
                forall|k: int| 0 <= k < g ==> (#[trigger] groups@[k])@ == self.unordered_groups@[k]@,
            decreases self.unordered_groups@.len() - g,
        {
            let cp = copy_indices(&self.unordered_groups[g]);
            groups.push(cp);
            g = g + 1;
        }
        let group = match &self.group {
            Some(s) => Some(s.clone()),
            None => None,
        };
        let repeat_range = match &self.repeat_range {
            Some(rr) => Some(rr.copy()),
            None => None,
        };
        let metadata = self.metadata.duplicate();
        proof {
            assert(metadata@ =~= self.metadata@);
            assert(groups@.map_values(|g: Vec<usize>| g@) =~= self.unordered_groups@.map_values(|g: Vec<usize>| g@));
        }
        Pattern {
            name: self.name.clone(),
            stages,
            temporal,
            negations,
            group,
            metadata,
            deadline_ticks: self.deadline_ticks,
            inactivity_threshold: self.inactivity_threshold,
            repeat_range,
            unordered_groups: groups,
            private: self.private,
            importance_bits: self.importance_bits,
            advance_in_place: self.advance_in_place,
        }
    }

    /// Return the unordered group containing this stage index, if any.
    pub fn unordered_group_for(&self, stage_idx: usize) -> (r: Option<&Vec<usize>>)
        ensures
            match first_group_with(self.unordered_groups@, stage_idx) {
                Some(g) => r == Some(&self.unordered_groups@[g]),
                None => r is None,
            },
    {
        let mut g: usize = 0;
        while g < self.unordered_groups.len()
            invariant
                g <= self.unordered_groups@.len(),
                forall|h: int| 0 <= h < g ==> !(#[trigger] self.unordered_groups@[h])@.contains(stage_idx),
            decreases self.unordered_groups@.len() - g,
        {
            if contains_index(&self.unordered_groups[g], stage_idx) {
                proof {
                    let gi = g as int;
                    assert(self.unordered_groups@[gi]@.contains(stage_idx));
                    let c = first_group_with(self.unordered_groups@, stage_idx)->0;
                    assert(0 <= c < self.unordered_groups@.len() && self.unordered_groups@[c]@.contains(stage_idx)
                        && forall|h: int| 0 <= h < c ==> !self.unordered_groups@[h]@.contains(stage_idx));
                    if c < gi {
                    } else if c > gi {
                        assert(!self.unordered_groups@[gi]@.contains(stage_idx));
                    }
                }
                return Some(&self.unordered_groups[g]);
            }
            g = g + 1;
        }
        None
    }

    /// Check if two stage indices are in the same unordered group.
    pub fn same_unordered_group(&self, a: usize, b: usize) -> (r: bool)
        ensures
            r == exists|g: int|
                0 <= g < self.unordered_groups@.len() && (#[trigger] self.unordered_groups@[g])@.contains(a)
                    && self.unordered_groups@[g]@.contains(b),
    {
        let mut g: usize = 0;
        while g < self.unordered_groups.len()
            invariant
                g <= self.unordered_groups@.len(),
                forall|h: int|
                    0 <= h < g ==> !((#[trigger] self.unordered_groups@[h])@.contains(a)
                        && self.unordered_groups@[h]@.contains(b)),
            decreases self.unordered_groups@.len() - g,
        {
            if contains_index(&self.unordered_groups[g], a) && contains_index(&self.unordered_groups[g], b) {
                return true;
            }
            g = g + 1;
        }
        false
    }

    /// All variables used in this pattern (across all stages and negations),
    /// each name once, in increasing order of name.
    pub fn all_vars(&self) -> (r: Vec<&Var>)
        ensures
            sorted_strictly(var_names(r@)),
            forall|n: Seq<char>| var_names(r@).contains(n) <==> pattern_uses(*self, n),
    {
        let mut out: Vec<&Var> = Vec::new();
        let mut si: usize = 0;
        while si < self.stages.len()
            invariant
                si <= self.stages@.len(),
                sorted_strictly(var_names(out@)),
                forall|n: Seq<char>|
                    var_names(out@).contains(n) <==> exists|k: int| 0 <= k < si && stage_uses(#[trigger] self.stages@[k], n),
            decreases self.stages@.len() - si,
        {
            let stage = &self.stages[si];
            add_var(&mut out, &stage.anchor);
            let mut ci: usize = 0;
            while ci < stage.clauses.len()
                invariant
                    si < self.stages@.len(),
                    *stage == self.stages@[si as int],
                    ci <= stage.clauses@.len(),
                    sorted_strictly(var_names(out@)),
                    forall|n: Seq<char>|
                        var_names(out@).contains(n) <==> (exists|k: int| 0 <= k < si && stage_uses(#[trigger] self.stages@[k], n))
                            || stage.anchor.0@ == n || exists|c: int| 0 <= c < ci && clause_uses(#[trigger] stage.clauses@[c], n),
                decreases stage.clauses@.len() - ci,
            {
                let clause = &stage.clauses[ci];
                add_var(&mut out, &clause.source);
                match &clause.target {
                    Target::Bind(v) => add_var(&mut out, v),
                    _ => {},
                }
                proof {
                    assert forall|n: Seq<char>|
                        var_names(out@).contains(n) <==> (exists|k: int| 0 <= k < si && stage_uses(#[trigger] self.stages@[k], n))
                            || stage.anchor.0@ == n || exists|c: int| 0 <= c < ci + 1 && clause_uses(#[trigger] stage.clauses@[c], n) by {
                        if clause_uses(stage.clauses@[ci as int], n) {
                        }
                    }
                }
                ci = ci + 1;
            }
            proof {
                assert forall|n: Seq<char>|
                    var_names(out@).contains(n) <==> exists|k: int| 0 <= k < si + 1 && stage_uses(#[trigger] self.stages@[k], n) by {
                    if stage_uses(self.stages@[si as int], n) {
                    }
                }
            }
            si = si + 1;
        }
        let mut gi: usize = 0;
        while gi < self.negations.len()
            invariant
                si == self.stages@.len(),
                gi <= self.negations@.len(),
                sorted_strictly(var_names(out@)),
                forall|n: Seq<char>|
                    var_names(out@).contains(n) <==> (exists|k: int| 0 <= k < si && stage_uses(#[trigger] self.stages@[k], n))
                        || exists|k: int| 0 <= k < gi && negation_uses(#[trigger] self.negations@[k], n),
            decreases self.negations@.len() - gi,
        {
            let neg = &self.negations[gi];
            add_var(&mut out, &neg.between_start);
            match &neg.between_end {
                Some(v) => add_var(&mut out, v),
                None => {},
            }
            let mut ci: usize = 0;
            while ci < neg.clauses.len()
                invariant
                    si == self.stages@.len(),
                    gi < self.negations@.len(),
                    *neg == self.negations@[gi as int],
                    ci <= neg.clauses@.len(),
                    sorted_strictly(var_names(out@)),
                    forall|n: Seq<char>|
                        var_names(out@).contains(n) <==> (exists|k: int| 0 <= k < si && stage_uses(#[trigger] self.stages@[k], n))
                            || (exists|k: int| 0 <= k < gi && negation_uses(#[trigger] self.negations@[k], n))
                            || neg.between_start.0@ == n || (neg.between_end matches Some(v) && v.0@ == n)
                            || exists|c: int| 0 <= c < ci && clause_uses(#[trigger] neg.clauses@[c], n),
                decreases neg.clauses@.len() - ci,
            {
                let clause = &neg.clauses[ci];
                add_var(&mut out, &clause.source);
                match &clause.target {
                    Target::Bind(v) => add_var(&mut out, v),
                    _ => {},
                }
                proof {
                    assert forall|n: Seq<char>|
                        var_names(out@).contains(n) <==> (exists|k: int| 0 <= k < si && stage_uses(#[trigger] self.stages@[k], n))
                            || (exists|k: int| 0 <= k < gi && negation_uses(#[trigger] self.negations@[k], n))
                            || neg.between_start.0@ == n || (neg.between_end matches Some(v) && v.0@ == n)
                            || exists|c: int| 0 <= c < ci + 1 && clause_uses(#[trigger] neg.clauses@[c], n) by {
                        if clause_uses(neg.clauses@[ci as int], n) {
                        }
                    }
                }
                ci = ci + 1;
            }
            proof {
                assert forall|n: Seq<char>|
                    var_names(out@).contains(n) <==> (exists|k: int| 0 <= k < si && stage_uses(#[trigger] self.stages@[k], n))
                        || exists|k: int| 0 <= k < gi + 1 && negation_uses(#[trigger] self.negations@[k], n) by {
                    if negation_uses(self.negations@[gi as int], n) {
                    }
                }
            }
            gi = gi + 1;
        }
        out
    }

    /// Total number of clauses across all stages (negation clauses are not counted).
    pub fn condition_count(&self) -> (r: usize)
        requires
            clause_total(self.stages@) <= usize::MAX,
        ensures
            r == clause_total(self.stages@),
    {
        let mut total: usize = 0;
        let mut i: usize = 0;
        while i < self.stages.len()
            invariant
                i <= self.stages@.len(),
                clause_total(self.stages@) <= usize::MAX,
                total == clause_total(self.stages@.take(i as int)),
            decreases self.stages@.len() - i,
        {
            proof {
                assert(self.stages@.take(i + 1).drop_last() =~= self.stages@.take(i as int));
                lemma_clause_total_prefix(self.stages@, i + 1);
            }
            total = total + self.stages[i].clauses.len();
            i = i + 1;
        }
        proof {
            assert(self.stages@.take(self.stages@.len() as int) =~= self.stages@);
        }
        total
    }
}

proof fn lemma_clause_total_prefix<L, V>(s: Seq<Stage<L, V>>, n: int)
    requires
        0 <= n <= s.len(),
    ensures
        clause_total(s.take(n)) <= clause_total(s),
        0 <= clause_total(s.take(n)),
    decreases s.len(),
{
    lemma_clause_total_nonneg(s.take(n));
    if n < s.len() {
        assert(s.drop_last().take(n) =~= s.take(n));
        lemma_clause_total_prefix(s.drop_last(), n);
    } else {
        assert(s.take(n) =~= s);
    }
}

proof fn lemma_clause_total_nonneg<L, V>(s: Seq<Stage<L, V>>)
    ensures
        0 <= clause_total(s),
    decreases s.len(),
{
    if s.len() > 0 {
        lemma_clause_total_nonneg(s.drop_last());
    }
}

/// Does `v` hold `x`?
pub fn contains_index(v: &Vec<usize>, x: usize) -> (r: bool)
    ensures
        r == v@.contains(x),
{
    let mut i: usize = 0;
    while i < v.len()
        invariant
            i <= v@.len(),
            forall|k: int| 0 <= k < i ==> v@[k] != x,
        decreases v@.len() - i,
    {
        if v[i] == x {
            assert(v@[i as int] == x);
            return true;
        }
        i = i + 1;
    }
    false
}

/// A copy of an index list.
pub fn copy_indices(v: &Vec<usize>) -> (r: Vec<usize>)
    ensures
        r@ == v@,
{
    let mut out: Vec<usize> = Vec::new();
    let mut i: usize = 0;
    while i < v.len()
        invariant
            i <= v@.len(),
            out@ == v@.take(i as int),
        decreases v@.len() - i,
    {
        out.push(v[i]);
        proof {
            assert(v@.take(i + 1) =~= v@.take(i as int).push(v@[i as int]));
        }
        i = i + 1;
    }
    proof {
        assert(v@.take(v@.len() as int) =~= v@);
    }
    out
}


/// The names of a sequence of variables.
pub open spec fn var_names(s: Seq<&Var>) -> Seq<Seq<char>> {
    s.map_values(|v: &Var| v.0@)
}

/// The clause uses the variable named `n`: as its source or as the variable
/// its target binds.
pub open spec fn clause_uses<L, V>(c: Clause<L, V>, n: Seq<char>) -> bool {
    c.source.0@ == n || (c.target matches Target::Bind(v) && v.0@ == n)
}

/// The stage uses the variable named `n`: as its anchor or in a clause.
pub open spec fn stage_uses<L, V>(s: Stage<L, V>, n: Seq<char>) -> bool {
    s.anchor.0@ == n || exists|c: int| 0 <= c < s.clauses@.len() && clause_uses(#[trigger] s.clauses@[c], n)
}

/// The negation uses the variable named `n`: at an end of its window or in
/// a clause.
pub open spec fn negation_uses<L, V>(g: Negation<L, V>, n: Seq<char>) -> bool {
    ||| g.between_start.0@ == n
    ||| (g.between_end matches Some(v) && v.0@ == n)
    ||| exists|c: int| 0 <= c < g.clauses@.len() && clause_uses(#[trigger] g.clauses@[c], n)
}

/// The pattern uses the variable named `n`, in a stage or in a negation.
pub open spec fn pattern_uses<L, V>(p: Pattern<L, V>, n: Seq<char>) -> bool {
    ||| exists|k: int| 0 <= k < p.stages@.len() && stage_uses(#[trigger] p.stages@[k], n)
    ||| exists|k: int| 0 <= k < p.negations@.len() && negation_uses(#[trigger] p.negations@[k], n)
}

/// Add `v` to a list of variables kept in strictly increasing order of
/// name, unless a variable of that name is there already.
fn add_var<'a>(out: &mut Vec<&'a Var>, v: &'a Var)
    requires
        sorted_strictly(var_names(old(out)@)),
    ensures
        sorted_strictly(var_names(final(out)@)),
        forall|n: Seq<char>| var_names(final(out)@).contains(n) <==> (var_names(old(out)@).contains(n) || n == v.0@),
{
    let ghost before = var_names(out@);
    let mut p: usize = 0;
    while p < out.len() && str_less(out[p].0.as_str(), v.0.as_str())
        invariant
            p <= out@.len(),
            var_names(out@) == before,
            forall|q: int| 0 <= q < p ==> seq_less((#[trigger] out@[q]).0@, v.0@),
        decreases out@.len() - p,
    {
        p = p + 1;
    }
    if p < out.len() && out[p].0 == v.0 {
        proof {
            assert(before[p as int] == v.0@);
        }
        return;
    }
    proof {
        if p < out@.len() {
            assert(before[p as int] == out@[p as int].0@);
            lemma_seq_less_trichotomy(out@[p as int].0@, v.0@);
            assert(seq_less(v.0@, before[p as int]));
        }
        assert forall|q: int| 0 <= q < p implies seq_less(#[trigger] before[q], v.0@) by {
            assert(before[q] == out@[q].0@);
        }
    }
    out.insert(p, v);
    proof {
        let nv = var_names(out@);
        assert(nv =~= before.take(p as int).push(v.0@) + before.skip(p as int));
        assert forall|a: int, b: int| 0 <= a < b < nv.len() implies seq_less(#[trigger] nv[a], #[trigger] nv[b]) by {
            if a < p && b < p {
            } else if a < p && b == p {
                assert(nv[a] == before[a]);
            } else if a < p && b > p {
                assert(nv[a] == before[a] && nv[b] == before[b - 1]);
                lemma_seq_less_transitive(before[a], v.0@, before[p as int]);
                if b - 1 > p {
                    lemma_seq_less_transitive(before[a], before[p as int], before[b - 1]);
                }
            } else if a == p {
                assert(nv[b] == before[b - 1]);
                if b - 1 > p {
                    lemma_seq_less_transitive(v.0@, before[p as int], before[b - 1]);
                }
            } else {
                assert(nv[a] == before[a - 1] && nv[b] == before[b - 1]);
            }
        }
        assert forall|n: Seq<char>| nv.contains(n) <==> (before.contains(n) || n == v.0@) by {
            if nv.contains(n) {
                let w = choose|w: int| 0 <= w < nv.len() && nv[w] == n;
                if w < p {
                    assert(before[w] == n);
                } else if w > p {
                    assert(before[w - 1] == n);
                }
            }
            if before.contains(n) {
                let w = choose|w: int| 0 <= w < before.len() && before[w] == n;
                if w < p {
                    assert(nv[w] == n);
                } else {
                    assert(nv[w + 1] == n);
                }
            }
            if n == v.0@ {
                assert(nv[p as int] == n);
            }
        }
    }
}

} // verus!
