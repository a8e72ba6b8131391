//! Fluent builders for patterns, stages, negation windows and unordered groups.

use crate::datasource::ValueConstraint;
use crate::expr::{ComputedBinding, Expr};
use crate::interval::AllenRelation;
use crate::pattern::{Clause, MetricGap, Pattern, Negation, Stage, TemporalConstraint, Target, Var, DEFAULT_IMPORTANCE_BITS};
use crate::strmap::StrMap;
use vstd::prelude::*;

verus! {

/// Builder for constructing a [`Pattern`].
pub struct PatternBuilder<L, V> {
    name: String,
    stages: Vec<Stage<L, V>>,
    temporal: Vec<TemporalConstraint>,
    negations: Vec<Negation<L, V>>,
    metadata: StrMap<String>,
    deadline_ticks: Option<u64>,
    unordered_groups: Vec<Vec<usize>>,
    private: bool,
    importance_bits: u64,
    advance_in_place: bool,
}

/// Builder for a single event stage within a pattern.
pub struct StageBuilder<L, V> {
    anchor: String,
    clauses: Vec<Clause<L, V>>,
    let_bindings: Vec<ComputedBinding<V>>,
}

/// Builder for a negation window.
pub struct NegationBuilder<L, V> {
    between_start: String,
    between_end: Option<String>,
    clauses: Vec<Clause<L, V>>,
}

/// Builder for an unordered (concurrent) group of stages within a pattern.
pub struct UnorderedGroupBuilder<L, V> {
    stages: Vec<Stage<L, V>>,
}

/// `c` is the clause `?source --[label]--> target`, with the given polarity.
pub open spec fn clause_is<L, V>(
    c: Clause<L, V>,
    source: Seq<char>,
    label: L,
    target: Target<V>,
    negated: bool,
) -> bool {
    &&& c.source.0@ == source
    &&& c.label == label
    &&& c.target == target
    &&& c.negated == negated
}

/// `c` is the clause `?source --[label]--> ?var` (traverse and bind).
pub open spec fn bind_clause_is<L, V>(c: Clause<L, V>, source: Seq<char>, label: L, var: Seq<char>) -> bool {
    &&& c.source.0@ == source
    &&& c.label == label
    &&& c.target matches Target::Bind(v) && v.0@ == var
    &&& !c.negated
}

/// `c` compares its target against the variable `var` with the constraint
/// kind `kind` (0: ==, 1: <, 2: >, 3: <=, 4: >=).
pub open spec fn var_clause_is<L, V>(c: Clause<L, V>, source: Seq<char>, label: L, kind: int, var: Seq<char>) -> bool {
    &&& c.source.0@ == source
    &&& c.label == label
    &&& !c.negated
    &&& match c.target {
        Target::Constraint(ValueConstraint::EqVar(s)) => kind == 0 && s@ == var,
        Target::Constraint(ValueConstraint::LtVar(s)) => kind == 1 && s@ == var,
        Target::Constraint(ValueConstraint::GtVar(s)) => kind == 2 && s@ == var,
        Target::Constraint(ValueConstraint::LteVar(s)) => kind == 3 && s@ == var,
        Target::Constraint(ValueConstraint::GteVar(s)) => kind == 4 && s@ == var,
        _ => false,
    }
}

/// The stage a stage builder produces.
pub open spec fn stage_of<L, V>(
    anchor: Seq<char>,
    clauses: Seq<Clause<L, V>>,
    lets: Seq<ComputedBinding<V>>,
    s: Stage<L, V>,
) -> bool {
    &&& s.anchor.0@ == anchor
    &&& s.clauses@ == clauses
    &&& s.let_bindings@ == lets
}

impl<L, V> StageBuilder<L, V> {
    /// The anchor variable name.
    pub closed spec fn anchor(self) -> Seq<char> {
        self.anchor@
    }

    /// The clauses added so far.
    pub closed spec fn clauses(self) -> Seq<Clause<L, V>> {
        self.clauses@
    }

    /// The let-bindings added so far.
    pub closed spec fn lets(self) -> Seq<ComputedBinding<V>> {
        self.let_bindings@
    }

    /// The builder as it is handed to a stage callback.
    pub open spec fn is_fresh(self, anchor: Seq<char>) -> bool {
        self.anchor() == anchor && self.clauses().len() == 0 && self.lets().len() == 0
    }

    fn new(anchor: String) -> (r: Self)
        ensures
            r.is_fresh(anchor@),
    {
        StageBuilder { anchor, clauses: Vec::new(), let_bindings: Vec::new() }
    }

    fn push(self, c: Clause<L, V>) -> (r: Self)
        ensures
            r.anchor() == self.anchor(),
            r.lets() == self.lets(),
            r.clauses() == self.clauses().push(c),
    {
        let mut this = self;
        this.clauses.push(c);
        this
    }

    /// Add a clause: `source --[label]--> literal_value`.
    pub fn edge(self, source: &str, label: L, value: V) -> (r: Self)
        ensures
            r.anchor() == self.anchor(),
            r.lets() == self.lets(),
            r.clauses().len() == self.clauses().len() + 1,
            r.clauses().drop_last() == self.clauses(),
            clause_is(r.clauses().last(), source@, label, Target::Literal(value), false),
    {
        let c = Clause { source: Var::new(source), label, target: Target::Literal(value), negated: false };
        let r = self.push(c);
        assert(r.clauses().drop_last() =~= self.clauses());
        r
    }

    /// Add a clause: `source --[label]--> ?bind_var` (traverse and bind).
    pub fn edge_bind(self, source: &str, label: L, bind_to: &str) -> (r: Self)
        ensures
            r.anchor() == self.anchor(),
            r.lets() == self.lets(),
            r.clauses().len() == self.clauses().len() + 1,
            r.clauses().drop_last() == self.clauses(),
            bind_clause_is(r.clauses().last(), source@, label, bind_to@),
    {
        let c = Clause {
            source: Var::new(source),
            label,
            target: Target::Bind(Var::new(bind_to)),
            negated: false,
        };
        let r = self.push(c);
        assert(r.clauses().drop_last() =~= self.clauses());
        r
    }

    /// Add a constrained clause: `source --[label]--> (constraint)`.
    pub fn edge_constrained(self, source: &str, label: L, constraint: ValueConstraint<V>) -> (r: Self)
        ensures
            r.anchor() == self.anchor(),
            r.lets() == self.lets(),
            r.clauses().len() == self.clauses().len() + 1,
            r.clauses().drop_last() == self.clauses(),
            clause_is(r.clauses().last(), source@, label, Target::Constraint(constraint), false),
    {
        let c = Clause {
            source: Var::new(source),
            label,
            target: Target::Constraint(constraint),
            negated: false,
        };
        let r = self.push(c);
        assert(r.clauses().drop_last() =~= self.clauses());
        r
    }

    fn var_clause(self, source: &str, label: L, constraint: ValueConstraint<V>) -> (r: Self)
        ensures
            r.anchor() == self.anchor(),
            r.lets() == self.lets(),
            r.clauses().len() == self.clauses().len() + 1,
            r.clauses().drop_last() == self.clauses(),
            r.clauses().last().source.0@ == source@,
            r.clauses().last().label == label,
            r.clauses().last().target == Target::Constraint(constraint),
            !r.clauses().last().negated,
    {
        let c = Clause {
            source: Var::new(source),
            label,
            target: Target::Constraint(constraint),
            negated: false,
        };
        let r = self.push(c);
        assert(r.clauses().drop_last() =~= self.clauses());
        r
    }

    /// Add a clause comparing the edge target with a bound variable: `(== ?var)`.
    pub fn edge_eq_var(self, source: &str, label: L, var_name: &str) -> (r: Self)
        ensures
            r.anchor() == self.anchor(),
            r.lets() == self.lets(),
            r.clauses().len() == self.clauses().len() + 1,
            r.clauses().drop_last() == self.clauses(),
            var_clause_is(r.clauses().last(), source@, label, 0, var_name@),
    {
        self.var_clause(source, label, ValueConstraint::EqVar(var_name.to_owned()))
    }

    /// Add a clause: `source --[label]--> (< ?var)`.
    pub fn edge_lt_var(self, source: &str, label: L, var_name: &str) -> (r: Self)
        ensures
            r.anchor() == self.anchor(),
            r.lets() == self.lets(),
            r.clauses().len() == self.clauses().len() + 1,
            r.clauses().drop_last() == self.clauses(),
            var_clause_is(r.clauses().last(), source@, label, 1, var_name@),
    {
        self.var_clause(source, label, ValueConstraint::LtVar(var_name.to_owned()))
    }

    /// Add a clause: `source --[label]--> (> ?var)`.
    pub fn edge_gt_var(self, source: &str, label: L, var_name: &str) -> (r: Self)
        ensures
            r.anchor() == self.anchor(),
            r.lets() == self.lets(),
            r.clauses().len() == self.clauses().len() + 1,
            r.clauses().drop_last() == self.clauses(),
            var_clause_is(r.clauses().last(), source@, label, 2, var_name@),
    {
        self.var_clause(source, label, ValueConstraint::GtVar(var_name.to_owned()))
    }

    /// Add a clause: `source --[label]--> (<= ?var)`.
    pub fn edge_lte_var(self, source: &str, label: L, var_name: &str) -> (r: Self)
        ensures
            r.anchor() == self.anchor(),
            r.lets() == self.lets(),
            r.clauses().len() == self.clauses().len() + 1,
            r.clauses().drop_last() == self.clauses(),
            var_clause_is(r.clauses().last(), source@, label, 3, var_name@),
    {
        self.var_clause(source, label, ValueConstraint::LteVar(var_name.to_owned()))
    }

    /// Add a clause: `source --[label]--> (>= ?var)`.
    pub fn edge_gte_var(self, source: &str, label: L, var_name: &str) -> (r: Self)
        ensures
            r.anchor() == self.anchor(),
            r.lets() == self.lets(),
            r.clauses().len() == self.clauses().len() + 1,
            r.clauses().drop_last() == self.clauses(),
            var_clause_is(r.clauses().last(), source@, label, 4, var_name@),
    {
        self.var_clause(source, label, ValueConstraint::GteVar(var_name.to_owned()))
    }

    /// Add a clause matching any of the given values.
    pub fn edge_one_of(self, source: &str, label: L, values: Vec<V>) -> (r: Self)
        ensures
            r.anchor() == self.anchor(),
            r.lets() == self.lets(),
            r.clauses().len() == self.clauses().len() + 1,
            r.clauses().drop_last() == self.clauses(),
            clause_is(r.clauses().last(), source@, label, Target::Constraint(ValueConstraint::OneOf(values)), false),
    {
        self.edge_constrained(source, label, ValueConstraint::OneOf(values))
    }

    /// Add a negated one-of clause: the edge target must NOT be any of the values.
    pub fn not_edge_one_of(self, source: &str, label: L, values: Vec<V>) -> (r: Self)
        ensures
            r.anchor() == self.anchor(),
            r.lets() == self.lets(),
            r.clauses().len() == self.clauses().len() + 1,
            r.clauses().drop_last() == self.clauses(),
            clause_is(r.clauses().last(), source@, label, Target::Constraint(ValueConstraint::OneOf(values)), true),
    {
        let c = Clause {
            source: Var::new(source),
            label,
            target: Target::Constraint(ValueConstraint::OneOf(values)),
            negated: true,
        };
        let r = self.push(c);
        assert(r.clauses().drop_last() =~= self.clauses());
        r
    }

    /// Add a negated clause: the edge must NOT exist.
    pub fn not_edge(self, source: &str, label: L, value: V) -> (r: Self)
        ensures
            r.anchor() == self.anchor(),
            r.lets() == self.lets(),
            r.clauses().len() == self.clauses().len() + 1,
            r.clauses().drop_last() == self.clauses(),
            clause_is(r.clauses().last(), source@, label, Target::Literal(value), true),
    {
        let c = Clause { source: Var::new(source), label, target: Target::Literal(value), negated: true };
        let r = self.push(c);
        assert(r.clauses().drop_last() =~= self.clauses());
        r
    }

    /// Add a computed binding `let name = expr`, evaluated after the
    /// stage's clauses match.
    pub fn let_binding(self, name: &str, expr: Expr<V>) -> (r: Self)
        ensures
            r.anchor() == self.anchor(),
            r.clauses() == self.clauses(),
            r.lets().len() == self.lets().len() + 1,
            r.lets().drop_last() == self.lets(),
            r.lets().last().name@ == name@,
            r.lets().last().expr == expr,
    {
        let mut this = self;
        let ghost orig = this.let_bindings@;
        this.let_bindings.push(ComputedBinding::new(name, expr));
        assert(this.let_bindings@.drop_last() =~= orig);
        this
    }

    fn build(self) -> (r: Stage<L, V>)
        ensures
            stage_of(self.anchor(), self.clauses(), self.lets(), r),
    {
        Stage { anchor: Var::from_string(self.anchor), clauses: self.clauses, let_bindings: self.let_bindings }
    }
}

impl<L, V> NegationBuilder<L, V> {
    /// The window start variable name.
    pub closed spec fn start(self) -> Seq<char> {
        self.between_start@
    }

    /// The window end variable name, if any.
    pub closed spec fn end(self) -> Option<Seq<char>> {
        match self.between_end {
            Some(e) => Some(e@),
            None => None,
        }
    }

    /// The clauses added so far.
    pub closed spec fn clauses(self) -> Seq<Clause<L, V>> {
        self.clauses@
    }

    /// The builder as it is handed to a negation callback.
    pub open spec fn is_fresh(self, start: Seq<char>, end: Option<Seq<char>>) -> bool {
        self.start() == start && self.end() == end && self.clauses().len() == 0
    }

    fn new(start: String, end: Option<String>) -> (r: Self)
        ensures
            r.start() == start@,
            r.end() == match end {
                Some(e) => Some(e@),
                None => None::<Seq<char>>,
            },
            r.clauses().len() == 0,
    {
        NegationBuilder { between_start: start, between_end: end, clauses: Vec::new() }
    }

    fn push(self, c: Clause<L, V>) -> (r: Self)
        ensures
            r.start() == self.start(),
            r.end() == self.end(),
            r.clauses() == self.clauses().push(c),
    {
        let mut this = self;
        this.clauses.push(c);
        this
    }

    /// Add a clause to the negation (an edge that must NOT occur in the window).
    pub fn edge(self, source: &str, label: L, value: V) -> (r: Self)
        ensures
            r.start() == self.start(),
            r.end() == self.end(),
            r.clauses().len() == self.clauses().len() + 1,
            r.clauses().drop_last() == self.clauses(),
            clause_is(r.clauses().last(), source@, label, Target::Literal(value), false),
    {
        let c = Clause { source: Var::new(source), label, target: Target::Literal(value), negated: false };
        let r = self.push(c);
        assert(r.clauses().drop_last() =~= self.clauses());
        r
    }

    /// Add a binding clause to the negation.
    pub fn edge_bind(self, source: &str, label: L, bind_to: &str) -> (r: Self)
        ensures
            r.start() == self.start(),
            r.end() == self.end(),
            r.clauses().len() == self.clauses().len() + 1,
            r.clauses().drop_last() == self.clauses(),
            bind_clause_is(r.clauses().last(), source@, label, bind_to@),
    {
        let c = Clause {
            source: Var::new(source),
            label,
            target: Target::Bind(Var::new(bind_to)),
            negated: false,
        };
        let r = self.push(c);
        assert(r.clauses().drop_last() =~= self.clauses());
        r
    }

    /// Add a constrained clause to the negation.
    pub fn edge_constrained(self, source: &str, label: L, constraint: ValueConstraint<V>) -> (r: Self)
        ensures
            r.start() == self.start(),
            r.end() == self.end(),
            r.clauses().len() == self.clauses().len() + 1,
            r.clauses().drop_last() == self.clauses(),
            clause_is(r.clauses().last(), source@, label, Target::Constraint(constraint), false),
    {
        let c = Clause {
            source: Var::new(source),
            label,
            target: Target::Constraint(constraint),
            negated: false,
        };
        let r = self.push(c);
        assert(r.clauses().drop_last() =~= self.clauses());
        r
    }

    fn build(self) -> (r: Negation<L, V>)
        ensures
            r.between_start.0@ == self.start(),
            match (r.between_end, self.end()) {
                (Some(v), Some(e)) => v.0@ == e,
                (None, None) => true,
                _ => false,
            },
            r.clauses@ == self.clauses(),
            !r.is_global,
    {
        let end = match self.between_end {
            Some(e) => Some(Var::from_string(e)),
            None => None,
        };
        Negation {
            between_start: Var::from_string(self.between_start),
            between_end: end,
            clauses: self.clauses,
            is_global: false,
        }
    }
}

impl<L, V> UnorderedGroupBuilder<L, V> {
    /// The stages added so far.
    pub closed spec fn stages(self) -> Seq<Stage<L, V>> {
        self.stages@
    }

    fn new() -> (r: Self)
        ensures
            r.stages().len() == 0,
    {
        UnorderedGroupBuilder { stages: Vec::new() }
    }

    /// Add a stage to the unordered group; `build` adds its clauses.
    pub fn stage<F: FnOnce(StageBuilder<L, V>) -> StageBuilder<L, V>>(self, anchor: &str, build: F) -> (r: Self)
        requires
            forall|sb: StageBuilder<L, V>| call_requires(build, (sb,)),
        ensures
            r.stages().len() == self.stages().len() + 1,
            r.stages().drop_last() == self.stages(),
            exists|sb0: StageBuilder<L, V>, sb: StageBuilder<L, V>|
                sb0.is_fresh(anchor@) && #[trigger] call_ensures(build, (sb0,), sb) && stage_of(
                    sb.anchor(),
                    sb.clauses(),
                    sb.lets(),
                    r.stages().last(),
                ),
    {
        let mut this = self;
        let b0 = StageBuilder::new(anchor.to_owned());
        let ghost g0 = b0;
        let b = build(b0);
        let ghost g = b;
        let st = b.build();
        let ghost orig = this.stages@;
        this.stages.push(st);
        assert(this.stages@.drop_last() =~= orig);
        assert(call_ensures(build, (g0,), g));
        this
    }
}

impl<L, V> PatternBuilder<L, V> {
    /// The pattern name.
    pub closed spec fn name(self) -> Seq<char> {
        self.name@
    }

    /// The stages added so far.
    pub closed spec fn stages(self) -> Seq<Stage<L, V>> {
        self.stages@
    }

    /// The explicit temporal constraints added so far.
    pub closed spec fn temporal_view(self) -> Seq<TemporalConstraint> {
        self.temporal@
    }

    /// The negation windows added so far.
    pub closed spec fn negations(self) -> Seq<Negation<L, V>> {
        self.negations@
    }

    /// The metadata added so far.
    pub closed spec fn metadata_view(self) -> Map<Seq<char>, String> {
        self.metadata@
    }

    /// The deadline, if set.
    pub closed spec fn deadline_view(self) -> Option<u64> {
        self.deadline_ticks
    }

    /// The unordered groups recorded so far.
    pub closed spec fn groups(self) -> Seq<Seq<usize>> {
        self.unordered_groups@.map_values(|g: Vec<usize>| g@)
    }

    /// Whether the pattern is private.
    pub closed spec fn is_private(self) -> bool {
        self.private
    }

    /// The importance weight's bits.
    pub closed spec fn importance(self) -> u64 {
        self.importance_bits
    }

    /// Whether a partial match is consumed when it advances.
    pub closed spec fn consumes_in_place(self) -> bool {
        self.advance_in_place
    }

    /// The name, stages, temporal constraints, negations and unordered
    /// groups are as in `other`.
    pub open spec fn same_parts(self, other: Self) -> bool {
        &&& self.name() == other.name()
        &&& self.stages() == other.stages()
        &&& self.temporal_view() == other.temporal_view()
        &&& self.negations() == other.negations()
        &&& self.groups() == other.groups()
    }

    /// The metadata, deadline, privacy, importance and in-place flag are as
    /// in `other`.
    pub open spec fn same_settings(self, other: Self) -> bool {
        &&& self.metadata_view() == other.metadata_view()
        &&& self.deadline_view() == other.deadline_view()
        &&& self.is_private() == other.is_private()
        &&& self.importance() == other.importance()
        &&& self.consumes_in_place() == other.consumes_in_place()
    }

    /// Everything but the named part is as in `other`.
    pub open spec fn same_except_stages(self, other: Self) -> bool {
        &&& self.name() == other.name()
        &&& self.temporal_view() == other.temporal_view()
        &&& self.negations() == other.negations()
        &&& self.metadata_view() == other.metadata_view()
        &&& self.deadline_view() == other.deadline_view()
        &&& self.groups() == other.groups()
        &&& self.is_private() == other.is_private()
        &&& self.importance() == other.importance()
        &&& self.consumes_in_place() == other.consumes_in_place()
    }

    /// Start building a new pattern with the given name.
    pub fn new(name: &str) -> (r: Self)
        ensures
            r.name() == name@,
            r.stages().len() == 0,
            r.temporal_view().len() == 0,
            r.negations().len() == 0,
            r.metadata_view() == Map::<Seq<char>, String>::empty(),
            r.deadline_view() is None,
            r.groups().len() == 0,
            !r.is_private(),
            r.importance() == DEFAULT_IMPORTANCE_BITS,
            !r.consumes_in_place(),
    {
        let r = PatternBuilder {
            name: name.to_owned(),
            stages: Vec::new(),
            temporal: Vec::new(),
            negations: Vec::new(),
            metadata: StrMap::new(),
            deadline_ticks: None,
            unordered_groups: Vec::new(),
            private: false,
            importance_bits: DEFAULT_IMPORTANCE_BITS,
            advance_in_place: false,
        };
        assert(r.groups() =~= Seq::<Seq<usize>>::empty());
        r
    }

    /// Add an event stage. The `anchor` names the event variable; `build`
    /// adds the stage's clauses.
    pub fn stage<F: FnOnce(StageBuilder<L, V>) -> StageBuilder<L, V>>(self, anchor: &str, build: F) -> (r: Self)
        requires
            forall|sb: StageBuilder<L, V>| call_requires(build, (sb,)),
        ensures
            r.same_except_stages(self),
            r.stages().len() == self.stages().len() + 1,
            r.stages().drop_last() == self.stages(),
            exists|sb0: StageBuilder<L, V>, sb: StageBuilder<L, V>|
                sb0.is_fresh(anchor@) && #[trigger] call_ensures(build, (sb0,), sb) && stage_of(
                    sb.anchor(),
                    sb.clauses(),
                    sb.lets(),
                    r.stages().last(),
                ),
    {
        let mut this = self;
        let b0 = StageBuilder::new(anchor.to_owned());
        let ghost g0 = b0;
        let b = build(b0);
        let ghost g = b;
        let st = b.build();
        let ghost orig = this.stages@;
        this.stages.push(st);
        assert(this.stages@.drop_last() =~= orig);
        assert(call_ensures(build, (g0,), g));
        this
    }

    /// Add an explicit temporal constraint (beyond implicit stage ordering).
    pub fn temporal(self, left: &str, relation: AllenRelation, right: &str) -> (r: Self)
        ensures
            r.name() == self.name(),
            r.stages() == self.stages(),
            r.negations() == self.negations(),
            r.temporal_view().len() == self.temporal_view().len() + 1,
            r.temporal_view().drop_last() == self.temporal_view(),
            r.temporal_view().last().left.0@ == left@,
            r.temporal_view().last().right.0@ == right@,
            r.temporal_view().last().relation == relation,
            r.temporal_view().last().gap is None,
            r.groups() == self.groups(),
            r.same_settings(self),
    {
        let mut this = self;
        let ghost orig = this.temporal@;
        this.temporal.push(TemporalConstraint { left: Var::new(left), relation, right: Var::new(right), gap: None });
        assert(this.temporal@.drop_last() =~= orig);
        this
    }

    /// Add a temporal constraint with a metric gap bound (STN-style).
    pub fn temporal_with_gap(self, left: &str, relation: AllenRelation, right: &str, gap: MetricGap) -> (r: Self)
        ensures
            r.name() == self.name(),
            r.stages() == self.stages(),
            r.negations() == self.negations(),
            r.temporal_view().len() == self.temporal_view().len() + 1,
            r.temporal_view().drop_last() == self.temporal_view(),
            r.temporal_view().last().left.0@ == left@,
            r.temporal_view().last().right.0@ == right@,
            r.temporal_view().last().relation == relation,
            r.temporal_view().last().gap == Some(gap),
            r.groups() == self.groups(),
            r.same_settings(self),
    {
        let mut this = self;
        let ghost orig = this.temporal@;
        this.temporal.push(TemporalConstraint { left: Var::new(left), relation, right: Var::new(right), gap: Some(gap) });
        assert(this.temporal@.drop_last() =~= orig);
        this
    }

    fn push_negation<F: FnOnce(NegationBuilder<L, V>) -> NegationBuilder<L, V>>(
        self,
        start: String,
        end: Option<String>,
        global: bool,
        build: F,
    ) -> (r: Self)
        requires
            forall|nb: NegationBuilder<L, V>| call_requires(build, (nb,)),
        ensures
            r.name() == self.name(),
            r.stages() == self.stages(),
            r.temporal_view() == self.temporal_view(),
            r.negations().len() == self.negations().len() + 1,
            r.negations().drop_last() == self.negations(),
            exists|nb0: NegationBuilder<L, V>, nb: NegationBuilder<L, V>|
                #[trigger] call_ensures(build, (nb0,), nb) && nb0.start() == start@ && nb0.end() == (match end {
                    Some(e) => Some(e@),
                    None => None::<Seq<char>>,
                }) && nb0.clauses().len() == 0 && r.negations().last().clauses@ == nb.clauses()
                    && r.negations().last().between_start.0@ == nb.start() && match (
                    r.negations().last().between_end,
                    nb.end(),
                ) {
                    (Some(v), Some(e)) => v.0@ == e,
                    (None, None) => true,
                    _ => false,
                },
            r.negations().last().is_global == global,
            r.groups() == self.groups(),
            r.same_settings(self),
    {
        let mut this = self;
        let b0 = NegationBuilder::new(start, end);
        let ghost g0 = b0;
        let b = build(b0);
        let ghost g = b;
        let mut neg = b.build();
        neg.is_global = global;
        let ghost orig = this.negations@;
        this.negations.push(neg);
        assert(this.negations@.drop_last() =~= orig);
        assert(call_ensures(build, (g0,), g));
        this
    }

    /// Add a negation window: these clauses must NOT match between two events.
    pub fn unless_between<F: FnOnce(NegationBuilder<L, V>) -> NegationBuilder<L, V>>(
        self,
        start: &str,
        end: &str,
        build: F,
    ) -> (r: Self)
        requires
            forall|nb: NegationBuilder<L, V>| call_requires(build, (nb,)),
        ensures
            r.name() == self.name(),
            r.stages() == self.stages(),
            r.temporal_view() == self.temporal_view(),
            r.negations().len() == self.negations().len() + 1,
            r.negations().drop_last() == self.negations(),
            exists|nb0: NegationBuilder<L, V>, nb: NegationBuilder<L, V>|
                #[trigger] call_ensures(build, (nb0,), nb) && nb0.is_fresh(start@, Some(end@))
                    && r.negations().last().clauses@ == nb.clauses()
                    && r.negations().last().between_start.0@ == nb.start() && match (
                    r.negations().last().between_end,
                    nb.end(),
                ) {
                    (Some(v), Some(e)) => v.0@ == e,
                    (None, None) => true,
                    _ => false,
                },
            !r.negations().last().is_global,
            r.groups() == self.groups(),
            r.same_settings(self),
    {
        self.push_negation(start.to_owned(), Some(end.to_owned()), false, build)
    }

    /// Add a negation window with an open end (up to "now").
    pub fn unless_after<F: FnOnce(NegationBuilder<L, V>) -> NegationBuilder<L, V>>(self, start: &str, build: F) -> (r: Self)
        requires
            forall|nb: NegationBuilder<L, V>| call_requires(build, (nb,)),
        ensures
            r.name() == self.name(),
            r.stages() == self.stages(),
            r.temporal_view() == self.temporal_view(),
            r.negations().len() == self.negations().len() + 1,
            r.negations().drop_last() == self.negations(),
            exists|nb0: NegationBuilder<L, V>, nb: NegationBuilder<L, V>|
                #[trigger] call_ensures(build, (nb0,), nb) && nb0.is_fresh(start@, None)
                    && r.negations().last().clauses@ == nb.clauses()
                    && r.negations().last().between_start.0@ == nb.start() && match (
                    r.negations().last().between_end,
                    nb.end(),
                ) {
                    (Some(v), Some(e)) => v.0@ == e,
                    (None, None) => true,
                    _ => false,
                },
            !r.negations().last().is_global,
            r.groups() == self.groups(),
            r.same_settings(self),
    {
        self.push_negation(start.to_owned(), None, false, build)
    }

    /// Add a negation that spans the entire pattern (first stage to last
    /// stage); its window is resolved when the pattern is built.
    pub fn unless_global<F: FnOnce(NegationBuilder<L, V>) -> NegationBuilder<L, V>>(self, build: F) -> (r: Self)
        requires
            forall|nb: NegationBuilder<L, V>| call_requires(build, (nb,)),
        ensures
            r.name() == self.name(),
            r.stages() == self.stages(),
            r.temporal_view() == self.temporal_view(),
            r.negations().len() == self.negations().len() + 1,
            r.negations().drop_last() == self.negations(),
            exists|nb0: NegationBuilder<L, V>, nb: NegationBuilder<L, V>|
                #[trigger] call_ensures(build, (nb0,), nb) && nb0.is_fresh(Seq::empty(), None)
                    && r.negations().last().clauses@ == nb.clauses(),
            r.negations().last().is_global,
            r.groups() == self.groups(),
            r.same_settings(self),
    {
        self.push_negation(String::new(), None, true, build)
    }

    /// Set a deadline in engine ticks for partial match expiry.
    pub fn deadline(self, ticks: u64) -> (r: Self)
        ensures
            r.deadline_view() == Some(ticks),
            r.same_parts(self),
            r.metadata_view() == self.metadata_view(),
            r.is_private() == self.is_private(),
            r.importance() == self.importance(),
            r.consumes_in_place() == self.consumes_in_place(),
    {
        let mut this = self;
        this.deadline_ticks = Some(ticks);
        this
    }

    /// Mark this pattern as private: evaluated internally, suppressed from output.
    pub fn private(self) -> (r: Self)
        ensures
            r.is_private(),
            r.same_parts(self),
            r.metadata_view() == self.metadata_view(),
            r.deadline_view() == self.deadline_view(),
            r.importance() == self.importance(),
            r.consumes_in_place() == self.consumes_in_place(),
    {
        let mut this = self;
        this.private = true;
        this
    }

    /// Set the importance weight, given as the bits of an IEEE-754 double.
    pub fn importance_bits(self, bits: u64) -> (r: Self)
        ensures
            r.importance() == bits,
            r.same_parts(self),
            r.metadata_view() == self.metadata_view(),
            r.deadline_view() == self.deadline_view(),
            r.is_private() == self.is_private(),
            r.consumes_in_place() == self.consumes_in_place(),
    {
        let mut this = self;
        this.importance_bits = bits;
        this
    }

    /// Consume a partial match when it advances strictly forward, so that
    /// only the advanced copy lives on.
    pub fn advance_in_place(self) -> (r: Self)
        ensures
            r.consumes_in_place(),
            r.same_parts(self),
            r.metadata_view() == self.metadata_view(),
            r.deadline_view() == self.deadline_view(),
            r.is_private() == self.is_private(),
            r.importance() == self.importance(),
    {
        let mut this = self;
        this.advance_in_place = true;
        this
    }

    /// Attach a metadata key-value pair to the pattern.
    pub fn metadata(self, key: &str, value: &str) -> (r: Self)
        ensures
            r.metadata_view().dom() == self.metadata_view().dom().insert(key@),
            r.metadata_view()[key@]@ == value@,
            forall|k: Seq<char>| k != key@ && #[trigger] self.metadata_view().contains_key(k) ==> r.metadata_view()[k] == self.metadata_view()[k],
            r.same_parts(self),
            r.deadline_view() == self.deadline_view(),
            r.is_private() == self.is_private(),
            r.importance() == self.importance(),
            r.consumes_in_place() == self.consumes_in_place(),
    {
        let mut this = self;
        this.metadata.insert(key.to_owned(), value.to_owned());
        this
    }

    /// Add a group of stages that may match in any order. The group's stages
    /// are appended to the pattern and their indices recorded as a group.
    pub fn unordered_group<F: FnOnce(UnorderedGroupBuilder<L, V>) -> UnorderedGroupBuilder<L, V>>(
        self,
        build: F,
    ) -> (r: Self)
        requires
            forall|gb: UnorderedGroupBuilder<L, V>| call_requires(build, (gb,)),
        ensures
            r.name() == self.name(),
            r.temporal_view() == self.temporal_view(),
            r.negations() == self.negations(),
            exists|gb0: UnorderedGroupBuilder<L, V>, gb: UnorderedGroupBuilder<L, V>|
                #[trigger] call_ensures(build, (gb0,), gb) && gb0.stages().len() == 0
                    && r.stages() == self.stages() + gb.stages()
                    && r.groups() == (if gb.stages().len() > 0 {
                        self.groups().push(Seq::new(gb.stages().len(), |k: int| (self.stages().len() + k) as usize))
                    } else {
                        self.groups()
                    }),
            r.same_settings(self),
    {
        let mut this = self;
        let start_idx = this.stages.len();
        let g0 = UnorderedGroupBuilder::new();
        let ghost gg0 = g0;
        let gb = build(g0);
        let ghost gg = gb;
        let mut stages = gb.stages;
        let count = stages.len();
        let ghost old_stages = this.stages@;
        let ghost old_groups = this.groups();
        this.stages.append(&mut stages);
        let total = this.stages.len();
        assert(total == start_idx + count);
        if count > 0 {
            let mut indices: Vec<usize> = Vec::new();
            let mut k: usize = 0;
            while k < count
                invariant
                    k <= count,
                    start_idx + count <= usize::MAX,
                    indices@ == Seq::new(k as nat, |j: int| (start_idx + j) as usize),
                decreases count - k,
            {
                indices.push(start_idx + k);
                assert(indices@ =~= Seq::new((k + 1) as nat, |j: int| (start_idx + j) as usize));
                k = k + 1;
            }
            this.unordered_groups.push(indices);
            proof {
                assert(this.groups() =~= old_groups.push(
                    Seq::new(gg.stages().len(), |k: int| (old_stages.len() + k) as usize),
                ));
            }
        }
        assert(call_ensures(build, (gg0,), gg));
        this
    }
}


/// `r` is the negation `n` of a built pattern whose stages are `stages`: a
/// global window becomes the span from the first stage's anchor to the last
/// one's (open-ended when that is the same anchor, unchanged when there are
/// no stages); every other window is kept.
pub open spec fn negation_resolved<L, V>(n: Negation<L, V>, stages: Seq<Stage<L, V>>, r: Negation<L, V>) -> bool {
    &&& r.clauses@ == n.clauses@
    &&& !r.is_global
    &&& if n.is_global && stages.len() > 0 {
        let first = stages[0].anchor.0@;
        let last = stages.last().anchor.0@;
        &&& r.between_start.0@ == first
        &&& if last != first {
            r.between_end matches Some(v) && v.0@ == last
        } else {
            r.between_end is None
        }
    } else {
        &&& r.between_start.0@ == n.between_start.0@
        &&& match (r.between_end, n.between_end) {
            (Some(a), Some(b)) => a.0@ == b.0@,
            (None, None) => true,
            _ => false,
        }
    }
}

impl<L, V> PatternBuilder<L, V> {
    /// Build the pattern, resolving global negation windows to the first and
    /// last stage anchors.
    pub fn build(self) -> (r: Pattern<L, V>)
        ensures
            r.name@ == self.name(),
            r.stages@ == self.stages(),
            r.temporal@ == self.temporal_view(),
            r.negations@.len() == self.negations().len(),
            forall|i: int| 0 <= i < r.negations@.len() ==> negation_resolved(self.negations()[i], self.stages(), #[trigger] r.negations@[i]),
            r.group is None,
            r.metadata@ == self.metadata_view(),
            r.deadline_ticks == self.deadline_view(),
            r.inactivity_threshold is None,
            r.repeat_range is None,
            r.unordered_groups@.map_values(|g: Vec<usize>| g@) == self.groups(),
            r.private == self.is_private(),
            r.importance_bits == self.importance(),
            r.advance_in_place == self.consumes_in_place(),
    {
        let this = self;
        let n = this.stages.len();
        let mut negs: Vec<Negation<L, V>> = Vec::new();
        let mut old_negs = this.negations;
        let ghost orig = old_negs@;
        let mut i: usize = 0;
        while i < old_negs.len()
            invariant
                old_negs@.len() == orig.len(),
                i <= orig.len(),
                negs@.len() == i,
                n == this.stages@.len(),
                forall|k: int| i <= k < orig.len() ==> old_negs@[k] == orig[k],
                forall|k: int| 0 <= k < i ==> negation_resolved(orig[k], this.stages@, #[trigger] negs@[k]),
            decreases orig.len() - i,
        {
            let placeholder = Negation { between_start: Var(String::new()), between_end: None, clauses: Vec::new(), is_global: false };
            let neg = old_negs.remove(i);
            old_negs.insert(i, placeholder);
            proof {
                assert forall|k: int| i < k < orig.len() implies old_negs@[k] == orig[k] by {
                    assert(old_negs@[k] == orig[k]);
                }
            }
            let resolved = if neg.is_global && n > 0 {
                let first = this.stages[0].anchor.0.clone();
                let last = this.stages[n - 1].anchor.0.clone();
                let end = if last != first { Some(Var::from_string(last)) } else { None };
                Negation { between_start: Var::from_string(first), between_end: end, clauses: neg.clauses, is_global: false }
            } else {
                Negation { between_start: neg.between_start, between_end: neg.between_end, clauses: neg.clauses, is_global: false }
            };
            negs.push(resolved);
            i = i + 1;
        }
        Pattern {
            name: this.name,
            stages: this.stages,
            temporal: this.temporal,
            negations: negs,
            group: None,
            metadata: this.metadata,
            deadline_ticks: this.deadline_ticks,
            inactivity_threshold: None,
            repeat_range: None,
            unordered_groups: this.unordered_groups,
            private: this.private,
            importance_bits: this.importance_bits,
            advance_in_place: this.advance_in_place,
        }
    }
}

} // verus!
