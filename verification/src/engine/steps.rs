//! Stage steps, the temporal check of a candidate match, and stage `let`
//! evaluation.
//!
//! A pattern's stages are processed as a sequence of steps: a single stage,
//! or an unordered group whose stages may match in any order. Between two
//! consecutive steps, every stage of the earlier one must start before every
//! stage of the later one.

use crate::expr::ComputedBinding;
use crate::let_evaluator::LetEvaluator;
use crate::interval::{AllenRelation, Interval};
use crate::pattern::{copy_indices, first_group_with, MetricGap, Pattern, Stage, TemporalConstraint};
use crate::strmap::StrMap;
use crate::types::BoundValue;
use vstd::prelude::*;

verus! {

/// A step of evaluation, as a mathematical value.
pub enum StepView {
    Single(usize),
    Unordered(Seq<usize>),
}

/// A step in the evaluation pipeline: either a single ordered stage or a
/// group of unordered stages that can match in any order.
#[derive(Debug)]
pub enum StageStep {
    Single(usize),
    Unordered(Vec<usize>),
}

impl View for StageStep {
    type V = StepView;

    open spec fn view(&self) -> StepView {
        match self {
            StageStep::Single(i) => StepView::Single(*i),
            StageStep::Unordered(g) => StepView::Unordered(g@),
        }
    }
}

/// The stage indices a step covers.
pub open spec fn step_indices(s: StepView) -> Seq<usize> {
    match s {
        StepView::Single(i) => seq![i],
        StepView::Unordered(g) => g,
    }
}

/// Every index named by an unordered group is a stage of the pattern.
pub open spec fn groups_in_range<L, V>(p: Pattern<L, V>) -> bool {
    forall|g: int, j: int|
        0 <= g < p.unordered_groups@.len() && 0 <= j < p.unordered_groups@[g]@.len() ==> #[trigger] p.unordered_groups@[g]@[j]
            < p.stages@.len()
}

/// A pattern the engine can run: its unordered groups name its stages, all
/// among the first 64 (progress through a group is kept in a 64-bit mask),
/// and its repeat range lies within its stages.
pub open spec fn engine_ready<L, V>(p: Pattern<L, V>) -> bool {
    &&& groups_in_range(p)
    &&& forall|g: int, j: int|
        0 <= g < p.unordered_groups@.len() && 0 <= j < p.unordered_groups@[g]@.len() ==> #[trigger] p.unordered_groups@[g]@[j]
            < 64
    &&& (p.repeat_range matches Some(rr) ==> rr.stage_start <= rr.stage_end <= p.stages@.len())
}

/// The steps for stages `i..`, skipping stages already consumed by an
/// earlier group: a stage in an unordered group brings in the whole (first)
/// group that contains it, any other stage is a step of its own.
pub open spec fn steps_from<L, V>(p: Pattern<L, V>, i: int, consumed: Set<usize>) -> Seq<StepView>
    decreases p.stages@.len() - i,
{
    if i < 0 || i >= p.stages@.len() {
        Seq::empty()
    } else if consumed.contains(i as usize) {
        steps_from(p, i + 1, consumed)
    } else {
        match first_group_with(p.unordered_groups@, i as usize) {
            Some(g) => seq![StepView::Unordered(p.unordered_groups@[g]@)] + steps_from(
                p,
                i + 1,
                consumed.union(p.unordered_groups@[g]@.to_set()),
            ),
            None => seq![StepView::Single(i as usize)] + steps_from(p, i + 1, consumed.insert(i as usize)),
        }
    }
}

/// The evaluation steps of a pattern.
pub open spec fn stage_steps<L, V>(p: Pattern<L, V>) -> Seq<StepView> {
    steps_from(p, 0, Set::empty())
}

/// The anchor variable of stage `i`.
pub open spec fn anchor_key<L, V>(p: Pattern<L, V>, i: usize) -> Seq<char> {
    p.stages@[i as int].anchor.0@
}

/// If both stages have matched, stage `li` started before stage `ri`.
pub open spec fn ordered_pair<L, V>(p: Pattern<L, V>, iv: Map<Seq<char>, Interval<i64>>, li: usize, ri: usize) -> bool {
    let a = anchor_key(p, li);
    let b = anchor_key(p, ri);
    iv.contains_key(a) && iv.contains_key(b) ==> iv[a].start < iv[b].start
}

/// Every matched stage of a step starts before every matched stage of the
/// next step.
pub open spec fn implicit_order_holds<L, V>(p: Pattern<L, V>, iv: Map<Seq<char>, Interval<i64>>) -> bool {
    let steps = stage_steps(p);
    forall|k: int, a: int, b: int|
        0 <= k && k + 1 < steps.len() && 0 <= a < step_indices(steps[k]).len() && 0 <= b < step_indices(
            steps[k + 1],
        ).len() ==> #[trigger] ordered_pair(p, iv, step_indices(steps[k])[a], step_indices(steps[k + 1])[b])
}

/// A gap satisfies its optional metric bounds (a gap that cannot be
/// computed is not checked).
pub open spec fn gap_ok(gap: Option<MetricGap>, g: Option<int>) -> bool {
    match (gap, g) {
        (Some(bound), Some(v)) => (bound.min matches Some(m) ==> v >= m) && (bound.max matches Some(m) ==> v <= m),
        _ => true,
    }
}

/// An explicit temporal constraint holds when both of its variables have
/// matched: their relation is the required one (or, when it cannot be
/// computed, a before/meets requirement is met by the starts), and the gap
/// is within its bounds.
pub open spec fn explicit_holds(tc: TemporalConstraint, iv: Map<Seq<char>, Interval<i64>>) -> bool {
    iv.contains_key(tc.left.0@) && iv.contains_key(tc.right.0@) ==> {
        let l = iv[tc.left.0@];
        let r = iv[tc.right.0@];
        &&& (l.relation_spec(r) == Some(tc.relation) || (l.relation_spec(r) is None && (tc.relation
            == AllenRelation::Before || tc.relation == AllenRelation::Meets) && l.start < r.start))
        &&& gap_ok(tc.gap, l.gap_spec(r, tc.relation))
    }
}

/// A candidate's intervals satisfy the pattern's implicit stage order and
/// all of its explicit temporal constraints.
pub open spec fn temporal_holds<L, V>(p: Pattern<L, V>, iv: Map<Seq<char>, Interval<i64>>) -> bool {
    &&& implicit_order_holds(p, iv)
    &&& forall|t: int| 0 <= t < p.temporal@.len() ==> explicit_holds(#[trigger] p.temporal@[t], iv)
}

/// `first_group_with` names the first group that contains the index.
pub proof fn lemma_first_group_with(groups: Seq<Vec<usize>>, idx: usize)
    ensures
        match first_group_with(groups, idx) {
            Some(g) => 0 <= g < groups.len() && groups[g]@.contains(idx) && forall|h: int|
                0 <= h < g ==> !(#[trigger] groups[h])@.contains(idx),
            None => forall|g: int| 0 <= g < groups.len() ==> !(#[trigger] groups[g])@.contains(idx),
        },
{
    if exists|g: int| 0 <= g < groups.len() && groups[g]@.contains(idx) {
        lemma_least_group(groups, idx, groups.len() as int);
    }
}

proof fn lemma_least_group(groups: Seq<Vec<usize>>, idx: usize, n: int)
    requires
        0 <= n <= groups.len(),
    ensures
        (exists|g: int| 0 <= g < n && (#[trigger] groups[g])@.contains(idx)) ==> exists|g: int|
            0 <= g < n && (#[trigger] groups[g])@.contains(idx) && forall|h: int|
                0 <= h < g ==> !(#[trigger] groups[h])@.contains(idx),
    decreases n,
{
    if n > 0 {
        lemma_least_group(groups, idx, n - 1);
        if !(exists|g: int| 0 <= g < n - 1 && (#[trigger] groups[g])@.contains(idx)) {
            if groups[n - 1]@.contains(idx) {
                assert(forall|h: int| 0 <= h < n - 1 ==> !(#[trigger] groups[h])@.contains(idx));
            }
        }
    }
}

proof fn lemma_steps_in_range<L, V>(p: Pattern<L, V>, i: int, consumed: Set<usize>)
    requires
        groups_in_range(p),
    ensures
        forall|k: int, a: int|
            0 <= k < steps_from(p, i, consumed).len() && 0 <= a < step_indices(steps_from(p, i, consumed)[k]).len()
                ==> #[trigger] step_indices(steps_from(p, i, consumed)[k])[a] < p.stages@.len(),
    decreases p.stages@.len() - i,
{
    if i < 0 || i >= p.stages@.len() {
    } else if consumed.contains(i as usize) {
        lemma_steps_in_range(p, i + 1, consumed);
        assert(steps_from(p, i, consumed) == steps_from(p, i + 1, consumed));
    } else {
        lemma_first_group_with(p.unordered_groups@, i as usize);
        match first_group_with(p.unordered_groups@, i as usize) {
            Some(g) => {
                let rest = consumed.union(p.unordered_groups@[g]@.to_set());
                lemma_steps_in_range(p, i + 1, rest);
                let s = steps_from(p, i, consumed);
                assert forall|k: int, a: int|
                    0 <= k < s.len() && 0 <= a < step_indices(s[k]).len() implies #[trigger] step_indices(s[k])[a]
                        < p.stages@.len() by {
                    if k > 0 {
                        assert(s[k] == steps_from(p, i + 1, rest)[k - 1]);
                    } else {
                        assert(step_indices(s[k])[a] == p.unordered_groups@[g]@[a]);
                    }
                }
            },
            None => {
                let rest = consumed.insert(i as usize);
                lemma_steps_in_range(p, i + 1, rest);
                let s = steps_from(p, i, consumed);
                assert forall|k: int, a: int|
                    0 <= k < s.len() && 0 <= a < step_indices(s[k]).len() implies #[trigger] step_indices(s[k])[a]
                        < p.stages@.len() by {
                    if k > 0 {
                        assert(s[k] == steps_from(p, i + 1, rest)[k - 1]);
                    }
                }
            },
        }
    }
}

/// Every stage index a step names is a stage of the pattern.
pub proof fn lemma_stage_steps_in_range<L, V>(p: Pattern<L, V>)
    requires
        groups_in_range(p),
    ensures
        forall|k: int, a: int|
            0 <= k < stage_steps(p).len() && 0 <= a < step_indices(stage_steps(p)[k]).len()
                ==> #[trigger] step_indices(stage_steps(p)[k])[a] < p.stages@.len(),
{
    lemma_steps_in_range(p, 0, Set::empty());
}

/// The views of a sequence of steps.
pub open spec fn steps_view(s: Seq<StageStep>) -> Seq<StepView> {
    s.map_values(|x: StageStep| x@)
}

/// Build the list of evaluation steps from a pattern's stages and unordered
/// groups: each stage in an unordered group brings in its whole group once.
pub fn build_stage_steps<L, V>(pattern: &Pattern<L, V>) -> (r: Vec<StageStep>)
    requires
        groups_in_range(*pattern),
    ensures
        steps_view(r@) == stage_steps(*pattern),
{
    let n = pattern.stages.len();
    let mut consumed: Vec<bool> = Vec::new();
    let mut j: usize = 0;
    while j < n
        invariant
            j <= n,
            consumed@.len() == j,
            forall|x: int| 0 <= x < j ==> !consumed@[x],
        decreases n - j,
    {
        consumed.push(false);
        j = j + 1;
    }
    let ghost mut cs: Set<usize> = Set::empty();
    let mut steps: Vec<StageStep> = Vec::new();
    let mut i: usize = 0;
    while i < n
        invariant
            n == pattern.stages@.len(),
            groups_in_range(*pattern),
            i <= n,
            consumed@.len() == n,
            forall|x: int| 0 <= x < n ==> consumed@[x] == cs.contains(x as usize),
            steps_view(steps@) + steps_from(*pattern, i as int, cs) == stage_steps(*pattern),
        decreases n - i,
    {
        let ghost before = steps@;
        if consumed[i] {
            proof {
                assert(steps_from(*pattern, i as int, cs) == steps_from(*pattern, i + 1, cs));
            }
        } else {
            match pattern.unordered_group_for(i) {
                Some(group) => {
                    proof {
                        lemma_first_group_with(pattern.unordered_groups@, i);
                    }
                    let ghost g = first_group_with(pattern.unordered_groups@, i)->0;
                    let ghost cs_old = cs;
                    let mut k: usize = 0;
                    while k < group.len()
                        invariant
                            n == pattern.stages@.len(),
                            groups_in_range(*pattern),
                            0 <= g < pattern.unordered_groups@.len(),
                            *group == pattern.unordered_groups@[g],
                            k <= group@.len(),
                            consumed@.len() == n,
                            forall|x: int|
                                0 <= x < n ==> consumed@[x] == (cs_old.contains(x as usize) || group@.take(
                                    k as int,
                                ).contains(x as usize)),
                        decreases group@.len() - k,
                    {
                        let gi = group[k];
                        assert(gi < n) by {
                            assert(pattern.unordered_groups@[g]@[k as int] < pattern.stages@.len());
                        }
                        let ghost prev = consumed@;
                        consumed.set(gi, true);
                        proof {
                            assert(group@.take(k + 1) =~= group@.take(k as int).push(gi));
                            assert forall|x: int| 0 <= x < n implies consumed@[x] == (cs_old.contains(x as usize)
                                || group@.take(k + 1).contains(x as usize)) by {
                                if x == gi {
                                    assert(group@.take(k + 1)[k as int] == gi);
                                } else {
                                    assert(prev[x] == consumed@[x]);
                                    if group@.take(k + 1).contains(x as usize) {
                                        let w = choose|w: int| 0 <= w < k + 1 && #[trigger] group@.take(k + 1)[w] == x as usize;
                                        assert(group@.take(k as int)[w] == x as usize);
                                    }
                                    if group@.take(k as int).contains(x as usize) {
                                        let w = choose|w: int| 0 <= w < k && #[trigger] group@.take(k as int)[w] == x as usize;
                                        assert(group@.take(k + 1)[w] == x as usize);
                                    }
                                }
                            }
                        }
                        k = k + 1;
                    }
                    proof {
                        assert(group@.take(group@.len() as int) =~= group@);
                        cs = cs_old.union(group@.to_set());
                        assert forall|x: int| 0 <= x < n implies consumed@[x] == cs.contains(x as usize) by {
                            if group@.contains(x as usize) {
                                assert(group@.to_set().contains(x as usize));
                            }
                            if group@.to_set().contains(x as usize) {
                                assert(group@.contains(x as usize));
                            }
                        }
                        assert(steps_from(*pattern, i as int, cs_old) == seq![StepView::Unordered(group@)] + steps_from(
                            *pattern,
                            i + 1,
                            cs,
                        ));
                    }
                    steps.push(StageStep::Unordered(copy_indices(group)));
                },
                None => {
                    consumed.set(i, true);
                    proof {
                        let cs_old = cs;
                        cs = cs.insert(i);
                        assert(steps_from(*pattern, i as int, cs_old) == seq![StepView::Single(i)] + steps_from(
                            *pattern,
                            i + 1,
                            cs,
                        ));
                    }
                    steps.push(StageStep::Single(i));
                },
            }
            proof {
                assert(steps_view(steps@) =~= steps_view(before).push(steps@.last()@));
                assert(steps_view(steps@) + steps_from(*pattern, i + 1, cs) =~= steps_view(before) + (seq![steps@.last()@] + steps_from(*pattern, i + 1, cs)));
            }
        }
        i = i + 1;
    }
    proof {
        assert(steps_view(steps@) + steps_from(*pattern, n as int, cs) =~= steps_view(steps@));
    }
    steps
}

/// The stage indices of a step, as a vector.
fn step_index_vec(step: &StageStep) -> (r: Vec<usize>)
    ensures
        r@ == step_indices(step@),
{
    match step {
        StageStep::Single(i) => {
            let mut v: Vec<usize> = Vec::new();
            v.push(*i);
            proof {
                assert(v@ =~= seq![*i]);
            }
            v
        },
        StageStep::Unordered(g) => copy_indices(g),
    }
}

/// Check the implicit stage order and the explicit temporal constraints of
/// a candidate match against its stage intervals.
pub fn check_temporal<L, V>(pattern: &Pattern<L, V>, intervals: &StrMap<Interval<i64>>) -> (r: bool)
    requires
        groups_in_range(*pattern),
    ensures
        r == temporal_holds(*pattern, intervals@),
{
    let steps = build_stage_steps(pattern);
    let ghost sv = stage_steps(*pattern);
    let ghost iv = intervals@;
    proof {
        lemma_stage_steps_in_range(*pattern);
    }
    proof {
        assert(sv.len() == steps@.len());
    }
    let mut k: usize = 0;
    while steps.len() > 0 && k < steps.len() - 1
        invariant
            sv.len() == steps@.len(),
            steps_view(steps@) == sv,
            sv == stage_steps(*pattern),
            iv == intervals@,
            k <= steps@.len(),
            forall|k2: int, a: int|
                0 <= k2 < sv.len() && 0 <= a < step_indices(sv[k2]).len() ==> #[trigger] step_indices(sv[k2])[a]
                    < pattern.stages@.len(),
            forall|k2: int, a: int, b: int|
                0 <= k2 < k && k2 + 1 < sv.len() && 0 <= a < step_indices(sv[k2]).len() && 0 <= b < step_indices(
                    sv[k2 + 1],
                ).len() ==> #[trigger] ordered_pair(*pattern, iv, step_indices(sv[k2])[a], step_indices(sv[k2 + 1])[b]),
        decreases steps@.len() - k,
    {
        let left = step_index_vec(&steps[k]);
        let right = step_index_vec(&steps[k + 1]);
        proof {
            assert(sv[k as int] == steps@[k as int]@);
            assert(sv[k + 1] == steps@[k + 1]@);
        }
        let mut a: usize = 0;
        while a < left.len()
            invariant
                sv.len() == steps@.len(),
                sv == stage_steps(*pattern),
                steps_view(steps@) == sv,
                iv == intervals@,
                k + 1 < sv.len(),
                left@ == step_indices(sv[k as int]),
                right@ == step_indices(sv[k + 1]),
                a <= left@.len(),
                forall|k2: int, a2: int|
                    0 <= k2 < sv.len() && 0 <= a2 < step_indices(sv[k2]).len() ==> #[trigger] step_indices(sv[k2])[a2]
                        < pattern.stages@.len(),
                forall|a2: int, b: int|
                    0 <= a2 < a && 0 <= b < right@.len() ==> #[trigger] ordered_pair(*pattern, iv, left@[a2], right@[b]),
            decreases left@.len() - a,
        {
            let mut b: usize = 0;
            while b < right.len()
                invariant
                    sv.len() == steps@.len(),
                    sv == stage_steps(*pattern),
                    steps_view(steps@) == sv,
                    iv == intervals@,
                    k + 1 < sv.len(),
                    left@ == step_indices(sv[k as int]),
                    right@ == step_indices(sv[k + 1]),
                    a < left@.len(),
                    b <= right@.len(),
                    forall|k2: int, a2: int|
                        0 <= k2 < sv.len() && 0 <= a2 < step_indices(sv[k2]).len() ==> #[trigger] step_indices(
                            sv[k2],
                        )[a2] < pattern.stages@.len(),
                    forall|b2: int| 0 <= b2 < b ==> #[trigger] ordered_pair(*pattern, iv, left@[a as int], right@[b2]),
                decreases right@.len() - b,
            {
                let li = left[a];
                let ri = right[b];
                assert(li < pattern.stages@.len()) by {
                    assert(step_indices(sv[k as int])[a as int] < pattern.stages@.len());
                }
                assert(ri < pattern.stages@.len()) by {
                    assert(step_indices(sv[k + 1])[b as int] < pattern.stages@.len());
                }
                let l = intervals.get(pattern.stages[li].anchor.0.as_str());
                let r = intervals.get(pattern.stages[ri].anchor.0.as_str());
                match (l, r) {
                    (Some(liv), Some(riv)) => {
                        if liv.start >= riv.start {
                            proof {
                                let kk = k as int;
                                assert(li == step_indices(sv[kk])[a as int]);
                                assert(ri == step_indices(sv[kk + 1])[b as int]);
                                assert(iv.contains_key(anchor_key(*pattern, li)));
                                assert(iv.contains_key(anchor_key(*pattern, ri)));
                                assert(!ordered_pair(*pattern, iv, li, ri));
                                assert(0 <= kk && kk + 1 < sv.len());
                                assert(!implicit_order_holds(*pattern, iv));
                            }
                            return false;
                        }
                    },
                    _ => {},
                }
                b = b + 1;
            }
            a = a + 1;
        }
        proof {
            assert forall|k2: int, a2: int, b2: int|
                0 <= k2 < k + 1 && k2 + 1 < sv.len() && 0 <= a2 < step_indices(sv[k2]).len() && 0 <= b2 < step_indices(
                    sv[k2 + 1],
                ).len() implies #[trigger] ordered_pair(*pattern, iv, step_indices(sv[k2])[a2], step_indices(sv[k2 + 1])[b2]) by {
                if k2 == k {
                    assert(ordered_pair(*pattern, iv, left@[a2], right@[b2]));
                }
            }
        }
        k = k + 1;
    }
    proof {
        assert(implicit_order_holds(*pattern, iv));
    }
    let mut t: usize = 0;
    while t < pattern.temporal.len()
        invariant
            iv == intervals@,
            implicit_order_holds(*pattern, iv),
            t <= pattern.temporal@.len(),
            forall|t2: int| 0 <= t2 < t ==> explicit_holds(#[trigger] pattern.temporal@[t2], iv),
        decreases pattern.temporal@.len() - t,
    {
        if !explicit_constraint_ok(&pattern.temporal[t], intervals) {
            return false;
        }
        t = t + 1;
    }
    true
}

/// Does one explicit temporal constraint hold for the candidate's intervals?
fn explicit_constraint_ok(tc: &TemporalConstraint, intervals: &StrMap<Interval<i64>>) -> (r: bool)
    ensures
        r == explicit_holds(*tc, intervals@),
{
    let left = intervals.get(tc.left.0.as_str());
    let right = intervals.get(tc.right.0.as_str());
    match (left, right) {
        (Some(l), Some(r)) => {
            match l.relation(r) {
                Some(rel) => {
                    if rel != tc.relation {
                        return false;
                    }
                },
                None => {
                    if !(tc.relation.is_before_or_meets() && l.start < r.start) {
                        return false;
                    }
                },
            }
            match tc.gap {
                Some(bound) => match l.gap_for_relation(r, tc.relation) {
                    Some(g) => {
                        match bound.min {
                            Some(min) => {
                                if g < min as i128 {
                                    return false;
                                }
                            },
                            None => {},
                        }
                        match bound.max {
                            Some(max) => {
                                if g > max as i128 {
                                    return false;
                                }
                            },
                            None => {},
                        }
                        true
                    },
                    None => true,
                },
                None => true,
            }
        },
        _ => true,
    }
}

/// The names a stage's `let` bindings introduce, in order.
pub open spec fn let_names<L, V>(stage: Stage<L, V>) -> Seq<Seq<char>> {
    stage.let_bindings@.map_values(|cb: crate::expr::ComputedBinding<V>| cb.name@)
}

/// The bindings after the first `n` of the `let` bindings `lets` were
/// evaluated in order by `e` over `b`, each result added as a value under
/// its name; `None` when a `let` names a bound variable or its expression
/// gives `None`.
pub open spec fn lets_result<N, V, E: LetEvaluator<N, V>>(
    e: E,
    lets: Seq<ComputedBinding<V>>,
    b: Map<Seq<char>, BoundValue<N, V>>,
    n: int,
) -> Option<Map<Seq<char>, BoundValue<N, V>>>
    decreases n,
{
    if n <= 0 || n > lets.len() {
        Some(b)
    } else {
        match lets_result(e, lets, b, n - 1) {
            None => None,
            Some(m) => {
                let cb = lets[n - 1];
                if m.contains_key(cb.name@) {
                    None
                } else {
                    match e.evaluate_spec(cb.expr, m) {
                        None => None,
                        Some(x) => Some(m.insert(cb.name@, BoundValue::Value(x))),
                    }
                }
            },
        }
    }
}

/// The bindings after all of a stage's `let` bindings were evaluated by `e`
/// over `b`, or `None` when one fails.
pub open spec fn stage_lets_result<N, L, V, E: LetEvaluator<N, V>>(
    e: E,
    stage: Stage<L, V>,
    b: Map<Seq<char>, BoundValue<N, V>>,
) -> Option<Map<Seq<char>, BoundValue<N, V>>> {
    lets_result(e, stage.let_bindings@, b, stage.let_bindings@.len() as int)
}

/// Evaluate a stage's `let` bindings in order against the bindings, adding
/// each result as a value. Fails (returns `false`) if a `let` would shadow a
/// binding, or does not evaluate; the bindings made before that stay.
pub fn eval_stage_lets<N, L, V, E: LetEvaluator<N, V>>(
    stage: &Stage<L, V>,
    bindings: &mut StrMap<BoundValue<N, V>>,
    evaluator: &E,
) -> (r: bool)
    ensures
        forall|k: Seq<char>|
            #[trigger] old(bindings)@.contains_key(k) ==> final(bindings)@.contains_key(k) && final(bindings)@[k] == old(
                bindings,
            )@[k],
        r ==> forall|k: Seq<char>|
            #[trigger] final(bindings)@.contains_key(k) == (old(bindings)@.contains_key(k) || let_names(*stage).contains(k)),
        r ==> forall|i: int| 0 <= i < let_names(*stage).len() ==> !old(bindings)@.contains_key(#[trigger] let_names(*stage)[i]),
        r ==> forall|i: int|
            0 <= i < let_names(*stage).len() ==> final(bindings)@[#[trigger] let_names(*stage)[i]] is Value,
        (exists|i: int| 0 <= i < let_names(*stage).len() && old(bindings)@.contains_key(#[trigger] let_names(*stage)[i]))
            ==> !r,
        stage.let_bindings@.len() == 0 ==> r && final(bindings)@ == old(bindings)@,
        evaluator.obeys_evaluate_spec() ==> r == stage_lets_result(*evaluator, *stage, old(bindings)@) is Some,
        evaluator.obeys_evaluate_spec() && r ==> Some(final(bindings)@) == stage_lets_result(*evaluator, *stage, old(bindings)@),
{
    let ghost names = let_names(*stage);
    let ghost lets = stage.let_bindings@;
    let ghost ob = bindings@;
    let mut i: usize = 0;
    while i < stage.let_bindings.len()
        invariant
            names == let_names(*stage),
            names.len() == stage.let_bindings@.len(),
            ob == old(bindings)@,
            i <= names.len(),
            forall|k: Seq<char>| #[trigger] ob.contains_key(k) ==> bindings@.contains_key(k) && bindings@[k] == ob[k],
            forall|k: Seq<char>|
                #[trigger] bindings@.contains_key(k) == (ob.contains_key(k) || exists|j: int| 0 <= j < i && names[j] == k),
            forall|j: int| 0 <= j < i ==> !ob.contains_key(#[trigger] names[j]),
            forall|j: int| 0 <= j < i ==> bindings@[#[trigger] names[j]] is Value,
            lets == stage.let_bindings@,
            evaluator.obeys_evaluate_spec() ==> lets_result(*evaluator, lets, ob, i as int) == Some(bindings@),
        decreases names.len() - i,
    {
        let cb = &stage.let_bindings[i];
        proof {
            assert(names[i as int] == cb.name@);
        }
        if bindings.contains_key(cb.name.as_str()) {
            proof {
                if evaluator.obeys_evaluate_spec() {
                    lemma_lets_fail_stays(*evaluator, lets, ob, i + 1, lets.len() as int);
                }
            }
            return false;
        }
        let ghost before = bindings@;
        match evaluator.evaluate(&cb.expr, bindings) {
            Some(v) => {
                bindings.insert(cb.name.clone(), BoundValue::Value(v));
                proof {
                    assert forall|k: Seq<char>| #[trigger] bindings@.contains_key(k) == (ob.contains_key(k) || exists|j: int|
                        0 <= j < i + 1 && names[j] == k) by {
                        if k == names[i as int] {
                        } else if exists|j: int| 0 <= j < i + 1 && names[j] == k {
                            let j = choose|j: int| 0 <= j < i + 1 && #[trigger] names[j] == k;
                            assert(0 <= j < i && names[j] == k);
                        }
                    }
                    assert forall|j: int| 0 <= j < i + 1 implies bindings@[#[trigger] names[j]] is Value by {
                        if j < i && names[j] != names[i as int] {
                        }
                    }
                }
            },
            None => {
                proof {
                    if evaluator.obeys_evaluate_spec() {
                        lemma_lets_fail_stays(*evaluator, lets, ob, i + 1, lets.len() as int);
                    }
                }
                return false;
            },
        }
        proof {
            if evaluator.obeys_evaluate_spec() {
                assert(bindings@ =~= before.insert(cb.name@, bindings@[cb.name@]));
            }
        }
        i = i + 1;
    }
    true
}

/// Once a `let` fails, the evaluation of the later ones fails too.
proof fn lemma_lets_fail_stays<N, V, E: LetEvaluator<N, V>>(
    e: E,
    lets: Seq<ComputedBinding<V>>,
    b: Map<Seq<char>, BoundValue<N, V>>,
    n: int,
    k: int,
)
    requires
        1 <= n <= k <= lets.len(),
        lets_result(e, lets, b, n) is None,
    ensures
        lets_result(e, lets, b, k) is None,
    decreases k - n,
{
    if k > n {
        lemma_lets_fail_stays(e, lets, b, n, k - 1);
    }
}

} // verus!
