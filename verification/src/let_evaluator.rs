//! Pluggable let-binding evaluation.
//!
//! Stage `let` bindings are evaluated by a [`LetEvaluator`] chosen by the
//! caller. The trait sits on a separate evaluator type, not on the value
//! type, so users with foreign value types can plug in their own arithmetic.

use crate::expr::{ArithmeticValue, Expr};
use crate::datasource::clone_exact;
use crate::strmap::StrMap;
use crate::types::BoundValue;
use vstd::prelude::*;

verus! {

/// Evaluates `let` expressions during stage matching: `Some(v)` if the
/// expression produced a value, `None` if it failed (the partial match is
/// then discarded). An evaluator that obeys its specification
/// (`obeys_evaluate_spec`) returns what `evaluate_spec` says for the
/// expression and the bindings; the default bodies of both name nothing in
/// particular, so an evaluator that leaves them as they are promises nothing.
pub trait LetEvaluator<N, V> {
    /// What `evaluate` returns for `expr` over the bindings `b`.
    open spec fn evaluate_spec(&self, expr: Expr<V>, b: Map<Seq<char>, BoundValue<N, V>>) -> Option<V> {
        vstd::pervasive::arbitrary()
    }

    /// The evaluator returns what `evaluate_spec` says.
    open spec fn obeys_evaluate_spec(&self) -> bool {
        vstd::pervasive::arbitrary()
    }

    fn evaluate(&self, expr: &Expr<V>, bindings: &StrMap<BoundValue<N, V>>) -> (r: Option<V>)
        ensures
            self.obeys_evaluate_spec() ==> r == self.evaluate_spec(*expr, bindings@);
}

/// A let evaluator that always returns `None`: let-bearing patterns never match.
#[derive(Debug, Clone, Copy, Default)]
pub struct NoLetEvaluator;

impl<N, V> LetEvaluator<N, V> for NoLetEvaluator {
    open spec fn evaluate_spec(&self, expr: Expr<V>, b: Map<Seq<char>, BoundValue<N, V>>) -> Option<V> {
        None
    }

    open spec fn obeys_evaluate_spec(&self) -> bool {
        true
    }

    fn evaluate(&self, expr: &Expr<V>, bindings: &StrMap<BoundValue<N, V>>) -> (r: Option<V>)
        ensures
            r is None,
    {
        None
    }
}

/// The default let evaluator: delegates to [`Expr::eval`], for value types
/// with arithmetic.
#[derive(Debug, Clone, Copy, Default)]
pub struct DefaultLetEvaluator;

impl<N, V: ArithmeticValue + Clone> LetEvaluator<N, V> for DefaultLetEvaluator {
    /// The value of the expression (see [`Expr::value_in`]).
    open spec fn evaluate_spec(&self, expr: Expr<V>, b: Map<Seq<char>, BoundValue<N, V>>) -> Option<V> {
        expr.value_in(b)
    }

    /// Exact when the value type clones exactly.
    open spec fn obeys_evaluate_spec(&self) -> bool {
        clone_exact::<V>()
    }

    fn evaluate(&self, expr: &Expr<V>, bindings: &StrMap<BoundValue<N, V>>) -> (r: Option<V>)
        ensures
            !expr.vars_bound_to_values(bindings@) ==> r is None,
            expr.evaluates_to(bindings@, r),
    {
        expr.eval(bindings)
    }
}

} // verus!
