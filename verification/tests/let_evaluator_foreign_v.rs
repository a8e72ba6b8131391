use fabula::builder::PatternBuilder;
use fabula::engine::sift::SiftEngine;
use fabula::expr::{ArithmeticValue, BinOp, Expr};
use fabula::let_evaluator::{DefaultLetEvaluator, LetEvaluator, NoLetEvaluator};
use fabula::pattern::Pattern;
use fabula::strmap::StrMap;
use fabula::types::BoundValue;

#[derive(Debug, Clone, PartialEq, Eq, Hash, PartialOrd, Ord)]
enum OpaqueValue {
    Num(i64),
    Str(String),
}
// Notably: no ArithmeticValue impl for OpaqueValue.

#[test]
fn engine_constructs_over_non_arithmetic_v_with_no_let_evaluator() {
    let _engine: SiftEngine<String, String, OpaqueValue, NoLetEvaluator> = SiftEngine::new(NoLetEvaluator);
}

#[test]
fn let_free_pattern_registers_over_opaque_v() {
    let pattern: Pattern<String, OpaqueValue> = PatternBuilder::new("simple")
        .stage("e1", |s| s.edge("e1", "label".to_string(), OpaqueValue::Num(1)))
        .build();

    let mut engine: SiftEngine<String, String, OpaqueValue, NoLetEvaluator> = SiftEngine::new(NoLetEvaluator);
    let _idx = engine.register(pattern);
}

/// A consumer-supplied evaluator doing arithmetic over `OpaqueValue::Num`.
#[derive(Debug, Clone, Copy, Default)]
struct OpaqueValueLetEvaluator;

fn extract(expr: &Expr<OpaqueValue>, bindings: &StrMap<BoundValue<String, OpaqueValue>>) -> Option<i64> {
    match expr {
        Expr::Literal(OpaqueValue::Num(n)) => Some(*n),
        Expr::Literal(_) => None,
        Expr::Var(name) => match bindings.get(name) {
            Some(BoundValue::Value(OpaqueValue::Num(n))) => Some(*n),
            _ => None,
        },
        Expr::BinOp(op, l, r) => {
            let lv = extract(l, bindings)?;
            let rv = extract(r, bindings)?;
            match op {
                BinOp::Add => Some(lv + rv),
                BinOp::Sub => Some(lv - rv),
                BinOp::Mul => Some(lv * rv),
                BinOp::Div => {
                    if rv == 0 {
                        None
                    } else {
                        Some(lv / rv)
                    }
                }
            }
        }
    }
}

impl LetEvaluator<String, OpaqueValue> for OpaqueValueLetEvaluator {
    fn evaluate(
        &self,
        expr: &Expr<OpaqueValue>,
        bindings: &StrMap<BoundValue<String, OpaqueValue>>,
    ) -> Option<OpaqueValue> {
        extract(expr, bindings).map(OpaqueValue::Num)
    }
}

#[test]
fn custom_evaluator_does_arithmetic_over_foreign_v() {
    let mut bindings: StrMap<BoundValue<String, OpaqueValue>> = StrMap::new();
    bindings.insert("x".into(), BoundValue::Value(OpaqueValue::Num(3)));

    let expr: Expr<OpaqueValue> = Expr::bin(BinOp::Add, Expr::var("x"), Expr::lit(OpaqueValue::Num(5)));

    let result = OpaqueValueLetEvaluator.evaluate(&expr, &bindings);
    assert_eq!(result, Some(OpaqueValue::Num(8)));
}

#[test]
fn custom_evaluator_returns_none_for_non_numeric_bindings() {
    let mut bindings: StrMap<BoundValue<String, OpaqueValue>> = StrMap::new();
    bindings.insert("x".into(), BoundValue::Value(OpaqueValue::Str("not a number".into())));

    let expr: Expr<OpaqueValue> = Expr::bin(BinOp::Add, Expr::var("x"), Expr::lit(OpaqueValue::Num(5)));

    assert_eq!(OpaqueValueLetEvaluator.evaluate(&expr, &bindings), None);
}

#[test]
fn engine_uses_custom_evaluator_for_foreign_v() {
    let _engine: SiftEngine<String, String, OpaqueValue, OpaqueValueLetEvaluator> =
        SiftEngine::new(OpaqueValueLetEvaluator);
}

#[derive(Debug, Clone, PartialEq, Eq, Hash, PartialOrd, Ord)]
struct Int(i64);

impl ArithmeticValue for Int {
    fn try_add(&self, o: &Self) -> Option<Self> {
        Some(Int(self.0 + o.0))
    }
    fn try_sub(&self, o: &Self) -> Option<Self> {
        Some(Int(self.0 - o.0))
    }
    fn try_mul(&self, o: &Self) -> Option<Self> {
        Some(Int(self.0 * o.0))
    }
    fn try_div(&self, o: &Self) -> Option<Self> {
        if o.0 == 0 {
            None
        } else {
            Some(Int(self.0 / o.0))
        }
    }
}

#[test]
fn engine_with_default_evaluator_still_works_for_arithmetic_v() {
    let _engine: SiftEngine<String, String, Int, DefaultLetEvaluator> = SiftEngine::new(DefaultLetEvaluator);
}
