use fabula::expr::{ArithmeticValue, BinOp, Expr};
use fabula::strmap::StrMap;
use fabula::types::BoundValue;

#[derive(Debug, Clone, PartialEq)]
struct N(f64);

impl ArithmeticValue for N {
    fn try_add(&self, o: &Self) -> Option<Self> {
        Some(N(self.0 + o.0))
    }
    fn try_sub(&self, o: &Self) -> Option<Self> {
        Some(N(self.0 - o.0))
    }
    fn try_mul(&self, o: &Self) -> Option<Self> {
        Some(N(self.0 * o.0))
    }
    fn try_div(&self, o: &Self) -> Option<Self> {
        if o.0 == 0.0 {
            None
        } else {
            Some(N(self.0 / o.0))
        }
    }
}

fn b(n: f64) -> BoundValue<String, N> {
    BoundValue::Value(N(n))
}

#[test]
fn eval_literal_returns_value() {
    let bindings: StrMap<BoundValue<String, N>> = StrMap::new();
    let e: Expr<N> = Expr::lit(N(7.0));
    assert_eq!(e.eval(&bindings), Some(N(7.0)));
}

#[test]
fn eval_var_resolves_through_bindings() {
    let mut bindings = StrMap::new();
    bindings.insert("x".to_string(), b(3.0));
    let e: Expr<N> = Expr::var("x");
    assert_eq!(e.eval(&bindings), Some(N(3.0)));
}

#[test]
fn eval_unbound_var_returns_none() {
    let bindings: StrMap<BoundValue<String, N>> = StrMap::new();
    let e: Expr<N> = Expr::var("missing");
    assert_eq!(e.eval(&bindings), None);
}

#[test]
fn eval_node_bound_var_returns_none() {
    let mut bindings: StrMap<BoundValue<String, N>> = StrMap::new();
    bindings.insert("n".to_string(), BoundValue::Node("alice".to_string()));
    let e: Expr<N> = Expr::var("n");
    assert_eq!(e.eval(&bindings), None);
}

#[test]
fn eval_addition() {
    let mut bindings = StrMap::new();
    bindings.insert("x".to_string(), b(3.0));
    let e: Expr<N> = Expr::bin(BinOp::Add, Expr::var("x"), Expr::lit(N(5.0)));
    assert_eq!(e.eval(&bindings), Some(N(8.0)));
}

#[test]
fn eval_precedence_is_explicit_via_tree_shape() {
    // (?x + 1) * 2 = 8 when x=3
    let mut bindings = StrMap::new();
    bindings.insert("x".to_string(), b(3.0));
    let e: Expr<N> = Expr::bin(
        BinOp::Mul,
        Expr::bin(BinOp::Add, Expr::var("x"), Expr::lit(N(1.0))),
        Expr::lit(N(2.0)),
    );
    assert_eq!(e.eval(&bindings), Some(N(8.0)));
}

#[test]
fn eval_division_by_zero_returns_none() {
    let bindings: StrMap<BoundValue<String, N>> = StrMap::new();
    let e: Expr<N> = Expr::bin(BinOp::Div, Expr::lit(N(1.0)), Expr::lit(N(0.0)));
    assert_eq!(e.eval(&bindings), None);
}

#[test]
fn vars_lists_all_var_references() {
    let e: Expr<N> = Expr::bin(
        BinOp::Add,
        Expr::var("a"),
        Expr::bin(BinOp::Sub, Expr::var("b"), Expr::lit(N(1.0))),
    );
    assert_eq!(e.vars(), vec!["a", "b"]);
}

#[test]
fn map_transforms_literals_only() {
    let e: Expr<N> = Expr::bin(BinOp::Add, Expr::var("x"), Expr::lit(N(2.0)));
    let mapped: Expr<f64> = e.map(&|n: &N| n.0);
    match mapped {
        Expr::BinOp(BinOp::Add, l, r) => {
            assert!(matches!(*l, Expr::Var(ref s) if s == "x"));
            assert!(matches!(*r, Expr::Literal(v) if v == 2.0));
        }
        _ => panic!("expected BinOp"),
    }
}

#[test]
fn rename_vars_renames_only_unmatched_names() {
    let mut e: Expr<N> = Expr::bin(
        BinOp::Add,
        Expr::var("anchor"),
        Expr::bin(BinOp::Sub, Expr::var("shared"), Expr::lit(N(1.0))),
    );
    let shared = std::collections::HashSet::from(["shared"]);
    e.rename_vars(&|name: &str| {
        if shared.contains(name) {
            None
        } else {
            Some(format!("a_{name}"))
        }
    });
    // anchor → a_anchor; shared stays; literal untouched
    match e {
        Expr::BinOp(BinOp::Add, l, r) => {
            assert!(matches!(*l, Expr::Var(ref s) if s == "a_anchor"));
            match *r {
                Expr::BinOp(BinOp::Sub, ll, _) => {
                    assert!(matches!(*ll, Expr::Var(ref s) if s == "shared"));
                }
                _ => panic!("expected inner Sub"),
            }
        }
        _ => panic!("expected outer Add"),
    }
}

#[test]
fn string_values_have_no_arithmetic() {
    let e: Expr<String> = Expr::bin(BinOp::Add, Expr::lit("a".to_string()), Expr::lit("b".to_string()));
    let bindings: StrMap<BoundValue<String, String>> = StrMap::new();
    assert_eq!(e.eval(&bindings), None);
}

#[test]
fn subtraction_and_unbound_operand() {
    let mut bindings = StrMap::new();
    bindings.insert("x".to_string(), b(10.0));
    let e: Expr<N> = Expr::bin(BinOp::Sub, Expr::var("x"), Expr::lit(N(4.0)));
    assert_eq!(e.eval(&bindings), Some(N(6.0)));
    let f: Expr<N> = Expr::bin(BinOp::Sub, Expr::var("y"), Expr::lit(N(4.0)));
    assert_eq!(f.eval(&bindings), None);
}
