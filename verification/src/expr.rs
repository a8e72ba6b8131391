//! Expression language for computed pattern bindings (`let`).
//!
//! `Expr<V>` is a small arithmetic AST evaluated against a binding map to
//! produce a derived `V`. The arithmetic itself belongs to the value type,
//! through [`ArithmeticValue`].

use crate::datasource::clone_exact;
use crate::strmap::StrMap;
use crate::types::BoundValue;
use vstd::prelude::*;

verus! {

/// Binary arithmetic operator.
#[derive(Debug, Clone, Copy, PartialEq, Eq, Structural, Hash)]
pub enum BinOp {
    Add,
    Sub,
    Mul,
    Div,
}

/// An expression producing a `V` from bound variables and literals.
#[derive(Debug, PartialEq)]
pub enum Expr<V> {
    /// A literal value.
    Literal(V),
    /// Reference to a bound variable. Evaluates to that variable's value if
    /// it is bound to a `BoundValue::Value`; fails if unbound or bound to a node.
    Var(String),
    /// Binary operation. Evaluates left and right, then applies the operator
    /// through `ArithmeticValue`.
    BinOp(BinOp, Box<Expr<V>>, Box<Expr<V>>),
}

/// A named expression evaluated after a stage's clauses match. The result is
/// inserted into the bindings map under `name`.
#[derive(Debug, Clone, PartialEq)]
pub struct ComputedBinding<V> {
    pub name: String,
    pub expr: Expr<V>,
}

/// Value types that support arithmetic. Each operation returns `None` for
/// unsupported operand combinations or numeric failures (e.g. division by zero).
/// Each operation is described by a specification function of the same name:
/// an implementation computes what that function says. A verified
/// implementation defines those functions; their default bodies name no
/// particular answer.
pub trait ArithmeticValue: Sized {
    /// What `try_add` returns.
    open spec fn add_spec(&self, other: &Self) -> Option<Self> {
        vstd::pervasive::arbitrary()
    }

    /// What `try_sub` returns.
    open spec fn sub_spec(&self, other: &Self) -> Option<Self> {
        vstd::pervasive::arbitrary()
    }

    /// What `try_mul` returns.
    open spec fn mul_spec(&self, other: &Self) -> Option<Self> {
        vstd::pervasive::arbitrary()
    }

    /// What `try_div` returns.
    open spec fn div_spec(&self, other: &Self) -> Option<Self> {
        vstd::pervasive::arbitrary()
    }

    fn try_add(&self, other: &Self) -> (r: Option<Self>)
        ensures
            r == self.add_spec(other);

    fn try_sub(&self, other: &Self) -> (r: Option<Self>)
        ensures
            r == self.sub_spec(other);

    fn try_mul(&self, other: &Self) -> (r: Option<Self>)
        ensures
            r == self.mul_spec(other);

    fn try_div(&self, other: &Self) -> (r: Option<Self>)
        ensures
            r == self.div_spec(other);
}

/// The result of an operation on two operand results: `None` when either is
/// `None`, else the operator applied to the two values.
pub open spec fn combine<V: ArithmeticValue>(op: BinOp, a: Option<V>, c: Option<V>) -> Option<V> {
    match (a, c) {
        (Some(x), Some(y)) => apply_op(op, x, y),
        _ => None,
    }
}

/// The operator `op` applied to `x` and `y` through the value type's arithmetic.
pub open spec fn apply_op<V: ArithmeticValue>(op: BinOp, x: V, y: V) -> Option<V> {
    match op {
        BinOp::Add => x.add_spec(&y),
        BinOp::Sub => x.sub_spec(&y),
        BinOp::Mul => x.mul_spec(&y),
        BinOp::Div => x.div_spec(&y),
    }
}

/// `String` carries no arithmetic: every operation fails, so a `let` over
/// string values fails the binding.
impl ArithmeticValue for String {
    open spec fn add_spec(&self, other: &Self) -> Option<Self> {
        None
    }

    open spec fn sub_spec(&self, other: &Self) -> Option<Self> {
        None
    }

    open spec fn mul_spec(&self, other: &Self) -> Option<Self> {
        None
    }

    open spec fn div_spec(&self, other: &Self) -> Option<Self> {
        None
    }

    fn try_add(&self, other: &Self) -> (r: Option<Self>) {
        None
    }

    fn try_sub(&self, other: &Self) -> (r: Option<Self>) {
        None
    }

    fn try_mul(&self, other: &Self) -> (r: Option<Self>) {
        None
    }

    fn try_div(&self, other: &Self) -> (r: Option<Self>) {
        None
    }
}

impl<V> Expr<V> {
    /// The variable names the expression refers to, left to right.
    pub open spec fn var_names(self) -> Seq<Seq<char>>
        decreases self,
    {
        match self {
            Expr::Literal(_) => Seq::empty(),
            Expr::Var(s) => seq![s@],
            Expr::BinOp(_, l, r) => l.var_names() + r.var_names(),
        }
    }

    /// Every variable the expression refers to is bound to a data value.
    pub open spec fn vars_bound_to_values<N>(self, b: Map<Seq<char>, BoundValue<N, V>>) -> bool
        decreases self,
    {
        match self {
            Expr::Literal(_) => true,
            Expr::Var(s) => b.contains_key(s@) && b[s@] is Value,
            Expr::BinOp(_, l, r) => l.vars_bound_to_values(b) && r.vars_bound_to_values(b),
        }
    }

    /// `f` may be called on every literal of the expression.
    pub open spec fn map_callable<V2, F: Fn(&V) -> V2>(self, f: F) -> bool
        decreases self,
    {
        match self {
            Expr::Literal(v) => call_requires(f, (&v,)),
            Expr::Var(_) => true,
            Expr::BinOp(_, l, r) => l.map_callable(f) && r.map_callable(f),
        }
    }

    /// `r` has the shape of `self`, each literal `v` replaced by something `f`
    /// may return for `v`, names and operators kept.
    pub open spec fn mapped_by<V2, F: Fn(&V) -> V2>(self, f: F, r: Expr<V2>) -> bool
        decreases self,
    {
        match (self, r) {
            (Expr::Literal(a), Expr::Literal(b)) => call_ensures(f, (&a,), b),
            (Expr::Var(a), Expr::Var(b)) => a@ == b@,
            (Expr::BinOp(o1, l1, r1), Expr::BinOp(o2, l2, r2)) => o1 == o2 && l1.mapped_by(f, *l2)
                && r1.mapped_by(f, *r2),
            _ => false,
        }
    }

    /// `f` may be called on every name.
    pub open spec fn rename_callable<F: Fn(&str) -> Option<String>>(f: F) -> bool {
        forall|x: &str| call_requires(f, (x,))
    }

    /// `r` has the shape of `self`; each name `s` becomes what `f` returned for
    /// it, or stays `s` where `f` returned `None`; literals and operators are kept.
    pub open spec fn renamed_by<F: Fn(&str) -> Option<String>>(self, f: F, r: Expr<V>) -> bool
        decreases self,
    {
        match (self, r) {
            (Expr::Literal(a), Expr::Literal(b)) => a == b,
            (Expr::Var(s), Expr::Var(t)) => exists|x: &str, o: Option<String>|
                #![trigger call_ensures(f, (x,), o)]
                x@ == s@ && call_ensures(f, (x,), o) && match o {
                    Some(n) => t@ == n@,
                    None => t@ == s@,
                },
            (Expr::BinOp(o1, l1, r1), Expr::BinOp(o2, l2, r2)) => o1 == o2 && l1.renamed_by(f, *l2)
                && r1.renamed_by(f, *r2),
            _ => false,
        }
    }

    /// Convenience constructor for `Expr::Var`.
    pub fn var(name: &str) -> (r: Self)
        ensures
            r matches Expr::Var(s) && s@ == name@,
    {
        Expr::Var(name.to_owned())
    }

    /// Convenience constructor for `Expr::Literal`.
    pub fn lit(v: V) -> (r: Self)
        ensures
            r == Expr::Literal(v),
    {
        Expr::Literal(v)
    }

    /// Convenience constructor for binary ops.
    pub fn bin(op: BinOp, left: Expr<V>, right: Expr<V>) -> (r: Self)
        ensures
            r == Expr::BinOp(op, Box::new(left), Box::new(right)),
    {
        Expr::BinOp(op, Box::new(left), Box::new(right))
    }

    /// Transform the value type.
    pub fn map<V2, F: Fn(&V) -> V2>(&self, f: &F) -> (r: Expr<V2>)
        requires
            self.map_callable(*f),
        ensures
            self.mapped_by(*f, r),
        decreases self,
    {
        match self {
            Expr::Literal(v) => Expr::Literal(f(v)),
            Expr::Var(s) => Expr::Var(s.clone()),
            Expr::BinOp(op, l, r) => {
                let lm = l.map(f);
                let rm = r.map(f);
                Expr::BinOp(*op, Box::new(lm), Box::new(rm))
            },
        }
    }

    /// All variable names referenced in this expression, left to right.
    pub fn vars(&self) -> (r: Vec<&str>)
        ensures
            r@.map_values(|s: &str| s@) == self.var_names(),
    {
        let mut out: Vec<&str> = Vec::new();
        self.collect_vars(&mut out);
        proof {
            assert(Seq::<&str>::empty().map_values(|s: &str| s@) =~= Seq::<Seq<char>>::empty());
        }
        out
    }

    fn collect_vars<'a>(&'a self, out: &mut Vec<&'a str>)
        ensures
            final(out)@.map_values(|s: &str| s@) == old(out)@.map_values(|s: &str| s@)
                + self.var_names(),
        decreases self,
    {
        match self {
            Expr::Literal(_) => {
                assert(old(out)@.map_values(|s: &str| s@) + Seq::<Seq<char>>::empty()
                    =~= old(out)@.map_values(|s: &str| s@));
            },
            Expr::Var(s) => {
                let x = s.as_str();
                out.push(x);
                assert(final(out)@.map_values(|s: &str| s@) =~= old(out)@.map_values(|s: &str| s@)
                    + seq![s@]) by {
                    assert(final(out)@ == old(out)@.push(x));
                };
            },
            Expr::BinOp(_, l, r) => {
                let ghost o0 = out@.map_values(|s: &str| s@);
                l.collect_vars(out);
                r.collect_vars(out);
                assert(o0 + l.var_names() + r.var_names() =~= o0 + (l.var_names()
                    + r.var_names()));
            },
        }
    }

    /// Rename every `Var` reference using `f`: it returns `Some(new_name)` to
    /// rename or `None` to keep the name.
    pub fn rename_vars<F: Fn(&str) -> Option<String>>(&mut self, f: &F)
        requires
            Self::rename_callable(*f),
        ensures
            old(self).renamed_by(*f, *final(self)),
    {
        let mut tmp: Expr<V> = Expr::Var(String::new());
        std::mem::swap(&mut tmp, self);
        let renamed = tmp.renamed(f);
        *self = renamed;
    }

    fn renamed<F: Fn(&str) -> Option<String>>(self, f: &F) -> (r: Expr<V>)
        requires
            Self::rename_callable(*f),
        ensures
            self.renamed_by(*f, r),
        decreases self,
    {
        match self {
            Expr::Literal(v) => Expr::Literal(v),
            Expr::Var(s) => {
                let x = s.as_str();
                let o = f(x);
                match o {
                    Some(n) => Expr::Var(n),
                    None => Expr::Var(s),
                }
            },
            Expr::BinOp(op, l, r) => {
                let lr = (*l).renamed(f);
                let rr = (*r).renamed(f);
                Expr::BinOp(op, Box::new(lr), Box::new(rr))
            },
        }
    }
}

impl<V: Clone> Clone for Expr<V> {
    /// A copy of the expression tree, each literal cloned.
    fn clone(&self) -> (r: Self)
        ensures
            self.copied_to(r),
        decreases self,
    {
        match self {
            Expr::Literal(v) => Expr::Literal(v.clone()),
            Expr::Var(s) => Expr::Var(s.clone()),
            Expr::BinOp(op, l, r) => {
                let lc = Expr::clone(&**l);
                let rc = Expr::clone(&**r);
                Expr::BinOp(*op, Box::new(lc), Box::new(rc))
            },
        }
    }
}

impl<V: Clone> Expr<V> {
    /// `r` has the shape, names and operators of `self`, each literal a clone.
    pub open spec fn copied_to(self, r: Expr<V>) -> bool
        decreases self,
    {
        match (self, r) {
            (Expr::Literal(a), Expr::Literal(b)) => cloned(a, b),
            (Expr::Var(a), Expr::Var(b)) => a@ == b@,
            (Expr::BinOp(o1, l1, r1), Expr::BinOp(o2, l2, r2)) => o1 == o2 && l1.copied_to(*l2)
                && r1.copied_to(*r2),
            _ => false,
        }
    }
}

impl<V: ArithmeticValue + Clone> Expr<V> {
    /// `r` is a result of evaluating the expression against `b`: a literal
    /// gives a clone of itself, a variable a clone of the data value bound to
    /// it (`None` when unbound or bound to a node), an operation the operator
    /// applied to its operands' results (`None` when either is `None`); the
    /// right operand is evaluated only when the left one gave a value.
    pub open spec fn evaluates_to<N>(self, b: Map<Seq<char>, BoundValue<N, V>>, r: Option<V>) -> bool
        decreases self,
    {
        match self {
            Expr::Literal(v) => r matches Some(x) && cloned(v, x),
            Expr::Var(name) => if b.contains_key(name@) {
                match b[name@] {
                    BoundValue::Value(v) => r matches Some(x) && cloned(v, x),
                    BoundValue::Node(_) => r is None,
                }
            } else {
                r is None
            },
            Expr::BinOp(op, l, rt) => exists|a: Option<V>, c: Option<V>|
                #[trigger] combine(op, a, c) == r && l.evaluates_to(b, a) && (a is Some ==> rt.evaluates_to(b, c)),
        }
    }

    /// The value of the expression over `b`, taking each literal and bound
    /// value as it is: `None` when a variable is unbound or bound to a node,
    /// or an operation gives `None`.
    pub open spec fn value_in<N>(self, b: Map<Seq<char>, BoundValue<N, V>>) -> Option<V>
        decreases self,
    {
        match self {
            Expr::Literal(v) => Some(v),
            Expr::Var(name) => if b.contains_key(name@) {
                match b[name@] {
                    BoundValue::Value(v) => Some(v),
                    BoundValue::Node(_) => None,
                }
            } else {
                None
            },
            Expr::BinOp(op, l, rt) => combine(op, l.value_in(b), rt.value_in(b)),
        }
    }

    /// When values clone exactly, the result of an evaluation is the value
    /// of the expression.
    pub proof fn lemma_evaluates_to_value<N>(self, b: Map<Seq<char>, BoundValue<N, V>>, r: Option<V>)
        requires
            clone_exact::<V>(),
            self.evaluates_to(b, r),
        ensures
            r == self.value_in(b),
        decreases self,
    {
        match self {
            Expr::BinOp(op, l, rt) => {
                let (a, c) = choose|a: Option<V>, c: Option<V>|
                    #[trigger] combine(op, a, c) == r && l.evaluates_to(b, a) && (a is Some ==> rt.evaluates_to(b, c));
                l.lemma_evaluates_to_value(b, a);
                if a is Some {
                    rt.lemma_evaluates_to_value(b, c);
                }
            },
            _ => {},
        }
    }

    /// Evaluate against a binding map. Returns `None` if any referenced variable
    /// is unbound or bound to a node, or if any operation returns `None`; what
    /// an operation computes is the value type's `ArithmeticValue` impl.
    pub fn eval<N>(&self, bindings: &StrMap<BoundValue<N, V>>) -> (r: Option<V>)
        ensures
            !self.vars_bound_to_values(bindings@) ==> r is None,
            self.evaluates_to(bindings@, r),
            clone_exact::<V>() ==> r == self.value_in(bindings@),
        decreases self,
    {
        match self {
            Expr::Literal(v) => Some(v.clone()),
            Expr::Var(name) => match bindings.get(name.as_str()) {
                Some(BoundValue::Value(v)) => Some(v.clone()),
                _ => None,
            },
            Expr::BinOp(op, l, r) => {
                let lo = l.eval(bindings);
                assert(l.evaluates_to(bindings@, lo));
                let lv = match lo {
                    Some(x) => x,
                    None => {
                        assert(combine(*op, lo, None::<V>) == None::<V>);
                        return None;
                    },
                };
                let ro = r.eval(bindings);
                assert(r.evaluates_to(bindings@, ro));
                let rv = match ro {
                    Some(x) => x,
                    None => {
                        assert(combine(*op, lo, ro) == None::<V>);
                        return None;
                    },
                };
                let out = match op {
                    BinOp::Add => lv.try_add(&rv),
                    BinOp::Sub => lv.try_sub(&rv),
                    BinOp::Mul => lv.try_mul(&rv),
                    BinOp::Div => lv.try_div(&rv),
                };
                assert(combine(*op, lo, ro) == out);
                out
            },
        }
    }
}

impl<V> ComputedBinding<V> {
    /// A named expression.
    pub fn new(name: &str, expr: Expr<V>) -> (r: Self)
        ensures
            r.name@ == name@,
            r.expr == expr,
    {
        ComputedBinding { name: name.to_owned(), expr }
    }

    /// Transform the value type.
    pub fn map<V2, F: Fn(&V) -> V2>(&self, f: &F) -> (r: ComputedBinding<V2>)
        requires
            self.expr.map_callable(*f),
        ensures
            r.name@ == self.name@,
            self.expr.mapped_by(*f, r.expr),
    {
        ComputedBinding { name: self.name.clone(), expr: self.expr.map(f) }
    }
}

} // verus!
