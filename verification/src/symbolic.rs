use crate::scalar::{abs_int, fits_i64, lemma_pow10_add, lemma_pow10_pos, mag_of, pow10, Scalar};
use vstd::prelude::*;

verus! {

/// Mathematical model of an expression tree, used throughout the
/// specifications: names are character sequences, argument lists are
/// sequences, constants are exact decimal scalars.
#[verifier::ext_equal]
pub enum ExprModel {
    Variable(Seq<char>),
    Constant(Scalar),
    Add(Box<ExprModel>, Box<ExprModel>),
    Subtract(Box<ExprModel>, Box<ExprModel>),
    Multiply(Box<ExprModel>, Box<ExprModel>),
    Divide(Box<ExprModel>, Box<ExprModel>),
    Power(Box<ExprModel>, Box<ExprModel>),
    Function(Seq<char>, Seq<ExprModel>),
    Zero,
    One,
}

/// A symbolic expression: an immutable owned tree over variables, exact
/// decimal constants, the four arithmetic operators, powers, named
/// functions, and the two sentinels that make identity simplification
/// cheap.
#[derive(Debug, PartialEq)]
pub enum SymbolicExpr {
    Variable(String),
    Constant(Scalar),
    Add(Box<SymbolicExpr>, Box<SymbolicExpr>),
    Subtract(Box<SymbolicExpr>, Box<SymbolicExpr>),
    Multiply(Box<SymbolicExpr>, Box<SymbolicExpr>),
    Divide(Box<SymbolicExpr>, Box<SymbolicExpr>),
    Power(Box<SymbolicExpr>, Box<SymbolicExpr>),
    Function(String, Vec<SymbolicExpr>),
    Zero,
    One,
}

pub open spec fn expr_model(e: SymbolicExpr) -> ExprModel
    decreases e,
{
    match e {
        SymbolicExpr::Variable(name) => ExprModel::Variable(name@),
        SymbolicExpr::Constant(c) => ExprModel::Constant(c),
        SymbolicExpr::Add(l, r) => ExprModel::Add(
            Box::new(expr_model(*l)),
            Box::new(expr_model(*r)),
        ),
        SymbolicExpr::Subtract(l, r) => ExprModel::Subtract(
            Box::new(expr_model(*l)),
            Box::new(expr_model(*r)),
        ),
        SymbolicExpr::Multiply(l, r) => ExprModel::Multiply(
            Box::new(expr_model(*l)),
            Box::new(expr_model(*r)),
        ),
        SymbolicExpr::Divide(l, r) => ExprModel::Divide(
            Box::new(expr_model(*l)),
            Box::new(expr_model(*r)),
        ),
        SymbolicExpr::Power(b, x) => ExprModel::Power(
            Box::new(expr_model(*b)),
            Box::new(expr_model(*x)),
        ),
        SymbolicExpr::Function(name, args) => ExprModel::Function(name@, exprs_model(args@)),
        SymbolicExpr::Zero => ExprModel::Zero,
        SymbolicExpr::One => ExprModel::One,
    }
}

pub open spec fn exprs_model(s: Seq<SymbolicExpr>) -> Seq<ExprModel>
    decreases s,
{
    if s.len() == 0 {
        Seq::empty()
    } else {
        exprs_model(s.drop_last()).push(expr_model(s.last()))
    }
}

impl View for SymbolicExpr {
    type V = ExprModel;

    open spec fn view(&self) -> ExprModel {
        expr_model(*self)
    }
}

pub proof fn lemma_exprs_model_push(s: Seq<SymbolicExpr>, e: SymbolicExpr)
    ensures
        exprs_model(s.push(e)) == exprs_model(s).push(expr_model(e)),
{
    assert(s.push(e).drop_last() =~= s);
    assert(s.push(e).last() == e);
}

pub proof fn lemma_exprs_model_len(s: Seq<SymbolicExpr>)
    ensures
        exprs_model(s).len() == s.len(),
    decreases s,
{
    if s.len() > 0 {
        lemma_exprs_model_len(s.drop_last());
    }
}

/// Element-wise reading of the model of an argument list.
pub proof fn lemma_exprs_model_index(s: Seq<SymbolicExpr>, i: int)
    requires
        0 <= i < s.len(),
    ensures
        exprs_model(s).len() == s.len(),
        exprs_model(s)[i] == expr_model(s[i]),
    decreases s,
{
    lemma_exprs_model_len(s);
    if i < s.len() - 1 {
        lemma_exprs_model_index(s.drop_last(), i);
    }
}

/// Updating one element updates the model pointwise.
pub proof fn lemma_exprs_model_update(s: Seq<SymbolicExpr>, i: int, e: SymbolicExpr)
    requires
        0 <= i < s.len(),
    ensures
        exprs_model(s.update(i, e)) =~= exprs_model(s).update(i, expr_model(e)),
    decreases s,
{
    lemma_exprs_model_len(s);
    lemma_exprs_model_len(s.update(i, e));
    if i < s.len() - 1 {
        assert(s.update(i, e).drop_last() =~= s.drop_last().update(i, e));
        assert(s.update(i, e).last() == s.last());
        lemma_exprs_model_update(s.drop_last(), i, e);
        lemma_exprs_model_len(s.drop_last());
        assert forall|k: int| 0 <= k < s.len() implies exprs_model(s.update(i, e))[k]
            == exprs_model(s).update(i, expr_model(e))[k] by {
            if k < s.len() - 1 {
                lemma_exprs_model_index(s.drop_last(), k);
            }
        }
    } else {
        assert(s.update(i, e).drop_last() =~= s.drop_last());
        assert(s.update(i, e).last() == e);
    }
}

fn clone_args(v: &Vec<SymbolicExpr>) -> (r: Vec<SymbolicExpr>)
    ensures
        exprs_model(r@) == exprs_model(v@),
    decreases v@,
{
    let mut r: Vec<SymbolicExpr> = Vec::new();
    let mut i: usize = 0;
    assert(r@ =~= v@.subrange(0, 0));
    while i < v.len()
        invariant
            i <= v@.len(),
            exprs_model(r@) == exprs_model(v@.subrange(0, i as int)),
        decreases v@.len() - i,
    {
        assert(decreases_to!(v@ => v@[i as int]));
        let c = v[i].clone_rec();
        let ghost old_r = r@;
        r.push(c);
        proof {
            lemma_exprs_model_push(old_r, c);
            assert(v@.subrange(0, i + 1).drop_last() =~= v@.subrange(0, i as int));
            assert(v@.subrange(0, i + 1).last() == v@[i as int]);
        }
        i = i + 1;
    }
    assert(v@.subrange(0, v@.len() as int) =~= v@);
    r
}

impl SymbolicExpr {
    /// Structure-preserving deep copy; the model is kept exactly.
    pub fn clone_rec(&self) -> (r: Self)
        ensures
            r@ == self@,
        decreases *self,
    {
        match self {
            SymbolicExpr::Variable(name) => SymbolicExpr::Variable(name.clone()),
            SymbolicExpr::Constant(c) => SymbolicExpr::Constant(*c),
            SymbolicExpr::Add(l, r) => SymbolicExpr::Add(
                Box::new((**l).clone_rec()),
                Box::new((**r).clone_rec()),
            ),
            SymbolicExpr::Subtract(l, r) => SymbolicExpr::Subtract(
                Box::new((**l).clone_rec()),
                Box::new((**r).clone_rec()),
            ),
            SymbolicExpr::Multiply(l, r) => SymbolicExpr::Multiply(
                Box::new((**l).clone_rec()),
                Box::new((**r).clone_rec()),
            ),
            SymbolicExpr::Divide(l, r) => SymbolicExpr::Divide(
                Box::new((**l).clone_rec()),
                Box::new((**r).clone_rec()),
            ),
            SymbolicExpr::Power(b, x) => SymbolicExpr::Power(
                Box::new((**b).clone_rec()),
                Box::new((**x).clone_rec()),
            ),
            SymbolicExpr::Function(name, args) => SymbolicExpr::Function(
                name.clone(),
                clone_args(args),
            ),
            SymbolicExpr::Zero => SymbolicExpr::Zero,
            SymbolicExpr::One => SymbolicExpr::One,
        }
    }

    /// True exactly for the `Zero` sentinel and a constant of value zero;
    /// no other expression is ever treated as zero.
    pub fn is_zero(&self) -> (r: bool)
        ensures
            r == is_zero_model(self@),
    {
        match self {
            SymbolicExpr::Zero => true,
            SymbolicExpr::Constant(c) => c.mantissa == 0,
            _ => false,
        }
    }
}

impl Clone for SymbolicExpr {
    fn clone(&self) -> (r: Self)
        ensures
            r@ == self@,
    {
        self.clone_rec()
    }
}

/// The `Zero` sentinel or a constant of value zero.
pub open spec fn is_zero_model(e: ExprModel) -> bool {
    match e {
        ExprModel::Zero => true,
        ExprModel::Constant(c) => c.mantissa == 0,
        _ => false,
    }
}

/// One bottom-up simplification pass: constant folding plus the identities
/// `x+0=x`, `x-0=x`, `x*0=0`, `x*1=x`, `0/x=0`, `x/1=x`, `x^0=1`, `x^1=x`,
/// `0^n=0`, `1^n=1`.  Only the sentinels count as 0 and 1 here; the pass is
/// not a fixpoint, and function arguments are left untouched.
pub open spec fn simp_model(e: ExprModel) -> ExprModel
    decreases e,
{
    match e {
        ExprModel::Add(l0, r0) => {
            let sl = simp_model(*l0);
            let sr = simp_model(*r0);
            match (sl, sr) {
                (ExprModel::Zero, x) => x,
                (x, ExprModel::Zero) => x,
                (ExprModel::Constant(a), ExprModel::Constant(b)) => {
                    match crate::scalar::add_model(a, b) {
                        Some(c) => ExprModel::Constant(c),
                        None => ExprModel::Add(
                            Box::new(ExprModel::Constant(a)),
                            Box::new(ExprModel::Constant(b)),
                        ),
                    }
                },
                (x, y) => ExprModel::Add(Box::new(x), Box::new(y)),
            }
        },
        ExprModel::Subtract(l0, r0) => {
            let sl = simp_model(*l0);
            let sr = simp_model(*r0);
            match (sl, sr) {
                (x, ExprModel::Zero) => x,
                (ExprModel::Zero, x) => ExprModel::Subtract(
                    Box::new(ExprModel::Zero),
                    Box::new(x),
                ),
                (ExprModel::Constant(a), ExprModel::Constant(b)) => {
                    match crate::scalar::sub_model(a, b) {
                        Some(c) => ExprModel::Constant(c),
                        None => ExprModel::Subtract(
                            Box::new(ExprModel::Constant(a)),
                            Box::new(ExprModel::Constant(b)),
                        ),
                    }
                },
                (x, y) => ExprModel::Subtract(Box::new(x), Box::new(y)),
            }
        },
        ExprModel::Multiply(l0, r0) => {
            let sl = simp_model(*l0);
            let sr = simp_model(*r0);
            match (sl, sr) {
                (ExprModel::Zero, _) => ExprModel::Zero,
                (_, ExprModel::Zero) => ExprModel::Zero,
                (ExprModel::One, x) => x,
                (x, ExprModel::One) => x,
                (ExprModel::Constant(a), ExprModel::Constant(b)) => {
                    match crate::scalar::mul_model(a, b) {
                        Some(c) => ExprModel::Constant(c),
                        None => ExprModel::Multiply(
                            Box::new(ExprModel::Constant(a)),
                            Box::new(ExprModel::Constant(b)),
                        ),
                    }
                },
                (x, y) => ExprModel::Multiply(Box::new(x), Box::new(y)),
            }
        },
        ExprModel::Divide(l0, r0) => {
            let sl = simp_model(*l0);
            let sr = simp_model(*r0);
            match (sl, sr) {
                (ExprModel::Zero, _) => ExprModel::Zero,
                (x, ExprModel::One) => x,
                (ExprModel::Constant(a), ExprModel::Constant(b)) => {
                    match crate::scalar::div_model(a, b) {
                        Some(c) => ExprModel::Constant(c),
                        None => ExprModel::Divide(
                            Box::new(ExprModel::Constant(a)),
                            Box::new(ExprModel::Constant(b)),
                        ),
                    }
                },
                (x, y) => ExprModel::Divide(Box::new(x), Box::new(y)),
            }
        },
        ExprModel::Power(b0, x0) => {
            let sb = simp_model(*b0);
            let sx = simp_model(*x0);
            match (sb, sx) {
                (_, ExprModel::Zero) => ExprModel::One,
                (x, ExprModel::One) => x,
                (ExprModel::Zero, _) => ExprModel::Zero,
                (ExprModel::One, _) => ExprModel::One,
                (ExprModel::Constant(a), ExprModel::Constant(b)) => {
                    match crate::scalar::pow_model(a, b) {
                        Some(c) => ExprModel::Constant(c),
                        None => ExprModel::Power(
                            Box::new(ExprModel::Constant(a)),
                            Box::new(ExprModel::Constant(b)),
                        ),
                    }
                },
                (x, y) => ExprModel::Power(Box::new(x), Box::new(y)),
            }
        },
        _ => e,
    }
}

/// One simplification pass is idempotent: simplifying an already
/// simplified expression returns it unchanged, for every expression.
pub proof fn lemma_simplify_idempotent(e: ExprModel)
    ensures
        simp_model(simp_model(e)) == simp_model(e),
    decreases e,
{
    match e {
        ExprModel::Add(l0, r0) => {
            lemma_simplify_idempotent(*l0);
            lemma_simplify_idempotent(*r0);
        },
        ExprModel::Subtract(l0, r0) => {
            lemma_simplify_idempotent(*l0);
            lemma_simplify_idempotent(*r0);
        },
        ExprModel::Multiply(l0, r0) => {
            lemma_simplify_idempotent(*l0);
            lemma_simplify_idempotent(*r0);
        },
        ExprModel::Divide(l0, r0) => {
            lemma_simplify_idempotent(*l0);
            lemma_simplify_idempotent(*r0);
        },
        ExprModel::Power(b0, x0) => {
            lemma_simplify_idempotent(*b0);
            lemma_simplify_idempotent(*x0);
        },
        _ => {},
    }
}

pub open spec fn scalar_one() -> Scalar {
    Scalar { mantissa: 1, scale: 0 }
}

pub open spec fn scalar_two() -> Scalar {
    Scalar { mantissa: 2, scale: 0 }
}

/// The exponent brought down by the power rule: `n - 1`, folded when the
/// difference is representable and kept symbolic otherwise.
pub open spec fn exp_minus_one(n: Scalar) -> ExprModel {
    match crate::scalar::sub_model(n, scalar_one()) {
        Some(c) => ExprModel::Constant(c),
        None => ExprModel::Subtract(
            Box::new(ExprModel::Constant(n)),
            Box::new(ExprModel::Constant(scalar_one())),
        ),
    }
}

/// Symbolic partial derivative with respect to `var`: linear over sums and
/// differences, product and quotient rules, the power rule only for a
/// constant exponent (a non-constant exponent differentiates to `Zero`, a
/// deliberate restriction), and the chain rule only for `sin` and `cos`;
/// every other function is treated as locally constant.
pub open spec fn deriv_model(e: ExprModel, var: Seq<char>) -> ExprModel
    decreases e,
{
    match e {
        ExprModel::Variable(v) => if v == var {
            ExprModel::One
        } else {
            ExprModel::Zero
        },
        ExprModel::Constant(_) => ExprModel::Zero,
        ExprModel::Add(l, r) => ExprModel::Add(
            Box::new(deriv_model(*l, var)),
            Box::new(deriv_model(*r, var)),
        ),
        ExprModel::Subtract(l, r) => ExprModel::Subtract(
            Box::new(deriv_model(*l, var)),
            Box::new(deriv_model(*r, var)),
        ),
        ExprModel::Multiply(l, r) => ExprModel::Add(
            Box::new(ExprModel::Multiply(Box::new(deriv_model(*l, var)), r)),
            Box::new(ExprModel::Multiply(l, Box::new(deriv_model(*r, var)))),
        ),
        ExprModel::Divide(l, r) => ExprModel::Divide(
            Box::new(ExprModel::Subtract(
                Box::new(ExprModel::Multiply(Box::new(deriv_model(*l, var)), r)),
                Box::new(ExprModel::Multiply(l, Box::new(deriv_model(*r, var)))),
            )),
            Box::new(ExprModel::Power(r, Box::new(ExprModel::Constant(scalar_two())))),
        ),
        ExprModel::Power(b, x) => match *x {
            ExprModel::Constant(n) => ExprModel::Multiply(
                Box::new(ExprModel::Multiply(
                    Box::new(ExprModel::Constant(n)),
                    Box::new(ExprModel::Power(b, Box::new(exp_minus_one(n)))),
                )),
                Box::new(deriv_model(*b, var)),
            ),
            _ => ExprModel::Zero,
        },
        ExprModel::Function(name, args) => {
            if name == "sin"@ && args.len() == 1 {
                ExprModel::Multiply(
                    Box::new(ExprModel::Function("cos"@, args)),
                    Box::new(deriv_model(args[0], var)),
                )
            } else if name == "cos"@ && args.len() == 1 {
                ExprModel::Multiply(
                    Box::new(ExprModel::Subtract(
                        Box::new(ExprModel::Zero),
                        Box::new(ExprModel::Function("sin"@, args)),
                    )),
                    Box::new(deriv_model(args[0], var)),
                )
            } else {
                ExprModel::Zero
            }
        },
        ExprModel::Zero => ExprModel::Zero,
        ExprModel::One => ExprModel::Zero,
    }
}

/// The derivative of a variable is `One` with respect to itself and `Zero`
/// with respect to every other name.
pub proof fn lemma_derivative_of_variable(name: Seq<char>, var: Seq<char>)
    ensures
        name == var ==> deriv_model(ExprModel::Variable(name), var) == ExprModel::One,
        name != var ==> deriv_model(ExprModel::Variable(name), var) == ExprModel::Zero,
{
}

/// Character-wise string comparison.
pub fn str_eq(a: &str, b: &str) -> (r: bool)
    ensures
        r == (a@ == b@),
{
    let la = a.unicode_len();
    let lb = b.unicode_len();
    if la != lb {
        assert(a@ != b@);
        return false;
    }
    let mut i: usize = 0;
    while i < la
        invariant
            i <= la,
            la == a@.len(),
            la == b@.len(),
            forall|j: int| 0 <= j < i ==> a@[j] == b@[j],
        decreases la - i,
    {
        if a.get_char(i) != b.get_char(i) {
            assert(a@ != b@);
            return false;
        }
        i = i + 1;
    }
    proof {
        assert(a@ =~= b@);
    }
    true
}

impl SymbolicExpr {
    /// Symbolic partial derivative with respect to `var`; see `deriv_model`.
    pub fn derivative(&self, var: &str) -> (r: Self)
        ensures
            r@ == deriv_model(self@, var@),
        decreases *self,
    {
        proof {
            reveal_with_fuel(expr_model, 6);
        }
        match self {
            SymbolicExpr::Variable(v) => {
                if str_eq(v.as_str(), var) {
                    SymbolicExpr::One
                } else {
                    SymbolicExpr::Zero
                }
            },
            SymbolicExpr::Constant(_) => SymbolicExpr::Zero,
            SymbolicExpr::Add(l, r) => SymbolicExpr::Add(
                Box::new((**l).derivative(var)),
                Box::new((**r).derivative(var)),
            ),
            SymbolicExpr::Subtract(l, r) => SymbolicExpr::Subtract(
                Box::new((**l).derivative(var)),
                Box::new((**r).derivative(var)),
            ),
            SymbolicExpr::Multiply(l, r) => SymbolicExpr::Add(
                Box::new(SymbolicExpr::Multiply(
                    Box::new((**l).derivative(var)),
                    Box::new((**r).clone_rec()),
                )),
                Box::new(SymbolicExpr::Multiply(
                    Box::new((**l).clone_rec()),
                    Box::new((**r).derivative(var)),
                )),
            ),
            SymbolicExpr::Divide(l, r) => SymbolicExpr::Divide(
                Box::new(SymbolicExpr::Subtract(
                    Box::new(SymbolicExpr::Multiply(
                        Box::new((**l).derivative(var)),
                        Box::new((**r).clone_rec()),
                    )),
                    Box::new(SymbolicExpr::Multiply(
                        Box::new((**l).clone_rec()),
                        Box::new((**r).derivative(var)),
                    )),
                )),
                Box::new(SymbolicExpr::Power(
                    Box::new((**r).clone_rec()),
                    Box::new(SymbolicExpr::Constant(Scalar { mantissa: 2, scale: 0 })),
                )),
            ),
            SymbolicExpr::Power(b, x) => {
                match &**x {
                    SymbolicExpr::Constant(n) => {
                        let down = match n.try_sub(Scalar { mantissa: 1, scale: 0 }) {
                            Some(c) => SymbolicExpr::Constant(c),
                            None => SymbolicExpr::Subtract(
                                Box::new(SymbolicExpr::Constant(*n)),
                                Box::new(SymbolicExpr::Constant(Scalar { mantissa: 1, scale: 0 })),
                            ),
                        };
                        SymbolicExpr::Multiply(
                            Box::new(SymbolicExpr::Multiply(
                                Box::new(SymbolicExpr::Constant(*n)),
                                Box::new(SymbolicExpr::Power(
                                    Box::new((**b).clone_rec()),
                                    Box::new(down),
                                )),
                            )),
                            Box::new((**b).derivative(var)),
                        )
                    },
                    _ => SymbolicExpr::Zero,
                }
            },
            SymbolicExpr::Function(name, args) => {
                proof {
                    lemma_exprs_model_len(args@);
                }
                if str_eq(name.as_str(), "sin") && args.len() == 1 {
                    proof {
                        assert(decreases_to!(*self => args@[0]));
                        lemma_exprs_model_index(args@, 0);
                    }
                    SymbolicExpr::Multiply(
                        Box::new(SymbolicExpr::Function(String::from_str("cos"), clone_args(args))),
                        Box::new(args[0].derivative(var)),
                    )
                } else if str_eq(name.as_str(), "cos") && args.len() == 1 {
                    proof {
                        assert(decreases_to!(*self => args@[0]));
                        lemma_exprs_model_index(args@, 0);
                    }
                    SymbolicExpr::Multiply(
                        Box::new(SymbolicExpr::Subtract(
                            Box::new(SymbolicExpr::Zero),
                            Box::new(SymbolicExpr::Function(
                                String::from_str("sin"),
                                clone_args(args),
                            )),
                        )),
                        Box::new(args[0].derivative(var)),
                    )
                } else {
                    SymbolicExpr::Zero
                }
            },
            SymbolicExpr::Zero => SymbolicExpr::Zero,
            SymbolicExpr::One => SymbolicExpr::Zero,
        }
    }

    fn is_sent_zero(&self) -> (r: bool)
        ensures
            r == (self@ is Zero),
    {
        match self {
            SymbolicExpr::Zero => true,
            _ => false,
        }
    }

    fn is_sent_one(&self) -> (r: bool)
        ensures
            r == (self@ is One),
    {
        match self {
            SymbolicExpr::One => true,
            _ => false,
        }
    }

    /// One bottom-up simplification pass over the tree; see `simp_model`.
    /// Callers needing a full reduction must re-invoke until stable, though
    /// one extra pass never changes anything (`lemma_simplify_idempotent`).
    pub fn simplify(&self) -> (r: Self)
        ensures
            r@ == simp_model(self@),
        decreases *self,
    {
        match self {
            SymbolicExpr::Add(l, r) => {
                let sl = (**l).simplify();
                let sr = (**r).simplify();
                if sl.is_sent_zero() {
                    sr
                } else if sr.is_sent_zero() {
                    sl
                } else {
                    let folded = match (&sl, &sr) {
                        (SymbolicExpr::Constant(a), SymbolicExpr::Constant(b)) => a.try_add(*b),
                        _ => None,
                    };
                    match folded {
                        Some(c) => SymbolicExpr::Constant(c),
                        None => SymbolicExpr::Add(Box::new(sl), Box::new(sr)),
                    }
                }
            },
            SymbolicExpr::Subtract(l, r) => {
                let sl = (**l).simplify();
                let sr = (**r).simplify();
                if sr.is_sent_zero() {
                    sl
                } else if sl.is_sent_zero() {
                    SymbolicExpr::Subtract(Box::new(SymbolicExpr::Zero), Box::new(sr))
                } else {
                    let folded = match (&sl, &sr) {
                        (SymbolicExpr::Constant(a), SymbolicExpr::Constant(b)) => a.try_sub(*b),
                        _ => None,
                    };
                    match folded {
                        Some(c) => SymbolicExpr::Constant(c),
                        None => SymbolicExpr::Subtract(Box::new(sl), Box::new(sr)),
                    }
                }
            },
            SymbolicExpr::Multiply(l, r) => {
                let sl = (**l).simplify();
                let sr = (**r).simplify();
                if sl.is_sent_zero() || sr.is_sent_zero() {
                    SymbolicExpr::Zero
                } else if sl.is_sent_one() {
                    sr
                } else if sr.is_sent_one() {
                    sl
                } else {
                    let folded = match (&sl, &sr) {
                        (SymbolicExpr::Constant(a), SymbolicExpr::Constant(b)) => a.try_mul(*b),
                        _ => None,
                    };
                    match folded {
                        Some(c) => SymbolicExpr::Constant(c),
                        None => SymbolicExpr::Multiply(Box::new(sl), Box::new(sr)),
                    }
                }
            },
            SymbolicExpr::Divide(l, r) => {
                let sl = (**l).simplify();
                let sr = (**r).simplify();
                if sl.is_sent_zero() {
                    SymbolicExpr::Zero
                } else if sr.is_sent_one() {
                    sl
                } else {
                    let folded = match (&sl, &sr) {
                        (SymbolicExpr::Constant(a), SymbolicExpr::Constant(b)) => a.try_div(*b),
                        _ => None,
                    };
                    match folded {
                        Some(c) => SymbolicExpr::Constant(c),
                        None => SymbolicExpr::Divide(Box::new(sl), Box::new(sr)),
                    }
                }
            },
            SymbolicExpr::Power(b, x) => {
                let sb = (**b).simplify();
                let sx = (**x).simplify();
                if sx.is_sent_zero() {
                    SymbolicExpr::One
                } else if sx.is_sent_one() {
                    sb
                } else if sb.is_sent_zero() {
                    SymbolicExpr::Zero
                } else if sb.is_sent_one() {
                    SymbolicExpr::One
                } else {
                    let folded = match (&sb, &sx) {
                        (SymbolicExpr::Constant(a), SymbolicExpr::Constant(b2)) => a.try_pow(*b2),
                        _ => None,
                    };
                    match folded {
                        Some(c) => SymbolicExpr::Constant(c),
                        None => SymbolicExpr::Power(Box::new(sb), Box::new(sx)),
                    }
                }
            },
            _ => self.clone_rec(),
        }
    }
}


pub open spec fn digit_char(d: nat) -> char {
    if d == 0 {
        '0'
    } else if d == 1 {
        '1'
    } else if d == 2 {
        '2'
    } else if d == 3 {
        '3'
    } else if d == 4 {
        '4'
    } else if d == 5 {
        '5'
    } else if d == 6 {
        '6'
    } else if d == 7 {
        '7'
    } else if d == 8 {
        '8'
    } else {
        '9'
    }
}

/// The decimal digits of `n`, most significant first.
pub open spec fn digits_rec(n: nat) -> Seq<char>
    decreases n,
{
    if n < 10 {
        seq![digit_char(n)]
    } else {
        digits_rec(n / 10).push(digit_char(n % 10))
    }
}

pub open spec fn zero_pad(n: nat) -> Seq<char>
    decreases n,
{
    if n == 0 {
        Seq::empty()
    } else {
        seq!['0'] + zero_pad((n - 1) as nat)
    }
}

/// The text of the magnitude `mag / 10^k`: plain digits for `k == 0`, and
/// an integer part, a point, and exactly `k` fraction digits otherwise.
pub open spec fn fmt_mag(mag: nat, k: nat) -> Seq<char> {
    if k == 0 {
        digits_rec(mag)
    } else {
        let ip = mag / pow10(k);
        let fp = mag % pow10(k);
        let fd = digits_rec(fp);
        if fd.len() >= k {
            digits_rec(ip) + seq!['.'] + fd
        } else {
            digits_rec(ip) + seq!['.'] + zero_pad((k - fd.len()) as nat) + fd
        }
    }
}

/// The text of a scalar: an optional minus sign and the magnitude.
pub open spec fn fmt_scalar(c: Scalar) -> Seq<char> {
    if c.mantissa < 0 {
        seq!['-'] + fmt_mag(abs_int(c.mantissa as int), c.scale as nat)
    } else {
        fmt_mag(abs_int(c.mantissa as int), c.scale as nat)
    }
}

proof fn lemma_digits_len_le(n: nat, k: nat)
    requires
        k >= 1,
        n < pow10(k),
    ensures
        digits_rec(n).len() <= k,
    decreases k,
{
    if n < 10 {
    } else {
        lemma_pow10_pos((k - 1) as nat);
        assert(pow10(k) == 10 * pow10((k - 1) as nat));
        assert(n / 10 < pow10((k - 1) as nat)) by (nonlinear_arith)
            requires
                n < 10 * pow10((k - 1) as nat),
                n >= 10,
        ;
        lemma_digits_len_le(n / 10, (k - 1) as nat);
    }
}

fn digit_str(d: u64) -> (r: &'static str)
    requires
        d < 10,
    ensures
        r@ =~= seq![digit_char(d as nat)],
{
    proof {
        reveal_strlit("0");
        reveal_strlit("1");
        reveal_strlit("2");
        reveal_strlit("3");
        reveal_strlit("4");
        reveal_strlit("5");
        reveal_strlit("6");
        reveal_strlit("7");
        reveal_strlit("8");
        reveal_strlit("9");
    }
    match d {
        0 => "0",
        1 => "1",
        2 => "2",
        3 => "3",
        4 => "4",
        5 => "5",
        6 => "6",
        7 => "7",
        8 => "8",
        _ => "9",
    }
}

/// Append the decimal digits of `n`.
pub(crate) fn push_u64(out: &mut String, n: u64)
    ensures
        final(out)@ == old(out)@ + digits_rec(n as nat),
    decreases n,
{
    if n >= 10 {
        push_u64(out, n / 10);
        out.append(digit_str(n % 10));
        assert(final(out)@ =~= old(out)@ + digits_rec(n as nat));
    } else {
        out.append(digit_str(n));
        assert(final(out)@ =~= old(out)@ + digits_rec(n as nat));
    }
}

/// `10^k` as a `u64`.
fn pow10_u64(k: u32) -> (r: u64)
    requires
        k <= 19,
    ensures
        r as nat == pow10(k as nat),
{
    proof {
        reveal_with_fuel(pow10, 21);
    }
    match k {
        0 => 1,
        1 => 10,
        2 => 100,
        3 => 1000,
        4 => 10000,
        5 => 100000,
        6 => 1000000,
        7 => 10000000,
        8 => 100000000,
        9 => 1000000000,
        10 => 10000000000,
        11 => 100000000000,
        12 => 1000000000000,
        13 => 10000000000000,
        14 => 100000000000000,
        15 => 1000000000000000,
        16 => 10000000000000000,
        17 => 100000000000000000,
        18 => 1000000000000000000,
        _ => 10000000000000000000,
    }
}

/// The number of decimal digits of `n`.
fn num_digits(n: u64) -> (c: usize)
    ensures
        c == digits_rec(n as nat).len(),
        1 <= c <= 20,
    decreases n,
{
    if n < 10 {
        1
    } else {
        proof {
            reveal_with_fuel(pow10, 21);
            lemma_digits_len_le(n as nat, 20);
        }
        let rest = num_digits(n / 10);
        rest + 1
    }
}

/// Append zeros.
fn push_zeros(out: &mut String, n: u32)
    ensures
        final(out)@ == old(out)@ + zero_pad(n as nat),
    decreases n,
{
    if n > 0 {
        proof {
            reveal_strlit("0");
        }
        out.append("0");
        assert(out@ =~= old(out)@ + seq!['0']);
        push_zeros(out, n - 1);
        assert(zero_pad(n as nat) == seq!['0'] + zero_pad((n - 1) as nat));
        assert(final(out)@ =~= old(out)@ + zero_pad(n as nat));
    }
}

/// `pow10` is monotone in its exponent.
pub proof fn lemma_pow10_mono(a: nat, b: nat)
    requires
        a <= b,
    ensures
        pow10(a) <= pow10(b),
{
    lemma_pow10_add(a, (b - a) as nat);
    lemma_pow10_pos((b - a) as nat);
    lemma_pow10_pos(a);
    let p = pow10(a);
    let q = pow10((b - a) as nat);
    assert(a + (b - a) as nat == b);
    assert(pow10(b) == p * q);
    assert(p * q >= p * 1) by (nonlinear_arith)
        requires
            q >= 1,
            p >= 1,
    ;
}

/// Append the text of a scalar; see `fmt_scalar`.
#[verifier::rlimit(100)]
fn push_scalar(out: &mut String, c: Scalar)
    ensures
        final(out)@ == old(out)@ + fmt_scalar(c),
{
    let (neg, mag) = mag_of(c.mantissa);
    if neg {
        proof {
            reveal_strlit("-");
        }
        out.append("-");
        assert(out@ =~= old(out)@ + seq!['-']);
    }
    let ghost mid = out@;
    if c.scale == 0 {
        push_u64(out, mag);
        assert(final(out)@ =~= old(out)@ + fmt_scalar(c));
    } else if c.scale <= 19 {
        let p = pow10_u64(c.scale);
        assert(p > 0) by {
            lemma_pow10_pos(c.scale as nat);
        }
        let ip = mag / p;
        let fp = mag % p;
        proof {
            vstd::arithmetic::div_mod::lemma_mod_bound(mag as int, p as int);
        }
        push_u64(out, ip);
        proof {
            reveal_strlit(".");
        }
        out.append(".");
        assert(out@ =~= mid + digits_rec(ip as nat) + seq!['.']);
        let fd = num_digits(fp);
        if fd < c.scale as usize {
            push_zeros(out, c.scale - fd as u32);
        } else {
            proof {
                lemma_digits_len_le(fp as nat, c.scale as nat);
            }
        }
        push_u64(out, fp);
        assert(final(out)@ =~= old(out)@ + fmt_scalar(c));
    } else {
        // scale of twenty or more: the integer part is zero and the whole
        // magnitude sits in the fraction, left-padded with zeros
        proof {
            reveal_with_fuel(pow10, 21);
            lemma_pow10_mono(20, c.scale as nat);
            assert((mag as nat) < pow10(c.scale as nat));
            vstd::arithmetic::div_mod::lemma_basic_div(mag as int, pow10(c.scale as nat) as int);
            vstd::arithmetic::div_mod::lemma_small_mod(mag as nat, pow10(c.scale as nat));
        }
        proof {
            reveal_strlit("0");
            reveal_strlit(".");
        }
        out.append("0");
        out.append(".");
        assert(out@ =~= mid + digits_rec(0) + seq!['.']);
        let fd = num_digits(mag);
        proof {
            lemma_digits_len_le(mag as nat, c.scale as nat);
        }
        if (fd as u64) < c.scale as u64 {
            push_zeros(out, c.scale - fd as u32);
        }
        push_u64(out, mag);
        assert(final(out)@ =~= old(out)@ + fmt_scalar(c));
    }
}


/// The fully parenthesized infix text of an expression: binary operators as
/// `(a op b)`, powers as `base^exp`, functions as `name(a, b)`, sentinels
/// as `0` and `1`.
pub open spec fn fmt_model(e: ExprModel) -> Seq<char>
    decreases e,
{
    match e {
        ExprModel::Variable(v) => v,
        ExprModel::Constant(c) => fmt_scalar(c),
        ExprModel::Add(l, r) => "("@ + fmt_model(*l) + " + "@ + fmt_model(*r) + ")"@,
        ExprModel::Subtract(l, r) => "("@ + fmt_model(*l) + " - "@ + fmt_model(*r) + ")"@,
        ExprModel::Multiply(l, r) => "("@ + fmt_model(*l) + " * "@ + fmt_model(*r) + ")"@,
        ExprModel::Divide(l, r) => "("@ + fmt_model(*l) + " / "@ + fmt_model(*r) + ")"@,
        ExprModel::Power(b, x) => fmt_model(*b) + "^"@ + fmt_model(*x),
        ExprModel::Function(name, args) => if args.len() == 0 {
            name + "()"@
        } else {
            name + "("@ + fmt_args(args) + ")"@
        },
        ExprModel::Zero => "0"@,
        ExprModel::One => "1"@,
    }
}

/// Argument texts joined by a comma and a space.
pub open spec fn fmt_args(args: Seq<ExprModel>) -> Seq<char>
    decreases args,
{
    if args.len() == 0 {
        Seq::empty()
    } else if args.len() == 1 {
        fmt_model(args[0])
    } else {
        fmt_args(args.drop_last()) + ", "@ + fmt_model(args.last())
    }
}

proof fn lemma_fmt_args_push(s: Seq<ExprModel>, x: ExprModel)
    ensures
        s.len() == 0 ==> fmt_args(s.push(x)) == fmt_model(x),
        s.len() > 0 ==> fmt_args(s.push(x)) == fmt_args(s) + ", "@ + fmt_model(x),
{
    assert(s.push(x).drop_last() =~= s);
    assert(s.push(x).last() == x);
    if s.len() == 0 {
        assert(s.push(x)[0] == x);
    }
}

/// Append the argument texts joined by a comma and a space.
fn render_args(v: &Vec<SymbolicExpr>, out: &mut String)
    requires
        v@.len() >= 1,
    ensures
        final(out)@ == old(out)@ + fmt_args(exprs_model(v@)),
    decreases v@,
{
    let ghost models = exprs_model(v@);
    proof {
        lemma_exprs_model_len(v@);
    }
    let mut i: usize = 0;
    while i < v.len()
        invariant
            0 <= i <= v@.len(),
            v@.len() >= 1,
            models == exprs_model(v@),
            models.len() == v@.len(),
            i == 0 ==> out@ == old(out)@,
            i >= 1 ==> out@ == old(out)@ + fmt_args(models.subrange(0, i as int)),
        decreases v@.len() - i,
    {
        if i > 0 {
            out.append(", ");
        }
        proof {
            assert(decreases_to!(v@ => v@[i as int]));
            lemma_exprs_model_index(v@, i as int);
        }
        v[i].render_into(out);
        proof {
            lemma_fmt_args_push(models.subrange(0, i as int), models[i as int]);
            assert(models.subrange(0, i + 1) =~= models.subrange(0, i as int).push(
                models[i as int],
            ));
        }
        i = i + 1;
    }
    proof {
        assert(models.subrange(0, models.len() as int) =~= models);
    }
}

impl SymbolicExpr {
    /// Append the text of this expression; see `fmt_model`.
    fn render_into(&self, out: &mut String)
        ensures
            final(out)@ == old(out)@ + fmt_model(self@),
        decreases *self,
    {
        match self {
            SymbolicExpr::Variable(v) => {
                out.append(v.as_str());
            },
            SymbolicExpr::Constant(c) => {
                push_scalar(out, *c);
            },
            SymbolicExpr::Add(l, r) => {
                out.append("(");
                (**l).render_into(out);
                out.append(" + ");
                (**r).render_into(out);
                out.append(")");
                assert(final(out)@ =~= old(out)@ + fmt_model(self@));
            },
            SymbolicExpr::Subtract(l, r) => {
                out.append("(");
                (**l).render_into(out);
                out.append(" - ");
                (**r).render_into(out);
                out.append(")");
                assert(final(out)@ =~= old(out)@ + fmt_model(self@));
            },
            SymbolicExpr::Multiply(l, r) => {
                out.append("(");
                (**l).render_into(out);
                out.append(" * ");
                (**r).render_into(out);
                out.append(")");
                assert(final(out)@ =~= old(out)@ + fmt_model(self@));
            },
            SymbolicExpr::Divide(l, r) => {
                out.append("(");
                (**l).render_into(out);
                out.append(" / ");
                (**r).render_into(out);
                out.append(")");
                assert(final(out)@ =~= old(out)@ + fmt_model(self@));
            },
            SymbolicExpr::Power(b, x) => {
                (**b).render_into(out);
                out.append("^");
                (**x).render_into(out);
                assert(final(out)@ =~= old(out)@ + fmt_model(self@));
            },
            SymbolicExpr::Function(name, args) => {
                proof {
                    lemma_exprs_model_len(args@);
                }
                out.append(name.as_str());
                if args.len() == 0 {
                    out.append("()");
                    assert(final(out)@ =~= old(out)@ + fmt_model(self@));
                } else {
                    out.append("(");
                    render_args(args, out);
                    out.append(")");
                    assert(final(out)@ =~= old(out)@ + fmt_model(self@));
                }
            },
            SymbolicExpr::Zero => {
                out.append("0");
            },
            SymbolicExpr::One => {
                out.append("1");
            },
        }
    }

    /// The fully parenthesized infix text of this expression.
    pub fn render(&self) -> (r: String)
        ensures
            r@ == fmt_model(self@),
    {
        let mut out = String::new();
        self.render_into(&mut out);
        out
    }
}


pub open spec fn is_ws_char(c: char) -> bool {
    c == ' ' || c == '\t' || c == '\n' || c == '\r' || c == '\u{b}' || c == '\u{c}'
}

pub open spec fn is_digit_char(c: char) -> bool {
    48 <= c as u32 <= 57
}

pub open spec fn digit_val(c: char) -> nat {
    (c as u32 - 48) as nat
}

pub open spec fn is_alpha_under(c: char) -> bool {
    (65 <= c as u32 <= 90) || (97 <= c as u32 <= 122) || c as u32 == 95
}

pub open spec fn is_alnum_under(c: char) -> bool {
    is_alpha_under(c) || is_digit_char(c)
}

/// A simple identifier: a letter or underscore, then letters, digits and
/// underscores.
pub open spec fn is_name_seq(t: Seq<char>) -> bool {
    t.len() >= 1 && is_alpha_under(t[0]) && forall|i: int| 0 <= i < t.len() ==> is_alnum_under(
        #[trigger] t[i],
    )
}

pub open spec fn trim_front(s: Seq<char>) -> Seq<char>
    decreases s.len(),
{
    if s.len() > 0 && is_ws_char(s[0]) {
        trim_front(s.drop_first())
    } else {
        s
    }
}

pub open spec fn trim_back(s: Seq<char>) -> Seq<char>
    decreases s.len(),
{
    if s.len() > 0 && is_ws_char(s.last()) {
        trim_back(s.drop_last())
    } else {
        s
    }
}

/// Whitespace stripped from both ends.
pub open spec fn trim_ws(s: Seq<char>) -> Seq<char> {
    trim_back(trim_front(s))
}

proof fn lemma_trim_front_len(s: Seq<char>)
    ensures
        trim_front(s).len() <= s.len(),
    decreases s.len(),
{
    if s.len() > 0 && is_ws_char(s[0]) {
        lemma_trim_front_len(s.drop_first());
    }
}

proof fn lemma_trim_back_len(s: Seq<char>)
    ensures
        trim_back(s).len() <= s.len(),
    decreases s.len(),
{
    if s.len() > 0 && is_ws_char(s.last()) {
        lemma_trim_back_len(s.drop_last());
    }
}

pub proof fn lemma_trim_ws_len(s: Seq<char>)
    ensures
        trim_ws(s).len() <= s.len(),
{
    lemma_trim_front_len(s);
    lemma_trim_back_len(trim_front(s));
}

/// Index of the first occurrence of `c` at or after `i`, or `-1`.
pub open spec fn find_from(s: Seq<char>, c: char, i: nat) -> int
    decreases s.len() - i,
{
    if i >= s.len() {
        -1
    } else if s[i as int] == c {
        i as int
    } else {
        find_from(s, c, i + 1)
    }
}

pub proof fn lemma_find_from_bounds(s: Seq<char>, c: char, i: nat)
    requires
        i <= s.len(),
    ensures
        find_from(s, c, i) == -1 || i <= find_from(s, c, i) < s.len(),
        find_from(s, c, i) >= 0 ==> s[find_from(s, c, i)] == c,
    decreases s.len() - i,
{
    if i < s.len() && s[i as int] != c {
        lemma_find_from_bounds(s, c, i + 1);
    }
}

/// End of the run of digits starting at `i`.
pub open spec fn digits_end(s: Seq<char>, i: nat) -> nat
    decreases s.len() - i,
{
    if i < s.len() && is_digit_char(s[i as int]) {
        digits_end(s, i + 1)
    } else {
        i
    }
}

proof fn lemma_digits_end_stop(s: Seq<char>, from: nat)
    requires
        from <= s.len(),
    ensures
        digits_end(s, from) < s.len() ==> !is_digit_char(s[digits_end(s, from) as int]),
    decreases s.len() - from,
{
    if from < s.len() && is_digit_char(s[from as int]) {
        lemma_digits_end_stop(s, from + 1);
    }
}

proof fn lemma_digits_end_range(s: Seq<char>, i: nat)
    requires
        i <= s.len(),
    ensures
        i <= digits_end(s, i) <= s.len(),
        forall|j: int| i <= j < digits_end(s, i) ==> is_digit_char(#[trigger] s[j]),
    decreases s.len() - i,
{
    if i < s.len() && is_digit_char(s[i as int]) {
        lemma_digits_end_range(s, i + 1);
    }
}

/// Left fold of the digit run `[lo, hi)` onto `acc`, most significant first.
pub open spec fn fold_digits(acc: nat, s: Seq<char>, lo: nat, hi: nat) -> nat
    decreases hi - lo,
{
    if lo >= hi {
        acc
    } else {
        fold_digits(acc * 10 + digit_val(s[lo as int]), s, lo + 1, hi)
    }
}

proof fn lemma_fold_digits_lb(acc: nat, s: Seq<char>, lo: nat, hi: nat)
    ensures
        fold_digits(acc, s, lo, hi) >= acc,
    decreases hi - lo,
{
    if lo < hi {
        lemma_fold_digits_lb(acc * 10 + digit_val(s[lo as int]), s, lo + 1, hi);
    }
}

/// A nonzero mantissa scaled by twenty or more decimal places leaves `i64`.
proof fn lemma_pow10_big(v: int, e: nat)
    requires
        v != 0,
        e >= 20,
    ensures
        !fits_i64(v * pow10(e)),
{
    reveal_with_fuel(pow10, 21);
    assert(pow10(20) == 100000000000000000000);
    lemma_pow10_mono(20, e);
    let p = pow10(e) as int;
    if v >= 1 {
        assert(v * p >= 1 * p) by (nonlinear_arith)
            requires
                v >= 1,
                p > 0,
        ;
    } else {
        assert(v * p <= (-1) * p) by (nonlinear_arith)
            requires
                v <= -1,
                p > 0,
        ;
    }
}

/// The scalar of a decimal literal already decomposed into a sign, the
/// mantissa digits, the number of fraction digits and a signed exponent;
/// `None` when any step leaves the machine ranges.
pub open spec fn num_value(neg: bool, mag: nat, frac: nat, eneg: bool, emag: nat) -> Option<
    Scalar,
> {
    if mag > u64::MAX || emag > u64::MAX {
        None
    } else {
        let eff: int = (if eneg {
            -(emag as int)
        } else {
            emag as int
        }) - frac;
        let v = crate::scalar::with_sign(neg, mag);
        if eff >= 0 {
            let v2 = v * pow10(eff as nat);
            if fits_i64(v) && fits_i64(v2) {
                Some(crate::scalar::norm_scalar(v2, 0))
            } else {
                None
            }
        } else {
            if -eff > u32::MAX {
                None
            } else if !fits_i64(v) {
                None
            } else {
                Some(crate::scalar::norm_scalar(v, (-eff) as nat))
            }
        }
    }
}

/// Recognize a decimal literal: an optional sign, digits with an optional
/// point, and an optional exponent part, with at least one mantissa digit
/// and nothing else.
pub open spec fn parse_num(s: Seq<char>) -> Option<Scalar> {
    let i0: nat = if s.len() > 0 && (s[0] == '+' || s[0] == '-') {
        1
    } else {
        0
    };
    let neg = s.len() > 0 && s[0] == '-';
    let i1 = digits_end(s, i0);
    let has_dot = i1 < s.len() && s[i1 as int] == '.';
    let fr_lo: nat = if has_dot {
        i1 + 1
    } else {
        i1
    };
    let i2 = digits_end(s, fr_lo);
    let d1 = i1 - i0;
    let d2 = i2 - fr_lo;
    if d1 + d2 == 0 {
        None
    } else {
        let mag = fold_digits(fold_digits(0, s, i0, i1), s, fr_lo, i2);
        if i2 == s.len() {
            num_value(neg, mag, d2 as nat, false, 0)
        } else if s[i2 as int] == 'e' || s[i2 as int] == 'E' {
            let has_esign = i2 + 1 < s.len() && (s[i2 as int + 1] == '+' || s[i2 as int + 1]
                == '-');
            let eneg = i2 + 1 < s.len() && s[i2 as int + 1] == '-';
            let j0: nat = if has_esign {
                (i2 + 2) as nat
            } else {
                (i2 + 1) as nat
            };
            let j1 = digits_end(s, j0);
            if j1 != s.len() || j1 == j0 {
                None
            } else {
                num_value(neg, mag, d2 as nat, eneg, fold_digits(0, s, j0, j1))
            }
        } else {
            None
        }
    }
}

/// `name^digits`, with a representable exponent.
pub open spec fn power_ok(t: Seq<char>, caret: int) -> bool {
    &&& caret >= 1
    &&& caret + 1 < t.len()
    &&& is_name_seq(t.subrange(0, caret))
    &&& (forall|i: int| caret < i < t.len() ==> is_digit_char(#[trigger] t[i]))
    &&& fold_digits(0, t, (caret + 1) as nat, t.len()) <= i64::MAX
}

/// `name(...)` with a single unnested group: the name, an opening paren,
/// anything but a closing paren, and a final closing paren.
pub open spec fn func_ok(t: Seq<char>, p: int) -> bool {
    &&& p >= 1
    &&& t.len() >= p + 2
    &&& is_name_seq(t.subrange(0, p))
    &&& t.last() == ')'
    &&& (forall|i: int| p < i < t.len() - 1 ==> t[i] != ')')
}

/// Parse after trimming: the empty text and the literals `0` and `1` give
/// the sentinels; then a decimal literal, a bare identifier, `name^digits`,
/// and `name(args,...)` are recognized in that order; anything else is an
/// opaque variable holding the text verbatim.
pub open spec fn parse_core(t: Seq<char>) -> ExprModel
    decreases t.len(), 0nat,
{
    if t.len() == 0 {
        ExprModel::Zero
    } else if t == "0"@ {
        ExprModel::Zero
    } else if t == "1"@ {
        ExprModel::One
    } else {
        match parse_num(t) {
            Some(c) => ExprModel::Constant(c),
            None => {
                if is_name_seq(t) {
                    ExprModel::Variable(t)
                } else {
                    let caret = find_from(t, '^', 0);
                    let paren = find_from(t, '(', 0);
                    if power_ok(t, caret) {
                        ExprModel::Power(
                            Box::new(ExprModel::Variable(t.subrange(0, caret))),
                            Box::new(ExprModel::Constant(
                                Scalar {
                                    mantissa: fold_digits(
                                        0,
                                        t,
                                        (caret + 1) as nat,
                                        t.len(),
                                    ) as i64,
                                    scale: 0,
                                },
                            )),
                        )
                    } else if func_ok(t, paren) {
                        let inner = t.subrange(paren + 1, t.len() - 1);
                        ExprModel::Function(
                            t.subrange(0, paren),
                            if inner.len() == 0 {
                                Seq::empty()
                            } else {
                                parse_args(inner)
                            },
                        )
                    } else {
                        ExprModel::Variable(t)
                    }
                }
            },
        }
    }
}

/// Split on every comma and parse each piece.
pub open spec fn parse_args(inner: Seq<char>) -> Seq<ExprModel>
    decreases inner.len(), 2nat,
    via parse_args_dec
{
    let comma = find_from(inner, ',', 0);
    if comma < 0 {
        seq![parse_model(inner)]
    } else {
        seq![parse_model(inner.subrange(0, comma))] + parse_args(
            inner.subrange(comma + 1, inner.len() as int),
        )
    }
}

#[via_fn]
proof fn parse_args_dec(inner: Seq<char>) {
    lemma_find_from_bounds(inner, ',', 0);
}

/// Total parse: trim, then recognize per `parse_core`; never fails.
pub open spec fn parse_model(s: Seq<char>) -> ExprModel
    decreases s.len(), 1nat,
    via parse_model_dec
{
    parse_core(trim_ws(s))
}

#[via_fn]
proof fn parse_model_dec(s: Seq<char>) {
    lemma_trim_ws_len(s);
}


fn is_ws_c(c: char) -> (r: bool)
    ensures
        r == is_ws_char(c),
{
    c == ' ' || c == '\t' || c == '\n' || c == '\r' || c == '\u{b}' || c == '\u{c}'
}

fn is_digit_c(c: char) -> (r: bool)
    ensures
        r == is_digit_char(c),
{
    let u = c as u32;
    48 <= u && u <= 57
}

fn is_alpha_under_c(c: char) -> (r: bool)
    ensures
        r == is_alpha_under(c),
{
    let u = c as u32;
    (65 <= u && u <= 90) || (97 <= u && u <= 122) || u == 95
}

fn is_alnum_under_c(c: char) -> (r: bool)
    ensures
        r == is_alnum_under(c),
{
    is_alpha_under_c(c) || is_digit_c(c)
}

/// The characters of a string, in order.
fn chars_of(s: &str) -> (v: Vec<char>)
    ensures
        v@ == s@,
{
    let n = s.unicode_len();
    let mut v: Vec<char> = Vec::new();
    let mut i: usize = 0;
    while i < n
        invariant
            i <= n,
            n == s@.len(),
            v@ =~= s@.subrange(0, i as int),
        decreases n - i,
    {
        let c = s.get_char(i);
        v.push(c);
        assert(v@ =~= s@.subrange(0, i + 1));
        i = i + 1;
    }
    assert(s@.subrange(0, n as int) =~= s@);
    v
}

/// End of the digit run of `v[lo..hi]` starting at the relative index
/// `from`.
fn scan_digits(v: &Vec<char>, lo: usize, hi: usize, from: usize) -> (j: usize)
    requires
        lo <= hi <= v@.len(),
        from <= hi - lo,
    ensures
        j as nat == digits_end(v@.subrange(lo as int, hi as int), from as nat),
        from <= j <= hi - lo,
{
    let ghost t = v@.subrange(lo as int, hi as int);
    let n = hi - lo;
    let mut cur = from;
    while cur < n
        invariant
            from <= cur <= n,
            n == hi - lo,
            lo <= hi <= v@.len(),
            t == v@.subrange(lo as int, hi as int),
            digits_end(t, from as nat) == digits_end(t, cur as nat),
        decreases n - cur,
    {
        assert(t[cur as int] == v@[lo + cur]);
        if !is_digit_c(v[lo + cur]) {
            return cur;
        }
        cur = cur + 1;
    }
    cur
}

/// Fold the digits of the relative range `[from, to)` onto `start`.
fn fold_range(v: &Vec<char>, lo: usize, hi: usize, from: usize, to: usize, start: u64) -> (r:
    Option<u64>)
    requires
        lo <= hi <= v@.len(),
        from <= to <= hi - lo,
        forall|j: int|
            from <= j < to ==> is_digit_char(
                #[trigger] v@.subrange(lo as int, hi as int)[j],
            ),
    ensures
        ({
            let f = fold_digits(start as nat, v@.subrange(lo as int, hi as int), from as nat,
                to as nat);
            &&& (r matches Some(m) ==> m as nat == f)
            &&& (r is None ==> f > u64::MAX)
        }),
{
    let ghost t = v@.subrange(lo as int, hi as int);
    let mut acc: u64 = start;
    let mut cur = from;
    while cur < to
        invariant
            from <= cur <= to,
            lo <= hi <= v@.len(),
            to <= hi - lo,
            t == v@.subrange(lo as int, hi as int),
            forall|j: int| from <= j < to ==> is_digit_char(#[trigger] t[j]),
            fold_digits(start as nat, t, from as nat, to as nat) == fold_digits(
                acc as nat,
                t,
                cur as nat,
                to as nat,
            ),
        decreases to - cur,
    {
        assert(t[cur as int] == v@[lo + cur]);
        let c = v[lo + cur];
        assert(is_digit_char(c));
        let d: u64 = (c as u32 - 48) as u64;
        assert(d as nat == digit_val(c));
        let a10 = match acc.checked_mul(10) {
            Some(x) => x,
            None => {
                proof {
                    lemma_fold_digits_lb(
                        acc as nat * 10 + digit_val(c),
                        t,
                        (cur + 1) as nat,
                        to as nat,
                    );
                }
                return None;
            },
        };
        acc = match a10.checked_add(d) {
            Some(x) => x,
            None => {
                proof {
                    lemma_fold_digits_lb(
                        acc as nat * 10 + digit_val(c),
                        t,
                        (cur + 1) as nat,
                        to as nat,
                    );
                }
                return None;
            },
        };
        cur = cur + 1;
    }
    Some(acc)
}

/// First occurrence of `c` in `v[lo..hi]`, as a relative index.
fn find_c(v: &Vec<char>, lo: usize, hi: usize, c: char) -> (r: Option<usize>)
    requires
        lo <= hi <= v@.len(),
    ensures
        ({
            let f = find_from(v@.subrange(lo as int, hi as int), c, 0);
            &&& (r matches Some(j) ==> f == j && lo + j < hi)
            &&& (r is None ==> f == -1)
        }),
{
    let ghost t = v@.subrange(lo as int, hi as int);
    let n = hi - lo;
    let mut cur: usize = 0;
    while cur < n
        invariant
            cur <= n,
            n == hi - lo,
            lo <= hi <= v@.len(),
            t == v@.subrange(lo as int, hi as int),
            find_from(t, c, 0) == find_from(t, c, cur as nat),
        decreases n - cur,
    {
        assert(t[cur as int] == v@[lo + cur]);
        if v[lo + cur] == c {
            return Some(cur);
        }
        cur = cur + 1;
    }
    None
}

/// Whether `v[lo..hi]` is a simple identifier.
fn check_name(v: &Vec<char>, lo: usize, hi: usize) -> (r: bool)
    requires
        lo <= hi <= v@.len(),
    ensures
        r == is_name_seq(v@.subrange(lo as int, hi as int)),
{
    let ghost t = v@.subrange(lo as int, hi as int);
    let n = hi - lo;
    if n == 0 {
        return false;
    }
    assert(t[0] == v@[lo as int]);
    if !is_alpha_under_c(v[lo]) {
        return false;
    }
    let mut cur: usize = 0;
    while cur < n
        invariant
            cur <= n,
            n == hi - lo,
            lo <= hi <= v@.len(),
            t == v@.subrange(lo as int, hi as int),
            forall|j: int| 0 <= j < cur ==> is_alnum_under(#[trigger] t[j]),
        decreases n - cur,
    {
        assert(t[cur as int] == v@[lo + cur]);
        if !is_alnum_under_c(v[lo + cur]) {
            return false;
        }
        cur = cur + 1;
    }
    true
}

/// Scalar of the decimal literal `v[lo..hi]`, if it is one; see `parse_num`.
#[verifier::rlimit(100)]
fn parse_num_range(v: &Vec<char>, lo: usize, hi: usize) -> (r: Option<Scalar>)
    requires
        lo <= hi <= v@.len(),
    ensures
        r == parse_num(v@.subrange(lo as int, hi as int)),
{
    let ghost t = v@.subrange(lo as int, hi as int);
    let n = hi - lo;
    let mut neg = false;
    let mut i0: usize = 0;
    if n > 0 {
        assert(t[0] == v@[lo as int]);
        let c0 = v[lo];
        if c0 == '+' || c0 == '-' {
            i0 = 1;
            neg = c0 == '-';
        }
    }
    let i1 = scan_digits(v, lo, hi, i0);
    let has_dot = i1 < n && {
        assert(t[i1 as int] == v@[lo + i1]);
        v[lo + i1] == '.'
    };
    let fr_lo = if has_dot {
        i1 + 1
    } else {
        i1
    };
    let i2 = scan_digits(v, lo, hi, fr_lo);
    let d1 = i1 - i0;
    let d2 = i2 - fr_lo;
    if d1 + d2 == 0 {
        return None;
    }
    proof {
        lemma_digits_end_range(t, i0 as nat);
        lemma_digits_end_range(t, fr_lo as nat);
    }
    let m1 = match fold_range(v, lo, hi, i0, i1, 0) {
        Some(x) => x,
        None => {
            proof {
                lemma_fold_digits_lb(
                    fold_digits(0, t, i0 as nat, i1 as nat),
                    t,
                    fr_lo as nat,
                    i2 as nat,
                );
            }
            return None;
        },
    };
    let mag = match fold_range(v, lo, hi, fr_lo, i2, m1) {
        Some(x) => x,
        None => {
            return None;
        },
    };
    if i2 == n {
        return num_value_exec(neg, mag, d2, false, 0);
    }
    assert(t[i2 as int] == v@[lo + i2]);
    let ce = v[lo + i2];
    if !(ce == 'e' || ce == 'E') {
        return None;
    }
    let has_esign = i2 + 1 < n && {
        assert(t[i2 + 1] == v@[lo + i2 + 1]);
        v[lo + i2 + 1] == '+' || v[lo + i2 + 1] == '-'
    };
    let eneg = i2 + 1 < n && {
        assert(t[i2 + 1] == v@[lo + i2 + 1]);
        v[lo + i2 + 1] == '-'
    };
    let j0 = if has_esign {
        i2 + 2
    } else {
        i2 + 1
    };
    if j0 > n {
        // only when the marker is the last character; then the digit run is
        // empty and the literal is malformed
        assert(digits_end(t, j0 as nat) == j0);
        return None;
    }
    let j1 = scan_digits(v, lo, hi, j0);
    if j1 != n || j1 == j0 {
        return None;
    }
    proof {
        lemma_digits_end_range(t, j0 as nat);
    }
    let emag = match fold_range(v, lo, hi, j0, j1, 0) {
        Some(x) => x,
        None => {
            return None;
        },
    };
    num_value_exec(neg, mag, d2, eneg, emag)
}

/// Executable twin of `num_value`.
fn num_value_exec(neg: bool, mag: u64, frac: usize, eneg: bool, emag: u64) -> (r: Option<Scalar>)
    ensures
        r == num_value(neg, mag as nat, frac as nat, eneg, emag as nat),
{
    let eff: i128 = (if eneg {
        -(emag as i128)
    } else {
        emag as i128
    }) - (frac as i128);
    if eff >= 0 {
        let sv = match crate::scalar::from_mag(neg, mag) {
            Some(x) => x,
            None => {
                return None;
            },
        };
        if eff > 19 {
            if mag == 0 {
                proof {
                    assert(crate::scalar::with_sign(neg, 0) == 0);
                    assert(0 * pow10(eff as nat) == 0);
                    assert(crate::scalar::norm_model(0, 0) == (0int, 0nat));
                }
                return Some(Scalar { mantissa: 0, scale: 0 });
            }
            proof {
                lemma_pow10_big(sv as int, eff as nat);
            }
            return None;
        }
        let v2 = match crate::scalar::scale_up(sv, eff as u32) {
            Some(x) => x,
            None => {
                return None;
            },
        };
        Some(crate::scalar::normalize(v2, 0))
    } else {
        let negeff: i128 = -eff;
        if negeff > 0xffff_ffffi128 {
            return None;
        }
        let sv = match crate::scalar::from_mag(neg, mag) {
            Some(x) => x,
            None => {
                return None;
            },
        };
        Some(crate::scalar::normalize(sv, negeff as u32))
    }
}


proof fn lemma_exprs_model_cons(e: SymbolicExpr, r: Seq<SymbolicExpr>)
    ensures
        exprs_model(seq![e] + r) == seq![expr_model(e)] + exprs_model(r),
    decreases r,
{
    if r.len() == 0 {
        assert(seq![e] + r =~= seq![e]);
        assert(seq![e].len() == 1);
        assert(seq![e].last() == e);
        assert(seq![e].drop_last() =~= Seq::<SymbolicExpr>::empty());
        assert(exprs_model(seq![e]) == exprs_model(seq![e].drop_last()).push(expr_model(e)));
        assert(exprs_model(seq![e]) =~= seq![expr_model(e)]);
    } else {
        lemma_exprs_model_cons(e, r.drop_last());
        assert((seq![e] + r).drop_last() =~= seq![e] + r.drop_last());
        assert((seq![e] + r).last() == r.last());
        assert(exprs_model(seq![e] + r) == exprs_model(seq![e] + r.drop_last()).push(
            expr_model(r.last()),
        ));
        assert((seq![expr_model(e)] + exprs_model(r.drop_last())).push(expr_model(r.last()))
            =~= seq![expr_model(e)] + exprs_model(r.drop_last()).push(expr_model(r.last())));
    }
}

/// Parse each comma-separated piece of `v[alo..ahi]`.
fn parse_args_exec(s: &str, v: &Vec<char>, alo: usize, ahi: usize) -> (r: Vec<SymbolicExpr>)
    requires
        v@ == s@,
        alo <= ahi <= v@.len(),
    ensures
        exprs_model(r@) == parse_args(v@.subrange(alo as int, ahi as int)),
    decreases ahi - alo, 5nat,
{
    let ghost inner = v@.subrange(alo as int, ahi as int);
    match find_c(v, alo, ahi, ',') {
        None => {
            let piece = s.substring_char(alo, ahi);
            assert(piece@ =~= inner);
            let e = parse_text(piece);
            let mut out: Vec<SymbolicExpr> = Vec::new();
            out.push(e);
            proof {
                assert(out@ =~= seq![e]);
                assert(seq![e].len() == 1);
                assert(seq![e].last() == e);
                assert(seq![e].drop_last() =~= Seq::<SymbolicExpr>::empty());
                assert(exprs_model(seq![e]) == exprs_model(seq![e].drop_last()).push(
                    expr_model(e),
                ));
                assert(exprs_model(out@) =~= seq![expr_model(e)]);
                assert(find_from(inner, ',', 0) == -1);
                assert(parse_args(inner) == seq![parse_model(inner)]);
            }
            out
        },
        Some(k) => {
            proof {
                lemma_find_from_bounds(inner, ',', 0);
            }
            let piece = s.substring_char(alo, alo + k);
            assert(piece@ =~= inner.subrange(0, k as int));
            let e = parse_text(piece);
            let mut rest = parse_args_exec(s, v, alo + k + 1, ahi);
            let ghost rest_view = rest@;
            proof {
                assert(v@.subrange(alo + k + 1, ahi as int) =~= inner.subrange(
                    k + 1,
                    inner.len() as int,
                ));
            }
            let mut out: Vec<SymbolicExpr> = Vec::new();
            out.push(e);
            out.append(&mut rest);
            proof {
                assert(out@ =~= seq![e] + rest_view);
                lemma_exprs_model_cons(e, rest_view);
            }
            out
        },
    }
}

/// Index where the leading whitespace of `v` ends.
fn trim_front_idx(v: &Vec<char>) -> (lo: usize)
    ensures
        lo <= v@.len(),
        trim_front(v@) == v@.subrange(lo as int, v@.len() as int),
{
    let n = v.len();
    let mut lo: usize = 0;
    assert(v@.subrange(0, n as int) =~= v@);
    while lo < n
        invariant
            lo <= n,
            n == v@.len(),
            trim_front(v@) == trim_front(v@.subrange(lo as int, n as int)),
        decreases n - lo,
    {
        assert(v@.subrange(lo as int, n as int)[0] == v@[lo as int]);
        if !is_ws_c(v[lo]) {
            return lo;
        }
        proof {
            assert(v@.subrange(lo as int, n as int).drop_first() =~= v@.subrange(
                lo + 1,
                n as int,
            ));
        }
        lo = lo + 1;
    }
    assert(v@.subrange(lo as int, n as int).len() == 0);
    lo
}

/// Index where the trailing whitespace of `v[lo..]` begins.
fn trim_back_idx(v: &Vec<char>, lo: usize) -> (hi: usize)
    requires
        lo <= v@.len(),
    ensures
        lo <= hi <= v@.len(),
        trim_back(v@.subrange(lo as int, v@.len() as int)) == v@.subrange(lo as int, hi as int),
{
    let mut hi: usize = v.len();
    while lo < hi
        invariant
            lo <= hi <= v@.len(),
            trim_back(v@.subrange(lo as int, v@.len() as int)) == trim_back(
                v@.subrange(lo as int, hi as int),
            ),
        decreases hi,
    {
        assert(v@.subrange(lo as int, hi as int).last() == v@[hi - 1]);
        if !is_ws_c(v[hi - 1]) {
            return hi;
        }
        proof {
            assert(v@.subrange(lo as int, hi as int).drop_last() =~= v@.subrange(
                lo as int,
                hi - 1,
            ));
        }
        hi = hi - 1;
    }
    assert(v@.subrange(lo as int, hi as int).len() == 0);
    hi
}

/// Recognize `name^digits` over the trimmed range, building the power node.
#[verifier::rlimit(100)]
fn try_power(s: &str, v: &Vec<char>, lo: usize, hi: usize) -> (r: Option<SymbolicExpr>)
    requires
        v@ == s@,
        lo <= hi <= v@.len(),
    ensures
        ({
            let t = v@.subrange(lo as int, hi as int);
            let caret = find_from(t, '^', 0);
            &&& (r matches Some(e) ==> power_ok(t, caret) && e@ == ExprModel::Power(
                Box::new(ExprModel::Variable(t.subrange(0, caret))),
                Box::new(ExprModel::Constant(
                    Scalar {
                        mantissa: fold_digits(0, t, (caret + 1) as nat, t.len()) as i64,
                        scale: 0,
                    },
                )),
            ))
            &&& (r is None ==> !power_ok(t, caret))
        }),
{
    let ghost t = v@.subrange(lo as int, hi as int);
    proof {
        reveal_with_fuel(expr_model, 4);
        lemma_find_from_bounds(t, '^', 0);
    }
    let n = hi - lo;
    let caret = find_c(v, lo, hi, '^');
    match caret {
        Some(k) => {
            if k >= 1 && k + 1 < n && check_name(v, lo, lo + k) {
                proof {
                    assert(v@.subrange(lo as int, lo + k) =~= t.subrange(0, k as int));
                }
                let dend = scan_digits(v, lo, hi, k + 1);
                if dend == n {
                    proof {
                        lemma_digits_end_range(t, (k + 1) as nat);
                    }
                    match fold_range(v, lo, hi, k + 1, n, 0) {
                        Some(m) => {
                            assert(m as nat == fold_digits(0, t, (k + 1) as nat, t.len()));
                            if m <= 0x7fff_ffff_ffff_ffffu64 {
                                assert(power_ok(t, k as int));
                                let name = s.substring_char(lo, lo + k);
                                assert(name@ =~= t.subrange(0, k as int));
                                return Some(
                                    SymbolicExpr::Power(
                                        Box::new(
                                            SymbolicExpr::Variable(String::from_str(name)),
                                        ),
                                        Box::new(
                                            SymbolicExpr::Constant(
                                                Scalar { mantissa: m as i64, scale: 0 },
                                            ),
                                        ),
                                    ),
                                );
                            }
                            assert(fold_digits(0, t, (k + 1) as nat, t.len()) > i64::MAX);
                            None
                        },
                        None => {
                            assert(fold_digits(0, t, (k + 1) as nat, t.len()) > u64::MAX);
                            None
                        },
                    }
                } else {
                    proof {
                        lemma_digits_end_range(t, (k + 1) as nat);
                        lemma_digits_end_stop(t, (k + 1) as nat);
                        assert(dend < n);
                        assert(!is_digit_char(t[dend as int]));
                    }
                    None
                }
            } else {
                proof {
                    if k >= 1 && k + 1 < n {
                        assert(v@.subrange(lo as int, lo + k) =~= t.subrange(0, k as int));
                    }
                }
                None
            }
        },
        None => None,
    }
}

/// Recognize `name(args...)` over the trimmed range, building the function
/// node with its recursively parsed arguments.
#[verifier::rlimit(100)]
fn try_function(s: &str, v: &Vec<char>, lo: usize, hi: usize) -> (r: Option<SymbolicExpr>)
    requires
        v@ == s@,
        lo <= hi <= v@.len(),
    ensures
        ({
            let t = v@.subrange(lo as int, hi as int);
            let paren = find_from(t, '(', 0);
            let inner = t.subrange(paren + 1, t.len() - 1);
            &&& (r matches Some(e) ==> func_ok(t, paren) && e@ == ExprModel::Function(
                t.subrange(0, paren),
                if inner.len() == 0 {
                    Seq::empty()
                } else {
                    parse_args(inner)
                },
            ))
            &&& (r is None ==> !func_ok(t, paren))
        }),
    decreases s@.len(), 0nat,
{
    let ghost t = v@.subrange(lo as int, hi as int);
    proof {
        reveal_with_fuel(expr_model, 2);
        lemma_find_from_bounds(t, '(', 0);
    }
    let n = hi - lo;
    let paren = find_c(v, lo, hi, '(');
    match paren {
        Some(p) => {
            let name_ok = p >= 1 && n - p >= 2 && check_name(v, lo, lo + p);
            proof {
                if p >= 1 && n - p >= 2 {
                    assert(v@.subrange(lo as int, lo + p) =~= t.subrange(0, p as int));
                }
            }
            if name_ok {
                assert(t.len() == hi - lo);
                assert(t[t.len() - 1] == v@[lo + (t.len() - 1)]);
                assert(t.last() == v@[hi - 1]);
                if v[hi - 1] == ')' {
                    match find_c(v, lo + p + 1, hi - 1, ')') {
                        None => {
                            proof {
                                assert forall|i: int|
                                    0 <= i < hi - 1 - (lo + p + 1) implies #[trigger] v@.subrange(
                                    lo + p + 1,
                                    hi - 1,
                                )[i] == t.subrange(p + 1, t.len() - 1)[i] by {
                                    assert(v@.subrange(lo + p + 1, hi - 1)[i] == v@[lo + p + 1
                                        + i]);
                                    assert(t.subrange(p + 1, t.len() - 1)[i] == t[p + 1 + i]);
                                    assert(t[p + 1 + i] == v@[lo + p + 1 + i]);
                                }
                                assert(v@.subrange(lo + p + 1, hi - 1) =~= t.subrange(
                                    p + 1,
                                    t.len() - 1,
                                ));
                                lemma_no_char_means_none(t.subrange(p + 1, t.len() - 1), ')');
                                assert forall|i: int| p < i < t.len() - 1 implies #[trigger] t[i]
                                    != ')' by {
                                    assert(t.subrange(p + 1, t.len() - 1)[i - (p + 1)] == t[i]);
                                }
                                assert(func_ok(t, p as int));
                            }
                            let name = s.substring_char(lo, lo + p);
                            assert(name@ =~= t.subrange(0, p as int));
                            let ghost inner = t.subrange(p + 1, t.len() - 1);
                            let args: Vec<SymbolicExpr> = if lo + p + 1 == hi - 1 {
                                Vec::new()
                            } else {
                                parse_args_exec(s, v, lo + p + 1, hi - 1)
                            };
                            proof {
                                if lo + p + 1 == hi - 1 {
                                    assert(inner.len() == 0);
                                    assert(exprs_model(args@) =~= Seq::<ExprModel>::empty());
                                } else {
                                    assert(inner.len() > 0);
                                    assert(v@.subrange(lo + p + 1, hi - 1) =~= inner);
                                }
                            }
                            Some(SymbolicExpr::Function(String::from_str(name), args))
                        },
                        Some(_) => {
                            proof {
                                assert forall|i: int|
                                    0 <= i < hi - 1 - (lo + p + 1) implies #[trigger] v@.subrange(
                                    lo + p + 1,
                                    hi - 1,
                                )[i] == t.subrange(p + 1, t.len() - 1)[i] by {
                                    assert(v@.subrange(lo + p + 1, hi - 1)[i] == v@[lo + p + 1
                                        + i]);
                                    assert(t.subrange(p + 1, t.len() - 1)[i] == t[p + 1 + i]);
                                    assert(t[p + 1 + i] == v@[lo + p + 1 + i]);
                                }
                                assert(v@.subrange(lo + p + 1, hi - 1) =~= t.subrange(
                                    p + 1,
                                    t.len() - 1,
                                ));
                                lemma_found_char_exists(t.subrange(p + 1, t.len() - 1), ')');
                            }
                            None
                        },
                    }
                } else {
                    None
                }
            } else {
                None
            }
        },
        None => None,
    }
}

/// Parse a trimmed text that is not empty, a sentinel, a literal or a bare
/// identifier: a power, a function call, or the verbatim fallback.
fn parse_structured(s: &str, v: &Vec<char>, lo: usize, hi: usize) -> (e: SymbolicExpr)
    requires
        v@ == s@,
        lo <= hi <= v@.len(),
        v@.subrange(lo as int, hi as int).len() > 0,
        v@.subrange(lo as int, hi as int) != "0"@,
        v@.subrange(lo as int, hi as int) != "1"@,
        parse_num(v@.subrange(lo as int, hi as int)) is None,
        !is_name_seq(v@.subrange(lo as int, hi as int)),
    ensures
        e@ == parse_core(v@.subrange(lo as int, hi as int)),
    decreases s@.len(), 1nat,
{
    let ghost t = v@.subrange(lo as int, hi as int);
    match try_power(s, v, lo, hi) {
        Some(e) => e,
        None => {
            match try_function(s, v, lo, hi) {
                Some(e) => e,
                None => {
                    let text = s.substring_char(lo, hi);
                    assert(text@ =~= t);
                    SymbolicExpr::Variable(String::from_str(text))
                },
            }
        },
    }
}

/// Parse a complete text; total, per `parse_model`.
#[verifier::rlimit(100)]
fn parse_text(s: &str) -> (e: SymbolicExpr)
    ensures
        e@ == parse_model(s@),
    decreases s@.len(), 2nat,
{
    let v = chars_of(s);
    let lo = trim_front_idx(&v);
    let hi = trim_back_idx(&v, lo);
    let ghost t = v@.subrange(lo as int, hi as int);
    proof {
        assert(trim_ws(v@) == t);
        assert(parse_model(s@) == parse_core(t));
    }
    let n = hi - lo;
    if n == 0 {
        return SymbolicExpr::Zero;
    }
    proof {
        reveal_strlit("0");
        reveal_strlit("1");
    }
    if n == 1 {
        assert(t[0] == v@[lo as int]);
        if v[lo] == '0' {
            assert(t =~= "0"@);
            return SymbolicExpr::Zero;
        }
        if v[lo] == '1' {
            assert(t =~= "1"@);
            return SymbolicExpr::One;
        }
    }
    proof {
        assert(t != "0"@) by {
            if t == "0"@ {
                assert(t.len() == 1 && t[0] == '0');
            }
        }
        assert(t != "1"@) by {
            if t == "1"@ {
                assert(t.len() == 1 && t[0] == '1');
            }
        }
    }
    match parse_num_range(&v, lo, hi) {
        Some(c) => {
            return SymbolicExpr::Constant(c);
        },
        None => {},
    }
    if check_name(&v, lo, hi) {
        let name = s.substring_char(lo, hi);
        assert(name@ =~= t);
        return SymbolicExpr::Variable(String::from_str(name));
    }
    parse_structured(s, &v, lo, hi)
}

/// If a scan found no occurrence, no position holds the character.
proof fn lemma_no_char_means_none(s: Seq<char>, c: char)
    requires
        find_from(s, c, 0) == -1,
    ensures
        forall|i: int| 0 <= i < s.len() ==> s[i] != c,
{
    assert forall|i: int| 0 <= i < s.len() implies s[i] != c by {
        lemma_find_miss(s, c, 0, i);
    }
}

proof fn lemma_find_miss(s: Seq<char>, c: char, from: nat, i: int)
    requires
        find_from(s, c, from) == -1,
        from <= i < s.len(),
    ensures
        s[i] != c,
    decreases s.len() - from,
{
    if from < s.len() {
        if s[from as int] != c && from < i {
            lemma_find_miss(s, c, from + 1, i);
        }
    }
}

/// If a scan found an occurrence, some position holds the character.
proof fn lemma_found_char_exists(s: Seq<char>, c: char)
    requires
        find_from(s, c, 0) >= 0,
    ensures
        exists|i: int| 0 <= i < s.len() && s[i] == c,
{
    lemma_find_from_bounds(s, c, 0);
    assert(s[find_from(s, c, 0)] == c);
}

impl SymbolicExpr {
    /// Parse a textual expression.  The grammar recognizes the sentinels,
    /// decimal literals, bare identifiers, `name^digits` and
    /// `name(args,...)`; anything else becomes an opaque variable holding
    /// the text verbatim, so parsing is total and the call never fails.
    pub fn parse(input: &str) -> (r: Result<SymbolicExpr, crate::TensorError>)
        ensures
            r matches Ok(e) && e@ == parse_model(input@),
    {
        Ok(parse_text(input))
    }
}

} // verus!
