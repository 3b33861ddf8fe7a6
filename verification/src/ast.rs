//! The abstract syntax tree of the expression language, its spec-level
//! image, and the arithmetic meaning of each operator.
use crate::num::pow_result;
use crate::num::prod_bits;
use crate::num::quot_bits;
use crate::num::spec_neg_bits;
use crate::num::diff_bits;
use crate::num::sum_bits;
use crate::num::add_bits;
use crate::num::sub_bits;
use crate::num::mul_bits;
use crate::num::div_bits;
use crate::num::neg_bits;
use crate::num::pow_bits;
use vstd::prelude::*;

verus! {

broadcast use vstd::seq::axiom_seq_index_decreases, vstd::std_specs::vec::axiom_vec_decreases_to_view;

/// A literal operand: a number (as the bit pattern of a double), a bare
/// identifier, or a `&name` reference to another formula.
#[derive(Debug)]
pub enum Literal {
    Ident(String),
    Number(u64),
    Ref(String),
}

/// An arithmetic operation of the language.
#[derive(Debug, Clone, Copy, PartialEq, Eq, Structural)]
pub enum Operation {
    Plus,
    Minus,
    Times,
    Divide,
    Power,
    Factorial,
}

/// An expression: a literal, a call, or a unary or binary operation.
#[derive(Debug)]
pub enum Expression {
    Const(Literal),
    Function { name: String, args: Vec<Expression> },
    BinOp(Box<Expression>, Box<Expression>, Operation),
    UnOp(Operation, Box<Expression>),
}

/// The spec-level image of a literal.
pub enum LiteralV {
    Ident(Seq<char>),
    Number(u64),
    Ref(Seq<char>),
}

/// The spec-level image of an expression.
pub enum ExprV {
    Const(LiteralV),
    Function { name: Seq<char>, args: Seq<ExprV> },
    BinOp(Box<ExprV>, Box<ExprV>, Operation),
    UnOp(Operation, Box<ExprV>),
}

/// The spec-level image of a literal.
pub open spec fn lit_view(l: Literal) -> LiteralV {
    match l {
        Literal::Ident(s) => LiteralV::Ident(s@),
        Literal::Number(b) => LiteralV::Number(b),
        Literal::Ref(s) => LiteralV::Ref(s@),
    }
}

/// The spec-level image of an expression.
pub open spec fn expr_view(e: Expression) -> ExprV
    decreases e,
{
    match e {
        Expression::Const(l) => ExprV::Const(lit_view(l)),
        Expression::Function { name, args } => ExprV::Function {
            name: name@,
            args: exprs_view(args@),
        },
        Expression::BinOp(l, r, op) => ExprV::BinOp(
            Box::new(expr_view(*l)),
            Box::new(expr_view(*r)),
            op,
        ),
        Expression::UnOp(op, r) => ExprV::UnOp(op, Box::new(expr_view(*r))),
    }
}

/// The images of a list of argument expressions.
pub open spec fn exprs_view(s: Seq<Expression>) -> Seq<ExprV>
    decreases s,
{
    if s.len() == 0 {
        Seq::empty()
    } else {
        seq![expr_view(s[0])] + exprs_view(s.drop_first())
    }
}

/// `exprs_view` maps each element to its image.
pub proof fn lemma_exprs_view(s: Seq<Expression>)
    ensures
        exprs_view(s).len() == s.len(),
        forall|i: int| 0 <= i < s.len() ==> exprs_view(s)[i] == expr_view(s[i]),
    decreases s,
{
    if s.len() > 0 {
        lemma_exprs_view(s.drop_first());
    }
}

impl Operation {
    /// The binary meaning of the operation on two doubles (bit patterns).
    /// The four elementary operations are IEEE-754 double arithmetic; for
    /// `Power`, the *second* operand is the base and the first the exponent,
    /// defined only for exactly-integer exponents; `Factorial` has no binary
    /// numeric meaning.
    pub open spec fn spec_eval(self, lhs: u64, rhs: u64) -> Option<u64> {
        match self {
            Operation::Plus => Some(sum_bits(lhs, rhs)),
            Operation::Minus => Some(diff_bits(lhs, rhs)),
            Operation::Times => Some(prod_bits(lhs, rhs)),
            Operation::Divide => Some(quot_bits(lhs, rhs)),
            Operation::Power => pow_result(lhs, rhs),
            Operation::Factorial => None,
        }
    }

    /// The unary meaning: `Minus` negates; every other kind is a reserved
    /// form that passes its operand through.
    pub open spec fn spec_unary_eval(self, rhs: u64) -> u64 {
        match self {
            Operation::Minus => spec_neg_bits(rhs),
            _ => rhs,
        }
    }

    /// Computes the binary meaning of the operation; `None` where it has
    /// none (`Factorial`, or `Power` with a non-integer exponent).
    pub fn eval(&self, lhs: u64, rhs: u64) -> (r: Option<u64>)
        ensures
            r == self.spec_eval(lhs, rhs),
    {
        match self {
            Operation::Plus => Some(add_bits(lhs, rhs)),
            Operation::Minus => Some(sub_bits(lhs, rhs)),
            Operation::Times => Some(mul_bits(lhs, rhs)),
            Operation::Divide => Some(div_bits(lhs, rhs)),
            Operation::Power => pow_bits(lhs, rhs),
            Operation::Factorial => None,
        }
    }

    /// Computes the unary meaning of the operation.
    pub fn unary_eval(&self, rhs: u64) -> (r: u64)
        ensures
            r == self.spec_unary_eval(rhs),
    {
        match self {
            Operation::Minus => neg_bits(rhs),
            _ => rhs,
        }
    }
}

/// A visitor interface over expression-shaped trees. The lowering and
/// evaluation walks of this crate mutate their context (host functions
/// advance their own state), so they stand as inherent methods taking
/// `&mut` receivers rather than as impls of this read-only interface.
pub trait Visit<T> {
    type Returns;

    fn visit_const(&self, cnst: T) -> Self::Returns;

    fn visit_fn(&self, xfn: T) -> Self::Returns;

    fn visit_binop(&self, bin: T) -> Self::Returns;

    fn visit_unop(&self, un: T) -> Self::Returns;

    fn visit_expr(&self, expr: T) -> Self::Returns;
}

impl Clone for Literal {
    /// A copy with the same image.
    fn clone(&self) -> (r: Self)
        ensures
            lit_view(r) == lit_view(*self),
    {
        match self {
            Literal::Ident(s) => Literal::Ident(s.clone()),
            Literal::Number(b) => Literal::Number(*b),
            Literal::Ref(s) => Literal::Ref(s.clone()),
        }
    }
}

fn lit_eq(a: &Literal, b: &Literal) -> (r: bool)
    ensures
        r == (lit_view(*a) == lit_view(*b)),
{
    match (a, b) {
        (Literal::Ident(x), Literal::Ident(y)) => *x == *y,
        (Literal::Number(x), Literal::Number(y)) => x == y,
        (Literal::Ref(x), Literal::Ref(y)) => *x == *y,
        _ => false,
    }
}

impl PartialEq for Literal {
    fn eq(&self, other: &Literal) -> (r: bool) {
        lit_eq(self, other)
    }
}

impl vstd::std_specs::cmp::PartialEqSpecImpl for Literal {
    open spec fn obeys_eq_spec() -> bool {
        true
    }

    open spec fn eq_spec(&self, other: &Literal) -> bool {
        lit_view(*self) == lit_view(*other)
    }
}

#[verifier::loop_isolation(false)]
fn expr_eq(a: &Expression, b: &Expression) -> (r: bool)
    ensures
        r == (expr_view(*a) == expr_view(*b)),
    decreases *a,
{
    match (a, b) {
        (Expression::Const(x), Expression::Const(y)) => lit_eq(x, y),
        (
            Expression::Function { name: n1, args: a1 },
            Expression::Function { name: n2, args: a2 },
        ) => {
            if !(*n1 == *n2) {
                return false;
            }
            if a1.len() != a2.len() {
                proof {
                    lemma_exprs_view(a1@);
                    lemma_exprs_view(a2@);
                }
                return false;
            }
            let n = a1.len();
            let mut i: usize = 0;
            proof {
                lemma_exprs_view(a1@);
                lemma_exprs_view(a2@);
            }
            while i < n
                invariant
                    n == a1.len() == a2.len(),
                    i <= n,
                    exprs_view(a1@).len() == n,
                    exprs_view(a2@).len() == n,
                    forall|j: int| 0 <= j < n ==> exprs_view(a1@)[j] == expr_view(a1@[j]),
                    forall|j: int| 0 <= j < n ==> exprs_view(a2@)[j] == expr_view(a2@[j]),
                    forall|j: int| 0 <= j < i ==> exprs_view(a1@)[j] == exprs_view(a2@)[j],
                decreases n - i,
            {
                if !expr_eq(&a1[i], &a2[i]) {
                    proof {
                        assert(exprs_view(a1@)[i as int] != exprs_view(a2@)[i as int]);
                    }
                    return false;
                }
                i = i + 1;
            }
            proof {
                assert(exprs_view(a1@) =~= exprs_view(a2@));
            }
            true
        },
        (Expression::BinOp(l1, r1, o1), Expression::BinOp(l2, r2, o2)) => {
            *o1 == *o2 && expr_eq(l1, l2) && expr_eq(r1, r2)
        },
        (Expression::UnOp(o1, r1), Expression::UnOp(o2, r2)) => {
            *o1 == *o2 && expr_eq(r1, r2)
        },
        _ => false,
    }
}

impl Clone for Expression {
    /// A deep copy: the image of the copy is the image of the original.
    #[verifier::loop_isolation(false)]
    fn clone(&self) -> (r: Self)
        ensures
            expr_view(r) == expr_view(*self),
        decreases *self,
    {
        match self {
            Expression::Const(l) => Expression::Const(l.clone()),
            Expression::Function { name, args } => {
                let mut copied: Vec<Expression> = Vec::new();
                let n = args.len();
                let mut i: usize = 0;
                proof {
                    lemma_exprs_view(args@);
                }
                while i < n
                    invariant
                        n == args.len(),
                        i <= n,
                        copied@.len() == i,
                        forall|j: int| 0 <= j < n ==> exprs_view(args@)[j] == expr_view(args@[j]),
                        exprs_view(args@).len() == n,
                        forall|j: int| 0 <= j < i ==> expr_view(copied@[j]) == exprs_view(
                            args@,
                        )[j],
                    decreases n - i,
                {
                    copied.push(args[i].clone());
                    i = i + 1;
                }
                proof {
                    lemma_exprs_view(copied@);
                    assert(exprs_view(copied@) =~= exprs_view(args@));
                }
                Expression::Function { name: name.clone(), args: copied }
            },
            Expression::BinOp(l, r, op) => Expression::BinOp(
                Box::new((**l).clone()),
                Box::new((**r).clone()),
                *op,
            ),
            Expression::UnOp(op, r) => Expression::UnOp(*op, Box::new((**r).clone())),
        }
    }
}

impl PartialEq for Expression {
    fn eq(&self, other: &Expression) -> (r: bool) {
        expr_eq(self, other)
    }
}

impl vstd::std_specs::cmp::PartialEqSpecImpl for Expression {
    open spec fn obeys_eq_spec() -> bool {
        true
    }

    open spec fn eq_spec(&self, other: &Expression) -> bool {
        expr_view(*self) == expr_view(*other)
    }
}

} // verus!
