//! Expressions of the Lox syntax tree.

use vstd::prelude::*;
use crate::token::{Literal, Token, same_literal, same_token};

verus! {

/// An expression as the parser builds it.
#[allow(inconsistent_fields)]
#[derive(Debug, PartialEq)]
pub enum Expr {
    Binary { left: Box<Expr>, operator: Token, right: Box<Expr> },
    Grouping { expression: Box<Expr> },
    Literal { value: Literal },
    Unary { operator: Token, right: Box<Expr> },
    Variable { name: Token },
    Assign { name: Token, value: Box<Expr> },
    Logical { left: Box<Expr>, operator: Token, right: Box<Expr> },
    Call { callee: Box<Expr>, rparen: Token, args: Vec<Expr> },
}

/// The mathematical shape of an expression: the same tree, with the
/// argument list of a call as a sequence.
#[allow(inconsistent_fields)]
pub enum ExprModel {
    Binary { left: Box<ExprModel>, operator: Token, right: Box<ExprModel> },
    Grouping { expression: Box<ExprModel> },
    Literal { value: Literal },
    Unary { operator: Token, right: Box<ExprModel> },
    Variable { name: Token },
    Assign { name: Token, value: Box<ExprModel> },
    Logical { left: Box<ExprModel>, operator: Token, right: Box<ExprModel> },
    Call { callee: Box<ExprModel>, rparen: Token, args: Seq<ExprModel> },
}

/// The models of a list of expressions.
pub open spec fn exprs_model(exprs: Seq<Expr>) -> Seq<ExprModel>
    decreases exprs, 0nat,
{
    if exprs.len() == 0 {
        Seq::empty()
    } else {
        let n = exprs.len() - 1;
        exprs_model(exprs.subrange(0, n)).push(expr_model(exprs[n]))
    }
}

/// The model of an expression.
pub open spec fn expr_model(e: Expr) -> ExprModel
    decreases e, 1nat,
{
    match e {
        Expr::Binary { left, operator, right } => ExprModel::Binary {
            left: Box::new(expr_model(*left)),
            operator,
            right: Box::new(expr_model(*right)),
        },
        Expr::Grouping { expression } => ExprModel::Grouping {
            expression: Box::new(expr_model(*expression)),
        },
        Expr::Literal { value } => ExprModel::Literal { value },
        Expr::Unary { operator, right } => ExprModel::Unary {
            operator,
            right: Box::new(expr_model(*right)),
        },
        Expr::Variable { name } => ExprModel::Variable { name },
        Expr::Assign { name, value } => ExprModel::Assign {
            name,
            value: Box::new(expr_model(*value)),
        },
        Expr::Logical { left, operator, right } => ExprModel::Logical {
            left: Box::new(expr_model(*left)),
            operator,
            right: Box::new(expr_model(*right)),
        },
        Expr::Call { callee, rparen, args } => ExprModel::Call {
            callee: Box::new(expr_model(*callee)),
            rparen,
            args: exprs_model(args@),
        },
    }
}

impl View for Expr {
    type V = ExprModel;

    open spec fn view(&self) -> ExprModel {
        expr_model(*self)
    }
}

impl Expr {
    /// A copy of a list of expressions, element by element.
    pub fn clone_all(exprs: &Vec<Expr>) -> (r: Vec<Expr>)
        ensures
            exprs_model(r@) == exprs_model(exprs@),
        decreases exprs@, 0nat,
    {
        let mut out: Vec<Expr> = Vec::new();
        let n = exprs.len();
        for i in 0..n
            invariant
                n == exprs@.len(),
                out@.len() == i,
                exprs_model(out@) == exprs_model(exprs@.subrange(0, i as int)),
        {
            assert(decreases_to!(exprs@ => exprs@[i as int]));
            let e = exprs[i].deep_copy();
            let ghost before = out@;
            out.push(e);
            assert(out@.subrange(0, i as int) =~= before);
            assert(exprs@.subrange(0, i + 1).subrange(0, i as int) =~= exprs@.subrange(0, i as int));
        }
        assert(exprs@.subrange(0, n as int) =~= exprs@);
        out
    }

    /// A copy of this expression, node by node.
    pub fn deep_copy(&self) -> (r: Expr)
        ensures
            r@ == self@,
        decreases *self, 1nat,
    {
        match self {
            Expr::Binary { left, operator, right } => Expr::Binary {
                left: Box::new(left.deep_copy()),
                operator: operator.clone(),
                right: Box::new(right.deep_copy()),
            },
            Expr::Grouping { expression } => Expr::Grouping {
                expression: Box::new(expression.deep_copy()),
            },
            Expr::Literal { value } => Expr::Literal { value: value.clone() },
            Expr::Unary { operator, right } => Expr::Unary {
                operator: operator.clone(),
                right: Box::new(right.deep_copy()),
            },
            Expr::Variable { name } => Expr::Variable { name: name.clone() },
            Expr::Assign { name, value } => Expr::Assign {
                name: name.clone(),
                value: Box::new(value.deep_copy()),
            },
            Expr::Logical { left, operator, right } => Expr::Logical {
                left: Box::new(left.deep_copy()),
                operator: operator.clone(),
                right: Box::new(right.deep_copy()),
            },
            Expr::Call { callee, rparen, args } => {
                assert(decreases_to!(*self => *args));
                Expr::Call {
                    callee: Box::new(callee.deep_copy()),
                    rparen: rparen.clone(),
                    args: Expr::clone_all(args),
                }
            },
        }
    }
}

/// Whether two expressions are the same tree, with the same tokens.
pub open spec fn expr_same(a: Expr, b: Expr) -> bool
    decreases a, 1nat,
{
    match (a, b) {
        (Expr::Binary { left: l1, operator: o1, right: r1 }, Expr::Binary { left: l2, operator: o2, right: r2 }) => {
            expr_same(*l1, *l2) && o1@ == o2@ && expr_same(*r1, *r2)
        },
        (Expr::Grouping { expression: e1 }, Expr::Grouping { expression: e2 }) => expr_same(*e1, *e2),
        (Expr::Literal { value: v1 }, Expr::Literal { value: v2 }) => v1@ == v2@,
        (Expr::Unary { operator: o1, right: r1 }, Expr::Unary { operator: o2, right: r2 }) => {
            o1@ == o2@ && expr_same(*r1, *r2)
        },
        (Expr::Variable { name: n1 }, Expr::Variable { name: n2 }) => n1@ == n2@,
        (Expr::Assign { name: n1, value: v1 }, Expr::Assign { name: n2, value: v2 }) => {
            n1@ == n2@ && expr_same(*v1, *v2)
        },
        (Expr::Logical { left: l1, operator: o1, right: r1 }, Expr::Logical { left: l2, operator: o2, right: r2 }) => {
            expr_same(*l1, *l2) && o1@ == o2@ && expr_same(*r1, *r2)
        },
        (Expr::Call { callee: c1, rparen: p1, args: a1 }, Expr::Call { callee: c2, rparen: p2, args: a2 }) => {
            expr_same(*c1, *c2) && p1@ == p2@ && exprs_same(a1@, a2@)
        },
        _ => false,
    }
}

/// Whether two lists of expressions are the same, element by element.
pub open spec fn exprs_same(a: Seq<Expr>, b: Seq<Expr>) -> bool
    decreases a, 0nat,
{
    if a.len() != b.len() {
        false
    } else if a.len() == 0 {
        true
    } else {
        let n = a.len() - 1;
        exprs_same(a.subrange(0, n), b.subrange(0, n)) && expr_same(a[n], b[n])
    }
}

impl Expr {
    /// Whether this expression is the same tree as `other`.
    pub fn same_as(&self, other: &Expr) -> (r: bool)
        ensures
            r == expr_same(*self, *other),
        decreases *self, 1nat,
    {
        match (self, other) {
            (Expr::Binary { left: l1, operator: o1, right: r1 }, Expr::Binary { left: l2, operator: o2, right: r2 }) => {
                l1.same_as(l2) && same_token(o1, o2) && r1.same_as(r2)
            },
            (Expr::Grouping { expression: e1 }, Expr::Grouping { expression: e2 }) => e1.same_as(e2),
            (Expr::Literal { value: v1 }, Expr::Literal { value: v2 }) => same_literal(v1, v2),
            (Expr::Unary { operator: o1, right: r1 }, Expr::Unary { operator: o2, right: r2 }) => {
                same_token(o1, o2) && r1.same_as(r2)
            },
            (Expr::Variable { name: n1 }, Expr::Variable { name: n2 }) => same_token(n1, n2),
            (Expr::Assign { name: n1, value: v1 }, Expr::Assign { name: n2, value: v2 }) => {
                same_token(n1, n2) && v1.same_as(v2)
            },
            (Expr::Logical { left: l1, operator: o1, right: r1 }, Expr::Logical { left: l2, operator: o2, right: r2 }) => {
                l1.same_as(l2) && same_token(o1, o2) && r1.same_as(r2)
            },
            (Expr::Call { callee: c1, rparen: p1, args: a1 }, Expr::Call { callee: c2, rparen: p2, args: a2 }) => {
                assert(decreases_to!(*self => *a1));
                c1.same_as(c2) && same_token(p1, p2) && Expr::all_same(a1, a2)
            },
            _ => false,
        }
    }

    /// Whether two lists of expressions are the same, element by element.
    pub fn all_same(a: &Vec<Expr>, b: &Vec<Expr>) -> (r: bool)
        ensures
            r == exprs_same(a@, b@),
        decreases a@, 0nat,
    {
        if a.len() != b.len() {
            return false;
        }
        let n = a.len();
        let mut i: usize = 0;
        while i < n
            invariant
                n == a@.len(),
                n == b@.len(),
                i <= n,
                exprs_same(a@.subrange(0, i as int), b@.subrange(0, i as int)),
            decreases n - i,
        {
            assert(decreases_to!(a@ => a@[i as int]));
            if !a[i].same_as(&b[i]) {
                assert(!exprs_same(a@.subrange(0, i + 1), b@.subrange(0, i + 1))) by {
                    assert(a@.subrange(0, i + 1)[i as int] == a@[i as int]);
                    assert(b@.subrange(0, i + 1)[i as int] == b@[i as int]);
                }
                proof {
                    lemma_exprs_same_prefix(a@, b@, i + 1);
                }
                return false;
            }
            assert(a@.subrange(0, i + 1).subrange(0, i as int) =~= a@.subrange(0, i as int));
            assert(b@.subrange(0, i + 1).subrange(0, i as int) =~= b@.subrange(0, i as int));
            i = i + 1;
        }
        assert(a@.subrange(0, n as int) =~= a@);
        assert(b@.subrange(0, n as int) =~= b@);
        true
    }
}

/// Lists that differ on a prefix differ.
proof fn lemma_exprs_same_prefix(a: Seq<Expr>, b: Seq<Expr>, k: int)
    requires
        0 <= k <= a.len(),
        a.len() == b.len(),
        !exprs_same(a.subrange(0, k), b.subrange(0, k)),
    ensures
        !exprs_same(a, b),
    decreases a.len() - k,
{
    if k < a.len() {
        let n = k + 1;
        assert(a.subrange(0, n).subrange(0, k) =~= a.subrange(0, k));
        assert(b.subrange(0, n).subrange(0, k) =~= b.subrange(0, k));
        lemma_exprs_same_prefix(a, b, n);
    } else {
        assert(a.subrange(0, k) =~= a);
        assert(b.subrange(0, k) =~= b);
    }
}

} // verus!
