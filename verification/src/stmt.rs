//! Statements of the Lox syntax tree.

use vstd::prelude::*;
use crate::expr::{Expr, ExprModel, expr_model, expr_same};
use crate::token::{Token, same_token};

verus! {

/// A statement as the parser builds it.
#[allow(inconsistent_fields)]
#[derive(Debug, PartialEq)]
pub enum Stmt {
    Expression { expression: Expr },
    Print { expression: Expr },
    Var { name: Token, initializer: Expr },
    Block { statements: Vec<Stmt> },
    If { condition: Expr, then_branch: Box<Stmt>, else_branch: Option<Box<Stmt>> },
    While { condition: Expr, body: Box<Stmt> },
    For {
        initializer: Option<Box<Stmt>>,
        condition: Expr,
        increment: Option<Expr>,
        body: Box<Stmt>,
    },
    Function { name: Token, params: Vec<Token>, body: Vec<Stmt> },
    Return { keyword: Token, value: Expr },
    Break { keyword: Token },
    Continue { keyword: Token },
}

/// The mathematical shape of a statement, with lists as sequences.
#[allow(inconsistent_fields)]
pub enum StmtModel {
    Expression { expression: ExprModel },
    Print { expression: ExprModel },
    Var { name: Token, initializer: ExprModel },
    Block { statements: Seq<StmtModel> },
    If {
        condition: ExprModel,
        then_branch: Box<StmtModel>,
        else_branch: Option<Box<StmtModel>>,
    },
    While { condition: ExprModel, body: Box<StmtModel> },
    For {
        initializer: Option<Box<StmtModel>>,
        condition: ExprModel,
        increment: Option<ExprModel>,
        body: Box<StmtModel>,
    },
    Function { name: Token, params: Seq<Token>, body: Seq<StmtModel> },
    Return { keyword: Token, value: ExprModel },
    Break { keyword: Token },
    Continue { keyword: Token },
}

/// The models of a list of statements.
pub open spec fn stmts_model(stmts: Seq<Stmt>) -> Seq<StmtModel>
    decreases stmts, 0nat,
{
    if stmts.len() == 0 {
        Seq::empty()
    } else {
        let n = stmts.len() - 1;
        stmts_model(stmts.subrange(0, n)).push(stmt_model(stmts[n]))
    }
}

/// The model of a statement.
pub open spec fn stmt_model(s: Stmt) -> StmtModel
    decreases s, 1nat,
{
    match s {
        Stmt::Expression { expression } => StmtModel::Expression {
            expression: expr_model(expression),
        },
        Stmt::Print { expression } => StmtModel::Print { expression: expr_model(expression) },
        Stmt::Var { name, initializer } => StmtModel::Var {
            name,
            initializer: expr_model(initializer),
        },
        Stmt::Block { statements } => StmtModel::Block { statements: stmts_model(statements@) },
        Stmt::If { condition, then_branch, else_branch } => StmtModel::If {
            condition: expr_model(condition),
            then_branch: Box::new(stmt_model(*then_branch)),
            else_branch: match else_branch {
                Some(b) => Some(Box::new(stmt_model(*b))),
                None => None,
            },
        },
        Stmt::While { condition, body } => StmtModel::While {
            condition: expr_model(condition),
            body: Box::new(stmt_model(*body)),
        },
        Stmt::For { initializer, condition, increment, body } => StmtModel::For {
            initializer: match initializer {
                Some(b) => Some(Box::new(stmt_model(*b))),
                None => None,
            },
            condition: expr_model(condition),
            increment: match increment {
                Some(e) => Some(expr_model(e)),
                None => None,
            },
            body: Box::new(stmt_model(*body)),
        },
        Stmt::Function { name, params, body } => StmtModel::Function {
            name,
            params: params@,
            body: stmts_model(body@),
        },
        Stmt::Return { keyword, value } => StmtModel::Return { keyword, value: expr_model(value) },
        Stmt::Break { keyword } => StmtModel::Break { keyword },
        Stmt::Continue { keyword } => StmtModel::Continue { keyword },
    }
}

/// The model of a list has one model per statement, in order.
pub proof fn lemma_stmts_model_index(v: Seq<Stmt>)
    ensures
        stmts_model(v).len() == v.len(),
        forall|i: int| 0 <= i < v.len() ==> #[trigger] stmts_model(v)[i] == stmt_model(v[i]),
    decreases v.len(),
{
    if v.len() > 0 {
        let n = v.len() - 1;
        lemma_stmts_model_index(v.subrange(0, n));
        assert forall|i: int| 0 <= i < v.len() implies #[trigger] stmts_model(v)[i] == stmt_model(
            v[i],
        ) by {
            if i < n {
                assert(v.subrange(0, n)[i] == v[i]);
            }
        }
    }
}

impl View for Stmt {
    type V = StmtModel;

    open spec fn view(&self) -> StmtModel {
        stmt_model(*self)
    }
}

/// A copy of a list of tokens.
pub fn clone_tokens(tokens: &Vec<Token>) -> (r: Vec<Token>)
    ensures
        r@ == tokens@,
{
    let mut out: Vec<Token> = Vec::new();
    let n = tokens.len();
    for i in 0..n
        invariant
            n == tokens@.len(),
            out@ == tokens@.subrange(0, i as int),
    {
        out.push(tokens[i].clone());
        assert(out@ =~= tokens@.subrange(0, i + 1));
    }
    assert(tokens@.subrange(0, n as int) =~= tokens@);
    out
}

impl Stmt {
    /// A copy of a list of statements, element by element.
    pub fn clone_all(stmts: &Vec<Stmt>) -> (r: Vec<Stmt>)
        ensures
            stmts_model(r@) == stmts_model(stmts@),
        decreases stmts@, 0nat,
    {
        let mut out: Vec<Stmt> = Vec::new();
        let n = stmts.len();
        for i in 0..n
            invariant
                n == stmts@.len(),
                out@.len() == i,
                stmts_model(out@) == stmts_model(stmts@.subrange(0, i as int)),
        {
            assert(decreases_to!(stmts@ => stmts@[i as int]));
            let s = stmts[i].deep_copy();
            let ghost before = out@;
            out.push(s);
            assert(out@.subrange(0, i as int) =~= before);
            assert(stmts@.subrange(0, i + 1).subrange(0, i as int) =~= stmts@.subrange(0, i as int));
        }
        assert(stmts@.subrange(0, n as int) =~= stmts@);
        out
    }

    /// A copy of this statement, node by node.
    pub fn deep_copy(&self) -> (r: Stmt)
        ensures
            r@ == self@,
        decreases *self, 1nat,
    {
        match self {
            Stmt::Expression { expression } => Stmt::Expression { expression: expression.deep_copy() },
            Stmt::Print { expression } => Stmt::Print { expression: expression.deep_copy() },
            Stmt::Var { name, initializer } => Stmt::Var {
                name: name.clone(),
                initializer: initializer.deep_copy(),
            },
            Stmt::Block { statements } => {
                assert(decreases_to!(*self => *statements));
                Stmt::Block { statements: Stmt::clone_all(statements) }
            },
            Stmt::If { condition, then_branch, else_branch } => {
                let c = condition.deep_copy();
                let t = then_branch.deep_copy();
                let e = match else_branch {
                    Some(b) => Some(Box::new(b.deep_copy())),
                    None => None,
                };
                Stmt::If { condition: c, then_branch: Box::new(t), else_branch: e }
            },
            Stmt::While { condition, body } => Stmt::While {
                condition: condition.deep_copy(),
                body: Box::new(body.deep_copy()),
            },
            Stmt::For { initializer, condition, increment, body } => {
                let i = match initializer {
                    Some(b) => Some(Box::new(b.deep_copy())),
                    None => None,
                };
                let inc = match increment {
                    Some(e) => Some(e.deep_copy()),
                    None => None,
                };
                Stmt::For {
                    initializer: i,
                    condition: condition.deep_copy(),
                    increment: inc,
                    body: Box::new(body.deep_copy()),
                }
            },
            Stmt::Function { name, params, body } => {
                assert(decreases_to!(*self => *body));
                Stmt::Function {
                    name: name.clone(),
                    params: clone_tokens(params),
                    body: Stmt::clone_all(body),
                }
            },
            Stmt::Return { keyword, value } => Stmt::Return {
                keyword: keyword.clone(),
                value: value.deep_copy(),
            },
            Stmt::Break { keyword } => Stmt::Break { keyword: keyword.clone() },
            Stmt::Continue { keyword } => Stmt::Continue { keyword: keyword.clone() },
        }
    }
}

/// Whether two lists of tokens are the same, element by element.
pub open spec fn tokens_same(a: Seq<Token>, b: Seq<Token>) -> bool {
    a.len() == b.len() && forall|i: int| 0 <= i < a.len() ==> (#[trigger] a[i])@ == b[i]@
}

/// Whether two statements are the same tree, with the same tokens.
pub open spec fn stmt_same(a: Stmt, b: Stmt) -> bool
    decreases a, 1nat,
{
    match (a, b) {
        (Stmt::Expression { expression: e1 }, Stmt::Expression { expression: e2 }) => expr_same(e1, e2),
        (Stmt::Print { expression: e1 }, Stmt::Print { expression: e2 }) => expr_same(e1, e2),
        (Stmt::Var { name: n1, initializer: i1 }, Stmt::Var { name: n2, initializer: i2 }) => {
            n1@ == n2@ && expr_same(i1, i2)
        },
        (Stmt::Block { statements: s1 }, Stmt::Block { statements: s2 }) => stmts_same(s1@, s2@),
        (
            Stmt::If { condition: c1, then_branch: t1, else_branch: e1 },
            Stmt::If { condition: c2, then_branch: t2, else_branch: e2 },
        ) => {
            &&& expr_same(c1, c2)
            &&& stmt_same(*t1, *t2)
            &&& match (e1, e2) {
                (None, None) => true,
                (Some(x), Some(y)) => stmt_same(*x, *y),
                _ => false,
            }
        },
        (Stmt::While { condition: c1, body: b1 }, Stmt::While { condition: c2, body: b2 }) => {
            expr_same(c1, c2) && stmt_same(*b1, *b2)
        },
        (
            Stmt::For { initializer: i1, condition: c1, increment: n1, body: b1 },
            Stmt::For { initializer: i2, condition: c2, increment: n2, body: b2 },
        ) => {
            &&& match (i1, i2) {
                (None, None) => true,
                (Some(x), Some(y)) => stmt_same(*x, *y),
                _ => false,
            }
            &&& expr_same(c1, c2)
            &&& match (n1, n2) {
                (None, None) => true,
                (Some(x), Some(y)) => expr_same(x, y),
                _ => false,
            }
            &&& stmt_same(*b1, *b2)
        },
        (Stmt::Function { name: n1, params: p1, body: b1 }, Stmt::Function { name: n2, params: p2, body: b2 }) => {
            n1@ == n2@ && tokens_same(p1@, p2@) && stmts_same(b1@, b2@)
        },
        (Stmt::Return { keyword: k1, value: v1 }, Stmt::Return { keyword: k2, value: v2 }) => {
            k1@ == k2@ && expr_same(v1, v2)
        },
        (Stmt::Break { keyword: k1 }, Stmt::Break { keyword: k2 }) => k1@ == k2@,
        (Stmt::Continue { keyword: k1 }, Stmt::Continue { keyword: k2 }) => k1@ == k2@,
        _ => false,
    }
}

/// Whether two lists of statements are the same, element by element.
pub open spec fn stmts_same(a: Seq<Stmt>, b: Seq<Stmt>) -> bool
    decreases a, 0nat,
{
    if a.len() != b.len() {
        false
    } else if a.len() == 0 {
        true
    } else {
        let n = a.len() - 1;
        stmts_same(a.subrange(0, n), b.subrange(0, n)) && stmt_same(a[n], b[n])
    }
}

/// Whether two lists of tokens are the same.
pub fn same_tokens(a: &Vec<Token>, b: &Vec<Token>) -> (r: bool)
    ensures
        r == tokens_same(a@, b@),
{
    if a.len() != b.len() {
        return false;
    }
    let n = a.len();
    let mut i: usize = 0;
    while i < n
        invariant
            n == a@.len(),
            n == b@.len(),
            i <= n,
            forall|j: int| 0 <= j < i ==> (#[trigger] a@[j])@ == b@[j]@,
        decreases n - i,
    {
        if !same_token(&a[i], &b[i]) {
            return false;
        }
        i = i + 1;
    }
    true
}

impl Stmt {
    /// Whether this statement is the same tree as `other`.
    pub fn same_as(&self, other: &Stmt) -> (r: bool)
        ensures
            r == stmt_same(*self, *other),
        decreases *self, 1nat,
    {
        match (self, other) {
            (Stmt::Expression { expression: e1 }, Stmt::Expression { expression: e2 }) => e1.same_as(e2),
            (Stmt::Print { expression: e1 }, Stmt::Print { expression: e2 }) => e1.same_as(e2),
            (Stmt::Var { name: n1, initializer: i1 }, Stmt::Var { name: n2, initializer: i2 }) => {
                same_token(n1, n2) && i1.same_as(i2)
            },
            (Stmt::Block { statements: s1 }, Stmt::Block { statements: s2 }) => {
                assert(decreases_to!(*self => *s1));
                Stmt::all_same(s1, s2)
            },
            (
                Stmt::If { condition: c1, then_branch: t1, else_branch: e1 },
                Stmt::If { condition: c2, then_branch: t2, else_branch: e2 },
            ) => {
                c1.same_as(c2) && t1.same_as(t2) && match (e1, e2) {
                    (None, None) => true,
                    (Some(x), Some(y)) => x.same_as(y),
                    _ => false,
                }
            },
            (Stmt::While { condition: c1, body: b1 }, Stmt::While { condition: c2, body: b2 }) => {
                c1.same_as(c2) && b1.same_as(b2)
            },
            (
                Stmt::For { initializer: i1, condition: c1, increment: n1, body: b1 },
                Stmt::For { initializer: i2, condition: c2, increment: n2, body: b2 },
            ) => {
                let inits = match (i1, i2) {
                    (None, None) => true,
                    (Some(x), Some(y)) => x.same_as(y),
                    _ => false,
                };
                let incs = match (n1, n2) {
                    (None, None) => true,
                    (Some(x), Some(y)) => x.same_as(y),
                    _ => false,
                };
                inits && c1.same_as(c2) && incs && b1.same_as(b2)
            },
            (Stmt::Function { name: n1, params: p1, body: b1 }, Stmt::Function { name: n2, params: p2, body: b2 }) => {
                assert(decreases_to!(*self => *b1));
                same_token(n1, n2) && same_tokens(p1, p2) && Stmt::all_same(b1, b2)
            },
            (Stmt::Return { keyword: k1, value: v1 }, Stmt::Return { keyword: k2, value: v2 }) => {
                same_token(k1, k2) && v1.same_as(v2)
            },
            (Stmt::Break { keyword: k1 }, Stmt::Break { keyword: k2 }) => same_token(k1, k2),
            (Stmt::Continue { keyword: k1 }, Stmt::Continue { keyword: k2 }) => same_token(k1, k2),
            _ => false,
        }
    }

    /// Whether two lists of statements are the same, element by element.
    pub fn all_same(a: &Vec<Stmt>, b: &Vec<Stmt>) -> (r: bool)
        ensures
            r == stmts_same(a@, b@),
        decreases a@, 0nat,
    {
        if a.len() != b.len() {
            return false;
        }
        let n = a.len();
        let mut i: usize = 0;
        while i < n
            invariant
                n == a@.len(),
                n == b@.len(),
                i <= n,
                stmts_same(a@.subrange(0, i as int), b@.subrange(0, i as int)),
            decreases n - i,
        {
            assert(decreases_to!(a@ => a@[i as int]));
            if !a[i].same_as(&b[i]) {
                assert(!stmts_same(a@.subrange(0, i + 1), b@.subrange(0, i + 1))) by {
                    assert(a@.subrange(0, i + 1)[i as int] == a@[i as int]);
                    assert(b@.subrange(0, i + 1)[i as int] == b@[i as int]);
                }
                proof {
                    lemma_stmts_same_prefix(a@, b@, i + 1);
                }
                return false;
            }
            assert(a@.subrange(0, i + 1).subrange(0, i as int) =~= a@.subrange(0, i as int));
            assert(b@.subrange(0, i + 1).subrange(0, i as int) =~= b@.subrange(0, i as int));
            i = i + 1;
        }
        assert(a@.subrange(0, n as int) =~= a@);
        assert(b@.subrange(0, n as int) =~= b@);
        true
    }
}

/// Lists that differ on a prefix differ.
proof fn lemma_stmts_same_prefix(a: Seq<Stmt>, b: Seq<Stmt>, k: int)
    requires
        0 <= k <= a.len(),
        a.len() == b.len(),
        !stmts_same(a.subrange(0, k), b.subrange(0, k)),
    ensures
        !stmts_same(a, b),
    decreases a.len() - k,
{
    if k < a.len() {
        let n = k + 1;
        assert(a.subrange(0, n).subrange(0, k) =~= a.subrange(0, k));
        assert(b.subrange(0, n).subrange(0, k) =~= b.subrange(0, k));
        lemma_stmts_same_prefix(a, b, n);
    } else {
        assert(a.subrange(0, k) =~= a);
        assert(b.subrange(0, k) =~= b);
    }
}

} // verus!
