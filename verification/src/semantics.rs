//! The meaning of programs: a big-step relation between a state before
//! evaluating an expression (or executing a statement), its result, and
//! the state after.
//!
//! Where the runtime's host answers (what a number literal denotes, the
//! results of arithmetic and of comparisons between numbers, how a
//! printed number reads, and the clock), the state records the question
//! with the answer, and the result is that answer.

use std::rc::Rc;
use vstd::prelude::*;
use crate::callable::{Callable, Function, NativeFunction, NativeKind, Value};
use crate::env::{ScopeModel, define_in, enclose, lookup, owner};
use crate::error::EvalError;
use crate::expr::Expr;
use crate::interpreter::{Flow, FunctionDecl};
use crate::stmt::{Stmt, stmts_model, stmts_same};
use crate::text::decimal;
use crate::token::{Literal, Token, TokenType};

verus! {

/// What evaluation can see and change: the scopes, the declarations of
/// the functions made so far, the steps left, the lines printed, and the
/// questions put to the number host with its answers.
pub struct IState {
    pub scopes: Seq<ScopeModel>,
    pub decls: Seq<Rc<FunctionDecl>>,
    pub steps: nat,
    pub out: Seq<Seq<char>>,
    pub asked: Seq<HostAsk>,
}

/// Marks the intermediate results and states that the relations below
/// speak of: the trigger by which they are instantiated.
pub open spec fn chosen<A>(a: A) -> bool {
    true
}

/// The state after one step is spent.
pub open spec fn spent(s: IState) -> IState {
    IState { steps: (s.steps - 1) as nat, ..s }
}

/// The state with other scopes.
pub open spec fn with_scopes(s: IState, m: Seq<ScopeModel>) -> IState {
    IState { scopes: m, ..s }
}

/// The error reported when the step budget is spent.
pub open spec fn is_step_limit_error(e: EvalError) -> bool {
    &&& e.token.token_type == TokenType::Eof
    &&& e.token.lexeme@ == Seq::<char>::empty()
    &&& e.token.literal is None
    &&& e.token.line == 0
    &&& e.token.column == 0
    &&& e.message@ == "Step limit reached."@
}

/// A result that is an error at `token` with message `m`.
pub open spec fn fails_at<T>(r: Result<T, EvalError>, token: Token, m: Seq<char>) -> bool {
    r matches Err(e) && e.token == token && e.message@ == m
}

/// Two function declarations with the same parameter names and the same
/// body.
pub open spec fn decl_same(a: FunctionDecl, b: FunctionDecl) -> bool {
    &&& a.params@.len() == b.params@.len()
    &&& forall|i: int| 0 <= i < a.params@.len() ==> (#[trigger] a.params@[i])@ == b.params@[i]@
    &&& stmts_same(a.body@, b.body@)
}

/// Lox equality of two values that are not both numbers, where `decls`
/// are the declarations of the functions made so far: functions are equal
/// when they have the same name, parameters and body.
pub open spec fn same_value(a: Value, b: Value, decls: Seq<Rc<FunctionDecl>>) -> bool {
    match (a, b) {
        (Value::Str(x), Value::Str(y)) => x@ == y@,
        (Value::Bool(x), Value::Bool(y)) => x == y,
        (Value::Nil, Value::Nil) => true,
        (Value::Callable(Callable::Function(f)), Value::Callable(Callable::Function(g))) => {
            f.name@ == g.name@ && decl_same(*decls[f.declaration as int], *decls[g.declaration as int])
        },
        (Value::Callable(Callable::Native(f)), Value::Callable(Callable::Native(g))) => {
            f.name@ == g.name@ && f.arity == g.arity
        },
        _ => false,
    }
}

/// A question the interpreter put to the runtime's number host, with the
/// host's answer: numbers are bit patterns of doubles.
pub enum HostAsk {
    /// The number a decimal numeral denotes.
    Number(Seq<char>, u64),
    /// `a + b`, and the sum.
    Add(u64, u64, u64),
    /// `a - b`, and the difference.
    Subtract(u64, u64, u64),
    /// `a * b`, and the product.
    Multiply(u64, u64, u64),
    /// `a / b`, and the quotient.
    Divide(u64, u64, u64),
    /// `-a`, and the negation.
    Negate(u64, u64),
    /// `a == b`, and the answer.
    Equal(u64, u64, bool),
    /// `a < b`, and the answer.
    Less(u64, u64, bool),
    /// `a <= b`, and the answer.
    LessEqual(u64, u64, bool),
    /// `a > b`, and the answer.
    Greater(u64, u64, bool),
    /// `a >= b`, and the answer.
    GreaterEqual(u64, u64, bool),
    /// How a number is printed, and the text.
    Text(u64, Seq<char>),
    /// The clock, and its reading.
    Clock(u64),
}

/// The value a literal denotes, where `a0` and `a1` are the questions to
/// the host before and after: a number is what the host answers for the
/// literal's text.
pub open spec fn literal_value(lit: Literal, v: Value, a0: Seq<HostAsk>, a1: Seq<HostAsk>) -> bool {
    match lit {
        Literal::Number(text) => v matches Value::Number(x) && a1 == a0.push(HostAsk::Number(text@, x)),
        Literal::String(s) => (v matches Value::Str(t) && t@ == s@) && a1 == a0,
        Literal::Bool(b) => v == Value::Bool(b) && a1 == a0,
        Literal::Nil => v == Value::Nil && a1 == a0,
    }
}

/// The result of arithmetic operator `op` on numbers `a` and `b`: the
/// host's answer to the question it was asked last.
pub open spec fn arithmetic(op: TokenType, a: u64, b: u64, res: Result<Value, EvalError>, a0: Seq<HostAsk>, a1: Seq<HostAsk>) -> bool {
    res matches Ok(Value::Number(x)) && a1 == a0.push(
        match op {
            TokenType::Plus => HostAsk::Add(a, b, x),
            TokenType::Minus => HostAsk::Subtract(a, b, x),
            TokenType::Star => HostAsk::Multiply(a, b, x),
            _ => HostAsk::Divide(a, b, x),
        },
    )
}

/// The result of comparison `op` on numbers `a` and `b`: the host's
/// answer to the question it was asked last.
pub open spec fn comparison(op: TokenType, a: u64, b: u64, res: Result<Value, EvalError>, a0: Seq<HostAsk>, a1: Seq<HostAsk>) -> bool {
    res matches Ok(Value::Bool(x)) && a1 == a0.push(
        match op {
            TokenType::Greater => HostAsk::Greater(a, b, x),
            TokenType::GreaterEqual => HostAsk::GreaterEqual(a, b, x),
            TokenType::Less => HostAsk::Less(a, b, x),
            _ => HostAsk::LessEqual(a, b, x),
        },
    )
}

/// Lox equality of two values, where `decls` are the declarations of the
/// functions made so far and `a0`, `a1` the questions to the host before
/// and after: two numbers are equal as the host answers.
pub open spec fn equality(a: Value, b: Value, x: bool, decls: Seq<Rc<FunctionDecl>>, a0: Seq<HostAsk>, a1: Seq<HostAsk>) -> bool {
    match (a, b) {
        (Value::Number(n), Value::Number(m)) => a1 == a0.push(HostAsk::Equal(n, m, x)),
        _ => x == same_value(a, b, decls) && a1 == a0,
    }
}

/// The result of binary operator `op` on its operands' results `l` and
/// `r`: the operand types decide whether it is computed or refused.
pub open spec fn binary_result(
    op: Token,
    l: Result<Value, EvalError>,
    r: Result<Value, EvalError>,
    res: Result<Value, EvalError>,
    decls: Seq<Rc<FunctionDecl>>,
    a0: Seq<HostAsk>,
    a1: Seq<HostAsk>,
) -> bool {
    match op.token_type {
        TokenType::Plus => match (l, r) {
            (Ok(Value::Number(a)), Ok(Value::Number(b))) => arithmetic(op.token_type, a, b, res, a0, a1),
            (Ok(Value::Str(a)), Ok(Value::Str(b))) => (res matches Ok(Value::Str(c)) && c@ == a@ + b@) && a1 == a0,
            _ => fails_at(res, op, "Operands must be two numbers or two strings."@) && a1 == a0,
        },
        TokenType::Minus | TokenType::Star | TokenType::Slash => match (l, r) {
            (Ok(Value::Number(a)), Ok(Value::Number(b))) => arithmetic(op.token_type, a, b, res, a0, a1),
            _ => fails_at(res, op, "Operands must be numbers."@) && a1 == a0,
        },
        TokenType::Greater | TokenType::GreaterEqual | TokenType::Less | TokenType::LessEqual => match (
            l,
            r,
        ) {
            (Ok(Value::Number(a)), Ok(Value::Number(b))) => comparison(op.token_type, a, b, res, a0, a1),
            _ => fails_at(res, op, "Operands must be numbers."@) && a1 == a0,
        },
        TokenType::EqualEqual => match (l, r) {
            (Ok(a), Ok(b)) => res matches Ok(Value::Bool(x)) && equality(a, b, x, decls, a0, a1),
            _ => fails_at(res, op, "Operands must be of the same type."@) && a1 == a0,
        },
        TokenType::BangEqual => match (l, r) {
            (Ok(a), Ok(b)) => res matches Ok(Value::Bool(x)) && equality(a, b, !x, decls, a0, a1),
            _ => fails_at(res, op, "Operands must be of the same type."@) && a1 == a0,
        },
        _ => fails_at(res, op, "Unknown operator."@) && a1 == a0,
    }
}

/// The result of unary operator `op` on its operand's result `r`.
pub open spec fn unary_result(
    op: Token,
    r: Result<Value, EvalError>,
    res: Result<Value, EvalError>,
    a0: Seq<HostAsk>,
    a1: Seq<HostAsk>,
) -> bool {
    match op.token_type {
        TokenType::Minus => match r {
            Ok(Value::Number(n)) => res matches Ok(Value::Number(x)) && a1 == a0.push(HostAsk::Negate(n, x)),
            _ => fails_at(res, op, "Operand must be a number."@) && a1 == a0,
        },
        TokenType::Bang => match r {
            Ok(v) => res == Ok::<Value, EvalError>(Value::Bool(!v.truthy())) && a1 == a0,
            _ => fails_at(res, op, "Operand must be a boolean."@) && a1 == a0,
        },
        _ => fails_at(res, op, "Unknown operator."@) && a1 == a0,
    }
}

/// How `print` shows a value other than a number.
pub open spec fn value_text_spec(v: Value) -> Seq<char> {
    match v {
        Value::Str(s) => s@,
        Value::Bool(b) => if b {
            "true"@
        } else {
            "false"@
        },
        Value::Nil => "nil"@,
        Value::Callable(Callable::Function(f)) => "<fn "@ + f.name@ + ">"@,
        Value::Callable(Callable::Native(_)) => "<native fn>"@,
        Value::Number(_) => Seq::empty(),
    }
}

/// The text `text` that `print` shows for `v`, where `a0` and `a1` are the
/// questions to the host before and after: a number as the host writes
/// it.
pub open spec fn printed_text(v: Value, text: Seq<char>, a0: Seq<HostAsk>, a1: Seq<HostAsk>) -> bool {
    match v {
        Value::Number(n) => a1 == a0.push(HostAsk::Text(n, text)),
        _ => text == value_text_spec(v) && a1 == a0,
    }
}

/// The message for a call with `got` arguments to a function of `expected`.
pub open spec fn arity_text(expected: nat, got: nat) -> Seq<char> {
    "Expected "@ + decimal(expected) + " arguments but got "@ + decimal(got) + "."@
}

/// The scopes after parameters `params[i..]` are bound to `args[i..]` in
/// scope `s`, one after another, as far as both lists go.
pub open spec fn bind_params(
    m: Seq<ScopeModel>,
    s: int,
    params: Seq<String>,
    args: Seq<Value>,
    i: int,
) -> Seq<ScopeModel>
    decreases params.len() - i,
{
    if i < 0 || i >= params.len() || i >= args.len() {
        m
    } else {
        bind_params(define_in(m, s, params[i]@, args[i]), s, params, args, i + 1)
    }
}

/// A declaration made from a function statement's parameters and body.
pub open spec fn declared_from(d: FunctionDecl, params: Seq<Token>, body: Seq<Stmt>) -> bool {
    &&& d.params@.len() == params.len()
    &&& forall|i: int| 0 <= i < params.len() ==> (#[trigger] d.params@[i])@ == params[i].lexeme@
    &&& stmts_model(d.body@) == stmts_model(body)
}

/// The function value a declaration named `name` makes: its arity, the
/// index of its declaration, and the scope it closes over.
pub open spec fn closure_of(f: Function, name: Token, arity: nat, decl: nat, sc: int) -> bool {
    &&& f.name@ == name.lexeme@
    &&& f.arity == arity
    &&& f.declaration == decl
    &&& f.env == sc
}

/// Evaluating `e` in scope `sc` from state `s` may give `r` and leave `t`:
/// a step is spent, or the budget is reported spent.
pub open spec fn evals(e: Expr, s: IState, sc: int, r: Result<Value, EvalError>, t: IState) -> bool
    decreases s.steps, 1nat, 0nat,
{
    if s.steps == 0 {
        &&& r matches Err(err) && is_step_limit_error(err)
        &&& t == s
    } else {
        eval_node(e, spent(s), sc, r, t)
    }
}

/// Evaluating `e` once its step is spent (`s1` is the state after).
pub open spec fn eval_node(e: Expr, s1: IState, sc: int, r: Result<Value, EvalError>, t: IState) -> bool
    decreases s1.steps, 4nat, 0nat,
{
    {
        match e {
            Expr::Binary { left, operator, right } => exists|l: Result<Value, EvalError>, m: IState, rr: Result<Value, EvalError>, m2: IState|
                #[trigger] chosen((l, m, rr, m2)) && evals(*left, s1, sc, l, m) && m.steps <= s1.steps && evals(*right, m, sc, rr, m2)
                    && binary_result(operator, l, rr, r, m2.decls, m2.asked, t.asked) && t == IState { asked: t.asked, ..m2 },
            Expr::Grouping { expression } => evals(*expression, s1, sc, r, t),
            Expr::Literal { value } => t == IState { asked: t.asked, ..s1 } && (r matches Ok(v) && literal_value(value, v, s1.asked, t.asked)),
            Expr::Unary { operator, right } => exists|rr: Result<Value, EvalError>, m: IState|
                #[trigger] chosen((rr, m)) && evals(*right, s1, sc, rr, m) && unary_result(operator, rr, r, m.asked, t.asked)
                    && t == IState { asked: t.asked, ..m },
            Expr::Variable { name } => t == s1 && match lookup(s1.scopes, sc, name.lexeme@) {
                Some(v) => r == Ok::<Value, EvalError>(v),
                None => fails_at(r, name, "Undefined variable."@),
            },
            Expr::Assign { name, value } => exists|rv: Result<Value, EvalError>, m: IState|
                #[trigger] chosen((rv, m)) && evals(*value, s1, sc, rv, m) && match rv {
                    Err(_) => r == rv && t == m,
                    Ok(v) => match owner(m.scopes, sc, name.lexeme@) {
                        Some(o) => r == rv && t == with_scopes(m, define_in(m.scopes, o, name.lexeme@, v)),
                        None => fails_at(r, name, "Undefined variable."@) && t == m,
                    },
                },
            Expr::Logical { left, operator, right } => exists|lv: Result<Value, EvalError>, m: IState|
                #[trigger] chosen((lv, m)) && evals(*left, s1, sc, lv, m) && match lv {
                    Err(_) => r == lv && t == m,
                    Ok(v) => match operator.token_type {
                        TokenType::Or => if v.truthy() {
                            r == lv && t == m
                        } else {
                            m.steps <= s1.steps && evals(*right, m, sc, r, t)
                        },
                        TokenType::And => if !v.truthy() {
                            r == lv && t == m
                        } else {
                            m.steps <= s1.steps && evals(*right, m, sc, r, t)
                        },
                        _ => fails_at(r, operator, "Unknown logical operator."@) && t == m,
                    },
                },
            Expr::Call { callee, rparen, args } => exists|rc: Result<Value, EvalError>, m: IState|
                #[trigger] chosen((rc, m)) && evals(*callee, s1, sc, rc, m) && match rc {
                    Err(_) => r == rc && t == m,
                    Ok(f) => exists|ra: Result<Seq<Value>, EvalError>, m2: IState|
                        #[trigger] chosen((ra, m2)) && m.steps <= s1.steps && args_eval(args@, 0, m, sc, Seq::empty(), ra, m2)
                            && match ra {
                            Err(err) => r == Err::<Value, EvalError>(err) && t == m2,
                            Ok(vals) => m2.steps <= s1.steps && calls(f, vals, rparen, m2, r, t),
                        },
                },
        }
    }
}

/// Evaluating the arguments `args[i..]` in order, after the values `acc`:
/// all the values, or the first error.
pub open spec fn args_eval(
    args: Seq<Expr>,
    i: int,
    s: IState,
    sc: int,
    acc: Seq<Value>,
    r: Result<Seq<Value>, EvalError>,
    t: IState,
) -> bool
    decreases s.steps, 2nat, args.len() - i,
{
    if i < 0 || i >= args.len() {
        r == Ok::<Seq<Value>, EvalError>(acc) && t == s
    } else {
        exists|ra: Result<Value, EvalError>, m: IState|
            #[trigger] chosen((ra, m)) && evals(args[i], s, sc, ra, m) && match ra {
                Err(err) => r == Err::<Seq<Value>, EvalError>(err) && t == m,
                Ok(v) => m.steps <= s.steps && args_eval(args, i + 1, m, sc, acc.push(v), r, t),
            }
    }
}

/// Calling the declared function `func` with `args`: its body runs in a
/// new scope, enclosed by the one it closes over, where its parameters are
/// bound to the arguments; its value is that of the `return` that ends
/// it, else `nil`.
pub open spec fn function_call(
    func: Function,
    args: Seq<Value>,
    s: IState,
    r: Result<Value, EvalError>,
    t: IState,
) -> bool
    decreases s.steps, 3nat, 0nat,
{
    if func.declaration >= s.decls.len() {
        false
    } else {
        let decl = *s.decls[func.declaration as int];
        let fs = s.scopes.len() as int;
        let s2 = with_scopes(
            s,
            bind_params(enclose(s.scopes, func.env as int), fs, decl.params@, args, 0),
        );
        exists|rb: Result<Flow, EvalError>|
            #[trigger] chosen(rb) && block_execs(decl.body@, 0, s2, fs, rb, t) && match rb {
                Err(err) => r == Err::<Value, EvalError>(err),
                Ok(Flow::Return(v)) => r == Ok::<Value, EvalError>(v),
                Ok(_) => r == Ok::<Value, EvalError>(Value::Nil),
            }
    }
}

/// Calling a function the interpreter provides, where `a0` and `a1` are
/// the questions to the host before and after: `clock` gives the reading
/// the host answered.
pub open spec fn native_call(n: NativeFunction, r: Result<Value, EvalError>, a0: Seq<HostAsk>, a1: Seq<HostAsk>) -> bool {
    match n.kind {
        NativeKind::Clock => r matches Ok(Value::Number(x)) && a1 == a0.push(HostAsk::Clock(x)),
    }
}

/// Calling `f` with `args` (the call's closing parenthesis `rparen`),
/// after checking that it can be called with that many arguments.
pub open spec fn calls(
    f: Value,
    args: Seq<Value>,
    rparen: Token,
    s: IState,
    r: Result<Value, EvalError>,
    t: IState,
) -> bool
    decreases s.steps, 3nat, 1nat,
{
    match f {
        Value::Callable(Callable::Function(func)) => if args.len() != func.arity {
            fails_at(r, rparen, arity_text(func.arity as nat, args.len())) && t == s
        } else {
            function_call(func, args, s, r, t)
        },
        Value::Callable(Callable::Native(n)) => if args.len() != n.arity {
            fails_at(r, rparen, arity_text(n.arity as nat, args.len())) && t == s
        } else {
            native_call(n, r, s.asked, t.asked) && t == IState { asked: t.asked, ..s }
        },
        _ => fails_at(r, rparen, "Can only call functions and classes."@) && t == s,
    }
}

/// Executing `stmts[i..]` in scope `sc` until one ends other than
/// normally.
pub open spec fn block_execs(
    stmts: Seq<Stmt>,
    i: int,
    s: IState,
    sc: int,
    r: Result<Flow, EvalError>,
    t: IState,
) -> bool
    decreases s.steps, 2nat, stmts.len() - i,
{
    if i < 0 || i >= stmts.len() {
        r == Ok::<Flow, EvalError>(Flow::Normal) && t == s
    } else {
        exists|rs: Result<Flow, EvalError>, m: IState|
            #[trigger] chosen((rs, m)) && execs(stmts[i], s, sc, rs, m) && match rs {
                Ok(Flow::Normal) => m.steps <= s.steps && block_execs(stmts, i + 1, m, sc, r, t),
                _ => r == rs && t == m,
            }
    }
}

/// Executing `while (cond) body` from state `s`.
pub open spec fn while_execs(
    cond: Expr,
    body: Stmt,
    s: IState,
    sc: int,
    r: Result<Flow, EvalError>,
    t: IState,
) -> bool
    decreases s.steps, 2nat, 0nat,
{
    exists|rc: Result<Value, EvalError>, m: IState|
        #[trigger] chosen((rc, m)) && evals(cond, s, sc, rc, m) && match rc {
            Err(err) => r == Err::<Flow, EvalError>(err) && t == m,
            Ok(c) => if !c.truthy() {
                r == Ok::<Flow, EvalError>(Flow::Normal) && t == m
            } else {
                exists|rb: Result<Flow, EvalError>, m2: IState|
                    #[trigger] chosen((rb, m2)) && m.steps <= s.steps && execs(body, m, sc, rb, m2) && match rb {
                        Err(_) | Ok(Flow::Return(_)) => r == rb && t == m2,
                        Ok(Flow::Break) => r == Ok::<Flow, EvalError>(Flow::Normal) && t == m2,
                        _ => m2.steps < s.steps && while_execs(cond, body, m2, sc, r, t),
                    }
            },
        }
}

/// Executing the loop of `for (...; cond; inc) body` from state `s`.
pub open spec fn for_execs(
    cond: Expr,
    inc: Option<Expr>,
    body: Stmt,
    s: IState,
    sc: int,
    r: Result<Flow, EvalError>,
    t: IState,
) -> bool
    decreases s.steps, 2nat, 0nat,
{
    exists|rc: Result<Value, EvalError>, m: IState|
        #[trigger] chosen((rc, m)) && evals(cond, s, sc, rc, m) && match rc {
            Err(err) => r == Err::<Flow, EvalError>(err) && t == m,
            Ok(c) => if !c.truthy() {
                r == Ok::<Flow, EvalError>(Flow::Normal) && t == m
            } else {
                exists|rb: Result<Flow, EvalError>, m2: IState|
                    #[trigger] chosen((rb, m2)) && m.steps <= s.steps && execs(body, m, sc, rb, m2) && match rb {
                        Err(_) | Ok(Flow::Return(_)) => r == rb && t == m2,
                        Ok(Flow::Break) => r == Ok::<Flow, EvalError>(Flow::Normal) && t == m2,
                        _ => match inc {
                            None => m2.steps < s.steps && for_execs(cond, inc, body, m2, sc, r, t),
                            Some(i) => exists|ri: Result<Value, EvalError>, m3: IState|
                                #[trigger] chosen((ri, m3)) && m2.steps < s.steps && evals(i, m2, sc, ri, m3) && match ri {
                                    Err(err) => r == Err::<Flow, EvalError>(err) && t == m3,
                                    Ok(_) => m3.steps < s.steps && for_execs(cond, inc, body, m3, sc, r, t),
                                },
                        },
                    }
            },
        }
}

/// Executing statement `st` in scope `sc` from state `s` may give `r` and
/// leave `t`: a step is spent, or the budget is reported spent.
pub open spec fn execs(st: Stmt, s: IState, sc: int, r: Result<Flow, EvalError>, t: IState) -> bool
    decreases s.steps, 1nat, 0nat,
{
    if s.steps == 0 {
        &&& r matches Err(err) && is_step_limit_error(err)
        &&& t == s
    } else {
        exec_node(st, spent(s), sc, r, t)
    }
}

/// Executing `st` once its step is spent (`s1` is the state after).
pub open spec fn exec_node(st: Stmt, s1: IState, sc: int, r: Result<Flow, EvalError>, t: IState) -> bool
    decreases s1.steps, 4nat, 0nat,
{
    {
        match st {
            Stmt::Expression { expression } => exists|rv: Result<Value, EvalError>|
                #[trigger] chosen(rv) && evals(expression, s1, sc, rv, t) && match rv {
                    Ok(_) => r == Ok::<Flow, EvalError>(Flow::Normal),
                    Err(err) => r == Err::<Flow, EvalError>(err),
                },
            Stmt::Print { expression } => exists|rv: Result<Value, EvalError>, m: IState|
                #[trigger] chosen((rv, m)) && evals(expression, s1, sc, rv, m) && match rv {
                    Err(err) => r == Err::<Flow, EvalError>(err) && t == m,
                    Ok(v) => {
                        &&& r == Ok::<Flow, EvalError>(Flow::Normal)
                        &&& t.scopes == m.scopes && t.decls == m.decls && t.steps == m.steps
                        &&& t.out.len() == m.out.len() + 1
                        &&& t.out.drop_last() == m.out
                        &&& printed_text(v, t.out.last(), m.asked, t.asked)
                    },
                },
            Stmt::Var { name, initializer } => exists|rv: Result<Value, EvalError>, m: IState|
                #[trigger] chosen((rv, m)) && evals(initializer, s1, sc, rv, m) && match rv {
                    Err(err) => r == Err::<Flow, EvalError>(err) && t == m,
                    Ok(v) => r == Ok::<Flow, EvalError>(Flow::Normal) && t == with_scopes(
                        m,
                        define_in(m.scopes, sc, name.lexeme@, v),
                    ),
                },
            Stmt::Block { statements } => block_execs(
                statements@,
                0,
                with_scopes(s1, enclose(s1.scopes, sc)),
                s1.scopes.len() as int,
                r,
                t,
            ),
            Stmt::If { condition, then_branch, else_branch } => exists|rc: Result<Value, EvalError>, m: IState|
                #[trigger] chosen((rc, m)) && evals(condition, s1, sc, rc, m) && match rc {
                    Err(err) => r == Err::<Flow, EvalError>(err) && t == m,
                    Ok(c) => if c.truthy() {
                        m.steps <= s1.steps && execs(*then_branch, m, sc, r, t)
                    } else {
                        match else_branch {
                            Some(e) => m.steps <= s1.steps && execs(*e, m, sc, r, t),
                            None => r == Ok::<Flow, EvalError>(Flow::Normal) && t == m,
                        }
                    },
                },
            Stmt::While { condition, body } => while_execs(condition, *body, s1, sc, r, t),
            Stmt::For { initializer, condition, increment, body } => {
                let ls = s1.scopes.len() as int;
                let s2 = with_scopes(s1, enclose(s1.scopes, sc));
                match initializer {
                    None => for_execs(condition, increment, *body, s2, ls, r, t),
                    Some(init) => exists|ri: Result<Flow, EvalError>, m: IState|
                        #[trigger] chosen((ri, m)) && execs(*init, s2, ls, ri, m) && match ri {
                            Err(err) => r == Err::<Flow, EvalError>(err) && t == m,
                            Ok(_) => m.steps <= s2.steps && for_execs(condition, increment, *body, m, ls, r, t),
                        },
                }
            },
            Stmt::Function { name, params, body } => exists|d: FunctionDecl, f: Function|
                #[trigger] chosen((d, f)) && declared_from(d, params@, body@) && closure_of(f, name, params@.len(), s1.decls.len(), sc) && {
                    &&& r == Ok::<Flow, EvalError>(Flow::Normal)
                    &&& t == IState {
                        scopes: define_in(s1.scopes, sc, name.lexeme@, Value::Callable(Callable::Function(f))),
                        decls: s1.decls.push(Rc::new(d)),
                        ..s1
                    }
                },
            Stmt::Return { keyword, value } => exists|rv: Result<Value, EvalError>|
                #[trigger] chosen(rv) && evals(value, s1, sc, rv, t) && match rv {
                    Ok(v) => r == Ok::<Flow, EvalError>(Flow::Return(v)),
                    Err(err) => r == Err::<Flow, EvalError>(err),
                },
            Stmt::Break { .. } => r == Ok::<Flow, EvalError>(Flow::Break) && t == s1,
            Stmt::Continue { .. } => r == Ok::<Flow, EvalError>(Flow::Continue) && t == s1,
        }
    }
}

/// Running a program's statements `stmts[i..]` in the global scope, each
/// after the last whatever its outcome: the errors, in order, and the
/// state after.
pub open spec fn program_runs(
    stmts: Seq<Stmt>,
    i: int,
    s: IState,
    errs: Seq<EvalError>,
    t: IState,
) -> bool
    decreases stmts.len() - i,
{
    if i < 0 || i >= stmts.len() {
        errs.len() == 0 && t == s
    } else {
        exists|rs: Result<Flow, EvalError>, m: IState|
            #[trigger] chosen((rs, m)) && execs(stmts[i], s, 0, rs, m) && match rs {
                Err(err) => errs.len() > 0 && errs[0] == err && program_runs(stmts, i + 1, m, errs.drop_first(), t),
                Ok(_) => program_runs(stmts, i + 1, m, errs, t),
            }
    }
}

// ---------------------------------------------------------------------
// Facts about the relations: states only grow.
// ---------------------------------------------------------------------

/// `t` is a later state than `s`: scopes and declarations only added,
/// lines only printed, steps only spent.
pub open spec fn grows(s: IState, t: IState) -> bool {
    &&& s.scopes.len() <= t.scopes.len()
    &&& s.decls.len() <= t.decls.len()
    &&& forall|i: int| 0 <= i < s.decls.len() ==> #[trigger] t.decls[i] == s.decls[i]
    &&& s.out.len() <= t.out.len()
    &&& t.steps <= s.steps
}

proof fn lemma_grows_trans(a: IState, b: IState, c: IState)
    requires
        grows(a, b),
        grows(b, c),
    ensures
        grows(a, c),
{
    assert forall|i: int| 0 <= i < a.decls.len() implies #[trigger] c.decls[i] == a.decls[i] by {
        assert(b.decls[i] == a.decls[i]);
    }
}

proof fn lemma_bind_params_len(m: Seq<ScopeModel>, sc: int, params: Seq<String>, args: Seq<Value>, i: int)
    requires
        0 <= sc < m.len(),
    ensures
        bind_params(m, sc, params, args, i).len() == m.len(),
    decreases params.len() - i,
{
    if 0 <= i < params.len() && i < args.len() {
        lemma_bind_params_len(define_in(m, sc, params[i]@, args[i]), sc, params, args, i + 1);
    }
}

proof fn lemma_evals_grow(e: Expr, s: IState, sc: int, r: Result<Value, EvalError>, t: IState)
    requires
        evals(e, s, sc, r, t),
        0 <= sc < s.scopes.len(),
    ensures
        grows(s, t),
    decreases s.steps, 1nat, 0nat,
{
    if s.steps > 0 {
        lemma_eval_node_grow(e, spent(s), sc, r, t);
        lemma_grows_trans(s, spent(s), t);
    }
}

proof fn lemma_eval_node_grow(e: Expr, s1: IState, sc: int, r: Result<Value, EvalError>, t: IState)
    requires
        eval_node(e, s1, sc, r, t),
        0 <= sc < s1.scopes.len(),
    ensures
        grows(s1, t),
    decreases s1.steps, 4nat, 0nat,
{
    match e {
        Expr::Binary { left, operator, right } => {
            let (l, m, rr, m2) = choose|l: Result<Value, EvalError>, m: IState, rr: Result<Value, EvalError>, m2: IState|
                #[trigger] chosen((l, m, rr, m2)) && evals(*left, s1, sc, l, m) && m.steps <= s1.steps && evals(*right, m, sc, rr, m2)
                    && t == IState { asked: t.asked, ..m2 };
            lemma_evals_grow(*left, s1, sc, l, m);
            lemma_evals_grow(*right, m, sc, rr, m2);
            lemma_grows_trans(s1, m, m2);
            lemma_grows_trans(s1, m2, t);
        },
        Expr::Grouping { expression } => {
            lemma_evals_grow(*expression, s1, sc, r, t);
        },
        Expr::Unary { operator, right } => {
            let (rr, m) = choose|rr: Result<Value, EvalError>, m: IState|
                #[trigger] chosen((rr, m)) && evals(*right, s1, sc, rr, m) && t == IState { asked: t.asked, ..m };
            lemma_evals_grow(*right, s1, sc, rr, m);
            lemma_grows_trans(s1, m, t);
        },
        Expr::Assign { name, value } => {
            let (rv, m) = choose|rv: Result<Value, EvalError>, m: IState|
                #[trigger] chosen((rv, m)) && evals(*value, s1, sc, rv, m) && match rv {
                    Err(_) => r == rv && t == m,
                    Ok(v) => match owner(m.scopes, sc, name.lexeme@) {
                        Some(o) => r == rv && t == with_scopes(m, define_in(m.scopes, o, name.lexeme@, v)),
                        None => fails_at(r, name, "Undefined variable."@) && t == m,
                    },
                };
            lemma_evals_grow(*value, s1, sc, rv, m);
            if let Ok(v) = rv {
                if let Some(o) = owner(m.scopes, sc, name.lexeme@) {
                    crate::env::lemma_owner_range(m.scopes, sc, name.lexeme@);
                }
            }
        },
        Expr::Logical { left, operator, right } => {
            let (lv, m) = choose|lv: Result<Value, EvalError>, m: IState|
                #[trigger] chosen((lv, m)) && evals(*left, s1, sc, lv, m) && match lv {
                    Err(_) => r == lv && t == m,
                    Ok(v) => match operator.token_type {
                        TokenType::Or => if v.truthy() {
                            r == lv && t == m
                        } else {
                            m.steps <= s1.steps && evals(*right, m, sc, r, t)
                        },
                        TokenType::And => if !v.truthy() {
                            r == lv && t == m
                        } else {
                            m.steps <= s1.steps && evals(*right, m, sc, r, t)
                        },
                        _ => fails_at(r, operator, "Unknown logical operator."@) && t == m,
                    },
                };
            lemma_evals_grow(*left, s1, sc, lv, m);
            if let Ok(v) = lv {
                if (operator.token_type == TokenType::Or && !v.truthy()) || (operator.token_type
                    == TokenType::And && v.truthy()) {
                    lemma_evals_grow(*right, m, sc, r, t);
                    lemma_grows_trans(s1, m, t);
                }
            }
        },
        Expr::Call { callee, rparen, args } => {
            let (rc, m) = choose|rc: Result<Value, EvalError>, m: IState|
                #[trigger] chosen((rc, m)) && evals(*callee, s1, sc, rc, m) && match rc {
                    Err(_) => r == rc && t == m,
                    Ok(f) => exists|ra: Result<Seq<Value>, EvalError>, m2: IState|
                        #[trigger] chosen((ra, m2)) && m.steps <= s1.steps && args_eval(args@, 0, m, sc, Seq::empty(), ra, m2)
                            && match ra {
                            Err(err) => r == Err::<Value, EvalError>(err) && t == m2,
                            Ok(vals) => m2.steps <= s1.steps && calls(f, vals, rparen, m2, r, t),
                        },
                };
            lemma_evals_grow(*callee, s1, sc, rc, m);
            if let Ok(f) = rc {
                let (ra, m2) = choose|ra: Result<Seq<Value>, EvalError>, m2: IState|
                    #[trigger] chosen((ra, m2)) && m.steps <= s1.steps && args_eval(args@, 0, m, sc, Seq::empty(), ra, m2)
                        && match ra {
                        Err(err) => r == Err::<Value, EvalError>(err) && t == m2,
                        Ok(vals) => m2.steps <= s1.steps && calls(f, vals, rparen, m2, r, t),
                    };
                lemma_args_grow(args@, 0, m, sc, Seq::empty(), ra, m2);
                lemma_grows_trans(s1, m, m2);
                if let Ok(vals) = ra {
                    lemma_calls_grow(f, vals, rparen, m2, r, t);
                    lemma_grows_trans(s1, m2, t);
                }
            }
        },
        _ => {},
    }
}

proof fn lemma_args_grow(
    args: Seq<Expr>,
    i: int,
    s: IState,
    sc: int,
    acc: Seq<Value>,
    r: Result<Seq<Value>, EvalError>,
    t: IState,
)
    requires
        args_eval(args, i, s, sc, acc, r, t),
        0 <= sc < s.scopes.len(),
    ensures
        grows(s, t),
    decreases s.steps, 2nat, args.len() - i,
{
    if 0 <= i < args.len() {
        let (ra, m) = choose|ra: Result<Value, EvalError>, m: IState|
            #[trigger] chosen((ra, m)) && evals(args[i], s, sc, ra, m) && match ra {
                Err(err) => r == Err::<Seq<Value>, EvalError>(err) && t == m,
                Ok(v) => m.steps <= s.steps && args_eval(args, i + 1, m, sc, acc.push(v), r, t),
            };
        lemma_evals_grow(args[i], s, sc, ra, m);
        if let Ok(v) = ra {
            lemma_args_grow(args, i + 1, m, sc, acc.push(v), r, t);
            lemma_grows_trans(s, m, t);
        }
    }
}

proof fn lemma_calls_grow(
    f: Value,
    args: Seq<Value>,
    rparen: Token,
    s: IState,
    r: Result<Value, EvalError>,
    t: IState,
)
    requires
        calls(f, args, rparen, s, r, t),
    ensures
        grows(s, t),
    decreases s.steps, 3nat, 1nat,
{
    if let Value::Callable(Callable::Function(func)) = f {
        if args.len() == func.arity {
            lemma_function_call_grow(func, args, s, r, t);
        }
    }
}

proof fn lemma_function_call_grow(func: Function, args: Seq<Value>, s: IState, r: Result<Value, EvalError>, t: IState)
    requires
        function_call(func, args, s, r, t),
    ensures
        grows(s, t),
    decreases s.steps, 3nat, 0nat,
{
    let decl = *s.decls[func.declaration as int];
    let fs = s.scopes.len() as int;
    let e = enclose(s.scopes, func.env as int);
    let s2 = with_scopes(s, bind_params(e, fs, decl.params@, args, 0));
    lemma_bind_params_len(e, fs, decl.params@, args, 0);
    let rb = choose|rb: Result<Flow, EvalError>| #[trigger] chosen(rb) && block_execs(decl.body@, 0, s2, fs, rb, t);
    lemma_block_grow(decl.body@, 0, s2, fs, rb, t);
}

proof fn lemma_block_grow(stmts: Seq<Stmt>, i: int, s: IState, sc: int, r: Result<Flow, EvalError>, t: IState)
    requires
        block_execs(stmts, i, s, sc, r, t),
        0 <= sc < s.scopes.len(),
    ensures
        grows(s, t),
    decreases s.steps, 2nat, stmts.len() - i,
{
    if 0 <= i < stmts.len() {
        let (rs, m) = choose|rs: Result<Flow, EvalError>, m: IState|
            #[trigger] chosen((rs, m)) && execs(stmts[i], s, sc, rs, m) && match rs {
                Ok(Flow::Normal) => m.steps <= s.steps && block_execs(stmts, i + 1, m, sc, r, t),
                _ => r == rs && t == m,
            };
        lemma_execs_grow(stmts[i], s, sc, rs, m);
        if rs matches Ok(Flow::Normal) {
            lemma_block_grow(stmts, i + 1, m, sc, r, t);
            lemma_grows_trans(s, m, t);
        }
    }
}

proof fn lemma_execs_grow(st: Stmt, s: IState, sc: int, r: Result<Flow, EvalError>, t: IState)
    requires
        execs(st, s, sc, r, t),
        0 <= sc < s.scopes.len(),
    ensures
        grows(s, t),
    decreases s.steps, 1nat, 0nat,
{
    if s.steps > 0 {
        lemma_exec_node_grow(st, spent(s), sc, r, t);
        lemma_grows_trans(s, spent(s), t);
    }
}

proof fn lemma_exec_node_grow(st: Stmt, s1: IState, sc: int, r: Result<Flow, EvalError>, t: IState)
    requires
        exec_node(st, s1, sc, r, t),
        0 <= sc < s1.scopes.len(),
    ensures
        grows(s1, t),
    decreases s1.steps, 4nat, 0nat,
{
    match st {
        Stmt::Expression { expression } => {
            let rv = choose|rv: Result<Value, EvalError>| #[trigger] chosen(rv) && evals(expression, s1, sc, rv, t);
            lemma_evals_grow(expression, s1, sc, rv, t);
        },
        Stmt::Print { expression } => {
            let (rv, m) = choose|rv: Result<Value, EvalError>, m: IState|
                #[trigger] chosen((rv, m)) && evals(expression, s1, sc, rv, m) && match rv {
                    Err(err) => r == Err::<Flow, EvalError>(err) && t == m,
                    Ok(v) => {
                        &&& t.scopes == m.scopes && t.decls == m.decls && t.steps == m.steps
                        &&& t.out.len() == m.out.len() + 1
                    },
                };
            lemma_evals_grow(expression, s1, sc, rv, m);
        },
        Stmt::Var { name, initializer } => {
            let (rv, m) = choose|rv: Result<Value, EvalError>, m: IState|
                #[trigger] chosen((rv, m)) && evals(initializer, s1, sc, rv, m) && match rv {
                    Err(err) => r == Err::<Flow, EvalError>(err) && t == m,
                    Ok(v) => t == with_scopes(m, define_in(m.scopes, sc, name.lexeme@, v)),
                };
            lemma_evals_grow(initializer, s1, sc, rv, m);
        },
        Stmt::Block { statements } => {
            let s2 = with_scopes(s1, enclose(s1.scopes, sc));
            lemma_block_grow(statements@, 0, s2, s1.scopes.len() as int, r, t);
        },
        Stmt::If { condition, then_branch, else_branch } => {
            let (rc, m) = choose|rc: Result<Value, EvalError>, m: IState|
                #[trigger] chosen((rc, m)) && evals(condition, s1, sc, rc, m) && match rc {
                    Err(err) => r == Err::<Flow, EvalError>(err) && t == m,
                    Ok(c) => if c.truthy() {
                        m.steps <= s1.steps && execs(*then_branch, m, sc, r, t)
                    } else {
                        match else_branch {
                            Some(e) => m.steps <= s1.steps && execs(*e, m, sc, r, t),
                            None => r == Ok::<Flow, EvalError>(Flow::Normal) && t == m,
                        }
                    },
                };
            lemma_evals_grow(condition, s1, sc, rc, m);
            if let Ok(c) = rc {
                if c.truthy() {
                    lemma_execs_grow(*then_branch, m, sc, r, t);
                    lemma_grows_trans(s1, m, t);
                } else if let Some(e) = else_branch {
                    lemma_execs_grow(*e, m, sc, r, t);
                    lemma_grows_trans(s1, m, t);
                }
            }
        },
        Stmt::While { condition, body } => {
            lemma_while_grow(condition, *body, s1, sc, r, t);
        },
        Stmt::For { initializer, condition, increment, body } => {
            let ls = s1.scopes.len() as int;
            let s2 = with_scopes(s1, enclose(s1.scopes, sc));
            match initializer {
                None => {
                    lemma_for_grow(condition, increment, *body, s2, ls, r, t);
                },
                Some(init) => {
                    let (ri, m) = choose|ri: Result<Flow, EvalError>, m: IState|
                        #[trigger] chosen((ri, m)) && execs(*init, s2, ls, ri, m) && match ri {
                            Err(err) => r == Err::<Flow, EvalError>(err) && t == m,
                            Ok(_) => m.steps <= s2.steps && for_execs(condition, increment, *body, m, ls, r, t),
                        };
                    lemma_execs_grow(*init, s2, ls, ri, m);
                    if ri is Ok {
                        lemma_for_grow(condition, increment, *body, m, ls, r, t);
                        lemma_grows_trans(s2, m, t);
                    }
                },
            }
        },
        Stmt::Function { name, params, body } => {
            let (d, f) = choose|d: FunctionDecl, f: Function|
                #[trigger] chosen((d, f)) && declared_from(d, params@, body@) && closure_of(f, name, params@.len(), s1.decls.len(), sc) && {
                    &&& r == Ok::<Flow, EvalError>(Flow::Normal)
                    &&& t == IState {
                        scopes: define_in(s1.scopes, sc, name.lexeme@, Value::Callable(Callable::Function(f))),
                        decls: s1.decls.push(Rc::new(d)),
                        ..s1
                    }
                };
        },
        Stmt::Return { keyword, value } => {
            let rv = choose|rv: Result<Value, EvalError>| #[trigger] chosen(rv) && evals(value, s1, sc, rv, t);
            lemma_evals_grow(value, s1, sc, rv, t);
        },
        _ => {},
    }
}

proof fn lemma_while_grow(cond: Expr, body: Stmt, s: IState, sc: int, r: Result<Flow, EvalError>, t: IState)
    requires
        while_execs(cond, body, s, sc, r, t),
        0 <= sc < s.scopes.len(),
    ensures
        grows(s, t),
    decreases s.steps, 2nat, 0nat,
{
    let (rc, m) = choose|rc: Result<Value, EvalError>, m: IState|
        #[trigger] chosen((rc, m)) && evals(cond, s, sc, rc, m) && match rc {
            Err(err) => r == Err::<Flow, EvalError>(err) && t == m,
            Ok(c) => if !c.truthy() {
                r == Ok::<Flow, EvalError>(Flow::Normal) && t == m
            } else {
                exists|rb: Result<Flow, EvalError>, m2: IState|
                    #[trigger] chosen((rb, m2)) && m.steps <= s.steps && execs(body, m, sc, rb, m2) && match rb {
                        Err(_) | Ok(Flow::Return(_)) => r == rb && t == m2,
                        Ok(Flow::Break) => r == Ok::<Flow, EvalError>(Flow::Normal) && t == m2,
                        _ => m2.steps < s.steps && while_execs(cond, body, m2, sc, r, t),
                    }
            },
        };
    lemma_evals_grow(cond, s, sc, rc, m);
    if let Ok(c) = rc {
        if c.truthy() {
            let (rb, m2) = choose|rb: Result<Flow, EvalError>, m2: IState|
                #[trigger] chosen((rb, m2)) && m.steps <= s.steps && execs(body, m, sc, rb, m2) && match rb {
                    Err(_) | Ok(Flow::Return(_)) => r == rb && t == m2,
                    Ok(Flow::Break) => r == Ok::<Flow, EvalError>(Flow::Normal) && t == m2,
                    _ => m2.steps < s.steps && while_execs(cond, body, m2, sc, r, t),
                };
            lemma_execs_grow(body, m, sc, rb, m2);
            lemma_grows_trans(s, m, m2);
            match rb {
                Ok(Flow::Normal) | Ok(Flow::Continue) => {
                    lemma_while_grow(cond, body, m2, sc, r, t);
                    lemma_grows_trans(s, m2, t);
                },
                _ => {},
            }
        }
    }
}

proof fn lemma_for_grow(
    cond: Expr,
    inc: Option<Expr>,
    body: Stmt,
    s: IState,
    sc: int,
    r: Result<Flow, EvalError>,
    t: IState,
)
    requires
        for_execs(cond, inc, body, s, sc, r, t),
        0 <= sc < s.scopes.len(),
    ensures
        grows(s, t),
    decreases s.steps, 2nat, 0nat,
{
    let (rc, m) = choose|rc: Result<Value, EvalError>, m: IState|
        #[trigger] chosen((rc, m)) && evals(cond, s, sc, rc, m) && match rc {
            Err(err) => r == Err::<Flow, EvalError>(err) && t == m,
            Ok(c) => if !c.truthy() {
                r == Ok::<Flow, EvalError>(Flow::Normal) && t == m
            } else {
                exists|rb: Result<Flow, EvalError>, m2: IState|
                    #[trigger] chosen((rb, m2)) && m.steps <= s.steps && execs(body, m, sc, rb, m2) && match rb {
                        Err(_) | Ok(Flow::Return(_)) => r == rb && t == m2,
                        Ok(Flow::Break) => r == Ok::<Flow, EvalError>(Flow::Normal) && t == m2,
                        _ => match inc {
                            None => m2.steps < s.steps && for_execs(cond, inc, body, m2, sc, r, t),
                            Some(i) => exists|ri: Result<Value, EvalError>, m3: IState|
                                #[trigger] chosen((ri, m3)) && m2.steps < s.steps && evals(i, m2, sc, ri, m3) && match ri {
                                    Err(err) => r == Err::<Flow, EvalError>(err) && t == m3,
                                    Ok(_) => m3.steps < s.steps && for_execs(cond, inc, body, m3, sc, r, t),
                                },
                        },
                    }
            },
        };
    lemma_evals_grow(cond, s, sc, rc, m);
    if let Ok(c) = rc {
        if c.truthy() {
            let (rb, m2) = choose|rb: Result<Flow, EvalError>, m2: IState|
                #[trigger] chosen((rb, m2)) && m.steps <= s.steps && execs(body, m, sc, rb, m2) && match rb {
                    Err(_) | Ok(Flow::Return(_)) => r == rb && t == m2,
                    Ok(Flow::Break) => r == Ok::<Flow, EvalError>(Flow::Normal) && t == m2,
                    _ => match inc {
                        None => m2.steps < s.steps && for_execs(cond, inc, body, m2, sc, r, t),
                        Some(i) => exists|ri: Result<Value, EvalError>, m3: IState|
                            #[trigger] chosen((ri, m3)) && m2.steps < s.steps && evals(i, m2, sc, ri, m3) && match ri {
                                Err(err) => r == Err::<Flow, EvalError>(err) && t == m3,
                                Ok(_) => m3.steps < s.steps && for_execs(cond, inc, body, m3, sc, r, t),
                            },
                    },
                };
            lemma_execs_grow(body, m, sc, rb, m2);
            lemma_grows_trans(s, m, m2);
            match rb {
                Ok(Flow::Normal) | Ok(Flow::Continue) => {
                    match inc {
                        None => {
                            lemma_for_grow(cond, inc, body, m2, sc, r, t);
                            lemma_grows_trans(s, m2, t);
                        },
                        Some(i) => {
                            let (ri, m3) = choose|ri: Result<Value, EvalError>, m3: IState|
                                #[trigger] chosen((ri, m3)) && m2.steps < s.steps && evals(i, m2, sc, ri, m3) && match ri {
                                    Err(err) => r == Err::<Flow, EvalError>(err) && t == m3,
                                    Ok(_) => m3.steps < s.steps && for_execs(cond, inc, body, m3, sc, r, t),
                                };
                            lemma_evals_grow(i, m2, sc, ri, m3);
                            lemma_grows_trans(s, m2, m3);
                            if ri is Ok {
                                lemma_for_grow(cond, inc, body, m3, sc, r, t);
                                lemma_grows_trans(s, m3, t);
                            }
                        },
                    }
                },
                _ => {},
            }
        }
    }
}

/// Each operator puts its own question to the host, with the operands in
/// order, and its result is the host's answer: `+`, `-`, `*` and `/` ask
/// for the sum, difference, product and quotient of the left and the
/// right number; `>`, `>=`, `<` and `<=` ask exactly that comparison;
/// `==` asks whether the numbers are equal, and `!=` gives the opposite of
/// that answer.
pub proof fn law_operators_ask_their_own_question(
    op: Token,
    a: u64,
    b: u64,
    res: Result<Value, EvalError>,
    decls: Seq<Rc<FunctionDecl>>,
    a0: Seq<HostAsk>,
    a1: Seq<HostAsk>,
)
    requires
        binary_result(op, Ok(Value::Number(a)), Ok(Value::Number(b)), res, decls, a0, a1),
    ensures
        op.token_type == TokenType::Plus ==> (res matches Ok(Value::Number(x)) && a1 == a0.push(HostAsk::Add(a, b, x))),
        op.token_type == TokenType::Minus ==> (res matches Ok(Value::Number(x)) && a1 == a0.push(HostAsk::Subtract(a, b, x))),
        op.token_type == TokenType::Star ==> (res matches Ok(Value::Number(x)) && a1 == a0.push(HostAsk::Multiply(a, b, x))),
        op.token_type == TokenType::Slash ==> (res matches Ok(Value::Number(x)) && a1 == a0.push(HostAsk::Divide(a, b, x))),
        op.token_type == TokenType::Greater ==> (res matches Ok(Value::Bool(x)) && a1 == a0.push(HostAsk::Greater(a, b, x))),
        op.token_type == TokenType::GreaterEqual ==> (res matches Ok(Value::Bool(x)) && a1 == a0.push(
            HostAsk::GreaterEqual(a, b, x),
        )),
        op.token_type == TokenType::Less ==> (res matches Ok(Value::Bool(x)) && a1 == a0.push(HostAsk::Less(a, b, x))),
        op.token_type == TokenType::LessEqual ==> (res matches Ok(Value::Bool(x)) && a1 == a0.push(
            HostAsk::LessEqual(a, b, x),
        )),
        op.token_type == TokenType::EqualEqual ==> (res matches Ok(Value::Bool(x)) && a1 == a0.push(HostAsk::Equal(a, b, x))),
        op.token_type == TokenType::BangEqual ==> (res matches Ok(Value::Bool(x)) && a1 == a0.push(HostAsk::Equal(a, b, !x))),
{
}

/// Unary minus on a number asks the host for that number's negation, and
/// gives the answer.
pub proof fn law_negation_asks_the_host(
    op: Token,
    n: u64,
    res: Result<Value, EvalError>,
    a0: Seq<HostAsk>,
    a1: Seq<HostAsk>,
)
    requires
        op.token_type == TokenType::Minus,
        unary_result(op, Ok(Value::Number(n)), res, a0, a1),
    ensures
        res matches Ok(Value::Number(x)) && a1 == a0.push(HostAsk::Negate(n, x)),
{
}

/// `+` on two strings gives the left string followed by the right one,
/// and asks the host nothing.
pub proof fn law_strings_concatenate_in_order(
    op: Token,
    x: String,
    y: String,
    res: Result<Value, EvalError>,
    decls: Seq<Rc<FunctionDecl>>,
    a0: Seq<HostAsk>,
    a1: Seq<HostAsk>,
)
    requires
        op.token_type == TokenType::Plus,
        binary_result(op, Ok(Value::Str(x)), Ok(Value::Str(y)), res, decls, a0, a1),
    ensures
        res matches Ok(Value::Str(z)) && z@ == x@ + y@,
        a1 == a0,
{
}

/// `==` on two values that are not both numbers: strings are equal when
/// their texts are, booleans when they are the same, `nil` equals `nil`,
/// and values of different kinds are never equal; `!=` gives the
/// opposite. The host is asked nothing.
pub proof fn law_equality_of_other_values(
    op: Token,
    a: Value,
    b: Value,
    res: Result<Value, EvalError>,
    decls: Seq<Rc<FunctionDecl>>,
    a0: Seq<HostAsk>,
    a1: Seq<HostAsk>,
)
    requires
        op.token_type == TokenType::EqualEqual || op.token_type == TokenType::BangEqual,
        !(a is Number && b is Number),
        binary_result(op, Ok(a), Ok(b), res, decls, a0, a1),
    ensures
        a1 == a0,
        res matches Ok(Value::Bool(r)) && {
            let eq = if op.token_type == TokenType::EqualEqual {
                r
            } else {
                !r
            };
            &&& (a is Str && b is Str) ==> (eq <==> a->Str_0@ == b->Str_0@)
            &&& (a is Bool && b is Bool) ==> (eq <==> a->Bool_0 == b->Bool_0)
            &&& (a is Nil && b is Nil) ==> eq
            &&& (a is Nil && !(b is Nil)) ==> !eq
            &&& (a is Number || b is Number) ==> !eq
            &&& (a is Str && !(b is Str)) ==> !eq
            &&& (a is Bool && !(b is Bool)) ==> !eq
            &&& (a is Callable && !(b is Callable)) ==> !eq
        },
{
}

/// `!` gives `true` exactly for `nil` and `false`, and asks the host
/// nothing.
pub proof fn law_not_is_falsiness(op: Token, v: Value, res: Result<Value, EvalError>, a0: Seq<HostAsk>, a1: Seq<HostAsk>)
    requires
        op.token_type == TokenType::Bang,
        unary_result(op, Ok(v), res, a0, a1),
    ensures
        res == Ok::<Value, EvalError>(Value::Bool(v is Nil || v == Value::Bool(false))),
        a1 == a0,
{
}

proof fn lemma_bind_frame(m: Seq<ScopeModel>, s: int, params: Seq<String>, args: Seq<Value>, j: int)
    requires
        0 <= s < m.len(),
    ensures
        bind_params(m, s, params, args, j).len() == m.len(),
        bind_params(m, s, params, args, j)[s].enclosing == m[s].enclosing,
        forall|k: int| 0 <= k < m.len() && k != s ==> #[trigger] bind_params(m, s, params, args, j)[k] == m[k],
    decreases params.len() - j,
{
    if 0 <= j < params.len() && j < args.len() {
        let m2 = define_in(m, s, params[j]@, args[j]);
        lemma_bind_frame(m2, s, params, args, j + 1);
        assert forall|k: int| 0 <= k < m.len() && k != s implies #[trigger] bind_params(m, s, params, args, j)[k] == m[k] by {
            assert(bind_params(m2, s, params, args, j + 1)[k] == m2[k]);
        }
    }
}

/// The scope a call makes is new and enclosed by the scope the function
/// closes over, and binding the parameters there changes no other scope.
pub proof fn law_call_scope_encloses_the_closure(
    m: Seq<ScopeModel>,
    env: int,
    params: Seq<String>,
    args: Seq<Value>,
)
    ensures
        bind_params(enclose(m, env), m.len() as int, params, args, 0).len() == m.len() + 1,
        bind_params(enclose(m, env), m.len() as int, params, args, 0)[m.len() as int].enclosing == Some(env),
        forall|k: int| 0 <= k < m.len() ==> #[trigger] bind_params(enclose(m, env), m.len() as int, params, args, 0)[k] == m[k],
{
    let e = enclose(m, env);
    lemma_bind_frame(e, m.len() as int, params, args, 0);
    assert forall|k: int| 0 <= k < m.len() implies #[trigger] bind_params(e, m.len() as int, params, args, 0)[k] == m[k] by {
        assert(e[k] == m[k]);
    }
}

/// `or` and `and` evaluate their right operand only when the left one
/// does not decide: `or` gives a left value other than `nil` and `false`
/// as it is, and `and` gives `nil` or `false` as it is, in both cases
/// without evaluating the right operand; otherwise the result and state
/// are those of the right operand, evaluated after the left one. An error
/// of the left operand is the result.
pub proof fn law_logical_operators_short_circuit(
    left: Box<Expr>,
    operator: Token,
    right: Box<Expr>,
    s: IState,
    sc: int,
    r: Result<Value, EvalError>,
    t: IState,
)
    requires
        operator.token_type == TokenType::Or || operator.token_type == TokenType::And,
        s.steps > 0,
        evals(Expr::Logical { left, operator, right }, s, sc, r, t),
    ensures
        exists|lv: Result<Value, EvalError>, m: IState|
            #[trigger] chosen((lv, m)) && evals(*left, spent(s), sc, lv, m) && match lv {
                Err(_) => r == lv && t == m,
                Ok(v) => {
                    let falsy = v is Nil || v == Value::Bool(false);
                    if (operator.token_type == TokenType::Or) != falsy {
                        r == lv && t == m
                    } else {
                        evals(*right, m, sc, r, t)
                    }
                },
            },
{
}

proof fn lemma_bind_keeps(m: Seq<ScopeModel>, s: int, params: Seq<String>, args: Seq<Value>, j: int, n: Seq<char>)
    requires
        0 <= s < m.len(),
        0 <= j,
        forall|k: int| j <= k < params.len() ==> (#[trigger] params[k])@ != n,
    ensures
        bind_params(m, s, params, args, j).len() == m.len(),
        bind_params(m, s, params, args, j)[s].vars.contains_key(n) == m[s].vars.contains_key(n),
        m[s].vars.contains_key(n) ==> bind_params(m, s, params, args, j)[s].vars[n] == m[s].vars[n],
    decreases params.len() - j,
{
    if j < params.len() && j < args.len() {
        assert(params[j]@ != n);
        lemma_bind_keeps(define_in(m, s, params[j]@, args[j]), s, params, args, j + 1, n);
    }
}

proof fn lemma_bind_sets(m: Seq<ScopeModel>, s: int, params: Seq<String>, args: Seq<Value>, j: int, i: int)
    requires
        0 <= s < m.len(),
        0 <= j <= i < params.len(),
        i < args.len(),
        forall|k: int, l: int| 0 <= k < l < params.len() ==> (#[trigger] params[k])@ != (#[trigger] params[l])@,
    ensures
        bind_params(m, s, params, args, j)[s].vars.contains_key(params[i]@),
        bind_params(m, s, params, args, j)[s].vars[params[i]@] == args[i],
    decreases params.len() - j,
{
    let m2 = define_in(m, s, params[j]@, args[j]);
    if j == i {
        assert forall|k: int| i + 1 <= k < params.len() implies (#[trigger] params[k])@ != params[i]@ by {
            assert(params[i]@ != params[k]@);
        }
        lemma_bind_keeps(m2, s, params, args, i + 1, params[i]@);
    } else {
        lemma_bind_sets(m2, s, params, args, j + 1, i);
    }
}

/// A call binds its parameters to its arguments in order: in the scope
/// the call makes, with parameter names all different, the `i`-th
/// parameter names the `i`-th argument (for every `i` that both lists
/// reach).
pub proof fn law_parameters_name_their_arguments(
    m: Seq<ScopeModel>,
    s: int,
    params: Seq<String>,
    args: Seq<Value>,
    i: int,
)
    requires
        0 <= s < m.len(),
        0 <= i < params.len(),
        i < args.len(),
        forall|k: int, l: int| 0 <= k < l < params.len() ==> (#[trigger] params[k])@ != (#[trigger] params[l])@,
    ensures
        lookup(bind_params(m, s, params, args, 0), s, params[i]@) == Some(args[i]),
{
    lemma_bind_params_len(m, s, params, args, 0);
    lemma_bind_sets(m, s, params, args, 0, i);
}

/// Evaluation only moves a state forward: it adds scopes and function
/// declarations and keeps those already made, prints lines, and spends
/// steps; it never takes any of these back.
pub proof fn law_evaluation_moves_forward(
    e: Expr,
    st: Stmt,
    s: IState,
    sc: int,
    rv: Result<Value, EvalError>,
    tv: IState,
    rs: Result<Flow, EvalError>,
    ts: IState,
)
    requires
        0 <= sc < s.scopes.len(),
    ensures
        evals(e, s, sc, rv, tv) ==> grows(s, tv),
        execs(st, s, sc, rs, ts) ==> grows(s, ts),
{
    if evals(e, s, sc, rv, tv) {
        lemma_evals_grow(e, s, sc, rv, tv);
    }
    if execs(st, s, sc, rs, ts) {
        lemma_execs_grow(st, s, sc, rs, ts);
    }
}

/// A read gives back what a declaration wrote: once `var name = init;`
/// has run in scope `sc`, reading `name` there gives the value the
/// initializer produced.
pub proof fn law_read_after_declare(
    name: Token,
    init: Expr,
    s: IState,
    sc: int,
    t: IState,
    reader: Token,
    r: Result<Value, EvalError>,
    t2: IState,
)
    requires
        0 <= sc < s.scopes.len(),
        execs(Stmt::Var { name, initializer: init }, s, sc, Ok(Flow::Normal), t),
        reader.lexeme@ == name.lexeme@,
        t.steps > 0,
        evals(Expr::Variable { name: reader }, t, sc, r, t2),
    ensures
        exists|v: Value, m: IState|
            #[trigger] chosen((v, m)) && evals(init, spent(s), sc, Ok(v), m) && r == Ok::<Value, EvalError>(v),
{
    let s1 = spent(s);
    let (rv, m) = choose|rv: Result<Value, EvalError>, m: IState|
        #[trigger] chosen((rv, m)) && evals(init, s1, sc, rv, m) && match rv {
            Err(err) => Ok::<Flow, EvalError>(Flow::Normal) == Err::<Flow, EvalError>(err) && t == m,
            Ok(v) => Ok::<Flow, EvalError>(Flow::Normal) == Ok::<Flow, EvalError>(Flow::Normal) && t == with_scopes(
                m,
                define_in(m.scopes, sc, name.lexeme@, v),
            ),
        };
    lemma_evals_grow(init, s1, sc, rv, m);
    let v = rv->Ok_0;
    crate::env::law_get_after_define(m.scopes, sc, name.lexeme@, v);
    assert(chosen((v, m)));
}

/// A read gives back what an assignment wrote: once `name = value` has
/// evaluated to `v` in scope `sc`, reading `name` there gives `v`.
pub proof fn law_read_after_assign(
    name: Token,
    value: Box<Expr>,
    s: IState,
    sc: int,
    v: Value,
    t: IState,
    reader: Token,
    r: Result<Value, EvalError>,
    t2: IState,
)
    requires
        0 <= sc < s.scopes.len(),
        evals(Expr::Assign { name, value }, s, sc, Ok(v), t),
        reader.lexeme@ == name.lexeme@,
        t.steps > 0,
        evals(Expr::Variable { name: reader }, t, sc, r, t2),
    ensures
        r == Ok::<Value, EvalError>(v),
{
    let s1 = spent(s);
    let (rv, m) = choose|rv: Result<Value, EvalError>, m: IState|
        #[trigger] chosen((rv, m)) && evals(*value, s1, sc, rv, m) && match rv {
            Err(_) => Ok::<Value, EvalError>(v) == rv && t == m,
            Ok(w) => match owner(m.scopes, sc, name.lexeme@) {
                Some(o) => Ok::<Value, EvalError>(v) == rv && t == with_scopes(m, define_in(m.scopes, o, name.lexeme@, w)),
                None => fails_at(Ok::<Value, EvalError>(v), name, "Undefined variable."@) && t == m,
            },
        };
    crate::env::law_get_after_assign(m.scopes, sc, name.lexeme@, v);
}

// ---------------------------------------------------------------------
// Expressions without assignment or call.
// ---------------------------------------------------------------------

/// Whether an expression has no assignment and no call at any depth.
pub open spec fn plain_expr(e: Expr) -> bool
    decreases e,
{
    match e {
        Expr::Binary { left, right, .. } => plain_expr(*left) && plain_expr(*right),
        Expr::Grouping { expression } => plain_expr(*expression),
        Expr::Literal { .. } => true,
        Expr::Unary { right, .. } => plain_expr(*right),
        Expr::Variable { .. } => true,
        Expr::Logical { left, right, .. } => plain_expr(*left) && plain_expr(*right),
        Expr::Assign { .. } | Expr::Call { .. } => false,
    }
}

/// `t` has the scopes, declarations and printed lines of `s`, and the
/// questions put to the host before `s` come first among those before `t`.
pub open spec fn keeps(s: IState, t: IState) -> bool {
    t.scopes == s.scopes && t.decls == s.decls && t.out == s.out && begins(s.asked, t.asked)
}

/// `a` is the first part of `b`.
pub open spec fn begins(a: Seq<HostAsk>, b: Seq<HostAsk>) -> bool {
    a.len() <= b.len() && forall|i: int| 0 <= i < a.len() ==> #[trigger] b[i] == a[i]
}

proof fn lemma_begins_trans(a: Seq<HostAsk>, b: Seq<HostAsk>, c: Seq<HostAsk>)
    requires
        begins(a, b),
        begins(b, c),
    ensures
        begins(a, c),
{
    assert forall|i: int| 0 <= i < a.len() implies #[trigger] c[i] == a[i] by {
        assert(b[i] == a[i]);
    }
}

proof fn lemma_begins_push(a: Seq<HostAsk>, b: Seq<HostAsk>)
    requires
        b == a || exists|x: HostAsk| b == a.push(x),
    ensures
        begins(a, b),
{
    if b != a {
        let x = choose|x: HostAsk| b == a.push(x);
        assert forall|i: int| 0 <= i < a.len() implies #[trigger] b[i] == a[i] by {
            assert(a.push(x)[i] == a[i]);
        }
    }
}

proof fn lemma_binary_asks(
    op: Token,
    l: Result<Value, EvalError>,
    r: Result<Value, EvalError>,
    res: Result<Value, EvalError>,
    decls: Seq<Rc<FunctionDecl>>,
    a0: Seq<HostAsk>,
    a1: Seq<HostAsk>,
)
    requires
        binary_result(op, l, r, res, decls, a0, a1),
    ensures
        begins(a0, a1),
{
    if a1 != a0 {
        let x = a1.last();
        assert(a1 == a0.push(x));
    }
    lemma_begins_push(a0, a1);
}

proof fn lemma_unary_asks(
    op: Token,
    r: Result<Value, EvalError>,
    res: Result<Value, EvalError>,
    a0: Seq<HostAsk>,
    a1: Seq<HostAsk>,
)
    requires
        unary_result(op, r, res, a0, a1),
    ensures
        begins(a0, a1),
{
    if a1 != a0 {
        let x = a1.last();
        assert(a1 == a0.push(x));
    }
    lemma_begins_push(a0, a1);
}

proof fn lemma_literal_asks(lit: Literal, v: Value, a0: Seq<HostAsk>, a1: Seq<HostAsk>)
    requires
        literal_value(lit, v, a0, a1),
    ensures
        begins(a0, a1),
{
    if a1 != a0 {
        let x = a1.last();
        assert(a1 == a0.push(x));
    }
    lemma_begins_push(a0, a1);
}

proof fn lemma_plain_evals(e: Expr, s: IState, sc: int, r: Result<Value, EvalError>, t: IState)
    requires
        plain_expr(e),
        evals(e, s, sc, r, t),
    ensures
        keeps(s, t),
    decreases e, 1nat,
{
    if s.steps > 0 {
        lemma_plain_node(e, spent(s), sc, r, t);
    }
}

proof fn lemma_plain_node(e: Expr, s1: IState, sc: int, r: Result<Value, EvalError>, t: IState)
    requires
        plain_expr(e),
        eval_node(e, s1, sc, r, t),
    ensures
        keeps(s1, t),
    decreases e, 0nat,
{
    match e {
        Expr::Binary { left, operator, right } => {
            let (l, m, rr, m2) = choose|l: Result<Value, EvalError>, m: IState, rr: Result<Value, EvalError>, m2: IState|
                #[trigger] chosen((l, m, rr, m2)) && evals(*left, s1, sc, l, m) && m.steps <= s1.steps && evals(*right, m, sc, rr, m2)
                    && binary_result(operator, l, rr, r, m2.decls, m2.asked, t.asked) && t == IState { asked: t.asked, ..m2 };
            lemma_plain_evals(*left, s1, sc, l, m);
            lemma_plain_evals(*right, m, sc, rr, m2);
            lemma_binary_asks(operator, l, rr, r, m2.decls, m2.asked, t.asked);
            lemma_begins_trans(s1.asked, m.asked, m2.asked);
            lemma_begins_trans(s1.asked, m2.asked, t.asked);
        },
        Expr::Grouping { expression } => {
            lemma_plain_evals(*expression, s1, sc, r, t);
        },
        Expr::Literal { value } => {
            lemma_literal_asks(value, r->Ok_0, s1.asked, t.asked);
        },
        Expr::Unary { operator, right } => {
            let (rr, m) = choose|rr: Result<Value, EvalError>, m: IState|
                #[trigger] chosen((rr, m)) && evals(*right, s1, sc, rr, m) && unary_result(operator, rr, r, m.asked, t.asked)
                    && t == IState { asked: t.asked, ..m };
            lemma_plain_evals(*right, s1, sc, rr, m);
            lemma_unary_asks(operator, rr, r, m.asked, t.asked);
            lemma_begins_trans(s1.asked, m.asked, t.asked);
        },
        Expr::Logical { left, operator, right } => {
            let (lv, m) = choose|lv: Result<Value, EvalError>, m: IState|
                #[trigger] chosen((lv, m)) && evals(*left, s1, sc, lv, m) && match lv {
                    Err(_) => r == lv && t == m,
                    Ok(v) => match operator.token_type {
                        TokenType::Or => if v.truthy() {
                            r == lv && t == m
                        } else {
                            m.steps <= s1.steps && evals(*right, m, sc, r, t)
                        },
                        TokenType::And => if !v.truthy() {
                            r == lv && t == m
                        } else {
                            m.steps <= s1.steps && evals(*right, m, sc, r, t)
                        },
                        _ => fails_at(r, operator, "Unknown logical operator."@) && t == m,
                    },
                };
            lemma_plain_evals(*left, s1, sc, lv, m);
            if let Ok(v) = lv {
                if (operator.token_type == TokenType::Or && !v.truthy()) || (operator.token_type
                    == TokenType::And && v.truthy()) {
                    lemma_plain_evals(*right, m, sc, r, t);
                    lemma_begins_trans(s1.asked, m.asked, t.asked);
                }
            }
        },
        _ => {},
    }
}

/// Two questions to the host that ask the same thing, whatever the
/// answers.
pub open spec fn same_question(a: HostAsk, b: HostAsk) -> bool {
    match (a, b) {
        (HostAsk::Number(x, _), HostAsk::Number(y, _)) => x == y,
        (HostAsk::Add(x, y, _), HostAsk::Add(u, v, _)) => x == u && y == v,
        (HostAsk::Subtract(x, y, _), HostAsk::Subtract(u, v, _)) => x == u && y == v,
        (HostAsk::Multiply(x, y, _), HostAsk::Multiply(u, v, _)) => x == u && y == v,
        (HostAsk::Divide(x, y, _), HostAsk::Divide(u, v, _)) => x == u && y == v,
        (HostAsk::Negate(x, _), HostAsk::Negate(u, _)) => x == u,
        (HostAsk::Equal(x, y, _), HostAsk::Equal(u, v, _)) => x == u && y == v,
        (HostAsk::Less(x, y, _), HostAsk::Less(u, v, _)) => x == u && y == v,
        (HostAsk::LessEqual(x, y, _), HostAsk::LessEqual(u, v, _)) => x == u && y == v,
        (HostAsk::Greater(x, y, _), HostAsk::Greater(u, v, _)) => x == u && y == v,
        (HostAsk::GreaterEqual(x, y, _), HostAsk::GreaterEqual(u, v, _)) => x == u && y == v,
        (HostAsk::Text(x, _), HostAsk::Text(u, _)) => x == u,
        (HostAsk::Clock(_), HostAsk::Clock(_)) => true,
        _ => false,
    }
}

/// Two records of the host's answers in which the same question, put at
/// the same place, got the same answer.
pub open spec fn answers_agree(a: Seq<HostAsk>, b: Seq<HostAsk>) -> bool {
    forall|i: int| 0 <= i < a.len() && i < b.len() && #[trigger] same_question(a[i], b[i]) ==> a[i] == b[i]
}

/// Two values alike: strings of the same text, or the same value.
pub open spec fn alike(a: Value, b: Value) -> bool {
    match (a, b) {
        (Value::Str(x), Value::Str(y)) => x@ == y@,
        _ => a == b,
    }
}

/// Two results alike: alike values, or errors at the same token with the
/// same message.
pub open spec fn alike_results(a: Result<Value, EvalError>, b: Result<Value, EvalError>) -> bool {
    match (a, b) {
        (Ok(x), Ok(y)) => alike(x, y),
        (Err(x), Err(y)) => x.token@ == y.token@ && x.message@ == y.message@,
        _ => false,
    }
}

/// The most steps evaluating an expression without assignment or call
/// can spend: one per node.
pub open spec fn plain_size(e: Expr) -> nat
    decreases e,
{
    match e {
        Expr::Binary { left, right, .. } => 1 + plain_size(*left) + plain_size(*right),
        Expr::Grouping { expression } => 1 + plain_size(*expression),
        Expr::Literal { .. } => 1,
        Expr::Unary { right, .. } => 1 + plain_size(*right),
        Expr::Variable { .. } => 1,
        Expr::Logical { left, right, .. } => 1 + plain_size(*left) + plain_size(*right),
        Expr::Assign { .. } | Expr::Call { .. } => 0,
    }
}

/// The questions put to the host after those in `a`, up to the end of `b`.
pub open spec fn asked_between(a: Seq<HostAsk>, b: Seq<HostAsk>) -> Seq<HostAsk> {
    b.subrange(a.len() as int, b.len() as int)
}

proof fn lemma_between_join(a: Seq<HostAsk>, b: Seq<HostAsk>, c: Seq<HostAsk>)
    requires
        begins(a, b),
        begins(b, c),
    ensures
        begins(a, c),
        asked_between(a, c) == asked_between(a, b) + asked_between(b, c),
{
    lemma_begins_trans(a, b, c);
    let x = asked_between(a, b);
    assert forall|i: int| 0 <= i < x.len() implies #[trigger] asked_between(a, c)[i] == x[i] by {
        assert(c[a.len() + i] == b[a.len() + i]);
    }
    assert(asked_between(a, c) =~= asked_between(a, b) + asked_between(b, c));
}

proof fn lemma_between_step(a: Seq<HostAsk>, b: Seq<HostAsk>)
    requires
        b == a || exists|x: HostAsk| b == a.push(x),
    ensures
        b == a ==> asked_between(a, b) == Seq::<HostAsk>::empty(),
        b != a ==> asked_between(a, b) == seq![b.last()] && b == a.push(b.last()),
{
    if b == a {
        assert(asked_between(a, b) =~= Seq::<HostAsk>::empty());
    } else {
        let x = choose|x: HostAsk| b == a.push(x);
        assert(asked_between(a, b) =~= seq![x]);
    }
}

proof fn lemma_agree_front(p1: Seq<HostAsk>, q1: Seq<HostAsk>, p2: Seq<HostAsk>, q2: Seq<HostAsk>)
    requires
        answers_agree(p1 + q1, p2 + q2),
    ensures
        answers_agree(p1, p2),
{
    assert forall|i: int| 0 <= i < p1.len() && i < p2.len() && #[trigger] same_question(p1[i], p2[i]) implies p1[i] == p2[i] by {
        assert((p1 + q1)[i] == p1[i]);
        assert((p2 + q2)[i] == p2[i]);
        assert(same_question((p1 + q1)[i], (p2 + q2)[i]));
    }
}

proof fn lemma_agree_back(p1: Seq<HostAsk>, q1: Seq<HostAsk>, p2: Seq<HostAsk>, q2: Seq<HostAsk>)
    requires
        answers_agree(p1 + q1, p2 + q2),
        p1.len() == p2.len(),
    ensures
        answers_agree(q1, q2),
{
    assert forall|i: int| 0 <= i < q1.len() && i < q2.len() && #[trigger] same_question(q1[i], q2[i]) implies q1[i] == q2[i] by {
        let j = p1.len() + i;
        assert((p1 + q1)[j] == q1[i]);
        assert((p2 + q2)[j] == q2[i]);
        assert(same_question((p1 + q1)[j], (p2 + q2)[j]));
    }
}

proof fn lemma_single_answer(x: HostAsk, y: HostAsk)
    requires
        same_question(x, y),
        answers_agree(seq![x], seq![y]),
    ensures
        x == y,
{
    assert(seq![x][0] == x);
    assert(seq![y][0] == y);
    assert(same_question(seq![x][0], seq![y][0]));
}

proof fn lemma_binary_alike(
    op: Token,
    l1: Result<Value, EvalError>,
    r1: Result<Value, EvalError>,
    res1: Result<Value, EvalError>,
    l2: Result<Value, EvalError>,
    r2: Result<Value, EvalError>,
    res2: Result<Value, EvalError>,
    decls: Seq<Rc<FunctionDecl>>,
    a0: Seq<HostAsk>,
    a1: Seq<HostAsk>,
    b0: Seq<HostAsk>,
    b1: Seq<HostAsk>,
)
    requires
        alike_results(l1, l2),
        alike_results(r1, r2),
        binary_result(op, l1, r1, res1, decls, a0, a1),
        binary_result(op, l2, r2, res2, decls, b0, b1),
        answers_agree(asked_between(a0, a1), asked_between(b0, b1)),
    ensures
        alike_results(res1, res2),
        asked_between(a0, a1) == asked_between(b0, b1),
{
    if a1 != a0 {
        assert(a1 == a0.push(a1.last()));
    }
    if b1 != b0 {
        assert(b1 == b0.push(b1.last()));
    }
    lemma_between_step(a0, a1);
    lemma_between_step(b0, b1);
    if a1 != a0 && b1 != b0 {
        lemma_single_answer(a1.last(), b1.last());
    }
}

proof fn lemma_evals_alike(
    e: Expr,
    s1: IState,
    s2: IState,
    sc: int,
    r1: Result<Value, EvalError>,
    t1: IState,
    r2: Result<Value, EvalError>,
    t2: IState,
)
    requires
        plain_expr(e),
        evals(e, s1, sc, r1, t1),
        evals(e, s2, sc, r2, t2),
        s1.scopes == s2.scopes,
        s1.decls == s2.decls,
        s1.steps >= plain_size(e),
        s2.steps >= plain_size(e),
        answers_agree(asked_between(s1.asked, t1.asked), asked_between(s2.asked, t2.asked)),
    ensures
        alike_results(r1, r2),
        asked_between(s1.asked, t1.asked) == asked_between(s2.asked, t2.asked),
        s1.steps - t1.steps == s2.steps - t2.steps,
        s1.steps - t1.steps <= plain_size(e),
    decreases e, 1nat,
{
    lemma_node_alike(e, spent(s1), spent(s2), sc, r1, t1, r2, t2);
}

proof fn lemma_node_alike(
    e: Expr,
    s1: IState,
    s2: IState,
    sc: int,
    r1: Result<Value, EvalError>,
    t1: IState,
    r2: Result<Value, EvalError>,
    t2: IState,
)
    requires
        plain_expr(e),
        eval_node(e, s1, sc, r1, t1),
        eval_node(e, s2, sc, r2, t2),
        s1.scopes == s2.scopes,
        s1.decls == s2.decls,
        s1.steps + 1 >= plain_size(e),
        s2.steps + 1 >= plain_size(e),
        answers_agree(asked_between(s1.asked, t1.asked), asked_between(s2.asked, t2.asked)),
    ensures
        alike_results(r1, r2),
        asked_between(s1.asked, t1.asked) == asked_between(s2.asked, t2.asked),
        s1.steps - t1.steps == s2.steps - t2.steps,
        s1.steps - t1.steps < plain_size(e),
    decreases e, 0nat,
{
    lemma_plain_node(e, s1, sc, r1, t1);
    lemma_plain_node(e, s2, sc, r2, t2);
    match e {
        Expr::Binary { left, operator, right } => {
            let (l, m, rr, m2) = choose|l: Result<Value, EvalError>, m: IState, rr: Result<Value, EvalError>, m2: IState|
                #[trigger] chosen((l, m, rr, m2)) && evals(*left, s1, sc, l, m) && m.steps <= s1.steps && evals(*right, m, sc, rr, m2)
                    && binary_result(operator, l, rr, r1, m2.decls, m2.asked, t1.asked) && t1 == IState { asked: t1.asked, ..m2 };
            let (l2, n, rr2, n2) = choose|l: Result<Value, EvalError>, m: IState, rr: Result<Value, EvalError>, m2: IState|
                #[trigger] chosen((l, m, rr, m2)) && evals(*left, s2, sc, l, m) && m.steps <= s2.steps && evals(*right, m, sc, rr, m2)
                    && binary_result(operator, l, rr, r2, m2.decls, m2.asked, t2.asked) && t2 == IState { asked: t2.asked, ..m2 };
            lemma_plain_evals(*left, s1, sc, l, m);
            lemma_plain_evals(*left, s2, sc, l2, n);
            lemma_plain_evals(*right, m, sc, rr, m2);
            lemma_plain_evals(*right, n, sc, rr2, n2);
            lemma_binary_asks(operator, l, rr, r1, m2.decls, m2.asked, t1.asked);
            lemma_binary_asks(operator, l2, rr2, r2, n2.decls, n2.asked, t2.asked);
            lemma_between_join(m.asked, m2.asked, t1.asked);
            lemma_between_join(s1.asked, m.asked, t1.asked);
            lemma_between_join(n.asked, n2.asked, t2.asked);
            lemma_between_join(s2.asked, n.asked, t2.asked);
            let a1 = asked_between(s1.asked, m.asked);
            let a2 = asked_between(s2.asked, n.asked);
            let rest1 = asked_between(m.asked, t1.asked);
            let rest2 = asked_between(n.asked, t2.asked);
            lemma_agree_front(a1, rest1, a2, rest2);
            lemma_evals_alike(*left, s1, s2, sc, l, m, l2, n);
            lemma_agree_back(a1, rest1, a2, rest2);
            let b1 = asked_between(m.asked, m2.asked);
            let b2 = asked_between(n.asked, n2.asked);
            let c1 = asked_between(m2.asked, t1.asked);
            let c2 = asked_between(n2.asked, t2.asked);
            lemma_agree_front(b1, c1, b2, c2);
            lemma_evals_alike(*right, m, n, sc, rr, m2, rr2, n2);
            lemma_agree_back(b1, c1, b2, c2);
            lemma_binary_alike(operator, l, rr, r1, l2, rr2, r2, m2.decls, m2.asked, t1.asked, n2.asked, t2.asked);
        },
        Expr::Grouping { expression } => {
            lemma_evals_alike(*expression, s1, s2, sc, r1, t1, r2, t2);
        },
        Expr::Literal { value } => {
            lemma_literal_asks(value, r1->Ok_0, s1.asked, t1.asked);
            lemma_literal_asks(value, r2->Ok_0, s2.asked, t2.asked);
            if t1.asked != s1.asked {
                assert(t1.asked == s1.asked.push(t1.asked.last()));
            }
            if t2.asked != s2.asked {
                assert(t2.asked == s2.asked.push(t2.asked.last()));
            }
            lemma_between_step(s1.asked, t1.asked);
            lemma_between_step(s2.asked, t2.asked);
            if t1.asked != s1.asked && t2.asked != s2.asked {
                lemma_single_answer(t1.asked.last(), t2.asked.last());
            }
        },
        Expr::Unary { operator, right } => {
            let (rr, m) = choose|rr: Result<Value, EvalError>, m: IState|
                #[trigger] chosen((rr, m)) && evals(*right, s1, sc, rr, m) && unary_result(operator, rr, r1, m.asked, t1.asked)
                    && t1 == IState { asked: t1.asked, ..m };
            let (rr2, n) = choose|rr: Result<Value, EvalError>, m: IState|
                #[trigger] chosen((rr, m)) && evals(*right, s2, sc, rr, m) && unary_result(operator, rr, r2, m.asked, t2.asked)
                    && t2 == IState { asked: t2.asked, ..m };
            lemma_plain_evals(*right, s1, sc, rr, m);
            lemma_plain_evals(*right, s2, sc, rr2, n);
            lemma_unary_asks(operator, rr, r1, m.asked, t1.asked);
            lemma_unary_asks(operator, rr2, r2, n.asked, t2.asked);
            lemma_between_join(s1.asked, m.asked, t1.asked);
            lemma_between_join(s2.asked, n.asked, t2.asked);
            let a1 = asked_between(s1.asked, m.asked);
            let a2 = asked_between(s2.asked, n.asked);
            let c1 = asked_between(m.asked, t1.asked);
            let c2 = asked_between(n.asked, t2.asked);
            lemma_agree_front(a1, c1, a2, c2);
            lemma_evals_alike(*right, s1, s2, sc, rr, m, rr2, n);
            lemma_agree_back(a1, c1, a2, c2);
            if t1.asked != m.asked {
                assert(t1.asked == m.asked.push(t1.asked.last()));
            }
            if t2.asked != n.asked {
                assert(t2.asked == n.asked.push(t2.asked.last()));
            }
            lemma_between_step(m.asked, t1.asked);
            lemma_between_step(n.asked, t2.asked);
            if t1.asked != m.asked && t2.asked != n.asked {
                lemma_single_answer(t1.asked.last(), t2.asked.last());
            }
        },
        Expr::Variable { .. } => {
            lemma_between_step(s1.asked, t1.asked);
            lemma_between_step(s2.asked, t2.asked);
        },
        Expr::Logical { left, operator, right } => {
            let (lv, m) = choose|lv: Result<Value, EvalError>, m: IState|
                #[trigger] chosen((lv, m)) && evals(*left, s1, sc, lv, m) && match lv {
                    Err(_) => r1 == lv && t1 == m,
                    Ok(v) => match operator.token_type {
                        TokenType::Or => if v.truthy() {
                            r1 == lv && t1 == m
                        } else {
                            m.steps <= s1.steps && evals(*right, m, sc, r1, t1)
                        },
                        TokenType::And => if !v.truthy() {
                            r1 == lv && t1 == m
                        } else {
                            m.steps <= s1.steps && evals(*right, m, sc, r1, t1)
                        },
                        _ => fails_at(r1, operator, "Unknown logical operator."@) && t1 == m,
                    },
                };
            let (lv2, n) = choose|lv: Result<Value, EvalError>, m: IState|
                #[trigger] chosen((lv, m)) && evals(*left, s2, sc, lv, m) && match lv {
                    Err(_) => r2 == lv && t2 == m,
                    Ok(v) => match operator.token_type {
                        TokenType::Or => if v.truthy() {
                            r2 == lv && t2 == m
                        } else {
                            m.steps <= s2.steps && evals(*right, m, sc, r2, t2)
                        },
                        TokenType::And => if !v.truthy() {
                            r2 == lv && t2 == m
                        } else {
                            m.steps <= s2.steps && evals(*right, m, sc, r2, t2)
                        },
                        _ => fails_at(r2, operator, "Unknown logical operator."@) && t2 == m,
                    },
                };
            let goes_on = |v: Value|
                (operator.token_type == TokenType::Or && !v.truthy()) || (operator.token_type == TokenType::And
                    && v.truthy());
            lemma_plain_evals(*left, s1, sc, lv, m);
            lemma_plain_evals(*left, s2, sc, lv2, n);
            if lv is Ok && goes_on(lv->Ok_0) {
                lemma_plain_evals(*right, m, sc, r1, t1);
            }
            if lv2 is Ok && goes_on(lv2->Ok_0) {
                lemma_plain_evals(*right, n, sc, r2, t2);
            }
            lemma_between_join(s1.asked, m.asked, t1.asked);
            lemma_between_join(s2.asked, n.asked, t2.asked);
            let a1 = asked_between(s1.asked, m.asked);
            let a2 = asked_between(s2.asked, n.asked);
            let c1 = asked_between(m.asked, t1.asked);
            let c2 = asked_between(n.asked, t2.asked);
            lemma_agree_front(a1, c1, a2, c2);
            lemma_evals_alike(*left, s1, s2, sc, lv, m, lv2, n);
            lemma_agree_back(a1, c1, a2, c2);
            if lv is Ok && goes_on(lv->Ok_0) {
                lemma_evals_alike(*right, m, n, sc, r1, t1, r2, t2);
            } else {
                lemma_between_step(m.asked, t1.asked);
                lemma_between_step(n.asked, t2.asked);
            }
        },
        _ => {},
    }
}

/// Evaluating an expression without assignment or call twice in one
/// environment gives alike results: from two states with the same scopes
/// and function declarations, each with enough steps left for every node,
/// and with a host that gives the same answer to the same question, the
/// two evaluations give alike results (the same value, strings of the
/// same text, or the same error), put the same questions to the host and
/// spend the same steps.
pub proof fn law_plain_evaluation_is_determined(
    e: Expr,
    s1: IState,
    s2: IState,
    sc: int,
    r1: Result<Value, EvalError>,
    t1: IState,
    r2: Result<Value, EvalError>,
    t2: IState,
)
    requires
        plain_expr(e),
        s1.scopes == s2.scopes,
        s1.decls == s2.decls,
        s1.steps >= plain_size(e),
        s2.steps >= plain_size(e),
        evals(e, s1, sc, r1, t1),
        evals(e, s2, sc, r2, t2),
        answers_agree(asked_between(s1.asked, t1.asked), asked_between(s2.asked, t2.asked)),
    ensures
        alike_results(r1, r2),
        asked_between(s1.asked, t1.asked) == asked_between(s2.asked, t2.asked),
        s1.steps - t1.steps == s2.steps - t2.steps,
        t1.scopes == t2.scopes,
{
    lemma_evals_alike(e, s1, s2, sc, r1, t1, r2, t2);
    lemma_plain_evals(e, s1, sc, r1, t1);
    lemma_plain_evals(e, s2, sc, r2, t2);
}

/// An expression without assignment or call changes no variable: after
/// it is evaluated, every scope holds the bindings it held before, no
/// function is declared and nothing is printed.
pub proof fn law_plain_expressions_change_no_binding(
    e: Expr,
    s: IState,
    sc: int,
    r: Result<Value, EvalError>,
    t: IState,
)
    requires
        plain_expr(e),
        evals(e, s, sc, r, t),
    ensures
        t.scopes == s.scopes,
        t.decls == s.decls,
        t.out == s.out,
{
    lemma_plain_evals(e, s, sc, r, t);
}

} // verus!
