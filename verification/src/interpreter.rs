//! The evaluator: expressions to values, statements to effects.
//!
//! Numbers are IEEE-754 doubles held as bit patterns; the arithmetic,
//! comparisons and text of numbers, the clock and the output of `print`
//! are the work of a [`Host`], which the program running the interpreter
//! provides. Evaluation has a budget of steps; each expression evaluated,
//! statement executed and function called spends one.

use std::rc::Rc;
use vstd::prelude::*;
use crate::callable::{Callable, Function, NativeFunction, NativeKind, Value};
use crate::env::{Env, ScopeModel, define_in, enclose, lemma_owner_range, lookup, owner};
use crate::semantics::{
    HostAsk,
    IState,
    args_eval,
    arity_text,
    binary_result,
    bind_params,
    block_execs,
    calls,
    chosen,
    closure_of,
    decl_same,
    declared_from,
    eval_node,
    evals,
    exec_node,
    execs,
    for_execs,
    function_call,
    is_step_limit_error,
    native_call,
    program_runs,
    arithmetic,
    comparison,
    equality,
    printed_text,
    same_value,
    spent,
    unary_result,
    value_text_spec,
    while_execs,
    with_scopes,
};
use crate::error::EvalError;
use crate::expr::Expr;
use crate::stmt::Stmt;
use crate::text::decimal_string;
use crate::token::{Literal, Token, TokenType};

verus! {

/// What the interpreter needs from the program that runs it: the
/// arithmetic, comparisons and text of IEEE-754 doubles, the clock, and
/// the writing of output lines.
///
/// The methods carry no contract. Floating point and output are work this
/// library does not model, and the trait is the library's own seam, so a
/// contract here would be believed of every implementation unchecked.
/// What the interpreter states instead is its own record of the host:
/// each call is made in one place, beside the line that records the
/// question with the answer the call returned (or the line handed to
/// `print`), and every result is stated as the recorded answer. That the
/// record matches the host's arithmetic is not stated.
pub trait Host {
    /// The bit pattern of the double a decimal numeral denotes.
    fn number_from_text(&mut self, text: &str) -> u64;

    fn add(&mut self, a: u64, b: u64) -> u64;

    fn subtract(&mut self, a: u64, b: u64) -> u64;

    fn multiply(&mut self, a: u64, b: u64) -> u64;

    fn divide(&mut self, a: u64, b: u64) -> u64;

    fn negate(&mut self, a: u64) -> u64;

    fn equal(&mut self, a: u64, b: u64) -> bool;

    fn less(&mut self, a: u64, b: u64) -> bool;

    fn less_equal(&mut self, a: u64, b: u64) -> bool;

    fn greater(&mut self, a: u64, b: u64) -> bool;

    fn greater_equal(&mut self, a: u64, b: u64) -> bool;

    /// How a number is printed.
    fn number_text(&mut self, a: u64) -> String;

    /// Seconds since the Unix epoch, as a number.
    fn clock(&mut self) -> u64;

    /// Writes one line of program output.
    fn print(&mut self, text: &str);
}

/// How a statement ended: normally, or by `break`, `continue` or `return`.
#[derive(Debug, PartialEq)]
pub enum Flow {
    Normal,
    Break,
    Continue,
    Return(Value),
}

/// A function declaration: its parameters' names and its body.
pub struct FunctionDecl {
    pub params: Vec<String>,
    pub body: Vec<Stmt>,
}

/// Another pointer to the same declaration (`Rc::clone`). Claimed: the
/// result points to the same value.
#[verifier::external_body]
fn share(rc: &Rc<FunctionDecl>) -> (r: Rc<FunctionDecl>)
    ensures
        r == *rc,
{
    Rc::clone(rc)
}

/// A value refers only to scopes and declarations that exist, and a
/// function's arity is its declaration's number of parameters.
pub open spec fn value_ok(v: Value, scopes: nat, decls: Seq<Rc<FunctionDecl>>) -> bool {
    match v {
        Value::Callable(Callable::Function(f)) => {
            &&& f.env < scopes
            &&& f.declaration < decls.len()
            &&& f.arity == decls[f.declaration as int].params@.len()
        },
        _ => true,
    }
}

/// The state of a running program: its scopes, the declarations of its
/// functions, and the steps it has left.
pub struct Interpreter {
    env: Env,
    functions: Vec<Rc<FunctionDecl>>,
    steps: u64,
    printed: Ghost<Seq<Seq<char>>>,
    asked: Ghost<Seq<HostAsk>>,
}

proof fn lemma_value_ok_grows(
    v: Value,
    n: nat,
    d: Seq<Rc<FunctionDecl>>,
    n2: nat,
    d2: Seq<Rc<FunctionDecl>>,
)
    requires
        value_ok(v, n, d),
        n <= n2,
        d.len() <= d2.len(),
        forall|i: int| 0 <= i < d.len() ==> d2[i] == d[i],
    ensures
        value_ok(v, n2, d2),
{
}

impl Interpreter {
    /// The scopes of the running program.
    pub closed spec fn scopes(&self) -> Seq<ScopeModel> {
        self.env@
    }

    /// The steps left.
    pub closed spec fn steps_left(&self) -> u64 {
        self.steps
    }

    /// The lines handed to the host's `print` so far.
    pub closed spec fn printed(&self) -> Seq<Seq<char>> {
        self.printed@
    }

    /// The questions put to the host so far, each with the answer its call
    /// returned.
    pub closed spec fn asked(&self) -> Seq<HostAsk> {
        self.asked@
    }

    /// What evaluation sees of this state.
    pub open spec fn istate(&self) -> IState {
        IState {
            scopes: self.scopes(),
            decls: self.decls(),
            steps: self.steps_left() as nat,
            out: self.printed(),
            asked: self.asked(),
        }
    }

    /// The declarations of the program's functions.
    pub closed spec fn decls(&self) -> Seq<Rc<FunctionDecl>> {
        self.functions@
    }

    /// The state is consistent: scopes well formed, the global scope
    /// present, and every stored value valid.
    pub closed spec fn wf(&self) -> bool {
        &&& self.env.wf()
        &&& self.env@.len() >= 1
        &&& forall|i: int, k: Seq<char>|
            0 <= i < self.env@.len() && #[trigger] self.env@[i].vars.contains_key(k) ==> value_ok(
                self.env@[i].vars[k],
                self.env@.len(),
                self.functions@,
            )
    }

    /// `self` is a later state of `before`: scopes and declarations only
    /// added, steps only spent.
    pub closed spec fn extends(&self, before: Interpreter) -> bool {
        &&& before.env@.len() <= self.env@.len()
        &&& before.functions@.len() <= self.functions@.len()
        &&& forall|i: int| 0 <= i < before.functions@.len() ==> self.functions@[i] == before.functions@[i]
        &&& self.steps <= before.steps
    }

    /// A value valid in this state.
    pub closed spec fn valid(&self, v: Value) -> bool {
        value_ok(v, self.env@.len(), self.functions@)
    }

    /// A fresh interpreter: the global scope with the native functions,
    /// and as many steps as a `u64` counts.
    pub fn new() -> (r: Interpreter)
        ensures
            r.wf(),
            r.scopes().len() == 1,
            r.scopes()[0].enclosing is None,
            r.scopes()[0].vars.dom() == set!["clock"@],
            r.scopes()[0].vars["clock"@] matches Value::Callable(Callable::Native(n)) && n.name@
                == "clock"@ && n.arity == 0 && n.kind == NativeKind::Clock,
            r.decls().len() == 0,
            r.steps_left() == u64::MAX,
            r.printed().len() == 0,
            r.asked().len() == 0,
    {
        let env = Env::global();
        Interpreter { env, functions: Vec::new(), steps: u64::MAX, printed: Ghost(Seq::empty()), asked: Ghost(Seq::empty()) }
    }

    /// Spends one step, or reports that none are left.
    fn spend(&mut self) -> (r: Result<(), EvalError>)
        ensures
            final(self).env == old(self).env,
            final(self).functions == old(self).functions,
            final(self).printed == old(self).printed,
            final(self).asked == old(self).asked,
            r is Ok <==> old(self).steps > 0,
            r is Ok ==> final(self).steps == old(self).steps - 1,
            r is Err ==> final(self).steps == old(self).steps,
            r matches Err(e) ==> is_step_limit_error(e),
    {
        if self.steps == 0 {
            return Err(step_limit_error());
        }
        self.steps = self.steps - 1;
        Ok(())
    }

    /// Executes a program's statements in the global scope, one after
    /// another; an error stops its statement and is collected, and the
    /// next statement runs.
    pub fn work<H: Host>(&mut self, stmts: &Vec<Stmt>, host: &mut H) -> (r: Result<(), Vec<EvalError>>)
        requires
            old(self).wf(),
        ensures
            final(self).wf(),
            final(self).extends(*old(self)),
            match r {
                Ok(()) => program_runs(stmts@, 0, old(self).istate(), Seq::empty(), final(self).istate()),
                Err(es) => es@.len() > 0 && program_runs(
                    stmts@,
                    0,
                    old(self).istate(),
                    es@,
                    final(self).istate(),
                ),
            },
    {
        let ghost start = self.istate();
        let mut errors: Vec<EvalError> = Vec::new();
        let n = stmts.len();
        proof {
            assert forall|es: Seq<EvalError>, t: IState|
                #[trigger] program_runs(stmts@, 0, self.istate(), es, t) implies program_runs(
                stmts@,
                0,
                start,
                errors@ + es,
                t,
            ) by {
                assert(errors@ + es =~= es);
            }
        }
        let mut i: usize = 0;
        while i < n
            invariant
                n == stmts@.len(),
                i <= n,
                self.wf(),
                self.extends(*old(self)),
                start == old(self).istate(),
                forall|es: Seq<EvalError>, t: IState|
                    #[trigger] program_runs(stmts@, i as int, self.istate(), es, t) ==> program_runs(
                        stmts@,
                        0,
                        start,
                        errors@ + es,
                        t,
                    ),
            decreases n - i,
        {
            let ghost before = self.istate();
            let ghost old_errors = errors@;
            let r = stmts[i].exec(self, 0, host);
            let ghost after = self.istate();
            assert(chosen((r, after)));
            match r {
                Ok(_) => {
                    proof {
                        assert forall|es: Seq<EvalError>, t: IState|
                            #[trigger] program_runs(stmts@, i + 1, after, es, t) implies program_runs(
                            stmts@,
                            0,
                            start,
                            errors@ + es,
                            t,
                        ) by {
                            assert(program_runs(stmts@, i as int, before, es, t));
                        }
                    }
                },
                Err(e) => {
                    errors.push(e);
                    proof {
                        assert forall|es: Seq<EvalError>, t: IState|
                            #[trigger] program_runs(stmts@, i + 1, after, es, t) implies program_runs(
                            stmts@,
                            0,
                            start,
                            errors@ + es,
                            t,
                        ) by {
                            let es2 = seq![e] + es;
                            assert(es2.drop_first() =~= es);
                            assert(program_runs(stmts@, i as int, before, es2, t));
                            assert(old_errors + es2 =~= errors@ + es);
                        }
                    }
                },
            }
            i = i + 1;
        }
        proof {
            assert(program_runs(stmts@, n as int, self.istate(), Seq::empty(), self.istate()));
            assert(errors@ + Seq::<EvalError>::empty() =~= errors@);
        }
        if errors.len() == 0 {
            assert(errors@ =~= Seq::<EvalError>::empty());
            Ok(())
        } else {
            Err(errors)
        }
    }

    /// Evaluates an expression in the global scope.
    pub fn eval<H: Host>(&mut self, expr: &Expr, host: &mut H) -> (r: Result<Value, EvalError>)
        requires
            old(self).wf(),
        ensures
            final(self).wf(),
            final(self).extends(*old(self)),
            evals(*expr, old(self).istate(), 0, r, final(self).istate()),
    {
        expr.eval(self, 0, host)
    }
}

/// The error reported when the step budget is spent.
pub fn step_limit_error() -> (e: EvalError)
    ensures
        is_step_limit_error(e),
{
    let token = Token {
        token_type: TokenType::Eof,
        lexeme: String::new(),
        literal: None,
        line: 0,
        column: 0,
    };
    EvalError::new(&token, "Step limit reached.")
}

impl Interpreter {
    /// Gives `name` the value `v` in scope `scope`.
    fn define_var(&mut self, scope: usize, name: String, v: Value)
        requires
            old(self).wf(),
            scope < old(self).env@.len(),
            old(self).valid(v),
        ensures
            final(self).wf(),
            final(self).env@ == define_in(old(self).env@, scope as int, name@, v),
            final(self).functions == old(self).functions,
            final(self).steps == old(self).steps,
            final(self).printed == old(self).printed,
            final(self).asked == old(self).asked,
    {
        let ghost k = name@;
        self.env.define(scope, name, v);
        assert forall|i: int, key: Seq<char>|
            0 <= i < self.env@.len() && #[trigger] self.env@[i].vars.contains_key(key) implies value_ok(
            self.env@[i].vars[key],
            self.env@.len(),
            self.functions@,
        ) by {
            if !(i == scope && key == k) {
                assert(old(self).env@[i].vars.contains_key(key));
            }
        }
    }

    /// Gives `v` to the variable `name` that scope `scope` sees, if any.
    fn assign_var(&mut self, scope: usize, name: &str, v: Value) -> (r: Option<()>)
        requires
            old(self).wf(),
            scope < old(self).env@.len(),
            old(self).valid(v),
        ensures
            final(self).wf(),
            match owner(old(self).env@, scope as int, name@) {
                Some(o) => r is Some && final(self).env@ == define_in(old(self).env@, o, name@, v),
                None => r is None && final(self).env@ == old(self).env@,
            },
            final(self).env@.len() == old(self).env@.len(),
            final(self).functions == old(self).functions,
            final(self).steps == old(self).steps,
            final(self).printed == old(self).printed,
            final(self).asked == old(self).asked,
    {
        let r = self.env.assign(scope, name, v);
        proof {
            match owner(old(self).env@, scope as int, name@) {
                Some(o) => {
                    lemma_owner_range(old(self).env@, scope as int, name@);
                    assert forall|i: int, key: Seq<char>|
                        0 <= i < self.env@.len() && #[trigger] self.env@[i].vars.contains_key(
                            key,
                        ) implies value_ok(
                        self.env@[i].vars[key],
                        self.env@.len(),
                        self.functions@,
                    ) by {
                        if !(i == o && key == name@) {
                            assert(old(self).env@[i].vars.contains_key(key));
                        }
                    }
                },
                None => {},
            }
        }
        r
    }

    /// Makes a new scope enclosed by `enclosing`.
    fn new_scope(&mut self, enclosing: usize) -> (s: usize)
        requires
            old(self).wf(),
            enclosing < old(self).env@.len(),
        ensures
            final(self).wf(),
            final(self).extends(*old(self)),
            final(self).env@ == enclose(old(self).env@, enclosing as int),
            s == old(self).env@.len(),
            final(self).functions == old(self).functions,
            final(self).steps == old(self).steps,
            final(self).printed == old(self).printed,
            final(self).asked == old(self).asked,
    {
        let s = self.env.enclosed(enclosing);
        assert forall|i: int, key: Seq<char>|
            0 <= i < self.env@.len() && #[trigger] self.env@[i].vars.contains_key(key) implies value_ok(
            self.env@[i].vars[key],
            self.env@.len(),
            self.functions@,
        ) by {
            assert(i < old(self).env@.len());
            assert(self.env@[i] == old(self).env@[i]);
            assert(old(self).env@[i].vars.contains_key(key));
        }
        s
    }

    /// Records a function declaration, and returns its index.
    fn add_function(&mut self, decl: FunctionDecl) -> (d: usize)
        requires
            old(self).wf(),
        ensures
            final(self).wf(),
            final(self).extends(*old(self)),
            d == old(self).functions@.len(),
            final(self).functions@ == old(self).functions@.push(Rc::new(decl)),
            final(self).env == old(self).env,
            final(self).steps == old(self).steps,
            final(self).printed == old(self).printed,
            final(self).asked == old(self).asked,
    {
        let d = self.functions.len();
        self.functions.push(Rc::new(decl));
        assert forall|i: int, key: Seq<char>|
            0 <= i < self.env@.len() && #[trigger] self.env@[i].vars.contains_key(key) implies value_ok(
            self.env@[i].vars[key],
            self.env@.len(),
            self.functions@,
        ) by {
            assert(old(self).env@[i].vars.contains_key(key));
            lemma_value_ok_grows(
                self.env@[i].vars[key],
                self.env@.len(),
                old(self).functions@,
                self.env@.len(),
                self.functions@,
            );
        }
        d
    }
}

/// Values valid in one state are valid in every later one.
proof fn lemma_valid_later(later: Interpreter, before: Interpreter, v: Value)
    requires
        later.extends(before),
        before.valid(v),
    ensures
        later.valid(v),
{
    lemma_value_ok_grows(v, before.env@.len(), before.functions@, later.env@.len(), later.functions@);
}

/// Every state is a later state of itself.
pub proof fn lemma_extends_refl(a: Interpreter)
    ensures
        a.extends(a),
{
}

/// Being a later state is transitive.
pub proof fn lemma_extends_trans(c: Interpreter, b: Interpreter, a: Interpreter)
    requires
        c.extends(b),
        b.extends(a),
    ensures
        c.extends(a),
{
    assert forall|i: int| 0 <= i < a.functions@.len() implies c.functions@[i] == a.functions@[i] by {
        assert(b.functions@[i] == a.functions@[i]);
    }
}

/// A value whose function, if any, is among the declarations `decls`.
pub open spec fn declared_in(v: Value, decls: Seq<Rc<FunctionDecl>>) -> bool {
    v matches Value::Callable(Callable::Function(f)) ==> f.declaration < decls.len()
}

/// A result whose value, if any, is declared in `decls`.
pub open spec fn result_declared_in(r: Result<Value, EvalError>, decls: Seq<Rc<FunctionDecl>>) -> bool {
    r matches Ok(v) ==> declared_in(v, decls)
}

/// Whether two declarations have the same parameter names and body.
fn same_decl(a: &FunctionDecl, b: &FunctionDecl) -> (r: bool)
    ensures
        r == decl_same(*a, *b),
{
    if a.params.len() != b.params.len() {
        return false;
    }
    let n = a.params.len();
    let mut i: usize = 0;
    while i < n
        invariant
            n == a.params@.len(),
            n == b.params@.len(),
            i <= n,
            forall|j: int| 0 <= j < i ==> (#[trigger] a.params@[j])@ == b.params@[j]@,
        decreases n - i,
    {
        if a.params[i] != b.params[i] {
            return false;
        }
        i = i + 1;
    }
    Stmt::all_same(&a.body, &b.body)
}

impl Interpreter {
    /// `self` is `before` with only more questions put to the host.
    pub closed spec fn only_asked(&self, before: Interpreter) -> bool {
        &&& self.env == before.env
        &&& self.functions == before.functions
        &&& self.steps == before.steps
        &&& self.printed == before.printed
    }
}

/// Lox equality of two values; numbers are compared by the host.
fn values_equal<H: Host>(a: &Value, b: &Value, interp: &mut Interpreter, host: &mut H) -> (r: bool)
    requires
        declared_in(*a, old(interp).decls()),
        declared_in(*b, old(interp).decls()),
    ensures
        final(interp).only_asked(*old(interp)),
        equality(*a, *b, r, old(interp).decls(), old(interp).asked(), final(interp).asked()),
{
    match (a, b) {
        (Value::Number(x), Value::Number(y)) => {
            let e = host.equal(*x, *y);
            proof {
                interp.asked@ = interp.asked@.push(HostAsk::Equal(*x, *y, e));
            }
            e
        },
        (Value::Str(x), Value::Str(y)) => *x == *y,
        (Value::Bool(x), Value::Bool(y)) => *x == *y,
        (Value::Nil, Value::Nil) => true,
        (Value::Callable(Callable::Function(f)), Value::Callable(Callable::Function(g))) => {
            f.name == g.name && same_decl(&interp.functions[f.declaration], &interp.functions[g.declaration])
        },
        (Value::Callable(Callable::Native(f)), Value::Callable(Callable::Native(g))) => {
            f.name == g.name && f.arity == g.arity
        },
        _ => false,
    }
}

/// Asks the host for the result of arithmetic operator `op` on `a` and `b`.
fn ask_arithmetic<H: Host>(op: TokenType, a: u64, b: u64, interp: &mut Interpreter, host: &mut H) -> (res: Result<Value, EvalError>)
    requires
        op == TokenType::Plus || op == TokenType::Minus || op == TokenType::Star || op == TokenType::Slash,
    ensures
        final(interp).only_asked(*old(interp)),
        arithmetic(op, a, b, res, old(interp).asked(), final(interp).asked()),
{
    let x = match op {
        TokenType::Plus => host.add(a, b),
        TokenType::Minus => host.subtract(a, b),
        TokenType::Star => host.multiply(a, b),
        _ => host.divide(a, b),
    };
    proof {
        interp.asked@ = interp.asked@.push(
            match op {
                TokenType::Plus => HostAsk::Add(a, b, x),
                TokenType::Minus => HostAsk::Subtract(a, b, x),
                TokenType::Star => HostAsk::Multiply(a, b, x),
                _ => HostAsk::Divide(a, b, x),
            },
        );
    }
    Ok(Value::Number(x))
}

/// Asks the host for the answer of comparison `op` on `a` and `b`.
fn ask_comparison<H: Host>(op: TokenType, a: u64, b: u64, interp: &mut Interpreter, host: &mut H) -> (res: Result<Value, EvalError>)
    requires
        op == TokenType::Greater || op == TokenType::GreaterEqual || op == TokenType::Less || op
            == TokenType::LessEqual,
    ensures
        final(interp).only_asked(*old(interp)),
        comparison(op, a, b, res, old(interp).asked(), final(interp).asked()),
{
    let x = match op {
        TokenType::Greater => host.greater(a, b),
        TokenType::GreaterEqual => host.greater_equal(a, b),
        TokenType::Less => host.less(a, b),
        _ => host.less_equal(a, b),
    };
    proof {
        interp.asked@ = interp.asked@.push(
            match op {
                TokenType::Greater => HostAsk::Greater(a, b, x),
                TokenType::GreaterEqual => HostAsk::GreaterEqual(a, b, x),
                TokenType::Less => HostAsk::Less(a, b, x),
                _ => HostAsk::LessEqual(a, b, x),
            },
        );
    }
    Ok(Value::Bool(x))
}

/// The result of a binary operator on its operands' results: the
/// operand types decide whether it is computed or refused, and with what
/// message. Both operands are evaluated before this is decided; numbers
/// are computed and compared by the host.
pub fn binary_op<H: Host>(
    operator: &Token,
    l: Result<Value, EvalError>,
    r: Result<Value, EvalError>,
    interp: &mut Interpreter,
    host: &mut H,
) -> (res: Result<Value, EvalError>)
    requires
        result_declared_in(l, old(interp).decls()),
        result_declared_in(r, old(interp).decls()),
    ensures
        final(interp).only_asked(*old(interp)),
        res matches Ok(v) ==> !(v is Callable),
        binary_result(*operator, l, r, res, old(interp).decls(), old(interp).asked(), final(interp).asked()),
{
    let op = operator.token_type;
    match op {
        TokenType::Plus => match (l, r) {
            (Ok(Value::Number(a)), Ok(Value::Number(b))) => ask_arithmetic(op, a, b, interp, host),
            (Ok(Value::Str(a)), Ok(Value::Str(b))) => {
                let mut c = a;
                c.append(b.as_str());
                Ok(Value::Str(c))
            },
            _ => Err(EvalError::new(operator, "Operands must be two numbers or two strings.")),
        },
        TokenType::Minus | TokenType::Star | TokenType::Slash => match (l, r) {
            (Ok(Value::Number(a)), Ok(Value::Number(b))) => ask_arithmetic(op, a, b, interp, host),
            _ => Err(EvalError::new(operator, "Operands must be numbers.")),
        },
        TokenType::EqualEqual => match (l, r) {
            (Ok(a), Ok(b)) => Ok(Value::Bool(values_equal(&a, &b, interp, host))),
            _ => Err(EvalError::new(operator, "Operands must be of the same type.")),
        },
        TokenType::BangEqual => match (l, r) {
            (Ok(a), Ok(b)) => Ok(Value::Bool(!values_equal(&a, &b, interp, host))),
            _ => Err(EvalError::new(operator, "Operands must be of the same type.")),
        },
        TokenType::Greater | TokenType::GreaterEqual | TokenType::Less | TokenType::LessEqual => match (l, r) {
            (Ok(Value::Number(a)), Ok(Value::Number(b))) => ask_comparison(op, a, b, interp, host),
            _ => Err(EvalError::new(operator, "Operands must be numbers.")),
        },
        _ => Err(EvalError::new(operator, "Unknown operator.")),
    }
}

/// The result of a unary operator on its operand's result; numbers are
/// negated by the host.
pub fn unary_op<H: Host>(operator: &Token, r: Result<Value, EvalError>, interp: &mut Interpreter, host: &mut H) -> (res: Result<
    Value,
    EvalError,
>)
    ensures
        final(interp).only_asked(*old(interp)),
        res matches Ok(v) ==> !(v is Callable),
        unary_result(*operator, r, res, old(interp).asked(), final(interp).asked()),
{
    match operator.token_type {
        TokenType::Minus => match r {
            Ok(Value::Number(n)) => {
                let x = host.negate(n);
                proof {
                    interp.asked@ = interp.asked@.push(HostAsk::Negate(n, x));
                }
                Ok(Value::Number(x))
            },
            _ => Err(EvalError::new(operator, "Operand must be a number.")),
        },
        TokenType::Bang => match r {
            Ok(v) => Ok(Value::Bool(!v.is_truthy())),
            _ => Err(EvalError::new(operator, "Operand must be a boolean.")),
        },
        _ => Err(EvalError::new(operator, "Unknown operator.")),
    }
}

/// How `print` shows a value; numbers as the host writes them.
pub fn value_text<H: Host>(v: &Value, interp: &mut Interpreter, host: &mut H) -> (r: String)
    ensures
        final(interp).only_asked(*old(interp)),
        printed_text(*v, r@, old(interp).asked(), final(interp).asked()),
{
    match v {
        Value::Number(n) => {
            let t = host.number_text(*n);
            proof {
                interp.asked@ = interp.asked@.push(HostAsk::Text(*n, t@));
            }
            t
        },
        Value::Str(s) => s.clone(),
        Value::Bool(b) => if *b {
            String::from_str("true")
        } else {
            String::from_str("false")
        },
        Value::Nil => String::from_str("nil"),
        Value::Callable(Callable::Function(f)) => {
            let mut t = String::from_str("<fn ");
            t.append(f.name.as_str());
            t.append(">");
            t
        },
        Value::Callable(Callable::Native(_)) => String::from_str("<native fn>"),
    }
}

/// The message for a call with the wrong number of arguments.
pub fn arity_message(expected: usize, got: usize) -> (r: String)
    ensures
        r@ == arity_text(expected as nat, got as nat),
{
    let mut m = String::from_str("Expected ");
    m.append(decimal_string(expected).as_str());
    m.append(" arguments but got ");
    m.append(decimal_string(got).as_str());
    m.append(".");
    m
}

impl Expr {
    /// Evaluates this expression in scope `scope`.
    pub fn eval<H: Host>(&self, interp: &mut Interpreter, scope: usize, host: &mut H) -> (r: Result<
        Value,
        EvalError,
    >)
        requires
            old(interp).wf(),
            scope < old(interp).scopes().len(),
        ensures
            final(interp).wf(),
            final(interp).extends(*old(interp)),
            r is Ok ==> final(interp).steps_left() < old(interp).steps_left(),
            r matches Ok(v) ==> final(interp).valid(v),
            evals(*self, old(interp).istate(), scope as int, r, final(interp).istate()),
        decreases old(interp).steps_left(), 0nat,
    {
        interp.spend()?;
        let ghost spent_state = *interp;
        assert(spent_state.extends(*old(interp)));
        assert(interp.istate() == spent(old(interp).istate()));
        let r = self.eval_spent(interp, scope, host);
        proof {
            lemma_extends_trans(*interp, spent_state, *old(interp));
        }
        r
    }

    /// Evaluates this expression once its step is spent.
    fn eval_spent<H: Host>(&self, interp: &mut Interpreter, scope: usize, host: &mut H) -> (r: Result<
        Value,
        EvalError,
    >)
        requires
            old(interp).wf(),
            scope < old(interp).scopes().len(),
        ensures
            final(interp).wf(),
            final(interp).extends(*old(interp)),
            final(interp).steps_left() <= old(interp).steps_left(),
            r matches Ok(v) ==> final(interp).valid(v),
            eval_node(*self, old(interp).istate(), scope as int, r, final(interp).istate()),
        decreases old(interp).steps_left(), 1nat,
    {
        let ghost s1 = interp.istate();
        match self {
            Expr::Binary { left, operator, right } => {
                let l = left.eval(interp, scope, host);
                let ghost mid = *interp;
                let r = right.eval(interp, scope, host);
                let ghost m2 = *interp;
                proof {
                    lemma_extends_trans(*interp, mid, *old(interp));
                    assert(chosen((l, mid.istate(), r, m2.istate())));
                    if l is Ok {
                        lemma_valid_later(*interp, mid, l->Ok_0);
                    }
                }
                let res = binary_op(operator, l, r, interp, host);
                assert(interp.istate() == IState { asked: interp.istate().asked, ..m2.istate() });
                res
            },
            Expr::Grouping { expression } => expression.eval(interp, scope, host),
            Expr::Literal { value } => {
                let v = match value {
                    Literal::Number(text) => {
                        let x = host.number_from_text(text.as_str());
                        proof {
                            interp.asked@ = interp.asked@.push(HostAsk::Number(text@, x));
                        }
                        Value::Number(x)
                    },
                    Literal::String(s) => Value::Str(s.clone()),
                    Literal::Bool(b) => Value::Bool(*b),
                    Literal::Nil => Value::Nil,
                };
                proof {
                    lemma_extends_refl(*interp);
                }
                Ok(v)
            },
            Expr::Unary { operator, right } => {
                let r = right.eval(interp, scope, host);
                let ghost m = interp.istate();
                assert(chosen((r, m)));
                let res = unary_op(operator, r, interp, host);
                assert(interp.istate() == IState { asked: interp.istate().asked, ..m });
                res
            },
            Expr::Variable { name } => {
                proof {
                    lemma_extends_refl(*interp);
                }
                match interp.env.get(scope, name.lexeme.as_str()) {
                    Some(v) => {
                        assert(lookup(interp.env@, scope as int, name.lexeme@) == Some(v));
                        proof {
                            interp.lemma_lookup_valid(scope as int, name.lexeme@);
                        }
                        Ok(v)
                    },
                    None => Err(EvalError::new(name, "Undefined variable.")),
                }
            },
            Expr::Assign { name, value } => {
                let rv = value.eval(interp, scope, host);
                let ghost mid = *interp;
                let v = match rv {
                    Ok(v) => v,
                    Err(e) => {
                        assert(chosen((Err::<Value, EvalError>(e), mid.istate())));
                        return Err(e);
                    },
                };
                assert(chosen((Ok::<Value, EvalError>(v), mid.istate())));
                let r = interp.assign_var(scope, name.lexeme.as_str(), v.clone());
                assert(interp.extends(mid));
                proof {
                    lemma_extends_trans(*interp, mid, *old(interp));
                    lemma_valid_later(*interp, mid, v);
                }
                match r {
                    Some(_) => Ok(v),
                    None => Err(EvalError::new(name, "Undefined variable.")),
                }
            },
            Expr::Logical { left, operator, right } => {
                let rl = left.eval(interp, scope, host);
                let ghost mid = *interp;
                assert(chosen((rl, mid.istate())));
                let lv = match rl {
                    Ok(v) => v,
                    Err(e) => {
                        return Err(e);
                    },
                };
                proof {
                    lemma_extends_refl(*interp);
                }
                let r = match operator.token_type {
                    TokenType::Or => if lv.is_truthy() {
                        Ok(lv)
                    } else {
                        right.eval(interp, scope, host)
                    },
                    TokenType::And => if !lv.is_truthy() {
                        Ok(lv)
                    } else {
                        right.eval(interp, scope, host)
                    },
                    _ => Err(EvalError::new(operator, "Unknown logical operator.")),
                };
                proof {
                    lemma_extends_trans(*interp, mid, *old(interp));
                }
                r
            },
            Expr::Call { callee, rparen, args } => {
                let rc = callee.eval(interp, scope, host);
                let ghost after_callee = *interp;
                assert(chosen((rc, after_callee.istate())));
                let callee_val = match rc {
                    Ok(v) => v,
                    Err(e) => {
                        return Err(e);
                    },
                };
                let ghost m = interp.istate();
                let mut values: Vec<Value> = Vec::new();
                let n = args.len();
                let mut i: usize = 0;
                while i < n
                    invariant
                        n == args@.len(),
                        i <= n,
                        interp.wf(),
                        interp.extends(*old(interp)),
                        interp.extends(after_callee),
                        interp.steps_left() < old(interp).steps_left(),
                        scope < interp.scopes().len(),
                        after_callee.valid(callee_val),
                        after_callee.extends(*old(interp)),
                        m == after_callee.istate(),
                        s1 == old(interp).istate(),
                        m.steps <= s1.steps,
                        evals(**callee, s1, scope as int, Ok(callee_val), m),
                        *self == (Expr::Call { callee: *callee, rparen: *rparen, args: *args }),
                        values@.len() == i,
                        forall|j: int| 0 <= j < i ==> interp.valid(#[trigger] values@[j]),
                        forall|ra: Result<Seq<Value>, EvalError>, t: IState|
                            #[trigger] args_eval(args@, i as int, interp.istate(), scope as int, values@, ra, t)
                                ==> args_eval(args@, 0, m, scope as int, Seq::empty(), ra, t),
                    decreases n - i,
                {
                    let ghost before = *interp;
                    let ra = args[i].eval(interp, scope, host);
                    let ghost after = interp.istate();
                    match ra {
                        Ok(v) => {
                            proof {
                                assert forall|j: int| 0 <= j < i implies interp.valid(#[trigger] values@[j]) by {
                                    lemma_valid_later(*interp, before, values@[j]);
                                }
                                assert forall|res: Result<Seq<Value>, EvalError>, t: IState|
                                    #[trigger] args_eval(args@, i + 1, after, scope as int, values@.push(v), res, t)
                                    implies args_eval(args@, 0, m, scope as int, Seq::empty(), res, t) by {
                                    assert(chosen((Ok::<Value, EvalError>(v), after)));
                                    assert(args_eval(args@, i as int, before.istate(), scope as int, values@, res, t));
                                }
                            }
                            values.push(v);
                            i = i + 1;
                        },
                        Err(e) => {
                            proof {
                                assert(chosen((Err::<Value, EvalError>(e), after)));
                                assert(args_eval(args@, i as int, before.istate(), scope as int, values@, Err(e), after));
                                assert(chosen((Err::<Seq<Value>, EvalError>(e), after)));
                                assert(chosen((Ok::<Value, EvalError>(callee_val), m)));
                                lemma_extends_trans(*interp, before, after_callee);
                                lemma_extends_trans(*interp, after_callee, *old(interp));
                            }
                            return Err(e);
                        },
                    }
                }
                proof {
                    lemma_valid_later(*interp, after_callee, callee_val);
                    assert(args_eval(args@, n as int, interp.istate(), scope as int, values@, Ok(values@), interp.istate()));
                    assert(chosen((Ok::<Seq<Value>, EvalError>(values@), interp.istate())));
                    assert(chosen((Ok::<Value, EvalError>(callee_val), m)));
                }
                let ghost mid = *interp;
                let r = call_value(interp, callee_val, values, rparen, host);
                proof {
                    lemma_extends_trans(*interp, mid, *old(interp));
                }
                r
            },
        }
    }
}

impl Interpreter {
    proof fn lemma_lookup_valid(&self, s: int, k: Seq<char>)
        requires
            self.wf(),
            0 <= s < self.env@.len(),
            lookup(self.env@, s, k) is Some,
        ensures
            self.valid(lookup(self.env@, s, k)->0),
        decreases s,
    {
        if !self.env@[s].vars.contains_key(k) {
            let p = self.env@[s].enclosing->0;
            self.lemma_lookup_valid(p, k);
        }
    }
}

/// Calls `callee` with `args`, after checking that it can be called
/// with that many arguments.
fn call_value<H: Host>(
    interp: &mut Interpreter,
    callee: Value,
    args: Vec<Value>,
    rparen: &Token,
    host: &mut H,
) -> (r: Result<Value, EvalError>)
    requires
        old(interp).wf(),
        old(interp).valid(callee),
        forall|j: int| 0 <= j < args@.len() ==> old(interp).valid(#[trigger] args@[j]),
    ensures
        final(interp).wf(),
        final(interp).extends(*old(interp)),
        r matches Ok(v) ==> final(interp).valid(v),
        calls(callee, args@, *rparen, old(interp).istate(), r, final(interp).istate()),
    decreases old(interp).steps_left(), 3nat,
{
    proof {
        lemma_extends_refl(*interp);
    }
    match callee {
        Value::Callable(c) => {
            if args.len() == c.arity() {
                c.call(interp, args, host)
            } else {
                let m = arity_message(c.arity(), args.len());
                Err(EvalError::new(rparen, m.as_str()))
            }
        },
        _ => Err(EvalError::new(rparen, "Can only call functions and classes.")),
    }
}

impl Callable {
    /// Calls this function with `args`.
    pub fn call<H: Host>(&self, interp: &mut Interpreter, args: Vec<Value>, host: &mut H) -> (r: Result<
        Value,
        EvalError,
    >)
        requires
            old(interp).wf(),
            old(interp).valid(Value::Callable(*self)),
            forall|j: int| 0 <= j < args@.len() ==> old(interp).valid(#[trigger] args@[j]),
        ensures
            final(interp).wf(),
            final(interp).extends(*old(interp)),
            r matches Ok(v) ==> final(interp).valid(v),
            match *self {
                Callable::Function(f) => function_call(f, args@, old(interp).istate(), r, final(interp).istate()),
                Callable::Native(n) => native_call(n, r, old(interp).asked(), final(interp).asked())
                    && final(interp).istate() == IState { asked: final(interp).asked(), ..old(interp).istate() },
            },
        decreases old(interp).steps_left(), 2nat,
    {
        match self {
            Callable::Function(f) => f.call(interp, args, host),
            Callable::Native(n) => {
                proof {
                    lemma_extends_refl(*interp);
                }
                n.call(interp, args, host)
            },
        }
    }
}

impl NativeFunction {
    /// Calls this function; the arguments are not used. `clock` always
    /// succeeds with the host's reading of the clock, which is recorded;
    /// the reading depends on the time and so is not stated.
    pub fn call<H: Host>(&self, interp: &mut Interpreter, args: Vec<Value>, host: &mut H) -> (r: Result<Value, EvalError>)
        ensures
            final(interp).only_asked(*old(interp)),
            native_call(*self, r, old(interp).asked(), final(interp).asked()),
            r matches Ok(v) ==> !(v is Callable),
    {
        match self.kind {
            NativeKind::Clock => {
                let x = host.clock();
                proof {
                    interp.asked@ = interp.asked@.push(HostAsk::Clock(x));
                }
                Ok(Value::Number(x))
            },
        }
    }
}

impl Function {
    /// Calls this function with `args`: binds its parameters to the
    /// arguments (as far as both go) in a new scope enclosed by the one it
    /// closes over, and runs its body there; its value is that of the
    /// `return` that ends it, else `nil`.
    pub fn call<H: Host>(&self, interp: &mut Interpreter, args: Vec<Value>, host: &mut H) -> (r: Result<
        Value,
        EvalError,
    >)
        requires
            old(interp).wf(),
            old(interp).valid(Value::Callable(Callable::Function(*self))),
            forall|j: int| 0 <= j < args@.len() ==> old(interp).valid(#[trigger] args@[j]),
        ensures
            final(interp).wf(),
            final(interp).extends(*old(interp)),
            r matches Ok(v) ==> final(interp).valid(v),
            function_call(*self, args@, old(interp).istate(), r, final(interp).istate()),
        decreases old(interp).steps_left(), 1nat,
    {
        let f = self;
    let ghost s = interp.istate();
    let decl = share(&interp.functions[f.declaration]);
    let fn_scope = interp.new_scope(f.env);
    let ghost fs = s.scopes.len() as int;
    let ghost target = bind_params(enclose(s.scopes, f.env as int), fs, decl.params@, args@, 0);
    let n = if args.len() < decl.params.len() {
        args.len()
    } else {
        decl.params.len()
    };
    for i in 0..n
        invariant
            n <= args@.len(),
            n <= decl.params@.len(),
            n == args@.len() || n == decl.params@.len(),
            interp.wf(),
            interp.extends(*old(interp)),
            interp.steps_left() == old(interp).steps_left(),
            interp.functions == old(interp).functions,
            interp.printed == old(interp).printed,
            interp.asked == old(interp).asked,
            fn_scope == fs,
            fn_scope < interp.scopes().len(),
            s == old(interp).istate(),
            fs == s.scopes.len(),
            decl == s.decls[f.declaration as int],
            target == bind_params(enclose(s.scopes, f.env as int), fs, decl.params@, args@, 0),
            forall|j: int| 0 <= j < args@.len() ==> interp.valid(#[trigger] args@[j]),
            bind_params(interp.env@, fs, decl.params@, args@, i as int) == target,
    {
        let ghost before = *interp;
        interp.define_var(fn_scope, decl.params[i].clone(), args[i].clone());
        proof {
            assert forall|j: int| 0 <= j < args@.len() implies interp.valid(#[trigger] args@[j]) by {
                lemma_valid_later(*interp, before, args@[j]);
            }
        }
    }
    let ghost s2 = interp.istate();
    assert(s2 == with_scopes(s, target));
    let m = decl.body.len();
    let mut i: usize = 0;
    while i < m
        invariant
            m == decl.body@.len(),
            i <= m,
            interp.wf(),
            interp.extends(*old(interp)),
            fn_scope < interp.scopes().len(),
            fn_scope == fs,
            s == old(interp).istate(),
            fs == s.scopes.len(),
            *f == *self,
            f.declaration < s.decls.len(),
            decl == s.decls[f.declaration as int],
            target == bind_params(enclose(s.scopes, f.env as int), fs, decl.params@, args@, 0),
            s2 == with_scopes(s, target),
            forall|rb: Result<Flow, EvalError>, t: IState|
                #[trigger] block_execs(decl.body@, i as int, interp.istate(), fs, rb, t)
                    ==> block_execs(decl.body@, 0, s2, fs, rb, t),
        decreases m - i,
    {
        let ghost before = interp.istate();
        let rs = decl.body[i].exec(interp, fn_scope, host);
        let ghost after = interp.istate();
        assert(chosen((rs, after)));
        match rs {
            Ok(Flow::Normal) => {
                proof {
                    assert forall|rb: Result<Flow, EvalError>, t: IState|
                        #[trigger] block_execs(decl.body@, i + 1, after, fs, rb, t) implies block_execs(
                        decl.body@,
                        0,
                        s2,
                        fs,
                        rb,
                        t,
                    ) by {
                        assert(chosen((Ok::<Flow, EvalError>(Flow::Normal), after)));
                        assert(block_execs(decl.body@, i as int, before, fs, rb, t));
                    }
                }
                i = i + 1;
            },
            Ok(Flow::Return(v)) => {
                assert(chosen((Ok::<Flow, EvalError>(Flow::Return(v)), after)));
                assert(block_execs(decl.body@, i as int, before, fs, Ok(Flow::Return(v)), after));
                assert(chosen(Ok::<Flow, EvalError>(Flow::Return(v))));
                return Ok(v);
            },
            Ok(flow) => {
                assert(chosen((Ok::<Flow, EvalError>(flow), after)));
                assert(block_execs(decl.body@, i as int, before, fs, Ok(flow), after));
                assert(chosen(Ok::<Flow, EvalError>(flow)));
                return Ok(Value::Nil);
            },
            Err(e) => {
                assert(chosen((Err::<Flow, EvalError>(e), after)));
                assert(block_execs(decl.body@, i as int, before, fs, Err(e), after));
                assert(chosen(Err::<Flow, EvalError>(e)));
                return Err(e);
            },
        }
    }
    assert(block_execs(decl.body@, m as int, interp.istate(), fs, Ok(Flow::Normal), interp.istate()));
    assert(chosen(Ok::<Flow, EvalError>(Flow::Normal)));
    Ok(Value::Nil)
    }
}

impl Stmt {
    /// Executes this statement in scope `scope`.
    pub fn exec<H: Host>(&self, interp: &mut Interpreter, scope: usize, host: &mut H) -> (r: Result<
        Flow,
        EvalError,
    >)
        requires
            old(interp).wf(),
            scope < old(interp).scopes().len(),
        ensures
            final(interp).wf(),
            final(interp).extends(*old(interp)),
            r is Ok ==> final(interp).steps_left() < old(interp).steps_left(),
            r matches Ok(Flow::Return(v)) ==> final(interp).valid(v),
            execs(*self, old(interp).istate(), scope as int, r, final(interp).istate()),
        decreases old(interp).steps_left(), 0nat,
    {
        interp.spend()?;
        let ghost spent_state = *interp;
        assert(spent_state.extends(*old(interp)));
        assert(interp.istate() == spent(old(interp).istate()));
        let r = self.exec_spent(interp, scope, host);
        proof {
            lemma_extends_trans(*interp, spent_state, *old(interp));
        }
        r
    }

    /// Executes this statement once its step is spent.
    fn exec_spent<H: Host>(&self, interp: &mut Interpreter, scope: usize, host: &mut H) -> (r: Result<
        Flow,
        EvalError,
    >)
        requires
            old(interp).wf(),
            scope < old(interp).scopes().len(),
        ensures
            final(interp).wf(),
            final(interp).extends(*old(interp)),
            final(interp).steps_left() <= old(interp).steps_left(),
            r matches Ok(Flow::Return(v)) ==> final(interp).valid(v),
            exec_node(*self, old(interp).istate(), scope as int, r, final(interp).istate()),
        decreases old(interp).steps_left(), 2nat,
    {
        let ghost s1 = interp.istate();
        match self {
            Stmt::Expression { expression } => {
                let rv = expression.eval(interp, scope, host);
                assert(chosen(rv));
                match rv {
                    Ok(_) => Ok(Flow::Normal),
                    Err(e) => Err(e),
                }
            },
            Stmt::Print { expression } => {
                let rv = expression.eval(interp, scope, host);
                assert(chosen((rv, interp.istate())));
                let v = match rv {
                    Ok(v) => v,
                    Err(e) => {
                        return Err(e);
                    },
                };
                let ghost m0 = interp.istate();
                let text = value_text(&v, interp, host);
                host.print(text.as_str());
                let ghost m = interp.istate();
                proof {
                    interp.printed@ = interp.printed@.push(text@);
                    assert(interp.istate().out.drop_last() =~= m.out);
                }
                assert(exec_node(*self, s1, scope as int, Ok(Flow::Normal), interp.istate()));
                Ok(Flow::Normal)
            },
            Stmt::Var { name, initializer } => {
                let rv = initializer.eval(interp, scope, host);
                let ghost mid = *interp;
                assert(chosen((rv, mid.istate())));
                let v = match rv {
                    Ok(v) => v,
                    Err(e) => {
                        return Err(e);
                    },
                };
                interp.define_var(scope, name.lexeme.clone(), v);
                proof {
                    lemma_extends_trans(*interp, mid, *old(interp));
                }
                Ok(Flow::Normal)
            },
            Stmt::Block { statements } => {
                let block_scope = interp.new_scope(scope);
                let ghost mid = *interp;
                let r = exec_block(interp, statements, block_scope, host);
                proof {
                    lemma_extends_trans(*interp, mid, *old(interp));
                }
                r
            },
            Stmt::If { condition, then_branch, else_branch } => {
                let rc = condition.eval(interp, scope, host);
                let ghost mid = *interp;
                assert(chosen((rc, mid.istate())));
                let c = match rc {
                    Ok(c) => c,
                    Err(e) => {
                        return Err(e);
                    },
                };
                proof {
                    lemma_extends_refl(*interp);
                }
                let r = if c.is_truthy() {
                    then_branch.exec(interp, scope, host)
                } else {
                    match else_branch {
                        Some(e) => e.exec(interp, scope, host),
                        None => Ok(Flow::Normal),
                    }
                };
                proof {
                    lemma_extends_trans(*interp, mid, *old(interp));
                }
                r
            },
            Stmt::While { condition, body } => {
                let ghost start = interp.istate();
                proof {
                    lemma_extends_refl(*interp);
                }
                loop
                    invariant
                        interp.wf(),
                        interp.extends(*old(interp)),
                        interp.steps_left() <= old(interp).steps_left(),
                        scope < interp.scopes().len(),
                        start == old(interp).istate(),
                        *self == (Stmt::While { condition: *condition, body: *body }),
                        forall|r: Result<Flow, EvalError>, t: IState|
                            #[trigger] while_execs(*condition, **body, interp.istate(), scope as int, r, t)
                                ==> while_execs(*condition, **body, start, scope as int, r, t),
                    decreases interp.steps_left(),
                {
                    let ghost iter = *interp;
                    let ghost iter_s = interp.istate();
                    let rc = condition.eval(interp, scope, host);
                    let ghost m = interp.istate();
                    assert(chosen((rc, m)));
                    let c = match rc {
                        Ok(c) => c,
                        Err(e) => {
                            assert(while_execs(*condition, **body, iter_s, scope as int, Err(e), m));
                            proof {
                                lemma_extends_trans(*interp, iter, *old(interp));
                            }
                            return Err(e);
                        },
                    };
                    if !c.is_truthy() {
                        assert(while_execs(*condition, **body, iter_s, scope as int, Ok(Flow::Normal), m));
                        proof {
                            lemma_extends_trans(*interp, iter, *old(interp));
                        }
                        return Ok(Flow::Normal);
                    }
                    let ghost mid = *interp;
                    let rb = body.exec(interp, scope, host);
                    let ghost m2 = interp.istate();
                    assert(chosen((rb, m2)));
                    proof {
                        lemma_extends_trans(*interp, mid, iter);
                        lemma_extends_trans(*interp, iter, *old(interp));
                    }
                    match rb {
                        Ok(Flow::Break) => {
                            assert(while_execs(*condition, **body, iter_s, scope as int, Ok(Flow::Normal), m2));
                            return Ok(Flow::Normal);
                        },
                        Ok(Flow::Return(v)) => {
                            assert(while_execs(*condition, **body, iter_s, scope as int, Ok(Flow::Return(v)), m2));
                            return Ok(Flow::Return(v));
                        },
                        Err(e) => {
                            assert(while_execs(*condition, **body, iter_s, scope as int, Err(e), m2));
                            return Err(e);
                        },
                        _ => {
                            proof {
                                assert forall|r: Result<Flow, EvalError>, t: IState|
                                    #[trigger] while_execs(*condition, **body, m2, scope as int, r, t) implies while_execs(
                                    *condition,
                                    **body,
                                    start,
                                    scope as int,
                                    r,
                                    t,
                                ) by {
                                    assert(while_execs(*condition, **body, iter_s, scope as int, r, t));
                                }
                            }
                        },
                    }
                }
            },
            Stmt::For { initializer, condition, increment, body } => {
                let loop_scope = interp.new_scope(scope);
                let ghost s2 = interp.istate();
                let ghost after_scope = *interp;
                match initializer {
                    Some(init) => {
                        let ri = init.exec(interp, loop_scope, host);
                        assert(chosen((ri, interp.istate())));
                        match ri {
                            Ok(_) => {},
                            Err(e) => {
                                proof {
                                    lemma_extends_trans(*interp, after_scope, *old(interp));
                                }
                                return Err(e);
                            },
                        }
                    },
                    None => {},
                }
                let ghost start = interp.istate();
                proof {
                    lemma_extends_trans(*interp, after_scope, *old(interp));
                }
                loop
                    invariant
                        interp.wf(),
                        interp.extends(*old(interp)),
                        interp.steps_left() <= old(interp).steps_left(),
                        loop_scope < interp.scopes().len(),
                        *self == (Stmt::For {
                            initializer: *initializer,
                            condition: *condition,
                            increment: *increment,
                            body: *body,
                        }),
                        s1 == old(interp).istate(),
                        loop_scope == s1.scopes.len(),
                        s2 == with_scopes(s1, enclose(s1.scopes, scope as int)),
                        match initializer {
                            None => start == s2,
                            Some(init) => exists|ri: Result<Flow, EvalError>|
                                #[trigger] chosen((ri, start)) && execs(**init, s2, loop_scope as int, ri, start)
                                    && ri is Ok && start.steps <= s2.steps,
                        },
                        forall|r: Result<Flow, EvalError>, t: IState|
                            #[trigger] for_execs(*condition, *increment, **body, interp.istate(), loop_scope as int, r, t)
                                ==> for_execs(*condition, *increment, **body, start, loop_scope as int, r, t),
                    decreases interp.steps_left(),
                {
                    let ghost iter = *interp;
                    let ghost iter_s = interp.istate();
                    let rc = condition.eval(interp, loop_scope, host);
                    let ghost m = interp.istate();
                    assert(chosen((rc, m)));
                    let c = match rc {
                        Ok(c) => c,
                        Err(e) => {
                            assert(for_execs(*condition, *increment, **body, iter_s, loop_scope as int, Err(e), m));
                            proof {
                                lemma_extends_trans(*interp, iter, *old(interp));
                            }
                            return Err(e);
                        },
                    };
                    if !c.is_truthy() {
                        assert(for_execs(*condition, *increment, **body, iter_s, loop_scope as int, Ok(Flow::Normal), m));
                        proof {
                            lemma_extends_trans(*interp, iter, *old(interp));
                        }
                        return Ok(Flow::Normal);
                    }
                    let ghost mid = *interp;
                    let rb = body.exec(interp, loop_scope, host);
                    let ghost m2 = interp.istate();
                    assert(chosen((rb, m2)));
                    proof {
                        lemma_extends_trans(*interp, mid, iter);
                        lemma_extends_trans(*interp, iter, *old(interp));
                    }
                    match rb {
                        Ok(Flow::Break) => {
                            assert(for_execs(*condition, *increment, **body, iter_s, loop_scope as int, Ok(Flow::Normal), m2));
                            return Ok(Flow::Normal);
                        },
                        Ok(Flow::Return(v)) => {
                            assert(for_execs(*condition, *increment, **body, iter_s, loop_scope as int, Ok(Flow::Return(v)), m2));
                            return Ok(Flow::Return(v));
                        },
                        Err(e) => {
                            assert(for_execs(*condition, *increment, **body, iter_s, loop_scope as int, Err(e), m2));
                            return Err(e);
                        },
                        _ => {},
                    }
                    match increment {
                        Some(inc) => {
                            let ghost after_body = *interp;
                            let ri = inc.eval(interp, loop_scope, host);
                            let ghost m3 = interp.istate();
                            assert(chosen((ri, m3)));
                            proof {
                                lemma_extends_trans(*interp, after_body, *old(interp));
                            }
                            match ri {
                                Ok(_) => {
                                    proof {
                                        assert forall|r: Result<Flow, EvalError>, t: IState|
                                            #[trigger] for_execs(*condition, *increment, **body, m3, loop_scope as int, r, t)
                                            implies for_execs(*condition, *increment, **body, start, loop_scope as int, r, t) by {
                                            assert(for_execs(*condition, *increment, **body, iter_s, loop_scope as int, r, t));
                                        }
                                    }
                                },
                                Err(e) => {
                                    assert(for_execs(*condition, *increment, **body, iter_s, loop_scope as int, Err(e), m3));
                                    return Err(e);
                                },
                            }
                        },
                        None => {
                            proof {
                                assert forall|r: Result<Flow, EvalError>, t: IState|
                                    #[trigger] for_execs(*condition, *increment, **body, m2, loop_scope as int, r, t)
                                    implies for_execs(*condition, *increment, **body, start, loop_scope as int, r, t) by {
                                    assert(for_execs(*condition, *increment, **body, iter_s, loop_scope as int, r, t));
                                }
                            }
                        },
                    }
                }
            },
            Stmt::Function { name, params, body } => {
                let mut names: Vec<String> = Vec::new();
                for i in 0..params.len()
                    invariant
                        names@.len() == i,
                        forall|j: int| 0 <= j < i ==> (#[trigger] names@[j])@ == params@[j].lexeme@,
                {
                    names.push(params[i].lexeme.clone());
                }
                let arity = names.len();
                let decl = FunctionDecl { params: names, body: Stmt::clone_all(body) };
                let ghost d = decl;
                let dix = interp.add_function(decl);
                let f = Function { name: name.lexeme.clone(), arity, declaration: dix, env: scope };
                let ghost fv = f;
                let ghost mid = *interp;
                interp.define_var(scope, name.lexeme.clone(), Value::Callable(Callable::Function(f)));
                proof {
                    lemma_extends_trans(*interp, mid, *old(interp));
                    assert(declared_from(d, params@, body@));
                    assert(closure_of(fv, *name, params@.len(), s1.decls.len(), scope as int));
                    assert(chosen((d, fv)));
                }
                assert(exec_node(*self, s1, scope as int, Ok(Flow::Normal), interp.istate()));
                Ok(Flow::Normal)
            },
            Stmt::Return { keyword, value } => {
                let rv = value.eval(interp, scope, host);
                assert(chosen(rv));
                match rv {
                    Ok(v) => Ok(Flow::Return(v)),
                    Err(e) => Err(e),
                }
            },
            Stmt::Break { keyword } => {
                proof {
                    lemma_extends_refl(*interp);
                }
                Ok(Flow::Break)
            },
            Stmt::Continue { keyword } => {
                proof {
                    lemma_extends_refl(*interp);
                }
                Ok(Flow::Continue)
            },
        }
    }
}

/// Executes `stmts` in scope `scope` until one ends other than normally.
fn exec_block<H: Host>(interp: &mut Interpreter, stmts: &Vec<Stmt>, scope: usize, host: &mut H) -> (r:
    Result<Flow, EvalError>)
    requires
        old(interp).wf(),
        scope < old(interp).scopes().len(),
    ensures
        final(interp).wf(),
        final(interp).extends(*old(interp)),
        final(interp).steps_left() <= old(interp).steps_left(),
        r matches Ok(Flow::Return(v)) ==> final(interp).valid(v),
        block_execs(stmts@, 0, old(interp).istate(), scope as int, r, final(interp).istate()),
    decreases old(interp).steps_left(), 1nat,
{
    let ghost start = interp.istate();
    proof {
        lemma_extends_refl(*interp);
    }
    let n = stmts.len();
    let mut i: usize = 0;
    while i < n
        invariant
            n == stmts@.len(),
            i <= n,
            interp.wf(),
            interp.extends(*old(interp)),
            scope < interp.scopes().len(),
            start == old(interp).istate(),
            forall|rb: Result<Flow, EvalError>, t: IState|
                #[trigger] block_execs(stmts@, i as int, interp.istate(), scope as int, rb, t)
                    ==> block_execs(stmts@, 0, start, scope as int, rb, t),
        decreases n - i,
    {
        let ghost before = interp.istate();
        let ghost prev = *interp;
        let rs = stmts[i].exec(interp, scope, host);
        let ghost after = interp.istate();
        assert(chosen((rs, after)));
        proof {
            lemma_extends_trans(*interp, prev, *old(interp));
        }
        match rs {
            Ok(Flow::Normal) => {
                proof {
                    assert forall|rb: Result<Flow, EvalError>, t: IState|
                        #[trigger] block_execs(stmts@, i + 1, after, scope as int, rb, t) implies block_execs(
                        stmts@,
                        0,
                        start,
                        scope as int,
                        rb,
                        t,
                    ) by {
                        assert(block_execs(stmts@, i as int, before, scope as int, rb, t));
                    }
                }
                i = i + 1;
            },
            other => {
                assert(block_execs(stmts@, i as int, before, scope as int, other, after));
                return other;
            },
        }
    }
    assert(block_execs(stmts@, n as int, interp.istate(), scope as int, Ok(Flow::Normal), interp.istate()));
    Ok(Flow::Normal)
}

} // verus!
