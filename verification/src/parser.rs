//! The recursive-descent parser: tokens to statements.
//!
//! The grammar is stated below as spec functions, one rule per grammar
//! production, over the token sequence and a parse state (position, how
//! many loops and how many functions enclose it). Each parsing method is
//! proved to do exactly what its rule says, errors and final state included.

use vstd::prelude::*;
use crate::error::ParseError;
use crate::expr::{Expr, ExprModel, exprs_model};
use crate::scoping::{all_scoped, law_parsed_programs_are_scoped};
use crate::stmt::{Stmt, StmtModel, stmts_model};
use crate::token::{Literal, Token, TokenType};

verus! {

// ---------------------------------------------------------------------
// The grammar.
// ---------------------------------------------------------------------

/// Where the parser stands: the position of the next token, and how many
/// loops and function bodies enclose that position.
pub struct PState {
    pub pos: int,
    pub loops: int,
    pub funcs: int,
}

/// A parse error: the token it is reported at, and its message.
pub struct PErr {
    pub token: Token,
    pub message: Seq<char>,
}

/// Tokens the parser can work on: they end with the end-of-input token,
/// and every number and string token carries its literal.
pub open spec fn parser_ready(t: Seq<Token>) -> bool {
    &&& t.len() > 0
    &&& t.last().token_type == TokenType::Eof
    &&& forall|i: int|
        0 <= i < t.len() && (t[i].token_type == TokenType::Number || t[i].token_type
            == TokenType::String) ==> (#[trigger] t[i]).literal is Some
}

/// The starting state: first token, outside any loop or function.
pub open spec fn start_state() -> PState {
    PState { pos: 0, loops: 0, funcs: 0 }
}

pub open spec fn at_end(t: Seq<Token>, pos: int) -> bool {
    t[pos].token_type == TokenType::Eof
}

/// The token at `pos` is of kind `ty` (and is not the end of input).
pub open spec fn check(t: Seq<Token>, pos: int, ty: TokenType) -> bool {
    !at_end(t, pos) && t[pos].token_type == ty
}

/// The state one token further on.
pub open spec fn step(s: PState) -> PState {
    PState { pos: s.pos + 1, ..s }
}

/// `x` is a position within the tokens, not before `s`.
pub open spec fn onward(t: Seq<Token>, s: PState, x: PState) -> bool {
    s.pos <= x.pos < t.len()
}

/// A result that the rules below never produce on states they reach.
pub open spec fn bail<T>(s: PState) -> (Result<T, PErr>, PState) {
    (Err(PErr { token: arbitrary(), message: Seq::empty() }), s)
}

pub open spec fn fail<T>(token: Token, message: Seq<char>, s: PState) -> (Result<T, PErr>, PState) {
    (Err(PErr { token, message }), s)
}

/// An error reported at the token at the current position.
pub open spec fn fail_here<T>(t: Seq<Token>, message: Seq<char>, s: PState) -> (
    Result<T, PErr>,
    PState,
) {
    fail(t[s.pos], message, s)
}

/// Takes a token of kind `ty`, or reports `message`.
pub open spec fn rule_consume(t: Seq<Token>, s: PState, ty: TokenType, message: Seq<char>) -> (
    Result<Token, PErr>,
    PState,
) {
    if check(t, s.pos, ty) {
        (Ok(t[s.pos]), step(s))
    } else {
        fail_here(t, message, s)
    }
}

/// The operators of binary precedence level `k`: factor, term, comparison,
/// equality, `and`, `or`.
pub open spec fn level_has(k: nat, ty: TokenType) -> bool {
    if k == 0 {
        ty == TokenType::Slash || ty == TokenType::Star
    } else if k == 1 {
        ty == TokenType::Minus || ty == TokenType::Plus
    } else if k == 2 {
        ty == TokenType::Greater || ty == TokenType::GreaterEqual || ty == TokenType::Less || ty
            == TokenType::LessEqual
    } else if k == 3 {
        ty == TokenType::BangEqual || ty == TokenType::EqualEqual
    } else if k == 4 {
        ty == TokenType::And
    } else {
        ty == TokenType::Or
    }
}

/// The node that joins two operands at level `k`.
pub open spec fn combine(k: nat, left: ExprModel, op: Token, right: ExprModel) -> ExprModel {
    if k >= 4 {
        ExprModel::Logical { left: Box::new(left), operator: op, right: Box::new(right) }
    } else {
        ExprModel::Binary { left: Box::new(left), operator: op, right: Box::new(right) }
    }
}

/// expression -> assignment
pub open spec fn rule_expression(t: Seq<Token>, s: PState) -> (Result<ExprModel, PErr>, PState)
    decreases t.len() - s.pos, 22nat,
{
    if !(0 <= s.pos < t.len()) {
        bail(s)
    } else {
        rule_assignment(t, s)
    }
}

/// assignment -> IDENTIFIER "=" assignment | logic_or
pub open spec fn rule_assignment(t: Seq<Token>, s: PState) -> (Result<ExprModel, PErr>, PState)
    decreases t.len() - s.pos, 21nat,
{
    if !(0 <= s.pos < t.len()) {
        bail(s)
    } else {
        let (r, s1) = rule_binary(t, 5, s);
        match r {
            Err(e) => (Err(e), s1),
            Ok(e) => {
                if !onward(t, s, s1) {
                    bail(s1)
                } else if check(t, s1.pos, TokenType::Equal) {
                    let equals = t[s1.pos];
                    let (rv, s2) = rule_assignment(t, step(s1));
                    match rv {
                        Err(err) => (Err(err), s2),
                        Ok(v) => match e {
                            ExprModel::Variable { name } => (
                                Ok(ExprModel::Assign { name, value: Box::new(v) }),
                                s2,
                            ),
                            _ => fail(equals, "Invalid assignment target."@, s2),
                        },
                    }
                } else {
                    (Ok(e), s1)
                }
            },
        }
    }
}

/// Level `k` of the binary operators: an operand of level `k - 1` (of
/// `unary` at level 0), then any number of `op operand` pairs, grouped to
/// the left.
pub open spec fn rule_binary(t: Seq<Token>, k: nat, s: PState) -> (Result<ExprModel, PErr>, PState)
    decreases t.len() - s.pos, 9 + 2 * k,
{
    if !(0 <= s.pos < t.len()) || k > 5 {
        bail(s)
    } else {
        let (r, s1) = if k == 0 {
            rule_unary(t, s)
        } else {
            rule_binary(t, (k - 1) as nat, s)
        };
        match r {
            Err(e) => (Err(e), s1),
            Ok(left) => if !onward(t, s, s1) {
                bail(s1)
            } else {
                rule_binary_tail(t, k, left, s1)
            },
        }
    }
}

/// The `op operand` pairs that follow `left` at level `k`.
pub open spec fn rule_binary_tail(t: Seq<Token>, k: nat, left: ExprModel, s: PState) -> (
    Result<ExprModel, PErr>,
    PState,
)
    decreases t.len() - s.pos, 8 + 2 * k,
{
    if !(0 <= s.pos < t.len()) || k > 5 {
        bail(s)
    } else if !at_end(t, s.pos) && level_has(k, t[s.pos].token_type) {
        let op = t[s.pos];
        if s.pos + 1 >= t.len() {
            bail(s)
        } else {
            let (r, s2) = if k == 0 {
                rule_unary(t, step(s))
            } else {
                rule_binary(t, (k - 1) as nat, step(s))
            };
            match r {
                Err(e) => (Err(e), s2),
                Ok(right) => if !(s.pos < s2.pos < t.len()) {
                    bail(s2)
                } else {
                    rule_binary_tail(t, k, combine(k, left, op, right), s2)
                },
            }
        }
    } else {
        (Ok(left), s)
    }
}

/// unary -> ( "!" | "-" ) unary | call
pub open spec fn rule_unary(t: Seq<Token>, s: PState) -> (Result<ExprModel, PErr>, PState)
    decreases t.len() - s.pos, 6nat,
{
    if !(0 <= s.pos < t.len()) {
        bail(s)
    } else if check(t, s.pos, TokenType::Bang) || check(t, s.pos, TokenType::Minus) {
        let op = t[s.pos];
        if s.pos + 1 >= t.len() {
            bail(s)
        } else {
            let (r, s2) = rule_unary(t, step(s));
            match r {
                Err(e) => (Err(e), s2),
                Ok(right) => (Ok(ExprModel::Unary { operator: op, right: Box::new(right) }), s2),
            }
        }
    } else {
        rule_call(t, s)
    }
}

/// call -> primary ( "(" arguments? ")" )*
pub open spec fn rule_call(t: Seq<Token>, s: PState) -> (Result<ExprModel, PErr>, PState)
    decreases t.len() - s.pos, 5nat,
{
    if !(0 <= s.pos < t.len()) {
        bail(s)
    } else {
        let (r, s1) = rule_primary(t, s);
        match r {
            Err(e) => (Err(e), s1),
            Ok(e) => if !onward(t, s, s1) {
                bail(s1)
            } else {
                rule_call_tail(t, e, s1)
            },
        }
    }
}

/// The argument lists that follow a callee.
pub open spec fn rule_call_tail(t: Seq<Token>, callee: ExprModel, s: PState) -> (
    Result<ExprModel, PErr>,
    PState,
)
    decreases t.len() - s.pos, 4nat,
{
    if !(0 <= s.pos < t.len()) {
        bail(s)
    } else if check(t, s.pos, TokenType::LeftParen) {
        if s.pos + 1 >= t.len() {
            bail(s)
        } else {
            let (r, s2) = rule_arguments(t, callee, step(s));
            match r {
                Err(e) => (Err(e), s2),
                Ok(c) => if !(s.pos < s2.pos < t.len()) {
                    bail(s2)
                } else {
                    rule_call_tail(t, c, s2)
                },
            }
        }
    } else {
        (Ok(callee), s)
    }
}

/// The closing parenthesis of a call, and the call it completes.
pub open spec fn rule_finish_call(
    t: Seq<Token>,
    callee: ExprModel,
    args: Seq<ExprModel>,
    s: PState,
) -> (Result<ExprModel, PErr>, PState) {
    let (r, s1) = rule_consume(t, s, TokenType::RightParen, "Expect ')' after arguments."@);
    match r {
        Err(e) => (Err(e), s1),
        Ok(rparen) => (Ok(ExprModel::Call { callee: Box::new(callee), rparen, args }), s1),
    }
}

/// arguments -> expression ( "," expression )* , then ")"
pub open spec fn rule_arguments(t: Seq<Token>, callee: ExprModel, s: PState) -> (
    Result<ExprModel, PErr>,
    PState,
)
    decreases t.len() - s.pos, 24nat,
{
    if !(0 <= s.pos < t.len()) {
        bail(s)
    } else if check(t, s.pos, TokenType::RightParen) {
        rule_finish_call(t, callee, Seq::empty(), s)
    } else {
        let (r, s1) = rule_argument_list(t, Seq::empty(), s);
        match r {
            Err(e) => (Err(e), s1),
            Ok(args) => if !onward(t, s, s1) {
                bail(s1)
            } else {
                rule_finish_call(t, callee, args, s1)
            },
        }
    }
}

/// The arguments after those in `args`: at most 255 in all.
pub open spec fn rule_argument_list(t: Seq<Token>, args: Seq<ExprModel>, s: PState) -> (
    Result<Seq<ExprModel>, PErr>,
    PState,
)
    decreases t.len() - s.pos, 23nat,
{
    if !(0 <= s.pos < t.len()) {
        bail(s)
    } else {
        let (r, s1) = rule_expression(t, s);
        match r {
            Err(e) => (Err(e), s1),
            Ok(a) => {
                let more = args.push(a);
                if !onward(t, s, s1) {
                    bail(s1)
                } else if check(t, s1.pos, TokenType::Comma) {
                    let s2 = step(s1);
                    if s2.pos >= t.len() {
                        bail(s2)
                    } else if more.len() >= 255 {
                        fail_here(t, "Can't have more than 255 arguments."@, s2)
                    } else {
                        rule_argument_list(t, more, s2)
                    }
                } else {
                    (Ok(more), s1)
                }
            },
        }
    }
}

/// primary -> NUMBER | STRING | "true" | "false" | "nil" | "(" expression ")" | IDENTIFIER
pub open spec fn rule_primary(t: Seq<Token>, s: PState) -> (Result<ExprModel, PErr>, PState)
    decreases t.len() - s.pos, 2nat,
{
    if !(0 <= s.pos < t.len()) {
        bail(s)
    } else if check(t, s.pos, TokenType::False) {
        (Ok(ExprModel::Literal { value: Literal::Bool(false) }), step(s))
    } else if check(t, s.pos, TokenType::True) {
        (Ok(ExprModel::Literal { value: Literal::Bool(true) }), step(s))
    } else if check(t, s.pos, TokenType::Nil) {
        (Ok(ExprModel::Literal { value: Literal::Nil }), step(s))
    } else if check(t, s.pos, TokenType::Number) || check(t, s.pos, TokenType::String) {
        (Ok(ExprModel::Literal { value: t[s.pos].literal->0 }), step(s))
    } else if check(t, s.pos, TokenType::LeftParen) {
        if s.pos + 1 >= t.len() {
            bail(s)
        } else {
            let (r, s2) = rule_expression(t, step(s));
            match r {
                Err(e) => (Err(e), s2),
                Ok(e) => if !(0 <= s2.pos < t.len()) {
                    bail(s2)
                } else {
                    let (rc, s3) = rule_consume(
                        t,
                        s2,
                        TokenType::RightParen,
                        "Expect ')' after expression."@,
                    );
                    match rc {
                        Err(err) => (Err(err), s3),
                        Ok(_) => (Ok(ExprModel::Grouping { expression: Box::new(e) }), s3),
                    }
                },
            }
        }
    } else if check(t, s.pos, TokenType::Identifier) {
        (Ok(ExprModel::Variable { name: t[s.pos] }), step(s))
    } else {
        fail_here(t, "Expect expression."@, s)
    }
}

/// declaration -> varDecl | funDecl | statement
pub open spec fn rule_declaration(t: Seq<Token>, s: PState) -> (Result<StmtModel, PErr>, PState)
    decreases t.len() - s.pos, 37nat,
{
    if !(0 <= s.pos < t.len()) {
        bail(s)
    } else if check(t, s.pos, TokenType::Var) {
        if s.pos + 1 >= t.len() {
            bail(s)
        } else {
            rule_var_declaration(t, step(s))
        }
    } else if check(t, s.pos, TokenType::Fun) {
        if s.pos + 1 >= t.len() {
            bail(s)
        } else {
            rule_function(t, step(s))
        }
    } else {
        rule_statement(t, s)
    }
}

/// varDecl -> "var" IDENTIFIER ( "=" expression )? ";"
pub open spec fn rule_var_declaration(t: Seq<Token>, s: PState) -> (Result<StmtModel, PErr>, PState)
    decreases t.len() - s.pos, 28nat,
{
    if !(0 <= s.pos < t.len()) {
        bail(s)
    } else {
        let (rn, s1) = rule_consume(t, s, TokenType::Identifier, "Expect variable name."@);
        match rn {
            Err(e) => (Err(e), s1),
            Ok(name) => if !(s1.pos < t.len()) {
                bail(s1)
            } else {
                let (ri, s2) = if check(t, s1.pos, TokenType::Equal) {
                    if s1.pos + 1 >= t.len() {
                        bail(s1)
                    } else {
                        rule_expression(t, step(s1))
                    }
                } else {
                    (Ok(ExprModel::Literal { value: Literal::Nil }), s1)
                };
                match ri {
                    Err(e) => (Err(e), s2),
                    Ok(init) => if !(0 <= s2.pos < t.len()) {
                        bail(s2)
                    } else {
                        let (rs, s3) = rule_consume(
                            t,
                            s2,
                            TokenType::Semicolon,
                            "Expect ';' after variable declaration."@,
                        );
                        match rs {
                            Err(e) => (Err(e), s3),
                            Ok(_) => (Ok(StmtModel::Var { name, initializer: init }), s3),
                        }
                    },
                }
            },
        }
    }
}

/// The parameters after those in `params`: at most 255 in all.
pub open spec fn rule_parameters(t: Seq<Token>, params: Seq<Token>, s: PState) -> (
    Result<Seq<Token>, PErr>,
    PState,
)
    decreases t.len() - s.pos, 29nat,
{
    if !(0 <= s.pos < t.len()) {
        bail(s)
    } else if params.len() >= 255 {
        fail_here(t, "Can't have more than 255 parameters."@, s)
    } else {
        let (rp, s1) = rule_consume(t, s, TokenType::Identifier, "Expect parameter name."@);
        match rp {
            Err(e) => (Err(e), s1),
            Ok(p) => {
                let more = params.push(p);
                if !(s1.pos < t.len()) {
                    bail(s1)
                } else if check(t, s1.pos, TokenType::Comma) {
                    if s1.pos + 1 >= t.len() {
                        bail(s1)
                    } else {
                        rule_parameters(t, more, step(s1))
                    }
                } else {
                    (Ok(more), s1)
                }
            },
        }
    }
}

/// function -> IDENTIFIER "(" parameters? ")" block
pub open spec fn rule_function(t: Seq<Token>, s: PState) -> (Result<StmtModel, PErr>, PState)
    decreases t.len() - s.pos, 30nat,
{
    if !(0 <= s.pos < t.len()) {
        bail(s)
    } else {
        let (rn, s1) = rule_consume(t, s, TokenType::Identifier, "Expect function name."@);
        match rn {
            Err(e) => (Err(e), s1),
            Ok(name) => if !(s1.pos < t.len()) {
                bail(s1)
            } else {
                let (rl, s2) = rule_consume(
                    t,
                    s1,
                    TokenType::LeftParen,
                    "Expect '(' after function name."@,
                );
                match rl {
                    Err(e) => (Err(e), s2),
                    Ok(_) => if !(s2.pos < t.len()) {
                        bail(s2)
                    } else {
                        let (rp, s3) = if !check(t, s2.pos, TokenType::RightParen) {
                            rule_parameters(t, Seq::empty(), s2)
                        } else {
                            (Ok(Seq::empty()), s2)
                        };
                        match rp {
                            Err(e) => (Err(e), s3),
                            Ok(params) => if !onward(t, s2, s3) {
                                bail(s3)
                            } else {
                                rule_function_body(t, name, params, s3)
                            },
                        }
                    },
                }
            },
        }
    }
}

/// The rest of a function declaration, from the `)` after its parameters.
pub open spec fn rule_function_body(t: Seq<Token>, name: Token, params: Seq<Token>, s: PState) -> (
    Result<StmtModel, PErr>,
    PState,
)
    decreases t.len() - s.pos, 31nat,
{
    if !(0 <= s.pos < t.len()) {
        bail(s)
    } else {
        let (rr, s4) = rule_consume(t, s, TokenType::RightParen, "Expect ')' after parameters."@);
        match rr {
            Err(e) => (Err(e), s4),
            Ok(_) => if !(s4.pos < t.len()) {
                bail(s4)
            } else {
                let (rb, s5) = rule_consume(
                    t,
                    s4,
                    TokenType::LeftBrace,
                    "Expect '{' before function body."@,
                );
                match rb {
                    Err(e) => (Err(e), s5),
                    Ok(_) => if !(s5.pos < t.len()) {
                        bail(s5)
                    } else {
                        let (rbody, s7) = rule_block(t, PState { funcs: s5.funcs + 1, ..s5 });
                        match rbody {
                            Err(e) => (Err(e), s7),
                            Ok(body) => (
                                Ok(StmtModel::Function { name, params, body }),
                                PState { funcs: s7.funcs - 1, ..s7 },
                            ),
                        }
                    },
                }
            },
        }
    }
}

/// statement -> exprStmt | ifStmt | whileStmt | forStmt | returnStmt
///            | continueStmt | breakStmt | printStmt | block
pub open spec fn rule_statement(t: Seq<Token>, s: PState) -> (Result<StmtModel, PErr>, PState)
    decreases t.len() - s.pos, 34nat,
{
    if !(0 <= s.pos < t.len()) {
        bail(s)
    } else if !at_end(t, s.pos) && s.pos + 1 >= t.len() {
        bail(s)
    } else if check(t, s.pos, TokenType::If) {
        rule_if(t, step(s))
    } else if check(t, s.pos, TokenType::While) {
        rule_while(t, step(s))
    } else if check(t, s.pos, TokenType::For) {
        rule_for(t, step(s))
    } else if check(t, s.pos, TokenType::Return) {
        rule_return(t, step(s))
    } else if check(t, s.pos, TokenType::Continue) {
        rule_continue(t, step(s))
    } else if check(t, s.pos, TokenType::Break) {
        rule_break(t, step(s))
    } else if check(t, s.pos, TokenType::Print) {
        rule_print(t, step(s))
    } else if check(t, s.pos, TokenType::LeftBrace) {
        let (r, s1) = rule_block(t, step(s));
        match r {
            Err(e) => (Err(e), s1),
            Ok(stmts) => (Ok(StmtModel::Block { statements: stmts }), s1),
        }
    } else {
        rule_expression_statement(t, s)
    }
}

/// An expression followed by `;`, with `message` if the `;` is missing.
pub open spec fn rule_expression_then_semicolon(t: Seq<Token>, s: PState, message: Seq<char>) -> (
    Result<ExprModel, PErr>,
    PState,
)
    decreases t.len() - s.pos, 23nat,
{
    if !(0 <= s.pos < t.len()) {
        bail(s)
    } else {
        let (r, s1) = rule_expression(t, s);
        match r {
            Err(e) => (Err(e), s1),
            Ok(e) => if !(0 <= s1.pos < t.len()) {
                bail(s1)
            } else {
                let (rs, s2) = rule_consume(t, s1, TokenType::Semicolon, message);
                match rs {
                    Err(err) => (Err(err), s2),
                    Ok(_) => (Ok(e), s2),
                }
            },
        }
    }
}

/// exprStmt -> expression ";"
pub open spec fn rule_expression_statement(t: Seq<Token>, s: PState) -> (
    Result<StmtModel, PErr>,
    PState,
)
    decreases t.len() - s.pos, 24nat,
{
    let (r, s1) = rule_expression_then_semicolon(t, s, "Expect ';' after expression."@);
    match r {
        Err(e) => (Err(e), s1),
        Ok(e) => (Ok(StmtModel::Expression { expression: e }), s1),
    }
}

/// printStmt -> "print" expression ";"
pub open spec fn rule_print(t: Seq<Token>, s: PState) -> (Result<StmtModel, PErr>, PState)
    decreases t.len() - s.pos, 24nat,
{
    let (r, s1) = rule_expression_then_semicolon(t, s, "Expect ';' after value."@);
    match r {
        Err(e) => (Err(e), s1),
        Ok(e) => (Ok(StmtModel::Print { expression: e }), s1),
    }
}

/// returnStmt -> "return" expression? ";" , only inside a function.
pub open spec fn rule_return(t: Seq<Token>, s: PState) -> (Result<StmtModel, PErr>, PState)
    decreases t.len() - s.pos, 25nat,
{
    if !(1 <= s.pos < t.len()) {
        bail(s)
    } else {
        let keyword = t[s.pos - 1];
        if s.funcs == 0 {
            fail(keyword, "Can't return from top-level code."@, s)
        } else {
            let (r, s1) = if !check(t, s.pos, TokenType::Semicolon) {
                rule_expression(t, s)
            } else {
                (Ok(ExprModel::Literal { value: Literal::Nil }), s)
            };
            match r {
                Err(e) => (Err(e), s1),
                Ok(v) => if !(0 <= s1.pos < t.len()) {
                    bail(s1)
                } else {
                    let (rs, s2) = rule_consume(
                        t,
                        s1,
                        TokenType::Semicolon,
                        "Expect ';' after return value."@,
                    );
                    match rs {
                        Err(e) => (Err(e), s2),
                        Ok(_) => (Ok(StmtModel::Return { keyword, value: v }), s2),
                    }
                },
            }
        }
    }
}

/// continueStmt -> "continue" ";" , only inside a loop.
pub open spec fn rule_continue(t: Seq<Token>, s: PState) -> (Result<StmtModel, PErr>, PState) {
    if !(1 <= s.pos < t.len()) {
        bail(s)
    } else {
        let keyword = t[s.pos - 1];
        if s.loops == 0 {
            fail(keyword, "Can't use 'continue' outside of a loop."@, s)
        } else {
            let (rs, s1) = rule_consume(t, s, TokenType::Semicolon, "Expect ';' after 'continue'."@);
            match rs {
                Err(e) => (Err(e), s1),
                Ok(_) => (Ok(StmtModel::Continue { keyword }), s1),
            }
        }
    }
}

/// breakStmt -> "break" ";" , only inside a loop.
pub open spec fn rule_break(t: Seq<Token>, s: PState) -> (Result<StmtModel, PErr>, PState) {
    if !(1 <= s.pos < t.len()) {
        bail(s)
    } else {
        let keyword = t[s.pos - 1];
        if s.loops == 0 {
            fail(keyword, "Can't use 'break' outside of a loop."@, s)
        } else {
            let (rs, s1) = rule_consume(t, s, TokenType::Semicolon, "Expect ';' after 'break'."@);
            match rs {
                Err(e) => (Err(e), s1),
                Ok(_) => (Ok(StmtModel::Break { keyword }), s1),
            }
        }
    }
}

/// block -> "{" declaration* "}" , from after the `{`.
pub open spec fn rule_block(t: Seq<Token>, s: PState) -> (Result<Seq<StmtModel>, PErr>, PState)
    decreases t.len() - s.pos, 39nat,
{
    if !(0 <= s.pos < t.len()) {
        bail(s)
    } else {
        let (r, s1) = rule_block_body(t, Seq::empty(), s);
        match r {
            Err(e) => (Err(e), s1),
            Ok(stmts) => if !(0 <= s1.pos < t.len()) {
                bail(s1)
            } else {
                let (rc, s2) = rule_consume(
                    t,
                    s1,
                    TokenType::RightBrace,
                    "Expect '}' after block."@,
                );
                match rc {
                    Err(e) => (Err(e), s2),
                    Ok(_) => (Ok(stmts), s2),
                }
            },
        }
    }
}

/// The declarations of a block after those in `stmts`, up to its `}`.
pub open spec fn rule_block_body(t: Seq<Token>, stmts: Seq<StmtModel>, s: PState) -> (
    Result<Seq<StmtModel>, PErr>,
    PState,
)
    decreases t.len() - s.pos, 38nat,
{
    if !(0 <= s.pos < t.len()) {
        bail(s)
    } else if !check(t, s.pos, TokenType::RightBrace) && !at_end(t, s.pos) {
        let (r, s1) = rule_declaration(t, s);
        match r {
            Err(e) => (Err(e), s1),
            Ok(st) => if !(s.pos < s1.pos < t.len()) {
                bail(s1)
            } else {
                rule_block_body(t, stmts.push(st), s1)
            },
        }
    } else {
        (Ok(stmts), s)
    }
}

/// The state past an optional token of kind `ty`.
pub open spec fn skip_optional(t: Seq<Token>, s: PState, ty: TokenType) -> PState {
    if check(t, s.pos, ty) {
        step(s)
    } else {
        s
    }
}

/// ifStmt -> "if" "("? expression ")"? statement ( "else" statement )?
pub open spec fn rule_if(t: Seq<Token>, s: PState) -> (Result<StmtModel, PErr>, PState)
    decreases t.len() - s.pos, 40nat,
{
    if !(0 <= s.pos < t.len()) {
        bail(s)
    } else {
        let s1 = skip_optional(t, s, TokenType::LeftParen);
        let (rc, s2) = rule_expression(t, s1);
        match rc {
            Err(e) => (Err(e), s2),
            Ok(cond) => if !onward(t, s, s2) || !onward(t, s, skip_optional(t, s2, TokenType::RightParen)) {
                bail(s2)
            } else {
                let s3 = skip_optional(t, s2, TokenType::RightParen);
                let (rt, s4) = rule_statement(t, s3);
                match rt {
                    Err(e) => (Err(e), s4),
                    Ok(then_branch) => if !onward(t, s, s4) || (check(t, s4.pos, TokenType::Else)
                        && s4.pos + 1 >= t.len()) {
                        bail(s4)
                    } else if check(t, s4.pos, TokenType::Else) {
                        let (re, s5) = rule_statement(t, step(s4));
                        match re {
                            Err(e) => (Err(e), s5),
                            Ok(else_branch) => (
                                Ok(
                                    StmtModel::If {
                                        condition: cond,
                                        then_branch: Box::new(then_branch),
                                        else_branch: Some(Box::new(else_branch)),
                                    },
                                ),
                                s5,
                            ),
                        }
                    } else {
                        (
                            Ok(
                                StmtModel::If {
                                    condition: cond,
                                    then_branch: Box::new(then_branch),
                                    else_branch: None,
                                },
                            ),
                            s4,
                        )
                    },
                }
            },
        }
    }
}

/// whileStmt -> "while" "("? expression ")"? statement
pub open spec fn rule_while(t: Seq<Token>, s: PState) -> (Result<StmtModel, PErr>, PState)
    decreases t.len() - s.pos, 41nat,
{
    if !(0 <= s.pos < t.len()) {
        bail(s)
    } else {
        let s1 = skip_optional(t, s, TokenType::LeftParen);
        let (rc, s2) = rule_expression(t, s1);
        match rc {
            Err(e) => (Err(e), s2),
            Ok(cond) => if !onward(t, s, s2) || !onward(t, s, skip_optional(t, s2, TokenType::RightParen)) {
                bail(s2)
            } else {
                let s3 = skip_optional(t, s2, TokenType::RightParen);
                let (rb, s4) = rule_statement(t, PState { loops: s3.loops + 1, ..s3 });
                match rb {
                    Err(e) => (Err(e), s4),
                    Ok(body) => (
                        Ok(StmtModel::While { condition: cond, body: Box::new(body) }),
                        PState { loops: s4.loops - 1, ..s4 },
                    ),
                }
            },
        }
    }
}

/// forStmt -> "for" "(" ( varDecl | exprStmt | ";" ) expression? ";"
///            expression? ")" statement
pub open spec fn rule_for(t: Seq<Token>, s: PState) -> (Result<StmtModel, PErr>, PState)
    decreases t.len() - s.pos, 42nat,
{
    if !(0 <= s.pos < t.len()) {
        bail(s)
    } else {
        let (rl, s1) = rule_consume(t, s, TokenType::LeftParen, "Expect '(' after 'for'."@);
        match rl {
            Err(e) => (Err(e), s1),
            Ok(_) => if !(s1.pos < t.len()) || ((check(t, s1.pos, TokenType::Semicolon) || check(
                t,
                s1.pos,
                TokenType::Var,
            )) && s1.pos + 1 >= t.len()) {
                bail(s1)
            } else {
                let (ri, s2): (Result<Option<StmtModel>, PErr>, PState) = if check(
                    t,
                    s1.pos,
                    TokenType::Semicolon,
                ) {
                    (Ok(None), step(s1))
                } else if check(t, s1.pos, TokenType::Var) {
                    let (r, x) = rule_var_declaration(t, step(s1));
                    match r {
                        Err(e) => (Err(e), x),
                        Ok(st) => (Ok(Some(st)), x),
                    }
                } else {
                    let (r, x) = rule_expression_statement(t, s1);
                    match r {
                        Err(e) => (Err(e), x),
                        Ok(st) => (Ok(Some(st)), x),
                    }
                };
                match ri {
                    Err(e) => (Err(e), s2),
                    Ok(init) => if !onward(t, s1, s2) {
                        bail(s2)
                    } else {
                        rule_for_clauses(t, init, s2)
                    },
                }
            },
        }
    }
}

/// The rest of a `for` statement, after its initializer.
pub open spec fn rule_for_clauses(t: Seq<Token>, init: Option<StmtModel>, s: PState) -> (
    Result<StmtModel, PErr>,
    PState,
)
    decreases t.len() - s.pos, 43nat,
{
    if !(0 <= s.pos < t.len()) {
        bail(s)
    } else {
        let (rc, s3) = if !check(t, s.pos, TokenType::Semicolon) {
            rule_expression(t, s)
        } else {
            (Ok(ExprModel::Literal { value: Literal::Bool(true) }), s)
        };
        match rc {
            Err(e) => (Err(e), s3),
            Ok(cond) => if !onward(t, s, s3) {
                bail(s3)
            } else {
                let (rs, s4) = rule_consume(
                    t,
                    s3,
                    TokenType::Semicolon,
                    "Expect ';' after loop condition."@,
                );
                match rs {
                    Err(e) => (Err(e), s4),
                    Ok(_) => if !(s.pos < s4.pos < t.len()) {
                        bail(s4)
                    } else {
                        let (rinc, s5): (Result<Option<ExprModel>, PErr>, PState) = if !check(
                            t,
                            s4.pos,
                            TokenType::RightParen,
                        ) {
                            let (r, x) = rule_expression(t, s4);
                            match r {
                                Err(e) => (Err(e), x),
                                Ok(e) => (Ok(Some(e)), x),
                            }
                        } else {
                            (Ok(None), s4)
                        };
                        match rinc {
                            Err(e) => (Err(e), s5),
                            Ok(inc) => if !onward(t, s4, s5) {
                                bail(s5)
                            } else {
                                let (rr, s6) = rule_consume(
                                    t,
                                    s5,
                                    TokenType::RightParen,
                                    "Expect ')' after for clauses."@,
                                );
                                match rr {
                                    Err(e) => (Err(e), s6),
                                    Ok(_) => if !(s6.pos < t.len()) {
                                        bail(s6)
                                    } else {
                                        let (rb, s8) = rule_statement(
                                            t,
                                            PState { loops: s6.loops + 1, ..s6 },
                                        );
                                        match rb {
                                            Err(e) => (Err(e), s8),
                                            Ok(body) => (
                                                Ok(
                                                    StmtModel::For {
                                                        initializer: match init {
                                                            Some(st) => Some(Box::new(st)),
                                                            None => None,
                                                        },
                                                        condition: cond,
                                                        increment: inc,
                                                        body: Box::new(body),
                                                    },
                                                ),
                                                PState { loops: s8.loops - 1, ..s8 },
                                            ),
                                        }
                                    },
                                }
                            },
                        }
                    },
                }
            },
        }
    }
}

/// Whether a token of kind `ty` starts a declaration or statement that
/// error recovery resumes at.
pub open spec fn starts_statement(ty: TokenType) -> bool {
    ty == TokenType::Class || ty == TokenType::Fun || ty == TokenType::Var || ty == TokenType::For
        || ty == TokenType::If || ty == TokenType::While || ty == TokenType::Print || ty
        == TokenType::Return
}

/// Error recovery from position `p`: stop after a `;`, before a token that
/// starts a statement, or at the end.
pub open spec fn resume_point(t: Seq<Token>, p: int) -> int
    decreases t.len() - p,
{
    if !(0 <= p < t.len()) || at_end(t, p) {
        p
    } else if p >= 1 && t[p - 1].token_type == TokenType::Semicolon {
        p
    } else if starts_statement(t[p].token_type) {
        p
    } else {
        resume_point(t, p + 1)
    }
}

/// The state error recovery leaves: one token on, then on to the resume
/// point, back at the top level (outside any loop or function body).
pub open spec fn rule_synchronize(t: Seq<Token>, s: PState) -> PState {
    let p = if at_end(t, s.pos) {
        s.pos
    } else {
        s.pos + 1
    };
    PState { pos: resume_point(t, p), loops: 0, funcs: 0 }
}

/// program -> declaration* EOF : the statements parsed and the errors
/// reported, recovering after each error.
pub open spec fn rule_program(t: Seq<Token>, s: PState) -> (Seq<StmtModel>, Seq<PErr>)
    decreases t.len() - s.pos,
{
    if !(0 <= s.pos < t.len()) || at_end(t, s.pos) {
        (Seq::empty(), Seq::empty())
    } else {
        let (r, s1) = rule_declaration(t, s);
        match r {
            Ok(st) => if s.pos < s1.pos < t.len() {
                let (ss, es) = rule_program(t, s1);
                (seq![st] + ss, es)
            } else {
                (seq![st], Seq::empty())
            },
            Err(e) => {
                let s2 = rule_synchronize(t, s1);
                if s.pos < s2.pos < t.len() {
                    let (ss, es) = rule_program(t, s2);
                    (ss, seq![e] + es)
                } else {
                    (Seq::empty(), seq![e])
                }
            },
        }
    }
}

// ---------------------------------------------------------------------
// How results compare with the grammar's.
// ---------------------------------------------------------------------

pub open spec fn error_matches(e: ParseError, pe: PErr) -> bool {
    e.token == pe.token && e.message@ == pe.message
}

pub open spec fn expr_matches(r: Result<Expr, ParseError>, m: Result<ExprModel, PErr>) -> bool {
    match (r, m) {
        (Ok(e), Ok(em)) => e@ == em,
        (Err(e), Err(pe)) => error_matches(e, pe),
        _ => false,
    }
}

pub open spec fn exprs_matches(r: Result<Vec<Expr>, ParseError>, m: Result<Seq<ExprModel>, PErr>) -> bool {
    match (r, m) {
        (Ok(v), Ok(vm)) => exprs_model(v@) == vm,
        (Err(e), Err(pe)) => error_matches(e, pe),
        _ => false,
    }
}

pub open spec fn stmt_matches(r: Result<Stmt, ParseError>, m: Result<StmtModel, PErr>) -> bool {
    match (r, m) {
        (Ok(st), Ok(sm)) => st@ == sm,
        (Err(e), Err(pe)) => error_matches(e, pe),
        _ => false,
    }
}

pub open spec fn stmts_matches(r: Result<Vec<Stmt>, ParseError>, m: Result<Seq<StmtModel>, PErr>) -> bool {
    match (r, m) {
        (Ok(v), Ok(vm)) => stmts_model(v@) == vm,
        (Err(e), Err(pe)) => error_matches(e, pe),
        _ => false,
    }
}

pub open spec fn token_matches(r: Result<Token, ParseError>, m: Result<Token, PErr>) -> bool {
    match (r, m) {
        (Ok(x), Ok(y)) => x == y,
        (Err(e), Err(pe)) => error_matches(e, pe),
        _ => false,
    }
}

pub open spec fn tokens_matches(r: Result<Vec<Token>, ParseError>, m: Result<Seq<Token>, PErr>) -> bool {
    match (r, m) {
        (Ok(v), Ok(vm)) => v@ == vm,
        (Err(e), Err(pe)) => error_matches(e, pe),
        _ => false,
    }
}

/// The grammar's view of a list of parse errors.
pub open spec fn perrs_model(es: Seq<ParseError>) -> Seq<PErr> {
    es.map_values(|e: ParseError| PErr { token: e.token, message: e.message@ })
}

/// One step of `rule_program`: a declaration, or an error and recovery.
proof fn lemma_program_step(t: Seq<Token>, s: PState)
    requires
        0 <= s.pos < t.len(),
        !at_end(t, s.pos),
    ensures
        ({
            let (r, s1) = rule_declaration(t, s);
            match r {
                Ok(st) => s.pos < s1.pos < t.len() ==> rule_program(t, s) == (
                    seq![st] + rule_program(t, s1).0,
                    rule_program(t, s1).1,
                ),
                Err(e) => {
                    let s2 = rule_synchronize(t, s1);
                    s.pos < s2.pos < t.len() ==> rule_program(t, s) == (
                        rule_program(t, s2).0,
                        seq![e] + rule_program(t, s2).1,
                    )
                },
            }
        }),
{
}

proof fn lemma_exprs_model_push(v: Seq<Expr>, e: Expr)
    ensures
        exprs_model(v.push(e)) == exprs_model(v).push(e@),
        exprs_model(v).len() == v.len(),
{
    assert(v.push(e).subrange(0, v.len() as int) =~= v);
    lemma_exprs_model_len(v);
}

proof fn lemma_exprs_model_len(v: Seq<Expr>)
    ensures
        exprs_model(v).len() == v.len(),
    decreases v.len(),
{
    if v.len() > 0 {
        lemma_exprs_model_len(v.subrange(0, v.len() - 1));
    }
}

proof fn lemma_stmts_model_push(v: Seq<Stmt>, st: Stmt)
    ensures
        stmts_model(v.push(st)) == stmts_model(v).push(st@),
{
    assert(v.push(st).subrange(0, v.len() as int) =~= v);
}

// ---------------------------------------------------------------------
// The parser.
// ---------------------------------------------------------------------

/// A recursive-descent parser over a token list.
pub struct Parser<'a> {
    tokens: &'a [Token],
    current: usize,
    loop_depth: usize,
    function_depth: usize,
}

impl<'a> Parser<'a> {
    /// The tokens being parsed.
    pub closed spec fn tokens_seq(&self) -> Seq<Token> {
        self.tokens@
    }

    /// Where the parser stands.
    pub closed spec fn state(&self) -> PState {
        PState {
            pos: self.current as int,
            loops: self.loop_depth as int,
            funcs: self.function_depth as int,
        }
    }

    closed spec fn wf(&self) -> bool {
        &&& parser_ready(self.tokens@)
        &&& self.current < self.tokens@.len()
        &&& self.loop_depth + self.function_depth <= self.current
    }

    /// The same tokens, well formed, not behind `before`.
    closed spec fn follows(&self, before: Parser<'a>) -> bool {
        &&& self.tokens == before.tokens
        &&& self.wf()
        &&& before.current <= self.current
    }

    pub fn new(tokens: &'a [Token]) -> (p: Parser<'a>)
        ensures
            p.tokens_seq() == tokens@,
            p.state() == start_state(),
    {
        Parser { tokens, current: 0, loop_depth: 0, function_depth: 0 }
    }

    /// program -> declaration* EOF. The statements when no declaration was
    /// in error; else every error, recovering after each.
    #[verifier::rlimit(100)]
    #[verifier::spinoff_prover]
    pub fn parse(self) -> (r: Result<Vec<Stmt>, Vec<ParseError>>)
        requires
            parser_ready(self.tokens_seq()),
            self.state() == start_state(),
        ensures
            ({
                let (ss, es) = rule_program(self.tokens_seq(), start_state());
                match r {
                    Ok(v) => es.len() == 0 && stmts_model(v@) == ss,
                    Err(errs) => es.len() > 0 && perrs_model(errs@) == es,
                }
            }),
            r matches Ok(v) ==> all_scoped(stmts_model(v@), false, false),
    {
        let ghost t = self.tokens@;
        proof {
            law_parsed_programs_are_scoped(t);
        }
        let mut p = self;
        let mut stmts: Vec<Stmt> = Vec::new();
        let mut errors: Vec<ParseError> = Vec::new();
        assert(stmts_model(stmts@) =~= Seq::<StmtModel>::empty());
        assert(perrs_model(errors@) =~= Seq::<PErr>::empty());
        while !p.is_at_end()
            invariant
                p.wf(),
                p.tokens@ == t,
                stmts_model(stmts@) + rule_program(t, p.state()).0 == rule_program(t, start_state()).0,
                perrs_model(errors@) + rule_program(t, p.state()).1 == rule_program(
                    t,
                    start_state(),
                ).1,
            decreases t.len() - p.current,
        {
            let ghost s = p.state();
            let ghost before_s = stmts_model(stmts@);
            let ghost before_e = perrs_model(errors@);
            proof {
                lemma_program_step(t, s);
            }
            match p.declaration() {
                Ok(st) => {
                    proof {
                        lemma_stmts_model_push(stmts@, st);
                    }
                    stmts.push(st);
                    assert(stmts_model(stmts@) + rule_program(t, p.state()).0 =~= before_s
                        + rule_program(t, s).0);
                },
                Err(e) => {
                    let ghost pe = PErr { token: e.token, message: e.message@ };
                    errors.push(e);
                    assert(perrs_model(errors@) =~= before_e.push(pe));
                    p.synchronize();
                    assert(perrs_model(errors@) + rule_program(t, p.state()).1 =~= before_e
                        + rule_program(t, s).1);
                },
            }
        }
        if errors.len() == 0 {
            Ok(stmts)
        } else {
            Err(errors)
        }
    }

    /// A single expression that must take every token.
    pub fn parse_as_expr(self) -> (r: Result<Expr, ParseError>)
        requires
            parser_ready(self.tokens_seq()),
            self.state() == start_state(),
        ensures
            ({
                let t = self.tokens_seq();
                let (m, s1) = rule_expression(t, start_state());
                match m {
                    Err(pe) => r matches Err(e) && error_matches(e, pe),
                    Ok(em) => if !at_end(t, s1.pos) {
                        r matches Err(e) && e.token == t[s1.pos] && e.message@
                            == "Expect end after expression."@
                    } else {
                        r matches Ok(e) && e@ == em
                    },
                }
            }),
    {
        let mut p = self;
        let expr = p.expression()?;
        if !p.is_at_end() {
            return Err(p.parse_error("Expect end after expression."));
        }
        Ok(expr)
    }

    fn peek(&self) -> (r: &Token)
        requires
            self.current < self.tokens@.len(),
        ensures
            *r == self.tokens@[self.current as int],
    {
        &self.tokens[self.current]
    }

    fn previous(&self) -> (r: &Token)
        requires
            1 <= self.current <= self.tokens@.len(),
        ensures
            *r == self.tokens@[self.current - 1],
    {
        &self.tokens[self.current - 1]
    }

    fn is_at_end(&self) -> (r: bool)
        requires
            self.current < self.tokens@.len(),
        ensures
            r == at_end(self.tokens@, self.current as int),
    {
        self.peek().token_type == TokenType::Eof
    }

    fn check_type(&self, ty: TokenType) -> (r: bool)
        requires
            self.current < self.tokens@.len(),
        ensures
            r == check(self.tokens@, self.current as int, ty),
    {
        !self.is_at_end() && self.peek().token_type == ty
    }

    /// Whether the current token is an operator of binary level `level`.
    fn check_level(&self, level: usize) -> (r: bool)
        requires
            self.current < self.tokens@.len(),
        ensures
            r == (!at_end(self.tokens@, self.current as int) && level_has(
                level as nat,
                self.tokens@[self.current as int].token_type,
            )),
    {
        if self.is_at_end() {
            return false;
        }
        let ty = self.peek().token_type;
        if level == 0 {
            ty == TokenType::Slash || ty == TokenType::Star
        } else if level == 1 {
            ty == TokenType::Minus || ty == TokenType::Plus
        } else if level == 2 {
            ty == TokenType::Greater || ty == TokenType::GreaterEqual || ty == TokenType::Less
                || ty == TokenType::LessEqual
        } else if level == 3 {
            ty == TokenType::BangEqual || ty == TokenType::EqualEqual
        } else if level == 4 {
            ty == TokenType::And
        } else {
            ty == TokenType::Or
        }
    }

    /// Moves to the next token, unless at the end.
    fn advance(&mut self)
        requires
            old(self).wf(),
        ensures
            final(self).wf(),
            final(self).tokens == old(self).tokens,
            final(self).state() == (if at_end(old(self).tokens@, old(self).current as int) {
                old(self).state()
            } else {
                step(old(self).state())
            }),
    {
        if !self.is_at_end() {
            if self.current >= self.tokens.len() - 1 {
                assert(self.tokens@[self.current as int] == self.tokens@.last());
            }
            self.current = self.current + 1;
        }
    }

    /// Takes a token of kind `ty`, or reports `message` at the current token.
    fn consume(&mut self, ty: TokenType, message: &str) -> (r: Result<Token, ParseError>)
        requires
            old(self).wf(),
        ensures
            final(self).follows(*old(self)),
            token_matches(r, rule_consume(old(self).tokens@, old(self).state(), ty, message@).0),
            final(self).state() == rule_consume(old(self).tokens@, old(self).state(), ty, message@).1,
    {
        if self.check_type(ty) {
            let token = self.peek().clone();
            self.advance();
            Ok(token)
        } else {
            Err(self.parse_error(message))
        }
    }

    /// Takes the current token when it is of kind `ty`.
    fn match_type(&mut self, ty: TokenType) -> (r: Option<Token>)
        requires
            old(self).wf(),
        ensures
            final(self).follows(*old(self)),
            check(old(self).tokens@, old(self).current as int, ty) ==> r == Some(
                old(self).tokens@[old(self).current as int],
            ) && final(self).state() == step(old(self).state()),
            !check(old(self).tokens@, old(self).current as int, ty) ==> r is None
                && final(self).state() == old(self).state(),
    {
        if self.check_type(ty) {
            let token = self.peek().clone();
            self.advance();
            Some(token)
        } else {
            None
        }
    }

    /// An error at the current token.
    fn parse_error(&self, message: &str) -> (e: ParseError)
        requires
            self.current < self.tokens@.len(),
        ensures
            e.token == self.tokens@[self.current as int],
            e.message@ == message@,
    {
        ParseError::new(self.peek(), message)
    }

    /// An error at `token`.
    fn parse_error_at(&self, token: &Token, message: &str) -> (e: ParseError)
        ensures
            e.token == *token,
            e.message@ == message@,
    {
        ParseError::new(token, message)
    }

    /// expression -> assignment
    fn expression(&mut self) -> (r: Result<Expr, ParseError>)
        requires
            old(self).wf(),
        ensures
            final(self).follows(*old(self)),
            final(self).loop_depth == old(self).loop_depth,
            final(self).function_depth == old(self).function_depth,
            r is Ok ==> old(self).current < final(self).current,
            expr_matches(r, rule_expression(old(self).tokens@, old(self).state()).0),
            final(self).state() == rule_expression(old(self).tokens@, old(self).state()).1,
        decreases old(self).tokens@.len() - old(self).current, 22nat,
    {
        self.assignment()
    }

    /// assignment -> IDENTIFIER "=" assignment | logic_or
    fn assignment(&mut self) -> (r: Result<Expr, ParseError>)
        requires
            old(self).wf(),
        ensures
            final(self).follows(*old(self)),
            final(self).loop_depth == old(self).loop_depth,
            final(self).function_depth == old(self).function_depth,
            r is Ok ==> old(self).current < final(self).current,
            expr_matches(r, rule_assignment(old(self).tokens@, old(self).state()).0),
            final(self).state() == rule_assignment(old(self).tokens@, old(self).state()).1,
        decreases old(self).tokens@.len() - old(self).current, 21nat,
    {
        let expr = self.binary(5)?;
        if self.check_type(TokenType::Equal) {
            let equals = self.peek().clone();
            self.advance();
            let value = self.assignment()?;
            match expr {
                Expr::Variable { name } => {
                    return Ok(Expr::Assign { name, value: Box::new(value) });
                },
                _ => {
                    return Err(self.parse_error_at(&equals, "Invalid assignment target."));
                },
            }
        }
        Ok(expr)
    }

    /// One binary precedence level: 0 factor, 1 term, 2 comparison,
    /// 3 equality, 4 logic_and, 5 logic_or.
    fn binary(&mut self, level: usize) -> (r: Result<Expr, ParseError>)
        requires
            old(self).wf(),
            level <= 5,
        ensures
            final(self).follows(*old(self)),
            final(self).loop_depth == old(self).loop_depth,
            final(self).function_depth == old(self).function_depth,
            r is Ok ==> old(self).current < final(self).current,
            expr_matches(r, rule_binary(old(self).tokens@, level as nat, old(self).state()).0),
            final(self).state() == rule_binary(old(self).tokens@, level as nat, old(self).state()).1,
        decreases old(self).tokens@.len() - old(self).current, 9 + 2 * level,
    {
        let ghost t = self.tokens@;
        let ghost s0 = self.state();
        let mut expr = if level == 0 {
            self.unary()?
        } else {
            self.binary(level - 1)?
        };
        while self.check_level(level)
            invariant
                self.wf(),
                self.tokens == old(self).tokens,
                t == self.tokens@,
                level <= 5,
                s0 == old(self).state(),
                s0.pos < self.current,
                self.loop_depth == old(self).loop_depth,
                self.function_depth == old(self).function_depth,
                rule_binary_tail(t, level as nat, expr@, self.state()) == rule_binary(
                    t,
                    level as nat,
                    s0,
                ),
            decreases t.len() - self.current,
        {
            let op = self.peek().clone();
            self.advance();
            let right = if level == 0 {
                self.unary()?
            } else {
                self.binary(level - 1)?
            };
            expr = if level >= 4 {
                Expr::Logical { left: Box::new(expr), operator: op, right: Box::new(right) }
            } else {
                Expr::Binary { left: Box::new(expr), operator: op, right: Box::new(right) }
            };
        }
        Ok(expr)
    }

    /// unary -> ( "!" | "-" ) unary | call
    fn unary(&mut self) -> (r: Result<Expr, ParseError>)
        requires
            old(self).wf(),
        ensures
            final(self).follows(*old(self)),
            final(self).loop_depth == old(self).loop_depth,
            final(self).function_depth == old(self).function_depth,
            r is Ok ==> old(self).current < final(self).current,
            expr_matches(r, rule_unary(old(self).tokens@, old(self).state()).0),
            final(self).state() == rule_unary(old(self).tokens@, old(self).state()).1,
        decreases old(self).tokens@.len() - old(self).current, 6nat,
    {
        if self.check_type(TokenType::Bang) || self.check_type(TokenType::Minus) {
            let op = self.peek().clone();
            self.advance();
            let right = self.unary()?;
            return Ok(Expr::Unary { operator: op, right: Box::new(right) });
        }
        self.call()
    }

    /// call -> primary ( "(" arguments? ")" )*
    fn call(&mut self) -> (r: Result<Expr, ParseError>)
        requires
            old(self).wf(),
        ensures
            final(self).follows(*old(self)),
            final(self).loop_depth == old(self).loop_depth,
            final(self).function_depth == old(self).function_depth,
            r is Ok ==> old(self).current < final(self).current,
            expr_matches(r, rule_call(old(self).tokens@, old(self).state()).0),
            final(self).state() == rule_call(old(self).tokens@, old(self).state()).1,
        decreases old(self).tokens@.len() - old(self).current, 5nat,
    {
        let ghost t = self.tokens@;
        let ghost s0 = self.state();
        let mut expr = self.primary()?;
        while self.check_type(TokenType::LeftParen)
            invariant
                self.wf(),
                self.tokens == old(self).tokens,
                t == self.tokens@,
                s0 == old(self).state(),
                s0.pos < self.current,
                self.loop_depth == old(self).loop_depth,
                self.function_depth == old(self).function_depth,
                rule_call_tail(t, expr@, self.state()) == rule_call(t, s0),
            decreases t.len() - self.current,
        {
            self.advance();
            expr = self.arguments(expr)?;
        }
        Ok(expr)
    }

    /// The arguments of a call of `callee` and its closing parenthesis.
    fn arguments(&mut self, callee: Expr) -> (r: Result<Expr, ParseError>)
        requires
            old(self).wf(),
        ensures
            final(self).follows(*old(self)),
            final(self).loop_depth == old(self).loop_depth,
            final(self).function_depth == old(self).function_depth,
            r is Ok ==> old(self).current < final(self).current,
            expr_matches(r, rule_arguments(old(self).tokens@, callee@, old(self).state()).0),
            final(self).state() == rule_arguments(old(self).tokens@, callee@, old(self).state()).1,
        decreases old(self).tokens@.len() - old(self).current, 24nat,
    {
        let args = if !self.check_type(TokenType::RightParen) {
            self.argument_list(Vec::new())?
        } else {
            Vec::new()
        };
        proof {
            assert(exprs_model(Seq::<Expr>::empty()) =~= Seq::<ExprModel>::empty());
        }
        let rparen = self.consume(TokenType::RightParen, "Expect ')' after arguments.")?;
        Ok(Expr::Call { callee: Box::new(callee), rparen, args })
    }

    /// The arguments after those in `args`.
    fn argument_list(&mut self, args: Vec<Expr>) -> (r: Result<Vec<Expr>, ParseError>)
        requires
            old(self).wf(),
        ensures
            final(self).follows(*old(self)),
            final(self).loop_depth == old(self).loop_depth,
            final(self).function_depth == old(self).function_depth,
            r is Ok ==> old(self).current < final(self).current,
            exprs_matches(
                r,
                rule_argument_list(old(self).tokens@, exprs_model(args@), old(self).state()).0,
            ),
            final(self).state() == rule_argument_list(
                old(self).tokens@,
                exprs_model(args@),
                old(self).state(),
            ).1,
        decreases old(self).tokens@.len() - old(self).current, 23nat,
    {
        let e = self.expression()?;
        let mut more = args;
        proof {
            lemma_exprs_model_push(more@, e);
        }
        more.push(e);
        if self.check_type(TokenType::Comma) {
            self.advance();
            if more.len() >= 255 {
                return Err(self.parse_error("Can't have more than 255 arguments."));
            }
            self.argument_list(more)
        } else {
            Ok(more)
        }
    }

    /// primary -> NUMBER | STRING | "true" | "false" | "nil" | "(" expression ")" | IDENTIFIER
    fn primary(&mut self) -> (r: Result<Expr, ParseError>)
        requires
            old(self).wf(),
        ensures
            final(self).follows(*old(self)),
            final(self).loop_depth == old(self).loop_depth,
            final(self).function_depth == old(self).function_depth,
            r is Ok ==> old(self).current < final(self).current,
            expr_matches(r, rule_primary(old(self).tokens@, old(self).state()).0),
            final(self).state() == rule_primary(old(self).tokens@, old(self).state()).1,
        decreases old(self).tokens@.len() - old(self).current, 2nat,
    {
        if self.check_type(TokenType::False) {
            self.advance();
            return Ok(Expr::Literal { value: Literal::Bool(false) });
        }
        if self.check_type(TokenType::True) {
            self.advance();
            return Ok(Expr::Literal { value: Literal::Bool(true) });
        }
        if self.check_type(TokenType::Nil) {
            self.advance();
            return Ok(Expr::Literal { value: Literal::Nil });
        }
        if self.check_type(TokenType::Number) || self.check_type(TokenType::String) {
            let value = match &self.peek().literal {
                Some(l) => l.clone(),
                None => {
                    assert(false);
                    Literal::Nil
                },
            };
            self.advance();
            return Ok(Expr::Literal { value });
        }
        if self.check_type(TokenType::LeftParen) {
            self.advance();
            let expr = self.expression()?;
            self.consume(TokenType::RightParen, "Expect ')' after expression.")?;
            return Ok(Expr::Grouping { expression: Box::new(expr) });
        }
        if self.check_type(TokenType::Identifier) {
            let name = self.peek().clone();
            self.advance();
            return Ok(Expr::Variable { name });
        }
        Err(self.parse_error("Expect expression."))
    }

    /// declaration -> varDecl | funDecl | statement
    fn declaration(&mut self) -> (r: Result<Stmt, ParseError>)
        requires
            old(self).wf(),
        ensures
            final(self).follows(*old(self)),
            r is Ok ==> final(self).loop_depth == old(self).loop_depth
                && final(self).function_depth == old(self).function_depth,
            r is Ok ==> old(self).current < final(self).current,
            stmt_matches(r, rule_declaration(old(self).tokens@, old(self).state()).0),
            final(self).state() == rule_declaration(old(self).tokens@, old(self).state()).1,
        decreases old(self).tokens@.len() - old(self).current, 37nat,
    {
        if self.match_type(TokenType::Var).is_some() {
            self.var_declaration()
        } else if self.match_type(TokenType::Fun).is_some() {
            self.function()
        } else {
            self.statement()
        }
    }

    /// varDecl -> "var" IDENTIFIER ( "=" expression )? ";" , from after `var`.
    fn var_declaration(&mut self) -> (r: Result<Stmt, ParseError>)
        requires
            old(self).wf(),
        ensures
            final(self).follows(*old(self)),
            r is Ok ==> final(self).loop_depth == old(self).loop_depth
                && final(self).function_depth == old(self).function_depth,
            r is Ok ==> old(self).current < final(self).current,
            stmt_matches(r, rule_var_declaration(old(self).tokens@, old(self).state()).0),
            final(self).state() == rule_var_declaration(old(self).tokens@, old(self).state()).1,
        decreases old(self).tokens@.len() - old(self).current, 28nat,
    {
        let name = self.consume(TokenType::Identifier, "Expect variable name.")?;
        let initializer = if self.match_type(TokenType::Equal).is_some() {
            self.expression()?
        } else {
            Expr::Literal { value: Literal::Nil }
        };
        self.consume(TokenType::Semicolon, "Expect ';' after variable declaration.")?;
        Ok(Stmt::Var { name, initializer })
    }

    /// funDecl -> "fun" IDENTIFIER "(" parameters? ")" block , from after `fun`.
    fn function(&mut self) -> (r: Result<Stmt, ParseError>)
        requires
            old(self).wf(),
            old(self).loop_depth + old(self).function_depth < old(self).current,
        ensures
            final(self).follows(*old(self)),
            r is Ok ==> final(self).loop_depth == old(self).loop_depth
                && final(self).function_depth == old(self).function_depth,
            r is Ok ==> old(self).current < final(self).current,
            stmt_matches(r, rule_function(old(self).tokens@, old(self).state()).0),
            final(self).state() == rule_function(old(self).tokens@, old(self).state()).1,
        decreases old(self).tokens@.len() - old(self).current, 30nat,
    {
        let name = self.consume(TokenType::Identifier, "Expect function name.")?;
        self.consume(TokenType::LeftParen, "Expect '(' after function name.")?;
        let params = if !self.check_type(TokenType::RightParen) {
            self.parameters(Vec::new())?
        } else {
            Vec::new()
        };
        self.function_body(name, params)
    }

    /// The parameters after those in `params`.
    fn parameters(&mut self, params: Vec<Token>) -> (r: Result<Vec<Token>, ParseError>)
        requires
            old(self).wf(),
        ensures
            final(self).follows(*old(self)),
            final(self).loop_depth == old(self).loop_depth,
            final(self).function_depth == old(self).function_depth,
            r is Ok ==> old(self).current < final(self).current,
            tokens_matches(r, rule_parameters(old(self).tokens@, params@, old(self).state()).0),
            final(self).state() == rule_parameters(old(self).tokens@, params@, old(self).state()).1,
        decreases old(self).tokens@.len() - old(self).current, 29nat,
    {
        if params.len() >= 255 {
            return Err(self.parse_error("Can't have more than 255 parameters."));
        }
        let p = self.consume(TokenType::Identifier, "Expect parameter name.")?;
        let mut more = params;
        more.push(p);
        if self.match_type(TokenType::Comma).is_some() {
            self.parameters(more)
        } else {
            Ok(more)
        }
    }

    /// The rest of a function declaration, from the `)` after its parameters.
    fn function_body(&mut self, name: Token, params: Vec<Token>) -> (r: Result<Stmt, ParseError>)
        requires
            old(self).wf(),
            old(self).loop_depth + old(self).function_depth < old(self).current,
        ensures
            final(self).follows(*old(self)),
            r is Ok ==> final(self).loop_depth == old(self).loop_depth
                && final(self).function_depth == old(self).function_depth,
            r is Ok ==> old(self).current < final(self).current,
            stmt_matches(
                r,
                rule_function_body(old(self).tokens@, name, params@, old(self).state()).0,
            ),
            final(self).state() == rule_function_body(
                old(self).tokens@,
                name,
                params@,
                old(self).state(),
            ).1,
        decreases old(self).tokens@.len() - old(self).current, 31nat,
    {
        self.consume(TokenType::RightParen, "Expect ')' after parameters.")?;
        self.consume(TokenType::LeftBrace, "Expect '{' before function body.")?;
        self.function_depth = self.function_depth + 1;
        let body = self.block_statements()?;
        self.function_depth = self.function_depth - 1;
        Ok(Stmt::Function { name, params, body })
    }

    /// statement -> exprStmt | ifStmt | whileStmt | forStmt | returnStmt
    ///            | continueStmt | breakStmt | printStmt | block
    fn statement(&mut self) -> (r: Result<Stmt, ParseError>)
        requires
            old(self).wf(),
        ensures
            final(self).follows(*old(self)),
            r is Ok ==> final(self).loop_depth == old(self).loop_depth
                && final(self).function_depth == old(self).function_depth,
            r is Ok ==> old(self).current < final(self).current,
            stmt_matches(r, rule_statement(old(self).tokens@, old(self).state()).0),
            final(self).state() == rule_statement(old(self).tokens@, old(self).state()).1,
        decreases old(self).tokens@.len() - old(self).current, 34nat,
    {
        if self.match_type(TokenType::If).is_some() {
            self.if_statement()
        } else if self.match_type(TokenType::While).is_some() {
            self.while_statement()
        } else if self.match_type(TokenType::For).is_some() {
            self.for_statement()
        } else if self.match_type(TokenType::Return).is_some() {
            self.return_statement()
        } else if self.match_type(TokenType::Continue).is_some() {
            self.continue_statement()
        } else if self.match_type(TokenType::Break).is_some() {
            self.break_statement()
        } else if self.match_type(TokenType::Print).is_some() {
            self.print_statement()
        } else if self.match_type(TokenType::LeftBrace).is_some() {
            self.block()
        } else {
            self.expression_statement()
        }
    }

    /// An expression followed by `;`, reporting `message` if the `;` is missing.
    fn expression_then_semicolon(&mut self, message: &str) -> (r: Result<Expr, ParseError>)
        requires
            old(self).wf(),
        ensures
            final(self).follows(*old(self)),
            final(self).loop_depth == old(self).loop_depth,
            final(self).function_depth == old(self).function_depth,
            r is Ok ==> old(self).current < final(self).current,
            expr_matches(
                r,
                rule_expression_then_semicolon(old(self).tokens@, old(self).state(), message@).0,
            ),
            final(self).state() == rule_expression_then_semicolon(
                old(self).tokens@,
                old(self).state(),
                message@,
            ).1,
        decreases old(self).tokens@.len() - old(self).current, 23nat,
    {
        let expr = self.expression()?;
        self.consume(TokenType::Semicolon, message)?;
        Ok(expr)
    }

    /// exprStmt -> expression ";"
    fn expression_statement(&mut self) -> (r: Result<Stmt, ParseError>)
        requires
            old(self).wf(),
        ensures
            final(self).follows(*old(self)),
            r is Ok ==> final(self).loop_depth == old(self).loop_depth
                && final(self).function_depth == old(self).function_depth,
            r is Ok ==> old(self).current < final(self).current,
            stmt_matches(r, rule_expression_statement(old(self).tokens@, old(self).state()).0),
            final(self).state() == rule_expression_statement(old(self).tokens@, old(self).state()).1,
        decreases old(self).tokens@.len() - old(self).current, 24nat,
    {
        let expr = self.expression_then_semicolon("Expect ';' after expression.")?;
        Ok(Stmt::Expression { expression: expr })
    }

    /// printStmt -> "print" expression ";" , from after `print`.
    fn print_statement(&mut self) -> (r: Result<Stmt, ParseError>)
        requires
            old(self).wf(),
        ensures
            final(self).follows(*old(self)),
            r is Ok ==> final(self).loop_depth == old(self).loop_depth
                && final(self).function_depth == old(self).function_depth,
            r is Ok ==> old(self).current < final(self).current,
            stmt_matches(r, rule_print(old(self).tokens@, old(self).state()).0),
            final(self).state() == rule_print(old(self).tokens@, old(self).state()).1,
        decreases old(self).tokens@.len() - old(self).current, 24nat,
    {
        let expr = self.expression_then_semicolon("Expect ';' after value.")?;
        Ok(Stmt::Print { expression: expr })
    }

    /// returnStmt -> "return" expression? ";" , from after `return`.
    fn return_statement(&mut self) -> (r: Result<Stmt, ParseError>)
        requires
            old(self).wf(),
            old(self).loop_depth + old(self).function_depth < old(self).current,
        ensures
            final(self).follows(*old(self)),
            r is Ok ==> final(self).loop_depth == old(self).loop_depth
                && final(self).function_depth == old(self).function_depth,
            r is Ok ==> old(self).current < final(self).current,
            stmt_matches(r, rule_return(old(self).tokens@, old(self).state()).0),
            final(self).state() == rule_return(old(self).tokens@, old(self).state()).1,
        decreases old(self).tokens@.len() - old(self).current, 25nat,
    {
        let keyword = self.previous().clone();
        if self.function_depth == 0 {
            return Err(self.parse_error_at(&keyword, "Can't return from top-level code."));
        }
        let value = if !self.check_type(TokenType::Semicolon) {
            self.expression()?
        } else {
            Expr::Literal { value: Literal::Nil }
        };
        self.consume(TokenType::Semicolon, "Expect ';' after return value.")?;
        Ok(Stmt::Return { keyword, value })
    }

    /// continueStmt -> "continue" ";" , from after `continue`.
    fn continue_statement(&mut self) -> (r: Result<Stmt, ParseError>)
        requires
            old(self).wf(),
            old(self).loop_depth + old(self).function_depth < old(self).current,
        ensures
            final(self).follows(*old(self)),
            r is Ok ==> final(self).loop_depth == old(self).loop_depth
                && final(self).function_depth == old(self).function_depth,
            r is Ok ==> old(self).current < final(self).current,
            stmt_matches(r, rule_continue(old(self).tokens@, old(self).state()).0),
            final(self).state() == rule_continue(old(self).tokens@, old(self).state()).1,
    {
        let keyword = self.previous().clone();
        if self.loop_depth == 0 {
            return Err(self.parse_error_at(&keyword, "Can't use 'continue' outside of a loop."));
        }
        self.consume(TokenType::Semicolon, "Expect ';' after 'continue'.")?;
        Ok(Stmt::Continue { keyword })
    }

    /// breakStmt -> "break" ";" , from after `break`.
    fn break_statement(&mut self) -> (r: Result<Stmt, ParseError>)
        requires
            old(self).wf(),
            old(self).loop_depth + old(self).function_depth < old(self).current,
        ensures
            final(self).follows(*old(self)),
            r is Ok ==> final(self).loop_depth == old(self).loop_depth
                && final(self).function_depth == old(self).function_depth,
            r is Ok ==> old(self).current < final(self).current,
            stmt_matches(r, rule_break(old(self).tokens@, old(self).state()).0),
            final(self).state() == rule_break(old(self).tokens@, old(self).state()).1,
    {
        let keyword = self.previous().clone();
        if self.loop_depth == 0 {
            return Err(self.parse_error_at(&keyword, "Can't use 'break' outside of a loop."));
        }
        self.consume(TokenType::Semicolon, "Expect ';' after 'break'.")?;
        Ok(Stmt::Break { keyword })
    }

    /// block -> "{" declaration* "}" , from after the `{`.
    fn block(&mut self) -> (r: Result<Stmt, ParseError>)
        requires
            old(self).wf(),
        ensures
            final(self).follows(*old(self)),
            r is Ok ==> final(self).loop_depth == old(self).loop_depth
                && final(self).function_depth == old(self).function_depth,
            r is Ok ==> old(self).current < final(self).current,
            ({
                let (m, s1) = rule_block(old(self).tokens@, old(self).state());
                &&& final(self).state() == s1
                &&& match (r, m) {
                    (Ok(st), Ok(ms)) => st@ == StmtModel::Block { statements: ms },
                    (Err(e), Err(pe)) => error_matches(e, pe),
                    _ => false,
                }
            }),
        decreases old(self).tokens@.len() - old(self).current, 40nat,
    {
        let statements = self.block_statements()?;
        Ok(Stmt::Block { statements })
    }

    /// The declarations of a block, from after its `{` to after its `}`.
    fn block_statements(&mut self) -> (r: Result<Vec<Stmt>, ParseError>)
        requires
            old(self).wf(),
        ensures
            final(self).follows(*old(self)),
            r is Ok ==> final(self).loop_depth == old(self).loop_depth
                && final(self).function_depth == old(self).function_depth,
            r is Ok ==> old(self).current < final(self).current,
            stmts_matches(r, rule_block(old(self).tokens@, old(self).state()).0),
            final(self).state() == rule_block(old(self).tokens@, old(self).state()).1,
        decreases old(self).tokens@.len() - old(self).current, 39nat,
    {
        let ghost t = self.tokens@;
        let ghost s0 = self.state();
        let mut stmts: Vec<Stmt> = Vec::new();
        assert(stmts_model(stmts@) =~= Seq::<StmtModel>::empty());
        while !self.check_type(TokenType::RightBrace) && !self.is_at_end()
            invariant
                self.wf(),
                self.tokens == old(self).tokens,
                t == self.tokens@,
                s0 == old(self).state(),
                s0.pos <= self.current,
                self.loop_depth == old(self).loop_depth,
                self.function_depth == old(self).function_depth,
                rule_block_body(t, stmts_model(stmts@), self.state()) == rule_block_body(
                    t,
                    Seq::empty(),
                    s0,
                ),
            decreases t.len() - self.current,
        {
            let st = self.declaration()?;
            proof {
                lemma_stmts_model_push(stmts@, st);
            }
            stmts.push(st);
        }
        self.consume(TokenType::RightBrace, "Expect '}' after block.")?;
        Ok(stmts)
    }

    /// ifStmt -> "if" "("? expression ")"? statement ( "else" statement )? ,
    /// from after `if`.
    fn if_statement(&mut self) -> (r: Result<Stmt, ParseError>)
        requires
            old(self).wf(),
            old(self).loop_depth + old(self).function_depth < old(self).current,
        ensures
            final(self).follows(*old(self)),
            r is Ok ==> final(self).loop_depth == old(self).loop_depth
                && final(self).function_depth == old(self).function_depth,
            r is Ok ==> old(self).current < final(self).current,
            stmt_matches(r, rule_if(old(self).tokens@, old(self).state()).0),
            final(self).state() == rule_if(old(self).tokens@, old(self).state()).1,
        decreases old(self).tokens@.len() - old(self).current, 41nat,
    {
        self.match_type(TokenType::LeftParen);
        let condition = self.expression()?;
        self.match_type(TokenType::RightParen);
        let then_branch = Box::new(self.statement()?);
        let else_branch = if self.match_type(TokenType::Else).is_some() {
            Some(Box::new(self.statement()?))
        } else {
            None
        };
        Ok(Stmt::If { condition, then_branch, else_branch })
    }

    /// whileStmt -> "while" "("? expression ")"? statement , from after `while`.
    fn while_statement(&mut self) -> (r: Result<Stmt, ParseError>)
        requires
            old(self).wf(),
            old(self).loop_depth + old(self).function_depth < old(self).current,
        ensures
            final(self).follows(*old(self)),
            r is Ok ==> final(self).loop_depth == old(self).loop_depth
                && final(self).function_depth == old(self).function_depth,
            r is Ok ==> old(self).current < final(self).current,
            stmt_matches(r, rule_while(old(self).tokens@, old(self).state()).0),
            final(self).state() == rule_while(old(self).tokens@, old(self).state()).1,
        decreases old(self).tokens@.len() - old(self).current, 42nat,
    {
        self.match_type(TokenType::LeftParen);
        let condition = self.expression()?;
        self.match_type(TokenType::RightParen);
        self.loop_depth = self.loop_depth + 1;
        let body = Box::new(self.statement()?);
        self.loop_depth = self.loop_depth - 1;
        Ok(Stmt::While { condition, body })
    }

    /// forStmt -> "for" "(" ( varDecl | exprStmt | ";" ) expression? ";"
    ///            expression? ")" statement , from after `for`.
    #[verifier::rlimit(60)]
    fn for_statement(&mut self) -> (r: Result<Stmt, ParseError>)
        requires
            old(self).wf(),
            old(self).loop_depth + old(self).function_depth < old(self).current,
        ensures
            final(self).follows(*old(self)),
            r is Ok ==> final(self).loop_depth == old(self).loop_depth
                && final(self).function_depth == old(self).function_depth,
            r is Ok ==> old(self).current < final(self).current,
            stmt_matches(r, rule_for(old(self).tokens@, old(self).state()).0),
            final(self).state() == rule_for(old(self).tokens@, old(self).state()).1,
        decreases old(self).tokens@.len() - old(self).current, 43nat,
    {
        self.consume(TokenType::LeftParen, "Expect '(' after 'for'.")?;
        let initializer = if self.match_type(TokenType::Semicolon).is_some() {
            None
        } else if self.match_type(TokenType::Var).is_some() {
            Some(Box::new(self.var_declaration()?))
        } else {
            Some(Box::new(self.expression_statement()?))
        };
        self.for_clauses(initializer)
    }

    /// The rest of a `for` statement, after its initializer.
    #[verifier::rlimit(60)]
    fn for_clauses(&mut self, initializer: Option<Box<Stmt>>) -> (r: Result<Stmt, ParseError>)
        requires
            old(self).wf(),
            old(self).loop_depth + old(self).function_depth < old(self).current,
        ensures
            final(self).follows(*old(self)),
            r is Ok ==> final(self).loop_depth == old(self).loop_depth
                && final(self).function_depth == old(self).function_depth,
            r is Ok ==> old(self).current < final(self).current,
            stmt_matches(
                r,
                rule_for_clauses(
                    old(self).tokens@,
                    match initializer {
                        Some(b) => Some((*b)@),
                        None => None,
                    },
                    old(self).state(),
                ).0,
            ),
            final(self).state() == rule_for_clauses(
                old(self).tokens@,
                match initializer {
                    Some(b) => Some((*b)@),
                    None => None,
                },
                old(self).state(),
            ).1,
        decreases old(self).tokens@.len() - old(self).current, 44nat,
    {
        let condition = if !self.check_type(TokenType::Semicolon) {
            self.expression()?
        } else {
            Expr::Literal { value: Literal::Bool(true) }
        };
        self.consume(TokenType::Semicolon, "Expect ';' after loop condition.")?;
        let increment = if !self.check_type(TokenType::RightParen) {
            Some(self.expression()?)
        } else {
            None
        };
        self.consume(TokenType::RightParen, "Expect ')' after for clauses.")?;
        self.loop_depth = self.loop_depth + 1;
        let body = Box::new(self.statement()?);
        self.loop_depth = self.loop_depth - 1;
        Ok(Stmt::For { initializer, condition, increment, body })
    }

    /// Error recovery: skips to the token after a `;`, or to one that
    /// starts a statement, or to the end.
    fn synchronize(&mut self)
        requires
            old(self).wf(),
            old(self).current >= 1 || !at_end(old(self).tokens@, old(self).current as int),
        ensures
            final(self).follows(*old(self)),
            final(self).state() == rule_synchronize(old(self).tokens@, old(self).state()),
            !at_end(old(self).tokens@, old(self).current as int) ==> old(self).current
                < final(self).current,
    {
        let ghost t = self.tokens@;
        self.loop_depth = 0;
        self.function_depth = 0;
        self.advance();
        let ghost p1 = self.current as int;
        while !self.is_at_end()
            invariant
                self.wf(),
                self.tokens == old(self).tokens,
                t == self.tokens@,
                self.loop_depth == 0,
                self.function_depth == 0,
                old(self).current <= p1 <= self.current,
                p1 == (if at_end(t, old(self).current as int) {
                    old(self).current as int
                } else {
                    old(self).current + 1
                }),
                self.current >= 1,
                resume_point(t, self.current as int) == resume_point(t, p1),
            decreases t.len() - self.current,
        {
            if self.previous().token_type == TokenType::Semicolon {
                assert(resume_point(t, self.current as int) == self.current as int);
                return;
            }
            let ty = self.peek().token_type;
            if ty == TokenType::Class || ty == TokenType::Fun || ty == TokenType::Var || ty
                == TokenType::For || ty == TokenType::If || ty == TokenType::While || ty
                == TokenType::Print || ty == TokenType::Return {
                assert(resume_point(t, self.current as int) == self.current as int);
                return;
            }
            self.advance();
        }
    }
}

} // verus!
