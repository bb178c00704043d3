//! Where `return`, `break` and `continue` may stand, and the proof that
//! the parser accepts them nowhere else.

use vstd::prelude::*;
use crate::expr::ExprModel;
use crate::parser::{
    PErr,
    PState,
    rule_block,
    rule_block_body,
    rule_declaration,
    rule_expression_statement,
    rule_expression_then_semicolon,
    rule_for,
    rule_for_clauses,
    rule_function,
    rule_function_body,
    rule_if,
    rule_parameters,
    rule_program,
    rule_statement,
    rule_synchronize,
    rule_var_declaration,
    rule_while,
    skip_optional,
    start_state,
    at_end,
    check,
    combine,
    level_has,
    onward,
    rule_argument_list,
    rule_arguments,
    rule_assignment,
    rule_binary,
    rule_binary_tail,
    rule_call,
    rule_call_tail,
    rule_consume,
    rule_expression,
    rule_primary,
    rule_unary,
    step,
};
use crate::error::EvalError;
use crate::interpreter::Flow;
use crate::semantics::{IState, block_execs, chosen, exec_node, execs, for_execs, spent, while_execs, with_scopes};
use crate::stmt::{Stmt, StmtModel, lemma_stmts_model_index, stmt_model, stmts_model};
use crate::env::enclose;
use crate::token::{Token, TokenType};

verus! {

/// Whether `st` uses `break` and `continue` only inside a loop and
/// `return` only inside a function body, given whether it stands inside a
/// loop (`in_loop`) and inside a function body (`in_function`). A function
/// body inside a loop counts as inside that loop.
pub open spec fn stmt_scoped(st: StmtModel, in_loop: bool, in_function: bool) -> bool
    decreases st,
{
    match st {
        StmtModel::Return { .. } => in_function,
        StmtModel::Break { .. } | StmtModel::Continue { .. } => in_loop,
        StmtModel::Block { statements } => forall|i: int|
            0 <= i < statements.len() ==> stmt_scoped(#[trigger] statements[i], in_loop, in_function),
        StmtModel::If { then_branch, else_branch, .. } => {
            &&& stmt_scoped(*then_branch, in_loop, in_function)
            &&& match else_branch {
                Some(e) => stmt_scoped(*e, in_loop, in_function),
                None => true,
            }
        },
        StmtModel::While { body, .. } => stmt_scoped(*body, true, in_function),
        StmtModel::For { initializer, body, .. } => {
            &&& match initializer {
                Some(i) => stmt_scoped(*i, in_loop, in_function),
                None => true,
            }
            &&& stmt_scoped(*body, true, in_function)
        },
        StmtModel::Function { body, .. } => forall|i: int|
            0 <= i < body.len() ==> stmt_scoped(#[trigger] body[i], in_loop, true),
        _ => true,
    }
}

/// Every statement of `stmts` is scoped.
pub open spec fn all_scoped(stmts: Seq<StmtModel>, in_loop: bool, in_function: bool) -> bool {
    forall|i: int| 0 <= i < stmts.len() ==> stmt_scoped(#[trigger] stmts[i], in_loop, in_function)
}

/// Two parser states at the same depth of loops and function bodies.
pub open spec fn same_depth(a: PState, b: PState) -> bool {
    a.loops == b.loops && a.funcs == b.funcs
}

/// The scoping a parser state stands in.
pub open spec fn scoped_at(st: StmtModel, s: PState) -> bool {
    stmt_scoped(st, s.loops > 0, s.funcs > 0)
}

// ---------------------------------------------------------------------
// Expressions leave the depths as they were.
// ---------------------------------------------------------------------

proof fn lemma_expression_depth(t: Seq<Token>, s: PState)
    ensures
        same_depth(rule_expression(t, s).1, s),
    decreases t.len() - s.pos, 22nat,
{
    if 0 <= s.pos < t.len() {
        lemma_assignment_depth(t, s);
    }
}

proof fn lemma_assignment_depth(t: Seq<Token>, s: PState)
    ensures
        same_depth(rule_assignment(t, s).1, s),
    decreases t.len() - s.pos, 21nat,
{
    if 0 <= s.pos < t.len() {
        lemma_binary_depth(t, 5, s);
        let (r, s1) = rule_binary(t, 5, s);
        if r is Ok && onward(t, s, s1) && check(t, s1.pos, TokenType::Equal) {
            lemma_assignment_depth(t, step(s1));
        }
    }
}

proof fn lemma_binary_depth(t: Seq<Token>, k: nat, s: PState)
    ensures
        same_depth(rule_binary(t, k, s).1, s),
    decreases t.len() - s.pos, 9 + 2 * k,
{
    if 0 <= s.pos < t.len() && k <= 5 {
        if k == 0 {
            lemma_unary_depth(t, s);
        } else {
            lemma_binary_depth(t, (k - 1) as nat, s);
        }
        let (r, s1) = if k == 0 {
            rule_unary(t, s)
        } else {
            rule_binary(t, (k - 1) as nat, s)
        };
        if let Ok(left) = r {
            if onward(t, s, s1) {
                lemma_binary_tail_depth(t, k, left, s1);
            }
        }
    }
}

proof fn lemma_binary_tail_depth(t: Seq<Token>, k: nat, left: ExprModel, s: PState)
    ensures
        same_depth(rule_binary_tail(t, k, left, s).1, s),
    decreases t.len() - s.pos, 8 + 2 * k,
{
    if 0 <= s.pos < t.len() && k <= 5 && !at_end(t, s.pos) && level_has(k, t[s.pos].token_type)
        && s.pos + 1 < t.len() {
        let op = t[s.pos];
        if k == 0 {
            lemma_unary_depth(t, step(s));
        } else {
            lemma_binary_depth(t, (k - 1) as nat, step(s));
        }
        let (r, s2) = if k == 0 {
            rule_unary(t, step(s))
        } else {
            rule_binary(t, (k - 1) as nat, step(s))
        };
        if let Ok(right) = r {
            if s.pos < s2.pos < t.len() {
                lemma_binary_tail_depth(t, k, combine(k, left, op, right), s2);
            }
        }
    }
}

proof fn lemma_unary_depth(t: Seq<Token>, s: PState)
    ensures
        same_depth(rule_unary(t, s).1, s),
    decreases t.len() - s.pos, 6nat,
{
    if 0 <= s.pos < t.len() {
        if check(t, s.pos, TokenType::Bang) || check(
            t,
            s.pos,
            TokenType::Minus,
        ) {
            if s.pos + 1 < t.len() {
                lemma_unary_depth(t, step(s));
            }
        } else {
            lemma_call_depth(t, s);
        }
    }
}

proof fn lemma_call_depth(t: Seq<Token>, s: PState)
    ensures
        same_depth(rule_call(t, s).1, s),
    decreases t.len() - s.pos, 5nat,
{
    if 0 <= s.pos < t.len() {
        lemma_primary_depth(t, s);
        let (r, s1) = rule_primary(t, s);
        if let Ok(e) = r {
            if onward(t, s, s1) {
                lemma_call_tail_depth(t, e, s1);
            }
        }
    }
}

proof fn lemma_call_tail_depth(t: Seq<Token>, callee: ExprModel, s: PState)
    ensures
        same_depth(rule_call_tail(t, callee, s).1, s),
    decreases t.len() - s.pos, 4nat,
{
    if 0 <= s.pos < t.len() && check(t, s.pos, TokenType::LeftParen) && s.pos + 1
        < t.len() {
        lemma_arguments_depth(t, callee, step(s));
        let (r, s2) = rule_arguments(t, callee, step(s));
        if let Ok(c) = r {
            if s.pos < s2.pos < t.len() {
                lemma_call_tail_depth(t, c, s2);
            }
        }
    }
}

proof fn lemma_arguments_depth(t: Seq<Token>, callee: ExprModel, s: PState)
    ensures
        same_depth(rule_arguments(t, callee, s).1, s),
    decreases t.len() - s.pos, 24nat,
{
    if 0 <= s.pos < t.len() && !check(t, s.pos, TokenType::RightParen) {
        lemma_argument_list_depth(t, Seq::empty(), s);
    }
}

proof fn lemma_argument_list_depth(t: Seq<Token>, args: Seq<ExprModel>, s: PState)
    ensures
        same_depth(rule_argument_list(t, args, s).1, s),
    decreases t.len() - s.pos, 23nat,
{
    if 0 <= s.pos < t.len() {
        lemma_expression_depth(t, s);
        let (r, s1) = rule_expression(t, s);
        if let Ok(a) = r {
            let more = args.push(a);
            if onward(t, s, s1) && check(t, s1.pos, TokenType::Comma) {
                let s2 = step(s1);
                if s2.pos < t.len() && more.len() <= 255 {
                    lemma_argument_list_depth(t, more, s2);
                }
            }
        }
    }
}

proof fn lemma_primary_depth(t: Seq<Token>, s: PState)
    ensures
        same_depth(rule_primary(t, s).1, s),
    decreases t.len() - s.pos, 2nat,
{
    if 0 <= s.pos < t.len() && check(t, s.pos, TokenType::LeftParen) && s.pos + 1
        < t.len() {
        lemma_expression_depth(t, step(s));
    }
}

proof fn lemma_expression_then_semicolon_depth(t: Seq<Token>, s: PState, message: Seq<char>)
    ensures
        same_depth(rule_expression_then_semicolon(t, s, message).1, s),
    decreases t.len() - s.pos, 23nat,
{
    if 0 <= s.pos < t.len() {
        lemma_expression_depth(t, s);
    }
}

proof fn lemma_parameters_depth(t: Seq<Token>, params: Seq<Token>, s: PState)
    ensures
        same_depth(rule_parameters(t, params, s).1, s),
    decreases t.len() - s.pos, 29nat,
{
    if 0 <= s.pos < t.len() && params.len() < 255 {
        let (rp, s1) = rule_consume(t, s, TokenType::Identifier, "Expect parameter name."@);
        if let Ok(p) = rp {
            if s1.pos < t.len() && check(t, s1.pos, TokenType::Comma) && s1.pos + 1 < t.len() {
                lemma_parameters_depth(t, params.push(p), step(s1));
            }
        }
    }
}

// ---------------------------------------------------------------------
// Statements: what a rule accepts is scoped where the rule stands, and
// the rule ends at the depth it began at.
// ---------------------------------------------------------------------

/// A statement rule's result `(r, s1)` from state `s`.
pub open spec fn accepts_scoped(r: (Result<StmtModel, PErr>, PState), s: PState) -> bool {
    r.0 matches Ok(st) ==> scoped_at(st, s) && same_depth(r.1, s)
}

/// A parser state outside no negative number of loops or functions.
pub open spec fn sane(s: PState) -> bool {
    s.loops >= 0 && s.funcs >= 0
}

proof fn lemma_declaration_scoped(t: Seq<Token>, s: PState)
    requires
        sane(s),
    ensures
        accepts_scoped(rule_declaration(t, s), s),
    decreases t.len() - s.pos, 37nat,
{
    if 0 <= s.pos < t.len() {
        if check(t, s.pos, TokenType::Var) {
            if s.pos + 1 < t.len() {
                lemma_var_declaration_scoped(t, step(s));
            }
        } else if check(t, s.pos, TokenType::Fun) {
            if s.pos + 1 < t.len() {
                lemma_function_scoped(t, step(s));
            }
        } else {
            lemma_statement_scoped(t, s);
        }
    }
}

proof fn lemma_var_declaration_scoped(t: Seq<Token>, s: PState)
    requires
        sane(s),
    ensures
        accepts_scoped(rule_var_declaration(t, s), s),
    decreases t.len() - s.pos, 28nat,
{
    if 0 <= s.pos < t.len() {
        let s1 = step(s);
        if s1.pos + 1 < t.len() {
            lemma_expression_depth(t, step(s1));
        }
    }
}

proof fn lemma_function_scoped(t: Seq<Token>, s: PState)
    requires
        sane(s),
    ensures
        accepts_scoped(rule_function(t, s), s),
    decreases t.len() - s.pos, 30nat,
{
    if 0 <= s.pos < t.len() {
        let s2 = step(step(s));
        if s2.pos < t.len() {
            lemma_parameters_depth(t, Seq::empty(), s2);
            let (rp, s3) = if !check(t, s2.pos, TokenType::RightParen) {
                rule_parameters(t, Seq::empty(), s2)
            } else {
                (Ok(Seq::empty()), s2)
            };
            if let Ok(params) = rp {
                if onward(t, s2, s3) {
                    let (rn, _) = rule_consume(
                        t,
                        s,
                        TokenType::Identifier,
                        "Expect function name."@,
                    );
                    if let Ok(name) = rn {
                        lemma_function_body_scoped(t, name, params, s3);
                    }
                }
            }
        }
    }
}

proof fn lemma_function_body_scoped(t: Seq<Token>, name: Token, params: Seq<Token>, s: PState)
    requires
        sane(s),
    ensures
        accepts_scoped(rule_function_body(t, name, params, s), s),
    decreases t.len() - s.pos, 31nat,
{
    if 0 <= s.pos < t.len() {
        let s5 = step(step(s));
        if s5.pos < t.len() {
            lemma_block_scoped(t, PState { funcs: s5.funcs + 1, ..s5 });
        }
    }
}

proof fn lemma_statement_scoped(t: Seq<Token>, s: PState)
    requires
        sane(s),
    ensures
        accepts_scoped(rule_statement(t, s), s),
    decreases t.len() - s.pos, 34nat,
{
    if 0 <= s.pos < t.len() && !(!at_end(t, s.pos) && s.pos + 1 >= t.len()) {
        if check(t, s.pos, TokenType::If) {
            lemma_if_scoped(t, step(s));
        } else if check(t, s.pos, TokenType::While) {
            lemma_while_scoped(t, step(s));
        } else if check(t, s.pos, TokenType::For) {
            lemma_for_scoped(t, step(s));
        } else if check(t, s.pos, TokenType::Return) {
            lemma_expression_depth(t, step(s));
        } else if check(t, s.pos, TokenType::Continue) {
        } else if check(t, s.pos, TokenType::Break) {
        } else if check(t, s.pos, TokenType::Print) {
            lemma_expression_then_semicolon_depth(t, step(s), "Expect ';' after value."@);
        } else if check(t, s.pos, TokenType::LeftBrace) {
            lemma_block_scoped(t, step(s));
        } else {
            lemma_expression_then_semicolon_depth(t, s, "Expect ';' after expression."@);
        }
    }
}

/// A block's statements are scoped where the block stands, and the block
/// ends at the depth it began at.
pub open spec fn block_scoped(r: (Result<Seq<StmtModel>, PErr>, PState), s: PState) -> bool {
    r.0 matches Ok(ss) ==> all_scoped(ss, s.loops > 0, s.funcs > 0) && same_depth(r.1, s)
}

proof fn lemma_block_scoped(t: Seq<Token>, s: PState)
    requires
        sane(s),
    ensures
        block_scoped(rule_block(t, s), s),
    decreases t.len() - s.pos, 39nat,
{
    if 0 <= s.pos < t.len() {
        lemma_block_body_scoped(t, Seq::empty(), s);
    }
}

proof fn lemma_block_body_scoped(t: Seq<Token>, stmts: Seq<StmtModel>, s: PState)
    requires
        sane(s),
        all_scoped(stmts, s.loops > 0, s.funcs > 0),
    ensures
        block_scoped(rule_block_body(t, stmts, s), s),
    decreases t.len() - s.pos, 38nat,
{
    if 0 <= s.pos < t.len() && !check(t, s.pos, TokenType::RightBrace) && !at_end(t, s.pos) {
        lemma_declaration_scoped(t, s);
        let (r, s1) = rule_declaration(t, s);
        if let Ok(st) = r {
            if s.pos < s1.pos < t.len() {
                let more = stmts.push(st);
                assert(all_scoped(more, s.loops > 0, s.funcs > 0)) by {
                    assert forall|i: int| 0 <= i < more.len() implies stmt_scoped(
                        #[trigger] more[i],
                        s.loops > 0,
                        s.funcs > 0,
                    ) by {
                        if i < stmts.len() {
                            assert(more[i] == stmts[i]);
                        }
                    }
                }
                lemma_block_body_scoped(t, more, s1);
            }
        }
    }
}

proof fn lemma_if_scoped(t: Seq<Token>, s: PState)
    requires
        sane(s),
    ensures
        accepts_scoped(rule_if(t, s), s),
    decreases t.len() - s.pos, 40nat,
{
    if 0 <= s.pos < t.len() {
        let s1 = skip_optional(t, s, TokenType::LeftParen);
        lemma_expression_depth(t, s1);
        let (rc, s2) = rule_expression(t, s1);
        if rc is Ok && onward(t, s, s2) && onward(t, s, skip_optional(t, s2, TokenType::RightParen)) {
            let s3 = skip_optional(t, s2, TokenType::RightParen);
            lemma_statement_scoped(t, s3);
            let (rt, s4) = rule_statement(t, s3);
            if rt is Ok && onward(t, s, s4) && check(t, s4.pos, TokenType::Else) && s4.pos + 1
                < t.len() {
                lemma_statement_scoped(t, step(s4));
            }
        }
    }
}

proof fn lemma_while_scoped(t: Seq<Token>, s: PState)
    requires
        sane(s),
    ensures
        accepts_scoped(rule_while(t, s), s),
    decreases t.len() - s.pos, 41nat,
{
    if 0 <= s.pos < t.len() {
        let s1 = skip_optional(t, s, TokenType::LeftParen);
        lemma_expression_depth(t, s1);
        let (rc, s2) = rule_expression(t, s1);
        if rc is Ok && onward(t, s, s2) && onward(t, s, skip_optional(t, s2, TokenType::RightParen)) {
            let s3 = skip_optional(t, s2, TokenType::RightParen);
            lemma_statement_scoped(t, PState { loops: s3.loops + 1, ..s3 });
        }
    }
}

proof fn lemma_for_scoped(t: Seq<Token>, s: PState)
    requires
        sane(s),
    ensures
        accepts_scoped(rule_for(t, s), s),
    decreases t.len() - s.pos, 42nat,
{
    if 0 <= s.pos < t.len() {
        let s1 = step(s);
        if s1.pos < t.len() && !((check(t, s1.pos, TokenType::Semicolon) || check(
            t,
            s1.pos,
            TokenType::Var,
        )) && s1.pos + 1 >= t.len()) {
            if check(t, s1.pos, TokenType::Semicolon) {
            } else if check(t, s1.pos, TokenType::Var) {
                lemma_var_declaration_scoped(t, step(s1));
            } else {
                lemma_expression_then_semicolon_depth(t, s1, "Expect ';' after expression."@);
            }
            let (ri, s2): (Result<Option<StmtModel>, PErr>, PState) = if check(
                t,
                s1.pos,
                TokenType::Semicolon,
            ) {
                (Ok(None), step(s1))
            } else if check(t, s1.pos, TokenType::Var) {
                let (r, x) = rule_var_declaration(t, step(s1));
                match r {
                    Err(e) => (Err(e), x),
                    Ok(st) => (Ok(Some(st)), x),
                }
            } else {
                let (r, x) = rule_expression_statement(t, s1);
                match r {
                    Err(e) => (Err(e), x),
                    Ok(st) => (Ok(Some(st)), x),
                }
            };
            if let Ok(init) = ri {
                if onward(t, s1, s2) {
                    lemma_for_clauses_scoped(t, init, s2);
                }
            }
        }
    }
}

proof fn lemma_for_clauses_scoped(t: Seq<Token>, init: Option<StmtModel>, s: PState)
    requires
        sane(s),
        init matches Some(i) ==> scoped_at(i, s),
    ensures
        accepts_scoped(rule_for_clauses(t, init, s), s),
    decreases t.len() - s.pos, 43nat,
{
    if 0 <= s.pos < t.len() {
        if !check(t, s.pos, TokenType::Semicolon) {
            lemma_expression_depth(t, s);
        }
        let (rc, s3) = if !check(t, s.pos, TokenType::Semicolon) {
            rule_expression(t, s)
        } else {
            (Ok(ExprModel::Literal { value: crate::token::Literal::Bool(true) }), s)
        };
        if rc is Ok && onward(t, s, s3) {
            let s4 = step(s3);
            if check(t, s3.pos, TokenType::Semicolon) && s.pos < s4.pos < t.len() {
                if !check(t, s4.pos, TokenType::RightParen) {
                    lemma_expression_depth(t, s4);
                }
                let (rinc, s5): (Result<Option<ExprModel>, PErr>, PState) = if !check(
                    t,
                    s4.pos,
                    TokenType::RightParen,
                ) {
                    let (r, x) = rule_expression(t, s4);
                    match r {
                        Err(e) => (Err(e), x),
                        Ok(e) => (Ok(Some(e)), x),
                    }
                } else {
                    (Ok(None), s4)
                };
                if rinc is Ok && onward(t, s4, s5) {
                    let s6 = step(s5);
                    if check(t, s5.pos, TokenType::RightParen) && s6.pos < t.len() {
                        lemma_statement_scoped(t, PState { loops: s6.loops + 1, ..s6 });
                    }
                }
            }
        }
    }
}

// ---------------------------------------------------------------------
// The law.
// ---------------------------------------------------------------------

proof fn lemma_program_scoped(t: Seq<Token>, s: PState)
    requires
        s.loops == 0,
        s.funcs == 0,
    ensures
        all_scoped(rule_program(t, s).0, false, false),
    decreases t.len() - s.pos,
{
    if 0 <= s.pos < t.len() && !at_end(t, s.pos) {
        lemma_declaration_scoped(t, s);
        let (r, s1) = rule_declaration(t, s);
        match r {
            Ok(st) => if s.pos < s1.pos < t.len() {
                lemma_program_scoped(t, s1);
                let (ss, es) = rule_program(t, s1);
                assert(rule_program(t, s).0 == seq![st] + ss);
                assert forall|i: int| 0 <= i < (seq![st] + ss).len() implies stmt_scoped(
                    #[trigger] (seq![st] + ss)[i],
                    false,
                    false,
                ) by {
                    if i > 0 {
                        assert((seq![st] + ss)[i] == ss[i - 1]);
                    }
                }
            } else {
                assert(rule_program(t, s).0 == seq![st]);
                assert(seq![st][0] == st);
            },
            Err(e) => {
                let s2 = rule_synchronize(t, s1);
                if s.pos < s2.pos < t.len() {
                    lemma_program_scoped(t, s2);
                }
            },
        }
    }
}

/// `return` only inside a function body, and `break` and `continue` only
/// inside a loop: every statement the parser keeps uses them nowhere else,
/// errors elsewhere in the program or not (a function body inside a loop
/// counts as inside the loop). Recovery after an error goes back to the
/// top level, so a `return` after an error in a function body is reported.
pub proof fn law_parsed_programs_are_scoped(t: Seq<Token>)
    ensures
        all_scoped(rule_program(t, start_state()).0, false, false),
{
    lemma_program_scoped(t, start_state());
}

} // verus!
