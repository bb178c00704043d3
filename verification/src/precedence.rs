//! Precedence and associativity of parsed expressions.
//!
//! Lox binds, from loosest to tightest: assignment, `or`, `and`, equality
//! (`==`, `!=`), comparison (`>`, `>=`, `<`, `<=`), terms (`+`, `-`),
//! factors (`*`, `/`), unary operators, then calls and primaries. Binary
//! and logical operators group to the left. Here that is stated of the
//! expression trees themselves: every operand binds at least as tightly
//! as its operator (strictly, on the right), and only `and` and `or` make
//! logical nodes. Besides, the names and values an expression is built
//! from keep the order of the tokens they come from.

use vstd::prelude::*;
use crate::expr::ExprModel;
use crate::parser::{
    PErr,
    PState,
    rule_argument_list,
    rule_arguments,
    rule_assignment,
    rule_binary,
    rule_binary_tail,
    rule_call,
    rule_call_tail,
    rule_expression,
    rule_finish_call,
    rule_primary,
    rule_unary,
};
use crate::token::{Literal, Token, TokenType};

verus! {

/// How tightly a binary or logical operator binds: `or` 1, `and` 2,
/// equality 3, comparison 4, terms 5, factors 6; 0 for any other token.
pub open spec fn operator_precedence(ty: TokenType) -> nat {
    match ty {
        TokenType::Or => 1,
        TokenType::And => 2,
        TokenType::EqualEqual | TokenType::BangEqual => 3,
        TokenType::Greater | TokenType::GreaterEqual | TokenType::Less | TokenType::LessEqual => 4,
        TokenType::Plus | TokenType::Minus => 5,
        TokenType::Star | TokenType::Slash => 6,
        _ => 0,
    }
}

/// How tightly an expression binds as a whole: assignment 0, a binary or
/// logical node as its operator, unary 7, calls and primaries 8.
pub open spec fn binding(e: ExprModel) -> nat {
    match e {
        ExprModel::Assign { .. } => 0,
        ExprModel::Logical { operator, .. } => operator_precedence(operator.token_type),
        ExprModel::Binary { operator, .. } => operator_precedence(operator.token_type),
        ExprModel::Unary { .. } => 7,
        _ => 8,
    }
}

/// Every node of `e` is grouped as Lox precedence and associativity say:
/// a binary node has an equality, comparison, term or factor operator and
/// a logical node `and` or `or`; the left operand of either binds at least
/// as tightly as the operator and the right one more tightly; the operand
/// of a unary operator is unary or tighter, and a callee is a call or a
/// primary.
pub open spec fn well_grouped(e: ExprModel) -> bool
    decreases e, 1nat,
{
    match e {
        ExprModel::Binary { left, operator, right } => {
            let p = operator_precedence(operator.token_type);
            &&& 3 <= p <= 6
            &&& binding(*left) >= p
            &&& binding(*right) > p
            &&& well_grouped(*left)
            &&& well_grouped(*right)
        },
        ExprModel::Logical { left, operator, right } => {
            let p = operator_precedence(operator.token_type);
            &&& (operator.token_type == TokenType::And || operator.token_type == TokenType::Or)
            &&& binding(*left) >= p
            &&& binding(*right) > p
            &&& well_grouped(*left)
            &&& well_grouped(*right)
        },
        ExprModel::Unary { operator, right } => {
            &&& (operator.token_type == TokenType::Bang || operator.token_type == TokenType::Minus)
            &&& binding(*right) >= 7
            &&& well_grouped(*right)
        },
        ExprModel::Call { callee, args, .. } => {
            &&& binding(*callee) == 8
            &&& well_grouped(*callee)
            &&& all_well_grouped(args)
        },
        ExprModel::Grouping { expression } => well_grouped(*expression),
        ExprModel::Assign { value, .. } => well_grouped(*value),
        ExprModel::Literal { .. } | ExprModel::Variable { .. } => true,
    }
}

/// Every expression of `es` is well grouped.
pub open spec fn all_well_grouped(es: Seq<ExprModel>) -> bool
    decreases es, 0nat,
{
    if es.len() == 0 {
        true
    } else {
        let n = es.len() - 1;
        all_well_grouped(es.subrange(0, n)) && well_grouped(es[n])
    }
}

/// A parse result that, when it is an expression, is well grouped and
/// binds at least as tightly as `p`.
pub open spec fn grouped_at_least(r: Result<ExprModel, PErr>, p: nat) -> bool {
    r matches Ok(e) ==> well_grouped(e) && binding(e) >= p
}

/// How tightly the operators of binary level `k` bind.
spec fn level_precedence(k: nat) -> nat {
    (6 - k) as nat
}

proof fn lemma_expression(t: Seq<Token>, s: PState)
    ensures
        grouped_at_least(rule_expression(t, s).0, 0),
    decreases t.len() - s.pos, 22nat,
{
    if 0 <= s.pos < t.len() {
        lemma_assignment(t, s);
    }
}

proof fn lemma_assignment(t: Seq<Token>, s: PState)
    ensures
        grouped_at_least(rule_assignment(t, s).0, 0),
    decreases t.len() - s.pos, 21nat,
{
    if 0 <= s.pos < t.len() {
        lemma_binary(t, 5, s);
        let (r, s1) = rule_binary(t, 5, s);
        if r is Ok && s.pos <= s1.pos < t.len() && crate::parser::check(t, s1.pos, TokenType::Equal) {
            lemma_assignment(t, crate::parser::step(s1));
        }
    }
}

proof fn lemma_binary(t: Seq<Token>, k: nat, s: PState)
    requires
        k <= 5,
    ensures
        grouped_at_least(rule_binary(t, k, s).0, level_precedence(k)),
    decreases t.len() - s.pos, 9 + 2 * k,
{
    if 0 <= s.pos < t.len() {
        let (r, s1) = if k == 0 {
            rule_unary(t, s)
        } else {
            rule_binary(t, (k - 1) as nat, s)
        };
        if k == 0 {
            lemma_unary(t, s);
        } else {
            lemma_binary(t, (k - 1) as nat, s);
        }
        if r is Ok && s.pos <= s1.pos < t.len() {
            lemma_binary_tail(t, k, r->Ok_0, s1);
        }
    }
}

proof fn lemma_binary_tail(t: Seq<Token>, k: nat, left: ExprModel, s: PState)
    requires
        k <= 5,
        well_grouped(left),
        binding(left) >= level_precedence(k),
    ensures
        grouped_at_least(rule_binary_tail(t, k, left, s).0, level_precedence(k)),
    decreases t.len() - s.pos, 8 + 2 * k,
{
    if 0 <= s.pos < t.len() && !crate::parser::at_end(t, s.pos) && crate::parser::level_has(
        k,
        t[s.pos].token_type,
    ) && s.pos + 1 < t.len() {
        let op = t[s.pos];
        let s0 = crate::parser::step(s);
        let (r, s2) = if k == 0 {
            rule_unary(t, s0)
        } else {
            rule_binary(t, (k - 1) as nat, s0)
        };
        if k == 0 {
            lemma_unary(t, s0);
        } else {
            lemma_binary(t, (k - 1) as nat, s0);
        }
        if r is Ok && s.pos < s2.pos < t.len() {
            let joined = crate::parser::combine(k, left, op, r->Ok_0);
            assert(well_grouped(joined) && binding(joined) == level_precedence(k));
            lemma_binary_tail(t, k, joined, s2);
        }
    }
}

proof fn lemma_unary(t: Seq<Token>, s: PState)
    ensures
        grouped_at_least(rule_unary(t, s).0, 7),
    decreases t.len() - s.pos, 6nat,
{
    if 0 <= s.pos < t.len() {
        if crate::parser::check(t, s.pos, TokenType::Bang) || crate::parser::check(t, s.pos, TokenType::Minus) {
            if s.pos + 1 < t.len() {
                lemma_unary(t, crate::parser::step(s));
            }
        } else {
            lemma_call(t, s);
        }
    }
}

proof fn lemma_call(t: Seq<Token>, s: PState)
    ensures
        grouped_at_least(rule_call(t, s).0, 8),
    decreases t.len() - s.pos, 5nat,
{
    if 0 <= s.pos < t.len() {
        lemma_primary(t, s);
        let (r, s1) = rule_primary(t, s);
        if r is Ok && s.pos <= s1.pos < t.len() {
            lemma_call_tail(t, r->Ok_0, s1);
        }
    }
}

proof fn lemma_call_tail(t: Seq<Token>, callee: ExprModel, s: PState)
    requires
        well_grouped(callee),
        binding(callee) == 8,
    ensures
        grouped_at_least(rule_call_tail(t, callee, s).0, 8),
    decreases t.len() - s.pos, 4nat,
{
    if 0 <= s.pos < t.len() && crate::parser::check(t, s.pos, TokenType::LeftParen) && s.pos + 1
        < t.len() {
        lemma_arguments(t, callee, crate::parser::step(s));
        let (r, s2) = rule_arguments(t, callee, crate::parser::step(s));
        if r is Ok && s.pos < s2.pos < t.len() {
            lemma_call_tail(t, r->Ok_0, s2);
        }
    }
}

proof fn lemma_arguments(t: Seq<Token>, callee: ExprModel, s: PState)
    requires
        well_grouped(callee),
        binding(callee) == 8,
    ensures
        grouped_at_least(rule_arguments(t, callee, s).0, 8),
    decreases t.len() - s.pos, 24nat,
{
    if 0 <= s.pos < t.len() {
        if crate::parser::check(t, s.pos, TokenType::RightParen) {
            assert(all_well_grouped(Seq::<ExprModel>::empty()));
            lemma_finish_call(t, callee, Seq::empty(), s);
        } else {
            assert(all_well_grouped(Seq::<ExprModel>::empty()));
            lemma_argument_list(t, Seq::empty(), s);
            let (r, s1) = rule_argument_list(t, Seq::empty(), s);
            if r is Ok && s.pos <= s1.pos < t.len() {
                lemma_finish_call(t, callee, r->Ok_0, s1);
            }
        }
    }
}

proof fn lemma_finish_call(t: Seq<Token>, callee: ExprModel, args: Seq<ExprModel>, s: PState)
    requires
        well_grouped(callee),
        binding(callee) == 8,
        all_well_grouped(args),
    ensures
        grouped_at_least(rule_finish_call(t, callee, args, s).0, 8),
{
}

proof fn lemma_argument_list(t: Seq<Token>, args: Seq<ExprModel>, s: PState)
    requires
        all_well_grouped(args),
    ensures
        rule_argument_list(t, args, s).0 matches Ok(all) ==> all_well_grouped(all),
    decreases t.len() - s.pos, 23nat,
{
    if 0 <= s.pos < t.len() {
        lemma_expression(t, s);
        let (r, s1) = rule_expression(t, s);
        if r is Ok {
            let more = args.push(r->Ok_0);
            assert(more.subrange(0, args.len() as int) =~= args);
            assert(all_well_grouped(more));
            if s.pos <= s1.pos < t.len() && crate::parser::check(t, s1.pos, TokenType::Comma) {
                let s2 = crate::parser::step(s1);
                if s2.pos < t.len() {
                    lemma_argument_list(t, more, s2);
                }
            }
        }
    }
}

proof fn lemma_primary(t: Seq<Token>, s: PState)
    ensures
        grouped_at_least(rule_primary(t, s).0, 8),
    decreases t.len() - s.pos, 2nat,
{
    if 0 <= s.pos < t.len() && crate::parser::check(t, s.pos, TokenType::LeftParen) && s.pos + 1
        < t.len() {
        lemma_expression(t, crate::parser::step(s));
    }
}

/// Parsed expressions follow Lox precedence and associativity: whatever
/// expression the grammar parses from any tokens and any position is well
/// grouped. So `a == b and c == d` parses as an `and` of two equalities,
/// `1 - 2 - 3` as `(1 - 2) - 3`, and `1 + 2 * 3` as `1 + (2 * 3)`.
pub proof fn law_parsed_expressions_are_well_grouped(t: Seq<Token>, s: PState)
    ensures
        rule_expression(t, s).0 matches Ok(e) ==> well_grouped(e),
{
    lemma_expression(t, s);
}

// ---------------------------------------------------------------------
// Operands in order.
// ---------------------------------------------------------------------

/// A leaf of an expression: a variable's name, or a literal value.
pub enum Atom {
    Name(Token),
    Value(Literal),
}

/// The leaf a token stands for, if any: an identifier its name; a number,
/// string, `true`, `false` or `nil` its value.
pub open spec fn token_atom(tok: Token) -> Seq<Atom> {
    match tok.token_type {
        TokenType::Identifier => seq![Atom::Name(tok)],
        TokenType::Number | TokenType::String => seq![Atom::Value(tok.literal->0)],
        TokenType::True => seq![Atom::Value(Literal::Bool(true))],
        TokenType::False => seq![Atom::Value(Literal::Bool(false))],
        TokenType::Nil => seq![Atom::Value(Literal::Nil)],
        _ => Seq::empty(),
    }
}

/// The leaves the tokens `t[a..b]` stand for, in order.
pub open spec fn token_atoms(t: Seq<Token>, a: int, b: int) -> Seq<Atom>
    decreases b - a,
{
    if a >= b {
        Seq::empty()
    } else {
        token_atom(t[a]) + token_atoms(t, a + 1, b)
    }
}

/// The leaves of an expression, read from left to right.
pub open spec fn expr_atoms(e: ExprModel) -> Seq<Atom>
    decreases e, 1nat,
{
    match e {
        ExprModel::Binary { left, right, .. } => expr_atoms(*left) + expr_atoms(*right),
        ExprModel::Logical { left, right, .. } => expr_atoms(*left) + expr_atoms(*right),
        ExprModel::Grouping { expression } => expr_atoms(*expression),
        ExprModel::Literal { value } => seq![Atom::Value(value)],
        ExprModel::Unary { right, .. } => expr_atoms(*right),
        ExprModel::Variable { name } => seq![Atom::Name(name)],
        ExprModel::Assign { name, value } => seq![Atom::Name(name)] + expr_atoms(*value),
        ExprModel::Call { callee, args, .. } => expr_atoms(*callee) + args_atoms(args),
    }
}

/// The leaves of a list of expressions, one after another.
pub open spec fn args_atoms(es: Seq<ExprModel>) -> Seq<Atom>
    decreases es, 0nat,
{
    if es.len() == 0 {
        Seq::empty()
    } else {
        let n = es.len() - 1;
        args_atoms(es.subrange(0, n)) + expr_atoms(es[n])
    }
}

proof fn lemma_atoms_split(t: Seq<Token>, a: int, b: int, c: int)
    requires
        a <= b <= c,
    ensures
        token_atoms(t, a, c) == token_atoms(t, a, b) + token_atoms(t, b, c),
    decreases b - a,
{
    if a < b {
        lemma_atoms_split(t, a + 1, b, c);
        assert(token_atoms(t, a, c) =~= token_atoms(t, a, b) + token_atoms(t, b, c));
    } else {
        assert(token_atoms(t, a, c) =~= token_atoms(t, a, b) + token_atoms(t, b, c));
    }
}

proof fn lemma_one_atom(t: Seq<Token>, a: int)
    ensures
        token_atoms(t, a, a + 1) == token_atom(t[a]),
{
    assert(token_atoms(t, a + 1, a + 1) == Seq::<Atom>::empty());
    assert(token_atoms(t, a, a + 1) == token_atom(t[a]) + token_atoms(t, a + 1, a + 1));
    assert(token_atom(t[a]) + Seq::<Atom>::empty() =~= token_atom(t[a]));
}

/// The tokens `t[a..a+1]` stand for no leaf.
proof fn lemma_no_atom(t: Seq<Token>, a: int)
    requires
        token_atom(t[a]) == Seq::<Atom>::empty(),
    ensures
        token_atoms(t, a, a + 1) == Seq::<Atom>::empty(),
{
    lemma_one_atom(t, a);
}

/// A parse result that, when it is an expression, has the leaves of the
/// tokens from `p` to where the parse stopped.
pub open spec fn leaves_from(t: Seq<Token>, p: int, rs: (Result<ExprModel, PErr>, PState), before: Seq<Atom>) -> bool {
    rs.0 matches Ok(e) ==> p <= rs.1.pos && expr_atoms(e) == before + token_atoms(t, p, rs.1.pos)
}

proof fn lemma_expression_atoms(t: Seq<Token>, s: PState)
    ensures
        leaves_from(t, s.pos, rule_expression(t, s), Seq::empty()),
    decreases t.len() - s.pos, 22nat,
{
    if 0 <= s.pos < t.len() {
        lemma_assignment_atoms(t, s);
    }
}

proof fn lemma_assignment_atoms(t: Seq<Token>, s: PState)
    ensures
        leaves_from(t, s.pos, rule_assignment(t, s), Seq::empty()),
    decreases t.len() - s.pos, 21nat,
{
    if 0 <= s.pos < t.len() {
        lemma_binary_atoms(t, 5, s);
        let (r, s1) = rule_binary(t, 5, s);
        if r is Ok && s.pos <= s1.pos < t.len() && crate::parser::check(t, s1.pos, TokenType::Equal) {
            let s2 = crate::parser::step(s1);
            lemma_assignment_atoms(t, s2);
            let (rv, s3) = rule_assignment(t, s2);
            if rv is Ok {
                lemma_no_atom(t, s1.pos);
                lemma_atoms_split(t, s.pos, s1.pos, s2.pos);
                lemma_atoms_split(t, s.pos, s2.pos, s3.pos);
            }
        }
    }
}

proof fn lemma_binary_atoms(t: Seq<Token>, k: nat, s: PState)
    requires
        k <= 5,
    ensures
        leaves_from(t, s.pos, rule_binary(t, k, s), Seq::empty()),
    decreases t.len() - s.pos, 9 + 2 * k,
{
    if 0 <= s.pos < t.len() {
        let (r, s1) = if k == 0 {
            rule_unary(t, s)
        } else {
            rule_binary(t, (k - 1) as nat, s)
        };
        if k == 0 {
            lemma_unary_atoms(t, s);
        } else {
            lemma_binary_atoms(t, (k - 1) as nat, s);
        }
        if r is Ok && s.pos <= s1.pos < t.len() {
            lemma_binary_tail_atoms(t, k, r->Ok_0, s1);
            let (r2, s2) = rule_binary_tail(t, k, r->Ok_0, s1);
            if r2 is Ok {
                lemma_atoms_split(t, s.pos, s1.pos, s2.pos);
            }
        }
    }
}

proof fn lemma_binary_tail_atoms(t: Seq<Token>, k: nat, left: ExprModel, s: PState)
    requires
        k <= 5,
    ensures
        leaves_from(t, s.pos, rule_binary_tail(t, k, left, s), expr_atoms(left)),
    decreases t.len() - s.pos, 8 + 2 * k,
{
    if 0 <= s.pos < t.len() && !crate::parser::at_end(t, s.pos) && crate::parser::level_has(
        k,
        t[s.pos].token_type,
    ) && s.pos + 1 < t.len() {
        let op = t[s.pos];
        let s0 = crate::parser::step(s);
        let (r, s2) = if k == 0 {
            rule_unary(t, s0)
        } else {
            rule_binary(t, (k - 1) as nat, s0)
        };
        if k == 0 {
            lemma_unary_atoms(t, s0);
        } else {
            lemma_binary_atoms(t, (k - 1) as nat, s0);
        }
        if r is Ok && s.pos < s2.pos < t.len() {
            let joined = crate::parser::combine(k, left, op, r->Ok_0);
            assert(expr_atoms(joined) == expr_atoms(left) + expr_atoms(r->Ok_0));
            lemma_binary_tail_atoms(t, k, joined, s2);
            let (r3, s3) = rule_binary_tail(t, k, joined, s2);
            if r3 is Ok {
                lemma_no_atom(t, s.pos);
                lemma_atoms_split(t, s.pos, s0.pos, s2.pos);
                lemma_atoms_split(t, s.pos, s2.pos, s3.pos);
                assert(expr_atoms(r3->Ok_0) =~= expr_atoms(left) + token_atoms(t, s.pos, s3.pos));
            }
        }
    } else {
        assert(token_atoms(t, s.pos, s.pos) =~= Seq::<Atom>::empty());
        assert(expr_atoms(left) + Seq::<Atom>::empty() =~= expr_atoms(left));
    }
}

proof fn lemma_unary_atoms(t: Seq<Token>, s: PState)
    ensures
        leaves_from(t, s.pos, rule_unary(t, s), Seq::empty()),
    decreases t.len() - s.pos, 6nat,
{
    if 0 <= s.pos < t.len() {
        if crate::parser::check(t, s.pos, TokenType::Bang) || crate::parser::check(t, s.pos, TokenType::Minus) {
            if s.pos + 1 < t.len() {
                let s0 = crate::parser::step(s);
                lemma_unary_atoms(t, s0);
                let (r, s2) = rule_unary(t, s0);
                if r is Ok {
                    lemma_no_atom(t, s.pos);
                    lemma_atoms_split(t, s.pos, s0.pos, s2.pos);
                }
            }
        } else {
            lemma_call_atoms(t, s);
        }
    }
}

proof fn lemma_call_atoms(t: Seq<Token>, s: PState)
    ensures
        leaves_from(t, s.pos, rule_call(t, s), Seq::empty()),
    decreases t.len() - s.pos, 5nat,
{
    if 0 <= s.pos < t.len() {
        lemma_primary_atoms(t, s);
        let (r, s1) = rule_primary(t, s);
        if r is Ok && s.pos <= s1.pos < t.len() {
            lemma_call_tail_atoms(t, r->Ok_0, s1);
            let (r2, s2) = rule_call_tail(t, r->Ok_0, s1);
            if r2 is Ok {
                lemma_atoms_split(t, s.pos, s1.pos, s2.pos);
            }
        }
    }
}

proof fn lemma_call_tail_atoms(t: Seq<Token>, callee: ExprModel, s: PState)
    ensures
        leaves_from(t, s.pos, rule_call_tail(t, callee, s), expr_atoms(callee)),
    decreases t.len() - s.pos, 4nat,
{
    if 0 <= s.pos < t.len() && crate::parser::check(t, s.pos, TokenType::LeftParen) && s.pos + 1
        < t.len() {
        let s0 = crate::parser::step(s);
        lemma_arguments_atoms(t, callee, s0);
        let (r, s2) = rule_arguments(t, callee, s0);
        if r is Ok && s.pos < s2.pos < t.len() {
            lemma_call_tail_atoms(t, r->Ok_0, s2);
            let (r3, s3) = rule_call_tail(t, r->Ok_0, s2);
            if r3 is Ok {
                lemma_no_atom(t, s.pos);
                lemma_atoms_split(t, s.pos, s0.pos, s2.pos);
                lemma_atoms_split(t, s.pos, s2.pos, s3.pos);
                assert(expr_atoms(r3->Ok_0) =~= expr_atoms(callee) + token_atoms(t, s.pos, s3.pos));
            }
        }
    } else {
        assert(token_atoms(t, s.pos, s.pos) =~= Seq::<Atom>::empty());
        assert(expr_atoms(callee) + Seq::<Atom>::empty() =~= expr_atoms(callee));
    }
}

proof fn lemma_arguments_atoms(t: Seq<Token>, callee: ExprModel, s: PState)
    ensures
        leaves_from(t, s.pos, rule_arguments(t, callee, s), expr_atoms(callee)),
    decreases t.len() - s.pos, 24nat,
{
    if 0 <= s.pos < t.len() {
        if crate::parser::check(t, s.pos, TokenType::RightParen) {
            lemma_no_atom(t, s.pos);
            assert(args_atoms(Seq::<ExprModel>::empty()) =~= Seq::<Atom>::empty());
            assert(expr_atoms(callee) + Seq::<Atom>::empty() =~= expr_atoms(callee));
        } else {
            assert(args_atoms(Seq::<ExprModel>::empty()) =~= Seq::<Atom>::empty());
            lemma_argument_list_atoms(t, Seq::empty(), s);
            let (r, s1) = rule_argument_list(t, Seq::empty(), s);
            if r is Ok && s.pos <= s1.pos < t.len() && crate::parser::check(t, s1.pos, TokenType::RightParen) {
                lemma_no_atom(t, s1.pos);
                lemma_atoms_split(t, s.pos, s1.pos, s1.pos + 1);
                assert(Seq::<Atom>::empty() + token_atoms(t, s.pos, s1.pos) =~= token_atoms(t, s.pos, s1.pos));
                assert(token_atoms(t, s.pos, s1.pos) + Seq::<Atom>::empty() =~= token_atoms(t, s.pos, s1.pos));
            }
        }
    }
}

proof fn lemma_argument_list_atoms(t: Seq<Token>, args: Seq<ExprModel>, s: PState)
    ensures
        rule_argument_list(t, args, s).0 matches Ok(all) ==> s.pos <= rule_argument_list(t, args, s).1.pos
            && args_atoms(all) == args_atoms(args) + token_atoms(t, s.pos, rule_argument_list(t, args, s).1.pos),
    decreases t.len() - s.pos, 23nat,
{
    if 0 <= s.pos < t.len() {
        lemma_expression_atoms(t, s);
        let (r, s1) = rule_expression(t, s);
        if r is Ok {
            let more = args.push(r->Ok_0);
            assert(more.subrange(0, args.len() as int) =~= args);
            assert(args_atoms(more) == args_atoms(args) + expr_atoms(r->Ok_0));
            if s.pos <= s1.pos < t.len() && crate::parser::check(t, s1.pos, TokenType::Comma) {
                let s2 = crate::parser::step(s1);
                if s2.pos < t.len() {
                    lemma_argument_list_atoms(t, more, s2);
                    let (r3, s3) = rule_argument_list(t, more, s2);
                    if r3 is Ok {
                        lemma_no_atom(t, s1.pos);
                        lemma_atoms_split(t, s.pos, s1.pos, s2.pos);
                        lemma_atoms_split(t, s.pos, s2.pos, s3.pos);
                        assert(args_atoms(r3->Ok_0) =~= args_atoms(args) + token_atoms(t, s.pos, s3.pos));
                    }
                }
            } else {
                assert(args_atoms(more) =~= args_atoms(args) + token_atoms(t, s.pos, s1.pos));
            }
        }
    }
}

proof fn lemma_primary_atoms(t: Seq<Token>, s: PState)
    ensures
        leaves_from(t, s.pos, rule_primary(t, s), Seq::empty()),
    decreases t.len() - s.pos, 2nat,
{
    if 0 <= s.pos < t.len() {
        lemma_one_atom(t, s.pos);
        if crate::parser::check(t, s.pos, TokenType::LeftParen) && s.pos + 1 < t.len() {
            let s0 = crate::parser::step(s);
            lemma_expression_atoms(t, s0);
            let (r, s2) = rule_expression(t, s0);
            if r is Ok && 0 <= s2.pos < t.len() && crate::parser::check(t, s2.pos, TokenType::RightParen) {
                lemma_no_atom(t, s.pos);
                lemma_no_atom(t, s2.pos);
                lemma_atoms_split(t, s.pos, s0.pos, s2.pos);
                lemma_atoms_split(t, s.pos, s2.pos, s2.pos + 1);
                assert(Seq::<Atom>::empty() + token_atoms(t, s.pos, s2.pos + 1) =~= token_atoms(t, s0.pos, s2.pos));
            }
        }
    }
}

/// Parsing keeps the operands in their order: the names and literal
/// values an expression is built from, read from left to right, are those
/// of the tokens it was parsed from, in the same order. So `a - b` is `a`
/// less `b`, never `b` less `a`, and no operand is dropped or repeated.
pub proof fn law_parsed_expressions_keep_their_operands(t: Seq<Token>, s: PState)
    ensures
        rule_expression(t, s).0 matches Ok(e) ==> expr_atoms(e) == token_atoms(
            t,
            s.pos,
            rule_expression(t, s).1.pos,
        ),
{
    lemma_expression_atoms(t, s);
    if rule_expression(t, s).0 is Ok {
        assert(Seq::<Atom>::empty() + token_atoms(t, s.pos, rule_expression(t, s).1.pos) =~= token_atoms(
            t,
            s.pos,
            rule_expression(t, s).1.pos,
        ));
    }
}

} // verus!
