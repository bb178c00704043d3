use lib::error::ParseError;
use lib::expr::Expr;
use lib::parser::Parser;
use lib::stmt::Stmt;
use lib::token::{Literal, Scanner, Token, TokenType};

fn tokens(source: &str) -> Vec<Token> {
    let (tokens, errors) = Scanner::new(source).tokenize();
    if !errors.is_empty() {
        panic!("unexpected syntax errors");
    }
    tokens
}

fn parse(source: &str) -> Vec<Stmt> {
    let ts = tokens(source);
    match Parser::new(&ts).parse() {
        Ok(stmts) => stmts,
        Err(errors) => panic!("unexpected parse errors: {}", errors[0].to_message()),
    }
}

fn parse_errors(source: &str) -> Vec<ParseError> {
    let ts = tokens(source);
    match Parser::new(&ts).parse() {
        Ok(_) => panic!("expected parse errors"),
        Err(errors) => errors,
    }
}

fn messages(errors: &[ParseError]) -> Vec<String> {
    errors.iter().map(|e| e.message.clone()).collect()
}

#[test]
fn precedence_of_factor_over_term() {
    let stmts = parse("1 + 2 * 3;");
    assert_eq!(stmts.len(), 1);
    match &stmts[0] {
        Stmt::Expression { expression: Expr::Binary { left, operator, right } } => {
            assert_eq!(operator.token_type, TokenType::Plus);
            assert!(matches!(**left, Expr::Literal { value: Literal::Number(ref n) } if n == "1"));
            match &**right {
                Expr::Binary { operator, .. } => assert_eq!(operator.token_type, TokenType::Star),
                other => panic!("unexpected {:?}", other),
            }
        }
        other => panic!("unexpected {:?}", other),
    }
}

#[test]
fn binary_operators_associate_left() {
    let stmts = parse("1 - 2 - 3;");
    match &stmts[0] {
        Stmt::Expression { expression: Expr::Binary { left, right, .. } } => {
            assert!(matches!(**left, Expr::Binary { .. }));
            assert!(matches!(**right, Expr::Literal { .. }));
        }
        other => panic!("unexpected {:?}", other),
    }
}

#[test]
fn assignment_associates_right() {
    let stmts = parse("a = b = 1;");
    match &stmts[0] {
        Stmt::Expression { expression: Expr::Assign { name, value } } => {
            assert_eq!(name.lexeme, "a");
            assert!(matches!(**value, Expr::Assign { .. }));
        }
        other => panic!("unexpected {:?}", other),
    }
}

#[test]
fn logical_operators_and_calls() {
    let stmts = parse("f(1, 2)(3) or x and y;");
    match &stmts[0] {
        Stmt::Expression { expression: Expr::Logical { left, operator, right } } => {
            assert_eq!(operator.token_type, TokenType::Or);
            match &**left {
                Expr::Call { callee, args, rparen } => {
                    assert_eq!(args.len(), 1);
                    assert_eq!(rparen.token_type, TokenType::RightParen);
                    assert!(matches!(**callee, Expr::Call { ref args, .. } if args.len() == 2));
                }
                other => panic!("unexpected {:?}", other),
            }
            assert!(matches!(**right, Expr::Logical { .. }));
        }
        other => panic!("unexpected {:?}", other),
    }
}

#[test]
fn declarations_and_statements() {
    let stmts = parse(
        "var a = 1; var b; fun f(x, y) { return x; } { print a; } if (a) print 1; else print 2; while (false) {}",
    );
    assert_eq!(stmts.len(), 6);
    assert!(matches!(stmts[0], Stmt::Var { .. }));
    match &stmts[1] {
        Stmt::Var { initializer: Expr::Literal { value: Literal::Nil }, .. } => {}
        other => panic!("unexpected {:?}", other),
    }
    match &stmts[2] {
        Stmt::Function { name, params, body } => {
            assert_eq!(name.lexeme, "f");
            assert_eq!(params.len(), 2);
            assert_eq!(params[1].lexeme, "y");
            assert!(matches!(body[0], Stmt::Return { .. }));
        }
        other => panic!("unexpected {:?}", other),
    }
    assert!(matches!(stmts[3], Stmt::Block { .. }));
    assert!(matches!(stmts[4], Stmt::If { else_branch: Some(_), .. }));
    assert!(matches!(stmts[5], Stmt::While { .. }));
}

#[test]
fn for_loop_clauses() {
    let stmts = parse("for (var i = 0; i < 3; i = i + 1) print i; for (;;) break;");
    match &stmts[0] {
        Stmt::For { initializer: Some(init), increment: Some(_), .. } => {
            assert!(matches!(**init, Stmt::Var { .. }));
        }
        other => panic!("unexpected {:?}", other),
    }
    match &stmts[1] {
        Stmt::For {
            initializer: None,
            condition: Expr::Literal { value: Literal::Bool(true) },
            increment: None,
            body,
        } => assert!(matches!(**body, Stmt::Break { .. })),
        other => panic!("unexpected {:?}", other),
    }
}

#[test]
fn bare_return_gives_nil() {
    let stmts = parse("fun f() { return; }");
    match &stmts[0] {
        Stmt::Function { body, .. } => match &body[0] {
            Stmt::Return { value: Expr::Literal { value: Literal::Nil }, keyword } => {
                assert_eq!(keyword.token_type, TokenType::Return)
            }
            other => panic!("unexpected {:?}", other),
        },
        other => panic!("unexpected {:?}", other),
    }
}

#[test]
fn top_level_return_is_refused() {
    let errors = parse_errors("return 1;");
    assert_eq!(messages(&errors), vec!["Can't return from top-level code."]);
    assert_eq!(errors[0].token.token_type, TokenType::Return);
    assert_eq!(
        errors[0].to_message(),
        "Parse error on line 1:1 at 'return': Can't return from top-level code."
    );
}

#[test]
fn loop_control_outside_a_loop_is_refused() {
    let errors = parse_errors("break; continue;");
    assert_eq!(
        messages(&errors),
        vec!["Can't use 'break' outside of a loop.", "Can't use 'continue' outside of a loop."]
    );
}

#[test]
fn loop_control_inside_loops_is_accepted() {
    let stmts = parse("while (true) { if (x) break; continue; }");
    assert_eq!(stmts.len(), 1);
}

#[test]
fn missing_semicolon_reports_at_end() {
    let errors = parse_errors("print 1");
    assert_eq!(messages(&errors), vec!["Expect ';' after value."]);
    assert_eq!(errors[0].token.token_type, TokenType::Eof);
    assert_eq!(errors[0].to_message(), "Parse error on line 1:7 at end: Expect ';' after value.");
}

#[test]
fn invalid_assignment_target() {
    let errors = parse_errors("1 = 2;");
    assert_eq!(messages(&errors), vec!["Invalid assignment target."]);
    assert_eq!(errors[0].token.lexeme, "=");
}

#[test]
fn missing_expression() {
    let errors = parse_errors("var a = ;");
    assert_eq!(messages(&errors), vec!["Expect expression."]);
}

#[test]
fn recovery_reports_every_error() {
    let errors = parse_errors("var = 1; print 2; var 3;");
    assert_eq!(messages(&errors), vec!["Expect variable name.", "Expect variable name."]);
}

#[test]
fn unclosed_block() {
    let errors = parse_errors("{ print 1;");
    assert_eq!(messages(&errors), vec!["Expect '}' after block."]);
}

#[test]
fn function_syntax_errors() {
    assert_eq!(messages(&parse_errors("fun (a) {}")), vec!["Expect function name."]);
    assert_eq!(messages(&parse_errors("fun f a {}")), vec!["Expect '(' after function name."]);
    assert_eq!(messages(&parse_errors("fun f(1) {}")), vec!["Expect parameter name."]);
    assert_eq!(messages(&parse_errors("fun f(a {}")), vec!["Expect ')' after parameters."]);
    assert_eq!(messages(&parse_errors("fun f(a) print a;")), vec!["Expect '{' before function body."]);
}

#[test]
fn for_syntax_errors() {
    assert_eq!(messages(&parse_errors("for i;")), vec!["Expect '(' after 'for'."]);
    assert_eq!(messages(&parse_errors("for (;; i = 1 {}")), vec!["Expect ')' after for clauses."]);
    assert_eq!(messages(&parse_errors("for (; true {}")), vec!["Expect ';' after loop condition."]);
}

#[test]
fn call_and_grouping_errors() {
    assert_eq!(messages(&parse_errors("f(1;")), vec!["Expect ')' after arguments."]);
    assert_eq!(messages(&parse_errors("(1;")), vec!["Expect ')' after expression."]);
}

fn call_with_arguments(n: usize) -> String {
    let mut source = String::from("f(");
    for i in 0..n {
        if i > 0 {
            source.push_str(", ");
        }
        source.push('1');
    }
    source.push_str(");");
    source
}

#[test]
fn too_many_arguments() {
    let errors = parse_errors(&call_with_arguments(256));
    assert_eq!(messages(&errors), vec!["Can't have more than 255 arguments."]);
    assert_eq!(parse(&call_with_arguments(255)).len(), 1);
}

#[test]
fn parse_as_expr_takes_one_whole_expression() {
    let ts = tokens("1 + 2");
    assert!(matches!(Parser::new(&ts).parse_as_expr(), Ok(Expr::Binary { .. })));
    let ts = tokens("1 + 2;");
    match Parser::new(&ts).parse_as_expr() {
        Err(e) => {
            assert_eq!(e.message, "Expect end after expression.");
            assert_eq!(e.token.token_type, TokenType::Semicolon);
        }
        Ok(_) => panic!("expected an error"),
    }
}

#[test]
fn function_bodies_inside_loops_count_as_inside_the_loop() {
    assert_eq!(parse("while (true) { fun f() { break; } }").len(), 1);
    assert_eq!(
        messages(&parse_errors("fun f() { break; }")),
        vec!["Can't use 'break' outside of a loop.", "Expect expression."]
    );
}

#[test]
fn return_inside_nested_blocks_of_a_function() {
    assert_eq!(parse("fun f() { { if (true) { while (false) return 1; } } }").len(), 1);
}

#[test]
fn return_after_a_function_is_top_level_again() {
    assert_eq!(messages(&parse_errors("fun f() { return 1; } return 2;")), vec!["Can't return from top-level code."]);
}

#[test]
fn missing_semicolons_after_each_statement_kind() {
    assert_eq!(messages(&parse_errors("while (true) break")), vec!["Expect ';' after 'break'."]);
    assert_eq!(messages(&parse_errors("while (true) continue")), vec!["Expect ';' after 'continue'."]);
    assert_eq!(messages(&parse_errors("fun f() { return 1 }")), vec!["Expect ';' after return value."]);
    assert_eq!(messages(&parse_errors("var a = 1")), vec!["Expect ';' after variable declaration."]);
    assert_eq!(messages(&parse_errors("a")), vec!["Expect ';' after expression."]);
}

#[test]
fn too_many_parameters() {
    let mut source = String::from("fun f(");
    for i in 0..256 {
        if i > 0 {
            source.push_str(", ");
        }
        source.push_str(&format!("p{}", i));
    }
    source.push_str(") {}");
    let errors = parse_errors(&source);
    assert_eq!(errors[0].message, "Can't have more than 255 parameters.");
}

#[test]
fn recovery_returns_to_the_top_level() {
    let errors = parse_errors("fun f() { 1 = 2; } return 1;");
    assert_eq!(
        messages(&errors),
        vec!["Invalid assignment target.", "Expect expression.", "Can't return from top-level code."]
    );
    assert_eq!((errors[2].token.line, errors[2].token.column), (1, 20));
    let errors = parse_errors("while (true) { 1 = 2; } print 1; break;");
    assert_eq!(errors.last().unwrap().message, "Can't use 'break' outside of a loop.");
}
