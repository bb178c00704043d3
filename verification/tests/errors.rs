use lib::error::{format_token_location, EvalError, ParseError, SyntaxError};
use lib::token::{Token, TokenType};

fn token(token_type: TokenType, lexeme: &str, line: usize, column: usize) -> Token {
    Token { token_type, lexeme: lexeme.to_string(), literal: None, line, column }
}

#[test]
fn location_of_a_token() {
    assert_eq!(format_token_location(&token(TokenType::Identifier, "foo", 2, 5)), "line 2:5 at 'foo'");
    assert_eq!(format_token_location(&token(TokenType::Eof, "", 3, 1)), "line 3:1 at end");
}

#[test]
fn evaluation_error_text() {
    let e = EvalError::new(&token(TokenType::Minus, "-", 1, 4), "Operand must be a number.");
    assert_eq!(e.message, "Operand must be a number.");
    assert_eq!(e.token.lexeme, "-");
    assert_eq!(e.to_message(), "Evaluation error on line 1:4 at '-': Operand must be a number.");
}

#[test]
fn parse_error_text() {
    let e = ParseError::new(&token(TokenType::Eof, "", 7, 2), "Expect expression.");
    assert_eq!(e.to_message(), "Parse error on line 7:2 at end: Expect expression.");
}

#[test]
fn syntax_error_text() {
    let e = SyntaxError::new(1, 2, String::new(), "Unterminated string.");
    assert_eq!(e.lexeme, "");
    assert_eq!(e.message, "Unterminated string.");
    assert_eq!(e.to_message(), "Syntax error on line 1:2: Unterminated string.");
    let e = SyntaxError::new(4, 9, "@".to_string(), "Unexpected character.");
    assert_eq!(e.to_message(), "Syntax error on line 4:9 at '@': Unexpected character.");
}
