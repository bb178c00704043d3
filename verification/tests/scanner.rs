use lib::error::SyntaxError;
use lib::token::{Literal, Scanner, Token, TokenType};

fn scan(source: &str) -> Vec<Token> {
    let (tokens, errors) = Scanner::new(source).tokenize();
    if !errors.is_empty() {
        panic!("unexpected syntax errors: {}", errors.len());
    }
    tokens
}

fn scan_errors(source: &str) -> Vec<SyntaxError> {
    let (_, errors) = Scanner::new(source).tokenize();
    if errors.is_empty() {
        panic!("expected syntax errors");
    }
    errors
}

fn types(tokens: &[Token]) -> Vec<TokenType> {
    tokens.iter().map(|t| t.token_type).collect()
}

#[test]
fn empty_source_is_only_eof() {
    let tokens = scan("");
    assert_eq!(types(&tokens), vec![TokenType::Eof]);
    assert_eq!(tokens[0].line, 1);
    assert_eq!(tokens[0].column, 1);
    assert_eq!(tokens[0].lexeme, "");
}

#[test]
fn single_and_double_character_operators() {
    let tokens = scan("(){},.-+;*/ ! != = == < <= > >=");
    assert_eq!(
        types(&tokens),
        vec![
            TokenType::LeftParen,
            TokenType::RightParen,
            TokenType::LeftBrace,
            TokenType::RightBrace,
            TokenType::Comma,
            TokenType::Dot,
            TokenType::Minus,
            TokenType::Plus,
            TokenType::Semicolon,
            TokenType::Star,
            TokenType::Slash,
            TokenType::Bang,
            TokenType::BangEqual,
            TokenType::Equal,
            TokenType::EqualEqual,
            TokenType::Less,
            TokenType::LessEqual,
            TokenType::Greater,
            TokenType::GreaterEqual,
            TokenType::Eof,
        ]
    );
    assert_eq!(tokens[12].lexeme, "!=");
}

#[test]
fn keywords_and_identifiers() {
    let tokens = scan("and break class continue else false for fun if nil or print return super this true var while foo _bar");
    assert_eq!(
        types(&tokens),
        vec![
            TokenType::And,
            TokenType::Break,
            TokenType::Class,
            TokenType::Continue,
            TokenType::Else,
            TokenType::False,
            TokenType::For,
            TokenType::Fun,
            TokenType::If,
            TokenType::Nil,
            TokenType::Or,
            TokenType::Print,
            TokenType::Return,
            TokenType::Super,
            TokenType::This,
            TokenType::True,
            TokenType::Var,
            TokenType::While,
            TokenType::Identifier,
            TokenType::Identifier,
            TokenType::Eof,
        ]
    );
    assert_eq!(tokens[19].lexeme, "_bar");
}

#[test]
fn alternative_keyword_spellings() {
    let tokens = scan("let fn struct");
    assert_eq!(
        types(&tokens),
        vec![TokenType::Var, TokenType::Fun, TokenType::Class, TokenType::Eof]
    );
}

#[test]
fn numbers_keep_their_text() {
    let tokens = scan("123 4.5 6.");
    assert_eq!(tokens[0].token_type, TokenType::Number);
    assert_eq!(tokens[0].literal, Some(Literal::Number("123".to_string())));
    assert_eq!(tokens[1].literal, Some(Literal::Number("4.5".to_string())));
    assert_eq!(tokens[2].lexeme, "6");
    assert_eq!(tokens[3].token_type, TokenType::Dot);
}

#[test]
fn strings_carry_their_contents() {
    let tokens = scan("\"hello\" \"a\nb\"");
    assert_eq!(tokens[0].token_type, TokenType::String);
    assert_eq!(tokens[0].lexeme, "\"hello\"");
    assert_eq!(tokens[0].literal, Some(Literal::String("hello".to_string())));
    assert_eq!(tokens[1].literal, Some(Literal::String("a\nb".to_string())));
}

#[test]
fn comments_are_skipped() {
    let tokens = scan("a // comment ( )\nb /* block\n comment */ c");
    assert_eq!(
        types(&tokens),
        vec![TokenType::Identifier, TokenType::Identifier, TokenType::Identifier, TokenType::Eof]
    );
    assert_eq!(tokens[1].line, 2);
    assert_eq!(tokens[2].line, 3);
    assert_eq!(tokens[2].column, 13);
}

#[test]
fn lines_and_columns() {
    let tokens = scan("var x = 1;\n  print x;");
    assert_eq!((tokens[0].line, tokens[0].column), (1, 1));
    assert_eq!((tokens[1].line, tokens[1].column), (1, 5));
    assert_eq!((tokens[3].line, tokens[3].column), (1, 9));
    assert_eq!((tokens[5].line, tokens[5].column), (2, 3));
    assert_eq!((tokens[6].line, tokens[6].column), (2, 9));
}

#[test]
fn eof_stands_where_the_last_lexeme_started() {
    let tokens = scan("a  ");
    let eof = tokens.last().unwrap();
    assert_eq!(eof.token_type, TokenType::Eof);
    assert_eq!((eof.line, eof.column), (1, 3));
}

#[test]
fn unexpected_character_is_reported() {
    let errors = scan_errors("a @ b");
    assert_eq!(errors.len(), 1);
    assert_eq!(errors[0].message, "Unexpected character: @");
    assert_eq!((errors[0].line, errors[0].column), (1, 4));
    assert_eq!(errors[0].to_message(), "Syntax error on line 1:4: Unexpected character: @");
}

#[test]
fn unterminated_string_is_reported() {
    let errors = scan_errors("\"abc");
    assert_eq!(errors.len(), 1);
    assert_eq!(errors[0].message, "Unterminated string.");
    assert_eq!((errors[0].line, errors[0].column), (1, 5));
}

#[test]
fn unterminated_block_comment_is_reported() {
    let errors = scan_errors("/* open");
    assert_eq!(errors.len(), 1);
    assert_eq!(errors[0].message, "Unterminated block comment.");
}

#[test]
fn every_error_is_collected() {
    let errors = scan_errors("# $");
    assert_eq!(errors.len(), 2);
    assert_eq!(errors[0].message, "Unexpected character: #");
    assert_eq!(errors[1].message, "Unexpected character: $");
}

#[test]
fn unicode_letters_start_identifiers() {
    let tokens = scan("été");
    assert_eq!(tokens[0].token_type, TokenType::Identifier);
    assert_eq!(tokens[0].lexeme, "été");
}

#[test]
fn syntax_error_message_with_lexeme() {
    let e = SyntaxError::new(3, 7, "x".to_string(), "Bad.");
    assert_eq!(e.line, 3);
    assert_eq!(e.column, 7);
    assert_eq!(e.to_message(), "Syntax error on line 3:7 at 'x': Bad.");
}

#[test]
fn exactly_one_eof_and_literals_on_numbers_and_strings() {
    for source in ["", "1", "\"s\" 2.5", "var a = \"x\"; // c\n print a;", "/* c */ 7 \"q\""] {
        let tokens = scan(source);
        let eofs = tokens.iter().filter(|t| t.token_type == TokenType::Eof).count();
        assert_eq!(eofs, 1);
        assert_eq!(tokens.last().unwrap().token_type, TokenType::Eof);
        for t in &tokens {
            if t.token_type == TokenType::Number || t.token_type == TokenType::String {
                assert!(t.literal.is_some());
            }
        }
    }
}

#[test]
fn identifiers_continue_with_letters_digits_and_underscores() {
    let tokens = scan("a1b2 _x_9 9a");
    assert_eq!(tokens[0].lexeme, "a1b2");
    assert_eq!(tokens[1].lexeme, "_x_9");
    assert_eq!(tokens[2].token_type, TokenType::Number);
    assert_eq!(tokens[3].lexeme, "a");
}

#[test]
fn scanning_goes_on_after_errors_and_keeps_the_tokens() {
    let (tokens, errors) = Scanner::new("1 @ 2").tokenize();
    assert_eq!(types(&tokens), vec![TokenType::Number, TokenType::Number, TokenType::Eof]);
    assert_eq!(errors.len(), 1);
    assert_eq!(errors[0].message, "Unexpected character: @");
    assert_eq!(errors[0].line, 1);
    let (tokens, errors) = Scanner::new("\"abc").tokenize();
    assert_eq!(types(&tokens), vec![TokenType::Eof]);
    assert_eq!(errors[0].message, "Unterminated string.");
    let (tokens, errors) = Scanner::new("/* abc").tokenize();
    assert_eq!(types(&tokens), vec![TokenType::Eof]);
    assert_eq!(errors[0].message, "Unterminated block comment.");
}
