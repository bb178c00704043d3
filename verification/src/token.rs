//! Tokens of the Lox language and the scanner that produces them.

use vstd::prelude::*;
use crate::error::{SyntaxError, SyntaxErrorModel};
use crate::text::{
    chars_of, is_alphabetic, is_alphanumeric, is_ascii_digit, is_digit, spells, string_from_chars,
    letter, letter_or_digit, push_char,
};

verus! {

/// The kinds of token the scanner produces.
#[derive(Debug, Clone, Copy, PartialEq, Eq, Structural)]
pub enum TokenType {
    // Single-character tokens
    LeftParen,
    RightParen,
    LeftBrace,
    RightBrace,
    Comma,
    Dot,
    Minus,
    Plus,
    Semicolon,
    Slash,
    Star,
    // One or two character tokens
    Bang,
    BangEqual,
    Equal,
    EqualEqual,
    Greater,
    GreaterEqual,
    Less,
    LessEqual,
    // Literals
    Identifier,
    String,
    Number,
    // Keywords
    And,
    Break,
    Class,
    Continue,
    Else,
    False,
    Fun,
    For,
    If,
    Nil,
    Or,
    Print,
    Return,
    Super,
    This,
    True,
    Var,
    While,
    Eof,
}

/// The literal value a token or an expression carries.
///
/// A number is kept as the decimal text it was written with; turning that
/// text into a floating-point value is left to the runtime's number host.
#[derive(Debug, PartialEq)]
pub enum Literal {
    Number(String),
    String(String),
    Bool(bool),
    Nil,
}

impl Clone for Literal {
    fn clone(&self) -> (r: Self)
        ensures
            r == *self,
    {
        match self {
            Literal::Number(s) => Literal::Number(s.clone()),
            Literal::String(s) => Literal::String(s.clone()),
            Literal::Bool(b) => Literal::Bool(*b),
            Literal::Nil => Literal::Nil,
        }
    }
}

/// The mathematical value of a literal: texts as character sequences.
pub enum LiteralModel {
    Number(Seq<char>),
    String(Seq<char>),
    Bool(bool),
    Nil,
}

impl View for Literal {
    type V = LiteralModel;

    open spec fn view(&self) -> LiteralModel {
        match self {
            Literal::Number(s) => LiteralModel::Number(s@),
            Literal::String(s) => LiteralModel::String(s@),
            Literal::Bool(b) => LiteralModel::Bool(*b),
            Literal::Nil => LiteralModel::Nil,
        }
    }
}

/// The mathematical value of a token.
pub struct TokenModel {
    pub token_type: TokenType,
    pub lexeme: Seq<char>,
    pub literal: Option<LiteralModel>,
    pub line: nat,
    pub column: nat,
}

/// A token: its kind, the source text it was scanned from, the literal
/// value it carries (strings and numbers), and where it starts.
#[derive(Debug, PartialEq)]
pub struct Token {
    pub token_type: TokenType,
    pub lexeme: String,
    pub literal: Option<Literal>,
    pub line: usize,
    pub column: usize,
}

impl View for Token {
    type V = TokenModel;

    open spec fn view(&self) -> TokenModel {
        TokenModel {
            token_type: self.token_type,
            lexeme: self.lexeme@,
            literal: match self.literal {
                Some(l) => Some(l@),
                None => None,
            },
            line: self.line as nat,
            column: self.column as nat,
        }
    }
}

impl Clone for Token {
    fn clone(&self) -> (r: Self)
        ensures
            r == *self,
    {
        let literal = match &self.literal {
            Some(l) => Some(l.clone()),
            None => None,
        };
        Token {
            token_type: self.token_type,
            lexeme: self.lexeme.clone(),
            literal,
            line: self.line,
            column: self.column,
        }
    }
}

/// Whether two tokens are the same: kind, text, literal and position.
pub fn same_token(a: &Token, b: &Token) -> (r: bool)
    ensures
        r == (a@ == b@),
{
    if a.token_type != b.token_type || a.line != b.line || a.column != b.column {
        return false;
    }
    if a.lexeme != b.lexeme {
        return false;
    }
    match (&a.literal, &b.literal) {
        (None, None) => true,
        (Some(x), Some(y)) => same_literal(x, y),
        _ => false,
    }
}

/// Whether two literals are the same.
pub fn same_literal(a: &Literal, b: &Literal) -> (r: bool)
    ensures
        r == (a@ == b@),
{
    match (a, b) {
        (Literal::Number(x), Literal::Number(y)) => *x == *y,
        (Literal::String(x), Literal::String(y)) => *x == *y,
        (Literal::Bool(x), Literal::Bool(y)) => *x == *y,
        (Literal::Nil, Literal::Nil) => true,
        _ => false,
    }
}

// ---------------------------------------------------------------------
// The lexical grammar, stated over the source as a sequence of characters.
// ---------------------------------------------------------------------

/// Line and column (both counted from 1) of position `p` of the source.
pub open spec fn line_col(s: Seq<char>, p: int) -> (nat, nat)
    decreases p,
{
    if p <= 0 {
        (1, 1)
    } else {
        let (l, c) = line_col(s, p - 1);
        if s[p - 1] == '\n' {
            (l + 1, 1)
        } else {
            (l, c + 1)
        }
    }
}

/// End of a `//` comment whose text starts at `i`: the next newline, or the end.
pub open spec fn line_comment_end(s: Seq<char>, i: int) -> int
    decreases s.len() - i,
{
    if 0 <= i < s.len() && s[i] != '\n' {
        line_comment_end(s, i + 1)
    } else {
        i
    }
}

/// Where the closing `*/` of a block comment whose text starts at `i`
/// begins, or the end of the source when there is none.
pub open spec fn block_comment_end(s: Seq<char>, i: int) -> int
    decreases s.len() - i,
{
    if 0 <= i < s.len() && !(s[i] == '*' && i + 1 < s.len() && s[i + 1] == '/') {
        block_comment_end(s, i + 1)
    } else {
        i
    }
}

/// Where the closing quote of a string whose text starts at `i` stands, or
/// the end of the source when there is none.
pub open spec fn string_end(s: Seq<char>, i: int) -> int
    decreases s.len() - i,
{
    if 0 <= i < s.len() && s[i] != '"' {
        string_end(s, i + 1)
    } else {
        i
    }
}

/// End of the run of ASCII digits that starts at `i`.
pub open spec fn digits_end(s: Seq<char>, i: int) -> int
    decreases s.len() - i,
{
    if 0 <= i < s.len() && is_digit(s[i]) {
        digits_end(s, i + 1)
    } else {
        i
    }
}

/// End of a number whose first digit stands at `p`: digits, then a
/// fraction only where a digit follows the dot.
pub open spec fn number_end(s: Seq<char>, p: int) -> int {
    let e = digits_end(s, p + 1);
    if e + 1 < s.len() && s[e] == '.' && is_digit(s[e + 1]) {
        digits_end(s, e + 1)
    } else {
        e
    }
}

/// Whether `c` may continue an identifier.
pub open spec fn is_identifier_char(c: char) -> bool {
    letter_or_digit(c) || c == '_'
}

/// End of the run of identifier characters that starts at `i`.
pub open spec fn identifier_end(s: Seq<char>, i: int) -> int
    decreases s.len() - i,
{
    if 0 <= i < s.len() && is_identifier_char(s[i]) {
        identifier_end(s, i + 1)
    } else {
        i
    }
}

/// The kind of token a word is: a keyword's own kind, else an identifier.
pub open spec fn keyword_type(w: Seq<char>) -> TokenType {
    if w == "and"@ {
        TokenType::And
    } else if w == "break"@ {
        TokenType::Break
    } else if w == "class"@ || w == "struct"@ {
        TokenType::Class
    } else if w == "continue"@ {
        TokenType::Continue
    } else if w == "else"@ {
        TokenType::Else
    } else if w == "false"@ {
        TokenType::False
    } else if w == "for"@ {
        TokenType::For
    } else if w == "fun"@ || w == "fn"@ {
        TokenType::Fun
    } else if w == "if"@ {
        TokenType::If
    } else if w == "nil"@ {
        TokenType::Nil
    } else if w == "or"@ {
        TokenType::Or
    } else if w == "print"@ {
        TokenType::Print
    } else if w == "return"@ {
        TokenType::Return
    } else if w == "super"@ {
        TokenType::Super
    } else if w == "this"@ {
        TokenType::This
    } else if w == "true"@ {
        TokenType::True
    } else if w == "var"@ || w == "let"@ {
        TokenType::Var
    } else if w == "while"@ {
        TokenType::While
    } else {
        TokenType::Identifier
    }
}

/// What one lexeme, read from position `p`, yields.
pub enum Lexed {
    /// A token of this kind, without a literal.
    Plain(TokenType),
    /// A token of this kind carrying this literal.
    WithLiteral(TokenType, LiteralModel),
    /// Whitespace or a comment.
    Skip,
    /// An error with this message.
    Error(Seq<char>),
}

/// The kind of the token that a one-character lexeme `c` makes, if any.
pub open spec fn single_char_type(c: char) -> Option<TokenType> {
    if c == '(' {
        Some(TokenType::LeftParen)
    } else if c == ')' {
        Some(TokenType::RightParen)
    } else if c == '{' {
        Some(TokenType::LeftBrace)
    } else if c == '}' {
        Some(TokenType::RightBrace)
    } else if c == ',' {
        Some(TokenType::Comma)
    } else if c == '.' {
        Some(TokenType::Dot)
    } else if c == '-' {
        Some(TokenType::Minus)
    } else if c == '+' {
        Some(TokenType::Plus)
    } else if c == ';' {
        Some(TokenType::Semicolon)
    } else if c == '*' {
        Some(TokenType::Star)
    } else {
        None
    }
}

/// The kinds of the one- and two-character operators that start with `c`
/// (`!`, `=`, `<`, `>`): without and with a following `=`.
pub open spec fn operator_types(c: char) -> Option<(TokenType, TokenType)> {
    if c == '!' {
        Some((TokenType::Bang, TokenType::BangEqual))
    } else if c == '=' {
        Some((TokenType::Equal, TokenType::EqualEqual))
    } else if c == '<' {
        Some((TokenType::Less, TokenType::LessEqual))
    } else if c == '>' {
        Some((TokenType::Greater, TokenType::GreaterEqual))
    } else {
        None
    }
}

/// Whether the character after position `p` is `x`.
pub open spec fn next_is(s: Seq<char>, p: int, x: char) -> bool {
    p + 1 < s.len() && s[p + 1] == x
}

/// The lexeme that starts at `p` (where `p` is within the source): where it
/// ends, and what it yields.
pub open spec fn lex_at(s: Seq<char>, p: int) -> (int, Lexed) {
    let c = s[p];
    if single_char_type(c) is Some {
        (p + 1, Lexed::Plain(single_char_type(c)->0))
    } else if operator_types(c) is Some {
        let (one, two) = operator_types(c)->0;
        if next_is(s, p, '=') {
            (p + 2, Lexed::Plain(two))
        } else {
            (p + 1, Lexed::Plain(one))
        }
    } else if c == '/' {
        if next_is(s, p, '/') {
            (line_comment_end(s, p + 2), Lexed::Skip)
        } else if next_is(s, p, '*') {
            let e = block_comment_end(s, p + 2);
            if e >= s.len() {
                (e, Lexed::Error("Unterminated block comment."@))
            } else {
                (e + 2, Lexed::Skip)
            }
        } else {
            (p + 1, Lexed::Plain(TokenType::Slash))
        }
    } else if c == ' ' || c == '\r' || c == '\t' || c == '\n' {
        (p + 1, Lexed::Skip)
    } else if c == '"' {
        let e = string_end(s, p + 1);
        if e >= s.len() {
            (e, Lexed::Error("Unterminated string."@))
        } else {
            (
                e + 1,
                Lexed::WithLiteral(TokenType::String, LiteralModel::String(s.subrange(p + 1, e))),
            )
        }
    } else if is_digit(c) {
        let e = number_end(s, p);
        (e, Lexed::WithLiteral(TokenType::Number, LiteralModel::Number(s.subrange(p, e))))
    } else if letter(c) || c == '_' {
        let e = identifier_end(s, p + 1);
        (e, Lexed::Plain(keyword_type(s.subrange(p, e))))
    } else {
        (p + 1, Lexed::Error("Unexpected character: "@.push(c)))
    }
}

/// The token a lexeme from `p` to `e` makes, of kind `t` with literal `lit`.
pub open spec fn token_at(
    s: Seq<char>,
    p: int,
    e: int,
    t: TokenType,
    lit: Option<LiteralModel>,
) -> TokenModel {
    TokenModel {
        token_type: t,
        lexeme: s.subrange(p, e),
        literal: lit,
        line: line_col(s, p).0,
        column: line_col(s, p).1,
    }
}

/// The tokens and the errors that scanning from position `p` yields, and
/// where the last lexeme read started (`last` when none is read).
pub open spec fn scan_from(s: Seq<char>, p: int, last: int) -> (
    Seq<TokenModel>,
    Seq<SyntaxErrorModel>,
    int,
)
    decreases s.len() - p,
{
    if p < 0 || p >= s.len() {
        (Seq::empty(), Seq::empty(), last)
    } else {
        let (e, lexed) = lex_at(s, p);
        if e <= p || e > s.len() {
            (Seq::empty(), Seq::empty(), p)
        } else {
            let (ts, es, l) = scan_from(s, e, p);
            match lexed {
                Lexed::Plain(t) => (seq![token_at(s, p, e, t, None)] + ts, es, l),
                Lexed::WithLiteral(t, lit) => (seq![token_at(s, p, e, t, Some(lit))] + ts, es, l),
                Lexed::Skip => (ts, es, l),
                Lexed::Error(m) => (
                    ts,
                    seq![
                        SyntaxErrorModel {
                            line: line_col(s, e).0,
                            column: line_col(s, e).1,
                            lexeme: Seq::empty(),
                            message: m,
                        },
                    ] + es,
                    l,
                ),
            }
        }
    }
}

/// The end-of-input token, placed where the last lexeme read started.
pub open spec fn eof_token(s: Seq<char>, last: int) -> TokenModel {
    TokenModel {
        token_type: TokenType::Eof,
        lexeme: Seq::empty(),
        literal: None,
        line: line_col(s, last).0,
        column: line_col(s, last).1,
    }
}

/// The tokens of a whole source, ending with the end-of-input token.
pub open spec fn scan_tokens(s: Seq<char>) -> Seq<TokenModel> {
    let (ts, es, last) = scan_from(s, 0, 0);
    ts.push(eof_token(s, last))
}

/// The errors found while scanning a whole source, in order.
pub open spec fn scan_errors(s: Seq<char>) -> Seq<SyntaxErrorModel> {
    scan_from(s, 0, 0).1
}

/// The models of a list of tokens.
pub open spec fn tokens_model(ts: Seq<Token>) -> Seq<TokenModel> {
    ts.map_values(|t: Token| t@)
}

/// The models of a list of syntax errors.
pub open spec fn errors_model(es: Seq<SyntaxError>) -> Seq<SyntaxErrorModel> {
    es.map_values(|e: SyntaxError| e@)
}

// ---------------------------------------------------------------------
// Facts about the lexical grammar.
// ---------------------------------------------------------------------

/// Line and column stay small: together at most two more than the position.
pub proof fn lemma_line_col_bounds(s: Seq<char>, p: int)
    requires
        0 <= p <= s.len(),
    ensures
        line_col(s, p).0 >= 1,
        line_col(s, p).1 >= 1,
        line_col(s, p).0 + line_col(s, p).1 <= p + 2,
    decreases p,
{
    if p > 0 {
        lemma_line_col_bounds(s, p - 1);
    }
}

proof fn lemma_line_comment_end(s: Seq<char>, i: int)
    requires
        0 <= i <= s.len(),
    ensures
        i <= line_comment_end(s, i) <= s.len(),
    decreases s.len() - i,
{
    if i < s.len() && s[i] != '\n' {
        lemma_line_comment_end(s, i + 1);
    }
}

proof fn lemma_block_comment_end(s: Seq<char>, i: int)
    requires
        0 <= i <= s.len(),
    ensures
        i <= block_comment_end(s, i) <= s.len(),
        block_comment_end(s, i) < s.len() ==> block_comment_end(s, i) + 2 <= s.len(),
    decreases s.len() - i,
{
    if i < s.len() && !(s[i] == '*' && i + 1 < s.len() && s[i + 1] == '/') {
        lemma_block_comment_end(s, i + 1);
    }
}

proof fn lemma_string_end(s: Seq<char>, i: int)
    requires
        0 <= i <= s.len(),
    ensures
        i <= string_end(s, i) <= s.len(),
    decreases s.len() - i,
{
    if i < s.len() && s[i] != '"' {
        lemma_string_end(s, i + 1);
    }
}

proof fn lemma_digits_end(s: Seq<char>, i: int)
    requires
        0 <= i <= s.len(),
    ensures
        i <= digits_end(s, i) <= s.len(),
    decreases s.len() - i,
{
    if i < s.len() && is_digit(s[i]) {
        lemma_digits_end(s, i + 1);
    }
}

proof fn lemma_identifier_end(s: Seq<char>, i: int)
    requires
        0 <= i <= s.len(),
    ensures
        i <= identifier_end(s, i) <= s.len(),
    decreases s.len() - i,
{
    if i < s.len() && is_identifier_char(s[i]) {
        lemma_identifier_end(s, i + 1);
    }
}

/// Every lexeme is read to a point past its start and within the source.
pub proof fn lemma_lex_at_bounds(s: Seq<char>, p: int)
    requires
        0 <= p < s.len(),
    ensures
        p < lex_at(s, p).0 <= s.len(),
{
    if p + 2 <= s.len() {
        lemma_line_comment_end(s, p + 2);
        lemma_block_comment_end(s, p + 2);
    }
    lemma_string_end(s, p + 1);
    lemma_digits_end(s, p + 1);
    let e = digits_end(s, p + 1);
    if e + 1 < s.len() {
        lemma_digits_end(s, e + 1);
    }
    lemma_identifier_end(s, p + 1);
}

/// No token is the end of input, and every number and string token
/// carries its literal.
pub open spec fn inner_tokens_ok(ts: Seq<TokenModel>) -> bool {
    forall|i: int|
        0 <= i < ts.len() ==> {
            &&& (#[trigger] ts[i]).token_type != TokenType::Eof
            &&& (ts[i].token_type == TokenType::Number || ts[i].token_type == TokenType::String)
                ==> ts[i].literal is Some
        }
}

proof fn lemma_scan_from_tokens_ok(s: Seq<char>, p: int, last: int)
    ensures
        inner_tokens_ok(scan_from(s, p, last).0),
    decreases s.len() - p,
{
    if 0 <= p < s.len() {
        let (e, lexed) = lex_at(s, p);
        if p < e <= s.len() {
            lemma_scan_from_tokens_ok(s, e, p);
            let ts = scan_from(s, e, p).0;
            assert forall|i: int| 0 <= i < scan_from(s, p, last).0.len() implies {
                &&& (#[trigger] scan_from(s, p, last).0[i]).token_type != TokenType::Eof
                &&& (scan_from(s, p, last).0[i].token_type == TokenType::Number
                    || scan_from(s, p, last).0[i].token_type == TokenType::String)
                    ==> scan_from(s, p, last).0[i].literal is Some
            } by {
                match lexed {
                    Lexed::Plain(_) | Lexed::WithLiteral(_, _) => {
                        if i > 0 {
                            assert(scan_from(s, p, last).0[i] == ts[i - 1]);
                        }
                    },
                    _ => {},
                }
            }
        }
    }
}

/// Scanning ends with exactly one end-of-input token, last; and every
/// number and string token carries its literal.
pub proof fn law_scanned_tokens_well_formed(s: Seq<char>)
    ensures
        scan_tokens(s).len() > 0,
        scan_tokens(s).last().token_type == TokenType::Eof,
        inner_tokens_ok(scan_tokens(s).drop_last()),
{
    lemma_scan_from_tokens_ok(s, 0, 0);
    assert(scan_tokens(s).drop_last() =~= scan_from(s, 0, 0).0);
}

proof fn lemma_digits_run(s: Seq<char>, i: int)
    requires
        0 <= i <= s.len(),
    ensures
        i <= digits_end(s, i) <= s.len(),
        forall|k: int| i <= k < digits_end(s, i) ==> '0' <= #[trigger] s[k] <= '9',
        digits_end(s, i) < s.len() ==> !('0' <= s[digits_end(s, i)] <= '9'),
    decreases s.len() - i,
{
    if i < s.len() && is_digit(s[i]) {
        lemma_digits_run(s, i + 1);
    }
}

/// A number is read whole: from its first digit, a number token takes
/// every digit that follows, then a dot and all the digits after it when
/// a digit follows the dot, and nothing more. Its lexeme is digits with at
/// most one dot, which stands between digits; the character after it is
/// no digit, and is a dot followed by a digit only when the lexeme already
/// has its dot. The token's literal is its lexeme.
pub proof fn law_numbers_are_read_whole(s: Seq<char>, p: int)
    requires
        0 <= p < s.len(),
        '0' <= s[p] <= '9',
    ensures
        p < lex_at(s, p).0 <= s.len(),
        lex_at(s, p).1 == Lexed::WithLiteral(
            TokenType::Number,
            LiteralModel::Number(s.subrange(p, lex_at(s, p).0)),
        ),
        forall|i: int| p <= i < lex_at(s, p).0 ==> ('0' <= #[trigger] s[i] <= '9' || s[i] == '.'),
        forall|i: int|
            p <= i < lex_at(s, p).0 && #[trigger] s[i] == '.' ==> p < i && i + 1 < lex_at(s, p).0
                && '0' <= s[i + 1] <= '9' && forall|j: int| p <= j < lex_at(s, p).0 && j != i ==> s[j] != '.',
        '0' <= s[lex_at(s, p).0 - 1] <= '9',
        lex_at(s, p).0 < s.len() ==> !('0' <= s[lex_at(s, p).0] <= '9'),
        (forall|i: int| p <= i < lex_at(s, p).0 ==> #[trigger] s[i] != '.') && lex_at(s, p).0 + 1 < s.len()
            && s[lex_at(s, p).0] == '.' ==> !('0' <= s[lex_at(s, p).0 + 1] <= '9'),
{
    let d = digits_end(s, p + 1);
    lemma_digits_run(s, p + 1);
    let e = lex_at(s, p).0;
    assert(is_digit(s[p]));
    if d + 1 < s.len() && s[d] == '.' && is_digit(s[d + 1]) {
        lemma_digits_run(s, d + 1);
        assert(e == digits_end(s, d + 1));
        assert forall|i: int| p <= i < e && #[trigger] s[i] == '.' implies p < i && i + 1 < e && '0' <= s[i + 1]
            <= '9' && forall|j: int| p <= j < e && j != i ==> s[j] != '.' by {
            if i != d {
                if i == p {
                } else if i < d {
                    assert('0' <= s[i] <= '9');
                } else {
                    assert('0' <= s[i] <= '9');
                }
            }
            assert forall|j: int| p <= j < e && j != i implies s[j] != '.' by {
                if j != p && j < d {
                    assert('0' <= s[j] <= '9');
                } else if j > d {
                    assert('0' <= s[j] <= '9');
                }
            }
        }
        assert(s[d] == '.');
    } else {
        assert(e == d);
        assert forall|i: int| p <= i < e implies #[trigger] s[i] != '.' by {
            if i != p {
                assert('0' <= s[i] <= '9');
            }
        }
    }
}

proof fn lemma_string_run(s: Seq<char>, i: int)
    requires
        0 <= i <= s.len(),
    ensures
        i <= string_end(s, i) <= s.len(),
        forall|k: int| i <= k < string_end(s, i) ==> #[trigger] s[k] != '"',
        string_end(s, i) < s.len() ==> s[string_end(s, i)] == '"',
    decreases s.len() - i,
{
    if i < s.len() && s[i] != '"' {
        lemma_string_run(s, i + 1);
    }
}

/// A string runs from its opening quote to the next quote: its token
/// ends just after that quote, and its literal is the text between the
/// quotes, which holds no quote. With no quote after the opening one, the
/// rest of the source is taken and reported as an unterminated string.
pub proof fn law_strings_end_at_the_next_quote(s: Seq<char>, p: int)
    requires
        0 <= p < s.len(),
        s[p] == '"',
    ensures
        p < lex_at(s, p).0 <= s.len(),
        lex_at(s, p).1 is WithLiteral ==> {
            let e = lex_at(s, p).0;
            &&& s[e - 1] == '"'
            &&& p + 1 <= e - 1
            &&& lex_at(s, p).1 == Lexed::WithLiteral(
                TokenType::String,
                LiteralModel::String(s.subrange(p + 1, e - 1)),
            )
            &&& forall|i: int| p < i < e - 1 ==> #[trigger] s[i] != '"'
        },
        !(lex_at(s, p).1 is WithLiteral) ==> {
            &&& lex_at(s, p).0 == s.len()
            &&& lex_at(s, p).1 == Lexed::Error("Unterminated string."@)
            &&& forall|i: int| p < i < s.len() ==> #[trigger] s[i] != '"'
        },
{
    lemma_string_run(s, p + 1);
}

proof fn lemma_identifier_run(s: Seq<char>, i: int)
    requires
        0 <= i <= s.len(),
    ensures
        i <= identifier_end(s, i) <= s.len(),
        forall|k: int| i <= k < identifier_end(s, i) ==> is_identifier_char(#[trigger] s[k]),
        identifier_end(s, i) < s.len() ==> !is_identifier_char(s[identifier_end(s, i)]),
    decreases s.len() - i,
{
    if i < s.len() && is_identifier_char(s[i]) {
        lemma_identifier_run(s, i + 1);
    }
}

/// A word is read whole: from a letter or `_`, its token takes every
/// letter, digit and `_` that follows, and stops at the first other
/// character; its kind is that of the whole word.
pub proof fn law_words_are_read_whole(s: Seq<char>, p: int)
    requires
        0 <= p < s.len(),
        'a' <= s[p] <= 'z' || 'A' <= s[p] <= 'Z' || s[p] == '_',
    ensures
        p < lex_at(s, p).0 <= s.len(),
        lex_at(s, p).1 == Lexed::Plain(keyword_type(s.subrange(p, lex_at(s, p).0))),
        forall|i: int| p < i < lex_at(s, p).0 ==> is_identifier_char(#[trigger] s[i]),
        lex_at(s, p).0 < s.len() ==> !is_identifier_char(s[lex_at(s, p).0]),
{
    lemma_identifier_run(s, p + 1);
    assert(letter(s[p]) || s[p] == '_');
}

// ---------------------------------------------------------------------
// The scanner.
// ---------------------------------------------------------------------

/// Turns source text into tokens, one lexeme at a time.
pub struct Scanner {
    source: Vec<char>,
    tokens: Vec<Token>,
    errors: Vec<SyntaxError>,
    start: usize,
    current: usize,
    line: usize,
    column: usize,
    start_line: usize,
    start_column: usize,
}

impl Scanner {
    /// The source being scanned, as characters.
    pub closed spec fn source_chars(&self) -> Seq<char> {
        self.source@
    }

    /// Nothing has been scanned yet.
    pub closed spec fn is_fresh(&self) -> bool {
        &&& self.tokens@.len() == 0
        &&& self.errors@.len() == 0
        &&& self.start == 0
        &&& self.current == 0
        &&& self.line == 1
        &&& self.column == 1
        &&& self.start_line == 1
        &&& self.start_column == 1
    }

    closed spec fn inv(&self) -> bool {
        &&& self.source@.len() < usize::MAX
        &&& self.start <= self.current <= self.source@.len()
        &&& self.line == line_col(self.source@, self.current as int).0
        &&& self.column == line_col(self.source@, self.current as int).1
        &&& self.start_line == line_col(self.source@, self.start as int).0
        &&& self.start_column == line_col(self.source@, self.start as int).1
    }

    pub fn new(source: &str) -> (r: Scanner)
        ensures
            r.source_chars() == source@,
            r.is_fresh(),
    {
        Scanner {
            source: chars_of(source),
            tokens: Vec::new(),
            errors: Vec::new(),
            start: 0,
            current: 0,
            line: 1,
            column: 1,
            start_line: 1,
            start_column: 1,
        }
    }

    /// Scans the whole source: the tokens, ending with the end-of-input
    /// token, and every error found, in order. Scanning goes on after an
    /// error; the lexeme in error yields no token.
    pub fn tokenize(self) -> (r: (Vec<Token>, Vec<SyntaxError>))
        requires
            self.is_fresh(),
            self.source_chars().len() < usize::MAX,
        ensures
            tokens_model(r.0@) == scan_tokens(self.source_chars()),
            errors_model(r.1@) == scan_errors(self.source_chars()),
    {
        let mut scanner = self;
        let ghost s = scanner.source@;
        let n = scanner.source.len();
        assert(tokens_model(scanner.tokens@) =~= Seq::<TokenModel>::empty());
        assert(errors_model(scanner.errors@) =~= Seq::<SyntaxErrorModel>::empty());
        while scanner.current < n
            invariant
                scanner.inv(),
                s == scanner.source@,
                n == s.len(),
                tokens_model(scanner.tokens@) + scan_from(s, scanner.current as int, scanner.start as int).0
                    == scan_from(s, 0, 0).0,
                errors_model(scanner.errors@) + scan_from(s, scanner.current as int, scanner.start as int).1
                    == scan_from(s, 0, 0).1,
                scan_from(s, scanner.current as int, scanner.start as int).2 == scan_from(s, 0, 0).2,
            decreases n - scanner.current,
        {
            scanner.start = scanner.current;
            scanner.start_line = scanner.line;
            scanner.start_column = scanner.column;
            let ghost tokens_before = tokens_model(scanner.tokens@);
            let ghost errors_before = errors_model(scanner.errors@);
            proof {
                lemma_lex_at_bounds(s, scanner.current as int);
            }
            scanner.scan_token();
            assert(tokens_model(scanner.tokens@) =~= tokens_before + lexed_tokens(s, scanner.start as int));
            assert(errors_model(scanner.errors@) =~= errors_before + lexed_errors(s, scanner.start as int));
            assert(tokens_model(scanner.tokens@) + scan_from(s, scanner.current as int, scanner.start as int).0
                =~= tokens_before + scan_from(s, scanner.start as int, scanner.start as int).0);
            assert(errors_model(scanner.errors@) + scan_from(s, scanner.current as int, scanner.start as int).1
                =~= errors_before + scan_from(s, scanner.start as int, scanner.start as int).1);
        }
        let ghost last = scanner.start;
        scanner.tokens.push(
            Token {
                token_type: TokenType::Eof,
                lexeme: String::new(),
                literal: None,
                line: scanner.start_line,
                column: scanner.start_column,
            },
        );
        assert(tokens_model(scanner.tokens@) =~= scan_tokens(s));
        (scanner.tokens, scanner.errors)
    }

    /// Reads the lexeme that starts at `start` and records what it yields.
    fn scan_token(&mut self)
        requires
            old(self).inv(),
            old(self).start == old(self).current < old(self).source@.len(),
        ensures
            final(self).inv(),
            final(self).source@ == old(self).source@,
            final(self).start == old(self).start,
            final(self).start_line == old(self).start_line,
            final(self).start_column == old(self).start_column,
            final(self).current == lex_at(old(self).source@, old(self).start as int).0,
            tokens_model(final(self).tokens@) == tokens_model(old(self).tokens@)
                + lexed_tokens(old(self).source@, old(self).start as int),
            errors_model(final(self).errors@) == errors_model(old(self).errors@)
                + lexed_errors(old(self).source@, old(self).start as int),
    {
        let ghost s = self.source@;
        let ghost p = self.start as int;
        let c = self.advance();
        if c == '(' {
            self.add_token(TokenType::LeftParen);
        } else if c == ')' {
            self.add_token(TokenType::RightParen);
        } else if c == '{' {
            self.add_token(TokenType::LeftBrace);
        } else if c == '}' {
            self.add_token(TokenType::RightBrace);
        } else if c == ',' {
            self.add_token(TokenType::Comma);
        } else if c == '.' {
            self.add_token(TokenType::Dot);
        } else if c == '-' {
            self.add_token(TokenType::Minus);
        } else if c == '+' {
            self.add_token(TokenType::Plus);
        } else if c == ';' {
            self.add_token(TokenType::Semicolon);
        } else if c == '*' {
            self.add_token(TokenType::Star);
        } else if c == '!' {
            let t = if self.match_char('=') { TokenType::BangEqual } else { TokenType::Bang };
            self.add_token(t);
        } else if c == '=' {
            let t = if self.match_char('=') { TokenType::EqualEqual } else { TokenType::Equal };
            self.add_token(t);
        } else if c == '<' {
            let t = if self.match_char('=') { TokenType::LessEqual } else { TokenType::Less };
            self.add_token(t);
        } else if c == '>' {
            let t = if self.match_char('=') { TokenType::GreaterEqual } else { TokenType::Greater };
            self.add_token(t);
        } else if c == '/' {
            if self.match_char('/') {
                self.line_comment();
            } else if self.match_char('*') {
                self.block_comment();
            } else {
                self.add_token(TokenType::Slash);
            }
        } else if c == ' ' || c == '\r' || c == '\t' || c == '\n' {
        } else if c == '"' {
            self.string();
        } else if is_ascii_digit(c) {
            self.number();
        } else if is_alphabetic(c) || c == '_' {
            self.identifier();
        } else {
            let mut message = String::from_str("Unexpected character: ");
            push_char(&mut message, c);
            self.syntax_error(message.as_str());
        }
    }

    /// Moves past the current character and returns it.
    fn advance(&mut self) -> (c: char)
        requires
            old(self).inv(),
            old(self).current < old(self).source@.len(),
        ensures
            final(self).inv(),
            final(self).current == old(self).current + 1,
            c == old(self).source@[old(self).current as int],
            final(self).source == old(self).source,
            final(self).tokens == old(self).tokens,
            final(self).errors == old(self).errors,
            final(self).start == old(self).start,
            final(self).start_line == old(self).start_line,
            final(self).start_column == old(self).start_column,
    {
        proof {
            lemma_line_col_bounds(self.source@, self.current as int);
        }
        let c = self.source[self.current];
        self.current = self.current + 1;
        if c == '\n' {
            self.line = self.line + 1;
            self.column = 1;
        } else {
            self.column = self.column + 1;
        }
        c
    }

    /// Whether the current character is `c`.
    fn peek_is(&self, c: char) -> (r: bool)
        ensures
            r == (self.current < self.source@.len() && self.source@[self.current as int] == c),
    {
        self.current < self.source.len() && self.source[self.current] == c
    }

    /// Moves past the current character when it is `expected`.
    fn match_char(&mut self, expected: char) -> (r: bool)
        requires
            old(self).inv(),
        ensures
            final(self).inv(),
            r == (old(self).current < old(self).source@.len()
                && old(self).source@[old(self).current as int] == expected),
            final(self).current == old(self).current + (if r { 1int } else { 0int }),
            final(self).source == old(self).source,
            final(self).tokens == old(self).tokens,
            final(self).errors == old(self).errors,
            final(self).start == old(self).start,
            final(self).start_line == old(self).start_line,
            final(self).start_column == old(self).start_column,
    {
        if !self.peek_is(expected) {
            return false;
        }
        self.advance();
        true
    }

    /// Records a token of kind `t` for the lexeme from `start` to `current`.
    fn add_token(&mut self, t: TokenType)
        requires
            old(self).inv(),
        ensures
            final(self).inv(),
            tokens_model(final(self).tokens@) == tokens_model(old(self).tokens@).push(
                token_at(old(self).source@, old(self).start as int, old(self).current as int, t, None),
            ),
            final(self).source == old(self).source,
            final(self).errors == old(self).errors,
            final(self).start == old(self).start,
            final(self).current == old(self).current,
            final(self).start_line == old(self).start_line,
            final(self).start_column == old(self).start_column,
    {
        let text = string_from_chars(&self.source, self.start, self.current);
        self.tokens.push(
            Token {
                token_type: t,
                lexeme: text,
                literal: None,
                line: self.start_line,
                column: self.start_column,
            },
        );
        assert(tokens_model(self.tokens@) =~= tokens_model(old(self).tokens@).push(
            token_at(old(self).source@, old(self).start as int, old(self).current as int, t, None),
        ));
    }

    /// Records a token of kind `t` carrying `literal` for the lexeme from
    /// `start` to `current`.
    fn add_token_with_literal(&mut self, t: TokenType, literal: Literal)
        requires
            old(self).inv(),
        ensures
            final(self).inv(),
            tokens_model(final(self).tokens@) == tokens_model(old(self).tokens@).push(
                token_at(
                    old(self).source@,
                    old(self).start as int,
                    old(self).current as int,
                    t,
                    Some(literal@),
                ),
            ),
            final(self).source == old(self).source,
            final(self).errors == old(self).errors,
            final(self).start == old(self).start,
            final(self).current == old(self).current,
            final(self).start_line == old(self).start_line,
            final(self).start_column == old(self).start_column,
    {
        let text = string_from_chars(&self.source, self.start, self.current);
        let ghost lit = literal@;
        self.tokens.push(
            Token {
                token_type: t,
                lexeme: text,
                literal: Some(literal),
                line: self.start_line,
                column: self.start_column,
            },
        );
        assert(tokens_model(self.tokens@) =~= tokens_model(old(self).tokens@).push(
            token_at(
                old(self).source@,
                old(self).start as int,
                old(self).current as int,
                t,
                Some(lit),
            ),
        ));
    }

    /// Records an error with `message` at the current position.
    fn syntax_error(&mut self, message: &str)
        requires
            old(self).inv(),
        ensures
            final(self).inv(),
            errors_model(final(self).errors@) == errors_model(old(self).errors@).push(
                SyntaxErrorModel {
                    line: line_col(old(self).source@, old(self).current as int).0,
                    column: line_col(old(self).source@, old(self).current as int).1,
                    lexeme: Seq::empty(),
                    message: message@,
                },
            ),
            final(self).source == old(self).source,
            final(self).tokens == old(self).tokens,
            final(self).start == old(self).start,
            final(self).current == old(self).current,
            final(self).start_line == old(self).start_line,
            final(self).start_column == old(self).start_column,
    {
        let e = SyntaxError::new(self.line, self.column, String::new(), message);
        self.errors.push(e);
        assert(errors_model(self.errors@) =~= errors_model(old(self).errors@).push(
            SyntaxErrorModel {
                line: line_col(old(self).source@, old(self).current as int).0,
                column: line_col(old(self).source@, old(self).current as int).1,
                lexeme: Seq::empty(),
                message: message@,
            },
        ));
    }

    /// Moves to the end of a `//` comment.
    fn line_comment(&mut self)
        requires
            old(self).inv(),
        ensures
            final(self).inv(),
            final(self).current == line_comment_end(old(self).source@, old(self).current as int),
            final(self).source == old(self).source,
            final(self).tokens == old(self).tokens,
            final(self).errors == old(self).errors,
            final(self).start == old(self).start,
            final(self).start_line == old(self).start_line,
            final(self).start_column == old(self).start_column,
    {
        let ghost s = self.source@;
        let ghost i0 = self.current as int;
        while self.current < self.source.len() && self.source[self.current] != '\n'
            invariant
                self.inv(),
                self.source@ == s,
                self.source == old(self).source,
                self.tokens == old(self).tokens,
                self.errors == old(self).errors,
                self.start == old(self).start,
                self.start_line == old(self).start_line,
                self.start_column == old(self).start_column,
                line_comment_end(s, i0) == line_comment_end(s, self.current as int),
            decreases self.source@.len() - self.current,
        {
            self.advance();
        }
    }

    /// Moves past a block comment, or records that it is not closed.
    fn block_comment(&mut self)
        requires
            old(self).inv(),
            old(self).current >= 2,
        ensures
            final(self).inv(),
            ({
                let s = old(self).source@;
                let e = block_comment_end(s, old(self).current as int);
                if e >= s.len() {
                    &&& final(self).current == e
                    &&& errors_model(final(self).errors@) == errors_model(old(self).errors@).push(
                        SyntaxErrorModel {
                            line: line_col(s, e).0,
                            column: line_col(s, e).1,
                            lexeme: Seq::empty(),
                            message: "Unterminated block comment."@,
                        },
                    )
                } else {
                    &&& final(self).current == e + 2
                    &&& final(self).errors == old(self).errors
                }
            }),
            final(self).source == old(self).source,
            final(self).tokens == old(self).tokens,
            final(self).start == old(self).start,
            final(self).start_line == old(self).start_line,
            final(self).start_column == old(self).start_column,
    {
        let ghost s = self.source@;
        let ghost i0 = self.current as int;
        let n = self.source.len();
        while self.current < n && !(self.source[self.current] == '*' && self.current + 1 < n
            && self.source[self.current + 1] == '/')
            invariant
                self.inv(),
                self.source@ == s,
                self.source == old(self).source,
                n == s.len(),
                self.tokens == old(self).tokens,
                self.errors == old(self).errors,
                self.start == old(self).start,
                self.start_line == old(self).start_line,
                self.start_column == old(self).start_column,
                block_comment_end(s, i0) == block_comment_end(s, self.current as int),
            decreases n - self.current,
        {
            self.advance();
        }
        if self.current >= n {
            self.syntax_error("Unterminated block comment.");
            return;
        }
        self.advance();
        self.advance();
    }

    /// Reads the rest of a string literal, or records that it is not closed.
    fn string(&mut self)
        requires
            old(self).inv(),
            old(self).current == old(self).start + 1,
        ensures
            final(self).inv(),
            ({
                let s = old(self).source@;
                let p = old(self).start as int;
                let e = string_end(s, p + 1);
                if e >= s.len() {
                    &&& final(self).current == e
                    &&& final(self).tokens == old(self).tokens
                    &&& errors_model(final(self).errors@) == errors_model(old(self).errors@).push(
                        SyntaxErrorModel {
                            line: line_col(s, e).0,
                            column: line_col(s, e).1,
                            lexeme: Seq::empty(),
                            message: "Unterminated string."@,
                        },
                    )
                } else {
                    &&& final(self).current == e + 1
                    &&& final(self).errors == old(self).errors
                    &&& tokens_model(final(self).tokens@) == tokens_model(old(self).tokens@).push(
                        token_at(
                            s,
                            p,
                            e + 1,
                            TokenType::String,
                            Some(LiteralModel::String(s.subrange(p + 1, e))),
                        ),
                    )
                }
            }),
            final(self).source == old(self).source,
            final(self).start == old(self).start,
            final(self).start_line == old(self).start_line,
            final(self).start_column == old(self).start_column,
    {
        let ghost s = self.source@;
        let ghost i0 = self.current as int;
        let n = self.source.len();
        while self.current < n && self.source[self.current] != '"'
            invariant
                self.inv(),
                self.source@ == s,
                self.source == old(self).source,
                n == s.len(),
                self.tokens == old(self).tokens,
                self.errors == old(self).errors,
                self.start == old(self).start,
                self.start_line == old(self).start_line,
                self.start_column == old(self).start_column,
                i0 <= self.current,
                string_end(s, i0) == string_end(s, self.current as int),
            decreases n - self.current,
        {
            self.advance();
        }
        if self.current >= n {
            self.syntax_error("Unterminated string.");
            return;
        }
        self.advance();
        let value = string_from_chars(&self.source, self.start + 1, self.current - 1);
        self.add_token_with_literal(TokenType::String, Literal::String(value));
    }

    /// Moves past a run of ASCII digits.
    fn digits(&mut self)
        requires
            old(self).inv(),
        ensures
            final(self).inv(),
            final(self).current == digits_end(old(self).source@, old(self).current as int),
            final(self).source == old(self).source,
            final(self).tokens == old(self).tokens,
            final(self).errors == old(self).errors,
            final(self).start == old(self).start,
            final(self).start_line == old(self).start_line,
            final(self).start_column == old(self).start_column,
    {
        let ghost s = self.source@;
        let ghost i0 = self.current as int;
        while self.current < self.source.len() && is_ascii_digit(self.source[self.current])
            invariant
                self.inv(),
                self.source@ == s,
                self.source == old(self).source,
                self.tokens == old(self).tokens,
                self.errors == old(self).errors,
                self.start == old(self).start,
                self.start_line == old(self).start_line,
                self.start_column == old(self).start_column,
                digits_end(s, i0) == digits_end(s, self.current as int),
            decreases self.source@.len() - self.current,
        {
            self.advance();
        }
    }

    /// Reads the rest of a number literal.
    fn number(&mut self)
        requires
            old(self).inv(),
            old(self).current == old(self).start + 1,
        ensures
            final(self).inv(),
            final(self).current == number_end(old(self).source@, old(self).start as int),
            tokens_model(final(self).tokens@) == tokens_model(old(self).tokens@).push(
                token_at(
                    old(self).source@,
                    old(self).start as int,
                    final(self).current as int,
                    TokenType::Number,
                    Some(
                        LiteralModel::Number(
                            old(self).source@.subrange(
                                old(self).start as int,
                                final(self).current as int,
                            ),
                        ),
                    ),
                ),
            ),
            final(self).source == old(self).source,
            final(self).errors == old(self).errors,
            final(self).start == old(self).start,
            final(self).start_line == old(self).start_line,
            final(self).start_column == old(self).start_column,
    {
        self.digits();
        let n = self.source.len();
        if self.current + 1 < n && self.source[self.current] == '.' && is_ascii_digit(
            self.source[self.current + 1],
        ) {
            self.advance();
            self.digits();
        }
        let text = string_from_chars(&self.source, self.start, self.current);
        self.add_token_with_literal(TokenType::Number, Literal::Number(text));
    }

    /// Reads the rest of an identifier or keyword.
    fn identifier(&mut self)
        requires
            old(self).inv(),
            old(self).current == old(self).start + 1,
        ensures
            final(self).inv(),
            ({
                let s = old(self).source@;
                let p = old(self).start as int;
                let e = identifier_end(s, p + 1);
                &&& final(self).current == e
                &&& tokens_model(final(self).tokens@) == tokens_model(old(self).tokens@).push(
                    token_at(s, p, e, keyword_type(s.subrange(p, e)), None),
                )
            }),
            final(self).source == old(self).source,
            final(self).errors == old(self).errors,
            final(self).start == old(self).start,
            final(self).start_line == old(self).start_line,
            final(self).start_column == old(self).start_column,
    {
        let ghost s = self.source@;
        let ghost i0 = self.current as int;
        while self.current < self.source.len() && (is_alphanumeric(self.source[self.current])
            || self.source[self.current] == '_')
            invariant
                self.inv(),
                self.source@ == s,
                self.source == old(self).source,
                self.tokens == old(self).tokens,
                self.errors == old(self).errors,
                self.start == old(self).start,
                self.start_line == old(self).start_line,
                self.start_column == old(self).start_column,
                identifier_end(s, i0) == identifier_end(s, self.current as int),
            decreases self.source@.len() - self.current,
        {
            self.advance();
        }
        let t = keyword_of(&self.source, self.start, self.current);
        self.add_token(t);
    }
}

/// The kind of token the word `chars[from..to]` is.
fn keyword_of(chars: &Vec<char>, from: usize, to: usize) -> (t: TokenType)
    requires
        from <= to <= chars@.len(),
    ensures
        t == keyword_type(chars@.subrange(from as int, to as int)),
{
    if spells(chars, from, to, "and") {
        TokenType::And
    } else if spells(chars, from, to, "break") {
        TokenType::Break
    } else if spells(chars, from, to, "class") || spells(chars, from, to, "struct") {
        TokenType::Class
    } else if spells(chars, from, to, "continue") {
        TokenType::Continue
    } else if spells(chars, from, to, "else") {
        TokenType::Else
    } else if spells(chars, from, to, "false") {
        TokenType::False
    } else if spells(chars, from, to, "for") {
        TokenType::For
    } else if spells(chars, from, to, "fun") || spells(chars, from, to, "fn") {
        TokenType::Fun
    } else if spells(chars, from, to, "if") {
        TokenType::If
    } else if spells(chars, from, to, "nil") {
        TokenType::Nil
    } else if spells(chars, from, to, "or") {
        TokenType::Or
    } else if spells(chars, from, to, "print") {
        TokenType::Print
    } else if spells(chars, from, to, "return") {
        TokenType::Return
    } else if spells(chars, from, to, "super") {
        TokenType::Super
    } else if spells(chars, from, to, "this") {
        TokenType::This
    } else if spells(chars, from, to, "true") {
        TokenType::True
    } else if spells(chars, from, to, "var") || spells(chars, from, to, "let") {
        TokenType::Var
    } else if spells(chars, from, to, "while") {
        TokenType::While
    } else {
        TokenType::Identifier
    }
}

/// The token, if any, that the lexeme at `p` yields.
pub open spec fn lexed_tokens(s: Seq<char>, p: int) -> Seq<TokenModel> {
    let (e, lexed) = lex_at(s, p);
    match lexed {
        Lexed::Plain(t) => seq![token_at(s, p, e, t, None)],
        Lexed::WithLiteral(t, lit) => seq![token_at(s, p, e, t, Some(lit))],
        _ => Seq::empty(),
    }
}

/// The error, if any, that the lexeme at `p` yields.
pub open spec fn lexed_errors(s: Seq<char>, p: int) -> Seq<SyntaxErrorModel> {
    let (e, lexed) = lex_at(s, p);
    match lexed {
        Lexed::Error(m) => seq![
            SyntaxErrorModel {
                line: line_col(s, e).0,
                column: line_col(s, e).1,
                lexeme: Seq::empty(),
                message: m,
            },
        ],
        _ => Seq::empty(),
    }
}

} // verus!
