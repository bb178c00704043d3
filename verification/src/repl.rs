//! Running source text, and the prompt's bookkeeping of unfinished input.

use vstd::prelude::*;
use crate::callable::Value;
use crate::error::{EvalError, ParseError, SyntaxError};
use crate::expr::{Expr, ExprModel};
use crate::parser::PErr;
use crate::semantics::{IState, chosen, evals, program_runs};
use crate::stmt::{Stmt, stmts_model};
use crate::interpreter::{Host, Interpreter, lemma_extends_refl};
use crate::parser::{Parser, at_end, parser_ready, perrs_model, rule_expression, rule_program, start_state};
use crate::text::{chars_of, is_whitespace, push_char, string_from_chars, unicode_whitespace};
use crate::token::{
    Scanner,
    Token,
    TokenType,
    errors_model,
    law_scanned_tokens_well_formed,
    scan_errors,
    scan_tokens,
    tokens_model,
};

verus! {

/// What running a piece of source text came to.
pub enum Outcome {
    /// Every statement ran.
    Done,
    /// A bare expression was evaluated to this value.
    Value(Value),
    /// Scanning failed with these errors.
    SyntaxErrors(Vec<SyntaxError>),
    /// Parsing failed with these errors.
    ParseErrors(Vec<ParseError>),
    /// These statements failed while running.
    EvalErrors(Vec<EvalError>),
}

// ---------------------------------------------------------------------
// The prompt's state.
// ---------------------------------------------------------------------

/// Reading `line` from position `i`, inside a string literal or not, with
/// braces so far opened minus closed `delta`: whether the line ends inside
/// a string, and the braces it opened minus those it closed. Braces inside
/// strings and after a `//` comment do not count.
pub open spec fn prompt_scan(line: Seq<char>, i: int, in_string: bool, delta: int) -> (bool, int)
    decreases line.len() - i,
{
    if i < 0 || i >= line.len() {
        (in_string, delta)
    } else {
        let c = line[i];
        if in_string {
            prompt_scan(line, i + 1, c != '"', delta)
        } else if c == '"' {
            prompt_scan(line, i + 1, true, delta)
        } else if c == '/' && i + 1 < line.len() && line[i + 1] == '/' {
            (false, delta)
        } else if c == '{' {
            prompt_scan(line, i + 1, false, delta + 1)
        } else if c == '}' {
            prompt_scan(line, i + 1, false, delta - 1)
        } else {
            prompt_scan(line, i + 1, false, delta)
        }
    }
}

/// The indentation after a line that changed it by `delta`: never below 0.
pub open spec fn next_indent(indent: int, delta: int) -> int {
    if indent + delta < 0 {
        0
    } else {
        indent + delta
    }
}

proof fn lemma_prompt_scan_bounds(line: Seq<char>, i: int, in_string: bool, delta: int)
    requires
        0 <= i <= line.len(),
    ensures
        delta - (line.len() - i) <= prompt_scan(line, i, in_string, delta).1 <= delta + (line.len()
            - i),
    decreases line.len() - i,
{
    if i < line.len() {
        let c = line[i];
        if in_string || c == '"' {
            lemma_prompt_scan_bounds(line, i + 1, if in_string { c != '"' } else { true }, delta);
        } else if c == '/' && i + 1 < line.len() && line[i + 1] == '/' {
        } else if c == '{' {
            lemma_prompt_scan_bounds(line, i + 1, false, delta + 1);
        } else if c == '}' {
            lemma_prompt_scan_bounds(line, i + 1, false, delta - 1);
        } else {
            lemma_prompt_scan_bounds(line, i + 1, false, delta);
        }
    }
}

/// How many times `c` occurs in `line[i..]`.
pub open spec fn occurrences_from(line: Seq<char>, i: int, c: char) -> int
    decreases line.len() - i,
{
    if i < 0 || i >= line.len() {
        0
    } else {
        (if line[i] == c {
            1int
        } else {
            0int
        }) + occurrences_from(line, i + 1, c)
    }
}

proof fn lemma_braces_from(line: Seq<char>, i: int, delta: int)
    requires
        0 <= i <= line.len(),
        forall|k: int| 0 <= k < line.len() ==> #[trigger] line[k] != '"' && line[k] != '/',
    ensures
        prompt_scan(line, i, false, delta) == (false, delta + occurrences_from(line, i, '{')
            - occurrences_from(line, i, '}')),
    decreases line.len() - i,
{
    if i < line.len() {
        let c = line[i];
        assert(c != '"' && c != '/');
        if c == '{' {
            lemma_braces_from(line, i + 1, delta + 1);
        } else if c == '}' {
            lemma_braces_from(line, i + 1, delta - 1);
        } else {
            lemma_braces_from(line, i + 1, delta);
        }
    }
}

/// Outside strings and comments, each `{` on a line opens a block and
/// each `}` closes one, however many there are: on a line with no quote
/// and no slash, the change in open blocks is the number of `{` less the
/// number of `}`, and no string is left open.
pub proof fn law_each_brace_counts(line: Seq<char>)
    requires
        forall|k: int| 0 <= k < line.len() ==> #[trigger] line[k] != '"' && line[k] != '/',
    ensures
        prompt_scan(line, 0, false, 0) == (false, occurrences_from(line, 0, '{') - occurrences_from(
            line,
            0,
            '}',
        )),
{
    lemma_braces_from(line, 0, 0);
}

/// Braces inside a string do not count: a string that opens at `i` and
/// closes at `k` leaves the count as it was, whatever it holds.
pub proof fn law_braces_in_strings_do_not_count(line: Seq<char>, i: int, k: int, delta: int)
    requires
        0 <= i < k < line.len(),
        line[i] == '"',
        line[k] == '"',
        forall|j: int| i < j < k ==> #[trigger] line[j] != '"',
    ensures
        prompt_scan(line, i, false, delta) == prompt_scan(line, k + 1, false, delta),
{
    lemma_string_skipped(line, i + 1, k, delta);
}

proof fn lemma_string_skipped(line: Seq<char>, j: int, k: int, delta: int)
    requires
        0 <= j <= k < line.len(),
        line[k] == '"',
        forall|x: int| j <= x < k ==> #[trigger] line[x] != '"',
    ensures
        prompt_scan(line, j, true, delta) == prompt_scan(line, k + 1, false, delta),
    decreases k - j,
{
    if j < k {
        assert(line[j] != '"');
        lemma_string_skipped(line, j + 1, k, delta);
    }
}

/// A closing brace after the end of a line's code closes one more block,
/// and an opening brace opens one more: appending `}` or `{` to a line
/// that ends outside a string and a comment changes its count by exactly
/// one, whatever the count was.
pub proof fn law_appended_brace_counts_once(line: Seq<char>, in_string: bool)
    requires
        prompt_scan(line, 0, in_string, 0).0 == false,
        forall|k: int| 0 <= k + 1 < line.len() ==> !(#[trigger] line[k] == '/' && line[k + 1] == '/'),
        !(line.len() > 0 && line.last() == '/'),
    ensures
        prompt_scan(line.push('}'), 0, in_string, 0) == (false, prompt_scan(line, 0, in_string, 0).1 - 1),
        prompt_scan(line.push('{'), 0, in_string, 0) == (false, prompt_scan(line, 0, in_string, 0).1 + 1),
{
    lemma_push_brace(line, 0, in_string, 0, '}');
    lemma_push_brace(line, 0, in_string, 0, '{');
}

proof fn lemma_push_brace(line: Seq<char>, i: int, in_string: bool, delta: int, b: char)
    requires
        0 <= i <= line.len(),
        b == '{' || b == '}',
        prompt_scan(line, i, in_string, delta).0 == false,
        forall|k: int| 0 <= k + 1 < line.len() ==> !(#[trigger] line[k] == '/' && line[k + 1] == '/'),
        !(line.len() > 0 && line.last() == '/'),
    ensures
        prompt_scan(line.push(b), i, in_string, delta) == (false, prompt_scan(line, i, in_string, delta).1
            + if b == '{' {
            1int
        } else {
            -1int
        }),
    decreases line.len() - i,
{
    let l2 = line.push(b);
    if i < line.len() {
        let c = line[i];
        assert(l2[i] == c);
        if i + 1 < line.len() {
            assert(l2[i + 1] == line[i + 1]);
        } else {
            assert(l2[i + 1] == b);
        }
        if !in_string && c == '/' && i + 1 < l2.len() && l2[i + 1] == '/' {
            assert(i + 1 < line.len());
            assert(line[i] == '/' && line[i + 1] == '/');
        }
        if in_string {
            lemma_push_brace(line, i + 1, c != '"', delta, b);
        } else if c == '"' {
            lemma_push_brace(line, i + 1, true, delta, b);
        } else if c == '{' {
            lemma_push_brace(line, i + 1, false, delta + 1, b);
        } else if c == '}' {
            lemma_push_brace(line, i + 1, false, delta - 1, b);
        } else {
            lemma_push_brace(line, i + 1, false, delta, b);
        }
    } else {
        assert(l2[i] == b);
        assert(prompt_scan(l2, i + 1, false, delta + if b == '{' { 1int } else { -1int }) == (false, delta + if b
            == '{' {
            1int
        } else {
            -1int
        }));
    }
}

/// Updates the prompt's indentation (open blocks) and whether a string is
/// still open, after the line `line` was read.
pub fn update_prompt_state(indent: &mut usize, in_string: &mut bool, line: &str)
    requires
        *old(indent) + prompt_scan(line@, 0, *old(in_string), 0).1 <= usize::MAX,
    ensures
        *final(in_string) == prompt_scan(line@, 0, *old(in_string), 0).0,
        *final(indent) == next_indent(
            *old(indent) as int,
            prompt_scan(line@, 0, *old(in_string), 0).1,
        ),
{
    let chars = chars_of(line);
    let ghost goal = prompt_scan(line@, 0, *old(in_string), 0);
    let mut opened: usize = 0;
    let mut closed: usize = 0;
    let mut i: usize = 0;
    while i < chars.len()
        invariant
            chars@ == line@,
            i <= chars@.len(),
            opened + closed <= i,
            prompt_scan(line@, i as int, *in_string, opened - closed) == goal,
        ensures
            goal == (*in_string, opened - closed),
        decreases chars@.len() - i,
    {
        let c = chars[i];
        if *in_string {
            if c == '"' {
                *in_string = false;
            }
        } else if c == '"' {
            *in_string = true;
        } else if c == '/' && i + 1 < chars.len() && chars[i + 1] == '/' {
            break;
        } else if c == '{' {
            opened = opened + 1;
        } else if c == '}' {
            closed = closed + 1;
        }
        i = i + 1;
    }
    if opened < closed {
        let down = closed - opened;
        if down >= *indent {
            *indent = 0;
        } else {
            *indent = *indent - down;
        }
    } else {
        *indent = *indent + (opened - closed);
    }
}

/// Where `s[..e]` ends once trailing line breaks (`\r`, `\n`) are cut.
pub open spec fn without_line_breaks(s: Seq<char>, e: int) -> int
    decreases e,
{
    if e > 0 && e <= s.len() && (s[e - 1] == '\r' || s[e - 1] == '\n') {
        without_line_breaks(s, e - 1)
    } else {
        e
    }
}

/// Where `s[..e]` ends once trailing backslashes are cut.
pub open spec fn without_backslashes(s: Seq<char>, e: int) -> int
    decreases e,
{
    if e > 0 && e <= s.len() && s[e - 1] == '\\' {
        without_backslashes(s, e - 1)
    } else {
        e
    }
}

/// Whether a line read at the prompt asks for another: it ends (before its
/// line break) with a backslash.
pub open spec fn line_continues(line: Seq<char>) -> bool {
    let e = without_line_breaks(line, line.len() as int);
    e > 0 && line[e - 1] == '\\'
}

/// The text a line read at the prompt contributes: without its line
/// break, and without the backslashes that continue it.
pub open spec fn line_text(line: Seq<char>) -> Seq<char> {
    let e = without_line_breaks(line, line.len() as int);
    if line_continues(line) {
        line.subrange(0, without_backslashes(line, e))
    } else {
        line.subrange(0, e)
    }
}

/// Whether text is empty or all white space.
pub open spec fn is_blank(s: Seq<char>) -> bool {
    forall|i: int| 0 <= i < s.len() ==> unicode_whitespace(#[trigger] s[i])
}

/// `n` levels of prompt indentation, two spaces each.
pub open spec fn indentation(n: nat) -> Seq<char>
    decreases n,
{
    if n == 0 {
        Seq::empty()
    } else {
        indentation((n - 1) as nat) + "  "@
    }
}

/// The prompt's state between lines: the text of the entry read so far,
/// the blocks it leaves open, and whether it leaves a string open.
pub struct Prompt {
    code: String,
    indent: usize,
    in_string: bool,
}

impl Prompt {
    /// The entry read so far.
    pub closed spec fn code(&self) -> Seq<char> {
        self.code@
    }

    /// How many blocks the entry leaves open.
    pub closed spec fn open_blocks(&self) -> nat {
        self.indent as nat
    }

    /// Whether the entry leaves a string open.
    pub closed spec fn string_open(&self) -> bool {
        self.in_string
    }

    /// A prompt at the start of an entry.
    pub fn new() -> (p: Prompt)
        ensures
            p.code().len() == 0,
            p.open_blocks() == 0,
            !p.string_open(),
    {
        Prompt { code: String::new(), indent: 0, in_string: false }
    }

    /// How many blocks the entry leaves open.
    pub fn indent(&self) -> (r: usize)
        ensures
            r == self.open_blocks(),
    {
        self.indent
    }

    /// The text that asks for the next line: `> ` at the start of an
    /// entry, `| ` within one, then two spaces per open block.
    pub fn prompt(&self) -> (r: String)
        ensures
            r@ == (if self.code().len() == 0 {
                "> "@
            } else {
                "| "@
            }) + indentation(self.open_blocks()),
    {
        let mut r = if self.code.as_str().is_empty() {
            String::from_str("> ")
        } else {
            String::from_str("| ")
        };
        let ghost head = r@;
        let mut i: usize = 0;
        while i < self.indent
            invariant
                i <= self.indent,
                r@ == head + indentation(i as nat),
            decreases self.indent - i,
        {
            r.append("  ");
            i = i + 1;
            assert(r@ =~= head + indentation(i as nat));
        }
        r
    }

    /// Takes one line read at the prompt. The entry goes on while the line
    /// ends with a backslash, a block is open or a string is open; when it
    /// is complete the prompt starts a new one, and the entry is given
    /// back unless it is blank.
    pub fn feed(&mut self, line: &str) -> (r: Option<String>)
        requires
            old(self).open_blocks() + prompt_scan(line_text(line@), 0, old(self).string_open(), 0).1
                <= usize::MAX,
        ensures
            ({
                let text = line_text(line@);
                let entry = old(self).code() + text + "\n"@;
                let (ins, delta) = prompt_scan(text, 0, old(self).string_open(), 0);
                let blocks = next_indent(old(self).open_blocks() as int, delta);
                if line_continues(line@) || blocks > 0 || ins {
                    &&& r is None
                    &&& final(self).code() == entry
                    &&& final(self).open_blocks() == blocks
                    &&& final(self).string_open() == ins
                } else {
                    &&& final(self).code().len() == 0
                    &&& final(self).open_blocks() == 0
                    &&& !final(self).string_open()
                    &&& match r {
                        Some(c) => c@ == entry && !is_blank(entry),
                        None => is_blank(entry),
                    }
                }
            }),
    {
        let chars = chars_of(line);
        let mut end = chars.len();
        while end > 0 && (chars[end - 1] == '\r' || chars[end - 1] == '\n')
            invariant
                chars@ == line@,
                end <= chars@.len(),
                without_line_breaks(line@, end as int) == without_line_breaks(line@, line@.len() as int),
            decreases end,
        {
            end = end - 1;
        }
        let continues = end > 0 && chars[end - 1] == '\\';
        let mut cut = end;
        if continues {
            while cut > 0 && chars[cut - 1] == '\\'
                invariant
                    chars@ == line@,
                    cut <= end <= chars@.len(),
                    without_backslashes(line@, cut as int) == without_backslashes(line@, end as int),
                decreases cut,
            {
                cut = cut - 1;
            }
        }
        let text = string_from_chars(&chars, 0, cut);
        assert(text@ == line_text(line@));
        self.code.append(text.as_str());
        push_char(&mut self.code, '\n');
        proof {
            reveal_strlit("\n");
        }
        assert(self.code@ =~= old(self).code() + text@ + "\n"@);
        update_prompt_state(&mut self.indent, &mut self.in_string, text.as_str());
        if continues || self.indent > 0 || self.in_string {
            return None;
        }
        let code = self.code.clone();
        self.code = String::new();
        self.indent = 0;
        self.in_string = false;
        if blank(code.as_str()) {
            None
        } else {
            Some(code)
        }
    }
}

/// Whether `text` is empty or all white space.
fn blank(text: &str) -> (r: bool)
    ensures
        r == is_blank(text@),
{
    let n = text.unicode_len();
    let mut i: usize = 0;
    while i < n
        invariant
            n == text@.len(),
            i <= n,
            forall|j: int| 0 <= j < i ==> unicode_whitespace(#[trigger] text@[j]),
        decreases n - i,
    {
        if !is_whitespace(text.get_char(i)) {
            assert(!unicode_whitespace(text@[i as int]));
            return false;
        }
        i = i + 1;
    }
    true
}

// ---------------------------------------------------------------------
// Running source text.
// ---------------------------------------------------------------------

/// `ts` are the tokens of `code`, and `ss` the statements they parse to
/// without error.
pub open spec fn program_of(code: Seq<char>, ts: Seq<Token>, ss: Seq<Stmt>) -> bool {
    &&& tokens_model(ts) == scan_tokens(code)
    &&& rule_program(ts, start_state()).0 == stmts_model(ss)
    &&& rule_program(ts, start_state()).1.len() == 0
}

/// `code` parses to a program whose run from `s` reports the errors `errs`
/// and leaves `t`.
pub open spec fn runs_program(code: Seq<char>, s: IState, errs: Seq<EvalError>, t: IState) -> bool {
    exists|ts: Seq<Token>, ss: Seq<Stmt>|
        #[trigger] chosen((ts, ss)) && program_of(code, ts, ss) && program_runs(ss, 0, s, errs, t)
}

/// `code` is a bare expression whose evaluation from `s` gives `r` and
/// leaves `t`.
pub open spec fn evaluates_line(code: Seq<char>, s: IState, r: Result<Value, EvalError>, t: IState) -> bool {
    exists|ts: Seq<Token>, e: Expr|
        #[trigger] chosen((ts, e)) && tokens_model(ts) == scan_tokens(code) && is_bare_expression(ts)
            && rule_expression(ts, start_state()).0 == Ok::<ExprModel, PErr>(e@) && evals(e, s, 0, r, t)
}

/// Tokens scanned from `s`, with their models.
proof fn lemma_scanned_ready(ts: Seq<Token>, s: Seq<char>)
    requires
        tokens_model(ts) == scan_tokens(s),
    ensures
        parser_ready(ts),
{
    law_scanned_tokens_well_formed(s);
    let m = scan_tokens(s);
    assert(ts.len() == m.len());
    assert(ts.last()@ == m.last());
    assert forall|i: int|
        0 <= i < ts.len() && (ts[i].token_type == TokenType::Number || ts[i].token_type
            == TokenType::String) implies (#[trigger] ts[i]).literal is Some by {
        assert(ts[i]@ == m[i]);
        if i < ts.len() - 1 {
            assert(m.drop_last()[i] == m[i]);
        }
    }
}

/// Scans, parses and runs `code` as a program.
pub fn run<H: Host>(code: &str, interpreter: &mut Interpreter, host: &mut H) -> (r: Outcome)
    requires
        old(interpreter).wf(),
        code@.len() < usize::MAX,
    ensures
        final(interpreter).wf(),
        final(interpreter).extends(*old(interpreter)),
        match r {
            Outcome::SyntaxErrors(es) => {
                &&& scan_errors(code@).len() > 0
                &&& errors_model(es@) == scan_errors(code@)
                &&& *final(interpreter) == *old(interpreter)
            },
            Outcome::ParseErrors(es) => {
                &&& scan_errors(code@).len() == 0
                &&& es@.len() > 0
                &&& exists|ts: Seq<Token>|
                    tokens_model(ts) == scan_tokens(code@) && #[trigger] rule_program(
                        ts,
                        start_state(),
                    ).1 == perrs_model(es@)
                &&& *final(interpreter) == *old(interpreter)
            },
            Outcome::Done => {
                &&& scan_errors(code@).len() == 0
                &&& runs_program(code@, old(interpreter).istate(), Seq::empty(), final(interpreter).istate())
            },
            Outcome::EvalErrors(es) => {
                &&& scan_errors(code@).len() == 0
                &&& es@.len() > 0
                &&& runs_program(code@, old(interpreter).istate(), es@, final(interpreter).istate())
            },
            Outcome::Value(_) => false,
        },
{
    proof {
        lemma_extends_refl(*interpreter);
    }
    let scanner = Scanner::new(code);
    let (tokens, errors) = scanner.tokenize();
    if errors.len() > 0 {
        return Outcome::SyntaxErrors(errors);
    }
    proof {
        lemma_scanned_ready(tokens@, code@);
    }
    let parser = Parser::new(tokens.as_slice());
    let stmts = match parser.parse() {
        Ok(ss) => ss,
        Err(es) => {
            return Outcome::ParseErrors(es);
        },
    };
    assert(chosen((tokens@, stmts@)));
    match interpreter.work(&stmts, host) {
        Ok(()) => Outcome::Done,
        Err(es) => Outcome::EvalErrors(es),
    }
}

/// Whether the tokens `ts` are one expression and nothing more.
pub open spec fn is_bare_expression(ts: Seq<Token>) -> bool {
    let (m, s1) = rule_expression(ts, start_state());
    m is Ok && at_end(ts, s1.pos)
}

/// `code` is not a bare expression, and parses to a program whose run
/// from `s` reports the errors `errs` and leaves `t`.
pub open spec fn runs_line_program(code: Seq<char>, s: IState, errs: Seq<EvalError>, t: IState) -> bool {
    exists|ts: Seq<Token>, ss: Seq<Stmt>|
        #[trigger] chosen((ts, ss)) && program_of(code, ts, ss) && !is_bare_expression(ts)
            && program_runs(ss, 0, s, errs, t)
}

/// Runs one entry of the prompt: a bare expression is evaluated and its
/// value given back; anything else runs as a program.
pub fn run_line<H: Host>(code: &str, interpreter: &mut Interpreter, host: &mut H) -> (r: Outcome)
    requires
        old(interpreter).wf(),
        code@.len() < usize::MAX,
    ensures
        final(interpreter).wf(),
        final(interpreter).extends(*old(interpreter)),
        match r {
            Outcome::SyntaxErrors(es) => {
                &&& scan_errors(code@).len() > 0
                &&& errors_model(es@) == scan_errors(code@)
                &&& *final(interpreter) == *old(interpreter)
            },
            Outcome::Value(v) => {
                &&& scan_errors(code@).len() == 0
                &&& evaluates_line(
                    code@,
                    old(interpreter).istate(),
                    Ok(v),
                    final(interpreter).istate(),
                )
            },
            Outcome::ParseErrors(es) => {
                &&& scan_errors(code@).len() == 0
                &&& es@.len() > 0
                &&& exists|ts: Seq<Token>|
                    tokens_model(ts) == scan_tokens(code@) && !is_bare_expression(ts) && #[trigger] rule_program(
                        ts,
                        start_state(),
                    ).1 == perrs_model(es@)
                &&& *final(interpreter) == *old(interpreter)
            },
            Outcome::EvalErrors(es) => {
                &&& scan_errors(code@).len() == 0
                &&& es@.len() > 0
                &&& {
                    ||| es@.len() == 1 && evaluates_line(
                        code@,
                        old(interpreter).istate(),
                        Err(es@[0]),
                        final(interpreter).istate(),
                    )
                    ||| runs_line_program(
                        code@,
                        old(interpreter).istate(),
                        es@,
                        final(interpreter).istate(),
                    )
                }
            },
            Outcome::Done => {
                &&& scan_errors(code@).len() == 0
                &&& runs_line_program(
                    code@,
                    old(interpreter).istate(),
                    Seq::empty(),
                    final(interpreter).istate(),
                )
            },
        },
{
    proof {
        lemma_extends_refl(*interpreter);
    }
    let scanner = Scanner::new(code);
    let (tokens, errors) = scanner.tokenize();
    if errors.len() > 0 {
        return Outcome::SyntaxErrors(errors);
    }
    proof {
        lemma_scanned_ready(tokens@, code@);
    }
    let expression = Parser::new(tokens.as_slice()).parse_as_expr();
    match expression {
        Ok(e) => {
            assert(is_bare_expression(tokens@));
            assert(chosen((tokens@, e)));
            return match interpreter.eval(&e, host) {
                Ok(v) => Outcome::Value(v),
                Err(err) => Outcome::EvalErrors(vec![err]),
            };
        },
        Err(_) => {},
    }
    assert(!is_bare_expression(tokens@));
    let stmts = match Parser::new(tokens.as_slice()).parse() {
        Ok(ss) => ss,
        Err(es) => {
            return Outcome::ParseErrors(es);
        },
    };
    assert(chosen((tokens@, stmts@)));
    match interpreter.work(&stmts, host) {
        Ok(()) => Outcome::Done,
        Err(es) => Outcome::EvalErrors(es),
    }
}

} // verus!
