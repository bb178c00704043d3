use lib::callable::{Callable, NativeFunction, NativeKind, Value};
use lib::interpreter::{arity_message, step_limit_error, value_text, Host, Interpreter};
use lib::parser::Parser;
use lib::repl::{run, run_line, Outcome};
use lib::token::Scanner;

/// A host doing IEEE-754 double arithmetic and recording what is printed.
struct TestHost {
    printed: Vec<String>,
}

impl TestHost {
    fn new() -> Self {
        TestHost { printed: Vec::new() }
    }
}

fn num(a: u64) -> f64 {
    f64::from_bits(a)
}

impl Host for TestHost {
    fn number_from_text(&mut self, text: &str) -> u64 {
        text.parse::<f64>().unwrap().to_bits()
    }
    fn add(&mut self, a: u64, b: u64) -> u64 {
        (num(a) + num(b)).to_bits()
    }
    fn subtract(&mut self, a: u64, b: u64) -> u64 {
        (num(a) - num(b)).to_bits()
    }
    fn multiply(&mut self, a: u64, b: u64) -> u64 {
        (num(a) * num(b)).to_bits()
    }
    fn divide(&mut self, a: u64, b: u64) -> u64 {
        (num(a) / num(b)).to_bits()
    }
    fn negate(&mut self, a: u64) -> u64 {
        (-num(a)).to_bits()
    }
    fn equal(&mut self, a: u64, b: u64) -> bool {
        num(a) == num(b)
    }
    fn less(&mut self, a: u64, b: u64) -> bool {
        num(a) < num(b)
    }
    fn less_equal(&mut self, a: u64, b: u64) -> bool {
        num(a) <= num(b)
    }
    fn greater(&mut self, a: u64, b: u64) -> bool {
        num(a) > num(b)
    }
    fn greater_equal(&mut self, a: u64, b: u64) -> bool {
        num(a) >= num(b)
    }
    fn number_text(&mut self, a: u64) -> String {
        format!("{}", num(a))
    }
    fn clock(&mut self) -> u64 {
        1234.5f64.to_bits()
    }
    fn print(&mut self, text: &str) {
        self.printed.push(text.to_string());
    }
}

fn run_program(source: &str) -> (Vec<String>, Outcome) {
    let mut interpreter = Interpreter::new();
    let mut host = TestHost::new();
    let outcome = run(source, &mut interpreter, &mut host);
    (host.printed, outcome)
}

fn output(source: &str) -> Vec<String> {
    let (printed, outcome) = run_program(source);
    match outcome {
        Outcome::Done => printed,
        Outcome::EvalErrors(es) => panic!("evaluation failed: {}", es[0].to_message()),
        Outcome::ParseErrors(es) => panic!("parse failed: {}", es[0].to_message()),
        Outcome::SyntaxErrors(es) => panic!("scan failed: {}", es[0].to_message()),
        Outcome::Value(_) => panic!("unexpected value"),
    }
}

fn eval_errors(source: &str) -> (Vec<String>, Vec<String>) {
    let (printed, outcome) = run_program(source);
    match outcome {
        Outcome::EvalErrors(es) => (printed, es.iter().map(|e| e.to_message()).collect()),
        _ => panic!("expected evaluation errors"),
    }
}

#[test]
fn arithmetic_and_printing() {
    assert_eq!(output("print 1 + 2 * 3;"), vec!["7"]);
    assert_eq!(output("print (1 + 2) * 3;"), vec!["9"]);
    assert_eq!(output("print 10 / 4;"), vec!["2.5"]);
    assert_eq!(output("print -3 - 1;"), vec!["-4"]);
}

#[test]
fn strings_concatenate() {
    assert_eq!(output("print \"foo\" + \"bar\";"), vec!["foobar"]);
}

#[test]
fn comparisons_and_equality() {
    assert_eq!(
        output("print 1 < 2; print 2 <= 1; print 3 > 2; print 3 >= 4; print 1 == 1; print \"a\" != \"a\"; print nil == nil; print 1 == \"1\";"),
        vec!["true", "false", "true", "false", "true", "false", "true", "false"]
    );
}

#[test]
fn truthiness_and_not() {
    assert_eq!(output("print !nil; print !0; print !\"\"; print !false;"), vec!["true", "false", "false", "true"]);
}

#[test]
fn logical_operators_short_circuit() {
    assert_eq!(
        output("var a = 1; false and (a = 2); print a; true or (a = 3); print a; print nil or \"x\"; print 0 and nil;"),
        vec!["1", "1", "x", "nil"]
    );
}

#[test]
fn scoping_example_from_the_readme() {
    let source = "var a = \"global a\";\nvar b = \"global b\";\n{\n  var a = \"inner a\";\n  print a;\n  print b;\n}\nprint a;\n";
    assert_eq!(output(source), vec!["inner a", "global b", "global a"]);
}

#[test]
fn assignment_reaches_enclosing_scope() {
    assert_eq!(output("var a = 1; { a = 2; var a = 5; a = 6; } print a;"), vec!["2"]);
}

#[test]
fn functions_from_the_readme() {
    assert_eq!(output("fun add(a, b) {\n  return a + b;\n}\n\nprint add(2, 3);"), vec!["5"]);
}

#[test]
fn functions_close_over_their_environment() {
    let source = "var message = \"hello\";\n\nfun sayMessage() {\n  print message;\n}\n\nsayMessage();";
    assert_eq!(output(source), vec!["hello"]);
}

#[test]
fn closures_keep_their_own_state() {
    let source = "fun makeCounter() { var i = 0; fun count() { i = i + 1; return i; } return count; }\n\
                  var c = makeCounter(); c(); print c(); var d = makeCounter(); print d(); print c();";
    assert_eq!(output(source), vec!["2", "1", "3"]);
}

#[test]
fn recursion() {
    let source = "fun fib(n) { if (n < 2) return n; return fib(n - 1) + fib(n - 2); } print fib(10);";
    assert_eq!(output(source), vec!["55"]);
}

#[test]
fn function_without_return_gives_nil() {
    assert_eq!(output("fun f() {} print f();"), vec!["nil"]);
}

#[test]
fn printing_functions() {
    assert_eq!(output("fun f() {} print f; print clock;"), vec!["<fn f>", "<native fn>"]);
}

#[test]
fn clock_is_a_native_function() {
    assert_eq!(output("print clock();"), vec!["1234.5"]);
}

#[test]
fn loops_from_the_readme() {
    let source = "for (var i = 0; i < 5; i = i + 1) {\n  if (i == 2) continue;\n  if (i == 4) break;\n  print i;\n}";
    assert_eq!(output(source), vec!["0", "1", "3"]);
}

#[test]
fn while_loop_with_break_and_continue() {
    let source = "var i = 0; while (true) { i = i + 1; if (i < 3) continue; if (i > 5) break; print i; }";
    assert_eq!(output(source), vec!["3", "4", "5"]);
}

#[test]
fn for_loop_variable_is_scoped_to_the_loop() {
    let (_, errors) = eval_errors("for (var i = 0; i < 1; i = i + 1) {} print i;");
    assert_eq!(errors, vec!["Evaluation error on line 1:44 at 'i': Undefined variable."]);
}

#[test]
fn return_leaves_loops_inside_functions() {
    let source = "fun f() { for (var i = 0; ; i = i + 1) { if (i == 3) return i; } } print f();";
    assert_eq!(output(source), vec!["3"]);
}

#[test]
fn if_else() {
    assert_eq!(output("if (1 > 2) print \"a\"; else print \"b\"; if (nil) print \"c\";"), vec!["b"]);
}

#[test]
fn undefined_variable() {
    let (_, errors) = eval_errors("print x;");
    assert_eq!(errors, vec!["Evaluation error on line 1:7 at 'x': Undefined variable."]);
    let (_, errors) = eval_errors("y = 1;");
    assert_eq!(errors, vec!["Evaluation error on line 1:1 at 'y': Undefined variable."]);
}

#[test]
fn operand_type_errors() {
    let (_, errors) = eval_errors("print 1 + \"a\";");
    assert_eq!(errors, vec!["Evaluation error on line 1:9 at '+': Operands must be two numbers or two strings."]);
    let (_, errors) = eval_errors("print \"a\" - 1;");
    assert_eq!(errors, vec!["Evaluation error on line 1:11 at '-': Operands must be numbers."]);
    let (_, errors) = eval_errors("print true < 1;");
    assert_eq!(errors, vec!["Evaluation error on line 1:12 at '<': Operands must be numbers."]);
    let (_, errors) = eval_errors("print -\"a\";");
    assert_eq!(errors, vec!["Evaluation error on line 1:7 at '-': Operand must be a number."]);
}

#[test]
fn calling_errors() {
    let (_, errors) = eval_errors("\"not a function\"();");
    assert_eq!(errors, vec!["Evaluation error on line 1:18 at ')': Can only call functions and classes."]);
    let (_, errors) = eval_errors("fun f(a) {} f(1, 2);");
    assert_eq!(errors, vec!["Evaluation error on line 1:19 at ')': Expected 1 arguments but got 2."]);
    let (_, errors) = eval_errors("clock(1);");
    assert_eq!(errors, vec!["Evaluation error on line 1:8 at ')': Expected 0 arguments but got 1."]);
}

#[test]
fn an_error_stops_only_its_statement() {
    let (printed, errors) = eval_errors("print 1; print x; print 2; print -nil;");
    assert_eq!(printed, vec!["1", "2"]);
    assert_eq!(errors.len(), 2);
}

#[test]
fn state_persists_between_runs() {
    let mut interpreter = Interpreter::new();
    let mut host = TestHost::new();
    assert!(matches!(run("var a = 10;", &mut interpreter, &mut host), Outcome::Done));
    assert!(matches!(run("print a;", &mut interpreter, &mut host), Outcome::Done));
    assert_eq!(host.printed, vec!["10"]);
}

#[test]
fn repl_lines_from_the_readme() {
    let mut interpreter = Interpreter::new();
    let mut host = TestHost::new();
    match run_line("1 + 2", &mut interpreter, &mut host) {
        Outcome::Value(Value::Number(n)) => assert_eq!(f64::from_bits(n), 3.0),
        _ => panic!("expected a value"),
    }
    assert!(matches!(run_line("var a = 10;", &mut interpreter, &mut host), Outcome::Done));
    match run_line("a", &mut interpreter, &mut host) {
        Outcome::Value(Value::Number(n)) => assert_eq!(f64::from_bits(n), 10.0),
        _ => panic!("expected a value"),
    }
    match run_line("a = 20", &mut interpreter, &mut host) {
        Outcome::Value(Value::Number(n)) => assert_eq!(f64::from_bits(n), 20.0),
        _ => panic!("expected a value"),
    }
    match run_line("clock", &mut interpreter, &mut host) {
        Outcome::Value(Value::Callable(Callable::Native(n))) => assert_eq!(n.name, "clock"),
        _ => panic!("expected a value"),
    }
    let block = "{\n  var message = \"hello\";\n  print message;\n}\n";
    assert!(matches!(run_line(block, &mut interpreter, &mut host), Outcome::Done));
    assert_eq!(host.printed, vec!["hello"]);
}

#[test]
fn repl_line_errors() {
    let mut interpreter = Interpreter::new();
    let mut host = TestHost::new();
    match run_line("nope", &mut interpreter, &mut host) {
        Outcome::EvalErrors(es) => {
            assert_eq!(es.len(), 1);
            assert_eq!(es[0].message, "Undefined variable.");
        }
        _ => panic!("expected an evaluation error"),
    }
    assert!(matches!(run_line("print ;", &mut interpreter, &mut host), Outcome::ParseErrors(_)));
    assert!(matches!(run_line("@", &mut interpreter, &mut host), Outcome::SyntaxErrors(_)));
}

#[test]
fn syntax_and_parse_errors_stop_before_running() {
    let (printed, outcome) = run_program("print 1; @");
    assert!(printed.is_empty());
    assert!(matches!(outcome, Outcome::SyntaxErrors(ref es) if es.len() == 1));
    let (printed, outcome) = run_program("print 1; return;");
    assert!(printed.is_empty());
    match outcome {
        Outcome::ParseErrors(es) => assert_eq!(es[0].message, "Can't return from top-level code."),
        _ => panic!("expected parse errors"),
    }
}

#[test]
fn native_functions_can_be_called_directly() {
    let mut interpreter = Interpreter::new();
    let mut host = TestHost::new();
    let clock = NativeFunction { name: "clock".to_string(), arity: 0, kind: NativeKind::Clock };
    match clock.call(&mut interpreter, Vec::new(), &mut host) {
        Ok(Value::Number(n)) => assert_eq!(f64::from_bits(n), 1234.5),
        _ => panic!("expected a number"),
    }
    let c = Callable::Native(clock);
    assert!(matches!(c.call(&mut interpreter, Vec::new(), &mut host), Ok(Value::Number(_))));
}

#[test]
fn break_in_a_function_called_in_a_loop_ends_only_the_call() {
    let source = "var n = 0; while (n < 3) { fun f() { break; } f(); n = n + 1; } print n;";
    assert_eq!(output(source), vec!["3"]);
}

#[test]
fn interpreter_eval_in_the_global_scope() {
    let mut interpreter = Interpreter::new();
    let mut host = TestHost::new();
    assert!(matches!(run("var x = \"v\";", &mut interpreter, &mut host), Outcome::Done));
    let (tokens, errors) = Scanner::new("x + \"w\"").tokenize();
    assert!(errors.is_empty());
    let expr = match Parser::new(&tokens).parse_as_expr() {
        Ok(e) => e,
        Err(_) => panic!("parse failed"),
    };
    match interpreter.eval(&expr, &mut host) {
        Ok(Value::Str(s)) => assert_eq!(s, "vw"),
        _ => panic!("expected a string"),
    }
}

#[test]
fn value_text_of_each_kind() {
    let mut interpreter = Interpreter::new();
    let mut host = TestHost::new();
    assert_eq!(value_text(&Value::Nil, &mut interpreter, &mut host), "nil");
    assert_eq!(value_text(&Value::Bool(true), &mut interpreter, &mut host), "true");
    assert_eq!(value_text(&Value::Bool(false), &mut interpreter, &mut host), "false");
    assert_eq!(value_text(&Value::Str("s".to_string()), &mut interpreter, &mut host), "s");
    assert_eq!(value_text(&Value::Number(2.0f64.to_bits()), &mut interpreter, &mut host), "2");
    assert_eq!(value_text(&Value::Number(0.5f64.to_bits()), &mut interpreter, &mut host), "0.5");
}

#[test]
fn arity_message_text() {
    assert_eq!(arity_message(2, 10), "Expected 2 arguments but got 10.");
}

#[test]
fn step_limit_error_text() {
    assert_eq!(step_limit_error().to_message(), "Evaluation error on line 0:0 at end: Step limit reached.");
}

#[test]
fn operand_errors_replace_inner_errors() {
    let (_, errors) = eval_errors("print (-nil) == 1;");
    assert_eq!(errors, vec!["Evaluation error on line 1:14 at '==': Operands must be of the same type."]);
    let (_, errors) = eval_errors("print !(-nil);");
    assert_eq!(errors, vec!["Evaluation error on line 1:7 at '!': Operand must be a boolean."]);
}

#[test]
fn functions_are_equal_when_name_parameters_and_body_match() {
    assert_eq!(output("fun mk() { fun g(a) { return a; } return g; } print mk() == mk();"), vec!["true"]);
    assert_eq!(output("fun a() {} fun b() {} print a == b; print a == a; print a != b;"), vec!["false", "true", "true"]);
    assert_eq!(output("fun f(x) { print x; } var g = f; fun f(x) { print x; } print g == f;"), vec!["false"]);
    assert_eq!(output("fun f() {} var g = f; fun f() {} print g == f;"), vec!["true"]);
    assert_eq!(output("print clock == clock; fun clock() {} print clock == 1;"), vec!["true", "false"]);
}

#[test]
fn operands_go_to_the_host_in_order() {
    assert_eq!(output("print 7 - 2; print 8 / 2; print 2 < 3; print 3 < 2; print -(1 - 4);"), vec!["5", "4", "true", "false", "3"]);
    assert_eq!(output("print 1 / 0; print 0.1 + 0.2 == 0.3;"), vec!["inf", "false"]);
}

fn eval_in(interpreter: &mut Interpreter, host: &mut TestHost, source: &str) -> Value {
    let (tokens, errors) = Scanner::new(source).tokenize();
    assert!(errors.is_empty());
    let expr = match Parser::new(&tokens).parse_as_expr() {
        Ok(e) => e,
        Err(_) => panic!("parse failed"),
    };
    match interpreter.eval(&expr, host) {
        Ok(v) => v,
        Err(e) => panic!("evaluation failed: {}", e.to_message()),
    }
}

#[test]
fn plain_expressions_leave_variables_alone() {
    let mut interpreter = Interpreter::new();
    let mut host = TestHost::new();
    assert!(matches!(run("var a = 1; var s = \"x\";", &mut interpreter, &mut host), Outcome::Done));
    assert_eq!(eval_in(&mut interpreter, &mut host, "a + 1 < 5 and s + s == \"xx\""), Value::Bool(true));
    assert!(matches!(run("print a; print s;", &mut interpreter, &mut host), Outcome::Done));
    assert_eq!(host.printed, vec!["1", "x"]);
}

#[test]
fn evaluating_twice_gives_the_same_result() {
    let mut interpreter = Interpreter::new();
    let mut host = TestHost::new();
    assert!(matches!(run("var a = 2; var s = \"ab\";", &mut interpreter, &mut host), Outcome::Done));
    for source in ["-a * (a + 0.5) / 4", "s + \"c\"", "a > 1 or nope", "!(a == 2)"] {
        let first = eval_in(&mut interpreter, &mut host, source);
        let second = eval_in(&mut interpreter, &mut host, source);
        assert_eq!(first, second);
    }
}
