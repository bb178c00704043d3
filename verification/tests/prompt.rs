use lib::repl::{update_prompt_state, Prompt};

fn step(indent: usize, in_string: bool, line: &str) -> (usize, bool) {
    let mut indent = indent;
    let mut in_string = in_string;
    update_prompt_state(&mut indent, &mut in_string, line);
    (indent, in_string)
}

#[test]
fn braces_open_and_close_blocks() {
    assert_eq!(step(0, false, "{"), (1, false));
    assert_eq!(step(1, false, "if (x) {"), (2, false));
    assert_eq!(step(2, false, "}"), (1, false));
    assert_eq!(step(0, false, "{ }"), (0, false));
}

#[test]
fn indentation_never_goes_below_zero() {
    assert_eq!(step(0, false, "}}"), (0, false));
    assert_eq!(step(1, false, "} } }"), (0, false));
}

#[test]
fn braces_in_strings_do_not_count() {
    assert_eq!(step(0, false, "print \"{\";"), (0, false));
    assert_eq!(step(0, false, "var s = \"abc"), (0, true));
    assert_eq!(step(0, true, "still { in string\" {"), (1, false));
}

#[test]
fn comments_end_the_line() {
    assert_eq!(step(0, false, "{ // } }"), (1, false));
    assert_eq!(step(0, false, "a / b {"), (1, false));
}

#[test]
fn plain_lines_change_nothing() {
    assert_eq!(step(3, false, "print 1;"), (3, false));
}


#[test]
fn prompt_text_shows_entry_and_depth() {
    let mut p = Prompt::new();
    assert_eq!(p.prompt(), "> ");
    assert_eq!(p.feed("{\n"), None);
    assert_eq!(p.prompt(), "|   ");
    assert_eq!(p.feed("if (x) {\n"), None);
    assert_eq!(p.prompt(), "|     ");
}

#[test]
fn a_complete_line_is_given_back() {
    let mut p = Prompt::new();
    assert_eq!(p.feed("print 1;\n"), Some("print 1;\n".to_string()));
    assert_eq!(p.prompt(), "> ");
}

#[test]
fn blocks_gather_lines_until_closed() {
    let mut p = Prompt::new();
    assert_eq!(p.feed("{\n"), None);
    assert_eq!(p.feed("  var message = \"hello\";\n"), None);
    assert_eq!(p.feed("  print message;\n"), None);
    assert_eq!(
        p.feed("}\n"),
        Some("{\n  var message = \"hello\";\n  print message;\n}\n".to_string())
    );
    assert_eq!(p.indent(), 0);
}

#[test]
fn backslash_continues_the_line() {
    let mut p = Prompt::new();
    assert_eq!(p.feed("1 + \\\n"), None);
    assert_eq!(p.prompt(), "| ");
    assert_eq!(p.feed("2 + \\\r\n"), None);
    assert_eq!(p.feed("3\n"), Some("1 + \n2 + \n3\n".to_string()));
}

#[test]
fn open_strings_continue_the_entry() {
    let mut p = Prompt::new();
    assert_eq!(p.feed("print \"a\n"), None);
    assert_eq!(p.feed("b\";\n"), Some("print \"a\nb\";\n".to_string()));
}

#[test]
fn blank_entries_are_dropped() {
    let mut p = Prompt::new();
    assert_eq!(p.feed("   \n"), None);
    assert_eq!(p.prompt(), "> ");
    assert_eq!(p.feed("\n"), None);
}
