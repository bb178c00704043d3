# rlox

A tree-walking interpreter for the Lox language, verified with Verus.

The library (`src/`) holds the scanner, the parser, the lexical
environments and the evaluator, each with contracts that Verus proves:

- `token`: the lexical grammar as spec functions, and a scanner proved to
  produce exactly its tokens and errors.
- `parser`: the grammar as spec rules over token sequences, and a
  recursive-descent parser proved to follow them, error recovery included.
- `scoping`: where `return`, `break` and `continue` may stand, and proofs
  that parsed programs respect it and that running them keeps control
  flow inside loops and functions.
- `env`: scopes as a store of maps, with laws such as "a read gives back
  what a write wrote".
- `semantics`: a big-step relation for evaluating expressions and running
  statements, with laws such as "an expression without assignment or call
  changes no variable and is determined by the state and the host's
  answers"; `interpreter` is proved to follow it.
- `repl`: running source text, and the prompt's handling of unfinished
  input.

Numbers are IEEE-754 doubles. Their arithmetic, comparison and printing,
the clock and the program's output are left to a `Host` that the program
running the interpreter provides. The host's methods carry no contract:
floating point and output are outside what the library models. The
interpreter keeps a ghost record of each question it put to the host
with the answer the call returned, and of each line it handed to
`print`; the contracts say which question each operation asks, in which
order, and that its result is the recorded answer. They do not say that
the host's answers are correct IEEE-754 arithmetic, nor that the host
writes the lines it is handed.

Scopes are never freed: memory grows with the number of blocks and calls
run.

`app/` supplies a host and the command-line program (a file runner and
an interactive prompt).
