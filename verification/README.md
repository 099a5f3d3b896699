# rust_analyzer_api

A toy calculator over the tokens of `rustc_lexer`, verified with Verus.

- `src/token.rs`: the call into `rustc_lexer::tokenize` (token kinds carried
  over as `LexKind`), and the verified `classify`, which decides which tokens
  are numbers and operators.
- `src/number.rs`: decimal integer parsing with the rules of `str::parse`.
- `src/toy_calculator.rs`: scanning, the stack of signed terms, the sum, and
  the public entry points `calculator_eval`, `try_calculator_eval`,
  `calculator_eval2` and `try_calculator_eval2`.
- `src/precedence.rs`: the grammar value of an expression and the laws that
  the calculator agrees with it (exactly where it evaluates in `i32`, with or
  without a leading `-`), that joining two expressions (each with or without
  a leading `-`) with `+` adds their values, and that a division by zero is
  refused. The laws speak of the tokens the calculator reads; what
  `rustc_lexer` makes of a text is named, not stated.
- `src/whitespace.rs`: the law that any valid UTF-8 text covered by a
  whitespace token, put in at a token boundary, changes nothing.
- `src/tracing_instrument.rs`: the call chain `f` -> `g`; `app/lib.rs` adds
  its spans, log lines and worker thread.
