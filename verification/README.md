# xync

The front end of the Xyn language, with a small evaluator, written in Verus:

- `lexer`, `token`: source text to tokens, with their locations;
- `parser`, `ast`, `scope`: tokens to declarations in a tree of scopes, with
  operator precedence and sign folding;
- `semantic`, `sema_scope`, `types`: scoping rules and type inference with
  unknowns that are bound by use;
- `runtime`: evaluation of checked declarations;
- `diagnostic`: error reports, coloured with the `colored` crate;
- `interner`: numbering of distinct strings.

Every function states its behaviour as a contract over spec functions, and
the laws of each phase are proof functions in its module (`law_*`).
`app/main.rs` lexes a small program and prints its tokens.
