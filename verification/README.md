# lm_lang

The front end of the LM programming language — lexer, parser, type checker
and editor analysis — written in Verus. Every function of `src/` is
verified against its contract. How much a contract says varies: the lexer,
rendering, unification, effect and exhaustiveness checks are specified
exactly. The parser's contract gives the declarations and diagnostics of a
whole program, with its error recovery, for expressions of every form
(`let`, `if`, `match` and blocks nested anywhere included); it is stated
for the token streams on which its specification, read position by
position, gives a result. The type checker's contracts give the exact
types and E0200/E0206 reports of expressions built from literals, names of
builtin types, operators, blocks, `if`, `let` and `match` (on values of
builtin types, with literal, name and `_` patterns), including function
bodies checked against declared return types without type variables; the
effect and exhaustiveness diagnostics; and the form of the other inferred
types. For a whole program, the inference reports are stated exactly when
every declaration is a type definition whose fields are builtin types, a
`let` of such an expression (without annotation or annotated with a
builtin type), or a function whose parameters and return type are
annotated with builtin types and whose body is such an expression; not
every inference error of other programs.

- `src/` — the verified library:
  - `diagnostics`, `render`: spans, diagnostics, bags, and their rendering
    in the rustc style (with and without colour).
  - `lexer`, `literals`: the lexer, specified token by token by `lex_from`,
    and the reading of integer and string literals.
  - `ast`, `parser`: the syntax tree and the Pratt parser with error
    recovery.
  - `types`, `unify`, `namemap`, `env`, `infer`, `effects`,
    `exhaustiveness`: Hindley–Milner inference over a unification table,
    the effect check (pure functions may not call io functions) and the
    exhaustiveness check of `match`.
  - `line_index`, `convert`, `analysis`: editor positions (UTF-16 columns),
    published diagnostics, document outline, hover texts and
    go-to-definition links.
  - `runtime`: the builtin names and runtime errors of the evaluator.
- `app/` — the `lmc` command line (`tokenize`, and `lsp` for the language
  server), JSON output, the `tower-lsp` server and the tree-walking
  evaluator, whose values hold floating-point numbers.
- `tests/` — tests of the library.
