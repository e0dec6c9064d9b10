# carina

A functional infrastructure-management library for `.crn` files, written in
Verus: every executable function in `src/` carries a contract that Verus
proves.

Layout of `src/`:

- `parser/` — lexer, grammar and parser of `.crn` files, with reference
  resolution.
- `resource`, `schema`, `effect`, `plan`, `graph`, `interpreter` — resources,
  attribute types and validation, planned effects, dependency graphs and the
  steps of applying a plan.
- `module`, `module_resolver` — module signatures and the expansion of module
  calls.
- `formatter/` — the formatter behind `carina fmt`: its own grammar with
  trivia, a concrete syntax tree, the layout, and line diffs.
- `lsp/` — semantic tokens, completions and diagnostics for the language
  server.
- `aws/` — AWS schemas, value conversions and the request and state logic of
  the provider; `ec2` holds the EC2 schemas.
- `cli` — what the command-line tool shows and decides (plans, apply and
  destroy sessions, module-call checks).
- `text` — characters, strings and their properties.

`tests/` holds the tests; each file uses the library as a dependency.
