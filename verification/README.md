# steer

The control unit of agent-driven workflows: a small language (`.steer`), its
lexer and parser, a lowering to a flat instruction list, a stepping
interpreter whose agent operations are rendered as instructions through a
Jinja-like template language, and a validator and simulator for workflows.

The library in `src/` is verified with Verus. Each stage is stated against a
mathematical model of what it computes:

- `lexer`: `tokenize` gives exactly the tokens (or the error) of
  `spec_tokenize`, a function on the source characters.
- `parser`: `parse` gives exactly the statements of `spec_parse`, the grammar
  written as functions on a token state, or exactly its error: the kind and
  the span of the lexical or syntax error that stops it.
- `ir`: `lower` gives the instructions of `spec_lower`, with every jump and
  call target inside the program.
- `value`: `eval` follows `spec_eval`; `template`: `Template::parse` and
  `render` follow `spec_template` and `render_model`.
- `vm`: `step`, `check`, `set_value` and `report_error` follow `spec_run` and
  `spec_check`; the laws of the runtime (a paused run stays paused, a halted
  run is inert, a passed check is consumed, a failed one is retried) are proof
  functions in `vm.rs`.
- `validate` and `simulate` follow `spec_validate` and `spec_simulate`.

`app/` holds the command-line program: argument handling, the instance files
on disk, JSON, and loading template directories. `tests/` holds the tests.
