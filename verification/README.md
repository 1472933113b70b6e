# quickjs_regex

A JavaScript-compatible regular expression engine that compiles patterns to
the QuickJS regex bytecode format and runs them, written in Verus: every
function of the library carries a contract that Verus proves.

## Layout

- `src/parser.rs`, `src/ast.rs`: ECMAScript pattern syntax to an AST; the
  parser is proved against a recursive-descent specification (`sp_*`) that
  follows it production by production.
- `src/charclass.rs`, `src/unicode_props.rs`: character classes as sorted
  interval lists.
- `src/codegen.rs`, `src/compiler.rs`, `src/bytecode_builder.rs`,
  `src/opcodes.rs`, `src/header.rs`: bytecode generation; the program a
  pattern compiles to is stated exactly.
- `src/interpreter.rs`: a backtracking interpreter whose meaning is the spec
  function `run`. Open alternatives and lookaround frames live on an explicit
  stack, so no depth bound applies. `ExecContext::exec_with_budget` takes a
  step budget from the caller and answers `ResourceLimit` only when that
  budget runs out; `exec` and `lre_exec` run with the full 64-bit counter.
- `src/semantics.rs`: what a pattern matches, stated over the parsed tree as
  the ordered list of backtracking outcomes of each node (`ways`), and the
  proof (`lemma_compiled_pattern_matches`) that the compiled program run by
  the interpreter gives the first of them. It covers every kind of node but
  lookbehinds, with or without case folding; an unbounded repetition only of
  a node that always takes a character.
- `src/bitvm.rs`: a bit-parallel NFA simulation for the byte-level subset of
  the bytecode. A match of `input[s..e]` is a run of the automaton begun at
  `s` that holds its final state after the byte before `e` (`matches_at`);
  `has_match`, `find_match` (leftmost-longest) and `count_matches`
  (non-overlapping) are stated over it.
- `src/passes.rs`, `src/group_names.rs`, `src/emit.rs`, `src/escape.rs`:
  register allocation, the advance-check analysis, group-name lookup,
  emission helpers (characters, ranges, string lists) and escape parsing of
  the bytecode compiler.
- `src/error.rs`: error kinds and their messages.
- `app/`: the error type with `Display` and `std::error::Error`, which the
  verified library cannot implement.
- `tests/`: the test suite.

Verify with `verus src/lib.rs --crate-type lib`.
