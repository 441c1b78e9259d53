# Tyto

Tyto is a small language for state machines and a compiler that turns a
machine into code for several target languages (TypeScript, Rust, Mermaid,
Java). This crate is its library, verified with Verus, and the command-line
tool around it.

```text
context { order_id: String }

state Pending {
    on Pay -> Paid;
    on Cancel -> Cancelled;
}

state Paid {
    data { transaction_id: String }
    success on Ship -> Shipped;
    recoverable on Refund -> Cancelled;
}

state Shipped { terminal; }
state Cancelled { terminal; }
```

## The language

```text
program     := item*
item        := "context" block
             | "state" IDENT "{" state_item* "}"
block       := "{" (IDENT ":" TYPE ","?)* "}"
state_item  := "data" block
             | "terminal" ";"
             | ("success" | "recoverable" | "fatal")? "on" IDENT "->" IDENT ";"
```

Blanks and `//` comments separate tokens. A type is `String`, `Int`,
`Float` or `Bool`, followed by any number of `[]` (array) and `?`
(optional) suffixes.

A program compiles when every transition leads to a state that exists, every
state has a transition or is `terminal`, and every state after the first is
the target of some transition.

## Layout

- `src/` — the verified library:
  - `lexer`, `parser`: the grammar above, with a specification of what every
    text means (`spec_parse_dsl`) and a parser proved to follow it;
  - `ast`: the program model and type names;
  - `graph`: the state graph, held in a `petgraph` graph;
  - `validator`: deadlock and orphan findings;
  - `compiler`, `commands`, `config`: what the `compile` and `build`
    commands decide (targets, output directories, file names, formatter
    commands, how each target's outcome is recorded);
  - `error`: errors and their messages;
  - `render`, `roundtrip`: the canonical text of a program and the proof
    that parsing it gives the program back;
  - `text`: string helpers.
- `app/` — the command-line tool: argument parsing, configuration files,
  file output, formatters and terminal output.
- `tests/` — tests of the library.

## Proved properties

- The parser returns exactly the program, syntax error (with line and
  column) or type error that `spec_parse_dsl` gives for its input.
- Piece by piece, a data block is its fields in order (or the error of its
  first bad type name), and a state body is its transitions in order, its
  last data block and its terminal flag, with the first bad data block's
  error (`lemma_data_block_law`, `lemma_state_body_law` and their companions).
- Reading a type's name gives the type back (`lemma_type_text_parses`), a
  text that reads as a type is that type's name (`lemma_parsed_type_text`), and
  reading a program's canonical text gives the program back
  (`lemma_render_parses`).
- The graph is built exactly when every transition leads to an existing
  state (`lemma_graph_built_iff_targets_exist`); for distinct state names the
  validator's findings are the program's deadlocks and orphans
  (`lemma_validation_matches_program`), so a parsed program is accepted
  exactly when it is well formed (`lemma_accepted_iff_well_formed`).
- A text of fewer than `u32::MAX` characters never holds more states or
  transitions than the state graph can index (`lemma_short_text_fits_graph`).
