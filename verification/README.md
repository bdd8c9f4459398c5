# conk

A reader for the Conk schema language: a config block, then enum, template and
entity declarations with fields, attributes and values. The library is written
in Verus; each function carries a contract that the verifier proves.

## Layout

- `src/grammar/`: the language itself.
  - `lexer.rs`: tokens (identifiers, strings with `\"`, signed integers and
    decimals, the symbols `{ } ( ) [ ] : , . @`), separated by spaces, tabs and
    line breaks.
  - `rules.rs`: the grammar as spec functions over tokens (ordered choice,
    greedy repetition). `parse_spec(s, r)` is what reading `s` with rule `r`
    gives: a tree or the character offset where reading stopped.
  - `parse.rs`: the executable parser, proved to build exactly the tree of
    `rules.rs`.
  - `wf.rs`: the shape of every tree the grammar builds, proved once; the
    converters ask for it.
  - `tree.rs`: rules and tree nodes (`Pair`, viewed as `SpecPair`).
- `src/text.rs`: characters, string literal values, integer literal values.
- `src/ast/`: the syntax trees.
  - `value.rs`, `attribute.rs`, `field.rs`, `declaration.rs`, `config.rs`,
    `file.rs`: the checked tree `ConkFile`.
  - `pest.rs`: `ConkParser::parse(rule, input)` and `ParseError`.
  - `data_structures/`: the flat tree `ConkAST` (declarations sorted by kind,
    only integer literals checked) and its reader `parse_ast_from_str`;
    `data_structures/laws.rs` states how its results are made of those of
    the parts of a node.
- `src/parser/`:
  - `convert.rs`: `parse_ast_from_string`, which refuses a config key, a
    declaration name, an enum value, a field name, a field attribute or a named
    argument given twice, and which treats a block attribute written without
    parentheses as a syntax error (the flat reader accepts it);
    `file_result` states its result exactly.
  - `laws.rs`: what every file read without error guarantees, and how the two
    readers relate.
  - `result_laws.rs`: reading a text has one result.
  - `repeat_laws.rs`: when the parts of a node convert, the node converts
    exactly when no name repeats, else the first repeat is reported.
- `app/`: the program that reads `example.conk` and prints its tree, reading
  files from disk, and the error types with their messages.
