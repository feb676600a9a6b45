# sise

A Verus-verified library for SISE (Simple S-Expression) documents: trees of
atoms and lists written as text such as `(example (1 2 3) (a b c))`.

## Layout

- `src/` — the verified library.
  - `syntax.rs`: the grammar of SISE text as spec functions (`read_tree`,
    `compact_text`), with the law that compact text reads back as its tree.
  - `parser.rs`, `parse_tree.rs`: a pull parser over `&str` and the
    functions that build trees with it, specified by `syntax`.
  - `decoder.rs`: a parser over bytes with line/column positions and limits.
  - `tree.rs`, `builder.rs`, `pos.rs`: the node types and a tree builder.
  - `writer.rs`, `write_from_tree.rs`, `compact_string_writer.rs`,
    `spaced_string_writer.rs`, `tree_writer.rs`, `ref_writer.rs`,
    `serializer.rs`: writers and what they write, as functions of the
    sequence of write events.
  - `reader.rs`, `tree_reader.rs`, `read_into_tree.rs`, `tree_with_pos.rs`,
    `read_util.rs`, `read_error.rs`: readers and helpers that read trees
    and values back.
  - `atom.rs`, `float_atom.rs`: encoding values as atoms and decoding them.
  - `util.rs`, `text.rs`: atom characters and string helpers.
- `tests/` — tests of the library.
- `app/` — what stands around it: floats in atoms, errors with `Display`,
  and the `parse_sise` / `reserialize_sise` tools.
