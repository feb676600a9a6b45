//! SISE (Simple S-Expression): a tree of atoms and lists, written as text
//! such as `(example (1 2 3) (a b c))`.
//!
//! The library reads SISE text (`parser`, `decoder`), builds and walks trees
//! (`tree`, `builder`, `tree_reader`, `tree_writer`), writes them back as
//! compact or spaced text (`compact_string_writer`, `spaced_string_writer`,
//! `serializer`), and encodes values as atoms (`atom`, `float_atom`). The
//! text grammar is stated in `syntax`, and each reader and writer is
//! specified against it.

pub mod atom;
pub mod builder;
pub mod compact_string_writer;
pub mod decoder;
pub mod decoder_syntax;
pub mod float_atom;
pub mod parse_tree;
pub mod parser;
pub mod pos;
pub mod read_error;
pub mod read_into_tree;
pub mod read_util;
pub mod reader;
pub mod ref_writer;
pub mod serializer;
pub mod spaced_string_writer;
pub mod syntax;
pub mod text;
pub mod tree;
pub mod tree_reader;
pub mod tree_with_pos;
pub mod tree_writer;
pub mod util;
pub mod write_from_tree;
pub mod writer;
