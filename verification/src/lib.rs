//! A source-to-source formatter core for a JavaScript/TypeScript-family
//! language, together with two small accessibility lint rules that inspect
//! the same kind of syntax tree.
//!
//! The formatter consumes a parsed syntax tree and produces canonical
//! text, independent of the original formatting. Its two central pieces
//! are the document intermediate representation with its width-aware
//! layout engine, and the parenthesization analysis that decides, from a
//! node and its ancestor path, whether re-emitting an expression without
//! parentheses would change what the text parses back to. On top of them
//! sits the print policy for the array-like family of nodes, the
//! representative per-kind policy: concise fill layout for short numeric
//! arrays, trailing-comma rules, and the forced break for matrices of
//! non-trivial rows.
//!
//! The crate is organized leaf-first:
//! - [`span`] holds source byte ranges;
//! - [`syntax`] models the parsed tree as an arena of nodes, children
//!   stored before parents;
//! - [`doc`] is the doc intermediate representation and its ghost view;
//! - [`printer`] renders a doc tree into text, deciding break-or-flat per
//!   group against the width budget;
//! - [`parens`] is the parenthesization analysis;
//! - [`array`] holds the array-family policy predicates;
//! - [`format`] is the driver that walks the tree and assembles docs;
//! - [`jsx`] models JSX opening elements and [`lint`] holds the rules.

pub mod span;
pub mod syntax;
pub mod jsx;
pub mod lint;
pub mod parens;
pub mod doc;
pub mod printer;
pub mod array;
pub mod format;
