//! Position arithmetic and lexical helpers for editor tooling.

pub mod line_index;
pub mod references;
pub mod semantic;
pub mod spans;
pub mod completion;
pub mod symbols;
pub mod navigation;
pub mod documents;
