//! Corrections to the parser's output before anything above can see it,
//! and the parser's output itself, lowered into the document tree.

pub mod diagnostics;
pub mod pipes;
pub mod tree;
pub mod upstream;
