//! Canonicalizes the import block of a Go source file: the block is located,
//! its entries are classified as builtin, local or external, regrouped and
//! sorted, and the canonical text is diffed line by line against the original.

pub mod diff;
pub mod gofile;
pub mod import;
pub mod imports;
pub mod matcher;
pub mod render;
pub mod roundtrip;
pub mod strutil;
