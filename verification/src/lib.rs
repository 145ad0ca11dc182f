//! Verified core of a chronophotography tool: the pixel selection rules that
//! turn a stack of time slices into a single image, and the parsing of the
//! options that configure them.
pub mod arith;
pub mod cli;
pub mod decimal;
pub mod laws;
pub mod modes;
pub mod processor;
pub mod select;
pub mod stats;
pub mod text;
