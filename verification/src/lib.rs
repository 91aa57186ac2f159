//! Compiles an arbitrary byte sequence into source text for a minimal
//! tape-based instruction set, such that executing the generated program
//! reproduces the original bytes, in order, on its output channel.
//!
//! The pipeline: an encoding table maps every representable signed delta to
//! its shortest instruction fragment; a histogram over the input picks the
//! global adjustment constant that minimises total program size; and the
//! assembler composes a shared output-loop skeleton with per-byte fragments.

pub mod factor;
pub mod table;
pub mod histogram;
pub mod assemble;
pub mod wellformed;
pub mod semantics;
