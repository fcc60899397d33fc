//! A character-cell terminal emulation engine.
//!
//! The engine keeps a fixed-size grid of character cells together with a
//! cursor ([`screen::TerminalBuffer`]), and interprets a raw byte stream of
//! shell output — printable text, C0 control codes and CSI escape
//! sequences — as operations on that grid ([`interp::Interpreter`]).
//! Every operation is total: malformed or unsupported input is consumed
//! and ignored, and the cursor is clamped into the grid rather than ever
//! leaving it.
//!
//! Process plumbing (allocating a pseudo-terminal, spawning the shell,
//! pumping its output into the interpreter) lives outside this crate; the
//! engine itself is pure state manipulation.

pub mod interp;
pub mod screen;

pub use interp::Interpreter;
pub use screen::Cell;
pub use screen::TerminalBuffer;
