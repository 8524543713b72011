//! A line-oriented scripting language interpreter, verified.
//!
//! Each line of a source text is one instruction.  Execution walks the
//! lines with a cursor that jumps to named waypoints, keeps a stack of
//! return positions, substitutes `{{name}}` references from a string
//! variable store, and dispatches a fixed set of commands.
//!
//! The engine itself never performs input or output.  It runs until it
//! needs the host: to print, to read a line, to sleep, to clear the
//! terminal, or to evaluate floating-point arithmetic.  Each such step
//! is handed out as an [`interp::Effect`]; the host performs it and
//! hands the outcome back through a resume call.  Every state change
//! of the engine is specified against the model in [`interp::Model`],
//! and the properties in [`laws`] are proved from those contracts.
//!
//! Source text is handled bytewise: line trimming and the
//! case-insensitive matching of command names cover the ASCII range,
//! and all other bytes pass through as ordinary content.

pub mod text;
pub mod num;
pub mod table;
pub mod interp;
pub mod laws;
