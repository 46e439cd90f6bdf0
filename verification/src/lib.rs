//! A verified interpreter for a minimal tape-machine language.
//!
//! Source programs are sequences of raw bytes in which exactly eight byte
//! values are significant (`+ - < > . , [ ]`).  A compiler translates the
//! bytes into a linear sequence of commands, folding runs of adjacent
//! arithmetic operations and matching loop brackets; an execution engine
//! then runs the commands against a fixed 30,000-cell byte tape whose data
//! pointer wraps around at either end.

pub mod command;
pub mod compiler;
pub mod io_policy;
pub mod machine;
