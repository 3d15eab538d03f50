//! An interpreter for a small stack language: tokens are classified into
//! keyword commands or literals and run against an operand stack, a table of
//! variables and a buffer that records blocks of deferred commands.

pub mod cmd;
pub mod engine;
pub mod err;
pub mod io;
pub mod laws;
pub mod state;
pub mod text;
pub mod token;
pub mod value;

pub use crate::cmd::{Command, CommandM, Word};
pub use crate::engine::{include_source, push_line, run_command, step, Effect, EffectM, FloatTask, TaskM};
pub use crate::err::Error;
pub use crate::io::InOuter;
pub use crate::state::{State, StateM};
pub use crate::token::tokenize;
pub use crate::value::{Value, ValueM};
