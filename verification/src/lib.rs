//! Command-line argument parsing and dispatch with machine-checked contracts.
//!
//! Raw arguments are first brought into a canonical shape, then matched
//! against the declared flags and commands; the outcome is a context that a
//! handler can query.

pub mod action;
pub mod app;
pub mod color;
pub mod command;
pub mod context;
pub mod error;
pub mod flag;
pub mod help;
pub mod number;
pub mod text;
pub mod utils;

pub use action::{Action, ActionWithResult};
pub use app::App;
pub use command::{Command, Outcome};
pub use context::Context;
pub use flag::{Flag, FlagType, FlagValue};
