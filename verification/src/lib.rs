//! A terminal-tutorial engine: declarative course content, a pure condition
//! engine that classifies intercepted shell commands, a progression state
//! machine with a crash-safe save format, and a sandboxed world planner.
//!
//! Everything here is pure with respect to the process environment: callers
//! hand in the command string, a snapshot of the environment, and the loaded
//! content, and receive verdicts, successor states and filesystem plans back.

pub mod actions;
pub mod conditions;
pub mod content;
pub mod driver;
pub mod savefile;
pub mod state;
pub mod strutil;
pub mod world;
