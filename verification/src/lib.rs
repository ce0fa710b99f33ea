//! A console number-guessing game, split into a verified core.
//!
//! The [`reader`] module parses a line of user input into a guess; the
//! [`game`] module owns the secret value and runs the guess/feedback
//! state machine.  All input/output stays with the surrounding program,
//! which feeds plain values in and prints the outcomes.

pub mod game;
pub mod reader;
