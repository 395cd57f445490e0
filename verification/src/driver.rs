//! The interface to the terminal front end.
//!
//! The core never performs input or output of its own: whatever it has to
//! show or ask goes through a driver the embedder supplies.

use vstd::prelude::*;

verus! {

/// An interface for prompting the user for input and displaying results.
pub trait ReplDriver {
    type Error;

    /// Shows ordinary output.
    fn print(&mut self, s: &str);

    /// Shows an error or warning.
    fn eprint(&mut self, s: &str);

    /// Clears the screen.
    fn clear_screen(&mut self) -> Result<(), Self::Error>;

    /// Asks for one line of input.
    fn prompt_line(&mut self, prompt: &str) -> Result<String, Self::Error>;

    /// Asks for a password, masked.
    fn prompt_password(&mut self, prompt: &str) -> Result<String, Self::Error>;
}

} // verus!
