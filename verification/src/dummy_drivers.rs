//! A mock driver for tests and examples.

use crate::driver::ReplDriver;
use vstd::prelude::*;

verus! {

/// A mock implementation of [`ReplDriver`] that answers prompts without a
/// terminal: `Echo` hands every prompt back, `MockDefault` answers every
/// prompt with one fixed line, and `MockAll` answers line prompts and
/// password prompts each with their own fixed text.
#[derive(Debug, Clone)]
pub enum MockDriver {
    Echo,
    MockDefault(String),
    MockAll { prompt: String, password: String },
}

impl ReplDriver for MockDriver {
    type Error = ();

    fn print(&mut self, _s: &str) {
    }

    fn eprint(&mut self, _s: &str) {
    }

    fn clear_screen(&mut self) -> (r: Result<(), ()>)
        ensures
            r is Ok,
    {
        Ok(())
    }

    fn prompt_line(&mut self, prompt: &str) -> (r: Result<String, ()>)
        ensures
            r matches Ok(s) && s@ == match *old(self) {
                MockDriver::Echo => prompt@,
                MockDriver::MockDefault(line) => line@,
                MockDriver::MockAll { prompt: line, .. } => line@,
            },
    {
        match self {
            MockDriver::Echo => Ok(prompt.to_owned()),
            MockDriver::MockDefault(line) => Ok(line.clone()),
            MockDriver::MockAll { prompt: line, .. } => Ok(line.clone()),
        }
    }

    fn prompt_password(&mut self, prompt: &str) -> (r: Result<String, ()>)
        ensures
            r matches Ok(s) && s@ == match *old(self) {
                MockDriver::Echo => prompt@,
                MockDriver::MockDefault(line) => line@,
                MockDriver::MockAll { password, .. } => password@,
            },
    {
        match self {
            MockDriver::Echo => Ok(prompt.to_owned()),
            MockDriver::MockDefault(line) => Ok(line.clone()),
            MockDriver::MockAll { password, .. } => Ok(password.clone()),
        }
    }
}

} // verus!
