//! What the command line asks for.

use vstd::prelude::*;

verus! {

/// A command of the program.
#[derive(Debug, Clone, Copy, PartialEq, Eq, Structural)]
pub enum Command {
    /// Launches the standalone desktop app.
    Run,
}

impl Default for Command {
    fn default() -> (command: Self)
        ensures
            command == Command::Run,
    {
        Command::Run
    }
}

/// The parsed command line.
#[derive(Debug, Clone, Copy)]
pub struct Options {
    /// The command that was named, if one was.
    pub command: Option<Command>,
}

impl Options {
    /// Whether the desktop app is to be launched: it is when `Run` is named
    /// and when no command is.
    pub fn launches_app(&self) -> (launch: bool)
        ensures
            launch == match self.command {
                Some(Command::Run) => true,
                None => true,
            },
    {
        match self.command {
            Some(command) => match command {
                Command::Run => true,
            },
            None => true,
        }
    }
}

} // verus!
