//! Operating modes.
use vstd::prelude::*;

verus! {

/// What is done with the messages that are old enough.
#[derive(Debug, Clone, Copy, PartialEq, Eq, Structural)]
pub enum Mode {
    /// Archive messages locally and keep them on the server.
    Copy,
    /// Archive messages locally and delete them from the server.
    Move,
    /// Change nothing, neither locally nor on the server.
    DryRun,
}

impl Mode {
    /// The text that starts each log line of a run in this mode.
    #[must_use]
    pub fn prefix(self) -> (res: &'static str)
        ensures
            res@ == match self {
                Mode::DryRun => "[dry-run] "@,
                Mode::Copy => "[copy] "@,
                Mode::Move => "[move] "@,
            },
    {
        match self {
            Mode::DryRun => "[dry-run] ",
            Mode::Copy => "[copy] ",
            Mode::Move => "[move] ",
        }
    }

    #[must_use]
    pub fn is_copy(self) -> (res: bool)
        ensures
            res == (self is Copy),
    {
        self == Mode::Copy
    }

    #[must_use]
    pub fn is_move(self) -> (res: bool)
        ensures
            res == (self is Move),
    {
        self == Mode::Move
    }

    #[must_use]
    pub fn is_dry_run(self) -> (res: bool)
        ensures
            res == (self is DryRun),
    {
        self == Mode::DryRun
    }
}

} // verus!
