//! How loud the tool is, and the log filter that goes with it.

use vstd::prelude::*;

verus! {

/// How much the tool says on the diagnostic stream.
#[derive(Clone, Copy, Debug, PartialEq, Eq, PartialOrd, Ord, Structural)]
pub enum MessageLevel {
    VeryQuiet,
    Quiet,
    Normal,
}

pub open spec fn loudness(l: MessageLevel) -> int {
    match l {
        MessageLevel::VeryQuiet => 0,
        MessageLevel::Quiet => 1,
        MessageLevel::Normal => 2,
    }
}

fn rank(l: MessageLevel) -> (r: u8)
    ensures
        r as int == loudness(l),
{
    match l {
        MessageLevel::VeryQuiet => 0,
        MessageLevel::Quiet => 1,
        MessageLevel::Normal => 2,
    }
}

/// Whether messages of `level` are shown when the tool is at `current`:
/// only when it is strictly louder.
pub fn louder_than(current: MessageLevel, level: MessageLevel) -> (r: bool)
    ensures
        r == (loudness(current) > loudness(level)),
{
    rank(current) > rank(level)
}

/// The level that a count of `-q` flags asks for.
pub fn level_for_quiet(quiet: u8) -> (r: MessageLevel)
    ensures
        r == (if quiet == 0 {
            MessageLevel::Normal
        } else if quiet == 1 {
            MessageLevel::Quiet
        } else {
            MessageLevel::VeryQuiet
        }),
{
    if quiet == 0 {
        MessageLevel::Normal
    } else if quiet == 1 {
        MessageLevel::Quiet
    } else {
        MessageLevel::VeryQuiet
    }
}

/// The log filter for a count of `-v` and of `-q` flags; two `-q` win over
/// any `-v`.
pub fn log_directive(loglevel: u8, quiet: u8) -> (r: Option<&'static str>)
    ensures
        quiet >= 2 ==> (r matches Some(s) && s@ == "s3glob=error"@),
        quiet < 2 && loglevel == 0 ==> r is None,
        quiet < 2 && loglevel == 1 ==> (r matches Some(s) && s@ == "s3glob=debug"@),
        quiet < 2 && loglevel == 2 ==> (r matches Some(s) && s@ == "s3glob=trace"@),
        quiet < 2 && loglevel > 2 ==> (r matches Some(s) && s@ == "trace"@),
{
    if quiet >= 2 {
        return Some("s3glob=error");
    }
    if loglevel == 0 {
        None
    } else if loglevel == 1 {
        Some("s3glob=debug")
    } else if loglevel == 2 {
        Some("s3glob=trace")
    } else {
        Some("trace")
    }
}

} // verus!
