//! The commands the scraper runs.

use vstd::prelude::*;

verus! {

/// What the scraper is asked to do.
#[derive(Debug, PartialEq, Eq, Structural)]
pub enum Command {
    /// Make a new, empty database.
    Init,
    /// Read the shop into the database.
    Scrape,
    /// Anything else: nothing is done.
    Invalid,
}

/// The command that the argument `cmd` names.
pub fn command_of(cmd: &str) -> (r: Command)
    ensures
        r == if cmd@ == "init"@ {
            Command::Init
        } else if cmd@ == "scrape"@ {
            Command::Scrape
        } else {
            Command::Invalid
        },
{
    let given = String::from_str(cmd);
    if given == String::from_str("init") {
        Command::Init
    } else if given == String::from_str("scrape") {
        Command::Scrape
    } else {
        Command::Invalid
    }
}

} // verus!
