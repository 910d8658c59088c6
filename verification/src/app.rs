//! Command-line arguments of the application.

use vstd::prelude::*;

verus! {

/// What the command line asked for: an alternative configuration
/// directory, and a migration directory when the run should migrate the
/// database instead of serving.
pub struct Cli {
    pub config: Option<String>,
    pub migrate: Option<String>,
}

impl Cli {
    /// The alternative configuration directory, if one was given.
    pub fn config(&self) -> (r: &Option<String>)
        ensures
            r == self.config,
    {
        &self.config
    }

    /// The migration directory, if the run should migrate.
    pub fn migrate(&self) -> (r: &Option<String>)
        ensures
            r == self.migrate,
    {
        &self.migrate
    }
}

} // verus!
