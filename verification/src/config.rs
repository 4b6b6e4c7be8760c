//! What a search is asked to do: the query, the file, and whether case counts.

use crate::matching::is_substring;
use crate::search::matches_ignoring_case;
use vstd::prelude::*;
use vstd::std_specs::iter::IteratorSpec;

verus! {

/// The error of a command line that holds no query.
pub const MISSING_QUERY: &'static str = "Didn't get a string to query";

/// The error of a command line that holds a query and no file path.
pub const MISSING_FILE_PATH: &'static str = "Didn't get a filepath";

/// The settings of one search.
pub struct Config {
    /// The text to look for.
    pub query: String,
    /// The path of the file to search.
    pub file_path: String,
    /// Whether upper and lower case count as the same.
    pub ignore_case: bool,
}

impl Config {
    /// Whether a search with these settings reports `line`.
    pub open spec fn selects(&self, line: Seq<char>) -> bool {
        if self.ignore_case {
            matches_ignoring_case(self.query@, line)
        } else {
            is_substring(self.query@, line)
        }
    }

    /// Reads the settings from the arguments of a command line. The first
    /// argument names the program and is passed over; the second is the
    /// query, the third the file path, and what follows is not read.
    /// `ignore_case` is taken as given. Fails with `MISSING_QUERY` where
    /// there is no second argument, and with `MISSING_FILE_PATH` where there
    /// is a second and no third.
    pub fn build(mut args: impl Iterator<Item = String>, ignore_case: bool) -> (built: Result<
        Config,
        &'static str,
    >)
        ensures
            args.obeys_prophetic_iter_laws() ==> match built {
                Ok(config) => {
                    &&& args.remaining().len() >= 3
                    &&& config.query == args.remaining()[1]
                    &&& config.file_path == args.remaining()[2]
                    &&& config.ignore_case == ignore_case
                },
                Err(message) => {
                    &&& args.remaining().len() < 3
                    &&& args.remaining().len() < 2 ==> message@ == MISSING_QUERY@
                    &&& args.remaining().len() == 2 ==> message@ == MISSING_FILE_PATH@
                },
            },
    {
        args.next();

        let query = match args.next() {
            Some(arg) => arg,
            None => return Err(MISSING_QUERY),
        };

        let file_path = match args.next() {
            Some(arg) => arg,
            None => return Err(MISSING_FILE_PATH),
        };

        Ok(Config { query, file_path, ignore_case })
    }
}

} // verus!
