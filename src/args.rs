//! The run's settings, as the command line gave them.

use vstd::prelude::*;

verus! {

/// Settings of one run.
#[derive(Debug, Clone)]
pub struct Arguments {
    /// The field delimiter of the CSV file (`,` by default).
    pub delimiter: char,
    /// Keep the normalized temporary CSV file, renamed to `temporary.csv`.
    pub keep: bool,
    /// The path of the CSV file to read.
    pub path: String,
    /// Remove columns that are empty in all rows.
    pub remove_empty: bool,
    /// Show the total execution time.
    pub time: bool,
    /// Show intermediate messages.
    pub verbose: bool,
}

impl Arguments {
    /// Gathers the settings of one run.
    pub fn build(
        delimiter: char,
        keep: bool,
        path: String,
        remove_empty: bool,
        time: bool,
        verbose: bool,
    ) -> (r: Arguments)
        ensures
            r.delimiter == delimiter,
            r.keep == keep,
            r.path@ == path@,
            r.remove_empty == remove_empty,
            r.time == time,
            r.verbose == verbose,
    {
        Arguments { delimiter, keep, path, remove_empty, time, verbose }
    }
}

} // verus!
