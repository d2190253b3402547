use vstd::prelude::*;

verus! {

/// The command-line surface: one subcommand per mode.
pub struct Cli {
    pub command: Commands,
}

/// The two modes: collect samples into the store, or render a report over
/// a resolved timeframe, optionally with a chart.
pub enum Commands {
    Collect { db_path: Option<String>, interval: Option<u64>, verbose: bool },
    Report {
        hours: u64,
        days: u64,
        months: u64,
        all_time: bool,
        db_path: Option<String>,
        graph: bool,
        graph_path: Option<String>,
        verbose: bool,
    },
}

} // verus!
