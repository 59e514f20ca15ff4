use vstd::prelude::*;

verus! {

/// Logging verbosity, mirroring the usual level-filter ladder.
#[derive(Debug, Clone, Copy, PartialEq, Eq, Structural)]
pub enum LogLevel {
    Off,
    Error,
    Warn,
    Info,
    Debug,
    Trace,
}

/// Options shared by every subcommand: logging verbosity and the path of
/// the configuration file to load.
#[derive(Debug)]
pub struct GlobalOpts {
    pub log_level: Option<LogLevel>,
    pub config: Option<String>,
}

} // verus!
