//! Service settings that do not depend on the host: log verbosity.
use vstd::prelude::*;

verus! {

/// Log verbosity of a service.
#[derive(Clone, Copy, Debug, PartialEq, Eq, Structural)]
pub enum LogLevel {
    Warn,
    Info,
    Debug,
    Trace,
}

/// The log level that `-v` given `verbosity` times selects.
pub fn loglevel(verbosity: u8) -> (r: LogLevel)
    ensures
        verbosity == 0 ==> r == LogLevel::Warn,
        verbosity == 1 ==> r == LogLevel::Info,
        verbosity == 2 ==> r == LogLevel::Debug,
        verbosity >= 3 ==> r == LogLevel::Trace,
{
    match verbosity {
        0 => LogLevel::Warn,
        1 => LogLevel::Info,
        2 => LogLevel::Debug,
        _ => LogLevel::Trace,
    }
}

} // verus!
