//! The logger's core: the severity filter that the front end installs.
//! Printing the messages is the front end's work; the library only fixes
//! which level a fresh logger runs at.
use vstd::prelude::*;

verus! {

/// The severity levels a logger can be limited to, least verbose first.
#[derive(Debug, Clone, Copy, PartialEq, Eq, Structural)]
pub enum LogLevelFilter {
    Off,
    Error,
    Warn,
    Info,
    Debug,
    Trace,
}

/// A logger that prints to the standard streams, up to its level.
pub struct StdLogger {
    pub max_level: LogLevelFilter,
}

impl StdLogger {
    /// A fresh logger at the asked-for level, or at `Info` where none was
    /// named.
    pub fn init(opt: Option<LogLevelFilter>) -> (r: StdLogger)
        ensures
            r.max_level == (match opt {
                Option::Some(l) => l,
                Option::None => LogLevelFilter::Info,
            }),
    {
        match opt {
            Some(l) => StdLogger { max_level: l },
            None => StdLogger { max_level: LogLevelFilter::Info },
        }
    }

    /// Whether a message at `level` is printed by this logger.
    pub fn enabled(&self, level: LogLevelFilter) -> (r: bool)
        ensures
            r == (level_rank(level) != 0 && level_rank(level) <= level_rank(self.max_level)),
    {
        let lr = level_rank_exec(level);
        lr != 0 && lr <= level_rank_exec(self.max_level)
    }
}

/// How verbose a level is; `Off` prints nothing.
pub open spec fn level_rank(l: LogLevelFilter) -> int {
    match l {
        LogLevelFilter::Off => 0,
        LogLevelFilter::Error => 1,
        LogLevelFilter::Warn => 2,
        LogLevelFilter::Info => 3,
        LogLevelFilter::Debug => 4,
        LogLevelFilter::Trace => 5,
    }
}

fn level_rank_exec(l: LogLevelFilter) -> (r: u8)
    ensures
        r == level_rank(l),
{
    match l {
        LogLevelFilter::Off => 0,
        LogLevelFilter::Error => 1,
        LogLevelFilter::Warn => 2,
        LogLevelFilter::Info => 3,
        LogLevelFilter::Debug => 4,
        LogLevelFilter::Trace => 5,
    }
}

} // verus!
