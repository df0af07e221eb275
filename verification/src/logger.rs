//! The game's logging policy: which messages pass, by target and level.
//!
//! The decision logic lives here; installing the logger into a logging
//! facade and printing are the surrounding application's concern.

use vstd::prelude::*;

verus! {

use crate::text::str_eq;

/// Severity of a log message, most severe first.
#[derive(Clone, Copy, Debug, PartialEq, Eq, Structural)]
pub enum LogLevel {
    Error,
    Warn,
    Info,
    Debug,
    Trace,
}

/// Verbosity cap for a target: `Off` passes nothing, `Trace` everything.
#[derive(Clone, Copy, Debug, PartialEq, Eq, Structural)]
pub enum LogFilter {
    Off,
    Error,
    Warn,
    Info,
    Debug,
    Trace,
}

/// The rank of a level: higher means chattier.
pub open spec fn level_rank(l: LogLevel) -> int {
    match l {
        LogLevel::Error => 1,
        LogLevel::Warn => 2,
        LogLevel::Info => 3,
        LogLevel::Debug => 4,
        LogLevel::Trace => 5,
    }
}

/// The rank of a filter: a message passes when its level rank is at most
/// the filter rank.
pub open spec fn filter_rank(f: LogFilter) -> int {
    match f {
        LogFilter::Off => 0,
        LogFilter::Error => 1,
        LogFilter::Warn => 2,
        LogFilter::Info => 3,
        LogFilter::Debug => 4,
        LogFilter::Trace => 5,
    }
}

/// Per-target verbosity caps for the game's four log targets.
pub struct GameLogger {
    pub world_level: LogFilter,
    pub chunk_level: LogFilter,
    pub render_level: LogFilter,
    pub entity_level: LogFilter,
}

/// The filter a target name selects; an unknown target is capped at `Info`.
pub open spec fn spec_filter_for(g: GameLogger, target: Seq<char>) -> LogFilter {
    if target == "world"@ {
        g.world_level
    } else if target == "chunk"@ {
        g.chunk_level
    } else if target == "render"@ {
        g.render_level
    } else if target == "entity"@ {
        g.entity_level
    } else {
        LogFilter::Info
    }
}

impl GameLogger {
    /// The logger the game starts with: every target capped at `Info`.
    pub fn init() -> (r: GameLogger)
        ensures
            r.world_level == LogFilter::Info,
            r.chunk_level == LogFilter::Info,
            r.render_level == LogFilter::Info,
            r.entity_level == LogFilter::Info,
    {
        GameLogger {
            world_level: LogFilter::Info,
            chunk_level: LogFilter::Info,
            render_level: LogFilter::Info,
            entity_level: LogFilter::Info,
        }
    }

    /// True when a message for `target` at `level` passes this logger's
    /// caps.
    pub fn should_log(&self, target: &str, level: LogLevel) -> (r: bool)
        ensures
            r == (level_rank(level) <= filter_rank(spec_filter_for(*self, target@))),
    {
        let filter = if str_eq(target, "world") {
            self.world_level
        } else if str_eq(target, "chunk") {
            self.chunk_level
        } else if str_eq(target, "render") {
            self.render_level
        } else if str_eq(target, "entity") {
            self.entity_level
        } else {
            LogFilter::Info
        };
        let lr: u8 = match level {
            LogLevel::Error => 1,
            LogLevel::Warn => 2,
            LogLevel::Info => 3,
            LogLevel::Debug => 4,
            LogLevel::Trace => 5,
        };
        let fr: u8 = match filter {
            LogFilter::Off => 0,
            LogFilter::Error => 1,
            LogFilter::Warn => 2,
            LogFilter::Info => 3,
            LogFilter::Debug => 4,
            LogFilter::Trace => 5,
        };
        lr <= fr
    }
}

} // verus!
