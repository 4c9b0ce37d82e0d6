//! Console log levels and their numeric encodings.

use vstd::prelude::*;

verus! {

/// Severity of a console log message.
#[allow(non_camel_case_types)]
#[derive(Clone, Copy, PartialEq, Eq, Structural)]
pub enum LogLevel {
    TRACE,
    DEBUG,
    INFO,
    WARN,
    ERROR,
}

/// Numeric rank of a log level; a higher rank is more severe.
pub open spec fn log_level_value(level: LogLevel) -> u8 {
    match level {
        LogLevel::TRACE => 1,
        LogLevel::DEBUG => 2,
        LogLevel::INFO => 3,
        LogLevel::WARN => 4,
        LogLevel::ERROR => 5,
    }
}

/// ANSI color code used when a message of the given level is printed.
pub open spec fn log_level_color(level: LogLevel) -> u8 {
    match level {
        LogLevel::TRACE => 90,
        LogLevel::DEBUG => 32,
        LogLevel::INFO => 34,
        LogLevel::WARN => 93,
        LogLevel::ERROR => 31,
    }
}

/// Rank used to compare a message's level against the minimum level.
pub fn value_of_log_level(level: LogLevel) -> (v: u8)
    ensures
        v == log_level_value(level),
{
    match level {
        LogLevel::TRACE => 1,
        LogLevel::DEBUG => 2,
        LogLevel::INFO => 3,
        LogLevel::WARN => 4,
        LogLevel::ERROR => 5,
    }
}

/// ANSI color in which a message of the given level is rendered.
pub fn color_id_of_log_level(level: LogLevel) -> (c: u8)
    ensures
        c == log_level_color(level),
{
    match level {
        LogLevel::TRACE => 90,
        LogLevel::DEBUG => 32,
        LogLevel::INFO => 34,
        LogLevel::WARN => 93,
        LogLevel::ERROR => 31,
    }
}

} // verus!
