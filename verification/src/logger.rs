//! Log event and level vocabulary. Formatting with timestamps and terminal
//! colors is presentation, done outside the library.

use vstd::prelude::*;

verus! {

/// A notable application event.
#[derive(Debug, Clone, Copy, PartialEq, Eq, Structural)]
pub enum LoggingEvent {
    APPSTARTED,
    DOWNLOADSTARTED,
    APPCRASHED,
    TORRENTFOUND,
    PEERCONNECTED,
}

impl LoggingEvent {
    /// The event's wire name.
    pub fn to_str(&self) -> (r: &'static str)
        ensures
            r@ == match *self {
                LoggingEvent::APPCRASHED => "APP_CRASHED"@,
                LoggingEvent::PEERCONNECTED => "PEER_CONNECTED"@,
                LoggingEvent::DOWNLOADSTARTED => "DOWNLOAD_STARTED"@,
                LoggingEvent::TORRENTFOUND => "TORRENT_FOUND"@,
                LoggingEvent::APPSTARTED => "APP_STARTED"@,
            },
    {
        match self {
            LoggingEvent::APPCRASHED => "APP_CRASHED",
            LoggingEvent::PEERCONNECTED => "PEER_CONNECTED",
            LoggingEvent::DOWNLOADSTARTED => "DOWNLOAD_STARTED",
            LoggingEvent::TORRENTFOUND => "TORRENT_FOUND",
            LoggingEvent::APPSTARTED => "APP_STARTED",
        }
    }
}

/// A log severity level.
#[derive(Debug, Clone, Copy, PartialEq, Eq, Structural)]
pub enum LogLevel {
    INFO,
    TRACE,
    WARN,
    DEBUG,
    ERROR,
}

impl LogLevel {
    /// The level's display name.
    pub fn to_str(&self) -> (r: &'static str)
        ensures
            r@ == match *self {
                LogLevel::DEBUG => "DEBUG"@,
                LogLevel::ERROR => "ERROR"@,
                LogLevel::WARN => "WARN"@,
                LogLevel::TRACE => "TRACE"@,
                LogLevel::INFO => "INFO"@,
            },
    {
        match self {
            LogLevel::DEBUG => "DEBUG",
            LogLevel::ERROR => "ERROR",
            LogLevel::WARN => "WARN",
            LogLevel::TRACE => "TRACE",
            LogLevel::INFO => "INFO",
        }
    }

    /// The level's priority: lower is more urgent.
    pub fn priority(&self) -> (r: u8)
        ensures
            r == match *self {
                LogLevel::ERROR => 0u8,
                LogLevel::WARN => 5u8,
                LogLevel::INFO => 10u8,
                LogLevel::DEBUG => 15u8,
                LogLevel::TRACE => 20u8,
            },
    {
        match self {
            LogLevel::ERROR => 0,
            LogLevel::WARN => 5,
            LogLevel::INFO => 10,
            LogLevel::DEBUG => 15,
            LogLevel::TRACE => 20,
        }
    }
}

} // verus!
