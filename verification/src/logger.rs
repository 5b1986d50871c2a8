//! The log sink: which messages pass the level of the logger, and the one heartbeat it
//! registers. Writing the records out is left to the caller.

use vstd::prelude::*;

verus! {

/// Severity of a message, and threshold of a logger.
#[derive(Clone, Copy, Debug, PartialEq, Eq, Structural)]
pub enum LogLevel {
    Trace,
    Debug,
    Info,
    Warn,
    Error,
    Critical,
    Off,
}

impl LogLevel {
    /// The integer code of each level, rising with severity.
    pub open spec fn code(self) -> int {
        match self {
            LogLevel::Trace => 0,
            LogLevel::Debug => 1,
            LogLevel::Info => 2,
            LogLevel::Warn => 3,
            LogLevel::Error => 4,
            LogLevel::Critical => 5,
            LogLevel::Off => 6,
        }
    }

    /// The integer code of this level.
    pub fn repr(&self) -> (r: i32)
        ensures
            r == self.code(),
    {
        match self {
            LogLevel::Trace => 0,
            LogLevel::Debug => 1,
            LogLevel::Info => 2,
            LogLevel::Warn => 3,
            LogLevel::Error => 4,
            LogLevel::Critical => 5,
            LogLevel::Off => 6,
        }
    }

    /// The level with the given code, if there is one.
    pub fn from_repr(x: i32) -> (r: Option<LogLevel>)
        ensures
            match r {
                Some(l) => l.code() == x,
                None => forall|l: LogLevel| l.code() != x,
            },
    {
        match x {
            0 => Some(LogLevel::Trace),
            1 => Some(LogLevel::Debug),
            2 => Some(LogLevel::Info),
            3 => Some(LogLevel::Warn),
            4 => Some(LogLevel::Error),
            5 => Some(LogLevel::Critical),
            6 => Some(LogLevel::Off),
            _ => None,
        }
    }
}

/// One message that passed the level of its logger.
#[derive(Debug, PartialEq)]
pub struct Record {
    pub level: LogLevel,
    pub host: String,
    pub app: String,
    pub message: String,
}

/// A logger for one application on one host.
pub struct Logger {
    host: String,
    app: String,
    level: LogLevel,
    heartbeat: Option<(i32, String)>,
}

/// What a [`Logger`] denotes.
pub struct LoggerModel {
    pub host: Seq<char>,
    pub app: Seq<char>,
    /// The least severity that passes.
    pub level: LogLevel,
    /// Process id and command line of the heartbeat, once registered.
    pub heartbeat: Option<(i32, Seq<char>)>,
}

impl LoggerModel {
    /// Whether a message of severity `lvl` passes: it is not `Off`, and at least as severe
    /// as the level of the logger.
    pub open spec fn passes(self, lvl: LogLevel) -> bool {
        lvl != LogLevel::Off && lvl.code() >= self.level.code()
    }
}

impl View for Logger {
    type V = LoggerModel;

    closed spec fn view(&self) -> LoggerModel {
        LoggerModel {
            host: self.host@,
            app: self.app@,
            level: self.level,
            heartbeat: match self.heartbeat {
                Some((pid, cmdline)) => Some((pid, cmdline@)),
                None => None,
            },
        }
    }
}

impl Logger {
    /// A logger that lets every severity pass and has no heartbeat.
    pub fn new(host: &str, app: &str) -> (r: Logger)
        ensures
            r@ == (LoggerModel { host: host@, app: app@, level: LogLevel::Trace, heartbeat: None }),
    {
        Logger { host: host.to_owned(), app: app.to_owned(), level: LogLevel::Trace, heartbeat: None }
    }

    /// Registers the heartbeat with process id and command line, once: a logger that has
    /// one keeps it, and the call returns false.
    pub fn heatbeat(&mut self, pid: i32, cmdline: &str) -> (r: bool)
        ensures
            r == old(self)@.heartbeat is None,
            final(self)@ == if r {
                LoggerModel { heartbeat: Some((pid, cmdline@)), ..old(self)@ }
            } else {
                old(self)@
            },
    {
        if self.heartbeat.is_some() {
            return false;
        }
        self.heartbeat = Some((pid, cmdline.to_owned()));
        true
    }

    /// Sets the least severity that passes.
    pub fn level(&mut self, lvl: LogLevel)
        ensures
            final(self)@ == (LoggerModel { level: lvl, ..old(self)@ }),
    {
        self.level = lvl;
    }

    /// The record to write for a message of severity `lvl`, or `None` where it does not
    /// pass the level of the logger.
    pub fn log(&mut self, lvl: LogLevel, message: &str) -> (r: Option<Record>)
        ensures
            final(self)@ == old(self)@,
            match r {
                Some(rec) => old(self)@.passes(lvl) && rec.level == lvl && rec.host@ == old(self)@.host
                    && rec.app@ == old(self)@.app && rec.message@ == message@,
                None => !old(self)@.passes(lvl),
            },
    {
        if lvl.repr() == 6 || lvl.repr() < self.level.repr() {
            return None;
        }
        Some(Record { level: lvl, host: self.host.clone(), app: self.app.clone(), message: message.to_owned() })
    }
}

} // verus!
