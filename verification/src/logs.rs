//! Logs: where they go, and what they hold.
use vstd::prelude::*;

use crate::paths::{join_path, path_from, System};
use crate::text::same_text;

verus! {

/// How much is logged.
#[derive(Clone, Copy, Debug, PartialEq, Eq, Structural)]
pub enum LogLevel {
    Trace,
    Debug,
    Info,
    Warn,
    Error,
}

impl Default for LogLevel {
    fn default() -> (out: Self)
        ensures
            out == LogLevel::Info,
            out.directive() == "info"@,
    {
        LogLevel::Info
    }
}

impl LogLevel {
    /// The word for the level.
    pub open spec fn directive(self) -> Seq<char> {
        match self {
            LogLevel::Trace => "trace"@,
            LogLevel::Debug => "debug"@,
            LogLevel::Info => "info"@,
            LogLevel::Warn => "warn"@,
            LogLevel::Error => "error"@,
        }
    }

    /// The word for the level.
    pub fn as_directive(&self) -> (s: &'static str)
        ensures
            s@ == self.directive(),
    {
        match self {
            LogLevel::Trace => "trace",
            LogLevel::Debug => "debug",
            LogLevel::Info => "info",
            LogLevel::Warn => "warn",
            LogLevel::Error => "error",
        }
    }

    /// The level of a word.
    pub fn from_directive(word: &str) -> (level: Option<LogLevel>)
        ensures
            level matches Some(l) ==> l.directive() == word@,
            level is None ==> forall|l: LogLevel| #[trigger] l.directive() != word@,
            forall|l: LogLevel| word@ == #[trigger] l.directive() ==> level == Some(l),
    {
        let level = if same_text(word, "trace") {
            Some(LogLevel::Trace)
        } else if same_text(word, "debug") {
            Some(LogLevel::Debug)
        } else if same_text(word, "info") {
            Some(LogLevel::Info)
        } else if same_text(word, "warn") {
            Some(LogLevel::Warn)
        } else if same_text(word, "error") {
            Some(LogLevel::Error)
        } else {
            None
        };
        proof {
            assert forall|l: LogLevel| word@ == #[trigger] l.directive() implies level == Some(
                l,
            ) by {
                if let Some(found) = level {
                    law_directives_differ(found, l);
                }
            }
        }
        level
    }
}

/// No two levels have the same word.
pub proof fn law_directives_differ(a: LogLevel, b: LogLevel)
    ensures
        a.directive() == b.directive() <==> a == b,
{
    reveal_strlit("trace");
    reveal_strlit("debug");
    reveal_strlit("info");
    reveal_strlit("warn");
    reveal_strlit("error");
    assert("trace"@[0] == 't' && "debug"@[0] == 'd' && "info"@[0] == 'i' && "warn"@[0] == 'w'
        && "error"@[0] == 'e');
}

/// One log. What it leaves open is as for all logs.
#[derive(Debug)]
pub struct LogConfig {
    pub file: String,
    pub enabled: Option<bool>,
    pub level: Option<LogLevel>,
    /// How many days a log is kept.
    pub retention: Option<u64>,
}

impl LogConfig {
    /// A log in a file, with all else left open.
    pub fn in_file(file: &str) -> (out: Self)
        ensures
            out.file@ == file@,
            out.enabled is None,
            out.level is None,
            out.retention is None,
    {
        LogConfig { file: file.to_owned(), enabled: None, level: None, retention: None }
    }
}

impl Default for LogConfig {
    fn default() -> (out: Self)
        ensures
            out.file@ == Seq::<char>::empty(),
            out.enabled is None,
            out.level is None,
            out.retention is None,
    {
        LogConfig { file: String::new(), enabled: None, level: None, retention: None }
    }
}

/// All logs.
#[derive(Debug)]
pub struct Logs {
    pub enabled: bool,
    pub dir: String,
    pub level: LogLevel,
    pub retention: u64,
    pub search: LogConfig,
    pub daemon: LogConfig,
    pub ai: LogConfig,
}

impl Default for Logs {
    fn default() -> (out: Self)
        ensures
            out.enabled,
            out.dir@ == Seq::<char>::empty(),
            out.level == LogLevel::Info,
            out.retention == 4,
            out.search.file@ == "search.log"@,
            out.daemon.file@ == "daemon.log"@,
            out.ai.file@ == "ai.log"@,
            out.search.enabled is None && out.search.level is None && out.search.retention is None,
            out.daemon.enabled is None && out.daemon.level is None && out.daemon.retention is None,
            out.ai.enabled is None && out.ai.level is None && out.ai.retention is None,
    {
        Logs {
            enabled: true,
            dir: String::new(),
            level: LogLevel::default(),
            retention: Self::default_retention(),
            search: LogConfig::in_file("search.log"),
            daemon: LogConfig::in_file("daemon.log"),
            ai: LogConfig::in_file("ai.log"),
        }
    }
}

/// What an option holds, or else `other`.
pub open spec fn or_else<T>(option: Option<T>, other: T) -> T {
    match option {
        Some(x) => x,
        None => other,
    }
}

impl Logs {
    /// Logs are kept unless the settings say otherwise.
    pub fn default_enabled() -> (b: bool)
        ensures
            b,
    {
        true
    }

    /// How many days a log is kept unless the settings say otherwise.
    pub fn default_retention() -> (n: u64)
        ensures
            n == 4,
    {
        4
    }

    /// Whether the search log is kept.
    pub fn search_enabled(&self) -> (b: bool)
        ensures
            b == or_else(self.search.enabled, self.enabled),
    {
        match self.search.enabled {
            Some(b) => b,
            None => self.enabled,
        }
    }

    /// How much the search log holds.
    pub fn search_level(&self) -> (level: LogLevel)
        ensures
            level == or_else(self.search.level, self.level),
    {
        match self.search.level {
            Some(level) => level,
            None => self.level,
        }
    }

    /// How many days the search log is kept.
    pub fn search_retention(&self) -> (n: u64)
        ensures
            n == or_else(self.search.retention, self.retention),
    {
        match self.search.retention {
            Some(n) => n,
            None => self.retention,
        }
    }

    /// Where the search log is: its file, seen from the directory for logs.
    pub fn search_path(&self, system: &System) -> (path: String)
        ensures
            path@ == path_from(system.windows(), self.dir@, self.search.file@),
    {
        join_path(system, self.dir.as_str(), self.search.file.as_str())
    }

    /// Whether the daemon log is kept.
    pub fn daemon_enabled(&self) -> (b: bool)
        ensures
            b == or_else(self.daemon.enabled, self.enabled),
    {
        match self.daemon.enabled {
            Some(b) => b,
            None => self.enabled,
        }
    }

    /// How much the daemon log holds.
    pub fn daemon_level(&self) -> (level: LogLevel)
        ensures
            level == or_else(self.daemon.level, self.level),
    {
        match self.daemon.level {
            Some(level) => level,
            None => self.level,
        }
    }

    /// How many days the daemon log is kept.
    pub fn daemon_retention(&self) -> (n: u64)
        ensures
            n == or_else(self.daemon.retention, self.retention),
    {
        match self.daemon.retention {
            Some(n) => n,
            None => self.retention,
        }
    }

    /// Where the daemon log is: its file, seen from the directory for logs.
    pub fn daemon_path(&self, system: &System) -> (path: String)
        ensures
            path@ == path_from(system.windows(), self.dir@, self.daemon.file@),
    {
        join_path(system, self.dir.as_str(), self.daemon.file.as_str())
    }

    /// Whether the ai log is kept.
    pub fn ai_enabled(&self) -> (b: bool)
        ensures
            b == or_else(self.ai.enabled, self.enabled),
    {
        match self.ai.enabled {
            Some(b) => b,
            None => self.enabled,
        }
    }

    /// How much the ai log holds.
    pub fn ai_level(&self) -> (level: LogLevel)
        ensures
            level == or_else(self.ai.level, self.level),
    {
        match self.ai.level {
            Some(level) => level,
            None => self.level,
        }
    }

    /// How many days the ai log is kept.
    pub fn ai_retention(&self) -> (n: u64)
        ensures
            n == or_else(self.ai.retention, self.retention),
    {
        match self.ai.retention {
            Some(n) => n,
            None => self.retention,
        }
    }

    /// Where the ai log is: its file, seen from the directory for logs.
    pub fn ai_path(&self, system: &System) -> (path: String)
        ensures
            path@ == path_from(system.windows(), self.dir@, self.ai.file@),
    {
        join_path(system, self.dir.as_str(), self.ai.file.as_str())
    }
}

/// What a log says of itself counts; what it leaves open is as for all logs.
pub proof fn law_own_setting_counts<T>(own: T, all: T)
    ensures
        or_else(Some(own), all) == own,
        or_else(None, all) == all,
{
}

} // verus!
