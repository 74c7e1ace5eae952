//! The general server settings: network port, theme, and logging verbosity.
//! The port is fixed for the life of the process; theme fields and the
//! logging level are mutable through the configuration store.

use vstd::prelude::*;
use crate::log_control::LogController;
use crate::paths::str_eq;
use crate::OpError;

verus! {

/// The verbosity levels a logging threshold can take, from most verbose
/// (`Trace`) to most severe (`Error`).
#[derive(PartialEq, Eq, Structural, Clone, Copy, Debug)]
pub enum TracingLevel {
    Trace,
    Debug,
    Info,
    Warn,
    Error,
}

impl TracingLevel {
    /// The variant a configuration string names, if any.
    pub open spec fn of_str(s: Seq<char>) -> Option<TracingLevel> {
        if s == "Trace"@ {
            Some(TracingLevel::Trace)
        } else if s == "Debug"@ {
            Some(TracingLevel::Debug)
        } else if s == "Info"@ {
            Some(TracingLevel::Info)
        } else if s == "Warn"@ {
            Some(TracingLevel::Warn)
        } else if s == "Error"@ {
            Some(TracingLevel::Error)
        } else {
            None
        }
    }

    /// Parses a level name; anything but the five exact names is rejected.
    pub fn from_str(string: &str) -> (r: Result<TracingLevel, OpError>)
        ensures
            match Self::of_str(string@) {
                Some(l) => r == Ok::<TracingLevel, OpError>(l),
                None => r == Err::<TracingLevel, OpError>(OpError::BadRequest),
            },
    {
        if str_eq(string, "Trace") {
            Ok(TracingLevel::Trace)
        } else if str_eq(string, "Debug") {
            Ok(TracingLevel::Debug)
        } else if str_eq(string, "Info") {
            Ok(TracingLevel::Info)
        } else if str_eq(string, "Warn") {
            Ok(TracingLevel::Warn)
        } else if str_eq(string, "Error") {
            Ok(TracingLevel::Error)
        } else {
            Err(OpError::BadRequest)
        }
    }

    /// How severe a level is: `Error` is the most severe, `Trace` the least.
    pub open spec fn spec_severity(self) -> int {
        match self {
            TracingLevel::Trace => 1,
            TracingLevel::Debug => 2,
            TracingLevel::Info => 3,
            TracingLevel::Warn => 4,
            TracingLevel::Error => 5,
        }
    }

    pub fn severity(&self) -> (r: u8)
        ensures
            r as int == self.spec_severity(),
    {
        match self {
            TracingLevel::Trace => 1,
            TracingLevel::Debug => 2,
            TracingLevel::Info => 3,
            TracingLevel::Warn => 4,
            TracingLevel::Error => 5,
        }
    }

    /// Whether an event at level `event` passes a threshold of `self`:
    /// exactly the events at least as severe as the threshold are emitted.
    pub open spec fn spec_allows(self, event: TracingLevel) -> bool {
        event.spec_severity() >= self.spec_severity()
    }

    pub fn allows(&self, event: &TracingLevel) -> (r: bool)
        ensures
            r == self.spec_allows(*event),
    {
        event.severity() >= self.severity()
    }
}

/// The listening port; immutable through the configuration store.
pub struct ServerConfig {
    pub port: u16,
}

/// Branding: a company name and the path of an icon file to serve.
pub struct ThemeConfig {
    pub company_name: String,
    pub icon_path: String,
}

/// The logging verbosity ceiling; absent means the default of `Warn`.
pub struct LoggingConfig {
    pub max_level: Option<TracingLevel>,
}

impl LoggingConfig {
    /// Records the new maximum level and re-points the live controller in
    /// the same step. The controller must already be installed: changing
    /// the threshold before the log sink exists is a startup-ordering
    /// error, fatal in a running process.
    pub fn set_max_level(&mut self, tracing_level: TracingLevel, controller: &mut LogController)
        requires
            old(controller).spec_installed(),
        ensures
            final(self).max_level == Some(tracing_level),
            final(controller).spec_installed(),
            final(controller).spec_threshold() == tracing_level,
    {
        self.max_level = Some(tracing_level);
        controller.set_threshold(tracing_level);
    }
}

/// The whole general configuration record.
pub struct GeneralConfig {
    pub server: ServerConfig,
    pub theme: ThemeConfig,
    pub logging: LoggingConfig,
}

} // verus!
