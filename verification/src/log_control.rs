//! The dynamic log-level controller: one process-wide handle into the
//! logging subsystem, installed exactly once at startup and re-pointable to
//! a new verbosity threshold at any later time. Using it before it is
//! installed is a startup-ordering error, so every threshold change
//! requires the installed state.

use vstd::prelude::*;
use crate::general_config::TracingLevel;

verus! {

/// The controller's two states: uninitialized until startup installs it,
/// then installed with a current threshold for the life of the process.
pub struct LogController {
    installed: bool,
    threshold: TracingLevel,
}

impl LogController {
    pub closed spec fn spec_installed(self) -> bool {
        self.installed
    }

    pub closed spec fn spec_threshold(self) -> TracingLevel {
        self.threshold
    }

    /// The controller as it exists before startup completes.
    pub fn new() -> (c: LogController)
        ensures
            !c.spec_installed(),
    {
        LogController { installed: false, threshold: TracingLevel::Warn }
    }

    /// Installs the controller once at startup, from the persisted logging
    /// level; `Warn` is the default when none was persisted.
    pub fn install(&mut self, persisted: Option<TracingLevel>)
        requires
            !old(self).spec_installed(),
        ensures
            final(self).spec_installed(),
            final(self).spec_threshold() == match persisted {
                Some(l) => l,
                None => TracingLevel::Warn,
            },
    {
        self.threshold = match persisted {
            Some(l) => l,
            None => TracingLevel::Warn,
        };
        self.installed = true;
    }

    /// Whether startup has installed the controller yet; callers test this
    /// before they ask for a threshold change.
    pub fn is_installed(&self) -> (r: bool)
        ensures
            r == self.spec_installed(),
    {
        self.installed
    }

    /// Re-points the threshold; legal any number of times once installed.
    pub fn set_threshold(&mut self, level: TracingLevel)
        requires
            old(self).spec_installed(),
        ensures
            final(self).spec_installed(),
            final(self).spec_threshold() == level,
    {
        self.threshold = level;
    }

    /// Whether an event at level `event` would be emitted under the current
    /// threshold.
    pub fn would_emit(&self, event: &TracingLevel) -> (r: bool)
        requires
            self.spec_installed(),
        ensures
            r == self.spec_threshold().spec_allows(*event),
    {
        self.threshold.allows(event)
    }
}

/// Once the threshold is `Error`, every event strictly less severe than
/// `Error` is suppressed, with no restart involved.
pub proof fn lemma_error_threshold_suppresses(controller: LogController, event: TracingLevel)
    requires
        controller.spec_installed(),
        controller.spec_threshold() == TracingLevel::Error,
        event != TracingLevel::Error,
    ensures
        !controller.spec_threshold().spec_allows(event),
{
}

} // verus!
