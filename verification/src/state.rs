//! The process-wide shared state: one general configuration and one admin
//! configuration, created once at startup and threaded through every
//! request handler. The surrounding process guards it with a single
//! reader/writer lock; the state itself carries the invariant that the
//! admin hash matches the admin password.

use vstd::prelude::*;
use crate::admin_config::digest_of;
use crate::admin_config::AdminConfig;
use crate::config_change::change_decision;
use crate::config_change::seg_matches;
use crate::config_change::ChangeError;
use crate::config_change::ChangeTarget;
use crate::general_config::GeneralConfig;
use crate::general_config::TracingLevel;
use crate::log_control::LogController;
use crate::paths::split_on;

verus! {

pub struct State {
    pub(crate) general_config: GeneralConfig,
    pub(crate) admin_config: AdminConfig,
}

impl State {
    pub closed spec fn spec_general(self) -> GeneralConfig {
        self.general_config
    }

    pub closed spec fn spec_admin(self) -> AdminConfig {
        self.admin_config
    }

    /// The state invariant: the admin credentials are well formed.
    pub open spec fn wf(self) -> bool {
        self.spec_admin().wf()
    }

    /// Builds the state from the two configurations read at startup.
    pub fn new(general_config: GeneralConfig, admin_config: AdminConfig) -> (s: State)
        requires
            admin_config.wf(),
        ensures
            s.wf(),
            s.spec_general() == general_config,
            s.spec_admin() == admin_config,
    {
        State { general_config, admin_config }
    }

    /// A read view of the general configuration, taken under a read lock.
    pub fn general_config(&self) -> (r: &GeneralConfig)
        ensures
            *r == self.spec_general(),
    {
        &self.general_config
    }

    /// A read view of the admin configuration, taken under a read lock.
    pub fn admin_config(&self) -> (r: &AdminConfig)
        ensures
            *r == self.spec_admin(),
    {
        &self.admin_config
    }

    /// Applies one mutation request to the field its dotted path addresses,
    /// under the write lock. On success the result says which new logging
    /// threshold, if any, the caller must push into the live log sink; on
    /// rejection nothing has changed. Persistence of the new state is the
    /// caller's next step.
    pub fn change_config(
        &mut self,
        controller: &mut LogController,
        path: &str,
        value: String,
    ) -> (r: Result<Option<TracingLevel>, ChangeError>)
        requires
            old(self).wf(),
            old(controller).spec_installed(),
        ensures
            final(self).wf(),
            final(controller).spec_installed(),
            final(self).spec_general().server == old(self).spec_general().server,
            match change_decision(path@, value@) {
                Ok(t) => match t {
                    ChangeTarget::Password => {
                        &&& r == Ok::<Option<TracingLevel>, ChangeError>(None)
                        &&& final(self).spec_admin().credentials.password_view() == value@
                        &&& final(self).spec_admin().credentials.hash_view() == digest_of(value@)
                        &&& final(self).spec_general() == old(self).spec_general()
                        &&& *final(controller) == *old(controller)
                    },
                    ChangeTarget::IconPath => {
                        &&& r == Ok::<Option<TracingLevel>, ChangeError>(None)
                        &&& final(self).spec_general().theme.icon_path@ == value@
                        &&& final(self).spec_general().theme.company_name == old(
                            self,
                        ).spec_general().theme.company_name
                        &&& final(self).spec_general().logging == old(self).spec_general().logging
                        &&& final(self).spec_admin() == old(self).spec_admin()
                        &&& *final(controller) == *old(controller)
                    },
                    ChangeTarget::CompanyName => {
                        &&& r == Ok::<Option<TracingLevel>, ChangeError>(None)
                        &&& final(self).spec_general().theme.company_name@ == value@
                        &&& final(self).spec_general().theme.icon_path == old(
                            self,
                        ).spec_general().theme.icon_path
                        &&& final(self).spec_general().logging == old(self).spec_general().logging
                        &&& final(self).spec_admin() == old(self).spec_admin()
                        &&& *final(controller) == *old(controller)
                    },
                    ChangeTarget::MaxLevel(l) => {
                        &&& r == Ok::<Option<TracingLevel>, ChangeError>(Some(l))
                        &&& final(self).spec_general().logging.max_level == Some(l)
                        &&& final(self).spec_general().theme == old(self).spec_general().theme
                        &&& final(self).spec_admin() == old(self).spec_admin()
                        &&& final(controller).spec_threshold() == l
                    },
                },
                Err(e) => {
                    &&& r == Err::<Option<TracingLevel>, ChangeError>(e)
                    &&& *final(self) == *old(self)
                    &&& *final(controller) == *old(controller)
                },
            },
    {
        let segs = split_on(path, '.');
        proof {
            assert(segs@.len() == segs.deep_view().len());
        }
        if segs.len() < 2 {
            return Err(ChangeError::NoSection);
        }
        if segs.len() < 3 {
            return Err(ChangeError::NoField);
        }
        proof {
            assert(segs.deep_view()[0] == segs@[0]@);
            assert(segs.deep_view()[1] == segs@[1]@);
            assert(segs.deep_view()[2] == segs@[2]@);
        }
        let c_admin = seg_matches(segs[0].as_str(), "admin");
        let c_general = seg_matches(segs[0].as_str(), "general");
        let s_cred = seg_matches(segs[1].as_str(), "credentials");
        let s_server = seg_matches(segs[1].as_str(), "server");
        let s_theme = seg_matches(segs[1].as_str(), "theme");
        let s_logging = seg_matches(segs[1].as_str(), "logging");
        let f_password = seg_matches(segs[2].as_str(), "password");
        let f_port = seg_matches(segs[2].as_str(), "port");
        let f_icon = seg_matches(segs[2].as_str(), "icon_path");
        let f_company = seg_matches(segs[2].as_str(), "company_name");
        let f_maxlevel = seg_matches(segs[2].as_str(), "max_level");
        if c_admin && s_cred && f_password {
            self.admin_config.credentials.set_password(value);
            Ok(None)
        } else if c_general && s_server && f_port {
            Err(ChangeError::PortImmutable)
        } else if c_general && s_theme && f_icon {
            self.general_config.theme.icon_path = value;
            Ok(None)
        } else if c_general && s_theme && f_company {
            self.general_config.theme.company_name = value;
            Ok(None)
        } else if c_general && s_logging && f_maxlevel {
            match TracingLevel::from_str(value.as_str()) {
                Ok(level) => {
                    self.general_config.logging.set_max_level(level, controller);
                    Ok(Some(level))
                },
                Err(_) => Err(ChangeError::InvalidLogLevel),
            }
        } else {
            Err(ChangeError::UnknownField)
        }
    }
}

} // verus!
