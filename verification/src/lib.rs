//! A verified core for a sandboxed file-repository server: a path resolver
//! that confines client paths to the repository root, a model of the
//! repository's structural operations, a shared configuration store whose
//! admin credential hash always matches its password, and a dynamic
//! log-level controller.

use vstd::prelude::*;

pub mod admin_config;
pub mod config_change;
pub mod general_config;
pub mod log_control;
pub mod paths;
pub mod repo;
pub mod state;

verus! {

/// The error taxonomy every operation reports: a missing target, a malformed
/// or disallowed request, or an underlying I/O failure.
#[derive(PartialEq, Eq, Structural, Clone, Copy, Debug)]
pub enum OpError {
    NotFound,
    BadRequest,
    IoError,
}

} // verus!
