//! Default values and small predicates the mux and launch configuration
//! rely on.

use vstd::prelude::*;

verus! {

/// Whether the process runs under a Windows subsystem translation layer;
/// this build never does.
pub fn running_under_wsl() -> (r: bool)
    ensures
        !r,
{
    false
}

/// The default timeout for reads from a mux server, in seconds.
pub fn default_read_timeout() -> (r: u64)
    ensures
        r == 60,
{
    60
}

/// The default timeout for writes to a mux server, in seconds.
pub fn default_write_timeout() -> (r: u64)
    ensures
        r == 60,
{
    60
}

/// The default local-echo threshold, in milliseconds.
pub fn default_local_echo_threshold_ms() -> (r: Option<u64>)
    ensures
        r == Some(100u64),
{
    Some(100)
}

/// A path that a launch configuration may require to exist.
#[derive(Clone, Debug)]
pub struct PathPossibility {
    pub path: String,
    pub is_required: bool,
}

impl PathPossibility {
    /// A path that must exist.
    pub fn required(path: String) -> (r: PathPossibility)
        ensures
            r.path == path,
            r.is_required,
    {
        PathPossibility { path, is_required: true }
    }

    /// A path that may be absent.
    pub fn optional(path: String) -> (r: PathPossibility)
        ensures
            r.path == path,
            !r.is_required,
    {
        PathPossibility { path, is_required: false }
    }
}

} // verus!
