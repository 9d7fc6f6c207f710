use vstd::prelude::*;

verus! {

/// The error kinds the daemon surfaces at its boundary.
///
/// Local, bounded failures (a bad rule file, a missing path, a malformed
/// request) are reported through these and degrade; only lock contention
/// and registry corruption are fatal at startup.
#[derive(Clone, Copy, Debug, PartialEq, Eq, Structural)]
pub enum ValveError {
    /// Another daemon instance already holds the lockfile.
    AlreadyRunning,
    /// A glob or trigger regex in a rule file failed to compile.
    InvalidConfig,
    /// A Register target does not resolve to an existing directory.
    InvalidPath,
    /// An Unregister target matches no registry entry.
    NotFound,
    /// The persisted registry document could not be read back.
    CorruptRegistry,
    /// Setting up an OS watch or appending to the chronicle failed.
    WatchFailure,
    /// A control-plane line was not a well-formed request.
    ProtocolError,
}

impl ValveError {
    /// The message reported over the control plane or in logs.
    pub open spec fn spec_message(self) -> Seq<char> {
        match self {
            ValveError::AlreadyRunning => "valve already running?"@,
            ValveError::InvalidConfig => "invalid config"@,
            ValveError::InvalidPath => "invalid path"@,
            ValveError::NotFound => "not found"@,
            ValveError::CorruptRegistry => "corrupt registry"@,
            ValveError::WatchFailure => "watch failure"@,
            ValveError::ProtocolError => "protocol error"@,
        }
    }

    pub fn message(&self) -> (r: &'static str)
        ensures
            r@ == self.spec_message(),
    {
        match self {
            ValveError::AlreadyRunning => "valve already running?",
            ValveError::InvalidConfig => "invalid config",
            ValveError::InvalidPath => "invalid path",
            ValveError::NotFound => "not found",
            ValveError::CorruptRegistry => "corrupt registry",
            ValveError::WatchFailure => "watch failure",
            ValveError::ProtocolError => "protocol error",
        }
    }
}

} // verus!
