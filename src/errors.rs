//! The library's errors.

use vstd::prelude::*;

verus! {

/// What can go wrong while detecting outputs, loading profiles or applying a
/// layout. Failures of outside collaborators carry their message.
#[derive(Debug, PartialEq, Eq)]
pub enum Error {
    /// An I/O operation failed.
    StdIOError(String),
    /// The display server could not be queried.
    XrandrError(String),
    /// The logger could not be set up.
    SetLoggerError(String),
    /// A hex value could not be decoded.
    FromHexError(String),
    /// A profile or monitor file could not be read as YAML.
    SerdeYamlError(String),
    /// Bytes were not valid UTF-8.
    StdFromUtf8Error(String),
    /// The display command could not be started.
    PopenError(String),
    /// The display command exited with a nonzero code.
    SubprocessFailed(String, u32),
    /// The display command was killed by a signal.
    SubprocessKilledBySignal(String, u8),
    /// The display command ended for an unknown reason.
    SubprocessUnknownFailure(String),
    /// No configuration directory is known on this platform.
    CannotDetermineConfigDir,
    /// A file in the profile directory is not a profile.
    UnrecognizedProfileConfigFile(String),
    /// A file is not a monitor description.
    UnrecognizedMonitorConfigFile(String),
    /// Mirror mode needs a profile named `mirror` with an `all-monitors` slot.
    MirrorModeMissingProfile,
    /// Mirror mode needs an active output to mirror.
    NoActiveMonitors,
    /// Mirror mode cannot tell which of several active outputs to mirror.
    MirrorModeTooManyActiveMonitors,
    /// The selected profile (named here) has a slot without a fingerprint,
    /// which cannot be resolved to an output.
    UnresolvedProfileSlot(String),
    /// A fingerprint was found in both or neither of the active and connected
    /// outputs although the snapshot rules this out.
    InconsistentTopology,
}

/// The result type of this library.
pub type Result<T> = core::result::Result<T, Error>;

} // verus!
