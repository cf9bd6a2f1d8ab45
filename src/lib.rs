//! Automatic display layout selection: classify the outputs of a display
//! server, match the attached monitors against a store of profiles, and
//! build the argument list that applies the chosen layout.

pub mod arguments;
pub mod config;
pub mod errors;
pub mod fingerprint;
pub mod manager;
pub mod monitor;
pub mod output;
pub mod text;
pub mod topology;

pub use arguments::Arguments;
pub use config::{Config, Profile};
pub use errors::{Error, Result};
pub use fingerprint::RawOutput;
pub use manager::{ExitOutcome, Manager};
pub use monitor::{Monitor, MonitorKind};
pub use output::Output;
pub use topology::Topology;
