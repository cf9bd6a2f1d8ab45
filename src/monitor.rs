//! Monitors: an output together with what kind of display it drives.

use vstd::prelude::*;

use crate::fingerprint::{fingerprint, fingerprint_of, RawOutput};
use crate::arguments::{flags_ascending, flat_args, ArgsView, Arguments};

verus! {

/// What kind of display a monitor is.
#[derive(Debug, PartialEq, Eq, Structural, Clone, Copy)]
pub enum MonitorKind {
    Laptop,
    External,
    Unknown,
}

/// A display device.
#[derive(Debug, PartialEq, Eq)]
pub struct Monitor {
    pub kind: MonitorKind,
    pub output_name: Option<String>,
    pub edid: Option<String>,
    /// Flags and values to apply to this monitor.
    pub xrandr_args: Arguments,
}

pub struct MonitorView {
    pub kind: MonitorKind,
    pub name: Option<Seq<char>>,
    pub edid: Option<Seq<char>>,
    pub args: ArgsView,
}

impl View for Monitor {
    type V = MonitorView;

    open spec fn view(&self) -> MonitorView {
        MonitorView {
            kind: self.kind,
            name: self.output_name.deep_view(),
            edid: self.edid.deep_view(),
            args: self.xrandr_args@,
        }
    }
}

impl Monitor {
    /// The arguments to apply to this monitor: each flag followed by its
    /// value, flags ascending.
    pub fn get_args(&self) -> (r: Vec<String>)
        ensures
            r.deep_view() == flat_args(self@.args),
            flags_ascending(self@.args),
    {
        self.xrandr_args.flatten()
    }

    /// The monitor that a raw record of the display server stands for: of
    /// unknown kind, with the record's name and fingerprint and no arguments.
    pub fn from_raw(raw: &RawOutput) -> (m: Monitor)
        ensures
            m@.kind == MonitorKind::Unknown,
            m@.name == Some(raw@.name),
            m@.edid == fingerprint_of(raw@.edid),
            m@.args.len() == 0,
    {
        Monitor {
            kind: MonitorKind::Unknown,
            output_name: Some(raw.name.clone()),
            edid: fingerprint(&raw.edid),
            xrandr_args: Arguments::new(),
        }
    }
}

} // verus!
