//! Outputs: live connectors and the slots that profiles declare.

use vstd::prelude::*;

use crate::arguments::{flags_ascending, flat_args, ArgsView, Arguments};
use crate::fingerprint::{fingerprint, fingerprint_of, RawOutput, RawOutputView};

verus! {

/// A display output, live or declared in a profile.
#[derive(Debug, PartialEq, Eq)]
pub struct Output {
    /// The display server's connector name.
    pub output_name: Option<String>,
    /// The monitor's fingerprint: lowercase hex of its EDID block.
    pub edid: Option<String>,
    /// Flags and values to apply to this output.
    pub xrandr_args: Option<Arguments>,
}

pub struct OutputView {
    pub name: Option<Seq<char>>,
    pub edid: Option<Seq<char>>,
    pub args: Option<ArgsView>,
}

impl View for Output {
    type V = OutputView;

    open spec fn view(&self) -> OutputView {
        OutputView {
            name: self.output_name.deep_view(),
            edid: self.edid.deep_view(),
            args: match &self.xrandr_args {
                Some(a) => Some(a@),
                None => None,
            },
        }
    }
}

/// The argument list of an output: empty when it carries no arguments.
pub open spec fn output_args(o: OutputView) -> Seq<Seq<char>> {
    match o.args {
        Some(a) => flat_args(a),
        None => Seq::empty(),
    }
}

/// The output that a raw record of the display server stands for: its name,
/// its fingerprint, and no arguments.
pub open spec fn output_of_raw(r: RawOutputView) -> OutputView {
    OutputView { name: Some(r.name), edid: fingerprint_of(r.edid), args: Some(Seq::empty()) }
}

impl Output {
    /// The arguments to apply to this output: each flag followed by its
    /// value, flags ascending.
    pub fn get_args(&self) -> (r: Vec<String>)
        ensures
            r.deep_view() == output_args(self@),
            self@.args matches Some(a) ==> flags_ascending(a),
    {
        match &self.xrandr_args {
            Some(args) => args.flatten(),
            None => {
                let r: Vec<String> = Vec::new();
                assert(r.deep_view() =~= Seq::<Seq<char>>::empty());
                r
            },
        }
    }

    /// The output that a raw record of the display server stands for.
    pub fn from_raw(raw: &RawOutput) -> (o: Output)
        ensures
            o@ == output_of_raw(raw@),
    {
        Output {
            output_name: Some(raw.name.clone()),
            edid: fingerprint(&raw.edid),
            xrandr_args: Some(Arguments::new()),
        }
    }
}

} // verus!
