//! Monitor identity: the canonical fingerprint of an output's EDID block.

use vstd::prelude::*;

verus! {

/// The sixteen lowercase hexadecimal digits, indexed by their value.
pub open spec fn hex_digits() -> Seq<char> {
    seq!['0', '1', '2', '3', '4', '5', '6', '7', '8', '9', 'a', 'b', 'c', 'd', 'e', 'f']
}

/// Lowercase hexadecimal text of `bytes`: two digits per byte, high nibble first.
pub open spec fn hex_of(bytes: Seq<u8>) -> Seq<char> {
    Seq::new(
        2 * bytes.len(),
        |i: int|
            if i % 2 == 0 {
                hex_digits()[bytes[i / 2] as int / 16]
            } else {
                hex_digits()[bytes[i / 2] as int % 16]
            },
    )
}

/// The fingerprint of an output with the given identification data: the hex
/// text of the EDID block, or nothing when the output reported none.
pub open spec fn fingerprint_of(edid: Option<Seq<u8>>) -> Option<Seq<char>> {
    match edid {
        Some(b) => Some(hex_of(b)),
        None => None,
    }
}

/// Relies on hex::encode: the lowercase hex text of the bytes, two digits per
/// byte, high nibble first.
#[verifier::external_body]
fn encode_hex(bytes: &Vec<u8>) -> (r: String)
    ensures
        r@ == hex_of(bytes@),
{
    hex::encode(bytes)
}

/// One output as the display server reports it: its connector name, and the
/// bytes of its EDID property when it has one of that type.
pub struct RawOutput {
    pub name: String,
    pub edid: Option<Vec<u8>>,
}

pub struct RawOutputView {
    pub name: Seq<char>,
    pub edid: Option<Seq<u8>>,
}

impl View for RawOutput {
    type V = RawOutputView;

    open spec fn view(&self) -> RawOutputView {
        RawOutputView { name: self.name@, edid: self.edid.deep_view() }
    }
}

/// The fingerprint of a raw output's identification data.
pub fn fingerprint(edid: &Option<Vec<u8>>) -> (r: Option<String>)
    ensures
        r.deep_view() == fingerprint_of(edid.deep_view()),
{
    match edid {
        Some(bytes) => {
            let text = encode_hex(bytes);
            proof {
                assert(bytes.deep_view() =~= bytes@);
            }
            Some(text)
        },
        None => None,
    }
}

} // verus!
