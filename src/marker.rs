//! A single trait value, held as the bit pattern of a 32-bit IEEE-754 float.
use vstd::prelude::*;
use crate::codec::{hex_text, read_hex, lemma_hex_text_read, pow16, u32_from_str, u32_to_string, DecodeError};

verus! {

/// One trait value. `bits` is the exact bit pattern of the 32-bit float it stands for,
/// so NaN, infinities, zeros of both signs and subnormals are all kept as they are.
#[derive(Debug, Clone, Copy, PartialEq, Eq, Structural)]
pub struct Marker {
    pub bits: u32,
}

/// The text of a marker: eight lowercase hexadecimal digits, most significant first.
pub open spec fn marker_text(bits: u32) -> Seq<char> {
    hex_text(bits as nat, 8)
}

/// Reading a marker's text back gives the same bit pattern.
pub proof fn lemma_marker_round_trip(m: Marker)
    ensures
        read_hex(marker_text(m.bits), 8) == Ok::<nat, DecodeError>(m.bits as nat),
        marker_text(m.bits).len() == 8,
{
    lemma_hex_text_read(m.bits as nat, 8);
    reveal_with_fuel(pow16, 9);
    assert(pow16(8) == 0x1_0000_0000);
}

impl Marker {
    /// A marker holding `sample`, the bit pattern of a value drawn from the standard
    /// normal distribution by the caller.
    pub fn new(sample: u32) -> (r: Marker)
        ensures
            r.bits == sample,
    {
        Marker { bits: sample }
    }

    /// The marker's eight-character text.
    pub fn to_string(&self) -> (r: String)
        ensures
            r@ == marker_text(self.bits),
    {
        u32_to_string(self.bits)
    }

    /// Reads a marker back from its eight-character text.
    pub fn decode(text: &str) -> (r: Result<Marker, DecodeError>)
        ensures
            match r {
                Ok(m) => read_hex(text@, 8) == Ok::<nat, DecodeError>(m.bits as nat),
                Err(e) => read_hex(text@, 8) == Err::<nat, DecodeError>(e),
            },
    {
        match u32_from_str(text) {
            Ok(bits) => Ok(Marker { bits }),
            Err(e) => Err(e),
        }
    }
}

} // verus!
