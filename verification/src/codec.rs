use vstd::prelude::*;
use crate::MouseEvent;

verus! {

/// Why a persisted byte stream was rejected. Decoding never guesses: a
/// malformed input yields an error, never a partially filled timeline.
#[derive(Clone, Copy, Debug, PartialEq, Eq, Structural)]
pub enum DecodeError {
    /// Delimited text: the header line is absent or not `x,y,button,time`.
    MissingHeader,
    /// Delimited text: this row (1-based, header excluded) has the wrong
    /// number of fields or a non-numeric `x`, `y` or `time`.
    BadRow { row: usize },
    /// Structured text: the document is not an array of well-formed samples.
    Malformed,
    /// Binary: the bytes end before the encoded value does.
    Truncated,
    /// Binary: bytes are left over after the encoded value.
    Trailing,
    /// Binary: an option tag byte that is neither 0 nor 1.
    BadTag,
}

/// The three interchangeable on-disk encodings of a timeline.
#[derive(Clone, Copy, Debug, PartialEq, Eq, Structural)]
pub enum Format {
    Delimited,
    Structured,
    Binary,
}

/// Relates an executable decode result to its specification-level value.
pub open spec fn decode_matches(
    r: Result<Vec<MouseEvent>, DecodeError>,
    s: Result<Seq<MouseEvent>, DecodeError>,
) -> bool {
    match (r, s) {
        (Ok(v), Ok(q)) => v@ == q,
        (Err(e), Err(f)) => e == f,
        _ => false,
    }
}

/// What a timeline encodes to, format by format.
pub open spec fn encode_spec(s: Seq<MouseEvent>, f: Format) -> Seq<u8> {
    match f {
        Format::Delimited => crate::delimited::encode_spec(s),
        Format::Structured => crate::structured::encode_spec(s),
        Format::Binary => crate::binary::encode_spec(s),
    }
}

/// What stored bytes decode to, format by format.
pub open spec fn decode_spec(b: Seq<u8>, f: Format) -> Result<Seq<MouseEvent>, DecodeError> {
    match f {
        Format::Delimited => crate::delimited::decode_spec(b),
        Format::Structured => crate::structured::decode_spec(b),
        Format::Binary => crate::binary::decode_spec(b),
    }
}

/// Encodes a timeline in the chosen format, exactly as `encode_spec` says.
pub fn encode(events: &Vec<MouseEvent>, format: Format) -> (r: Vec<u8>)
    ensures
        r@ == encode_spec(events@, format),
{
    match format {
        Format::Delimited => crate::delimited::encode(events),
        Format::Structured => crate::structured::encode(events),
        Format::Binary => crate::binary::encode(events),
    }
}

/// Decodes stored bytes in the chosen format; every malformed input is an
/// error, exactly as `decode_spec` says.
pub fn decode(bytes: &[u8], format: Format) -> (r: Result<Vec<MouseEvent>, DecodeError>)
    ensures
        decode_matches(r, decode_spec(bytes@, format)),
{
    match format {
        Format::Delimited => crate::delimited::decode(bytes),
        Format::Structured => crate::structured::decode(bytes),
        Format::Binary => crate::binary::decode(bytes),
    }
}

/// The round-trip law, one statement across all three formats: decoding an
/// encoded timeline gives back exactly the timeline encoded, the empty one
/// included. The length bound is the binary count field's machine limit;
/// every timeline that fits in memory is under it.
pub proof fn lemma_round_trip(s: Seq<MouseEvent>, f: Format)
    requires
        s.len() < 0x1_0000_0000_0000_0000,
    ensures
        decode_spec(encode_spec(s, f), f) == Ok::<Seq<MouseEvent>, DecodeError>(s),
{
    match f {
        Format::Delimited => crate::delimited::lemma_round_trip(s),
        Format::Structured => crate::structured::lemma_round_trip(s),
        Format::Binary => crate::binary::lemma_round_trip(s),
    }
}

} // verus!
