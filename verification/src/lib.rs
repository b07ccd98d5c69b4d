pub mod binary;
pub mod bytes;
pub mod codec;
pub mod delimited;
pub mod digits;
pub mod replayer;
pub mod session;
pub mod structured;
pub mod tracker;

use vstd::prelude::*;

verus! {

/// A button label attached to a click sample. `Other` stands for any
/// physical button besides the three standard ones.
#[derive(Clone, Copy, Debug, PartialEq, Eq, Structural)]
pub enum ButtonLabel {
    Left,
    Right,
    Middle,
    Other,
}

/// One captured instant of pointer state: a position, an optional click,
/// and the time elapsed since the recording started, in microseconds.
#[derive(Clone, Copy, Debug, PartialEq, Eq, Structural)]
pub struct MouseEvent {
    pub x: i32,
    pub y: i32,
    pub button: Option<ButtonLabel>,
    pub time_us: u64,
}

/// The text of a button label, as every codec writes it.
pub open spec fn label_bytes(b: ButtonLabel) -> Seq<u8> {
    match b {
        ButtonLabel::Left => seq![76u8, 101u8, 102u8, 116u8],
        ButtonLabel::Right => seq![82u8, 105u8, 103u8, 104u8, 116u8],
        ButtonLabel::Middle => seq![77u8, 105u8, 100u8, 100u8, 108u8, 101u8],
        ButtonLabel::Other => seq![79u8, 116u8, 104u8, 101u8, 114u8],
    }
}

/// The label a stored button text stands for. A text that is none of the
/// three standard labels counts as `Other`: at replay it injects nothing,
/// exactly as an unrecognized label should.
pub open spec fn label_of_bytes(s: Seq<u8>) -> ButtonLabel {
    if s == label_bytes(ButtonLabel::Left) {
        ButtonLabel::Left
    } else if s == label_bytes(ButtonLabel::Right) {
        ButtonLabel::Right
    } else if s == label_bytes(ButtonLabel::Middle) {
        ButtonLabel::Middle
    } else {
        ButtonLabel::Other
    }
}

/// Label fidelity: writing a label and reading it back gives the label
/// written, for all four labels.
pub proof fn lemma_label_round_trip(b: ButtonLabel)
    ensures
        label_of_bytes(label_bytes(b)) == b,
{
    match b {
        ButtonLabel::Left => {
        },
        ButtonLabel::Right => {
            assert(label_bytes(ButtonLabel::Right).len() == 5);
            assert(label_bytes(ButtonLabel::Left).len() == 4);
        },
        ButtonLabel::Middle => {
            assert(label_bytes(ButtonLabel::Middle).len() == 6);
            assert(label_bytes(ButtonLabel::Left).len() == 4);
            assert(label_bytes(ButtonLabel::Right).len() == 5);
        },
        ButtonLabel::Other => {
            assert(label_bytes(ButtonLabel::Other).len() == 5);
            assert(label_bytes(ButtonLabel::Left).len() == 4);
            assert(label_bytes(ButtonLabel::Middle).len() == 6);
            assert(label_bytes(ButtonLabel::Other)[0] == 79);
            assert(label_bytes(ButtonLabel::Right)[0] == 82);
        },
    }
}

/// Appends the text of a label.
pub fn push_label(out: &mut Vec<u8>, b: ButtonLabel)
    ensures
        final(out)@ == old(out)@ + label_bytes(b),
{
    match b {
        ButtonLabel::Left => {
            out.push(76);
            out.push(101);
            out.push(102);
            out.push(116);
        },
        ButtonLabel::Right => {
            out.push(82);
            out.push(105);
            out.push(103);
            out.push(104);
            out.push(116);
        },
        ButtonLabel::Middle => {
            out.push(77);
            out.push(105);
            out.push(100);
            out.push(100);
            out.push(108);
            out.push(101);
        },
        ButtonLabel::Other => {
            out.push(79);
            out.push(116);
            out.push(104);
            out.push(101);
            out.push(114);
        },
    }
    proof {
        assert(out@ =~= old(out)@ + label_bytes(b));
    }
}

/// Reads a stored button text back as a label.
pub fn label_from(seg: &[u8]) -> (b: ButtonLabel)
    ensures
        b == label_of_bytes(seg@),
{
    let mut pat: Vec<u8> = Vec::new();
    push_label(&mut pat, ButtonLabel::Left);
    if crate::bytes::bytes_eq(seg, pat.as_slice()) {
        return ButtonLabel::Left;
    }
    let mut pat: Vec<u8> = Vec::new();
    push_label(&mut pat, ButtonLabel::Right);
    if crate::bytes::bytes_eq(seg, pat.as_slice()) {
        return ButtonLabel::Right;
    }
    let mut pat: Vec<u8> = Vec::new();
    push_label(&mut pat, ButtonLabel::Middle);
    if crate::bytes::bytes_eq(seg, pat.as_slice()) {
        return ButtonLabel::Middle;
    }
    ButtonLabel::Other
}

} // verus!
