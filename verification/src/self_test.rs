//! A device tests itself: it plays a frame, records it and tries to read it.

use vstd::prelude::*;
use crate::framing;
use crate::framing::{Frame, FrameHeader, FrameType, PhyMode};

verus! {

pub const DSP_RATE: u32 = 48_000;

/// Samples of silence before and after the frame, a third of a second each.
pub const SILENCE: usize = 16_000;

/// The text that is sent: `SONIC self-test`.
pub open spec fn payload() -> Seq<u8> {
    seq![83, 79, 78, 73, 67, 32, 115, 101, 108, 102, 45, 116, 101, 115, 116]
}

/// The bytes of the frame that is played.
pub fn test_frame(mode: PhyMode) -> (r: Vec<u8>)
    ensures
        r@ == framing::serialized(
            (FrameHeader {
                mode,
                frame_type: FrameType::Data,
                src: 0,
                seq: 0,
                ack: 0,
                sack: 0,
            }),
            payload(),
        ),
{
    let text: Vec<u8> = vec![83, 79, 78, 73, 67, 32, 115, 101, 108, 102, 45, 116, 101, 115, 116];
    assert(text@ =~= payload());
    let frame: Frame = Frame::new(FrameHeader::new(mode, FrameType::Data, 0), text);
    frame.serialize()
}

/// How long samples play, in milliseconds.
pub fn play_ms(samples: usize, rate: u32) -> (r: u128)
    requires
        rate > 0,
    ensures
        r == samples * 1000 / (rate as int),
{
    samples as u128 * 1000 / rate as u128
}

/// What came of the test.
#[derive(Debug, Clone, Copy, PartialEq, Eq, Structural)]
pub enum Diagnosis {
    /// The frame was read without a fault.
    Works,
    /// The microphone hears next to nothing.
    Deaf,
    /// The frame was found, and read with faults.
    Damaged,
    /// Something was heard, and no frame found.
    NoSync,
}

/// Whether a frame was found, and whether it is the one that was played.
pub fn compare_frames(found: &Option<Vec<u8>>, sent: &Vec<u8>) -> (r: (bool, bool))
    ensures
        r.0 <==> found is Some,
        r.1 <==> (found matches Some(bytes) && bytes@ == sent@),
{
    match found {
        Some(bytes) => {
            if bytes.len() != sent.len() {
                return (true, false);
            }
            let mut i: usize = 0;
            while i < bytes.len()
                invariant
                    i <= bytes@.len(),
                    bytes@.len() == sent@.len(),
                    found is Some,
                    found->0@ == bytes@,
                    forall|k: int| 0 <= k < i ==> bytes@[k] == sent@[k],
                decreases bytes@.len() - i,
            {
                if bytes[i] != sent[i] {
                    return (true, false);
                }
                i += 1;
            }
            assert(bytes@ =~= sent@);
            (true, true)
        },
        None => (false, false),
    }
}

/// The diagnosis: `quiet` says that the loudest sample was below a hundredth.
pub fn verdict(detected: bool, matched: bool, quiet: bool) -> (r: Diagnosis)
    ensures
        r == (if matched {
            Diagnosis::Works
        } else if quiet {
            Diagnosis::Deaf
        } else if detected {
            Diagnosis::Damaged
        } else {
            Diagnosis::NoSync
        }),
{
    if matched {
        Diagnosis::Works
    } else if quiet {
        Diagnosis::Deaf
    } else if detected {
        Diagnosis::Damaged
    } else {
        Diagnosis::NoSync
    }
}

/// The bytes that are sent spell the text.
pub proof fn law_what_is_sent()
    ensures
        vstd::utf8::encode_utf8("SONIC self-test"@) == payload(),
{
    reveal_strlit("SONIC self-test");
    assert("SONIC self-test"@ =~= crate::text::ascii_chars(payload()));
    crate::text::lemma_ascii_encodes(payload());
}

/// The silence around the signal lasts a third of a second.
pub proof fn law_length_of_silence()
    ensures
        DSP_RATE == 48_000,
        3 * SILENCE == DSP_RATE,
{
}

} // verus!
