//! Frames: bytes with a header, a payload and a checksum.
//!
//! ```text
//! +---------------------- header (12 bytes) -----------------------+-- payload --+- CRC-32 -+
//! | magic  version|mode  type  source  seq(2)  ack(2)  sack bitmap(4) |     ..      |    4     |
//! +----------------------------------------------------------------+-------------+----------+
//! ```
//!
//! The source is an identifier that a device draws for a session. A receiver drops frames with
//! its own source, which are its own echo, and takes those with another. The mode says how the
//! payload is encoded, so a receiver need not know it beforehand. Acknowledgements travel in the
//! header of every frame.

use vstd::prelude::*;
use vstd::slice::{slice_subrange, slice_to_vec};
use crate::crc;

verus! {

/// How a payload is modulated, from the sturdiest to the fastest.
#[derive(Debug, Clone, Copy, PartialEq, Eq, Structural)]
pub enum PhyMode {
    /// Chirp spread spectrum, the sturdiest, in which a link starts.
    Css,
    /// Tones, received without coherence: faster, and tolerant of frequency and timing errors.
    Mfsk,
    /// Subcarriers with phase keying.
    OfdmQpsk,
    /// Subcarriers with amplitude and phase keying, the fastest.
    Ofdm16Qam,
}

impl PhyMode {
    /// The number that stands for a mode in a header.
    pub open spec fn bits(self) -> u8 {
        match self {
            PhyMode::Css => 0,
            PhyMode::Mfsk => 1,
            PhyMode::OfdmQpsk => 2,
            PhyMode::Ofdm16Qam => 3,
        }
    }

    /// The mode that a number stands for.
    pub open spec fn of_bits(b: u8) -> Option<PhyMode> {
        if b == 0 {
            Some(PhyMode::Css)
        } else if b == 1 {
            Some(PhyMode::Mfsk)
        } else if b == 2 {
            Some(PhyMode::OfdmQpsk)
        } else if b == 3 {
            Some(PhyMode::Ofdm16Qam)
        } else {
            None
        }
    }

    pub open spec fn ofdm(self) -> bool {
        self is OfdmQpsk || self is Ofdm16Qam
    }

    pub open spec fn name(self) -> Seq<char> {
        match self {
            PhyMode::Css => "CSS"@,
            PhyMode::Mfsk => "MFSK"@,
            PhyMode::OfdmQpsk => "OFDM-QPSK"@,
            PhyMode::Ofdm16Qam => "OFDM-16QAM"@,
        }
    }

    pub fn to_bits(self) -> (r: u8)
        ensures
            r == self.bits(),
    {
        match self {
            PhyMode::Css => 0,
            PhyMode::Mfsk => 1,
            PhyMode::OfdmQpsk => 2,
            PhyMode::Ofdm16Qam => 3,
        }
    }

    pub fn from_bits(b: u8) -> (r: Option<Self>)
        ensures
            r == PhyMode::of_bits(b),
    {
        match b {
            0 => Some(PhyMode::Css),
            1 => Some(PhyMode::Mfsk),
            2 => Some(PhyMode::OfdmQpsk),
            3 => Some(PhyMode::Ofdm16Qam),
            _ => None,
        }
    }

    pub fn is_ofdm(self) -> (r: bool)
        ensures
            r == self.ofdm(),
    {
        match self {
            PhyMode::OfdmQpsk | PhyMode::Ofdm16Qam => true,
            _ => false,
        }
    }

    /// The name that a mode is shown by.
    pub fn label(self) -> (r: &'static str)
        ensures
            r@ == self.name(),
    {
        match self {
            PhyMode::Css => "CSS",
            PhyMode::Mfsk => "MFSK",
            PhyMode::OfdmQpsk => "OFDM-QPSK",
            PhyMode::Ofdm16Qam => "OFDM-16QAM",
        }
    }
}

/// What a frame is for. Control frames are always sent by chirps.
#[derive(Debug, Clone, Copy, PartialEq, Eq, Structural)]
pub enum FrameType {
    Hello,
    HelloAck,
    Data,
    Ack,
    Nack,
    ModeRequest,
    Ping,
    Bye,
}

impl FrameType {
    pub open spec fn bits(self) -> u8 {
        match self {
            FrameType::Hello => 0,
            FrameType::HelloAck => 1,
            FrameType::Data => 2,
            FrameType::Ack => 3,
            FrameType::Nack => 4,
            FrameType::ModeRequest => 5,
            FrameType::Ping => 6,
            FrameType::Bye => 7,
        }
    }

    pub open spec fn of_bits(b: u8) -> Option<FrameType> {
        if b == 0 {
            Some(FrameType::Hello)
        } else if b == 1 {
            Some(FrameType::HelloAck)
        } else if b == 2 {
            Some(FrameType::Data)
        } else if b == 3 {
            Some(FrameType::Ack)
        } else if b == 4 {
            Some(FrameType::Nack)
        } else if b == 5 {
            Some(FrameType::ModeRequest)
        } else if b == 6 {
            Some(FrameType::Ping)
        } else if b == 7 {
            Some(FrameType::Bye)
        } else {
            None
        }
    }

    fn to_bits(self) -> (r: u8)
        ensures
            r == self.bits(),
    {
        match self {
            FrameType::Hello => 0,
            FrameType::HelloAck => 1,
            FrameType::Data => 2,
            FrameType::Ack => 3,
            FrameType::Nack => 4,
            FrameType::ModeRequest => 5,
            FrameType::Ping => 6,
            FrameType::Bye => 7,
        }
    }

    fn from_bits(b: u8) -> (r: Option<Self>)
        ensures
            r == FrameType::of_bits(b),
    {
        match b {
            0 => Some(FrameType::Hello),
            1 => Some(FrameType::HelloAck),
            2 => Some(FrameType::Data),
            3 => Some(FrameType::Ack),
            4 => Some(FrameType::Nack),
            5 => Some(FrameType::ModeRequest),
            6 => Some(FrameType::Ping),
            7 => Some(FrameType::Bye),
            _ => None,
        }
    }
}

pub const MAGIC: u8 = 0x2B;

pub const VERSION: u8 = 1;

pub const HEADER_LEN: usize = 12;

pub const CRC_LEN: usize = 4;

pub const OVERHEAD: usize = HEADER_LEN + CRC_LEN;

/// The header of a frame.
#[derive(Debug, Clone, Copy, PartialEq, Eq, Structural)]
pub struct FrameHeader {
    pub mode: PhyMode,
    pub frame_type: FrameType,
    /// The device that sent the frame, drawn for the session.
    pub src: u8,
    /// The sender's number of the frame.
    pub seq: u16,
    /// The last frame of the peer up to which all have arrived.
    pub ack: u16,
    /// Which of the 32 frames after `ack` have arrived, the lowest bit first.
    pub sack: u32,
}

impl FrameHeader {
    pub fn new(mode: PhyMode, frame_type: FrameType, src: u8) -> (r: Self)
        ensures
            r == (FrameHeader { mode, frame_type, src, seq: 0, ack: 0, sack: 0 }),
    {
        FrameHeader { mode, frame_type, src, seq: 0, ack: 0, sack: 0 }
    }
}

/// A header and the payload behind it.
#[derive(Debug, Clone, PartialEq, Eq)]
pub struct Frame {
    pub header: FrameHeader,
    pub payload: Vec<u8>,
}

/// Why bytes are no frame.
#[derive(Debug, Clone, Copy, PartialEq, Eq, Structural)]
pub enum FramingError {
    TooShort,
    BadMagic,
    BadVersion,
    BadCrc,
    BadField,
}

/// A number as two bytes, the higher first.
pub open spec fn be16(x: u16) -> Seq<u8> {
    seq![(x / 256) as u8, (x % 256) as u8]
}

/// A number as four bytes, the highest first.
pub open spec fn be32(x: u32) -> Seq<u8> {
    seq![
        (x / 0x1000000) as u8,
        (x / 0x10000 % 256) as u8,
        (x / 0x100 % 256) as u8,
        (x % 256) as u8,
    ]
}

pub open spec fn from_be16(hi: u8, lo: u8) -> u16 {
    (hi * 256 + lo) as u16
}

pub open spec fn from_be32(a: u8, b: u8, c: u8, d: u8) -> u32 {
    (a * 0x1000000 + b * 0x10000 + c * 0x100 + d) as u32
}

/// The twelve bytes of a header.
pub open spec fn header_bytes(h: FrameHeader) -> Seq<u8> {
    seq![MAGIC, (VERSION * 16 + h.mode.bits()) as u8, h.frame_type.bits(), h.src] + be16(h.seq)
        + be16(h.ack) + be32(h.sack)
}

/// The bytes of a frame.
pub open spec fn serialized(h: FrameHeader, payload: Seq<u8>) -> Seq<u8> {
    let body = header_bytes(h) + payload;
    body + be32(crc::crc32_ieee(body))
}

/// The frame that bytes hold, or the first thing that is wrong with them.
pub open spec fn parsed(bytes: Seq<u8>) -> Result<(FrameHeader, Seq<u8>), FramingError> {
    let n = bytes.len();
    if n < OVERHEAD {
        Err(FramingError::TooShort)
    } else if bytes[0] != MAGIC {
        Err(FramingError::BadMagic)
    } else if bytes[1] / 16 != VERSION {
        Err(FramingError::BadVersion)
    } else if crc::crc32_ieee(bytes.take(n - 4)) != from_be32(
        bytes[n - 4],
        bytes[n - 3],
        bytes[n - 2],
        bytes[n - 1],
    ) {
        Err(FramingError::BadCrc)
    } else {
        match (PhyMode::of_bits(bytes[1] % 16), FrameType::of_bits(bytes[2])) {
            (Some(mode), Some(frame_type)) => Ok(
                (
                    FrameHeader {
                        mode,
                        frame_type,
                        src: bytes[3],
                        seq: from_be16(bytes[4], bytes[5]),
                        ack: from_be16(bytes[6], bytes[7]),
                        sack: from_be32(bytes[8], bytes[9], bytes[10], bytes[11]),
                    },
                    bytes.subrange(12, n - 4),
                ),
            ),
            _ => Err(FramingError::BadField),
        }
    }
}

proof fn lemma_be16(x: u16)
    ensures
        from_be16(be16(x)[0], be16(x)[1]) == x,
{
}

proof fn lemma_be32(x: u32)
    ensures
        from_be32(be32(x)[0], be32(x)[1], be32(x)[2], be32(x)[3]) == x,
{
    let a = x / 0x1000000;
    let b = x / 0x10000 % 256;
    let c = x / 0x100 % 256;
    let d = x % 256;
    assert(x / 0x10000 == a * 256 + b);
    assert(x / 0x100 == (x / 0x10000) * 256 + c);
    assert(x == (x / 0x100) * 256 + d);
}

/// Reading back what was written gives the frame.
pub proof fn law_parse_serialize(h: FrameHeader, payload: Seq<u8>)
    ensures
        parsed(serialized(h, payload)) == Ok::<(FrameHeader, Seq<u8>), FramingError>((h, payload)),
{
    let body = header_bytes(h) + payload;
    let b = serialized(h, payload);
    let n = b.len() as int;
    assert(b.take(n - 4) =~= body);
    assert(b.subrange(12, n - 4) =~= payload);
    lemma_be16(h.seq);
    lemma_be16(h.ack);
    lemma_be32(h.sack);
    lemma_be32(crc::crc32_ieee(body));
}

/// Bytes that parse are exactly those that the frame found in them is written as: a frame has one
/// spelling.
pub proof fn law_serialize_parse(bytes: Seq<u8>)
    requires
        parsed(bytes) is Ok,
    ensures
        ({
            let (h, payload) = parsed(bytes)->Ok_0;
            serialized(h, payload) == bytes
        }),
{
    let (h, payload) = parsed(bytes)->Ok_0;
    let n = bytes.len() as int;
    let body = header_bytes(h) + payload;
    lemma_be32_back(bytes[8], bytes[9], bytes[10], bytes[11]);
    lemma_be32_back(bytes[n - 4], bytes[n - 3], bytes[n - 2], bytes[n - 1]);
    assert(bytes.take(n - 4) =~= body) by {
        assert forall|i: int| 0 <= i < n - 4 implies bytes[i] == body[i] by {
            if i >= 12 {
                assert(payload[i - 12] == bytes[i]);
            }
        }
    }
    assert(serialized(h, payload) =~= bytes) by {
        assert forall|i: int| 0 <= i < n implies bytes[i] == serialized(h, payload)[i] by {
            if i < n - 4 {
                assert(bytes.take(n - 4)[i] == body[i]);
            }
        }
    }
}

proof fn lemma_be32_back(a: u8, b: u8, c: u8, d: u8)
    ensures
        be32(from_be32(a, b, c, d)) =~= seq![a, b, c, d],
{
    let x = from_be32(a, b, c, d);
    assert(x / 0x1000000 == a);
    assert(x / 0x10000 == a * 256 + b);
    assert(x / 0x100 == (a * 256 + b) * 256 + c);
}

/// A frame of which up to four bytes in a row before the checksum are damaged on the way is refused,
/// for its checksum if the damage is behind the first two bytes.
pub proof fn law_damage_refused(h: FrameHeader, payload: Seq<u8>, got: Seq<u8>, at: int)
    requires
        got.len() == serialized(h, payload).len(),
        got != serialized(h, payload),
        0 <= at,
        at + 4 <= got.len() - 4,
        forall|i: int|
            0 <= i < got.len() && !(at <= i < at + 4) ==> #[trigger] got[i] == serialized(
                h,
                payload,
            )[i],
    ensures
        parsed(got) is Err,
        at >= 2 ==> parsed(got) == Err::<(FrameHeader, Seq<u8>), FramingError>(
            FramingError::BadCrc,
        ),
{
    let sent = serialized(h, payload);
    let body = header_bytes(h) + payload;
    let n = got.len() as int;
    assert(sent.take(n - 4) =~= body);
    let broken = got.take(n - 4);
    assert(broken != body) by {
        if broken == body {
            assert forall|i: int| 0 <= i < n implies got[i] == sent[i] by {
                if i < n - 4 {
                    assert(broken[i] == body[i]);
                }
            }
            assert(got =~= sent);
        }
    }
    crc::law_short_burst_changes_checksum(broken, body, at);
    lemma_be32(crc::crc32_ieee(body));
    if at >= 2 {
        assert(got[0] == sent[0]);
        assert(got[1] == sent[1]);
    }
    assert(got[n - 4] == sent[n - 4]);
    assert(got[n - 3] == sent[n - 3]);
    assert(got[n - 2] == sent[n - 2]);
    assert(got[n - 1] == sent[n - 1]);
}

/// A frame whose checksum alone is damaged is refused.
pub proof fn law_damaged_checksum_refused(h: FrameHeader, payload: Seq<u8>, got: Seq<u8>)
    requires
        got.len() == serialized(h, payload).len(),
        got != serialized(h, payload),
        forall|i: int|
            0 <= i < got.len() - 4 ==> #[trigger] got[i] == serialized(h, payload)[i],
    ensures
        parsed(got) == Err::<(FrameHeader, Seq<u8>), FramingError>(FramingError::BadCrc),
{
    let sent = serialized(h, payload);
    let body = header_bytes(h) + payload;
    let n = got.len() as int;
    assert(got.take(n - 4) =~= body) by {
        assert forall|i: int| 0 <= i < n - 4 implies got[i] == body[i] by {
            assert(got[i] == sent[i]);
        }
    }
    assert(got[0] == sent[0]);
    assert(got[1] == sent[1]);
    lemma_be32_back(got[n - 4], got[n - 3], got[n - 2], got[n - 1]);
    if parsed(got) != Err::<(FrameHeader, Seq<u8>), FramingError>(FramingError::BadCrc) {
        let tail = seq![got[n - 4], got[n - 3], got[n - 2], got[n - 1]];
        assert(tail =~= be32(crc::crc32_ieee(body)));
        assert forall|i: int| 0 <= i < n implies got[i] == sent[i] by {
            if i >= n - 4 {
                assert(tail[i - (n - 4)] == be32(crc::crc32_ieee(body))[i - (n - 4)]);
            }
        }
        assert(got =~= sent);
    }
}

fn push_be16(out: &mut Vec<u8>, x: u16)
    ensures
        final(out)@ == old(out)@ + be16(x),
{
    out.push((x / 256) as u8);
    out.push((x % 256) as u8);
    assert(out@ =~= old(out)@ + be16(x));
}

fn push_be32(out: &mut Vec<u8>, x: u32)
    ensures
        final(out)@ == old(out)@ + be32(x),
{
    out.push((x / 0x1000000) as u8);
    out.push((x / 0x10000 % 256) as u8);
    out.push((x / 0x100 % 256) as u8);
    out.push((x % 256) as u8);
    assert(out@ =~= old(out)@ + be32(x));
}

fn read_be32(a: u8, b: u8, c: u8, d: u8) -> (r: u32)
    ensures
        r == from_be32(a, b, c, d),
{
    a as u32 * 0x1000000 + b as u32 * 0x10000 + c as u32 * 0x100 + d as u32
}

impl Frame {
    pub fn new(header: FrameHeader, payload: Vec<u8>) -> (r: Self)
        ensures
            r.header == header,
            r.payload == payload,
    {
        Frame { header, payload }
    }

    /// The header, the payload and the checksum of both.
    pub fn serialize(&self) -> (r: Vec<u8>)
        requires
            self.payload@.len() + OVERHEAD <= usize::MAX,
        ensures
            r@ == serialized(self.header, self.payload@),
    {
        let h: &FrameHeader = &self.header;
        let mut out: Vec<u8> = Vec::with_capacity(OVERHEAD + self.payload.len());
        out.push(MAGIC);
        out.push(VERSION * 16 + h.mode.to_bits());
        out.push(h.frame_type.to_bits());
        out.push(h.src);
        push_be16(&mut out, h.seq);
        push_be16(&mut out, h.ack);
        push_be32(&mut out, h.sack);
        assert(out@ =~= header_bytes(self.header));
        out.extend_from_slice(&self.payload);
        assert(out@ =~= header_bytes(self.header) + self.payload@);
        let crc: u32 = crate::crc::crc32(&out);
        push_be32(&mut out, crc);
        out
    }

    /// Takes bytes apart and checks all of them.
    pub fn parse(bytes: &[u8]) -> (r: Result<Frame, FramingError>)
        ensures
            (match r {
                Ok(frame) => Ok((frame.header, frame.payload@)),
                Err(error) => Err(error),
            }) == parsed(bytes@),
    {
        if bytes.len() < OVERHEAD {
            return Err(FramingError::TooShort);
        }
        if bytes[0] != MAGIC {
            return Err(FramingError::BadMagic);
        }
        let version: u8 = bytes[1] / 16;
        if version != VERSION {
            return Err(FramingError::BadVersion);
        }
        let body_len: usize = bytes.len() - CRC_LEN;
        let body: &[u8] = slice_subrange(bytes, 0, body_len);
        assert(body@ =~= bytes@.take(body_len as int));
        let crc: u32 = crate::crc::crc32(body);
        let got: u32 = read_be32(
            bytes[body_len],
            bytes[body_len + 1],
            bytes[body_len + 2],
            bytes[body_len + 3],
        );
        if crc != got {
            return Err(FramingError::BadCrc);
        }
        let mode: PhyMode = match PhyMode::from_bits(bytes[1] % 16) {
            Some(m) => m,
            None => {
                return Err(FramingError::BadField);
            },
        };
        let frame_type: FrameType = match FrameType::from_bits(bytes[2]) {
            Some(t) => t,
            None => {
                return Err(FramingError::BadField);
            },
        };
        let src: u8 = bytes[3];
        let seq: u16 = bytes[4] as u16 * 256 + bytes[5] as u16;
        let ack: u16 = bytes[6] as u16 * 256 + bytes[7] as u16;
        let sack: u32 = read_be32(bytes[8], bytes[9], bytes[10], bytes[11]);
        let payload: Vec<u8> = slice_to_vec(slice_subrange(bytes, HEADER_LEN, body_len));
        Ok(Frame { header: FrameHeader { mode, frame_type, src, seq, ack, sack }, payload })
    }
}

/// Where everything lies in the bytes of a frame: the magic byte, the version in the upper half and
/// the mode in the lower half of the second byte, the type, the source, the numbers with their
/// highest byte first, the payload, and at the end the checksum of all that is before it.
pub proof fn law_where_bytes_lie(h: FrameHeader, payload: Seq<u8>)
    ensures
        ({
            let b = serialized(h, payload);
            let n = b.len() as int;
            &&& n == payload.len() + 16
            &&& b[0] == 0x2B
            &&& b[1] / 16 == 1
            &&& b[3] == h.src
            &&& b[4] * 256 + b[5] == h.seq
            &&& b[6] * 256 + b[7] == h.ack
            &&& ((b[8] * 256 + b[9]) * 256 + b[10]) * 256 + b[11] == h.sack
            &&& b.subrange(12, n - 4) == payload
            &&& ((b[n - 4] * 256 + b[n - 3]) * 256 + b[n - 2]) * 256 + b[n - 1] == crc::crc32_ieee(
                b.take(n - 4),
            )
        }),
{
    let body = header_bytes(h) + payload;
    let b = serialized(h, payload);
    let c = crc::crc32_ieee(body);
    lemma_be16(h.seq);
    lemma_be16(h.ack);
    lemma_be32(h.sack);
    lemma_be32(c);
    assert(header_bytes(h).len() == 12);
    assert(b.subrange(12, b.len() - 4) =~= payload);
    assert(b.take(b.len() - 4) =~= body);
    assert(b[b.len() - 4] == be32(c)[0] && b[b.len() - 3] == be32(c)[1] && b[b.len() - 2] == be32(
        c,
    )[2] && b[b.len() - 1] == be32(c)[3]);
}

/// The numbers of the modes and of the types in a frame.
pub proof fn law_numbers_in_a_header(h: FrameHeader, payload: Seq<u8>)
    ensures
        ({
            let mode = serialized(h, payload)[1];
            let kind = serialized(h, payload)[2];
            &&& h.mode is Css <==> mode == 0x10
            &&& h.mode is Mfsk <==> mode == 0x11
            &&& h.mode is OfdmQpsk <==> mode == 0x12
            &&& h.mode is Ofdm16Qam <==> mode == 0x13
            &&& h.frame_type is Hello <==> kind == 0
            &&& h.frame_type is HelloAck <==> kind == 1
            &&& h.frame_type is Data <==> kind == 2
            &&& h.frame_type is Ack <==> kind == 3
            &&& h.frame_type is Nack <==> kind == 4
            &&& h.frame_type is ModeRequest <==> kind == 5
            &&& h.frame_type is Ping <==> kind == 6
            &&& h.frame_type is Bye <==> kind == 7
        }),
{
    assert(header_bytes(h).len() == 12);
    assert(serialized(h, payload)[1] == header_bytes(h)[1]);
    assert(serialized(h, payload)[2] == header_bytes(h)[2]);
}

/// Which bytes are refused, and for what: the first of the length, the magic byte, the version, the
/// checksum and the fields that is wrong. All others are a frame.
pub proof fn law_what_is_refused(b: Seq<u8>)
    ensures
        ({
            let n = b.len() as int;
            let e = parsed(b);
            let sum = ((b[n - 4] * 256 + b[n - 3]) * 256 + b[n - 2]) * 256 + b[n - 1];
            let whole = sum == crc::crc32_ieee(b.take(n - 4));
            if n < 16 {
                e == Err::<(FrameHeader, Seq<u8>), FramingError>(FramingError::TooShort)
            } else if b[0] != 0x2B {
                e == Err::<(FrameHeader, Seq<u8>), FramingError>(FramingError::BadMagic)
            } else if !(0x10 <= b[1] <= 0x1F) {
                e == Err::<(FrameHeader, Seq<u8>), FramingError>(FramingError::BadVersion)
            } else if !whole {
                e == Err::<(FrameHeader, Seq<u8>), FramingError>(FramingError::BadCrc)
            } else if b[1] > 0x13 || b[2] > 7 {
                e == Err::<(FrameHeader, Seq<u8>), FramingError>(FramingError::BadField)
            } else {
                e is Ok
            }
        }),
{
}

/// A mode is shown by its name, and two of the four send on subcarriers.
pub proof fn law_names_of_modes()
    ensures
        PhyMode::Css.name() == "CSS"@,
        PhyMode::Mfsk.name() == "MFSK"@,
        PhyMode::OfdmQpsk.name() == "OFDM-QPSK"@,
        PhyMode::Ofdm16Qam.name() == "OFDM-16QAM"@,
        !PhyMode::Css.ofdm(),
        !PhyMode::Mfsk.ofdm(),
        PhyMode::OfdmQpsk.ofdm(),
        PhyMode::Ofdm16Qam.ofdm(),
{
}

} // verus!
