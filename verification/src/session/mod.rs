//! A messenger session: cuts messages into frames, sends them in a window, puts together what
//! arrives, acknowledges it, and chooses the mode by how the link does.
//!
//! The session holds no clock, no device and no socket. Whoever runs it passes the time and the
//! frames that were heard, and sends the frames that it hands out.

use std::collections::HashMap;
use std::collections::VecDeque;
use vstd::prelude::*;
use crate::arq::fallback;
use crate::arq::fallback::{AutoFallback, Standing};
use crate::arq::receiver;
use crate::arq::receiver::{ArqReceiver, Arrival, RxState};
use crate::arq::sender;
use crate::arq::sender::{ArqSender, Outstanding};
use crate::arq::{wrap, ArqConfig};
use crate::bandplan::Role;
use crate::fec;
use crate::fec::FecCodec;
use crate::framing;
use crate::framing::{Frame, FrameHeader, FrameType, FramingError, PhyMode};

pub mod message;

use message::{Assembler, Partial, FEC_K, FEC_NSYM};

verus! {

broadcast use vstd::std_specs::hash::group_hash_axioms;

/// How the mode is chosen: by the ladder, or by the user.
#[derive(Debug, Clone, Copy, PartialEq, Eq, Structural)]
pub enum ModePolicy {
    Auto,
    Force(PhyMode),
}

/// What the user asks of a session.
#[derive(Debug, PartialEq, Eq)]
pub enum SessionCommand {
    Send(String),
    SetMode(ModePolicy),
    Stop,
}

/// What came of a command.
#[derive(Debug, PartialEq, Eq)]
pub enum CommandDone {
    /// The message was queued: it counts as sent.
    Sent(MessageStatus),
    /// The mode was chosen.
    ModeSet,
    /// The session is over.
    Stopped,
}

/// A piece of a message that waits for room in the window.
pub struct PendingChunk {
    pub payload: Vec<u8>,
    pub msg_id: u16,
    pub text: String,
}

/// A frame to be sent.
#[derive(Debug, PartialEq, Eq)]
pub struct Outgoing {
    pub mode: PhyMode,
    pub bytes: Vec<u8>,
}

/// What a frame that was heard turned out to be.
#[derive(Debug, PartialEq, Eq)]
pub enum Incoming {
    /// No frame.
    Bad,
    /// The own echo.
    Echo,
    /// Data: the messages that it completed, and the acknowledgement to be sent.
    Data { messages: Vec<String>, reply: Outgoing },
    /// An acknowledgement: how many frames it took out of the window, and a measured round trip.
    Ack { acked: usize, rtt_ms: Option<u64> },
    /// Anything else.
    Other,
}

/// A message all of whose pieces have been cut and queued, or one whose piece was acknowledged.
#[derive(Debug, PartialEq, Eq)]
pub struct MessageStatus {
    pub msg_id: u16,
    pub text: String,
}

/// What a periodic check asks for.
#[derive(Debug, PartialEq, Eq)]
pub struct Tick {
    /// Frames to be sent again.
    pub resend: Vec<Outgoing>,
    /// The link is down.
    pub down: bool,
}

/// The limits for a mode.
pub open spec fn limits(mode: PhyMode, triple_rtt_ms: u64) -> ArqConfig {
    ArqConfig {
        window: if mode.ofdm() {
            32
        } else {
            4
        },
        timeout_ms: if triple_rtt_ms >= 300 {
            triple_rtt_ms
        } else {
            300
        },
        max_retries: 8,
    }
}

/// The source of a device in a session: the role sets the highest bit, and the others are drawn.
pub open spec fn source_of(role: Role, drawn: u8) -> u8 {
    (role.bit() * 128 + drawn % 128) as u8
}

/// The source that a device takes for a session, from a byte that was drawn at random.
pub fn session_source(role: Role, drawn: u8) -> (r: u8)
    ensures
        r == source_of(role, drawn),
{
    role.direction_bit() * 128 + drawn % 128
}

/// Devices in different roles never have the same source, whatever they draw, and devices in the
/// same role only if they draw the same seven bits.
pub proof fn law_sources_differ(a: Role, b: Role, drawn_a: u8, drawn_b: u8)
    ensures
        source_of(a, drawn_a) == source_of(b, drawn_b) <==> a == b && drawn_a % 128 == drawn_b
            % 128,
{
}

/// The mode in which frames are sent.
pub open spec fn mode_of(policy: ModePolicy, standing: Standing) -> PhyMode {
    match policy {
        ModePolicy::Force(mode) => mode,
        ModePolicy::Auto => fallback::rungs()[standing.level],
    }
}

/// The number of the message after a given one. Zero is never used.
pub open spec fn next_id(id: u16) -> u16 {
    if id == 0xFFFF {
        1
    } else {
        (id + 1) as u16
    }
}

/// The bytes of a frame that also carries what the receiver acknowledges.
pub open spec fn is_frame(
    bytes: Seq<u8>,
    mode: PhyMode,
    frame_type: FrameType,
    src: u8,
    seq: u16,
    rx: RxState<Vec<u8>>,
    payload: Seq<u8>,
) -> bool {
    exists|ack: u16, sack: u32| #[trigger]
        receiver::reports(rx, ack, sack) && bytes == framing::serialized(
            (FrameHeader { mode, frame_type, src, seq, ack, sack }),
            payload,
        )
}

/// The sending side: the limits, the next number, the frames that wait for their acknowledgement,
/// how many were sent again, the pieces that wait for room, and what each number was sent for.
pub struct Sending {
    pub cfg: ArqConfig,
    pub next: u16,
    pub frames: Map<u16, Outstanding>,
    pub resent: u32,
    pub down: bool,
    pub queue: Seq<PendingChunk>,
    pub meta: Map<u16, (u16, String)>,
}

/// The pieces of a text were queued, each as one codeword.
pub open spec fn is_queued(
    before: Seq<PendingChunk>,
    after: Seq<PendingChunk>,
    text: Seq<char>,
    id: u16,
) -> bool {
    let bytes = vstd::utf8::encode_utf8(text);
    let n = message::piece_total(bytes.len());
    &&& after.len() == before.len() + n
    &&& after.take(before.len() as int) == before
    &&& forall|i: int|
        0 <= i < n ==> {
            let chunk = #[trigger] after[before.len() + i];
            &&& chunk.payload@ == fec::encoded(message::piece(bytes, id, i), 32, 16)
            &&& chunk.msg_id == id
            &&& chunk.text@ == text
        }
}

/// There is room, and there is something to send.
pub open spec fn can_pump(s: Sending) -> bool {
    !s.down && s.frames.len() < s.cfg.window && s.queue.len() > 0
}

/// The sending side after it sent the first piece that waits.
pub open spec fn pump_one(s: Sending, now_ms: u64) -> Sending {
    let chunk = s.queue[0];
    Sending {
        cfg: s.cfg,
        next: wrap(s.next + 1),
        frames: s.frames.insert(
            s.next,
            Outstanding { payload: chunk.payload, sent_at: now_ms, retries: 0 },
        ),
        resent: s.resent,
        down: s.down,
        queue: s.queue.skip(1),
        meta: s.meta.insert(s.next, (chunk.msg_id, chunk.text)),
    }
}

/// The sending side after it sent as many pieces as there is room for.
pub open spec fn pump_all(s: Sending, now_ms: u64) -> Sending
    decreases s.queue.len(),
{
    if can_pump(s) {
        pump_all(pump_one(s, now_ms), now_ms)
    } else {
        s
    }
}

/// The standing and the limits after some frames were acknowledged: each is a success, and the
/// limits are set anew whenever the mode changes.
pub open spec fn succeed(
    standing: Standing,
    cfg: ArqConfig,
    n: nat,
    triple_rtt_ms: u64,
) -> (Standing, ArqConfig)
    decreases n,
{
    if n == 0 {
        (standing, cfg)
    } else {
        let (s, c) = succeed(standing, cfg, (n - 1) as nat, triple_rtt_ms);
        let t = fallback::after_success(s);
        (
            t,
            if t.level != s.level {
                limits(fallback::rungs()[t.level], triple_rtt_ms)
            } else {
                c
            },
        )
    }
}

/// What payloads handed out in order do: each is decoded and put together, and the texts of the
/// messages completed come out, without what fills their last pieces. Payloads that cannot be decoded are dropped.
pub open spec fn absorb(partials: Map<u16, Partial>, payloads: Seq<Vec<u8>>) -> (
    Map<u16, Partial>,
    Seq<Seq<char>>,
)
    decreases payloads.len(),
{
    if payloads.len() == 0 {
        (partials, Seq::empty())
    } else {
        let (p, texts) = absorb(partials, payloads.drop_last());
        match fec::stream_decoded(payloads.last()@, 32, 16) {
            Ok(inner) => {
                let (q, full) = message::accepted(p, inner);
                match full {
                    Some(bytes) => match message::decoded_text(message::unfilled(bytes)) {
                        Some(text) => (q, texts.push(text)),
                        None => (q, texts),
                    },
                    None => (q, texts),
                }
            },
            Err(_) => (p, texts),
        }
    }
}

/// The texts of strings.
pub open spec fn texts_of(strings: Seq<String>) -> Seq<Seq<char>> {
    Seq::new(strings.len(), |i: int| strings[i]@)
}

pub struct Session {
    fec: FecCodec,
    src: u8,
    fb: AutoFallback,
    policy: ModePolicy,
    arq_tx: ArqSender,
    arq_rx: ArqReceiver<Vec<u8>>,
    sent_meta: HashMap<u16, (u16, String)>,
    out_queue: VecDeque<PendingChunk>,
    assembler: Assembler,
    next_msg_id: u16,
    frames_ok: u32,
    frames_bad: u32,
}

impl Session {
    pub closed spec fn source(&self) -> u8 {
        self.src
    }

    pub closed spec fn choice(&self) -> ModePolicy {
        self.policy
    }

    pub closed spec fn standing(&self) -> Standing {
        self.fb.standing()
    }

    pub closed spec fn sending(&self) -> Sending {
        Sending {
            cfg: self.arq_tx.config(),
            next: self.arq_tx.next(),
            frames: self.arq_tx.frames(),
            resent: self.arq_tx.resent_count(),
            down: self.arq_tx.down(),
            queue: self.out_queue@,
            meta: self.sent_meta@,
        }
    }

    pub closed spec fn receiving(&self) -> RxState<Vec<u8>> {
        self.arq_rx@
    }

    pub closed spec fn partials(&self) -> Map<u16, Partial> {
        self.assembler.partials()
    }

    pub closed spec fn next_message(&self) -> u16 {
        self.next_msg_id
    }

    pub closed spec fn good_frames(&self) -> u32 {
        self.frames_ok
    }

    pub closed spec fn bad_frames(&self) -> u32 {
        self.frames_bad
    }

    /// Every payload that waits is one codeword long, and no measured round trip is left behind.
    pub closed spec fn wf(&self) -> bool {
        &&& self.fec.wf()
        &&& self.fec.data_len() == 32
        &&& self.fec.checks() == 16
        &&& self.fb.wf()
        &&& self.arq_tx.rtt() is None
        &&& forall|i: int|
            0 <= i < self.out_queue@.len() ==> (#[trigger] self.out_queue@[i]).payload@.len() == 48
        &&& forall|seq: u16| #[trigger]
            self.arq_tx.frames().contains_key(seq) ==> self.arq_tx.frames()[seq].payload@.len()
                == 48
    }

    /// The mode in which frames are sent now.
    pub open spec fn mode(&self) -> PhyMode {
        mode_of(self.choice(), self.standing())
    }

    /// Nothing but the sending side has changed.
    pub open spec fn same_but_sending(&self, other: &Session) -> bool {
        &&& self.source() == other.source()
        &&& self.choice() == other.choice()
        &&& self.standing() == other.standing()
        &&& self.receiving() == other.receiving()
        &&& self.partials() == other.partials()
        &&& self.next_message() == other.next_message()
        &&& self.good_frames() == other.good_frames()
        &&& self.bad_frames() == other.bad_frames()
    }

    /// A session of a device with the given source. It starts by the ladder, on the rung of phase
    /// keying.
    pub fn new(src: u8, triple_rtt_ms: u64) -> (r: Self)
        ensures
            r.wf(),
            r.source() == src,
            r.choice() == ModePolicy::Auto,
            r.standing() == (Standing { level: 1, failures: 0, successes: 0 }),
            r.sending() == (Sending {
                cfg: limits(PhyMode::OfdmQpsk, triple_rtt_ms),
                next: 0,
                frames: Map::empty(),
                resent: 0,
                down: false,
                queue: Seq::empty(),
                meta: Map::empty(),
            }),
            r.receiving().expected == 0,
            r.receiving().pending == Map::<u16, Vec<u8>>::empty(),
            r.receiving().have == Set::<u16>::empty(),
            r.partials() == Map::<u16, Partial>::empty(),
            r.next_message() == 1,
            r.good_frames() == 0,
            r.bad_frames() == 0,
    {
        let mut fb: AutoFallback = AutoFallback::new();
        assert(fallback::rungs()[1] == PhyMode::OfdmQpsk);
        fb.force(PhyMode::OfdmQpsk);
        let cfg: ArqConfig = ArqConfig::for_mode(PhyMode::OfdmQpsk, triple_rtt_ms);
        Session {
            fec: FecCodec::new(FEC_K, FEC_NSYM),
            src,
            fb,
            policy: ModePolicy::Auto,
            arq_tx: ArqSender::new(cfg),
            arq_rx: ArqReceiver::new(),
            sent_meta: HashMap::new(),
            out_queue: VecDeque::new(),
            assembler: Assembler::new(),
            next_msg_id: 1,
            frames_ok: 0,
            frames_bad: 0,
        }
    }

    pub fn current_mode(&self) -> (r: PhyMode)
        requires
            self.wf(),
        ensures
            r == self.mode(),
    {
        match self.policy {
            ModePolicy::Force(mode) => mode,
            ModePolicy::Auto => self.fb.current(),
        }
    }

    /// Chooses how the mode is chosen. A mode that is forced is also where the ladder stands from
    /// then on, if it has a rung for it.
    pub fn set_mode(&mut self, policy: ModePolicy, triple_rtt_ms: u64)
        requires
            old(self).wf(),
        ensures
            final(self).wf(),
            final(self).choice() == policy,
            final(self).standing() == match policy {
                ModePolicy::Force(mode) => fallback::after_force(old(self).standing(), mode),
                ModePolicy::Auto => old(self).standing(),
            },
            final(self).sending() == (Sending {
                cfg: limits(final(self).mode(), triple_rtt_ms),
                ..old(self).sending()
            }),
            final(self).source() == old(self).source(),
            final(self).receiving() == old(self).receiving(),
            final(self).partials() == old(self).partials(),
            final(self).next_message() == old(self).next_message(),
            final(self).good_frames() == old(self).good_frames(),
            final(self).bad_frames() == old(self).bad_frames(),
    {
        self.policy = policy;
        match policy {
            ModePolicy::Force(mode) => {
                self.fb.force(mode);
            },
            ModePolicy::Auto => {},
        }
        let m: PhyMode = self.current_mode();
        self.arq_tx.set_config(ArqConfig::for_mode(m, triple_rtt_ms));
    }

    /// Cuts a message into pieces and queues them. Returns its number.
    #[verifier::spinoff_prover]
    #[verifier::rlimit(40)]
    pub fn enqueue_message(&mut self, text: &String) -> (r: u16)
        requires
            old(self).wf(),
            message::is_short(vstd::utf8::encode_utf8(text@).len()),
            old(self).sending().queue.len() + 256 <= usize::MAX,
        ensures
            final(self).wf(),
            r == old(self).next_message(),
            final(self).next_message() == next_id(r),
            is_queued(
                old(self).sending().queue,
                final(self).sending().queue,
                text@,
                r,
            ),
            final(self).sending() == (Sending {
                queue: final(self).sending().queue,
                ..old(self).sending()
            }),
            final(self).source() == old(self).source(),
            final(self).choice() == old(self).choice(),
            final(self).standing() == old(self).standing(),
            final(self).receiving() == old(self).receiving(),
            final(self).partials() == old(self).partials(),
            final(self).good_frames() == old(self).good_frames(),
            final(self).bad_frames() == old(self).bad_frames(),
    {
        let msg_id: u16 = self.next_msg_id;
        self.next_msg_id = if msg_id == 0xFFFF {
            1
        } else {
            msg_id + 1
        };
        let bytes: &[u8] = text.as_str().as_bytes();
        let ghost b = vstd::utf8::encode_utf8(text@);
        assert(bytes@ == b);
        let inners: Vec<Vec<u8>> = message::split_message(bytes, msg_id);
        let ghost before = self.out_queue@;
        let mut i: usize = 0;
        while i < inners.len()
            invariant
                i <= inners@.len(),
                inners@.len() == message::piece_total(b.len()),
                message::is_short(b.len()),
                forall|k: int|
                    0 <= k < inners@.len() ==> (#[trigger] inners@[k])@ == message::piece(
                        b,
                        msg_id,
                        k,
                    ),
                before == old(self).sending().queue,
                self.fec == old(self).fec,
                self.src == old(self).src,
                self.fb == old(self).fb,
                self.policy == old(self).policy,
                self.arq_tx == old(self).arq_tx,
                self.arq_rx == old(self).arq_rx,
                self.sent_meta == old(self).sent_meta,
                self.assembler == old(self).assembler,
                self.frames_ok == old(self).frames_ok,
                self.frames_bad == old(self).frames_bad,
                self.next_msg_id == next_id(msg_id),
                self.wf(),
                self.out_queue@.len() == before.len() + i,
                self.out_queue@.take(before.len() as int) == before,
                forall|k: int|
                    0 <= k < i ==> {
                        let chunk = #[trigger] self.out_queue@[before.len() + k];
                        &&& chunk.payload@ == fec::encoded(message::piece(b, msg_id, k), 32, 16)
                        &&& chunk.msg_id == msg_id
                        &&& chunk.text@ == text@
                    },
            decreases inners@.len() - i,
        {
            let ghost q0 = self.out_queue@;
            proof {
                assert(inners@[i as int]@ == message::piece(b, msg_id, i as int));
                lemma_payload_len(b, msg_id, i as int);
            }
            let payload: Vec<u8> = self.fec.encode(&inners[i]);
            let copy: String = text.clone();
            self.out_queue.push_back(PendingChunk { payload, msg_id, text: copy });
            proof {
                let q1 = self.out_queue@;
                assert(q1.take(before.len() as int) =~= q0.take(before.len() as int));
                assert forall|k: int| 0 <= k < q1.len() implies (#[trigger] q1[k]).payload@.len()
                    == 48 by {
                    if k < q0.len() {
                        assert(q1[k] == q0[k]);
                    }
                }
                assert forall|k: int| 0 <= k < i + 1 implies {
                    let chunk = #[trigger] q1[before.len() + k];
                    &&& chunk.payload@ == fec::encoded(message::piece(b, msg_id, k), 32, 16)
                    &&& chunk.msg_id == msg_id
                    &&& chunk.text@ == text@
                } by {
                    if k < i {
                        assert(q1[before.len() + k] == q0[before.len() + k]);
                    }
                }
            }
            i += 1;
        }
        msg_id
    }

    /// Does what the user asks.
    pub fn on_command(&mut self, command: SessionCommand, triple_rtt_ms: u64) -> (r: CommandDone)
        requires
            old(self).wf(),
            command matches SessionCommand::Send(text) ==> message::is_short(
                vstd::utf8::encode_utf8(text@).len(),
            ),
            old(self).sending().queue.len() + 256 <= usize::MAX,
        ensures
            final(self).wf(),
            final(self).source() == old(self).source(),
            final(self).receiving() == old(self).receiving(),
            final(self).partials() == old(self).partials(),
            final(self).good_frames() == old(self).good_frames(),
            final(self).bad_frames() == old(self).bad_frames(),
            match command {
                SessionCommand::Send(text) => {
                    let id = old(self).next_message();
                    &&& r matches CommandDone::Sent(status)
                    &&& status.msg_id == id
                    &&& status.text == text
                    &&& final(self).next_message() == next_id(id)
                    &&& is_queued(
                        old(self).sending().queue,
                        final(self).sending().queue,
                        text@,
                        id,
                    )
                    &&& final(self).sending() == (Sending {
                        queue: final(self).sending().queue,
                        ..old(self).sending()
                    })
                    &&& final(self).choice() == old(self).choice()
                    &&& final(self).standing() == old(self).standing()
                },
                SessionCommand::SetMode(policy) => {
                    &&& r == CommandDone::ModeSet
                    &&& final(self).choice() == policy
                    &&& final(self).standing() == match policy {
                        ModePolicy::Force(mode) => fallback::after_force(
                            old(self).standing(),
                            mode,
                        ),
                        ModePolicy::Auto => old(self).standing(),
                    }
                    &&& final(self).sending() == (Sending {
                        cfg: limits(final(self).mode(), triple_rtt_ms),
                        ..old(self).sending()
                    })
                    &&& final(self).next_message() == old(self).next_message()
                },
                SessionCommand::Stop => r == CommandDone::Stopped && *final(self) == *old(self),
            },
    {
        match command {
            SessionCommand::Send(text) => {
                let msg_id: u16 = self.enqueue_message(&text);
                CommandDone::Sent(MessageStatus { msg_id, text })
            },
            SessionCommand::SetMode(policy) => {
                self.set_mode(policy, triple_rtt_ms);
                CommandDone::ModeSet
            },
            SessionCommand::Stop => CommandDone::Stopped,
        }
    }

    /// The bytes of a frame, with what is to be acknowledged.
    fn frame_bytes(&self, mode: PhyMode, frame_type: FrameType, seq: u16, payload: Vec<u8>) -> (r:
        Vec<u8>)
        requires
            payload@.len() <= 48,
        ensures
            is_frame(
                r@,
                mode,
                frame_type,
                self.source(),
                seq,
                self.receiving(),
                payload@,
            ),
    {
        let (cum, sack) = self.arq_rx.ack_info();
        let mut header: FrameHeader = FrameHeader::new(mode, frame_type, self.src);
        header.seq = seq;
        header.ack = cum;
        header.sack = sack;
        let frame: Frame = Frame::new(header, payload);
        frame.serialize()
    }

    /// Takes a frame that was heard.
    #[verifier::spinoff_prover]
    #[verifier::rlimit(40)]
    pub fn on_frame(&mut self, bytes: &[u8], now_ms: u64) -> (r: Incoming)
        requires
            old(self).wf(),
        ensures
            final(self).wf(),
            final(self).source() == old(self).source(),
            final(self).choice() == old(self).choice(),
            final(self).standing() == old(self).standing(),
            final(self).next_message() == old(self).next_message(),
            final(self).bad_frames() == (if framing::parsed(bytes@) is Err {
                fallback::count(old(self).bad_frames() as int)
            } else {
                old(self).bad_frames() as int
            }),
            final(self).good_frames() == (match framing::parsed(bytes@) {
                Ok((h, _)) => if h.src != old(self).source() {
                    fallback::count(old(self).good_frames() as int)
                } else {
                    old(self).good_frames() as int
                },
                Err(_) => old(self).good_frames() as int,
            }),
            match framing::parsed(bytes@) {
                Err(_) => r is Bad && final(self).same_sides(old(self)),
                Ok((h, payload)) => if h.src == old(self).source() {
                    r is Echo && final(self).same_sides(old(self))
                } else if h.frame_type == FrameType::Data {
                    &&& r matches Incoming::Data { messages, reply }
                    &&& final(self).sending() == old(self).sending()
                    &&& reply.mode == old(self).mode()
                    &&& is_frame(
                        reply.bytes@,
                        old(self).mode(),
                        FrameType::Ack,
                        old(self).source(),
                        0,
                        final(self).receiving(),
                        Seq::empty(),
                    )
                    &&& exists|item: Vec<u8>, out: Seq<Vec<u8>>|
                        {
                            &&& item@ == payload
                            &&& #[trigger] receiver::takes(
                                old(self).receiving(),
                                h.seq,
                                item,
                                final(self).receiving(),
                                out,
                            )
                            &&& (final(self).partials(), texts_of(messages@)) == absorb(
                                old(self).partials(),
                                out,
                            )
                        }
                } else if h.frame_type == FrameType::Ack {
                    &&& r matches Incoming::Ack { acked, rtt_ms }
                    &&& final(self).sending() == (Sending {
                        frames: sender::after_ack(old(self).sending().frames, h.ack, h.sack),
                        ..old(self).sending()
                    })
                    &&& acked == old(self).sending().frames.len()
                        - final(self).sending().frames.len()
                    &&& (acked == 0 ==> rtt_ms is None)
                    &&& (acked > 0 ==> exists|seq: u16| #[trigger]
                        old(self).sending().frames.contains_key(seq) && crate::arq::acknowledges(
                            h.ack,
                            h.sack,
                            seq,
                        ) && rtt_ms == Some(
                            sender::age(
                                now_ms,
                                old(self).sending().frames[seq].sent_at,
                            ) as u64,
                        ))
                    &&& final(self).receiving() == old(self).receiving()
                    &&& final(self).partials() == old(self).partials()
                } else {
                    r is Other && final(self).same_sides(old(self))
                },
            },
    {
        let frame: Frame = match Frame::parse(bytes) {
            Ok(f) => f,
            Err(_) => {
                self.frames_bad = self.frames_bad.saturating_add(1);
                return Incoming::Bad;
            },
        };
        let header: FrameHeader = frame.header;
        if header.src == self.src {
            return Incoming::Echo;
        }
        self.frames_ok = self.frames_ok.saturating_add(1);
        match header.frame_type {
            FrameType::Data => {
                let mode: PhyMode = self.current_mode();
                let ghost mid = *self;
                let messages: Vec<String> = self.handle_data(header.seq, frame.payload);
                proof {
                    let out = choose|out: Seq<Vec<u8>>|
                        {
                            &&& #[trigger] receiver::takes(
                                mid.receiving(),
                                header.seq,
                                frame.payload,
                                self.receiving(),
                                out,
                            )
                            &&& (self.partials(), texts_of(messages@)) == absorb(
                                mid.partials(),
                                out,
                            )
                        };
                    assert(receiver::takes(
                        old(self).receiving(),
                        header.seq,
                        frame.payload,
                        self.receiving(),
                        out,
                    ));
                }
                let nothing: Vec<u8> = Vec::new();
                assert(nothing@ =~= Seq::<u8>::empty());
                let bytes: Vec<u8> = self.frame_bytes(mode, FrameType::Ack, 0, nothing);
                Incoming::Data { messages, reply: Outgoing { mode, bytes } }
            },
            FrameType::Ack => {
                let ghost frames0 = self.arq_tx.frames();
                let before: usize = self.arq_tx.in_flight();
                self.arq_tx.on_ack(header.ack, header.sack, now_ms);
                let rtt_ms: Option<u64> = self.arq_tx.take_rtt_sample();
                let after: usize = self.arq_tx.in_flight();
                proof {
                    let frames1 = self.arq_tx.frames();
                    assert(frames1.dom().subset_of(frames0.dom()));
                    old(self).arq_tx.lemma_finite();
                    vstd::set_lib::lemma_len_subset(frames1.dom(), frames0.dom());
                    if frames1.len() < frames0.len() {
                        assert(exists|seq: u16| #[trigger]
                            frames0.contains_key(seq) && crate::arq::acknowledges(
                                header.ack,
                                header.sack,
                                seq,
                            )) by {
                            if forall|seq: u16| #[trigger]
                                frames0.contains_key(seq) ==> !crate::arq::acknowledges(
                                    header.ack,
                                    header.sack,
                                    seq,
                                ) {
                                assert(frames1.dom() =~= frames0.dom());
                            }
                        }
                    } else {
                        assert forall|seq: u16| #[trigger]
                            frames0.contains_key(seq) implies !crate::arq::acknowledges(
                            header.ack,
                            header.sack,
                            seq,
                        ) by {
                            if crate::arq::acknowledges(header.ack, header.sack, seq) {
                                let rest = frames0.dom().remove(seq);
                                assert(frames1.dom().subset_of(rest));
                                vstd::set_lib::lemma_len_subset(frames1.dom(), rest);
                            }
                        }
                    }
                }
                Incoming::Ack { acked: before - after, rtt_ms }
            },
            _ => Incoming::Other,
        }
    }

    /// Both sides and the counters of messages are as they were.
    pub open spec fn same_sides(&self, other: &Session) -> bool {
        &&& self.sending() == other.sending()
        &&& self.receiving() == other.receiving()
        &&& self.partials() == other.partials()
    }

    /// Puts a payload in order, and decodes and puts together what that lets go.
    #[verifier::spinoff_prover]
    #[verifier::rlimit(40)]
    fn handle_data(&mut self, seq: u16, payload: Vec<u8>) -> (r: Vec<String>)
        requires
            old(self).wf(),
        ensures
            final(self).wf(),
            final(self).source() == old(self).source(),
            final(self).choice() == old(self).choice(),
            final(self).standing() == old(self).standing(),
            final(self).sending() == old(self).sending(),
            final(self).next_message() == old(self).next_message(),
            final(self).good_frames() == old(self).good_frames(),
            final(self).bad_frames() == old(self).bad_frames(),
            exists|out: Seq<Vec<u8>>|
                {
                    &&& #[trigger] receiver::takes(
                        old(self).receiving(),
                        seq,
                        payload,
                        final(self).receiving(),
                        out,
                    )
                    &&& (final(self).partials(), texts_of(r@)) == absorb(
                        old(self).partials(),
                        out,
                    )
                },
    {
        let delivered: Vec<Vec<u8>> = self.arq_rx.push(seq, payload);
        let mut messages: Vec<String> = Vec::new();
        let ghost p0 = self.assembler.partials();
        let mut i: usize = 0;
        assert(texts_of(messages@) =~= Seq::<Seq<char>>::empty());
        while i < delivered.len()
            invariant
                i <= delivered@.len(),
                self.wf(),
                self.src == old(self).src,
                self.policy == old(self).policy,
                self.fb == old(self).fb,
                self.arq_tx == old(self).arq_tx,
                self.out_queue == old(self).out_queue,
                self.sent_meta == old(self).sent_meta,
                self.next_msg_id == old(self).next_msg_id,
                self.frames_ok == old(self).frames_ok,
                self.frames_bad == old(self).frames_bad,
                receiver::takes(old(self).arq_rx@, seq, payload, self.arq_rx@, delivered@),
                (self.assembler.partials(), texts_of(messages@)) == absorb(
                    p0,
                    delivered@.take(i as int),
                ),
            decreases delivered@.len() - i,
        {
            proof {
                assert(delivered@.take(i + 1).drop_last() =~= delivered@.take(i as int));
            }
            let ghost t0 = texts_of(messages@);
            match self.fec.decode(&delivered[i]) {
                Ok(inner) => {
                    match self.assembler.accept(&inner) {
                        Some(full) => {
                            match message::text_of(message::cut_fill(full)) {
                                Some(text) => {
                                    messages.push(text);
                                    assert(texts_of(messages@) =~= t0.push(text@));
                                },
                                None => {},
                            }
                        },
                        None => {},
                    }
                },
                Err(_) => {},
            }
            i += 1;
        }
        proof {
            assert(delivered@.take(i as int) =~= delivered@);
            assert(receiver::takes(
                old(self).receiving(),
                seq,
                payload,
                self.receiving(),
                delivered@,
            ));
            assert(absorb(old(self).partials(), delivered@) == (
                self.partials(),
                texts_of(messages@),
            ));
        }
        messages
    }

    /// Counts acknowledged frames as successes, and returns the messages whose pieces have left
    /// the window since the last call, one entry for each piece, in no particular order.
    #[verifier::spinoff_prover]
    #[verifier::rlimit(40)]
    pub fn finish_ack(&mut self, acked: usize, triple_rtt_ms: u64) -> (r: Vec<MessageStatus>)
        requires
            old(self).wf(),
        ensures
            final(self).wf(),
            final(self).source() == old(self).source(),
            final(self).choice() == old(self).choice(),
            final(self).receiving() == old(self).receiving(),
            final(self).partials() == old(self).partials(),
            final(self).next_message() == old(self).next_message(),
            final(self).good_frames() == old(self).good_frames(),
            final(self).bad_frames() == old(self).bad_frames(),
            (final(self).standing(), final(self).sending().cfg) == (if old(self).choice()
                == ModePolicy::Auto {
                succeed(
                    old(self).standing(),
                    old(self).sending().cfg,
                    acked as nat,
                    triple_rtt_ms,
                )
            } else {
                (old(self).standing(), old(self).sending().cfg)
            }),
            final(self).sending() == (Sending {
                cfg: final(self).sending().cfg,
                meta: still_waiting(old(self).sending().meta, old(self).sending().frames),
                ..old(self).sending()
            }),
            lists_gone(r@, old(self).sending().meta, old(self).sending().frames),
    {
        let mut n: usize = 0;
        let ghost standing0 = self.fb.standing();
        let ghost cfg0 = self.arq_tx.config();
        while n < acked
            invariant
                n <= acked,
                self.wf(),
                self.src == old(self).src,
                self.policy == old(self).policy,
                self.arq_rx == old(self).arq_rx,
                self.assembler == old(self).assembler,
                self.out_queue == old(self).out_queue,
                self.sent_meta == old(self).sent_meta,
                self.next_msg_id == old(self).next_msg_id,
                self.frames_ok == old(self).frames_ok,
                self.frames_bad == old(self).frames_bad,
                self.arq_tx.next() == old(self).arq_tx.next(),
                self.arq_tx.frames() == old(self).arq_tx.frames(),
                self.arq_tx.resent_count() == old(self).arq_tx.resent_count(),
                self.arq_tx.down() == old(self).arq_tx.down(),
                standing0 == old(self).standing(),
                cfg0 == old(self).sending().cfg,
                (self.fb.standing(), self.arq_tx.config()) == (if self.policy == ModePolicy::Auto {
                    succeed(standing0, cfg0, n as nat, triple_rtt_ms)
                } else {
                    (standing0, cfg0)
                }),
            decreases acked - n,
        {
            let auto: bool = match self.policy {
                ModePolicy::Auto => true,
                ModePolicy::Force(_) => false,
            };
            if auto {
                if self.fb.on_success() {
                    self.apply_mode_change(triple_rtt_ms);
                }
            }
            n += 1;
        }
        self.notify_delivered()
    }

    /// Sets the limits for the mode in which frames are sent now.
    fn apply_mode_change(&mut self, triple_rtt_ms: u64)
        requires
            old(self).wf(),
        ensures
            final(self).wf(),
            final(self).arq_tx.config() == limits(old(self).mode(), triple_rtt_ms),
            final(self).arq_tx.next() == old(self).arq_tx.next(),
            final(self).arq_tx.frames() == old(self).arq_tx.frames(),
            final(self).arq_tx.down() == old(self).arq_tx.down(),
            final(self).arq_tx.resent_count() == old(self).arq_tx.resent_count(),
            final(self).fb == old(self).fb,
            final(self).fec == old(self).fec,
            final(self).src == old(self).src,
            final(self).policy == old(self).policy,
            final(self).arq_rx == old(self).arq_rx,
            final(self).assembler == old(self).assembler,
            final(self).out_queue == old(self).out_queue,
            final(self).sent_meta == old(self).sent_meta,
            final(self).next_msg_id == old(self).next_msg_id,
            final(self).frames_ok == old(self).frames_ok,
            final(self).frames_bad == old(self).frames_bad,
    {
        let m: PhyMode = self.current_mode();
        self.arq_tx.set_config(ArqConfig::for_mode(m, triple_rtt_ms));
    }

    /// The numbers that something was sent for, each once.
    fn meta_keys(&self) -> (r: Vec<u16>)
        ensures
            r@.no_duplicates(),
            forall|seq: u16| self.sent_meta@.contains_key(seq) <==> r@.contains(seq),
    {
        let mut r: Vec<u16> = Vec::new();
        for seq in it: self.sent_meta.keys()
            invariant
                r@.len() == it.index(),
                forall|i: int| 0 <= i < r@.len() ==> r@[i] == *it.seq()[i],
        {
            r.push(*seq);
        }
        proof {
            let ks = vstd::std_specs::iter::IteratorSpec::remaining(
                &vstd::std_specs::hash::spec_keys_iter(&self.sent_meta),
            );
            vstd::std_specs::hash::axiom_spec_keys_iter(&self.sent_meta);
            assert(r@ =~= ks.unref());
            assert forall|i: int, j: int| 0 <= i < r@.len() && 0 <= j < r@.len() && i != j implies r@[i]
                != r@[j] by {
                assert(ks[i] != ks[j]);
            }
            assert forall|seq: u16| self.sent_meta@.contains_key(seq) <==> r@.contains(seq) by {
                assert(ks.unref().to_set().contains(seq) <==> self.sent_meta@.dom().contains(seq));
            }
        }
        r
    }

    /// Forgets the numbers that have left the window, and says what they were sent for.
    #[verifier::spinoff_prover]
    #[verifier::rlimit(40)]
    fn notify_delivered(&mut self) -> (r: Vec<MessageStatus>)
        requires
            old(self).wf(),
        ensures
            final(self).wf(),
            final(self).fec == old(self).fec,
            final(self).src == old(self).src,
            final(self).fb == old(self).fb,
            final(self).policy == old(self).policy,
            final(self).arq_tx == old(self).arq_tx,
            final(self).arq_rx == old(self).arq_rx,
            final(self).assembler == old(self).assembler,
            final(self).out_queue == old(self).out_queue,
            final(self).next_msg_id == old(self).next_msg_id,
            final(self).frames_ok == old(self).frames_ok,
            final(self).frames_bad == old(self).frames_bad,
            final(self).sent_meta@ == still_waiting(
                old(self).sent_meta@,
                old(self).arq_tx.frames(),
            ),
            lists_gone(r@, old(self).sent_meta@, old(self).arq_tx.frames()),
    {
        let keys: Vec<u16> = self.meta_keys();
        let ghost meta0 = self.sent_meta@;
        let ghost frames = self.arq_tx.frames();
        let ghost mut from: Seq<u16> = Seq::empty();
        let mut out: Vec<MessageStatus> = Vec::new();
        let mut i: usize = 0;
        while i < keys.len()
            invariant
                i <= keys@.len(),
                keys@.no_duplicates(),
                forall|seq: u16| meta0.contains_key(seq) <==> keys@.contains(seq),
                self.fec == old(self).fec,
                self.src == old(self).src,
                self.fb == old(self).fb,
                self.policy == old(self).policy,
                self.arq_tx == old(self).arq_tx,
                self.arq_rx == old(self).arq_rx,
                self.assembler == old(self).assembler,
                self.out_queue == old(self).out_queue,
                self.next_msg_id == old(self).next_msg_id,
                self.frames_ok == old(self).frames_ok,
                self.frames_bad == old(self).frames_bad,
                frames == self.arq_tx.frames(),
                self.wf(),
                forall|seq: u16| #[trigger]
                    self.sent_meta@.contains_key(seq) <==> meta0.contains_key(seq) && !(
                    !frames.contains_key(seq) && keys@.take(i as int).contains(seq)),
                forall|seq: u16| #[trigger]
                    self.sent_meta@.contains_key(seq) ==> self.sent_meta@[seq] == meta0[seq],
                from.len() == out@.len(),
                from.no_duplicates(),
                forall|k: int|
                    0 <= k < from.len() ==> {
                        &&& meta0.contains_key(#[trigger] from[k])
                        &&& !frames.contains_key(from[k])
                        &&& keys@.take(i as int).contains(from[k])
                        &&& meta0[from[k]] == (out@[k].msg_id, out@[k].text)
                    },
                forall|j: int|
                    0 <= j < i && !frames.contains_key(#[trigger] keys@[j]) ==> from.contains(
                        keys@[j],
                    ),
            decreases keys@.len() - i,
        {
            let seq: u16 = keys[i];
            let ghost t = keys@.take(i as int);
            let ghost u = keys@.take(i + 1);
            proof {
                assert(keys@.contains(seq));
                assert(u =~= t.push(seq));
                assert(u[i as int] == seq);
                assert forall|q: u16| u.contains(q) <==> t.contains(q) || q == seq by {
                    if u.contains(q) {
                        let j = choose|j: int| 0 <= j < u.len() && u[j] == q;
                        if j < i {
                            assert(t[j] == q);
                        }
                    }
                    if t.contains(q) {
                        let j = choose|j: int| 0 <= j < t.len() && t[j] == q;
                        assert(u[j] == q);
                    }
                }
                assert(!t.contains(seq)) by {
                    if t.contains(seq) {
                        let j = choose|j: int| 0 <= j < i && t[j] == seq;
                        assert(keys@[j] == keys@[i as int]);
                    }
                }
            }
            let ghost from0 = from;
            let ghost out0 = out@;
            if !self.arq_tx.contains(seq) {
                match self.sent_meta.remove(&seq) {
                    Some((msg_id, text)) => {
                        out.push(MessageStatus { msg_id, text });
                        proof {
                            from = from.push(seq);
                        }
                    },
                    None => {},
                }
            }
            proof {
                assert(from.no_duplicates()) by {
                    assert forall|a: int, b: int| 0 <= a < from.len() && 0 <= b < from.len() && a
                        != b implies from[a] != from[b] by {
                        if a < from0.len() {
                            assert(t.contains(from0[a]));
                        }
                        if b < from0.len() {
                            assert(t.contains(from0[b]));
                        }
                    }
                }
                assert forall|k: int| 0 <= k < from.len() implies {
                    &&& meta0.contains_key(#[trigger] from[k])
                    &&& !frames.contains_key(from[k])
                    &&& u.contains(from[k])
                    &&& meta0[from[k]] == (out@[k].msg_id, out@[k].text)
                } by {
                    if k < from0.len() {
                        assert(from[k] == from0[k]);
                        assert(out@[k] == out0[k]);
                    }
                }
                assert forall|j: int| 0 <= j < i + 1 && !frames.contains_key(
                    #[trigger] keys@[j],
                ) implies from.contains(keys@[j]) by {
                    if j < i {
                        assert(from0.contains(keys@[j]));
                        let k = choose|k: int| 0 <= k < from0.len() && from0[k] == keys@[j];
                        assert(from[k] == keys@[j]);
                    } else {
                        assert(from[from0.len() as int] == seq);
                    }
                }
            }
            i += 1;
        }
        proof {
            assert(keys@.take(i as int) =~= keys@);
            assert(self.sent_meta@ =~= still_waiting(meta0, frames));
            assert forall|seq: u16| #[trigger] meta0.contains_key(seq) && !frames.contains_key(
                seq,
            ) implies from.contains(seq) by {
                assert(keys@.contains(seq));
                let j = choose|j: int| 0 <= j < keys@.len() && keys@[j] == seq;
                assert(from.contains(keys@[j]));
            }
            assert(sent_for(out@, from, meta0, frames));
        }
        out
    }

    /// Sends pieces as long as there is room in the window.
    #[verifier::spinoff_prover]
    #[verifier::rlimit(40)]
    pub fn pump(&mut self, now_ms: u64) -> (r: Vec<Outgoing>)
        requires
            old(self).wf(),
        ensures
            final(self).wf(),
            final(self).same_but_sending(old(self)),
            final(self).sending() == pump_all(old(self).sending(), now_ms),
            r@.len() == old(self).sending().queue.len() - final(self).sending().queue.len(),
            forall|i: int|
                0 <= i < r@.len() ==> {
                    let out = #[trigger] r@[i];
                    &&& out.mode == old(self).mode()
                    &&& is_frame(
                        out.bytes@,
                        out.mode,
                        FrameType::Data,
                        old(self).source(),
                        wrap(old(self).sending().next + i),
                        old(self).receiving(),
                        old(self).sending().queue[i].payload@,
                    )
                },
    {
        let mode: PhyMode = self.current_mode();
        let mut out: Vec<Outgoing> = Vec::new();
        let ghost s0 = self.sending();
        assert(self.out_queue@ =~= s0.queue.skip(0));
        while self.arq_tx.can_send() && self.out_queue.len() > 0
            invariant
                self.wf(),
                mode == old(self).mode(),
                s0 == old(self).sending(),
                self.same_but_sending(old(self)),
                self.fb == old(self).fb,
                out@.len() <= s0.queue.len(),
                self.out_queue@ == s0.queue.skip(out@.len() as int),
                self.arq_tx.next() == wrap(s0.next + out@.len()),
                pump_all(self.sending(), now_ms) == pump_all(s0, now_ms),
                forall|i: int|
                    0 <= i < out@.len() ==> {
                        let o = #[trigger] out@[i];
                        &&& o.mode == mode
                        &&& is_frame(
                            o.bytes@,
                            mode,
                            FrameType::Data,
                            old(self).source(),
                            wrap(s0.next + i),
                            old(self).receiving(),
                            s0.queue[i].payload@,
                        )
                    },
            decreases self.out_queue@.len(),
        {
            let ghost before = self.sending();
            let ghost out0 = out@;
            if let Some(chunk) = self.out_queue.pop_front() {
                proof {
                    assert(chunk == before.queue[0]);
                    assert(self.out_queue@ =~= before.queue.skip(1));
                    assert(before.queue[0] == s0.queue[out0.len() as int]);
                    assert(chunk.payload@.len() == 48);
                }
                let copy: Vec<u8> = chunk.payload.clone();
                assert(copy@ =~= chunk.payload@);
                match self.arq_tx.send(chunk.payload, now_ms) {
                    Some(seq) => {
                        self.sent_meta.insert(seq, (chunk.msg_id, chunk.text));
                        let bytes: Vec<u8> = self.frame_bytes(mode, FrameType::Data, seq, copy);
                        out.push(Outgoing { mode, bytes });
                        proof {
                            assert(self.sending() == pump_one(before, now_ms));
                            assert(self.out_queue@ =~= s0.queue.skip(out@.len() as int));
                            assert forall|i: int| 0 <= i < out@.len() implies {
                                let o = #[trigger] out@[i];
                                &&& o.mode == mode
                                &&& is_frame(
                                    o.bytes@,
                                    mode,
                                    FrameType::Data,
                                    old(self).source(),
                                    wrap(s0.next + i),
                                    old(self).receiving(),
                                    s0.queue[i].payload@,
                                )
                            } by {
                                if i < out0.len() {
                                    assert(out@[i] == out0[i]);
                                }
                            }
                            assert forall|k: int| 0 <= k < self.out_queue@.len() implies (
                            #[trigger] self.out_queue@[k]).payload@.len() == 48 by {
                                assert(self.out_queue@[k] == before.queue[k + 1]);
                            }
                        }
                    },
                    None => {},
                }
            }
        }
        out
    }

    /// Looks for frames to be sent again. That any are due counts as one failure.
    #[verifier::spinoff_prover]
    #[verifier::rlimit(40)]
    pub fn tick(&mut self, now_ms: u64, triple_rtt_ms: u64) -> (r: Tick)
        requires
            old(self).wf(),
        ensures
            final(self).wf(),
            final(self).source() == old(self).source(),
            final(self).choice() == old(self).choice(),
            final(self).receiving() == old(self).receiving(),
            final(self).partials() == old(self).partials(),
            final(self).next_message() == old(self).next_message(),
            final(self).good_frames() == old(self).good_frames(),
            final(self).bad_frames() == old(self).bad_frames(),
            exists|list: Seq<(u16, Vec<u8>)>|
                {
                    &&& #[trigger] sender::lists_due(
                        list,
                        old(self).sending().cfg,
                        old(self).sending().frames,
                        now_ms,
                    )
                    &&& r.resend@.len() == list.len()
                    &&& forall|i: int|
                        0 <= i < list.len() ==> {
                            let out = #[trigger] r.resend@[i];
                            &&& out.mode == old(self).mode()
                            &&& is_frame(
                                out.bytes@,
                                out.mode,
                                FrameType::Data,
                                old(self).source(),
                                list[i].0,
                                old(self).receiving(),
                                list[i].1@,
                            )
                        }
                },
            final(self).standing() == (if r.resend@.len() > 0 && old(self).choice()
                == ModePolicy::Auto {
                fallback::after_failure(old(self).standing())
            } else {
                old(self).standing()
            }),
            final(self).sending() == (Sending {
                cfg: if final(self).standing().level != old(self).standing().level {
                    limits(final(self).mode(), triple_rtt_ms)
                } else {
                    old(self).sending().cfg
                },
                frames: sender::after_resend(
                    old(self).sending().cfg,
                    old(self).sending().frames,
                    now_ms,
                ),
                resent: if old(self).sending().resent + r.resend@.len() <= u32::MAX {
                    (old(self).sending().resent + r.resend@.len()) as u32
                } else {
                    u32::MAX
                },
                down: r.down,
                ..old(self).sending()
            }),
            r.down <==> old(self).sending().down || exists|seq: u16| #[trigger]
                old(self).sending().frames.contains_key(seq) && sender::expired(
                    old(self).sending().cfg,
                    old(self).sending().frames[seq],
                    now_ms,
                ) && !sender::due(
                    old(self).sending().cfg,
                    old(self).sending().frames[seq],
                    now_ms,
                ),
    {
        let mode: PhyMode = self.current_mode();
        let ghost frames0 = self.arq_tx.frames();
        let ghost cfg0 = self.arq_tx.config();
        let retx: Vec<(u16, Vec<u8>)> = self.arq_tx.due_retransmissions(now_ms);
        proof {
            assert forall|seq: u16| #[trigger]
                self.arq_tx.frames().contains_key(seq) implies self.arq_tx.frames()[seq].payload@.len()
                == 48 by {
                assert(frames0.contains_key(seq));
            }
        }
        let mut resend: Vec<Outgoing> = Vec::new();
        let mut i: usize = 0;
        while i < retx.len()
            invariant
                i <= retx@.len(),
                self.wf(),
                self.src == old(self).src,
                self.arq_rx == old(self).arq_rx,
                mode == old(self).mode(),
                frames0 == old(self).sending().frames,
                forall|seq: u16| #[trigger]
                    frames0.contains_key(seq) ==> frames0[seq].payload@.len() == 48,
                sender::lists_due(retx@, cfg0, frames0, now_ms),
                resend@.len() == i,
                forall|k: int|
                    0 <= k < i ==> {
                        let o = #[trigger] resend@[k];
                        &&& o.mode == mode
                        &&& is_frame(
                            o.bytes@,
                            mode,
                            FrameType::Data,
                            old(self).source(),
                            retx@[k].0,
                            old(self).receiving(),
                            retx@[k].1@,
                        )
                    },
            decreases retx@.len() - i,
        {
            let seq: u16 = retx[i].0;
            let payload: Vec<u8> = retx[i].1.clone();
            proof {
                assert(payload@ =~= retx@[i as int].1@);
                assert(frames0.contains_key(retx@[i as int].0));
            }
            let bytes: Vec<u8> = self.frame_bytes(mode, FrameType::Data, seq, payload);
            let ghost r0 = resend@;
            resend.push(Outgoing { mode, bytes });
            proof {
                assert forall|k: int| 0 <= k < i + 1 implies {
                    let o = #[trigger] resend@[k];
                    &&& o.mode == mode
                    &&& is_frame(
                        o.bytes@,
                        mode,
                        FrameType::Data,
                        old(self).source(),
                        retx@[k].0,
                        old(self).receiving(),
                        retx@[k].1@,
                    )
                } by {
                    if k < i {
                        assert(resend@[k] == r0[k]);
                    }
                }
            }
            i += 1;
        }
        let auto: bool = match self.policy {
            ModePolicy::Auto => true,
            ModePolicy::Force(_) => false,
        };
        if retx.len() > 0 && auto {
            if self.fb.on_failure() {
                self.apply_mode_change(triple_rtt_ms);
            }
        }
        let down: bool = self.arq_tx.link_down();
        proof {
            assert(sender::lists_due(
                retx@,
                old(self).sending().cfg,
                old(self).sending().frames,
                now_ms,
            ));
        }
        Tick { resend, down }
    }

    pub fn in_flight(&self) -> (r: usize)
        ensures
            r == self.sending().frames.len(),
    {
        self.arq_tx.in_flight()
    }

    pub fn retransmits(&self) -> (r: u32)
        ensures
            r == self.sending().resent,
    {
        self.arq_tx.retransmits()
    }

    pub fn frames_ok(&self) -> (r: u32)
        ensures
            r == self.good_frames(),
    {
        self.frames_ok
    }

    pub fn frames_bad(&self) -> (r: u32)
        ensures
            r == self.bad_frames(),
    {
        self.frames_bad
    }
}

/// When the periodic work of a session was done last, in milliseconds.
pub struct Pacer {
    tick_at: u64,
    report_at: u64,
}

impl Pacer {
    pub closed spec fn ticked(&self) -> u64 {
        self.tick_at
    }

    pub closed spec fn reported(&self) -> u64 {
        self.report_at
    }

    pub fn new(now_ms: u64) -> (r: Self)
        ensures
            r.ticked() == now_ms,
            r.reported() == now_ms,
    {
        Pacer { tick_at: now_ms, report_at: now_ms }
    }

    /// Whether to look for frames to be sent again: every 200 milliseconds.
    pub fn tick_due(&mut self, now_ms: u64) -> (r: bool)
        ensures
            r <==> sender::age(now_ms, old(self).ticked()) >= 200,
            final(self).ticked() == (if r {
                now_ms
            } else {
                old(self).ticked()
            }),
            final(self).reported() == old(self).reported(),
    {
        if now_ms.saturating_sub(self.tick_at) >= 200 {
            self.tick_at = now_ms;
            true
        } else {
            false
        }
    }

    /// Whether to report on the link: every 400 milliseconds.
    pub fn report_due(&mut self, now_ms: u64) -> (r: bool)
        ensures
            r <==> sender::age(now_ms, old(self).reported()) >= 400,
            final(self).reported() == (if r {
                now_ms
            } else {
                old(self).reported()
            }),
            final(self).ticked() == old(self).ticked(),
    {
        if now_ms.saturating_sub(self.report_at) >= 400 {
            self.report_at = now_ms;
            true
        } else {
            false
        }
    }
}

/// What was sent under numbers that are still in the window.
pub open spec fn still_waiting(
    meta: Map<u16, (u16, String)>,
    frames: Map<u16, Outstanding>,
) -> Map<u16, (u16, String)> {
    Map::new(
        |seq: u16| meta.contains_key(seq) && frames.contains_key(seq),
        |seq: u16| meta[seq],
    )
}

/// Entry `k` of the list is what was sent under the number `from[k]`; these are the numbers that
/// have left the window, each once.
pub open spec fn sent_for(
    list: Seq<MessageStatus>,
    from: Seq<u16>,
    meta: Map<u16, (u16, String)>,
    frames: Map<u16, Outstanding>,
) -> bool {
    &&& from.len() == list.len()
    &&& from.no_duplicates()
    &&& forall|k: int|
        0 <= k < from.len() ==> {
            &&& meta.contains_key(#[trigger] from[k])
            &&& !frames.contains_key(from[k])
            &&& meta[from[k]] == (list[k].msg_id, list[k].text)
        }
    &&& forall|seq: u16| #[trigger]
        meta.contains_key(seq) && !frames.contains_key(seq) ==> from.contains(seq)
}

/// The list holds what was sent under the numbers that have left the window.
pub open spec fn lists_gone(
    list: Seq<MessageStatus>,
    meta: Map<u16, (u16, String)>,
    frames: Map<u16, Outstanding>,
) -> bool {
    exists|from: Seq<u16>| sent_for(list, from, meta, frames)
}

proof fn lemma_payload_len(bytes: Seq<u8>, id: u16, idx: int)
    requires
        message::is_short(bytes.len()),
        0 <= idx < message::piece_total(bytes.len()),
    ensures
        fec::encoded(message::piece(bytes, id, idx), 32, 16).len() == 48,
        fec::block_count(message::piece(bytes, id, idx).len(), 32) == 1,
{
    let p = message::piece(bytes, id, idx);
    assert(28 * idx <= bytes.len());
    assert(4 <= p.len() <= 32);
    assert(fec::block_count(p.len(), 32) == 1);
    fec::lemma_code_words(p, 32, 16);
}

/// The bytes of piece `idx` of a text as they are queued, up to eight of them damaged.
pub open spec fn carries(payload: Seq<u8>, text: Seq<char>, id: u16, idx: int) -> bool {
    let sent = fec::encoded(message::piece(vstd::utf8::encode_utf8(text), id, idx), 32, 16);
    payload.len() == sent.len() && fec::words::distance(sent, payload) <= 8
}

proof fn lemma_one_word(payload: Seq<u8>, text: Seq<char>, id: u16, idx: int)
    requires
        0 <= idx < message::pieces(vstd::utf8::encode_utf8(text).len()) <= 255,
        carries(payload, text, id, idx),
    ensures
        fec::stream_decoded(payload, 32, 16) == Ok::<Seq<u8>, fec::FecError>(
            message::padded_piece(vstd::utf8::encode_utf8(text), id, idx),
        ),
{
    let bytes = vstd::utf8::encode_utf8(text);
    let p = message::piece(bytes, id, idx);
    lemma_payload_len(bytes, id, idx);
    fec::lemma_code_words(p, 32, 16);
    let ws = fec::code_words(p, 32, 16);
    let sent = fec::encoded(p, 32, 16);
    let got = fec::interleave::deinterleaved(payload, 1, 48);
    fec::interleave::law_deinterleave_interleave(ws, 48);
    assert(ws[0] =~= sent) by {
        assert(fec::interleave::deinterleaved(sent, 1, 48)[0] == ws[0]);
        assert(fec::interleave::deinterleaved(sent, 1, 48)[0] =~= sent);
    }
    assert(got[0] =~= payload);
    assert forall|q: int| 0 <= q < 1 implies 2 * fec::words::distance(ws[q], #[trigger] got[q])
        <= 16 by {}
    fec::law_stream_repaired(p, 32, 16, payload);
}

proof fn lemma_absorb_pieces(
    partials: Map<u16, Partial>,
    text: Seq<char>,
    id: u16,
    payloads: Seq<Vec<u8>>,
)
    requires
        !partials.contains_key(id),
        message::is_short(vstd::utf8::encode_utf8(text).len()),
        payloads.len() < message::pieces(vstd::utf8::encode_utf8(text).len()),
        forall|i: int|
            0 <= i < payloads.len() ==> carries((#[trigger] payloads[i])@, text, id, i),
    ensures
        absorb(partials, payloads) == (
            message::accept_pieces(
                partials,
                vstd::utf8::encode_utf8(text),
                id,
                payloads.len(),
            ).0,
            Seq::<Seq<char>>::empty(),
        ),
    decreases payloads.len(),
{
    let bytes = vstd::utf8::encode_utf8(text);
    if payloads.len() > 0 {
        let n = (payloads.len() - 1) as nat;
        assert forall|i: int| 0 <= i < n implies carries(
            (#[trigger] payloads.drop_last()[i])@,
            text,
            id,
            i,
        ) by {
            assert(payloads.drop_last()[i] == payloads[i]);
        }
        lemma_absorb_pieces(partials, text, id, payloads.drop_last());
        lemma_one_word(payloads[n as int]@, text, id, n as int);
        message::law_message_reassembled(partials, bytes, id);
        assert(message::accept_pieces(partials, bytes, id, payloads.len()).1 is None);
    }
}

/// A text of up to 255 pieces arrives: when the payloads of its pieces are handed out in order,
/// each with at most eight bytes damaged, the text comes out once, at the last of them, and nothing
/// is left behind. A text that ends in a null character is left out: its end cannot be told from
/// what fills its last piece.
pub proof fn law_message_arrives(
    partials: Map<u16, Partial>,
    text: Seq<char>,
    id: u16,
    payloads: Seq<Vec<u8>>,
)
    requires
        message::ends_plainly(text),
        !partials.contains_key(id),
        message::is_short(vstd::utf8::encode_utf8(text).len()),
        payloads.len() == message::pieces(vstd::utf8::encode_utf8(text).len()),
        forall|i: int|
            0 <= i < payloads.len() ==> carries((#[trigger] payloads[i])@, text, id, i),
    ensures
        absorb(partials, payloads) == (partials, seq![text]),
{
    let bytes = vstd::utf8::encode_utf8(text);
    let n = (payloads.len() - 1) as nat;
    assert forall|i: int| 0 <= i < n implies carries(
        (#[trigger] payloads.drop_last()[i])@,
        text,
        id,
        i,
    ) by {
        assert(payloads.drop_last()[i] == payloads[i]);
    }
    lemma_absorb_pieces(partials, text, id, payloads.drop_last());
    lemma_one_word(payloads[n as int]@, text, id, n as int);
    message::law_message_reassembled(partials, bytes, id);
    let fill = (28 * payloads.len() - bytes.len()) as nat;
    message::law_text_arrives(text, fill);
    assert(Seq::<Seq<char>>::empty().push(text) =~= seq![text]);
}

/// Payloads may be handed out in several steps: it is as if they were handed out at once.
pub proof fn law_absorbed_in_steps(
    partials: Map<u16, Partial>,
    first: Seq<Vec<u8>>,
    rest: Seq<Vec<u8>>,
)
    ensures
        ({
            let (p, texts) = absorb(partials, first);
            let (q, more) = absorb(p, rest);
            absorb(partials, first + rest) == (q, texts + more)
        }),
    decreases rest.len(),
{
    let (p, texts) = absorb(partials, first);
    if rest.len() == 0 {
        assert(first + rest =~= first);
        assert(texts + Seq::<Seq<char>>::empty() =~= texts);
    } else {
        law_absorbed_in_steps(partials, first, rest.drop_last());
        assert((first + rest).drop_last() =~= first + rest.drop_last());
        let (q, more) = absorb(p, rest.drop_last());
        assert forall|t: Seq<char>| #[trigger] (texts + more).push(t) == texts + more.push(t) by {
            assert((texts + more).push(t) =~= texts + more.push(t));
        }
    }
}

/// A text of up to 255 pieces arrives whatever the order in which its frames do, and however often
/// each does: once the receiver has every piece, the text has come out, once.
pub proof fn law_message_arrives_in_any_order(
    partials: Map<u16, Partial>,
    text: Seq<char>,
    id: u16,
    sent: Seq<Vec<u8>>,
    start: RxState<Vec<u8>>,
    arrivals: Seq<Arrival<Vec<u8>>>,
)
    requires
        message::ends_plainly(text),
        !partials.contains_key(id),
        message::is_short(vstd::utf8::encode_utf8(text).len()),
        sent.len() == start.expected + message::pieces(vstd::utf8::encode_utf8(text).len()),
        sent.len() <= 0xFFFF,
        forall|i: int|
            start.expected <= i < sent.len() ==> carries(
                (#[trigger] sent[i])@,
                text,
                id,
                i - start.expected,
            ),
        receiver::in_step(start, sent),
        receiver::in_turn(start, arrivals),
        forall|i: int|
            0 <= i < arrivals.len() ==> (#[trigger] arrivals[i]).seq < sent.len()
                && arrivals[i].item == sent[arrivals[i].seq as int],
        forall|seq: u16|
            #![trigger start.have.contains(seq)]
            seq < sent.len() && !start.have.contains(seq) ==> exists|i: int|
                0 <= i < arrivals.len() && (#[trigger] arrivals[i]).seq == seq,
    ensures
        absorb(partials, receiver::let_go(arrivals)) == (partials, seq![text]),
{
    receiver::law_any_order(start, arrivals, sent);
    let payloads = receiver::let_go(arrivals);
    assert forall|i: int| 0 <= i < payloads.len() implies carries(
        (#[trigger] payloads[i])@,
        text,
        id,
        i,
    ) by {
        assert(payloads[i] == sent[start.expected + i]);
    }
    law_message_arrives(partials, text, id, payloads);
}

/// What one session sends, the other understands: the frame is read with the mode, kind, source,
/// number and payload that it was made with, and with what its sender acknowledges.
pub proof fn law_frames_are_understood(
    bytes: Seq<u8>,
    mode: PhyMode,
    frame_type: FrameType,
    src: u8,
    seq: u16,
    rx: RxState<Vec<u8>>,
    payload: Seq<u8>,
)
    requires
        is_frame(bytes, mode, frame_type, src, seq, rx, payload),
    ensures
        framing::parsed(bytes) matches Ok((h, p)) && p == payload && h.mode == mode && h.frame_type
            == frame_type && h.src == src && h.seq == seq && receiver::reports(rx, h.ack, h.sack),
{
    let (ack, sack) = choose|ack: u16, sack: u32| #[trigger]
        receiver::reports(rx, ack, sack) && bytes == framing::serialized(
            (FrameHeader { mode, frame_type, src, seq, ack, sack }),
            payload,
        );
    framing::law_parse_serialize(FrameHeader { mode, frame_type, src, seq, ack, sack }, payload);
}

/// However many pieces wait, no more frames wait for their acknowledgement than the window holds.
pub proof fn law_window_is_kept(s: Sending, now_ms: u64)
    requires
        s.frames.dom().finite(),
        s.frames.len() <= s.cfg.window,
    ensures
        pump_all(s, now_ms).frames.dom().finite(),
        pump_all(s, now_ms).frames.len() <= s.cfg.window,
        pump_all(s, now_ms).cfg == s.cfg,
    decreases s.queue.len(),
{
    if can_pump(s) {
        law_window_is_kept(pump_one(s, now_ms), now_ms);
    }
}

/// Pieces are sent in the order in which they were queued, and none is lost or sent twice on the
/// way: those that are left are the last of those that waited.
#[verifier::spinoff_prover]
pub proof fn law_pieces_keep_their_order(s: Sending, now_ms: u64)
    ensures
        ({
            let left = pump_all(s, now_ms).queue;
            &&& left.len() <= s.queue.len()
            &&& left == s.queue.skip(s.queue.len() - left.len())
            &&& pump_all(s, now_ms).next == wrap(s.next + (s.queue.len() - left.len()))
        }),
    decreases s.queue.len(),
{
    if can_pump(s) {
        let t = pump_one(s, now_ms);
        law_pieces_keep_their_order(t, now_ms);
        let left = pump_all(t, now_ms).queue;
        lemma_skip_one_more(s.queue, t.queue.len() - left.len());
        lemma_wrap_one_more(s.next, t.queue.len() - left.len());
    } else {
        assert(s.queue.skip(0) =~= s.queue);
        assert(wrap(s.next + 0) == s.next);
    }
}

proof fn lemma_skip_one_more<T>(queue: Seq<T>, n: int)
    requires
        0 <= n < queue.len(),
    ensures
        queue.skip(1).skip(n) == queue.skip(n + 1),
{
    assert(queue.skip(1).skip(n) =~= queue.skip(n + 1));
}

proof fn lemma_wrap_one_more(seq: u16, n: int)
    ensures
        wrap(wrap(seq + 1) + n) == wrap(seq + (n + 1)),
{
    assert(((seq + 1) % 0x10000 + n) % 0x10000 == (seq + (n + 1)) % 0x10000);
}

/// However many frames are acknowledged, the limits are those of the mode on whose rung the ladder
/// stands in the end, if they were so before.
pub proof fn law_limits_follow_the_mode(
    standing: Standing,
    cfg: ArqConfig,
    n: nat,
    triple_rtt_ms: u64,
)
    requires
        cfg == limits(fallback::rungs()[standing.level], triple_rtt_ms),
    ensures
        ({
            let (s, c) = succeed(standing, cfg, n, triple_rtt_ms);
            c == limits(fallback::rungs()[s.level], triple_rtt_ms)
        }),
    decreases n,
{
    if n > 0 {
        law_limits_follow_the_mode(standing, cfg, (n - 1) as nat, triple_rtt_ms);
    }
}

/// Acknowledged frames are successes, one each: no frame changes nothing, one frame is one success,
/// and it does not matter in how many acknowledgements they come.
pub proof fn law_each_frame_is_one_success(
    standing: Standing,
    cfg: ArqConfig,
    m: nat,
    n: nat,
    triple_rtt_ms: u64,
)
    ensures
        succeed(standing, cfg, 0, triple_rtt_ms) == (standing, cfg),
        succeed(standing, cfg, 1, triple_rtt_ms).0 == fallback::after_success(standing),
        succeed(standing, cfg, n, triple_rtt_ms).0 == fallback::after_successes(standing, n),
        ({
            let (s, c) = succeed(standing, cfg, m, triple_rtt_ms);
            succeed(standing, cfg, m + n, triple_rtt_ms) == succeed(s, c, n, triple_rtt_ms)
        }),
        fallback::after_success(standing).level == standing.level ==> succeed(
            standing,
            cfg,
            1,
            triple_rtt_ms,
        ).1 == cfg,
        fallback::after_success(standing).level != standing.level ==> succeed(
            standing,
            cfg,
            1,
            triple_rtt_ms,
        ).1 == limits(
            fallback::rungs()[fallback::after_success(standing).level],
            triple_rtt_ms,
        ),
    decreases n,
{
    reveal_with_fuel(succeed, 2);
    reveal_with_fuel(fallback::after_successes, 2);
    if n > 0 {
        law_each_frame_is_one_success(standing, cfg, m, (n - 1) as nat, triple_rtt_ms);
        assert((m + n - 1) as nat == m + (n - 1) as nat);
    }
}

/// The window is 32 frames with subcarriers and four otherwise; a frame waits for three round trips,
/// but never less than 300 milliseconds, and is sent again eight times.
pub proof fn law_limits_of_a_mode(mode: PhyMode, triple_rtt_ms: u64)
    ensures
        limits(mode, triple_rtt_ms).window == 32 <==> mode == PhyMode::OfdmQpsk || mode
            == PhyMode::Ofdm16Qam,
        limits(mode, triple_rtt_ms).window == 4 <==> mode == PhyMode::Css || mode == PhyMode::Mfsk,
        limits(mode, triple_rtt_ms).timeout_ms >= 300,
        limits(mode, triple_rtt_ms).timeout_ms >= triple_rtt_ms,
        limits(mode, triple_rtt_ms).timeout_ms == 300 || limits(mode, triple_rtt_ms).timeout_ms
            == triple_rtt_ms,
        limits(mode, triple_rtt_ms).max_retries == 8,
{
}

/// A mode that is forced is the one in which frames are sent, and otherwise the ladder's is.
pub proof fn law_who_sets_the_mode(mode: PhyMode, standing: Standing)
    ensures
        mode_of(ModePolicy::Force(mode), standing) == mode,
        mode_of(ModePolicy::Auto, standing) == fallback::rungs()[standing.level],
{
}

/// Message numbers go up by one, skip zero and come round: from a number other than zero on, the
/// next is never zero, and no two numbers have the same next.
pub proof fn law_message_numbers(id: u16, other: u16)
    requires
        id != 0,
        other != 0,
    ensures
        next_id(id) != 0,
        id < 0xFFFF ==> next_id(id) == id + 1,
        next_id(0xFFFF) == 1,
        next_id(id) == next_id(other) ==> id == other,
{
}

/// As many pieces are sent as there is room for: afterwards the window is full, or nothing waits any
/// more, or the link is down. Frames that waited already still wait as they did.
pub proof fn law_the_window_is_filled(s: Sending, now_ms: u64)
    ensures
        ({
            let t = pump_all(s, now_ms);
            &&& t.down || t.frames.len() >= t.cfg.window || t.queue.len() == 0
            &&& t.down == s.down
            &&& t.cfg == s.cfg
            &&& t.resent == s.resent
            &&& s.down ==> t == s
        }),
    decreases s.queue.len(),
{
    if can_pump(s) {
        law_the_window_is_filled(pump_one(s, now_ms), now_ms);
    }
}

/// A piece that is sent takes the next number, waits from now on without a retry, and is remembered
/// with its message. Every other frame and every other memory stays.
pub proof fn law_a_piece_takes_the_next_number(s: Sending, now_ms: u64, seq: u16)
    requires
        s.queue.len() > 0,
    ensures
        ({
            let t = pump_one(s, now_ms);
            &&& t.queue == s.queue.drop_first()
            &&& t.next == (if s.next == 0xFFFF { 0int } else { s.next + 1 })
            &&& t.frames.contains_key(s.next)
            &&& t.frames[s.next].payload == s.queue[0].payload
            &&& t.frames[s.next].sent_at == now_ms
            &&& t.frames[s.next].retries == 0
            &&& t.meta.contains_key(s.next)
            &&& t.meta[s.next] == (s.queue[0].msg_id, s.queue[0].text)
            &&& seq != s.next ==> {
                &&& t.frames.contains_key(seq) == s.frames.contains_key(seq)
                &&& t.frames[seq] == s.frames[seq]
                &&& t.meta.contains_key(seq) == s.meta.contains_key(seq)
                &&& t.meta[seq] == s.meta[seq]
            }
        }),
{
    assert(s.queue.skip(1) =~= s.queue.drop_first());
}

/// A payload that cannot be repaired changes nothing and gives no text.
pub proof fn law_a_broken_payload_is_dropped(partials: Map<u16, Partial>, payload: Vec<u8>)
    requires
        fec::stream_decoded(payload@, 32, 16) is Err,
    ensures
        absorb(partials, seq![payload]) == (partials, Seq::<Seq<char>>::empty()),
{
    let one = seq![payload];
    assert(one.drop_last() =~= Seq::<Vec<u8>>::empty());
    assert(absorb(partials, one.drop_last()) == (partials, Seq::<Seq<char>>::empty()));
}

/// What is queued for a text is what arrives as it: the payloads of its pieces, in their order, each
/// marked with the text and its number, behind what waited before.
pub proof fn law_queued_pieces_carry_the_text(
    before: Seq<PendingChunk>,
    after: Seq<PendingChunk>,
    text: Seq<char>,
    id: u16,
    i: int,
)
    requires
        is_queued(before, after, text, id),
        message::is_short(vstd::utf8::encode_utf8(text).len()),
        0 <= i < message::pieces(vstd::utf8::encode_utf8(text).len()),
    ensures
        after.len() == before.len() + message::pieces(vstd::utf8::encode_utf8(text).len()),
        carries(after[before.len() + i].payload@, text, id, i),
        after[before.len() + i].msg_id == id,
        after[before.len() + i].text@ == text,
{
    let chunk = after[before.len() + i];
    fec::reed_solomon::lemma_distance_self(chunk.payload@);
}

/// Exactly the pieces whose frames have left the window are reported, each with the message that it
/// was sent for, and are forgotten; the others are remembered.
pub proof fn law_gone_pieces_are_reported(
    list: Seq<MessageStatus>,
    from: Seq<u16>,
    meta: Map<u16, (u16, String)>,
    frames: Map<u16, Outstanding>,
    seq: u16,
)
    requires
        sent_for(list, from, meta, frames),
    ensures
        from.contains(seq) <==> meta.contains_key(seq) && !frames.contains_key(seq),
        still_waiting(meta, frames).contains_key(seq) <==> meta.contains_key(seq)
            && frames.contains_key(seq),
        still_waiting(meta, frames).contains_key(seq) ==> still_waiting(meta, frames)[seq]
            == meta[seq],
        forall|k: int|
            0 <= k < list.len() ==> meta[#[trigger] from[k]] == (list[k].msg_id, list[k].text),
{
}

/// The sources of initiators are the numbers below 128 and those of responders the others; the lower
/// seven bits are drawn.
pub proof fn law_sources_by_role(role: Role, drawn: u8)
    ensures
        source_of(role, drawn) < 128 <==> role == Role::Initiator,
        source_of(role, drawn) % 128 == drawn % 128,
{
}

/// Where nothing but the sending side changes, all the rest stays as it was; where the sides stay,
/// both of them and what is put together do.
pub proof fn law_the_rest_stays(a: Session, b: Session)
    ensures
        a.same_but_sending(&b) ==> {
            &&& a.source() == b.source()
            &&& a.mode() == b.mode()
            &&& a.choice() == b.choice()
            &&& a.standing() == b.standing()
            &&& a.receiving() == b.receiving()
            &&& a.partials() == b.partials()
            &&& a.next_message() == b.next_message()
            &&& a.good_frames() == b.good_frames()
            &&& a.bad_frames() == b.bad_frames()
        },
        a.same_sides(&b) ==> {
            &&& a.sending() == b.sending()
            &&& a.receiving() == b.receiving()
            &&& a.partials() == b.partials()
        },
        a.same_but_sending(&a),
        a.same_sides(&a),
{
}

} // verus!
