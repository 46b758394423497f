//! The layout of frequency shift keying with sixteen tones, and how a receiver looks for a frame.
//!
//! A tone sounds longer than the window it is analysed in. As long as the timing is off by less
//! than half of the difference, the window lies within one tone.

use vstd::prelude::*;
use crate::bandplan::SubBand;
use crate::framing::OVERHEAD;
use crate::modem::bits;
use crate::modem::reader;
use crate::modem::reader::{verdict, FrameReader, Reading, Verdict};

verus! {

/// The number of tones.
pub const M: usize = 16;

/// The bits of a symbol.
pub const BITS: u32 = 4;

/// The distance of neighbouring tones, in bins.
pub const STRIDE: i32 = 2;

/// The window that is analysed.
pub const SPS_FFT: usize = 512;

/// How much longer a tone sounds.
pub const GUARD: usize = 384;

/// The samples of a symbol.
pub const SYM: usize = SPS_FFT + GUARD;

/// Pilot tones in front of a frame.
pub const PREAMBLE: usize = 8;

/// The pilot tone, in the middle of the band.
pub const PILOT_SYM: u16 = 8;

/// The sync tone.
pub const SYNC_SYM: u16 = 11;

/// How many symbols are searched for the sync tone.
pub const SCAN: usize = 14;

/// The bin of a tone, which is negative below the middle of the band.
pub open spec fn bin(s: u16) -> int {
    (s - 8) * 2
}

pub fn bin_of(s: u16) -> (r: i32)
    ensures
        r == bin(s),
{
    (s as i32 - 8) * STRIDE
}

/// The bin of a tone in a transform of the window.
pub fn fft_bin(s: u16) -> (r: usize)
    requires
        s < M,
    ensures
        r == bin(s) % 512,
{
    let b: i32 = bin_of(s);
    if b >= 0 {
        b as usize
    } else {
        (b + 512) as usize
    }
}

/// Every tone has a bin of its own.
pub proof fn law_tones_differ(a: u16, b: u16)
    requires
        a < 16,
        b < 16,
        a != b,
    ensures
        bin(a) % 512 != bin(b) % 512,
{
}

/// The tones, which spread over a sixteenth of the sample rate, leave a fiftieth of the band free.
pub open spec fn tones_fit(band: SubBand, sample_rate: u32) -> bool {
    sample_rate * 100 <= (band.high - band.low) * 98 * 16
}

/// Whether the tones fit into a band. A modem is only made for a band in which they do.
pub fn fits_band(band: SubBand, sample_rate: u32) -> (r: bool)
    requires
        band.wf(),
    ensures
        r == tones_fit(band, sample_rate),
{
    sample_rate as u64 * 100 <= (band.high - band.low) as u64 * 98 * 16
}

/// The symbols before the body of a frame: pilots, sync and three copies of the length.
pub fn header_slots() -> (r: usize)
    ensures
        r == 21,
{
    PREAMBLE + 1 + reader::LEN_REPS * len_syms()
}

pub fn len_syms() -> (r: usize)
    ensures
        r == 4,
{
    reader::len_syms(BITS)
}

pub fn body_syms(nbytes: usize) -> (r: usize)
    requires
        8 * nbytes + 16 <= usize::MAX,
    ensures
        r == 2 * nbytes,
{
    reader::body_syms(nbytes, BITS)
}

/// The shortest recording that can hold a frame.
pub fn min_frame() -> (r: usize)
    ensures
        r == 21 * 896 + 512,
{
    header_slots() * SYM + SPS_FFT
}

/// The samples that a frame with a payload of the given length takes.
pub fn frame_samples(payload_len: usize) -> (r: usize)
    requires
        (21 + 2 * (OVERHEAD + payload_len)) * 896 <= usize::MAX,
    ensures
        r == (21 + 2 * (OVERHEAD + payload_len)) * 896,
{
    let frame_len: usize = OVERHEAD + payload_len;
    (header_slots() + body_syms(frame_len)) * SYM
}

/// The tones of a frame, from the first pilot on.
pub open spec fn tones(bytes: Seq<u8>) -> Seq<u16> {
    Seq::new(8, |i: int| PILOT_SYM) + reader::on_air(bytes, 4, SYNC_SYM)
}

pub fn frame_tones(frame_bytes: &[u8]) -> (r: Vec<u16>)
    requires
        8 * frame_bytes@.len() + 100 <= usize::MAX,
    ensures
        r@ == tones(frame_bytes@),
{
    let mut out: Vec<u16> = vec![PILOT_SYM; PREAMBLE];
    let rest: Vec<u16> = reader::frame_symbols(frame_bytes, BITS, SYNC_SYM);
    out.extend_from_slice(&rest);
    assert(out@ =~= tones(frame_bytes@));
    out
}

/// How far a receiver has come.
pub enum Stage {
    /// It looks at symbol `j` behind the edge. The last one was the given tone, `true` if it
    /// stood out fairly.
    Scan { j: int, last: Option<(u16, bool)> },
    /// It reads the symbol that starts at `at`, after those seen.
    Read { at: int, seen: Seq<u16> },
    /// It is done.
    Over,
}

/// A receiver: where the energy of the preamble sets in, how many samples were recorded, and how
/// far it has come.
pub struct Search {
    pub edge: int,
    pub recorded: int,
    pub stage: Stage,
}

/// What a receiver asks for next.
pub enum Wish {
    /// The tone that starts at a sample.
    Tone(int),
    /// Nothing: this is the frame, and this the sample behind it.
    Frame(Seq<u8>, int),
    /// Nothing: there is no frame.
    Lost,
}

/// The window of a tone that starts there lies within the recording.
pub open spec fn fits(start: int, recorded: int) -> bool {
    start + 192 + 512 <= recorded
}

/// Asks for a tone, or gives up where the recording ends.
pub open spec fn ask_or_give_up(s: Search, stage: Stage, start: int) -> (Search, Wish) {
    if fits(start, s.recorded) {
        (Search { edge: s.edge, recorded: s.recorded, stage }, Wish::Tone(start))
    } else {
        (Search { edge: s.edge, recorded: s.recorded, stage: Stage::Over }, Wish::Lost)
    }
}

/// The beginning of a search.
pub open spec fn begin(edge: int, recorded: int) -> (Search, Wish) {
    ask_or_give_up(
        Search { edge, recorded, stage: Stage::Over },
        Stage::Scan { j: 0, last: None },
        edge,
    )
}

/// The search is over without a frame.
pub open spec fn give_up(s: Search) -> (Search, Wish) {
    (Search { edge: s.edge, recorded: s.recorded, stage: Stage::Over }, Wish::Lost)
}

/// What a tone does to a search. `clear` says that it stood out clearly, `fair` that it stood out
/// fairly. The sync tone counts only when it is clear and comes behind a fair pilot tone.
pub open spec fn hear(s: Search, tone: u16, clear: bool, fair: bool) -> (Search, Wish) {
    match s.stage {
        Stage::Scan { j, last } => {
            let here = s.edge + j * 896;
            if tone == SYNC_SYM && clear && j >= 1 && last == Some((PILOT_SYM, true)) {
                if here + 896 + 12 * 896 + 512 > s.recorded {
                    give_up(s)
                } else {
                    (
                        Search {
                            edge: s.edge,
                            recorded: s.recorded,
                            stage: Stage::Read { at: here + 896, seen: Seq::empty() },
                        },
                        Wish::Tone(here + 896),
                    )
                }
            } else if j + 1 >= SCAN {
                give_up(s)
            } else {
                ask_or_give_up(
                    s,
                    Stage::Scan { j: j + 1, last: Some((tone, fair)) },
                    here + 896,
                )
            }
        },
        Stage::Read { at, seen } => {
            let now = seen.push(tone);
            match verdict(now, 4) {
                Verdict::More => ask_or_give_up(
                    s,
                    Stage::Read { at: at + 896, seen: now },
                    at + 896,
                ),
                Verdict::Rejected => give_up(s),
                Verdict::Complete(bytes) => (
                    Search { edge: s.edge, recorded: s.recorded, stage: Stage::Over },
                    Wish::Frame(
                        bytes,
                        if at + 896 <= s.recorded {
                            at + 896
                        } else {
                            s.recorded
                        },
                    ),
                ),
            }
        },
        Stage::Over => give_up(s),
    }
}

/// What becomes of a search when tones are heard one after the other, all of them clear.
pub open spec fn hear_all(s: Search, heard: Seq<u16>) -> (Search, Wish)
    recommends
        heard.len() > 0,
    decreases heard.len(),
{
    if heard.len() == 0 {
        (s, Wish::Lost)
    } else {
        hear(hear_all(s, heard.drop_last()).0, heard.last(), true, true)
    }
}

proof fn lemma_pilots(edge: int, recorded: int, heard: Seq<u16>, n: int)
    requires
        0 <= n <= 13,
        heard.len() >= n,
        forall|i: int| 0 <= i < n ==> #[trigger] heard[i] == PILOT_SYM,
        fits(edge + n * 896, recorded),
    ensures
        hear_all(begin(edge, recorded).0, heard.take(n)).0 == (Search {
            edge,
            recorded,
            stage: Stage::Scan {
                j: n,
                last: if n == 0 {
                    None
                } else {
                    Some((PILOT_SYM, true))
                },
            },
        }),
    decreases n,
{
    if n > 0 {
        lemma_pilots(edge, recorded, heard, n - 1);
        assert(heard.take(n).drop_last() =~= heard.take(n - 1));
        assert(heard.take(n).last() == heard[n - 1]);
    }
}

proof fn lemma_body(s: Search, at: int, symbols: Seq<u16>, n: int)
    requires
        s.stage == (Stage::Read { at, seen: Seq::empty() }),
        0 <= n < symbols.len(),
        forall|m: int| 0 <= m < symbols.len() ==> verdict(#[trigger] symbols.take(m), 4) is More,
        fits(at + (symbols.len() - 1) * 896, s.recorded),
    ensures
        hear_all(s, symbols.take(n)).0 == (Search {
            edge: s.edge,
            recorded: s.recorded,
            stage: Stage::Read { at: at + n * 896, seen: symbols.take(n) },
        }),
    decreases n,
{
    if n == 0 {
        assert(symbols.take(0) =~= Seq::<u16>::empty());
    } else {
        lemma_body(s, at, symbols, n - 1);
        let t = symbols.take(n);
        assert(t.drop_last() =~= symbols.take(n - 1));
        assert(symbols.take(n - 1).push(symbols[n - 1]) =~= t);
        assert(verdict(symbols.take(n), 4) is More);
    }
}

proof fn lemma_hear_concat(s: Search, a: Seq<u16>, b: Seq<u16>)
    requires
        b.len() > 0,
    ensures
        hear_all(s, a + b) == hear_all(hear_all(s, a).0, b),
    decreases b.len(),
{
    let c = a + b;
    assert(c.last() == b.last());
    assert(c.drop_last() =~= a + b.drop_last());
    if b.len() > 1 {
        lemma_hear_concat(s, a, b.drop_last());
    } else {
        assert(a + b.drop_last() =~= a);
        assert(hear_all(hear_all(s, a).0, b.drop_last()).0 == hear_all(s, a).0);
    }
}

/// A frame is found and read when all of its tones are heard and lie within the recording.
#[verifier::spinoff_prover]
#[verifier::rlimit(60)]
pub proof fn law_frame_is_found(bytes: Seq<u8>, edge: int, recorded: int)
    requires
        reader::plausible(bytes.len()),
        edge >= 0,
        edge + tones(bytes).len() * 896 <= recorded,
    ensures
        hear_all(begin(edge, recorded).0, tones(bytes)).1 == Wish::Frame(
            bytes,
            edge + tones(bytes).len() * 896,
        ),
{
    let all = tones(bytes);
    let air = reader::on_air(bytes, 4, SYNC_SYM);
    let body = air.skip(1);
    let pilots = all.take(8);
    let s0 = begin(edge, recorded).0;
    reader::law_frame_roundtrip(bytes, 4, SYNC_SYM);
    assert(air.len() > 13);
    lemma_pilots(edge, recorded, all, 8);
    let s1 = hear_all(s0, pilots).0;
    let upto = all.take(9);
    assert(upto.drop_last() =~= pilots);
    assert(upto.last() == SYNC_SYM);
    let s2 = hear_all(s0, upto).0;
    let at = edge + 9 * 896;
    assert(s2.stage == (Stage::Read { at, seen: Seq::empty() }));
    assert(all =~= upto + body);
    lemma_hear_concat(s0, upto, body);
    let n = body.len() as int;
    assert(all.len() == 9 + n);
    lemma_body(s2, at, body, n - 1);
    assert(body.drop_last() =~= body.take(n - 1));
    assert(body.take(n - 1).push(body[n - 1]) =~= body);
}

enum State {
    Scan { j: usize, start: usize, last: u16, last_fair: bool },
    Read { at: usize, reader: FrameReader },
    Over,
}

/// Looks for a frame behind the edge of its preamble, asking for one tone after the other.
pub struct MfskReader {
    edge: usize,
    recorded: usize,
    state: State,
}

/// What a reader asks for.
#[derive(Debug, PartialEq, Eq)]
pub enum MfskAsk {
    /// The tone that starts at the sample.
    Tone(usize),
    /// Nothing: the bytes of the frame and the sample behind it.
    Frame(Vec<u8>, usize),
    /// Nothing: there is no frame.
    Lost,
}

impl MfskAsk {
    pub open spec fn wish(self) -> Wish {
        match self {
            MfskAsk::Tone(start) => Wish::Tone(start as int),
            MfskAsk::Frame(bytes, end) => Wish::Frame(bytes@, end as int),
            MfskAsk::Lost => Wish::Lost,
        }
    }
}

impl View for MfskReader {
    type V = Search;

    closed spec fn view(&self) -> Search {
        Search {
            edge: self.edge as int,
            recorded: self.recorded as int,
            stage: match self.state {
                State::Scan { j, start, last, last_fair } => Stage::Scan {
                    j: j as int,
                    last: if j == 0 {
                        None
                    } else {
                        Some((last, last_fair))
                    },
                },
                State::Read { at, reader } => Stage::Read {
                    at: at as int,
                    seen: reader.symbols(),
                },
                State::Over => Stage::Over,
            },
        }
    }
}

impl MfskReader {
    /// The tone asked for lies within the recording.
    pub closed spec fn wf(&self) -> bool {
        &&& self.edge <= self.recorded
        &&& self.recorded + 20000 <= usize::MAX
        &&& match self.state {
            State::Scan { j, start, last, last_fair } => {
                &&& j < SCAN
                &&& start == self.edge + j * 896
                &&& fits(start as int, self.recorded as int)
            },
            State::Read { at, reader } => {
                &&& at <= self.recorded
                &&& reader.wf()
                &&& reader.width() == 4
                &&& reader.reading()
            },
            State::Over => true,
        }
    }

    /// Starts at the sample where the energy of a preamble sets in.
    pub fn start(edge: usize, recorded: usize) -> (r: (MfskReader, MfskAsk))
        requires
            edge <= recorded,
            recorded + 20000 <= usize::MAX,
        ensures
            r.0.wf(),
            (r.0@, r.1.wish()) == begin(edge as int, recorded as int),
    {
        if edge + GUARD / 2 + SPS_FFT <= recorded {
            (
                MfskReader {
                    edge,
                    recorded,
                    state: State::Scan { j: 0, start: edge, last: 0, last_fair: false },
                },
                MfskAsk::Tone(edge),
            )
        } else {
            (MfskReader { edge, recorded, state: State::Over }, MfskAsk::Lost)
        }
    }

    /// Whether the sync tone was found and the frame is being read.
    pub fn is_reading(&self) -> (r: bool)
        ensures
            r == (self@.stage is Read),
    {
        match &self.state {
            State::Read { .. } => true,
            _ => false,
        }
    }

    /// Takes the tone asked for, and whether it stood out clearly and fairly.
    pub fn on_tone(self, tone: u16, clear: bool, fair: bool) -> (r: (MfskReader, MfskAsk))
        requires
            self.wf(),
        ensures
            r.0.wf(),
            (r.0@, r.1.wish()) == hear(self@, tone, clear, fair),
    {
        let edge: usize = self.edge;
        let recorded: usize = self.recorded;
        match self.state {
            State::Scan { j, start, last, last_fair } => {
                if tone == SYNC_SYM && clear && j >= 1 && last == PILOT_SYM && last_fair {
                    let header: usize = start + SYM;
                    if header + reader::LEN_REPS * len_syms() * SYM + SPS_FFT > recorded {
                        return (MfskReader { edge, recorded, state: State::Over }, MfskAsk::Lost);
                    }
                    let reader: FrameReader = FrameReader::new(BITS);
                    return (
                        MfskReader { edge, recorded, state: State::Read { at: header, reader } },
                        MfskAsk::Tone(header),
                    );
                }
                if j + 1 >= SCAN {
                    return (MfskReader { edge, recorded, state: State::Over }, MfskAsk::Lost);
                }
                let next: usize = start + SYM;
                if next + GUARD / 2 + SPS_FFT > recorded {
                    return (MfskReader { edge, recorded, state: State::Over }, MfskAsk::Lost);
                }
                (
                    MfskReader {
                        edge,
                        recorded,
                        state: State::Scan { j: j + 1, start: next, last: tone, last_fair: fair },
                    },
                    MfskAsk::Tone(next),
                )
            },
            State::Read { at, reader } => {
                let mut reader: FrameReader = reader;
                match reader.push(tone) {
                    Reading::More => {
                        let next: usize = at + SYM;
                        if next + GUARD / 2 + SPS_FFT > recorded {
                            return (
                                MfskReader { edge, recorded, state: State::Over },
                                MfskAsk::Lost,
                            );
                        }
                        (
                            MfskReader { edge, recorded, state: State::Read { at: next, reader } },
                            MfskAsk::Tone(next),
                        )
                    },
                    Reading::Rejected => (
                        MfskReader { edge, recorded, state: State::Over },
                        MfskAsk::Lost,
                    ),
                    Reading::Frame(bytes) => {
                        let end: usize = if at + SYM <= recorded {
                            at + SYM
                        } else {
                            recorded
                        };
                        (
                            MfskReader { edge, recorded, state: State::Over },
                            MfskAsk::Frame(bytes, end),
                        )
                    },
                }
            },
            State::Over => (MfskReader { edge, recorded, state: State::Over }, MfskAsk::Lost),
        }
    }
}

/// Pilots in front of a frame, and the frame from its sync tone on.
pub open spec fn behind_pilots(bytes: Seq<u8>, k: nat) -> Seq<u16> {
    Seq::new(k, |i: int| PILOT_SYM) + reader::on_air(bytes, 4, SYNC_SYM)
}

/// Pilots may be lost, or come more often: a frame is found and read whenever it is heard behind at
/// least one pilot and at most thirteen, however many of the eight that were sent these are.
#[verifier::spinoff_prover]
#[verifier::rlimit(60)]
pub proof fn law_one_pilot_is_enough(bytes: Seq<u8>, k: nat, edge: int, recorded: int)
    requires
        reader::plausible(bytes.len()),
        1 <= k <= 13,
        edge >= 0,
        edge + behind_pilots(bytes, k).len() * 896 <= recorded,
    ensures
        hear_all(begin(edge, recorded).0, behind_pilots(bytes, k)).1 == Wish::Frame(
            bytes,
            edge + behind_pilots(bytes, k).len() * 896,
        ),
        k <= 8 ==> behind_pilots(bytes, k) == tones(bytes).skip(8 - k),
{
    let all = behind_pilots(bytes, k);
    let air = reader::on_air(bytes, 4, SYNC_SYM);
    let body = air.skip(1);
    let pilots = all.take(k as int);
    let s0 = begin(edge, recorded).0;
    reader::law_frame_roundtrip(bytes, 4, SYNC_SYM);
    assert(air.len() > 13);
    assert(all.len() == k + air.len());
    lemma_pilots(edge, recorded, all, k as int);
    let upto = all.take(k as int + 1);
    assert(upto.drop_last() =~= pilots);
    assert(upto.last() == SYNC_SYM);
    let s2 = hear_all(s0, upto).0;
    let at = edge + (k + 1) * 896;
    assert(s2.stage == (Stage::Read { at, seen: Seq::empty() }));
    assert(all =~= upto + body);
    lemma_hear_concat(s0, upto, body);
    let n = body.len() as int;
    assert(all.len() == k + 1 + n);
    lemma_body(s2, at, body, n - 1);
    assert(body.drop_last() =~= body.take(n - 1));
    assert(body.take(n - 1).push(body[n - 1]) =~= body);
    if k <= 8 {
        assert(tones(bytes).skip(8 - k) =~= all);
    }
}

/// A receiver begins to read only at tone eleven, heard clearly, right behind tone eight, heard
/// fairly; it then reads from the next tone on.
pub proof fn law_only_a_sync_behind_a_pilot(s: Search, tone: u16, clear: bool, fair: bool)
    requires
        s.stage is Scan,
    ensures
        hear(s, tone, clear, fair).0.stage is Read ==> {
            let t = hear(s, tone, clear, fair).0;
            &&& tone == 11 && clear
            &&& s.stage->j >= 1
            &&& s.stage->last == Some((8u16, true))
            &&& t.stage == (Stage::Read {
                at: s.edge + (s.stage->j + 1) * 896,
                seen: Seq::empty(),
            })
        },
        hear(s, tone, clear, fair).1 !is Frame,
{
}

/// A tone that begins no frame is remembered with how it was heard, and the next one is looked at,
/// fourteen of them in all, as long as they lie within the recording.
pub proof fn law_scan_goes_on(s: Search, tone: u16, clear: bool, fair: bool)
    requires
        s.stage is Scan,
        tone != 11 || !clear || s.stage->last != Some((8u16, true)),
    ensures
        ({
            let j = s.stage->j;
            let next = s.edge + (j + 1) * 896;
            let (t, wish) = hear(s, tone, clear, fair);
            if j < 13 && next + 704 <= s.recorded {
                t.stage == (Stage::Scan { j: j + 1, last: Some((tone, fair)) }) && wish
                    == Wish::Tone(next)
            } else {
                t.stage is Over && wish is Lost
            }
        }),
{
}

/// Neighbouring tones are two bins apart, and tone eight is in the middle of the band.
pub proof fn law_tones_are_evenly_spaced(s: u16)
    requires
        s < 15,
    ensures
        bin((s + 1) as u16) == bin(s) + 2,
        bin(8) == 0,
{
}

/// The tones fit where two bins for each of the sixteen, in a transform of 512, take no more than
/// 98 percent of the band.
pub proof fn law_when_tones_fit(band: SubBand, sample_rate: u32)
    ensures
        tones_fit(band, sample_rate) <==> 32 * sample_rate * 100 <= 512 * 98 * (band.high
            - band.low),
{
    let w = band.high - band.low;
    assert(w * 98 * 16 == 1568 * w);
    assert(512 * 98 * w == 50176 * w);
    assert(32 * sample_rate * 100 == 3200 * sample_rate);
}

/// A frame starts with eight pilots and the sync tone, which is another of the sixteen tones; a tone
/// lasts 896 samples, of which 512 are looked at; a receiver looks for the sync tone among the first
/// fourteen.
pub proof fn law_numbers_of_tones(bytes: Seq<u8>, i: int)
    requires
        0 <= i < 8,
    ensures
        tones(bytes)[i] == 8,
        tones(bytes)[8] == 11,
        tones(bytes).len() == 9 + 12 + 2 * bytes.len(),
        M == 16 && BITS == 4,
        SYM == 896 && SPS_FFT == 512,
        SCAN == 14,
{
    assert(bits::groups(8 * bytes.len(), 4) == 2 * bytes.len());
    assert(bits::groups(16, 4) == 4);
    assert(tones(bytes)[8] == reader::on_air(bytes, 4, SYNC_SYM)[0]);
}

/// A search starts at the edge. Once the sync tone was found, the tone behind it is asked for, if the
/// recording holds all twelve of the length; and then one after the other, as far as the recording
/// goes, until the frame is complete or its length is refused.
pub proof fn law_tones_are_asked_in_turn(s: Search, tone: u16, fair: bool, edge: int, recorded: int)
    ensures
        begin(edge, recorded).1 == (if edge + 704 <= recorded {
            Wish::Tone(edge)
        } else {
            Wish::Lost
        }),
        s.stage is Scan && s.stage->j >= 1 && s.stage->last == Some((8u16, true)) ==> {
            let behind = s.edge + (s.stage->j + 1) * 896;
            hear(s, 11, true, fair).1 == (if behind + 11264 <= s.recorded {
                Wish::Tone(behind)
            } else {
                Wish::Lost
            })
        },
        s.stage is Read ==> {
            let next = s.stage->at + 896;
            let wish = hear(s, tone, true, fair).1;
            match verdict(s.stage->seen.push(tone), 4) {
                Verdict::More => wish == (if next + 704 <= s.recorded {
                    Wish::Tone(next)
                } else {
                    Wish::Lost
                }),
                Verdict::Rejected => wish == Wish::Lost,
                Verdict::Complete(bytes) => {
                    &&& wish is Frame
                    &&& wish->Frame_0 == bytes
                    &&& next <= s.recorded ==> wish->Frame_1 == next
                    &&& next > s.recorded ==> wish->Frame_1 == s.recorded
                },
            }
        },
        s.stage is Over ==> hear(s, tone, true, fair).1 == Wish::Lost,
{
}

} // verus!
