//! The receive buffer: cuts what the microphone hears into bursts at the pauses between them.
//!
//! Levels are floating point. The caller measures them and says whether the tail of the buffer is
//! loud, and whether anything in it is.

use std::collections::VecDeque;
use vstd::prelude::*;
use crate::arq::fallback::count;
use crate::bandplan::{EchoCanceller, NoopEchoCanceller};
use crate::framing;
use crate::framing::{Frame, PhyMode, OVERHEAD};
use crate::modem::bits;
use crate::modem::css::CssLayout;
use crate::modem::mfsk;
use crate::modem::ofdm;
use crate::modem::ofdm::OfdmLayout;
use crate::modem::reader;
use crate::order;

verus! {

/// How many levels are remembered, one for each tenth of a second. That is longer than any frame,
/// so no frame can be taken for the noise.
pub const LEVEL_HIST_LEN: usize = 200;

/// The level, as the bits of a 32-bit float, above which noise is not taken to be: 0.03. However
/// the levels lie, a device nearby stays louder than what is made of it.
pub const NOISE_FLOOR_CAP_KEY: u32 = 0x3CF5_C28F;

/// The modes in the order in which the demodulators are tried.
pub open spec fn tried_modes() -> Seq<PhyMode> {
    seq![PhyMode::Css, PhyMode::Mfsk, PhyMode::OfdmQpsk, PhyMode::Ofdm16Qam]
}

/// The mode of a demodulator.
pub fn mode_of_modem(index: usize) -> (r: PhyMode)
    requires
        index < 4,
    ensures
        r == tried_modes()[index as int],
{
    if index == 0 {
        PhyMode::Css
    } else if index == 1 {
        PhyMode::Mfsk
    } else if index == 2 {
        PhyMode::OfdmQpsk
    } else {
        PhyMode::Ofdm16Qam
    }
}

/// What came of the last burst.
#[derive(Debug, Clone, Copy, PartialEq, Eq, Structural)]
pub enum LastEvent {
    Waiting,
    Received,
    Damaged,
    NoPreamble,
}

impl LastEvent {
    pub open spec fn wording(&self) -> Seq<char> {
        match *self {
            LastEvent::Waiting => "ожидание"@,
            LastEvent::Received => "кадр принят"@,
            LastEvent::Damaged => "синхронизация есть, CRC битый"@,
            LastEvent::NoPreamble => "преамбула не найдена"@,
        }
    }

    /// The event as it is shown.
    pub fn text(&self) -> (r: &'static str)
        ensures
            r@ == self.wording(),
    {
        match *self {
            LastEvent::Waiting => "ожидание",
            LastEvent::Received => "кадр принят",
            LastEvent::Damaged => "синхронизация есть, CRC битый",
            LastEvent::NoPreamble => "преамбула не найдена",
        }
    }
}

/// What to do with the buffer.
#[derive(Debug, Clone, Copy, PartialEq, Eq, Structural)]
pub enum Step {
    /// A burst is under way: go on listening.
    Wait,
    /// The burst has outgrown every frame: try to decode what there is.
    DecodeForced,
    /// The burst is over: decode it.
    DecodeFinal,
    /// Silence, all but the last of which was dropped.
    Trimmed,
}

/// The buffer and its counters. The counts of samples since a level was noted, since a decoding
/// was forced and since something was logged stop at the largest number there is.
#[verifier::ext_equal]
pub struct Listening<S> {
    pub heard: Seq<S>,
    pub reference: Seq<S>,
    pub since_hist: int,
    pub since_force: int,
    pub since_log: int,
    pub levels: Seq<u32>,
    pub ok: u32,
    pub bad: u32,
    pub last: LastEvent,
}

/// A count after more samples.
pub open spec fn more(n: int, samples: nat) -> int {
    if n + samples <= usize::MAX {
        n + samples
    } else {
        usize::MAX as int
    }
}

/// The last `n` elements, or all of them.
pub open spec fn ending<S>(s: Seq<S>, n: int) -> Seq<S> {
    if n >= s.len() {
        s
    } else {
        s.skip(s.len() - n)
    }
}

/// The levels after another: the oldest go when there are too many.
pub open spec fn noted(levels: Seq<u32>, level: u32) -> Seq<u32> {
    ending(levels.push(level), LEVEL_HIST_LEN as int)
}

/// The level below which a tenth of the levels lie.
pub open spec fn floor_of(levels: Seq<u32>) -> u32 {
    order::ascending(levels)[(levels.len() / 10) as int]
}

/// The level that noise is taken to have: a tenth of the levels lie below it, unless that is more
/// than noise may have.
pub open spec fn noise_of(levels: Seq<u32>) -> u32 {
    if floor_of(levels) <= NOISE_FLOOR_CAP_KEY {
        floor_of(levels)
    } else {
        NOISE_FLOOR_CAP_KEY
    }
}

/// The bytes are a frame.
pub open spec fn good(found: Option<Vec<u8>>) -> bool {
    found matches Some(bytes) && framing::parsed(bytes@) is Ok
}

/// The receive buffer. `S` is the type of a sample.
pub struct RxDemodulator<S> {
    canceller: NoopEchoCanceller,
    silence: S,
    buf: Vec<S>,
    reference: VecDeque<S>,
    max_frame: usize,
    sample_rate: u32,
    level_hist: VecDeque<u32>,
    since_hist: usize,
    since_force: usize,
    since_log: usize,
    frames_ok: u32,
    frames_bad: u32,
    last_event: LastEvent,
}

/// The larger of two numbers.
pub open spec fn larger(a: nat, b: nat) -> nat {
    if a >= b {
        a
    } else {
        b
    }
}

/// The samples of a frame of chirps with a payload of 64 bytes.
pub open spec fn chirp_frame(css: &CssLayout) -> nat {
    (css.header_len() + bits::groups(640, css.width())) * css.symbol_len()
}

/// The samples of a frame of subcarriers with a payload of 64 bytes.
pub open spec fn carrier_frame(ofdm: &OfdmLayout) -> nat {
    (3 + bits::groups(640, ofdm.per_symbol())) * 1152
}

/// The samples of a frame of a mode with a payload of the given length.
pub open spec fn frame_len(
    mode: PhyMode,
    css: &CssLayout,
    qpsk: &OfdmLayout,
    qam: &OfdmLayout,
    payload_len: nat,
) -> nat {
    let sent = 8 * (OVERHEAD + payload_len) as nat;
    match mode {
        PhyMode::Css => (css.header_len() + bits::groups(sent, css.width())) * css.symbol_len(),
        PhyMode::Mfsk => (21 + 2 * (OVERHEAD + payload_len) as nat) * 896,
        PhyMode::OfdmQpsk => (3 + bits::groups(sent, qpsk.per_symbol())) * 1152,
        PhyMode::Ofdm16Qam => (3 + bits::groups(sent, qam.per_symbol())) * 1152,
    }
}

/// The samples of a frame of a mode with a payload of the given length.
pub fn frame_samples(
    mode: PhyMode,
    css: &CssLayout,
    qpsk: &OfdmLayout,
    qam: &OfdmLayout,
    payload_len: usize,
) -> (r: usize)
    requires
        css.wf(),
        qpsk.wf(),
        qpsk.per_symbol() > 0,
        qam.wf(),
        qam.per_symbol() > 0,
        8 * (OVERHEAD + payload_len) + 8192 <= usize::MAX,
        frame_len(mode, css, qpsk, qam, payload_len as nat) <= usize::MAX,
    ensures
        r == frame_len(mode, css, qpsk, qam, payload_len as nat),
{
    match mode {
        PhyMode::Css => css.frame_samples(payload_len),
        PhyMode::Mfsk => mfsk::frame_samples(payload_len),
        PhyMode::OfdmQpsk => qpsk.frame_samples(payload_len),
        PhyMode::Ofdm16Qam => qam.frame_samples(payload_len),
    }
}

proof fn lemma_groups_bound(n: nat, width: nat)
    requires
        width > 0,
    ensures
        bits::groups(n, width) <= n + 1,
{
    assert((n + width - 1) / (width as int) <= n + 1) by (nonlinear_arith)
        requires
            width > 0,
    ;
}

/// The samples of the longest frame with a payload of 64 bytes, over all modes.
pub fn longest_frame(css: &CssLayout, qpsk: &OfdmLayout, qam: &OfdmLayout) -> (r: usize)
    requires
        css.wf(),
        qpsk.wf(),
        qpsk.per_symbol() > 0,
        qam.wf(),
        qam.per_symbol() > 0,
        chirp_frame(css) <= usize::MAX,
    ensures
        r == larger(
            larger(chirp_frame(css), (21 + 2 * 80) * 896),
            larger(carrier_frame(qpsk), carrier_frame(qam)),
        ),
{
    proof {
        lemma_groups_bound(640, qpsk.per_symbol());
        lemma_groups_bound(640, qam.per_symbol());
    }
    let a: usize = css.frame_samples(64);
    let b: usize = mfsk::frame_samples(64);
    let c: usize = qpsk.frame_samples(64);
    let d: usize = qam.frame_samples(64);
    let ab: usize = if a >= b {
        a
    } else {
        b
    };
    let cd: usize = if c >= d {
        c
    } else {
        d
    };
    if ab >= cd {
        ab
    } else {
        cd
    }
}

/// The index of the first result that is a frame.
pub fn first_frame(found: &[Option<Vec<u8>>]) -> (r: Option<usize>)
    ensures
        match r {
            Some(i) => {
                &&& i < found@.len()
                &&& good(found@[i as int])
                &&& forall|j: int| 0 <= j < i ==> !good(#[trigger] found@[j])
            },
            None => forall|j: int| 0 <= j < found@.len() ==> !good(#[trigger] found@[j]),
        },
{
    let mut i: usize = 0;
    while i < found.len()
        invariant
            i <= found@.len(),
            forall|j: int| 0 <= j < i ==> !good(#[trigger] found@[j]),
        decreases found@.len() - i,
    {
        if let Some(bytes) = &found[i] {
            if let Ok(_) = Frame::parse(bytes) {
                return Some(i);
            }
        }
        i += 1;
    }
    None
}

/// Some demodulator found something.
fn any_found(found: &[Option<Vec<u8>>]) -> (r: bool)
    ensures
        r <==> exists|j: int| 0 <= j < found@.len() && (#[trigger] found@[j]) is Some,
{
    let mut i: usize = 0;
    while i < found.len()
        invariant
            i <= found@.len(),
            forall|j: int| 0 <= j < i ==> (#[trigger] found@[j]) is None,
        decreases found@.len() - i,
    {
        if found[i].is_some() {
            return true;
        }
        i += 1;
    }
    false
}

impl<S: Copy> RxDemodulator<S> {
    pub closed spec fn state(&self) -> Listening<S> {
        Listening {
            heard: self.buf@,
            reference: self.reference@,
            since_hist: self.since_hist as int,
            since_force: self.since_force as int,
            since_log: self.since_log as int,
            levels: self.level_hist@,
            ok: self.frames_ok,
            bad: self.frames_bad,
            last: self.last_event,
        }
    }

    /// The length of the longest frame.
    pub closed spec fn longest(&self) -> usize {
        self.max_frame
    }

    pub closed spec fn rate(&self) -> u32 {
        self.sample_rate
    }

    /// At most as many levels are remembered as there may be.
    pub closed spec fn wf(&self) -> bool {
        self.level_hist@.len() <= LEVEL_HIST_LEN
    }

    /// The parameters are those of another buffer.
    pub open spec fn same_setup(&self, other: &Self) -> bool {
        self.longest() == other.longest() && self.rate() == other.rate()
    }

    pub fn new(max_frame: usize, sample_rate: u32, silence: S) -> (r: Self)
        ensures
            r.wf(),
            r.longest() == max_frame,
            r.rate() == sample_rate,
            r.state() == (Listening::<S> {
                heard: Seq::empty(),
                reference: Seq::empty(),
                since_hist: 0,
                since_force: 0,
                since_log: 0,
                levels: Seq::empty(),
                ok: 0,
                bad: 0,
                last: LastEvent::Waiting,
            }),
    {
        let r = RxDemodulator {
            canceller: NoopEchoCanceller,
            silence,
            buf: Vec::new(),
            reference: VecDeque::new(),
            max_frame,
            sample_rate,
            level_hist: VecDeque::new(),
            since_hist: 0,
            since_force: 0,
            since_log: 0,
            frames_ok: 0,
            frames_bad: 0,
            last_event: LastEvent::Waiting,
        };
        assert(r.level_hist@ =~= Seq::empty());
        r
    }

    /// Forgets what was heard and what was played. Levels and counts stay.
    pub fn clear(&mut self)
        requires
            old(self).wf(),
        ensures
            final(self).wf(),
            final(self).same_setup(old(self)),
            final(self).state() == (Listening {
                heard: Seq::empty(),
                reference: Seq::empty(),
                since_force: 0,
                ..old(self).state()
            }),
    {
        self.buf.clear();
        self.reference.clear();
        self.since_force = 0;
    }

    /// Keeps what was played, the last two frames of it.
    pub fn push_reference(&mut self, played: &[S])
        requires
            old(self).wf(),
            old(self).state().reference.len() + played@.len() <= usize::MAX,
        ensures
            final(self).wf(),
            final(self).same_setup(old(self)),
            final(self).state() == (Listening {
                reference: ending(
                    old(self).state().reference + played@,
                    2 * old(self).longest(),
                ),
                ..old(self).state()
            }),
    {
        let ghost before = self.reference@;
        let mut i: usize = 0;
        assert(before + played@.take(0) =~= before);
        while i < played.len()
            invariant
                i <= played@.len(),
                self.reference@ == before + played@.take(i as int),
                self.canceller == old(self).canceller,
                self.silence == old(self).silence,
                self.buf == old(self).buf,
                self.max_frame == old(self).max_frame,
                self.sample_rate == old(self).sample_rate,
                self.level_hist == old(self).level_hist,
                self.since_hist == old(self).since_hist,
                self.since_force == old(self).since_force,
                self.since_log == old(self).since_log,
                self.frames_ok == old(self).frames_ok,
                self.frames_bad == old(self).frames_bad,
                self.last_event == old(self).last_event,
            decreases played@.len() - i,
        {
            self.reference.push_back(played[i]);
            assert(before + played@.take(i + 1) =~= (before + played@.take(i as int)).push(
                played@[i as int],
            ));
            i += 1;
        }
        let ghost all = before + played@;
        assert(played@.take(i as int) =~= played@);
        assert(ending(all, self.reference@.len() as int) =~= self.reference@);
        while self.reference.len() as u128 > self.max_frame as u128 * 2
            invariant
                self.reference@.len() <= all.len(),
                self.reference@ == ending(all, self.reference@.len() as int),
                self.reference@.len() >= 2 * self.max_frame || self.reference@.len() == all.len(),
                self.canceller == old(self).canceller,
                self.silence == old(self).silence,
                self.buf == old(self).buf,
                self.max_frame == old(self).max_frame,
                self.sample_rate == old(self).sample_rate,
                self.level_hist == old(self).level_hist,
                self.since_hist == old(self).since_hist,
                self.since_force == old(self).since_force,
                self.since_log == old(self).since_log,
                self.frames_ok == old(self).frames_ok,
                self.frames_bad == old(self).frames_bad,
                self.last_event == old(self).last_event,
            decreases self.reference@.len(),
        {
            let ghost r0 = self.reference@;
            self.reference.pop_front();
            assert(self.reference@ =~= r0.skip(1));
            assert(self.reference@ =~= ending(all, r0.len() - 1));
        }
    }

    /// Keeps what was captured, once the own echo was taken out of it.
    pub fn push_captured(&mut self, captured: &[S])
        requires
            old(self).wf(),
            old(self).state().heard.len() + captured@.len() <= usize::MAX,
        ensures
            final(self).wf(),
            final(self).same_setup(old(self)),
            final(self).state() == (Listening {
                heard: old(self).state().heard + captured@,
                reference: old(self).state().reference.skip(
                    if captured@.len() <= old(self).state().reference.len() {
                        captured@.len() as int
                    } else {
                        old(self).state().reference.len() as int
                    },
                ),
                since_hist: more(old(self).state().since_hist, captured@.len()),
                since_force: more(old(self).state().since_force, captured@.len()),
                since_log: more(old(self).state().since_log, captured@.len()),
                ..old(self).state()
            }),
    {
        let mut block: Vec<S> = Vec::new();
        let mut refs: Vec<S> = Vec::new();
        let ghost ref0 = self.reference@;
        assert(ref0.skip(0) =~= ref0);
        let mut i: usize = 0;
        while i < captured.len()
            invariant
                i <= captured@.len(),
                block@ == captured@.take(i as int),
                refs@.len() == i,
                ref0 == old(self).reference@,
                self.reference@ == ref0.skip(
                    if i <= ref0.len() {
                        i as int
                    } else {
                        ref0.len() as int
                    },
                ),
                self.canceller == old(self).canceller,
                self.silence == old(self).silence,
                self.buf == old(self).buf,
                self.max_frame == old(self).max_frame,
                self.sample_rate == old(self).sample_rate,
                self.level_hist == old(self).level_hist,
                self.since_hist == old(self).since_hist,
                self.since_force == old(self).since_force,
                self.since_log == old(self).since_log,
                self.frames_ok == old(self).frames_ok,
                self.frames_bad == old(self).frames_bad,
                self.last_event == old(self).last_event,
            decreases captured@.len() - i,
        {
            block.push(captured[i]);
            assert(block@ =~= captured@.take(i + 1));
            let ghost r0 = self.reference@;
            let played: S = match self.reference.pop_front() {
                Some(s) => s,
                None => self.silence,
            };
            assert(self.reference@ =~= ref0.skip(
                if i + 1 <= ref0.len() {
                    i + 1
                } else {
                    ref0.len() as int
                },
            ));
            refs.push(played);
            i += 1;
        }
        self.canceller.process(&mut block, &refs);
        assert(block@ =~= captured@);
        let n: usize = block.len();
        let ghost b0 = self.buf@;
        self.buf.append(&mut block);
        assert(self.buf@ =~= b0 + captured@);
        self.since_force = self.since_force.saturating_add(n);
        self.since_hist = self.since_hist.saturating_add(n);
        self.since_log = self.since_log.saturating_add(n);
    }

    /// The samples that are kept.
    pub fn samples(&self) -> (r: &Vec<S>)
        ensures
            r@ == self.state().heard,
    {
        &self.buf
    }

    /// The length of the tail whose level tells whether there is a pause: an eighth of a second,
    /// at least one sample, at most the buffer.
    pub fn tail_len(&self) -> (r: usize)
        ensures
            ({
                let n = if self.rate() >= 8 {
                    self.rate() as int / 8
                } else {
                    1
                };
                r == (if n <= self.state().heard.len() {
                    n
                } else {
                    self.state().heard.len() as int
                })
            }),
    {
        let n: usize = if self.sample_rate >= 8 {
            (self.sample_rate / 8) as usize
        } else {
            1
        };
        if n <= self.buf.len() {
            n
        } else {
            self.buf.len()
        }
    }

    /// The length of a window in which a burst is looked for, a twentieth of a second, and how
    /// many whole ones the buffer holds side by side.
    pub fn burst_windows(&self) -> (r: (usize, usize))
        ensures
            r.0 == (if self.rate() >= 20 {
                self.rate() as int / 20
            } else {
                1
            }),
            r.1 == self.state().heard.len() / (r.0 as nat),
    {
        let win: usize = if self.sample_rate >= 20 {
            (self.sample_rate / 20) as usize
        } else {
            1
        };
        (win, self.buf.len() / win)
    }

    /// Notes the level of the tail if it is time to, ten times a second, and then returns the
    /// level of the noise. Levels are not negative and given by their bits as 32-bit floats, which
    /// are in the same order.
    pub fn note_level(&mut self, level: u32) -> (r: Option<u32>)
        requires
            old(self).wf(),
        ensures
            final(self).wf(),
            final(self).same_setup(old(self)),
            ({
                let s = old(self).state();
                if s.heard.len() > 0 && s.since_hist >= old(self).rate() / 10 {
                    &&& final(self).state() == (Listening {
                        since_hist: 0,
                        levels: noted(s.levels, level),
                        ..s
                    })
                    &&& r == Some(noise_of(noted(s.levels, level)))
                } else {
                    final(self).state() == s && r is None
                }
            }),
    {
        if self.buf.len() == 0 || (self.since_hist as u64) < (self.sample_rate / 10) as u64 {
            return None;
        }
        let ghost l0 = self.level_hist@;
        self.since_hist = 0;
        self.level_hist.push_back(level);
        if self.level_hist.len() > LEVEL_HIST_LEN {
            self.level_hist.pop_front();
            assert(self.level_hist@ =~= l0.push(level).skip(1));
        }
        assert(self.level_hist@ =~= noted(l0, level));
        let mut levels: Vec<u32> = Vec::new();
        let mut i: usize = 0;
        while i < self.level_hist.len()
            invariant
                i <= self.level_hist@.len(),
                levels@ == self.level_hist@.take(i as int),
            decreases self.level_hist@.len() - i,
        {
            levels.push(self.level_hist[i]);
            assert(levels@ =~= self.level_hist@.take(i + 1));
            i += 1;
        }
        assert(levels@ =~= self.level_hist@);
        let v: Vec<u32> = order::sorted(&levels);
        let floor: u32 = v[v.len() / 10];
        Some(
            if floor <= NOISE_FLOOR_CAP_KEY {
                floor
            } else {
                NOISE_FLOOR_CAP_KEY
            },
        )
    }

    /// Whether it is time to log the levels, once a second.
    pub fn log_due(&mut self) -> (r: bool)
        requires
            old(self).wf(),
        ensures
            final(self).wf(),
            final(self).same_setup(old(self)),
            r <==> old(self).state().since_log >= old(self).rate(),
            final(self).state() == (if r {
                (Listening { since_log: 0, ..old(self).state() })
            } else {
                old(self).state()
            }),
    {
        if self.since_log as u64 >= self.sample_rate as u64 {
            self.since_log = 0;
            true
        } else {
            false
        }
    }

    /// Decides what to do, by whether the tail is loud and whether there is a burst anywhere.
    pub fn decide(&mut self, tail_hot: bool, burst: bool) -> (r: Step)
        requires
            old(self).wf(),
        ensures
            final(self).wf(),
            final(self).same_setup(old(self)),
            ({
                let s = old(self).state();
                let rate = old(self).rate();
                if tail_hot {
                    if s.heard.len() > old(self).longest() + rate / 2 && s.since_force >= rate * 2
                        / 5 {
                        r == Step::DecodeForced && final(self).state() == (Listening {
                            since_force: 0,
                            ..s
                        })
                    } else {
                        r == Step::Wait && final(self).state() == s
                    }
                } else if burst {
                    r == Step::DecodeFinal && final(self).state() == s
                } else {
                    r == Step::Trimmed && final(self).state() == (Listening {
                        heard: ending(s.heard, rate as int / 3),
                        ..s
                    })
                }
            }),
    {
        let rate: u64 = self.sample_rate as u64;
        if tail_hot {
            if self.buf.len() as u128 > self.max_frame as u128 + (rate / 2) as u128
                && self.since_force as u64 >= rate * 2 / 5 {
                self.since_force = 0;
                return Step::DecodeForced;
            }
            return Step::Wait;
        }
        if burst {
            return Step::DecodeFinal;
        }
        self.keep_last((self.sample_rate / 3) as usize);
        Step::Trimmed
    }

    /// Drops all but the last `keep` samples.
    fn keep_last(&mut self, keep: usize)
        requires
            old(self).wf(),
        ensures
            final(self).wf(),
            final(self).same_setup(old(self)),
            final(self).state() == (Listening {
                heard: ending(old(self).state().heard, keep as int),
                ..old(self).state()
            }),
    {
        if self.buf.len() > keep {
            let ghost b0 = self.buf@;
            let at: usize = self.buf.len() - keep;
            let tail: Vec<S> = self.buf.split_off(at);
            self.buf = tail;
            assert(self.buf@ =~= ending(b0, keep as int));
        }
    }

    /// Takes what the demodulators found, in the order in which they were tried, and returns the
    /// index of the first that is a frame. A burst that was decoded, or that is over, is dropped;
    /// of one that goes on the last frame's length is kept.
    pub fn finish_decode(&mut self, found: &[Option<Vec<u8>>], forced: bool) -> (r: Option<usize>)
        requires
            old(self).wf(),
        ensures
            final(self).wf(),
            final(self).same_setup(old(self)),
            match r {
                Some(i) => {
                    &&& i < found@.len()
                    &&& good(found@[i as int])
                    &&& forall|j: int| 0 <= j < i ==> !good(#[trigger] found@[j])
                    &&& final(self).state() == (Listening {
                        heard: Seq::empty(),
                        ok: count(old(self).state().ok as int) as u32,
                        last: LastEvent::Received,
                        ..old(self).state()
                    })
                },
                None => {
                    let damaged = exists|j: int|
                        0 <= j < found@.len() && (#[trigger] found@[j]) is Some;
                    &&& forall|j: int| 0 <= j < found@.len() ==> !good(#[trigger] found@[j])
                    &&& final(self).state() == (Listening {
                        heard: if forced {
                            ending(old(self).state().heard, old(self).longest() as int)
                        } else {
                            Seq::empty()
                        },
                        bad: if damaged {
                            count(old(self).state().bad as int) as u32
                        } else {
                            old(self).state().bad
                        },
                        last: if damaged {
                            LastEvent::Damaged
                        } else {
                            LastEvent::NoPreamble
                        },
                        ..old(self).state()
                    })
                },
            },
    {
        match first_frame(found) {
            Some(i) => {
                self.frames_ok = self.frames_ok.saturating_add(1);
                self.last_event = LastEvent::Received;
                self.buf.clear();
                Some(i)
            },
            None => {
                if any_found(found) {
                    self.frames_bad = self.frames_bad.saturating_add(1);
                    self.last_event = LastEvent::Damaged;
                } else {
                    self.last_event = LastEvent::NoPreamble;
                }
                if forced {
                    self.keep_last(self.max_frame);
                } else {
                    self.buf.clear();
                }
                None
            },
        }
    }

    pub fn frames_ok(&self) -> (r: u32)
        ensures
            r == self.state().ok,
    {
        self.frames_ok
    }

    pub fn frames_bad(&self) -> (r: u32)
        ensures
            r == self.state().bad,
    {
        self.frames_bad
    }

    pub fn last_event(&self) -> (r: LastEvent)
        ensures
            r == self.state().last,
    {
        self.last_event
    }
}

/// The level of the noise is one of the levels remembered or the most that noise may have, and it
/// is at most `q` as soon as more than a tenth of the levels are, however loud the others: a frame
/// cannot raise it as long as there are pauses.
pub proof fn law_pauses_set_the_noise(levels: Seq<u32>, q: u32)
    requires
        levels.len() > 0,
    ensures
        levels.contains(noise_of(levels)) || noise_of(levels) == NOISE_FLOOR_CAP_KEY,
        order::low_count(levels, q) > levels.len() / 10 ==> noise_of(levels) <= q,
{
    order::law_rank(levels, (levels.len() / 10) as int, q);
}

/// A receiver never locks itself out: whatever it has heard, the noise is not taken to be louder
/// than it may be.
pub proof fn law_noise_is_capped(levels: Seq<u32>)
    ensures
        noise_of(levels) <= NOISE_FLOOR_CAP_KEY,
{
}

/// What is kept of a sequence is its end: all of it if it is short enough, and else the number of
/// elements that was asked for.
pub proof fn law_what_is_kept<S>(s: Seq<S>, n: int, i: int)
    requires
        0 <= n,
        0 <= i < ending(s, n).len(),
    ensures
        ending(s, n).len() <= n,
        ending(s, n).len() <= s.len(),
        ending(s, n).len() == n || ending(s, n).len() == s.len(),
        ending(s, n)[i] == s[s.len() - ending(s, n).len() + i],
{
}

/// The level that came last is the last one remembered, those before it keep their order, and no
/// more than 200 are remembered.
pub proof fn law_levels_remembered(levels: Seq<u32>, level: u32)
    requires
        levels.len() <= 200,
    ensures
        noted(levels, level).last() == level,
        levels.len() < 200 ==> noted(levels, level).drop_last() == levels,
        levels.len() == 200 ==> noted(levels, level).drop_last() == levels.skip(1),
{
    let r = noted(levels, level);
    if levels.len() < 200 {
        assert(r.drop_last() =~= levels);
    } else {
        assert(r.drop_last() =~= levels.skip(1));
    }
}

/// The noise is at most `q` exactly if more than a tenth of the levels are, or if `q` is at least
/// 0.03, whose bits as a 32-bit float are 0x3CF5C28F.
pub proof fn law_level_of_noise(levels: Seq<u32>, q: u32)
    requires
        levels.len() > 0,
    ensures
        noise_of(levels) <= q <==> order::low_count(levels, q) > levels.len() / 10 || q
            >= 0x3CF5C28F,
{
    order::law_rank_is_exact(levels, (levels.len() / 10) as int, q);
}

/// A count grows by the samples, and stays at the largest number there is once it has got there.
pub proof fn law_counts_stop(n: int, samples: nat)
    requires
        0 <= n <= usize::MAX,
    ensures
        n + samples <= usize::MAX ==> more(n, samples) == n + samples,
        n + samples > usize::MAX ==> more(n, samples) == usize::MAX,
{
}

/// Sturdier modes are tried before faster ones.
pub proof fn law_order_of_modes(i: int, j: int)
    requires
        0 <= i < j < 4,
    ensures
        tried_modes().len() == 4,
        tried_modes()[i].bits() < tried_modes()[j].bits(),
{
}

/// The larger of two numbers is one of them, and neither is above it.
pub proof fn law_larger(a: nat, b: nat)
    ensures
        larger(a, b) >= a,
        larger(a, b) >= b,
        larger(a, b) == a || larger(a, b) == b,
{
}

/// A frame is as long as what is sent of it: as many tones, chirps or symbols of subcarriers as carry
/// its bytes, behind what comes before them.
pub proof fn law_length_of_a_frame(
    css: &CssLayout,
    qpsk: &OfdmLayout,
    qam: &OfdmLayout,
    bytes: Seq<u8>,
)
    requires
        bytes.len() >= 16,
        css.wf(),
        qpsk.per_symbol() > 0,
        qam.per_symbol() > 0,
    ensures
        ({
            let payload_len = (bytes.len() - 16) as nat;
            &&& frame_len(PhyMode::Mfsk, css, qpsk, qam, payload_len) == mfsk::tones(bytes).len() * 896
            &&& frame_len(PhyMode::Css, css, qpsk, qam, payload_len) == (10 + reader::on_air(
                bytes,
                css.width(),
                0,
            ).len()) * css.symbol_len()
            &&& frame_len(PhyMode::OfdmQpsk, css, qpsk, qam, payload_len) == (3 + ofdm::filled(
                bytes,
                qpsk.per_symbol(),
            ).len() / qpsk.per_symbol()) * 1152
            &&& frame_len(PhyMode::Ofdm16Qam, css, qpsk, qam, payload_len) == (3 + ofdm::filled(
                bytes,
                qam.per_symbol(),
            ).len() / qam.per_symbol()) * 1152
        }),
{
    lemma_filled(bytes, qpsk.per_symbol());
    lemma_filled(bytes, qam.per_symbol());
}

proof fn lemma_filled(bytes: Seq<u8>, per: nat)
    requires
        per > 0,
    ensures
        ofdm::filled(bytes, per).len() / per == bits::groups(8 * bytes.len(), per),
{
    ofdm::law_data_is_filled_up(bytes, per);
    let g = bits::groups(8 * bytes.len(), per);
    bits::law_groups_are_fewest(8 * bytes.len(), per);
    assert(ofdm::filled(bytes, per).len() == g * per);
    vstd::arithmetic::div_mod::lemma_div_multiples_vanish(g as int, per as int);
    assert(g * per == per * g) by (nonlinear_arith);
}

/// The longest frame is that of a payload of 64 bytes, whichever mode it is sent in.
pub proof fn law_no_frame_is_longer(
    css: &CssLayout,
    qpsk: &OfdmLayout,
    qam: &OfdmLayout,
    mode: PhyMode,
)
    ensures
        frame_len(mode, css, qpsk, qam, 64) <= larger(
            larger(chirp_frame(css), (21 + 2 * 80) * 896),
            larger(carrier_frame(qpsk), carrier_frame(qam)),
        ),
        chirp_frame(css) == frame_len(PhyMode::Css, css, qpsk, qam, 64),
        carrier_frame(qpsk) == frame_len(PhyMode::OfdmQpsk, css, qpsk, qam, 64),
        carrier_frame(qam) == frame_len(PhyMode::Ofdm16Qam, css, qpsk, qam, 64),
{
}

/// A demodulator's result counts as a frame exactly if it found bytes and they parse.
pub proof fn law_what_counts_as_a_frame(found: Option<Vec<u8>>)
    ensures
        found is None ==> !good(found),
        found is Some ==> (good(found) <==> framing::parsed(found->0@) is Ok),
{
}

/// How the events are shown.
pub proof fn law_how_events_are_shown()
    ensures
        LastEvent::Waiting.wording() == "ожидание"@,
        LastEvent::Received.wording() == "кадр принят"@,
        LastEvent::Damaged.wording() == "синхронизация есть, CRC битый"@,
        LastEvent::NoPreamble.wording() == "преамбула не найдена"@,
{
}

/// Buffers with the same setup have frames of the same length and the same rate.
pub proof fn law_setup_stays<S: Copy>(a: RxDemodulator<S>, b: RxDemodulator<S>)
    ensures
        a.same_setup(&b) <==> a.longest() == b.longest() && a.rate() == b.rate(),
{
}

} // verus!
