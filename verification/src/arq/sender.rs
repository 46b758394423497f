//! The sending side of the window.

use std::collections::HashMap;
use vstd::prelude::*;
use vstd::arithmetic::power2::pow2;
use crate::arq::ArqConfig;

verus! {

broadcast use vstd::std_specs::hash::group_hash_axioms;

/// A frame that waits for its acknowledgement.
#[derive(Debug)]
pub struct Outstanding {
    pub payload: Vec<u8>,
    pub sent_at: u64,
    pub retries: u32,
}

/// A sender with a sliding window.
pub struct ArqSender {
    cfg: ArqConfig,
    next_seq: u16,
    outstanding: HashMap<u16, Outstanding>,
    retransmits: u32,
    link_down: bool,
    last_rtt_sample: Option<u64>,
}

/// The factor by which the timeout has grown after some retries: it doubles with each, six times
/// at most.
pub open spec fn backoff(retries: u32) -> u64 {
    if retries == 0 {
        1
    } else if retries == 1 {
        2
    } else if retries == 2 {
        4
    } else if retries == 3 {
        8
    } else if retries == 4 {
        16
    } else if retries == 5 {
        32
    } else {
        64
    }
}

/// How long a frame waits, cut at the largest number there is.
pub open spec fn patience(cfg: ArqConfig, retries: u32) -> int {
    let t = cfg.timeout_ms * backoff(retries);
    if t <= u64::MAX {
        t
    } else {
        u64::MAX as int
    }
}

/// The time since a frame was sent, zero if it was sent in the future.
pub open spec fn age(now_ms: u64, sent_at: u64) -> int {
    if now_ms >= sent_at {
        now_ms - sent_at
    } else {
        0
    }
}

/// The frame has waited long enough.
pub open spec fn expired(cfg: ArqConfig, frame: Outstanding, now_ms: u64) -> bool {
    age(now_ms, frame.sent_at) >= patience(cfg, frame.retries)
}

/// The frame is to be sent again.
pub open spec fn due(cfg: ArqConfig, frame: Outstanding, now_ms: u64) -> bool {
    expired(cfg, frame, now_ms) && frame.retries < cfg.max_retries
}

/// The frame as it waits once it was sent again.
pub open spec fn resent(frame: Outstanding, now_ms: u64) -> Outstanding {
    Outstanding { payload: frame.payload, sent_at: now_ms, retries: (frame.retries + 1) as u32 }
}

/// The frames after those due were sent again.
pub open spec fn after_resend(
    cfg: ArqConfig,
    frames: Map<u16, Outstanding>,
    now_ms: u64,
) -> Map<u16, Outstanding> {
    Map::new(
        |seq: u16| frames.contains_key(seq),
        |seq: u16|
            if due(cfg, frames[seq], now_ms) {
                resent(frames[seq], now_ms)
            } else {
                frames[seq]
            },
    )
}

/// The frames that an acknowledgement leaves waiting.
pub open spec fn after_ack(
    frames: Map<u16, Outstanding>,
    cumulative: u16,
    sack: u32,
) -> Map<u16, Outstanding> {
    Map::new(
        |seq: u16| frames.contains_key(seq) && !crate::arq::acknowledges(cumulative, sack, seq),
        |seq: u16| frames[seq],
    )
}

/// `list` holds the numbers and payloads of just the frames due, each once.
pub open spec fn lists_due(
    list: Seq<(u16, Vec<u8>)>,
    cfg: ArqConfig,
    frames: Map<u16, Outstanding>,
    now_ms: u64,
) -> bool {
    &&& forall|i: int|
        0 <= i < list.len() ==> {
            let (seq, payload) = #[trigger] list[i];
            frames.contains_key(seq) && due(cfg, frames[seq], now_ms) && payload@
                == frames[seq].payload@
        }
    &&& forall|i: int, j: int|
        0 <= i < j < list.len() ==> (#[trigger] list[i]).0 != (#[trigger] list[j]).0
    &&& forall|seq: u16| #[trigger]
        frames.contains_key(seq) && due(cfg, frames[seq], now_ms) ==> exists|i: int|
            0 <= i < list.len() && (#[trigger] list[i]).0 == seq
}

impl ArqSender {
    pub closed spec fn config(&self) -> ArqConfig {
        self.cfg
    }

    /// The number of the next new frame.
    pub closed spec fn next(&self) -> u16 {
        self.next_seq
    }

    /// The frames that wait, by their numbers.
    pub closed spec fn frames(&self) -> Map<u16, Outstanding> {
        self.outstanding@
    }

    /// How many frames were sent again, cut at the largest number there is.
    pub closed spec fn resent_count(&self) -> u32 {
        self.retransmits
    }

    pub closed spec fn down(&self) -> bool {
        self.link_down
    }

    /// The last measured round trip that nobody has taken yet.
    pub closed spec fn rtt(&self) -> Option<u64> {
        self.last_rtt_sample
    }

    /// There is room in the window, and the link is not down.
    pub open spec fn ready(&self) -> bool {
        !self.down() && self.frames().len() < self.config().window
    }

    /// What holds of every window.
    pub proof fn lemma_finite(&self)
        ensures
            self.frames().dom().finite(),
    {
    }

    pub fn new(cfg: ArqConfig) -> (r: Self)
        ensures
            r.config() == cfg,
            r.next() == 0,
            r.frames() == Map::<u16, Outstanding>::empty(),
            r.resent_count() == 0,
            !r.down(),
            r.rtt() is None,
    {
        ArqSender {
            cfg,
            next_seq: 0,
            outstanding: HashMap::new(),
            retransmits: 0,
            link_down: false,
            last_rtt_sample: None,
        }
    }

    pub fn set_config(&mut self, cfg: ArqConfig)
        ensures
            final(self).config() == cfg,
            final(self).next() == old(self).next(),
            final(self).frames() == old(self).frames(),
            final(self).resent_count() == old(self).resent_count(),
            final(self).down() == old(self).down(),
            final(self).rtt() == old(self).rtt(),
    {
        self.cfg = cfg;
    }

    /// Whether there is room for a new frame.
    pub fn can_send(&self) -> (r: bool)
        ensures
            r == self.ready(),
    {
        !self.link_down && self.outstanding.len() < self.cfg.window
    }

    /// Puts a new frame into the window and returns its number, or `None` if there is no room.
    pub fn send(&mut self, payload: Vec<u8>, now_ms: u64) -> (r: Option<u16>)
        ensures
            r == if old(self).ready() {
                Some(old(self).next())
            } else {
                None
            },
            final(self).next() == if old(self).ready() {
                crate::arq::wrap(old(self).next() + 1)
            } else {
                old(self).next()
            },
            final(self).frames() == if old(self).ready() {
                old(self).frames().insert(
                    old(self).next(),
                    (Outstanding { payload, sent_at: now_ms, retries: 0 }),
                )
            } else {
                old(self).frames()
            },
            final(self).config() == old(self).config(),
            final(self).resent_count() == old(self).resent_count(),
            final(self).down() == old(self).down(),
            final(self).rtt() == old(self).rtt(),
    {
        if !self.can_send() {
            return None;
        }
        let seq: u16 = self.next_seq;
        self.next_seq = self.next_seq.wrapping_add(1);
        self.outstanding.insert(seq, Outstanding { payload, sent_at: now_ms, retries: 0 });
        Some(seq)
    }

    /// The numbers of the frames that wait, each once.
    fn seqs(&self) -> (r: Vec<u16>)
        ensures
            r@.no_duplicates(),
            forall|seq: u16| self.frames().contains_key(seq) <==> r@.contains(seq),
    {
        let mut r: Vec<u16> = Vec::new();
        for seq in it: self.outstanding.keys()
            invariant
                r@.len() == it.index(),
                forall|i: int| 0 <= i < r@.len() ==> r@[i] == *it.seq()[i],
        {
            r.push(*seq);
        }
        proof {
            let ks = vstd::std_specs::iter::IteratorSpec::remaining(
                &vstd::std_specs::hash::spec_keys_iter(&self.outstanding),
            );
            vstd::std_specs::hash::axiom_spec_keys_iter(&self.outstanding);
            assert(r@ =~= ks.unref());
            assert forall|i: int, j: int| 0 <= i < r@.len() && 0 <= j < r@.len() && i != j implies r@[i]
                != r@[j] by {
                assert(ks[i] != ks[j]);
            }
            assert forall|seq: u16| self.frames().contains_key(seq) <==> r@.contains(seq) by {
                assert(ks.unref().to_set().contains(seq) <==> self.outstanding@.dom().contains(seq));
            }
        }
        r
    }

    /// Takes the frames that an acknowledgement covers out of the window, and notes the round
    /// trip of one of them.
    pub fn on_ack(&mut self, cumulative: u16, sack: u32, now_ms: u64)
        ensures
            final(self).frames() == after_ack(old(self).frames(), cumulative, sack),
            final(self).config() == old(self).config(),
            final(self).next() == old(self).next(),
            final(self).resent_count() == old(self).resent_count(),
            final(self).down() == old(self).down(),
            // which of the frames covered is not settled
            if exists|seq: u16| #[trigger]
                old(self).frames().contains_key(seq) && crate::arq::acknowledges(
                    cumulative,
                    sack,
                    seq,
                ) {
                exists|seq: u16| #[trigger]
                    old(self).frames().contains_key(seq) && crate::arq::acknowledges(
                        cumulative,
                        sack,
                        seq,
                    ) && final(self).rtt() == Some(
                        age(now_ms, old(self).frames()[seq].sent_at) as u64,
                    )
            } else {
                final(self).rtt() == old(self).rtt()
            },
    {
        let seqs: Vec<u16> = self.seqs();
        let ghost frames0 = self.outstanding@;
        let ghost rtt0 = self.last_rtt_sample;
        let mut i: usize = 0;
        while i < seqs.len()
            invariant
                i <= seqs@.len(),
                seqs@.no_duplicates(),
                frames0 == old(self).frames(),
                rtt0 == old(self).rtt(),
                forall|seq: u16| frames0.contains_key(seq) <==> seqs@.contains(seq),
                self.cfg == old(self).config(),
                self.next_seq == old(self).next(),
                self.retransmits == old(self).resent_count(),
                self.link_down == old(self).down(),
                forall|seq: u16| #[trigger]
                    self.outstanding@.contains_key(seq) <==> frames0.contains_key(seq) && !(
                    crate::arq::acknowledges(cumulative, sack, seq) && seqs@.take(
                        i as int,
                    ).contains(seq)),
                forall|seq: u16| #[trigger]
                    self.outstanding@.contains_key(seq) ==> self.outstanding@[seq] == frames0[seq],
                if exists|j: int|
                    0 <= j < i && crate::arq::acknowledges(cumulative, sack, #[trigger] seqs@[j]) {
                    exists|seq: u16| #[trigger]
                        frames0.contains_key(seq) && crate::arq::acknowledges(
                            cumulative,
                            sack,
                            seq,
                        ) && self.last_rtt_sample == Some(age(now_ms, frames0[seq].sent_at) as u64)
                } else {
                    self.last_rtt_sample == rtt0
                },
            decreases seqs@.len() - i,
        {
            let seq: u16 = seqs[i];
            let offset: u16 = seq.wrapping_sub(cumulative.wrapping_add(1));
            proof {
                assert(seqs@.contains(seq));
                assert(offset == (seq - cumulative - 1) % 0x10000);
                assert forall|q: u16| seqs@.take(i + 1).contains(q) <==> seqs@.take(
                    i as int,
                ).contains(q) || q == seq by {
                    let t = seqs@.take(i as int);
                    let u = seqs@.take(i + 1);
                    assert(u =~= t.push(seq));
                    if u.contains(q) {
                        let j = choose|j: int| 0 <= j < u.len() && u[j] == q;
                        if j < i {
                            assert(t[j] == q);
                        }
                    }
                    if t.contains(q) {
                        let j = choose|j: int| 0 <= j < t.len() && t[j] == q;
                        assert(u[j] == q);
                    }
                    assert(u[i as int] == seq);
                }
                assert(!seqs@.take(i as int).contains(seq)) by {
                    if seqs@.take(i as int).contains(seq) {
                        let j = choose|j: int| 0 <= j < i && seqs@.take(i as int)[j] == seq;
                        assert(seqs@[j] == seqs@[i as int]);
                    }
                }
            }
            let covered: bool = crate::arq::seq_le(seq, cumulative) || (offset < 32 && (sack >> (
            offset as u32)) & 1 == 1);
            assert(covered == crate::arq::acknowledges(cumulative, sack, seq));
            if covered {
                match self.outstanding.remove(&seq) {
                    Some(o) => {
                        self.last_rtt_sample = Some(now_ms.saturating_sub(o.sent_at));
                        assert(frames0.contains_key(seq));
                    },
                    None => {},
                }
                assert(crate::arq::acknowledges(cumulative, sack, seqs@[i as int]));
            } else {
                assert forall|j: int|
                    0 <= j < i + 1 && crate::arq::acknowledges(
                        cumulative,
                        sack,
                        #[trigger] seqs@[j],
                    ) implies j < i by {}
            }
            i += 1;
        }
        proof {
            assert(seqs@.take(i as int) =~= seqs@);
            assert(self.outstanding@ =~= after_ack(frames0, cumulative, sack));
            if exists|seq: u16| #[trigger]
                frames0.contains_key(seq) && crate::arq::acknowledges(cumulative, sack, seq) {
                let seq = choose|seq: u16| #[trigger]
                    frames0.contains_key(seq) && crate::arq::acknowledges(cumulative, sack, seq);
                assert(seqs@.contains(seq));
                let j = choose|j: int| 0 <= j < seqs@.len() && seqs@[j] == seq;
                assert(crate::arq::acknowledges(cumulative, sack, seqs@[j]));
            } else {
                assert forall|j: int| 0 <= j < i implies !crate::arq::acknowledges(
                    cumulative,
                    sack,
                    #[trigger] seqs@[j],
                ) by {
                    assert(seqs@.contains(seqs@[j]));
                }
            }
        }
    }

    /// The frames whose time is up, to be sent again, in no particular order. Each of them waits
    /// twice as long the next time. A frame that was sent again often enough takes the link down.
    pub fn due_retransmissions(&mut self, now_ms: u64) -> (r: Vec<(u16, Vec<u8>)>)
        ensures
            lists_due(r@, old(self).config(), old(self).frames(), now_ms),
            final(self).frames() == after_resend(old(self).config(), old(self).frames(), now_ms),
            final(self).resent_count() == if old(self).resent_count() + r@.len() <= u32::MAX {
                old(self).resent_count() + r@.len()
            } else {
                u32::MAX as int
            },
            final(self).down() <==> old(self).down() || exists|seq: u16| #[trigger]
                old(self).frames().contains_key(seq) && expired(
                    old(self).config(),
                    old(self).frames()[seq],
                    now_ms,
                ) && !due(old(self).config(), old(self).frames()[seq], now_ms),
            final(self).config() == old(self).config(),
            final(self).next() == old(self).next(),
            final(self).rtt() == old(self).rtt(),
    {
        let seqs: Vec<u16> = self.seqs();
        let ghost frames0 = self.outstanding@;
        let ghost cfg = self.cfg;
        let ghost count0 = self.retransmits;
        let mut out: Vec<(u16, Vec<u8>)> = Vec::new();
        let mut down: bool = false;
        let mut i: usize = 0;
        while i < seqs.len()
            invariant
                i <= seqs@.len(),
                seqs@.no_duplicates(),
                frames0 == old(self).frames(),
                cfg == old(self).config(),
                self.cfg == cfg,
                count0 == old(self).resent_count(),
                forall|seq: u16| frames0.contains_key(seq) <==> seqs@.contains(seq),
                self.next_seq == old(self).next(),
                self.link_down == old(self).down(),
                self.last_rtt_sample == old(self).rtt(),
                self.retransmits == if count0 + out@.len() <= u32::MAX {
                    count0 + out@.len()
                } else {
                    u32::MAX as int
                },
                self.outstanding@.dom() == frames0.dom(),
                forall|j: int|
                    0 <= j < i ==> self.outstanding@[#[trigger] seqs@[j]] == if due(
                        cfg,
                        frames0[seqs@[j]],
                        now_ms,
                    ) {
                        resent(frames0[seqs@[j]], now_ms)
                    } else {
                        frames0[seqs@[j]]
                    },
                forall|j: int|
                    i <= j < seqs@.len() ==> self.outstanding@[#[trigger] seqs@[j]]
                        == frames0[seqs@[j]],
                down <==> exists|j: int|
                    0 <= j < i && expired(cfg, frames0[#[trigger] seqs@[j]], now_ms) && !due(
                        cfg,
                        frames0[seqs@[j]],
                        now_ms,
                    ),
                forall|k: int|
                    0 <= k < out@.len() ==> {
                        let (seq, payload) = #[trigger] out@[k];
                        seqs@.take(i as int).contains(seq) && due(cfg, frames0[seq], now_ms)
                            && payload@ == frames0[seq].payload@
                    },
                forall|k: int, l: int|
                    0 <= k < l < out@.len() ==> (#[trigger] out@[k]).0 != (#[trigger] out@[l]).0,
                forall|j: int|
                    0 <= j < i && due(cfg, frames0[#[trigger] seqs@[j]], now_ms) ==> exists|k: int|
                        0 <= k < out@.len() && (#[trigger] out@[k]).0 == seqs@[j],
            decreases seqs@.len() - i,
        {
            let seq: u16 = seqs[i];
            let ghost before = self.outstanding@;
            let ghost out0 = out@;
            proof {
                assert(seqs@.contains(seqs@[i as int]));
                assert(frames0.contains_key(seq));
                assert(frames0.dom().contains(seq));
                assert(before.dom().contains(seq));
                let t = seqs@.take(i as int);
                let u = seqs@.take(i + 1);
                assert(u =~= t.push(seq));
                assert(u[i as int] == seq);
                assert forall|q: u16| t.contains(q) implies u.contains(q) by {
                    let j = choose|j: int| 0 <= j < t.len() && t[j] == q;
                    assert(u[j] == q);
                }
                assert(!t.contains(seq)) by {
                    if t.contains(seq) {
                        let j = choose|j: int| 0 <= j < i && t[j] == seq;
                        assert(seqs@[j] == seqs@[i as int]);
                    }
                }
            }
            match self.outstanding.remove(&seq) {
                Some(o) => {
                    assert(o == frames0[seqs@[i as int]]);
                    let waited: u64 = now_ms.saturating_sub(o.sent_at);
                    let factor: u64 = backoff_factor(o.retries);
                    let limit: u64 = match self.cfg.timeout_ms.checked_mul(factor) {
                        Some(t) => t,
                        None => u64::MAX,
                    };
                    if waited >= limit && o.retries < self.cfg.max_retries {
                        out.push((seq, o.payload.clone()));
                        self.retransmits = self.retransmits.saturating_add(1);
                        self.outstanding.insert(
                            seq,
                            Outstanding {
                                payload: o.payload,
                                sent_at: now_ms,
                                retries: o.retries + 1,
                            },
                        );
                    } else {
                        if waited >= limit {
                            down = true;
                        }
                        self.outstanding.insert(seq, o);
                    }
                },
                None => {},
            }
            proof {
                assert(self.outstanding@.dom() =~= frames0.dom());
                assert forall|j: int| 0 <= j < seqs@.len() && j != i implies
                    self.outstanding@[#[trigger] seqs@[j]] == before[seqs@[j]] by {
                    assert(seqs@[j] != seqs@[i as int]);
                }
                assert forall|k: int| 0 <= k < out@.len() implies ({
                    let (q, payload) = #[trigger] out@[k];
                    seqs@.take(i + 1).contains(q) && due(cfg, frames0[q], now_ms) && payload@
                        == frames0[q].payload@
                }) by {
                    if k < out0.len() {
                        assert(out@[k] == out0[k]);
                    }
                }
                assert forall|j: int| 0 <= j < i + 1 && due(
                    cfg,
                    frames0[#[trigger] seqs@[j]],
                    now_ms,
                ) implies exists|k: int| 0 <= k < out@.len() && (#[trigger] out@[k]).0 == seqs@[j] by {
                    if j < i {
                        let k = choose|k: int| 0 <= k < out0.len() && (#[trigger] out0[k]).0 == seqs@[j];
                        assert(out@[k].0 == seqs@[j]);
                    } else {
                        assert(out@[out0.len() as int].0 == seq);
                    }
                }
                assert(down <==> exists|j: int|
                    0 <= j < i + 1 && expired(cfg, frames0[#[trigger] seqs@[j]], now_ms) && !due(
                        cfg,
                        frames0[seqs@[j]],
                        now_ms,
                    )) by {
                    if expired(cfg, frames0[seqs@[i as int]], now_ms) && !due(
                        cfg,
                        frames0[seqs@[i as int]],
                        now_ms,
                    ) {
                    }
                }
            }
            i += 1;
        }
        if down {
            self.link_down = true;
        }
        proof {
            assert(seqs@.take(i as int) =~= seqs@);
            assert forall|seq: u16| frames0.contains_key(seq) implies self.outstanding@[seq] == (
            if due(cfg, frames0[seq], now_ms) {
                resent(frames0[seq], now_ms)
            } else {
                frames0[seq]
            }) by {
                assert(seqs@.contains(seq));
                let j = choose|j: int| 0 <= j < seqs@.len() && seqs@[j] == seq;
                assert(self.outstanding@[seqs@[j]] == self.outstanding@[seq]);
            }
            assert(self.outstanding@ =~= after_resend(cfg, frames0, now_ms));
            assert forall|seq: u16| #[trigger]
                frames0.contains_key(seq) && due(cfg, frames0[seq], now_ms) implies exists|k: int|
                0 <= k < out@.len() && (#[trigger] out@[k]).0 == seq by {
                assert(seqs@.contains(seq));
                let j = choose|j: int| 0 <= j < seqs@.len() && seqs@[j] == seq;
                assert(due(cfg, frames0[seqs@[j]], now_ms));
            }
            assert forall|k: int| 0 <= k < out@.len() implies frames0.contains_key(
                (#[trigger] out@[k]).0,
            ) by {
                assert(seqs@.contains(out@[k].0));
            }
            if down {
                let j = choose|j: int|
                    0 <= j < i && expired(cfg, frames0[#[trigger] seqs@[j]], now_ms) && !due(
                        cfg,
                        frames0[seqs@[j]],
                        now_ms,
                    );
                assert(seqs@.contains(seqs@[j]));
                assert(frames0.contains_key(seqs@[j]));
            } else {
                assert forall|seq: u16| #[trigger] frames0.contains_key(seq) && expired(
                    cfg,
                    frames0[seq],
                    now_ms,
                ) implies due(cfg, frames0[seq], now_ms) by {
                    assert(seqs@.contains(seq));
                    let j = choose|j: int| 0 <= j < seqs@.len() && seqs@[j] == seq;
                    assert(expired(cfg, frames0[seqs@[j]], now_ms));
                }
            }
        }
        out
    }

    /// Whether the frame still waits for its acknowledgement.
    pub fn contains(&self, seq: u16) -> (r: bool)
        ensures
            r == self.frames().contains_key(seq),
    {
        self.outstanding.contains_key(&seq)
    }

    pub fn link_down(&self) -> (r: bool)
        ensures
            r == self.down(),
    {
        self.link_down
    }

    pub fn retransmits(&self) -> (r: u32)
        ensures
            r == self.resent_count(),
    {
        self.retransmits
    }

    pub fn in_flight(&self) -> (r: usize)
        ensures
            r == self.frames().len(),
    {
        self.outstanding.len()
    }

    /// Hands out the last measured round trip, in milliseconds, once.
    pub fn take_rtt_sample(&mut self) -> (r: Option<u64>)
        ensures
            r == old(self).rtt(),
            final(self).rtt() is None,
            final(self).config() == old(self).config(),
            final(self).next() == old(self).next(),
            final(self).frames() == old(self).frames(),
            final(self).resent_count() == old(self).resent_count(),
            final(self).down() == old(self).down(),
    {
        let r: Option<u64> = self.last_rtt_sample;
        self.last_rtt_sample = None;
        r
    }
}

fn backoff_factor(retries: u32) -> (r: u64)
    ensures
        r == backoff(retries),
{
    match retries {
        0 => 1,
        1 => 2,
        2 => 4,
        3 => 8,
        4 => 16,
        5 => 32,
        _ => 64,
    }
}


proof fn lemma_backoff(retries: u32)
    ensures
        backoff(retries) == pow2(
            if retries < 6 {
                retries as nat
            } else {
                6
            },
        ),
{
    vstd::arithmetic::power2::lemma2_to64();
}

/// The wait doubles with each of the first six retries and then stays: it starts at the timeout and
/// ends at 64 times as much.
pub proof fn law_backoff_doubles(cfg: ArqConfig, retries: u32)
    ensures
        patience(cfg, 0) == cfg.timeout_ms,
        backoff(0) == 1,
        retries < 6 ==> backoff((retries + 1) as u32) == 2 * backoff(retries),
        retries >= 6 ==> backoff(retries) == 64,
        backoff(retries) == pow2(
            if retries < 6 {
                retries as nat
            } else {
                6
            },
        ),
        retries < 6 && cfg.timeout_ms * 64 <= u64::MAX ==> patience(cfg, (retries + 1) as u32) == 2
            * patience(cfg, retries),
        retries >= 6 && cfg.timeout_ms * 64 <= u64::MAX ==> patience(cfg, retries) == 64
            * cfg.timeout_ms,
{
    lemma_backoff(retries);
    let t = cfg.timeout_ms as int;
    if retries < 6 {
        let b = backoff(retries) as int;
        assert(backoff((retries + 1) as u32) == 2 * b);
        assert(t * (2 * b) == 2 * (t * b) && 0 <= t * b && t * (2 * b) <= t * 64) by (nonlinear_arith)
            requires
                0 <= b <= 32,
                0 <= t,
        ;
    }
}

/// A frame is sent again from the moment on at which its wait is over, as long as it was not sent
/// again often enough; a wait longer than any time is never over before the end of time.
pub proof fn law_when_a_frame_is_due(cfg: ArqConfig, frame: Outstanding, now_ms: u64)
    requires
        cfg.timeout_ms > 0,
    ensures
        ({
            let wait = cfg.timeout_ms * pow2(
                if frame.retries < 6 {
                    frame.retries as nat
                } else {
                    6
                },
            );
            &&& wait <= u64::MAX ==> (due(cfg, frame, now_ms) <==> now_ms >= frame.sent_at + wait
                && frame.retries < cfg.max_retries)
            &&& wait > u64::MAX ==> (due(cfg, frame, now_ms) <==> now_ms - frame.sent_at
                == u64::MAX && frame.retries < cfg.max_retries)
        }),
{
    lemma_backoff(frame.retries);
    vstd::arithmetic::power2::lemma2_to64();
    assert(cfg.timeout_ms * backoff(frame.retries) >= 1) by (nonlinear_arith)
        requires
            cfg.timeout_ms > 0,
            backoff(frame.retries) >= 1,
    ;
}

/// A frame that was sent again counts one retry more, keeps its payload, and rests for its new wait.
pub proof fn law_resent_frame_rests(cfg: ArqConfig, frame: Outstanding, now_ms: u64, later_ms: u64)
    requires
        frame.retries < u32::MAX,
        now_ms <= later_ms < now_ms + patience(cfg, (frame.retries + 1) as u32),
    ensures
        resent(frame, now_ms).payload == frame.payload,
        resent(frame, now_ms).sent_at == now_ms,
        resent(frame, now_ms).retries == frame.retries + 1,
        !expired(cfg, resent(frame, now_ms), later_ms),
        !due(cfg, resent(frame, now_ms), later_ms),
{
}

/// What takes a link down: a frame that was sent again as often as is allowed and whose wait is
/// over. Such a frame is not sent again, and any other whose wait is over is.
pub proof fn law_when_a_link_goes_down(cfg: ArqConfig, frame: Outstanding, now_ms: u64)
    requires
        expired(cfg, frame, now_ms),
    ensures
        !due(cfg, frame, now_ms) <==> frame.retries >= cfg.max_retries,
{
}

/// The frames that wait after an acknowledgement are those before that it does not cover, as they
/// were; after resending they are the same frames, and those not due are as they were.
pub proof fn law_no_frame_is_lost(
    cfg: ArqConfig,
    frames: Map<u16, Outstanding>,
    cumulative: u16,
    sack: u32,
    now_ms: u64,
    seq: u16,
)
    ensures
        after_ack(frames, cumulative, sack).contains_key(seq) <==> frames.contains_key(seq)
            && !crate::arq::acknowledges(cumulative, sack, seq),
        after_ack(frames, cumulative, sack).contains_key(seq) ==> after_ack(
            frames,
            cumulative,
            sack,
        )[seq] == frames[seq],
        after_resend(cfg, frames, now_ms).dom() == frames.dom(),
        frames.contains_key(seq) && !due(cfg, frames[seq], now_ms) ==> after_resend(
            cfg,
            frames,
            now_ms,
        )[seq] == frames[seq],
        frames.contains_key(seq) && due(cfg, frames[seq], now_ms) ==> after_resend(
            cfg,
            frames,
            now_ms,
        )[seq].retries == frames[seq].retries + 1,
{
    assert(after_resend(cfg, frames, now_ms).dom() =~= frames.dom());
}

/// A frame that was sent a while ago is as old as that, and one from the future is new.
pub proof fn law_age_of_a_frame(sent_at: u64, now_ms: u64)
    ensures
        now_ms >= sent_at ==> sent_at + age(now_ms, sent_at) == now_ms,
        now_ms < sent_at ==> age(now_ms, sent_at) == 0,
{
}

/// Just the frames due are listed, each once, with what they hold.
pub proof fn law_due_frames_are_listed(
    list: Seq<(u16, Vec<u8>)>,
    cfg: ArqConfig,
    frames: Map<u16, Outstanding>,
    now_ms: u64,
    seq: u16,
) -> (at: int)
    requires
        lists_due(list, cfg, frames, now_ms),
    ensures
        frames.contains_key(seq) && due(cfg, frames[seq], now_ms) <==> 0 <= at < list.len(),
        0 <= at < list.len() ==> list[at].0 == seq && list[at].1@ == frames[seq].payload@,
        forall|i: int| 0 <= i < list.len() && (#[trigger] list[i]).0 == seq ==> i == at,
{
    if exists|i: int| 0 <= i < list.len() && (#[trigger] list[i]).0 == seq {
        choose|i: int| 0 <= i < list.len() && (#[trigger] list[i]).0 == seq
    } else {
        -1
    }
}

/// A frame due waits anew from now on: it keeps what it holds and counts one retry more.
pub proof fn law_due_frames_wait_anew(
    cfg: ArqConfig,
    frames: Map<u16, Outstanding>,
    now_ms: u64,
    seq: u16,
)
    requires
        frames.contains_key(seq),
        due(cfg, frames[seq], now_ms),
    ensures
        ({
            let frame = after_resend(cfg, frames, now_ms)[seq];
            &&& frame.payload == frames[seq].payload
            &&& frame.sent_at == now_ms
            &&& frame.retries == frames[seq].retries + 1
        }),
{
}

/// A new frame has room exactly if the link is up and fewer frames wait than the window holds.
pub proof fn law_room_in_the_window(tx: ArqSender)
    ensures
        !tx.ready() <==> tx.down() || tx.frames().len() >= tx.config().window,
{
}

} // verus!
