//! A beacon by which a device makes itself known: its nickname, one tone for each half byte.

use vstd::prelude::*;
use crate::order;
use crate::text;

verus! {

pub const NICK_MAX_LEN: usize = 6;

pub const SLOT_MS: u64 = 110;

pub const GUARD_MS: u64 = 25;

pub const SYNC_SLOTS: usize = 3;

/// Two for each byte of the nickname.
pub const DATA_SLOTS: usize = 12;

pub const BEACON_SLOTS: usize = 15;

/// What fills a nickname up.
pub const PAD_CHAR: u8 = 0x5F;

/// The score, as the bits of a 32-bit float, from which on a beacon is taken to be there: 4.
pub const DOMINANCE_KEY: u32 = 0x4080_0000;

/// How long a beacon sounds, in milliseconds.
pub fn beacon_duration_ms() -> (r: u64)
    ensures
        r == 2025,
{
    BEACON_SLOTS as u64 * (SLOT_MS + GUARD_MS)
}

/// The capital for a small letter; any other byte itself.
pub open spec fn capital(b: u8) -> u8 {
    if 97 <= b <= 122 {
        (b - 32) as u8
    } else {
        b
    }
}

/// A capital letter or a digit.
pub open spec fn accepted(b: u8) -> bool {
    48 <= b <= 57 || 65 <= b <= 90
}

/// The letters, as capitals, and digits among the bytes.
pub open spec fn cleaned(bytes: Seq<u8>) -> Seq<u8>
    decreases bytes.len(),
{
    if bytes.len() == 0 {
        Seq::empty()
    } else {
        let c = capital(bytes.last());
        if accepted(c) {
            cleaned(bytes.drop_last()).push(c)
        } else {
            cleaned(bytes.drop_last())
        }
    }
}

/// Six bytes: the first of those given, filled up.
pub open spec fn six(bytes: Seq<u8>) -> Seq<u8> {
    Seq::new(
        6,
        |i: int|
            if i < bytes.len() {
                bytes[i]
            } else {
                PAD_CHAR
            },
    )
}

/// The six bytes that stand for a nickname.
pub open spec fn normalized(nickname: Seq<char>) -> Seq<u8> {
    six(cleaned(vstd::utf8::encode_utf8(nickname)))
}

/// The nickname as others read it.
pub open spec fn canonical(nickname: Seq<char>) -> Seq<char> {
    text::trim_end_of(text::ascii_chars(normalized(nickname)), '_')
}

proof fn lemma_cleaned(bytes: Seq<u8>)
    ensures
        forall|i: int| 0 <= i < cleaned(bytes).len() ==> accepted(#[trigger] cleaned(bytes)[i]),
    decreases bytes.len(),
{
    if bytes.len() > 0 {
        let rest = cleaned(bytes.drop_last());
        lemma_cleaned(bytes.drop_last());
        assert forall|i: int| 0 <= i < cleaned(bytes).len() implies accepted(
            #[trigger] cleaned(bytes)[i],
        ) by {
            if i < rest.len() {
                assert(cleaned(bytes)[i] == rest[i]);
            }
        }
    }
}

/// The six bytes that stand for a nickname.
pub fn normalize_nickname(nickname: &str) -> (r: Vec<u8>)
    ensures
        r@ == normalized(nickname@),
        r@.len() == 6,
        forall|i: int| 0 <= i < 6 ==> #[trigger] r@[i] < 128,
{
    let bytes: &[u8] = nickname.as_bytes();
    let ghost all = vstd::utf8::encode_utf8(nickname@);
    assert(bytes@ == all);
    let mut out: Vec<u8> = Vec::new();
    let mut i: usize = 0;
    while i < bytes.len()
        invariant
            i <= bytes@.len(),
            bytes@ == all,
            out@.len() <= 6,
            out@.len() == cleaned(all.take(i as int)).len() || out@.len() == 6,
            out@.len() <= cleaned(all.take(i as int)).len(),
            forall|k: int|
                0 <= k < out@.len() ==> #[trigger] out@[k] == cleaned(all.take(i as int))[k],
        decreases bytes@.len() - i,
    {
        let b: u8 = bytes[i];
        let c: u8 = if 97 <= b && b <= 122 {
            b - 32
        } else {
            b
        };
        assert(all.take(i + 1).drop_last() =~= all.take(i as int));
        if ((48 <= c && c <= 57) || (65 <= c && c <= 90)) && out.len() < NICK_MAX_LEN {
            out.push(c);
        }
        i += 1;
    }
    assert(all.take(i as int) =~= all);
    let ghost letters = cleaned(all);
    while out.len() < NICK_MAX_LEN
        invariant
            out@.len() <= 6,
            letters.len() <= out@.len() || out@.len() == 6,
            forall|k: int|
                0 <= k < out@.len() ==> #[trigger] out@[k] == (if k < letters.len() {
                    letters[k]
                } else {
                    PAD_CHAR
                }),
        decreases 6 - out@.len(),
    {
        out.push(PAD_CHAR);
    }
    proof {
        assert(out@ =~= six(letters));
        lemma_cleaned(all);
    }
    out
}

/// The nickname as others read it.
pub fn canonicalize(nickname: &str) -> (r: String)
    ensures
        r@ == canonical(nickname@),
{
    let bytes: Vec<u8> = normalize_nickname(nickname);
    proof {
        text::lemma_ascii(bytes@);
    }
    let padded: String = text::lossy(&bytes);
    without_padding(padded.as_str())
}

/// A nickname without what fills it up.
pub fn without_padding(padded: &str) -> (r: String)
    ensures
        r@ == text::trim_end_of(padded@, '_'),
{
    text::trim_end(padded, '_')
}

/// The half bytes of bytes, the upper first.
pub open spec fn halves(bytes: Seq<u8>) -> Seq<u8> {
    Seq::new(
        2 * bytes.len(),
        |i: int|
            if i % 2 == 0 {
                bytes[i / 2] / 16
            } else {
                bytes[i / 2] % 16
            },
    )
}

/// The half bytes that stand for a nickname.
pub fn nickname_to_nibbles(nickname: &str) -> (r: Vec<u8>)
    ensures
        r@ == halves(normalized(nickname@)),
        r@.len() == 12,
        forall|i: int| 0 <= i < 12 ==> #[trigger] r@[i] < 16,
{
    let bytes: Vec<u8> = normalize_nickname(nickname);
    let mut out: Vec<u8> = Vec::new();
    let mut i: usize = 0;
    while i < 6
        invariant
            i <= 6,
            bytes@.len() == 6,
            out@.len() == 2 * i,
            forall|k: int| 0 <= k < 2 * i ==> #[trigger] out@[k] == halves(bytes@)[k],
        decreases 6 - i,
    {
        let b: u8 = bytes[i];
        out.push(b / 16);
        out.push(b % 16);
        proof {
            let h = halves(bytes@);
            assert(h[2 * i as int] == b / 16);
            assert(h[2 * i + 1] == b % 16);
        }
        i += 1;
    }
    assert(out@ =~= halves(bytes@));
    out
}

/// The byte made of two halves.
pub open spec fn join(upper: u8, lower: u8) -> u8 {
    (upper << 4u8) | lower
}

/// The bytes made of half bytes. A half without a partner is an upper half.
pub open spec fn joined(nibbles: Seq<u8>) -> Seq<u8> {
    Seq::new(
        ((nibbles.len() + 1) / 2) as nat,
        |i: int|
            join(
                nibbles[2 * i],
                if 2 * i + 1 < nibbles.len() {
                    nibbles[2 * i + 1]
                } else {
                    0
                },
            ),
    )
}

/// The nickname that half bytes stand for.
pub open spec fn read_nickname(nibbles: Seq<u8>) -> Seq<char> {
    text::trim_end_of(text::lossy_of(joined(nibbles)), '_')
}

/// The nickname that half bytes stand for.
pub fn nibbles_to_nickname(nibbles: &[u8]) -> (r: String)
    ensures
        r@ == read_nickname(nibbles@),
{
    let mut bytes: Vec<u8> = Vec::new();
    let mut i: usize = 0;
    while i < nibbles.len()
        invariant
            i <= nibbles@.len() + 1,
            i % 2 == 0,
            nibbles@.len() == nibbles.len(),
            bytes@.len() == i / 2,
            forall|k: int| 0 <= k < i / 2 ==> #[trigger] bytes@[k] == joined(nibbles@)[k],
        decreases nibbles@.len() + 1 - i,
    {
        let upper: u8 = nibbles[i];
        let lower: u8 = if nibbles.len() - i > 1 {
            nibbles[i + 1]
        } else {
            0
        };
        bytes.push((upper << 4u8) | lower);
        assert(joined(nibbles@)[i as int / 2] == join(upper, lower));
        if nibbles.len() - i < 2 {
            assert(bytes@ =~= joined(nibbles@));
            let padded: String = text::lossy(&bytes);
            return without_padding(padded.as_str());
        }
        i += 2;
    }
    assert(bytes@ =~= joined(nibbles@));
    let padded: String = text::lossy(&bytes);
    without_padding(padded.as_str())
}

/// What is read from the half bytes of a nickname is the nickname as others read it.
pub proof fn law_read_what_was_sent(nickname: Seq<char>)
    ensures
        read_nickname(halves(normalized(nickname))) == canonical(nickname),
{
    let bytes = normalized(nickname);
    let h = halves(bytes);
    lemma_cleaned(vstd::utf8::encode_utf8(nickname));
    assert forall|i: int| 0 <= i < 6 implies joined(h)[i] == bytes[i] by {
        let b = bytes[i];
        assert(h[2 * i] == b / 16);
        assert(h[2 * i + 1] == b % 16);
        assert(((b / 16) << 4u8) | (b % 16) == b) by (bit_vector);
    }
    assert(joined(h) =~= bytes);
    text::lemma_ascii(bytes);
}

/// A nickname stays as it is when it is taken for one again.
pub proof fn law_canonical_is_stable(nickname: Seq<char>)
    ensures
        canonical(canonical(nickname)) == canonical(nickname),
{
    let bytes = vstd::utf8::encode_utf8(nickname);
    lemma_cleaned(bytes);
    let letters = cleaned(bytes);
    let n = if letters.len() <= 6 {
        letters.len() as int
    } else {
        6
    };
    let kept = letters.take(n);
    assert(six(letters) =~= six(kept));
    lemma_trim(kept, six(kept), 6);
    let c = canonical(nickname);
    assert(text::ascii_chars(six(kept)).take(6) =~= text::ascii_chars(six(kept)));
    assert(c == text::ascii_chars(kept));
    text::lemma_ascii_encodes(kept);
    lemma_cleaned_again(kept);
}

proof fn lemma_trim(kept: Seq<u8>, bytes: Seq<u8>, n: int)
    requires
        kept.len() <= n <= 6,
        bytes == six(kept),
        kept.len() <= 6,
        forall|i: int| 0 <= i < kept.len() ==> accepted(#[trigger] kept[i]),
    ensures
        text::trim_end_of(text::ascii_chars(bytes).take(n), '_') == text::ascii_chars(kept),
    decreases n,
{
    let s = text::ascii_chars(bytes).take(n);
    if n == kept.len() {
        assert(s =~= text::ascii_chars(kept));
        if n > 0 {
            assert(accepted(kept[n - 1]));
            assert(s.last() == kept[n - 1] as char);
        }
    } else {
        lemma_trim(kept, bytes, n - 1);
        assert(s.drop_last() =~= text::ascii_chars(bytes).take(n - 1));
        assert(s.last() == '_');
    }
}

proof fn lemma_cleaned_again(kept: Seq<u8>)
    requires
        forall|i: int| 0 <= i < kept.len() ==> accepted(#[trigger] kept[i]),
    ensures
        cleaned(kept) == kept,
    decreases kept.len(),
{
    if kept.len() > 0 {
        let rest = kept.drop_last();
        assert forall|i: int| 0 <= i < rest.len() implies accepted(#[trigger] rest[i]) by {
            assert(rest[i] == kept[i]);
        }
        lemma_cleaned_again(rest);
        assert(accepted(kept[kept.len() - 1]));
        assert(cleaned(kept) =~= kept);
    } else {
        assert(cleaned(kept) =~= kept);
    }
}

/// The tones of a beacon, by their numbers: the tone for synchronisation, then one for each half
/// byte.
pub fn beacon_tones(nickname: &str) -> (r: Vec<u8>)
    ensures
        r@ == Seq::new(3, |i: int| 0u8) + halves(normalized(nickname@)).map_values(
            |n: u8| (1 + n) as u8,
        ),
        r@.len() == 15,
        forall|i: int| 0 <= i < 15 ==> #[trigger] r@[i] <= 16,
{
    let nibbles: Vec<u8> = nickname_to_nibbles(nickname);
    let mut out: Vec<u8> = vec![0u8; SYNC_SLOTS];
    let ghost want = Seq::new(3, |i: int| 0u8) + nibbles@.map_values(|n: u8| (1 + n) as u8);
    let mut i: usize = 0;
    while i < DATA_SLOTS
        invariant
            i <= 12,
            nibbles@.len() == 12,
            forall|k: int| 0 <= k < 12 ==> #[trigger] nibbles@[k] < 16,
            want == Seq::new(3, |i: int| 0u8) + nibbles@.map_values(|n: u8| (1 + n) as u8),
            out@.len() == 3 + i,
            forall|k: int| 0 <= k < 3 + i ==> #[trigger] out@[k] == want[k] && out@[k] <= 16,
        decreases 12 - i,
    {
        let n: u8 = nibbles[i];
        out.push(1 + n);
        assert(want[3 + i] == 1 + n);
        i += 1;
    }
    assert(out@ =~= want);
    out
}

/// The lengths of the parts of a beacon, in samples.
#[derive(Debug, Clone, Copy, PartialEq, Eq, Structural)]
pub struct BeaconGeometry {
    pub slot: usize,
    pub guard: usize,
    pub period: usize,
    pub trim: usize,
    pub analyze: usize,
    pub hop: usize,
    pub beacon: usize,
}

/// The larger of a number and one.
pub open spec fn positive(n: int) -> int {
    if n >= 1 {
        n
    } else {
        1
    }
}

impl BeaconGeometry {
    pub open spec fn wf(&self, sample_rate: u32) -> bool {
        &&& self.slot == sample_rate * 110 / 1000
        &&& self.guard == sample_rate * 25 / 1000
        &&& self.period == self.slot + self.guard
        &&& self.trim == positive(self.slot as int / 8)
        &&& self.analyze == positive(self.slot - 2 * self.trim)
        &&& self.hop == positive(sample_rate as int / 100)
        &&& self.beacon == 15 * self.period
    }

    pub fn new(sample_rate: u32) -> (r: Self)
        requires
            sample_rate * 2025 / 1000 <= usize::MAX,
        ensures
            r.wf(sample_rate),
    {
        let rate: u64 = sample_rate as u64;
        let slot: usize = (rate * SLOT_MS / 1000) as usize;
        let guard: usize = (rate * GUARD_MS / 1000) as usize;
        let period: usize = slot + guard;
        let trim: usize = if slot >= 8 {
            slot / 8
        } else {
            1
        };
        let analyze: usize = if slot > 2 * trim {
            slot - 2 * trim
        } else {
            1
        };
        let hop: usize = if sample_rate >= 100 {
            (sample_rate / 100) as usize
        } else {
            1
        };
        BeaconGeometry { slot, guard, period, trim, analyze, hop, beacon: period * BEACON_SLOTS }
    }

    /// Where the middle of a slot begins, which is what is listened to.
    pub fn window_start(&self, start: usize, slot_idx: usize) -> (r: usize)
        requires
            start + self.beacon <= usize::MAX,
            self.beacon == 15 * self.period,
            self.trim <= self.period,
            slot_idx < 15,
        ensures
            r == start + slot_idx * self.period + self.trim,
    {
        proof {
            assert(slot_idx * self.period <= 14 * self.period) by (nonlinear_arith)
                requires
                    slot_idx <= 14,
            ;
        }
        start + slot_idx * self.period + self.trim
    }
}

/// At every rate from 19 samples a second on, what is listened to of any slot lies in the slot,
/// so that nothing of it lies behind the beacon.
pub proof fn law_windows_fit(g: BeaconGeometry, sample_rate: u32, slot_idx: int)
    requires
        sample_rate >= 19,
        g.wf(sample_rate),
        0 <= slot_idx < 15,
    ensures
        g.trim <= g.period,
        g.trim + g.analyze <= g.slot,
        slot_idx * g.period + g.trim + g.analyze <= g.beacon,
        g.beacon > 0,
{
    assert(slot_idx * g.period <= 14 * g.period) by (nonlinear_arith)
        requires
            slot_idx <= 14,
    ;
}

/// The search for beacons in a recording. Positions on a grid are scored by the caller; the best
/// is taken, and what overlaps it is not looked at again.
pub struct BeaconScan {
    samples: usize,
    hop: usize,
    beacon: usize,
    taken: Vec<usize>,
}

/// A position whose beacon would not overlap one that was taken.
pub open spec fn is_free(taken: Seq<usize>, beacon: nat, pos: int) -> bool {
    forall|k: int|
        0 <= k < taken.len() ==> pos + beacon < #[trigger] taken[k] || pos >= taken[k] + beacon
}

/// Position `i` of the grid is free and has the first of the best scores.
pub open spec fn is_pick(
    taken: Seq<usize>,
    beacon: nat,
    hop: nat,
    scores: Seq<u32>,
    i: int,
) -> bool {
    &&& 0 <= i < scores.len()
    &&& is_free(taken, beacon, i * hop)
    &&& forall|j: int|
        0 <= j < scores.len() && #[trigger] is_free(taken, beacon, j * hop) ==> scores[j]
            <= scores[i] && (j < i ==> scores[j] < scores[i])
}

impl BeaconScan {
    pub closed spec fn found(&self) -> Seq<usize> {
        self.taken@
    }

    pub closed spec fn span(&self) -> nat {
        self.beacon as nat
    }

    pub closed spec fn step(&self) -> nat {
        self.hop as nat
    }

    pub closed spec fn length(&self) -> nat {
        self.samples as nat
    }

    /// The number of positions.
    pub open spec fn grid(&self) -> nat {
        if self.length() < self.span() {
            0
        } else {
            ((self.length() - self.span()) / (self.step() as int) + 1) as nat
        }
    }

    /// The beacons found lie in the recording, and none overlaps another.
    pub closed spec fn wf(&self) -> bool {
        &&& self.hop > 0
        &&& self.beacon > 0
        &&& forall|k: int|
            0 <= k < self.taken@.len() ==> (#[trigger] self.taken@[k]) + self.beacon <= self.samples
        &&& forall|k: int, l: int|
            0 <= k < l < self.taken@.len() ==> (#[trigger] self.taken@[k]) + self.beacon
                <= #[trigger] self.taken@[l] || self.taken@[l] + self.beacon <= self.taken@[k]
    }

    /// No two beacons found overlap, however many are taken.
    pub proof fn law_found_apart(&self, k: int, l: int)
        requires
            self.wf(),
            0 <= k < self.found().len(),
            0 <= l < self.found().len(),
            k != l,
        ensures
            self.found()[k] + self.span() <= self.found()[l] || self.found()[l] + self.span()
                <= self.found()[k],
    {
        if k > l {
            assert(self.taken@[l] + self.beacon <= self.taken@[k] || self.taken@[k] + self.beacon
                <= self.taken@[l]);
        }
    }

    pub fn new(samples: usize, hop: usize, beacon: usize) -> (r: Self)
        requires
            hop > 0,
            beacon > 0,
        ensures
            r.wf(),
            r.found() == Seq::<usize>::empty(),
            r.length() == samples,
            r.step() == hop,
            r.span() == beacon,
    {
        BeaconScan { samples, hop, beacon, taken: Vec::new() }
    }

    /// The number of positions. Position `i` is sample `i` times the hop.
    pub fn positions(&self) -> (r: usize)
        requires
            self.wf(),
        ensures
            r == self.grid() || (self.grid() > usize::MAX && r == usize::MAX),
    {
        if self.samples < self.beacon {
            0
        } else {
            ((self.samples - self.beacon) / self.hop).saturating_add(1)
        }
    }

    /// Whether a position is to be scored.
    pub fn free(&self, pos: usize) -> (r: bool)
        requires
            self.wf(),
        ensures
            r == is_free(self.found(), self.span(), pos as int),
    {
        let mut k: usize = 0;
        while k < self.taken.len()
            invariant
                k <= self.taken@.len(),
                forall|j: int|
                    0 <= j < k ==> pos + self.beacon < #[trigger] self.taken@[j] || pos
                        >= self.taken@[j] + self.beacon,
            decreases self.taken@.len() - k,
        {
            let t: u128 = self.taken[k] as u128;
            let p: u128 = pos as u128;
            let n: u128 = self.beacon as u128;
            if !(p + n < t || p >= t + n) {
                return false;
            }
            k += 1;
        }
        true
    }

    /// Takes the best of the free positions, if its score is high enough, and returns its first
    /// sample. There is a score for each position; those of positions that are not free do not
    /// matter.
    pub fn next(&mut self, scores: &[u32]) -> (r: Option<usize>)
        requires
            old(self).wf(),
            scores@.len() <= old(self).grid(),
        ensures
            final(self).wf(),
            final(self).length() == old(self).length(),
            final(self).step() == old(self).step(),
            final(self).span() == old(self).span(),
            match r {
                Some(start) => {
                    &&& final(self).found() == old(self).found().push(start)
                    &&& exists|i: int|
                        {
                            &&& #[trigger] is_pick(
                                old(self).found(),
                                old(self).span(),
                                old(self).step(),
                                scores@,
                                i,
                            )
                            &&& start == i * old(self).step()
                            &&& scores@[i] >= DOMINANCE_KEY
                        }
                },
                None => {
                    &&& final(self).found() == old(self).found()
                    &&& forall|j: int|
                        0 <= j < scores@.len() && #[trigger] is_free(
                            old(self).found(),
                            old(self).span(),
                            j * old(self).step(),
                        ) ==> scores@[j] < DOMINANCE_KEY
                },
            },
    {
        let ghost taken = self.taken@;
        let ghost beacon = self.beacon as nat;
        let ghost hop = self.hop as nat;
        let mut best: Option<usize> = None;
        let mut i: usize = 0;
        while i < scores.len()
            invariant
                i <= scores@.len(),
                self.wf(),
                scores@.len() <= self.grid(),
                taken == self.found(),
                beacon == self.span(),
                hop == self.step(),
                match best {
                    Some(b) => b < i && is_pick(taken, beacon, hop, scores@.take(i as int), b as int),
                    None => forall|j: int|
                        0 <= j < i ==> !#[trigger] is_free(taken, beacon, j * hop),
                },
            decreases scores@.len() - i,
        {
            proof {
                self.lemma_on_grid(i as int, scores@.len() as int);
            }
            let ghost before = scores@.take(i as int);
            let ghost after = scores@.take(i + 1);
            let pos: usize = i * self.hop;
            if self.free(pos) {
                let better: bool = match best {
                    Some(b) => scores[i] > scores[b],
                    None => true,
                };
                if better {
                    best = Some(i);
                }
            }
            proof {
                if let Some(b) = best {
                    assert forall|j: int|
                        0 <= j < after.len() && #[trigger] is_free(
                            taken,
                            beacon,
                            j * hop,
                        ) implies after[j] <= after[b as int] && (j < b ==> after[j]
                        < after[b as int]) by {
                        if j < i {
                            assert(before[j] == after[j]);
                        }
                    }
                    assert(is_pick(taken, beacon, hop, after, b as int));
                }
            }
            i += 1;
        }
        assert(scores@.take(i as int) =~= scores@);
        match best {
            Some(b) => {
                proof {
                    self.lemma_on_grid(b as int, scores@.len() as int);
                }
                if scores[b] >= DOMINANCE_KEY {
                    let start: usize = b * self.hop;
                    self.taken.push(start);
                    proof {
                        assert forall|k: int, l: int|
                            0 <= k < l < self.taken@.len() implies (#[trigger] self.taken@[k])
                            + self.beacon <= #[trigger] self.taken@[l] || self.taken@[l]
                            + self.beacon <= self.taken@[k] by {
                            if l < taken.len() {
                                assert(self.taken@[k] == taken[k] && self.taken@[l] == taken[l]);
                            } else {
                                assert(self.taken@[k] == taken[k]);
                            }
                        }
                        assert forall|k: int| 0 <= k < self.taken@.len() implies (
                        #[trigger] self.taken@[k]) + self.beacon <= self.samples by {
                            if k < taken.len() {
                                assert(self.taken@[k] == taken[k]);
                            }
                        }
                        assert(is_pick(taken, beacon, hop, scores@, b as int));
                    }
                    Some(start)
                } else {
                    None
                }
            },
            None => None,
        }
    }

    proof fn lemma_on_grid(&self, i: int, n: int)
        requires
            self.wf(),
            0 <= i < n <= self.grid(),
        ensures
            0 <= i * self.hop,
            i * self.hop + self.beacon <= self.samples,
    {
        let room = self.samples - self.beacon;
        let hop = self.hop as int;
        assert(i <= room / hop);
        assert(i * hop <= room) by (nonlinear_arith)
            requires
                0 <= i <= room / hop,
                hop > 0,
                room >= 0,
        ;
        assert(0 <= i * hop) by (nonlinear_arith)
            requires
                i >= 0,
                hop > 0,
        ;
    }
}

/// The half byte whose tone is loudest, the first of several. There are sixteen tones.
pub fn loudest_nibble(powers: &[u32]) -> (r: u8)
    requires
        powers@.len() == 16,
    ensures
        order::is_first_largest(powers@, r as int),
        r < 16,
{
    order::first_largest(powers) as u8
}

/// A letter of either case or a digit.
pub open spec fn plain(c: char) -> bool {
    ('0' <= c && c <= '9') || ('A' <= c && c <= 'Z') || ('a' <= c && c <= 'z')
}

proof fn lemma_cleaned_plain(bytes: Seq<u8>)
    requires
        forall|i: int|
            0 <= i < bytes.len() ==> 48 <= #[trigger] bytes[i] <= 57 || 65 <= bytes[i] <= 90 || 97
                <= bytes[i] <= 122,
    ensures
        cleaned(bytes).len() == bytes.len(),
        forall|i: int|
            0 <= i < bytes.len() ==> #[trigger] cleaned(bytes)[i] == (if bytes[i] >= 97 {
                bytes[i] - 32
            } else {
                bytes[i] as int
            }),
    decreases bytes.len(),
{
    if bytes.len() > 0 {
        let rest = bytes.drop_last();
        assert forall|i: int| 0 <= i < rest.len() implies 48 <= #[trigger] rest[i] <= 57 || 65
            <= rest[i] <= 90 || 97 <= rest[i] <= 122 by {
            assert(rest[i] == bytes[i]);
        }
        lemma_cleaned_plain(rest);
        let b = bytes[bytes.len() - 1];
        assert(bytes.last() == b);
        assert(accepted(capital(b)));
        assert forall|i: int| 0 <= i < bytes.len() implies #[trigger] cleaned(bytes)[i] == (if bytes[i]
            >= 97 {
            bytes[i] - 32
        } else {
            bytes[i] as int
        }) by {
            if i < rest.len() {
                assert(cleaned(rest)[i] == cleaned(bytes)[i]);
                assert(rest[i] == bytes[i]);
            }
        }
    }
}

/// A nickname of up to six letters and digits loses nothing: others read it letter by letter, small
/// letters as capitals.
pub proof fn law_short_names_lose_nothing(nickname: Seq<char>)
    requires
        nickname.len() <= 6,
        forall|i: int| 0 <= i < nickname.len() ==> plain(#[trigger] nickname[i]),
    ensures
        canonical(nickname).len() == nickname.len(),
        forall|i: int|
            0 <= i < nickname.len() ==> #[trigger] canonical(nickname)[i] as u32 == (if 'a'
                <= nickname[i] {
                nickname[i] as u32 - 32
            } else {
                nickname[i] as u32 as int
            }),
        (forall|i: int| 0 <= i < nickname.len() ==> !('a' <= #[trigger] nickname[i])) ==> canonical(
            nickname,
        ) == nickname,
{
    let bytes = Seq::new(nickname.len(), |i: int| nickname[i] as u8);
    assert forall|i: int| 0 <= i < bytes.len() implies 48 <= #[trigger] bytes[i] <= 57 || 65
        <= bytes[i] <= 90 || 97 <= bytes[i] <= 122 by {
        assert(plain(nickname[i]));
    }
    assert(text::ascii_chars(bytes) =~= nickname) by {
        assert forall|i: int| 0 <= i < bytes.len() implies text::ascii_chars(bytes)[i]
            == nickname[i] by {
            assert(plain(nickname[i]));
            assert(bytes[i] < 128);
        }
    }
    text::lemma_ascii_encodes(bytes);
    lemma_cleaned_plain(bytes);
    lemma_cleaned(bytes);
    let kept = cleaned(bytes);
    lemma_trim(kept, six(kept), 6);
    assert(text::ascii_chars(six(kept)).take(6) =~= text::ascii_chars(six(kept)));
    assert(canonical(nickname) == text::ascii_chars(kept));
    assert forall|i: int| 0 <= i < nickname.len() implies #[trigger] canonical(nickname)[i] as u32
        == (if 'a' <= nickname[i] {
        nickname[i] as u32 - 32
    } else {
        nickname[i] as u32 as int
    }) by {
        assert(plain(nickname[i]));
        assert(bytes[i] == nickname[i] as u32);
        assert(kept[i] == (if bytes[i] >= 97 { bytes[i] - 32 } else { bytes[i] as int }));
    }
    if forall|i: int| 0 <= i < nickname.len() ==> !('a' <= #[trigger] nickname[i]) {
        assert forall|i: int| 0 <= i < nickname.len() implies canonical(nickname)[i]
            == nickname[i] by {
            assert(!('a' <= nickname[i]));
            assert(canonical(nickname)[i] as u32 == nickname[i] as u32);
        }
        assert(canonical(nickname) =~= nickname);
    }
}

/// What is kept of bytes is kept of each for itself, in order, and nothing is kept of a byte that is
/// no letter or digit.
pub proof fn law_other_characters_are_dropped(a: Seq<u8>, b: Seq<u8>, other: u8)
    ensures
        cleaned(a + b) == cleaned(a) + cleaned(b),
        !(48 <= other <= 57 || 65 <= other <= 90 || 97 <= other <= 122) ==> cleaned(
            seq![other],
        ).len() == 0,
    decreases b.len(),
{
    if b.len() == 0 {
        assert(a + b =~= a);
        assert(cleaned(a) + cleaned(b) =~= cleaned(a));
    } else {
        law_other_characters_are_dropped(a, b.drop_last(), other);
        assert((a + b).drop_last() =~= a + b.drop_last());
        assert(cleaned(a + b) =~= cleaned(a) + cleaned(b));
    }
    let one = seq![other];
    assert(one.drop_last() =~= Seq::<u8>::empty());
    assert(cleaned(one.drop_last()).len() == 0);
}

/// A nickname stands in six bytes: the first six of what is kept of it, and underscores where there
/// is less.
pub proof fn law_six_bytes(nickname: Seq<char>, i: int)
    requires
        0 <= i < 6,
    ensures
        normalized(nickname).len() == 6,
        ({
            let kept = cleaned(vstd::utf8::encode_utf8(nickname));
            normalized(nickname)[i] == (if i < kept.len() {
                kept[i] as char
            } else {
                '_'
            }) as u8
        }),
{
    let kept = cleaned(vstd::utf8::encode_utf8(nickname));
    lemma_cleaned(vstd::utf8::encode_utf8(nickname));
    if i < kept.len() {
        assert(accepted(kept[i]));
    }
}

/// A byte is sixteen times its upper half and its lower half, which follow one another.
pub proof fn law_halves_of_a_byte(bytes: Seq<u8>, i: int)
    requires
        0 <= i < bytes.len(),
    ensures
        halves(bytes).len() == 2 * bytes.len(),
        halves(bytes)[2 * i] < 16,
        halves(bytes)[2 * i + 1] < 16,
        16 * halves(bytes)[2 * i] + halves(bytes)[2 * i + 1] == bytes[i],
{
    let b = bytes[i];
    assert(halves(bytes)[2 * i] == b / 16);
    assert((2 * i + 1) / 2 == i && (2 * i + 1) % 2 == 1);
    assert(halves(bytes)[2 * i + 1] == b % 16);
}

/// Two halves make the byte of sixteen times the upper and the lower, one byte for every two; a half
/// without a partner is an upper half.
pub proof fn law_halves_are_joined(nibbles: Seq<u8>, i: int)
    requires
        0 <= i,
        2 * i < nibbles.len(),
        forall|k: int| 0 <= k < nibbles.len() ==> #[trigger] nibbles[k] < 16,
    ensures
        joined(nibbles).len() == (nibbles.len() + 1) / 2,
        joined(nibbles)[i] == 16 * nibbles[2 * i] + (if 2 * i + 1 < nibbles.len() {
            nibbles[2 * i + 1] as int
        } else {
            0
        }),
{
    let upper = nibbles[2 * i];
    let lower: u8 = if 2 * i + 1 < nibbles.len() {
        nibbles[2 * i + 1]
    } else {
        0
    };
    assert(upper < 16 && lower < 16);
    assert(upper < 16 && lower < 16 ==> (upper << 4u8) | lower == 16 * upper + lower) by (bit_vector);
    assert(joined(nibbles)[i] == join(upper, lower));
}

/// A slot lasts 110 milliseconds and the pause behind it 25, rounded down to whole samples; a beacon
/// is fifteen of both; a step of the search is a hundredth of a second.
pub proof fn law_lengths_of_a_beacon(g: BeaconGeometry, sample_rate: u32)
    requires
        g.wf(sample_rate),
    ensures
        1000 * g.slot <= 110 * sample_rate < 1000 * (g.slot + 1),
        1000 * g.guard <= 25 * sample_rate < 1000 * (g.guard + 1),
        g.beacon == 15 * (g.slot + g.guard),
        sample_rate >= 100 ==> 100 * g.hop <= sample_rate < 100 * (g.hop + 1),
        g.slot >= 8 ==> 8 * g.trim <= g.slot < 8 * (g.trim + 1) && g.analyze + 2 * g.trim == g.slot,
        g.hop >= 1 && g.trim >= 1 && g.analyze >= 1,
{
}

/// The place taken is free, no free place has a better score, and none before it one as good.
pub proof fn law_the_first_best_place_is_taken(
    taken: Seq<usize>,
    beacon: nat,
    hop: nat,
    scores: Seq<u32>,
    i: int,
    j: int,
)
    requires
        is_pick(taken, beacon, hop, scores, i),
        0 <= j < scores.len(),
        is_free(taken, beacon, j * hop),
    ensures
        is_free(taken, beacon, i * hop),
        scores[j] <= scores[i],
        scores[j] == scores[i] ==> i <= j,
{
}

/// A place is free where a beacon there would neither reach to one that was found nor begin inside
/// of it.
pub proof fn law_which_places_are_free(taken: Seq<usize>, found: usize, beacon: nat, pos: int)
    ensures
        is_free(Seq::empty(), beacon, pos),
        is_free(taken.push(found), beacon, pos) <==> is_free(taken, beacon, pos) && !(found - beacon
            <= pos < found + beacon),
{
    let all = taken.push(found);
    if is_free(all, beacon, pos) {
        assert forall|k: int| 0 <= k < taken.len() implies pos + beacon < #[trigger] taken[k] || pos
            >= taken[k] + beacon by {
            assert(all[k] == taken[k]);
        }
        assert(all[taken.len() as int] == found);
    }
    if is_free(taken, beacon, pos) && !(found - beacon <= pos < found + beacon) {
        assert forall|k: int| 0 <= k < all.len() implies pos + beacon < #[trigger] all[k] || pos
            >= all[k] + beacon by {
            if k < taken.len() {
                assert(all[k] == taken[k]);
            }
        }
    }
}

/// A beacon has three slots to find it by and two for each of the six characters of a nickname, each
/// 110 milliseconds long and 25 apart; a place is taken from a score of four on, whose bits as a
/// 32-bit float are 0x40800000.
pub proof fn law_numbers_of_a_beacon()
    ensures
        NICK_MAX_LEN == 6,
        SYNC_SLOTS == 3,
        DATA_SLOTS == 2 * NICK_MAX_LEN,
        BEACON_SLOTS == SYNC_SLOTS + DATA_SLOTS,
        SLOT_MS == 110,
        GUARD_MS == 25,
        PAD_CHAR == '_' as u8,
        DOMINANCE_KEY == 0x40800000,
{
}

/// Places lie one step apart, as many as leave room for a whole beacon.
pub proof fn law_places_in_a_recording(scan: BeaconScan, i: int)
    requires
        scan.wf(),
        0 <= i,
    ensures
        i < scan.grid() <==> i * scan.step() + scan.span() <= scan.length(),
{
    let room = scan.length() - scan.span();
    let step = scan.step() as int;
    if room >= 0 {
        vstd::arithmetic::div_mod::lemma_fundamental_div_mod(room, step);
        let q = room / step;
        if i <= q {
            assert(i * step <= q * step) by (nonlinear_arith)
                requires
                    i <= q,
                    step > 0,
            ;
            assert(q * step == step * q) by (nonlinear_arith);
        } else {
            assert(i * step >= (q + 1) * step) by (nonlinear_arith)
                requires
                    i >= q + 1,
                    step > 0,
            ;
            assert((q + 1) * step == step * q + step) by (nonlinear_arith);
        }
        vstd::arithmetic::div_mod::lemma_div_pos_is_pos(room, step);
    } else {
        assert(i * step >= 0) by (nonlinear_arith)
            requires
                i >= 0,
                step > 0,
        ;
    }
}

} // verus!
