//! The symbols of a frame on the air, and how a receiver reads them.
//!
//! Behind the preamble and a sync symbol come three copies of the length of the frame and then
//! its bytes. The receiver takes each symbol of the length by a vote of the three copies and gives
//! up a frame whose length is not plausible.

use vstd::prelude::*;
use vstd::slice::slice_subrange;
use crate::framing::{be16, from_be16, OVERHEAD};
use crate::modem::bits;
use crate::modem::{bytes_to_symbols, packed, symbols_to_bytes, unpacked};

verus! {

/// The copies of the length that are sent.
pub const LEN_REPS: usize = 3;

/// The longest frame that a receiver takes.
pub const MAX_FRAME: usize = 8192;

/// How often `v` was voted for.
pub open spec fn tally(votes: Seq<u16>, v: u16) -> nat
    decreases votes.len(),
{
    if votes.len() == 0 {
        0
    } else {
        tally(votes.drop_last(), v) + (if votes.last() == v {
            1nat
        } else {
            0nat
        })
    }
}

/// `v` is the vote at `i`, nothing was voted for more often, and nothing before it as often.
pub open spec fn wins_at(votes: Seq<u16>, v: u16, i: int) -> bool {
    &&& 0 <= i < votes.len()
    &&& votes[i] == v
    &&& forall|j: int| 0 <= j < votes.len() ==> tally(votes, #[trigger] votes[j]) <= tally(votes, v)
    &&& forall|j: int| 0 <= j < i ==> tally(votes, #[trigger] votes[j]) < tally(votes, v)
}

pub open spec fn wins(votes: Seq<u16>, v: u16) -> bool {
    exists|i: int| wins_at(votes, v, i)
}

/// The first among the votes cast most often.
pub open spec fn winner(votes: Seq<u16>) -> u16 {
    choose|v: u16| wins(votes, v)
}

proof fn lemma_winner(votes: Seq<u16>, v: u16, i: int)
    requires
        wins_at(votes, v, i),
    ensures
        winner(votes) == v,
{
    assert(wins(votes, v));
    let w = winner(votes);
    assert(wins(votes, w));
    let j = choose|j: int| wins_at(votes, w, j);
    assert(wins_at(votes, w, j));
    assert(tally(votes, votes[i]) <= tally(votes, w));
    assert(tally(votes, votes[j]) <= tally(votes, v));
}

/// Two equal votes out of three win.
pub proof fn law_two_of_three(votes: Seq<u16>, v: u16)
    requires
        votes.len() == 3,
        (votes[0] == v && votes[1] == v) || (votes[0] == v && votes[2] == v) || (votes[1] == v
            && votes[2] == v),
    ensures
        winner(votes) == v,
{
    reveal_with_fuel(tally, 4);
    assert forall|x: u16| #[trigger] tally(votes, x) == (if votes[0] == x { 1nat } else { 0nat }) + (
    if votes[1] == x { 1nat } else { 0nat }) + (if votes[2] == x { 1nat } else { 0nat }) by {
        let a = votes.drop_last();
        let b = a.drop_last();
        assert(tally(b.drop_last(), x) == 0);
    }
    let i = if votes[0] == v {
        0int
    } else {
        1int
    };
    assert(wins_at(votes, v, i));
    lemma_winner(votes, v, i);
}

/// The first among the votes cast most often.
pub fn majority(votes: &[u16]) -> (r: u16)
    requires
        votes@.len() >= 1,
    ensures
        r == winner(votes@),
{
    let mut best: u16 = votes[0];
    let mut best_count: usize = 0;
    let ghost mut at: int = 0;
    let mut i: usize = 0;
    while i < votes.len()
        invariant
            i <= votes@.len(),
            votes@.len() >= 1,
            0 <= at < votes@.len(),
            best == votes@[at],
            i == 0 ==> best_count == 0 && at == 0,
            i > 0 ==> at < i && best_count == tally(votes@, best),
            forall|j: int| 0 <= j < i ==> tally(votes@, #[trigger] votes@[j]) <= best_count,
            forall|j: int| 0 <= j < at ==> tally(votes@, #[trigger] votes@[j]) < best_count,
        decreases votes@.len() - i,
    {
        let v: u16 = votes[i];
        let mut count: usize = 0;
        let mut k: usize = 0;
        while k < votes.len()
            invariant
                k <= votes@.len(),
                count == tally(votes@.take(k as int), v),
                count <= k,
            decreases votes@.len() - k,
        {
            assert(votes@.take(k + 1).drop_last() =~= votes@.take(k as int));
            if votes[k] == v {
                count += 1;
            }
            k += 1;
        }
        assert(votes@.take(k as int) =~= votes@);
        proof {
            lemma_tally_positive(votes@, i as int);
        }
        if count > best_count {
            best_count = count;
            best = v;
            proof {
                at = i as int;
            }
        }
        i += 1;
    }
    proof {
        assert(wins_at(votes@, best, at));
        lemma_winner(votes@, best, at);
    }
    best
}

proof fn lemma_tally_positive(votes: Seq<u16>, i: int)
    requires
        0 <= i < votes.len(),
    ensures
        tally(votes, votes[i]) >= 1,
    decreases votes.len(),
{
    if i < votes.len() - 1 {
        lemma_tally_positive(votes.drop_last(), i);
    }
}

/// The symbols that a length of sixteen bits takes.
pub open spec fn length_width(sf: nat) -> nat {
    bits::groups(16, sf)
}

/// The length of a frame as it is sent: sixteen bits of it.
pub open spec fn length_field(len: nat) -> u16 {
    (len % 0x10000) as u16
}

/// The three copies of the length.
pub open spec fn length_symbols(len: nat, sf: nat) -> Seq<u16> {
    let field = packed(be16(length_field(len)), sf);
    field + field + field
}

/// The symbols of a frame: the sync symbol, the copies of the length, and the bytes.
pub open spec fn on_air(bytes: Seq<u8>, sf: nat, sync: u16) -> Seq<u16> {
    seq![sync] + length_symbols(bytes.len(), sf) + packed(bytes, sf)
}

/// The symbol of the length at `pos` that the three copies agree on.
pub open spec fn voted(seen: Seq<u16>, sf: nat, pos: int) -> u16 {
    let n = length_width(sf);
    winner(seq![seen[pos], seen[n + pos], seen[2 * n + pos]])
}

/// The length that the copies agree on.
pub open spec fn voted_length(seen: Seq<u16>, sf: nat) -> nat {
    let b = unpacked(Seq::new(length_width(sf), |pos: int| voted(seen, sf, pos)), sf, 2);
    from_be16(b[0], b[1]) as nat
}

/// A length that a frame can have.
pub open spec fn plausible(len: nat) -> bool {
    OVERHEAD <= len <= MAX_FRAME
}

/// What a receiver makes of the symbols behind the sync symbol.
pub enum Verdict {
    /// There are more to come.
    More,
    /// The length is not plausible.
    Rejected,
    /// The bytes of the frame.
    Complete(Seq<u8>),
}

/// The verdict on the symbols seen so far.
pub open spec fn verdict(seen: Seq<u16>, sf: nat) -> Verdict {
    let head = 3 * length_width(sf);
    if seen.len() < head {
        Verdict::More
    } else {
        let n = voted_length(seen, sf);
        let body = bits::groups(8 * n, sf);
        if !plausible(n) {
            Verdict::Rejected
        } else if seen.len() < head + body {
            Verdict::More
        } else {
            Verdict::Complete(unpacked(seen.subrange(head as int, (head + body) as int), sf, n))
        }
    }
}

proof fn lemma_length_width(sf: nat)
    requires
        1 <= sf <= 16,
    ensures
        1 <= length_width(sf) <= 16,
        16 <= sf * length_width(sf) < 32,
{
    let w = sf as int;
    vstd::arithmetic::div_mod::lemma_fundamental_div_mod(15 + w, w);
    let g = (15 + w) / w;
    assert(1 <= g <= 16 && 16 <= w * g < 32) by (nonlinear_arith)
        requires
            1 <= w <= 16,
            15 + w == w * g + (15 + w) % w,
            0 <= (15 + w) % w < w,
    ;
}

/// No symbols are no frame yet.
pub proof fn lemma_nothing_is_no_frame(sf: nat)
    requires
        1 <= sf <= 16,
    ensures
        verdict(Seq::empty(), sf) is More,
{
    lemma_length_width(sf);
}

/// Where at least two of the three copies of every symbol of the length are right, the length is
/// understood.
pub proof fn law_length_survives(len: nat, sf: nat, seen: Seq<u16>)
    requires
        1 <= sf <= 16,
        len <= 0xFFFF,
        seen.len() >= 3 * length_width(sf),
        forall|pos: int|
            0 <= pos < length_width(sf) ==> {
                let n = length_width(sf);
                let right = #[trigger] packed(be16(length_field(len)), sf)[pos];
                ||| seen[pos] == right && seen[n + pos] == right
                ||| seen[pos] == right && seen[2 * n + pos] == right
                ||| seen[n + pos] == right && seen[2 * n + pos] == right
            },
    ensures
        voted_length(seen, sf) == len,
{
    let n = length_width(sf);
    let field = packed(be16(length_field(len)), sf);
    lemma_length_width(sf);
    let votes = Seq::new(n, |pos: int| voted(seen, sf, pos));
    assert(field.len() == n);
    assert(votes =~= field) by {
        assert forall|pos: int| 0 <= pos < n implies votes[pos] == field[pos] by {
            law_two_of_three(seq![seen[pos], seen[n + pos], seen[2 * n + pos]], field[pos]);
        }
    }
    crate::modem::law_unpack_pack(be16(length_field(len)), sf);
}

/// A frame is read back from its symbols when two copies of each symbol of its length and all
/// symbols of its body are right.
pub proof fn law_frame_is_read(bytes: Seq<u8>, sf: nat, seen: Seq<u16>)
    requires
        1 <= sf <= 16,
        plausible(bytes.len()),
        seen.len() == 3 * length_width(sf) + packed(bytes, sf).len(),
        seen.skip(3 * length_width(sf) as int) == packed(bytes, sf),
        forall|pos: int|
            0 <= pos < length_width(sf) ==> {
                let n = length_width(sf);
                let right = #[trigger] packed(be16(length_field(bytes.len())), sf)[pos];
                ||| seen[pos] == right && seen[n + pos] == right
                ||| seen[pos] == right && seen[2 * n + pos] == right
                ||| seen[n + pos] == right && seen[2 * n + pos] == right
            },
    ensures
        verdict(seen, sf) == Verdict::Complete(bytes),
{
    law_length_survives(bytes.len(), sf, seen);
    crate::modem::law_unpack_pack(bytes, sf);
    let head = 3 * length_width(sf);
    assert(seen.subrange(head as int, seen.len() as int) =~= seen.skip(head as int));
}

/// A frame is read back from the symbols that it is sent as, and not before the last of them.
pub proof fn law_frame_roundtrip(bytes: Seq<u8>, sf: nat, sync: u16)
    requires
        1 <= sf <= 16,
        plausible(bytes.len()),
    ensures
        verdict(on_air(bytes, sf, sync).skip(1), sf) == Verdict::Complete(bytes),
        forall|n: int|
            0 <= n < on_air(bytes, sf, sync).len() - 1 ==> verdict(
                #[trigger] on_air(bytes, sf, sync).skip(1).take(n),
                sf,
            ) is More,
{
    let seen = on_air(bytes, sf, sync).skip(1);
    let n = length_width(sf);
    let field = packed(be16(length_field(bytes.len())), sf);
    lemma_length_width(sf);
    assert(seen =~= field + field + field + packed(bytes, sf));
    assert(seen.skip(3 * n as int) =~= packed(bytes, sf));
    assert forall|pos: int| 0 <= pos < n implies {
        let right = #[trigger] field[pos];
        seen[pos] == right && seen[n + pos] == right
    } by {}
    law_frame_is_read(bytes, sf, seen);
    assert forall|m: int| 0 <= m < seen.len() implies verdict(#[trigger] seen.take(m), sf) is More by {
        if m >= 3 * n {
            let part = seen.take(m);
            assert forall|pos: int| 0 <= pos < n implies {
                let right = #[trigger] field[pos];
                part[pos] == right && part[n + pos] == right
            } by {}
            law_length_survives(bytes.len(), sf, part);
        }
    }
}

/// The symbols of a frame, the sync symbol first.
pub fn frame_symbols(bytes: &[u8], sf: u32, sync: u16) -> (r: Vec<u16>)
    requires
        1 <= sf <= 16,
        8 * bytes@.len() + 100 <= usize::MAX,
    ensures
        r@ == on_air(bytes@, sf as nat, sync),
{
    let len: u16 = (bytes.len() % 0x10000) as u16;
    let len_bytes: [u8; 2] = [(len / 256) as u8, (len % 256) as u8];
    assert(len_bytes@ =~= be16(length_field(bytes@.len())));
    let len_syms: Vec<u16> = bytes_to_symbols(&len_bytes, sf);
    let body: Vec<u16> = bytes_to_symbols(bytes, sf);
    let mut out: Vec<u16> = Vec::new();
    out.push(sync);
    out.extend_from_slice(&len_syms);
    out.extend_from_slice(&len_syms);
    out.extend_from_slice(&len_syms);
    out.extend_from_slice(&body);
    assert(out@ =~= on_air(bytes@, sf as nat, sync));
    out
}

/// The symbols that a length takes.
pub fn len_syms(sf: u32) -> (r: usize)
    requires
        1 <= sf <= 16,
    ensures
        r == length_width(sf as nat),
        1 <= r <= 16,
{
    proof {
        lemma_length_width(sf as nat);
    }
    (16 + sf as usize - 1) / sf as usize
}

/// The symbols that bytes take.
pub fn body_syms(nbytes: usize, sf: u32) -> (r: usize)
    requires
        1 <= sf <= 16,
        8 * nbytes + 16 <= usize::MAX,
    ensures
        r == bits::groups(8 * nbytes as nat, sf as nat),
{
    bits::group_count(nbytes * 8, sf as usize)
}

/// What a reader says of a symbol.
#[derive(Debug, PartialEq, Eq)]
pub enum Reading {
    More,
    Rejected,
    Frame(Vec<u8>),
}

impl Reading {
    pub open spec fn as_verdict(self) -> Verdict {
        match self {
            Reading::More => Verdict::More,
            Reading::Rejected => Verdict::Rejected,
            Reading::Frame(bytes) => Verdict::Complete(bytes@),
        }
    }
}

/// Reads a frame symbol by symbol, from the one behind the sync symbol on.
pub struct FrameReader {
    sf: u32,
    seen: Vec<u16>,
}

impl FrameReader {
    pub closed spec fn width(&self) -> nat {
        self.sf as nat
    }

    /// The symbols seen so far.
    pub closed spec fn symbols(&self) -> Seq<u16> {
        self.seen@
    }

    /// The width is one that symbols can have, and the reader is not past the end of a frame.
    pub closed spec fn wf(&self) -> bool {
        1 <= self.sf <= 16 && self.seen@.len() <= 70000
    }

    /// The reader has not come to a conclusion yet.
    pub open spec fn reading(&self) -> bool {
        verdict(self.symbols(), self.width()) is More
    }

    pub fn new(sf: u32) -> (r: Self)
        requires
            1 <= sf <= 16,
        ensures
            r.wf(),
            r.width() == sf,
            r.symbols() == Seq::<u16>::empty(),
            r.reading(),
    {
        proof {
            lemma_length_width(sf as nat);
        }
        FrameReader { sf, seen: Vec::new() }
    }

    /// No frame has more symbols than this.
    pub proof fn lemma_bound(&self)
        requires
            self.wf(),
        ensures
            self.symbols().len() <= 70000,
    {
    }

    /// Takes one more symbol.
    pub fn push(&mut self, symbol: u16) -> (r: Reading)
        requires
            old(self).wf(),
            old(self).reading(),
        ensures
            final(self).wf(),
            final(self).width() == old(self).width(),
            final(self).symbols() == old(self).symbols().push(symbol),
            r.as_verdict() == verdict(final(self).symbols(), final(self).width()),
    {
        let ghost sf = self.sf as nat;
        let ghost before = self.seen@;
        let n: usize = len_syms(self.sf);
        let head: usize = LEN_REPS * n;
        proof {
            lemma_symbols_bound(before, sf);
        }
        self.seen.push(symbol);
        if self.seen.len() < head {
            return Reading::More;
        }
        let len: usize = self.length(n);
        if !(OVERHEAD <= len && len <= MAX_FRAME) {
            return Reading::Rejected;
        }
        let body: usize = body_syms(len, self.sf);
        if self.seen.len() < head + body {
            return Reading::More;
        }
        let from: &[u16] = slice_subrange(self.seen.as_slice(), head, head + body);
        proof {
            assert(sf * from@.len() <= 16 * 70000) by (nonlinear_arith)
                requires
                    sf <= 16,
                    from@.len() <= 70000,
            ;
        }
        Reading::Frame(symbols_to_bytes(from, self.sf, len))
    }

    /// The length that the copies agree on.
    fn length(&self, n: usize) -> (r: usize)
        requires
            1 <= self.sf <= 16,
            n == length_width(self.sf as nat),
            self.seen@.len() >= 3 * n,
            n <= 16,
        ensures
            r == voted_length(self.seen@, self.sf as nat),
            r <= 0xFFFF,
    {
        let ghost sf = self.sf as nat;
        let mut votes: Vec<u16> = Vec::new();
        let mut pos: usize = 0;
        let ghost want = Seq::new(n as nat, |pos: int| voted(self.seen@, sf, pos));
        while pos < n
            invariant
                pos <= n <= 16,
                n == length_width(sf),
                self.seen@.len() >= 3 * n,
                want == Seq::new(n as nat, |pos: int| voted(self.seen@, sf, pos)),
                votes@ == want.take(pos as int),
            decreases n - pos,
        {
            let copies: [u16; 3] = [
                self.seen[pos],
                self.seen[n + pos],
                self.seen[2 * n + pos],
            ];
            assert(copies@ =~= seq![
                self.seen@[pos as int],
                self.seen@[n + pos],
                self.seen@[2 * n + pos],
            ]);
            votes.push(majority(&copies));
            pos += 1;
            assert(votes@ =~= want.take(pos as int));
        }
        assert(votes@ =~= want);
        proof {
            lemma_length_width(sf);
        }
        let b: Vec<u8> = symbols_to_bytes(&votes, self.sf, 2);
        b[0] as usize * 256 + b[1] as usize
    }
}

/// A reader without a conclusion has seen fewer symbols than the longest frame takes.
proof fn lemma_symbols_bound(seen: Seq<u16>, sf: nat)
    requires
        1 <= sf <= 16,
        verdict(seen, sf) is More,
    ensures
        seen.len() < 69999,
{
    lemma_length_width(sf);
    let head = 3 * length_width(sf);
    if seen.len() >= head {
        let n = voted_length(seen, sf);
        let w = sf as int;
        let t = 8 * n + w - 1;
        vstd::arithmetic::div_mod::lemma_fundamental_div_mod(t, w);
        assert(t / w <= t) by (nonlinear_arith)
            requires
                w >= 1,
                t >= 0,
                t == w * (t / w) + t % w,
                t % w >= 0,
        ;
    }
}

/// Of three votes that all differ the first wins.
pub proof fn law_first_of_three(votes: Seq<u16>)
    requires
        votes.len() == 3,
        votes[0] != votes[1],
        votes[0] != votes[2],
        votes[1] != votes[2],
    ensures
        winner(votes) == votes[0],
{
    reveal_with_fuel(tally, 4);
    let v = votes[0];
    assert(votes.drop_last()[0] == v && votes.drop_last()[1] == votes[1]);
    assert(votes.drop_last().drop_last()[0] == v);
    assert(tally(votes, v) == 1);
    assert(tally(votes, votes[1]) == 1);
    assert(tally(votes, votes[2]) == 1);
    assert forall|j: int| 0 <= j < votes.len() implies tally(votes, #[trigger] votes[j]) <= tally(
        votes,
        v,
    ) by {}
    lemma_winner(votes, v, 0);
}

/// A count of votes goes up by one with each vote for it and by nothing otherwise, and only votes
/// that were cast are counted.
pub proof fn law_votes_are_counted(votes: Seq<u16>, next: u16, v: u16)
    ensures
        tally(Seq::empty(), v) == 0,
        tally(votes.push(next), v) == tally(votes, v) + (if next == v { 1nat } else { 0nat }),
{
    assert(votes.push(next).drop_last() =~= votes);
}

/// A frame on the air: the sync symbol, three equal copies of the length, which spell it in sixteen
/// bits, and then the symbols of the bytes.
pub proof fn law_what_is_on_the_air(bytes: Seq<u8>, sf: nat, sync: u16, pos: int)
    requires
        1 <= sf <= 16,
        bytes.len() <= 0xFFFF,
        0 <= pos < length_width(sf),
    ensures
        ({
            let air = on_air(bytes, sf, sync);
            let n = length_width(sf) as int;
            let copy = air.subrange(1, 1 + n);
            let b = unpacked(copy, sf, 2);
            &&& air[0] == sync
            &&& air[1 + pos] == air[1 + n + pos] == air[1 + 2 * n + pos]
            &&& b.len() == 2 && b[0] * 256 + b[1] == bytes.len()
            &&& air.skip(1 + 3 * n) == packed(bytes, sf)
        }),
{
    let air = on_air(bytes, sf, sync);
    let n = length_width(sf) as int;
    let field = packed(be16(length_field(bytes.len())), sf);
    assert(field.len() == n);
    assert(air.subrange(1, 1 + n) =~= field);
    assert(air.skip(1 + 3 * n) =~= packed(bytes, sf));
    crate::modem::law_unpack_pack(be16(length_field(bytes.len())), sf);
}

/// Frames of sixteen to 8192 bytes are taken. Where the copies agree on any other length, the frame
/// is given up as soon as they are complete.
pub proof fn law_which_lengths_are_taken(seen: Seq<u16>, sf: nat)
    requires
        seen.len() >= 3 * length_width(sf),
    ensures
        verdict(seen, sf) is Rejected <==> voted_length(seen, sf) < 16 || voted_length(seen, sf)
            > 8192,
{
}

proof fn lemma_winner_exists(votes: Seq<u16>, n: nat) -> (i: int)
    requires
        1 <= n <= votes.len(),
    ensures
        0 <= i < n,
        forall|j: int|
            0 <= j < n ==> tally(votes, #[trigger] votes[j]) <= tally(votes, votes[i]),
        forall|j: int| 0 <= j < i ==> tally(votes, #[trigger] votes[j]) < tally(votes, votes[i]),
    decreases n,
{
    if n == 1 {
        0
    } else {
        let k = lemma_winner_exists(votes, (n - 1) as nat);
        if tally(votes, votes[n - 1]) > tally(votes, votes[k]) {
            n - 1
        } else {
            k
        }
    }
}

/// The winner was voted for, and nothing was voted for more often; nothing cast before its first
/// vote was cast as often.
pub proof fn law_winner_is_cast_most(votes: Seq<u16>, j: int)
    requires
        0 <= j < votes.len(),
    ensures
        votes.contains(winner(votes)),
        tally(votes, votes[j]) <= tally(votes, winner(votes)),
        tally(votes, votes[j]) == tally(votes, winner(votes)) ==> exists|i: int|
            0 <= i <= j && #[trigger] votes[i] == winner(votes),
{
    let i = lemma_winner_exists(votes, votes.len());
    lemma_winner(votes, votes[i], i);
    assert(votes[i] == winner(votes));
}

} // verus!
