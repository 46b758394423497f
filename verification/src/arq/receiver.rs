//! The receiving side of the window.

use std::collections::HashMap;
use std::collections::HashSet;
use vstd::prelude::*;
use crate::arq::{acknowledges, bit, seq_before, wrap};

verus! {

broadcast use vstd::std_specs::hash::group_hash_axioms;

/// A receiver that puts frames in order: it hands items out strictly in sequence and each only
/// once, and says what to acknowledge.
pub struct ArqReceiver<T> {
    expected: u16,
    pending: HashMap<u16, T>,
    have: HashSet<u16>,
}

/// What a receiver knows: the number it waits for, the items it holds back, and the numbers it
/// has seen.
pub struct RxState<T> {
    pub expected: u16,
    pub pending: Map<u16, T>,
    pub have: Set<u16>,
}

/// The item `i` numbers after `from` is held, and it is `item`.
pub open spec fn holds_nth<T>(held: Map<u16, T>, from: u16, i: int, item: T) -> bool {
    held.contains_key(wrap(from + i)) && held[wrap(from + i)] == item
}

/// `run` is the longest run of items without a gap from number `from` on.
pub open spec fn is_run<T>(held: Map<u16, T>, from: u16, run: Seq<T>) -> bool {
    &&& run.len() <= 0x10000
    &&& forall|i: int| 0 <= i < run.len() ==> #[trigger] holds_nth(held, from, i, run[i])
    &&& run.len() < 0x10000 ==> !held.contains_key(wrap(from + run.len()))
}

/// The items that stay when the first `n` from number `from` on are taken out.
pub open spec fn left_behind<T>(held: Map<u16, T>, from: u16, n: nat) -> Map<u16, T> {
    Map::new(
        |seq: u16| held.contains_key(seq) && (seq - from) % 0x10000 >= n,
        |seq: u16| held[seq],
    )
}

/// A frame that came before, or that is behind what was handed out.
pub open spec fn is_stale<T>(rx: RxState<T>, seq: u16) -> bool {
    seq_before(seq, rx.expected) || rx.have.contains(seq)
}

/// What a frame does to a receiver: nothing if it is stale, and otherwise it is held, and the run
/// that starts with the number waited for is handed out.
pub open spec fn takes<T>(
    before: RxState<T>,
    seq: u16,
    item: T,
    after: RxState<T>,
    out: Seq<T>,
) -> bool {
    if is_stale(before, seq) {
        after == before && out.len() == 0
    } else {
        let held = before.pending.insert(seq, item);
        &&& after.have == before.have.insert(seq)
        &&& is_run(held, before.expected, out)
        &&& after.expected == wrap(before.expected + out.len())
        &&& after.pending == left_behind(held, before.expected, out.len())
    }
}

/// The receiver is in step with a sender of `items`: it has handed out those before the number it
/// waits for, it holds some of those after, and it has seen just these.
pub open spec fn in_step<T>(rx: RxState<T>, items: Seq<T>) -> bool {
    &&& rx.expected <= items.len()
    &&& forall|seq: u16| #[trigger]
        rx.pending.contains_key(seq) ==> rx.expected < seq < items.len() && rx.pending[seq]
            == items[seq as int]
    &&& forall|seq: u16| #[trigger]
        rx.have.contains(seq) <==> seq < rx.expected || rx.pending.contains_key(seq)
}

/// Frames may arrive in any order and any number of times: what has been handed out is always a
/// beginning of what was sent. No frame less than half the circle of numbers ahead is lost.
pub proof fn law_in_order<T>(
    before: RxState<T>,
    seq: u16,
    item: T,
    after: RxState<T>,
    out: Seq<T>,
    items: Seq<T>,
)
    requires
        items.len() <= 0xFFFF,
        in_step(before, items),
        seq < items.len(),
        item == items[seq as int],
        takes(before, seq, item, after, out),
    ensures
        in_step(after, items),
        items.take(before.expected as int) + out == items.take(after.expected as int),
        seq < before.expected + 0x8000 ==> after.have.contains(seq),
{
    let e = before.expected;
    if is_stale(before, seq) {
        assert(items.take(e as int) + out =~= items.take(e as int));
    } else {
        let held = before.pending.insert(seq, item);
        assert(seq >= e) by {
            if seq < e {
                assert(before.have.contains(seq));
            }
        }
        // the run stays inside what was sent
        assert(e + out.len() <= items.len()) by {
            if e + out.len() > items.len() {
                let i = items.len() - e;
                assert(holds_nth(held, e, i, out[i]));
                assert(held.contains_key(wrap(e + i)));
                assert(wrap(e + i) == items.len());
                assert(before.pending.contains_key(wrap(e + i)));
            }
        }
        let n = out.len() as int;
        assert forall|i: int| 0 <= i < n implies #[trigger] out[i] == items[e + i] by {
            assert(holds_nth(held, e, i, out[i]));
            assert(wrap(e + i) == e + i);
            if wrap(e + i) != seq {
                assert(before.pending.contains_key(wrap(e + i)));
            }
        }
        assert(items.take(e as int) + out =~= items.take(e + n));
        assert(after.expected == e + n);
        assert forall|q: u16| #[trigger] after.pending.contains_key(q) implies after.expected < q
            < items.len() && after.pending[q] == items[q as int] by {
            assert(held.contains_key(q));
            assert((q - e) % 0x10000 >= n);
            if q != seq {
                assert(before.pending.contains_key(q));
            }
            assert(q >= e);
            if q == e + n {
                assert(!held.contains_key(wrap(e + out.len())));
            }
        }
        assert forall|q: u16| #[trigger] after.have.contains(q) <==> q < after.expected
            || after.pending.contains_key(q) by {
            if before.have.contains(q) || q == seq {
                if q >= e {
                    assert(held.contains_key(q));
                }
            }
            if e <= q < e + n {
                let i = q - e;
                assert(holds_nth(held, e, i, out[i]));
                assert(wrap(e + i) == q);
                assert(held.contains_key(q));
                if q != seq {
                    assert(before.pending.contains_key(q));
                }
            }
            if after.pending.contains_key(q) {
                assert(held.contains_key(q));
                if q != seq {
                    assert(before.pending.contains_key(q));
                }
            }
        }
    }
}

/// Once every frame has arrived, everything has been handed out and nothing is held back.
pub proof fn law_complete<T>(rx: RxState<T>, items: Seq<T>)
    requires
        items.len() <= 0xFFFF,
        in_step(rx, items),
        forall|seq: u16| seq < items.len() ==> #[trigger] rx.have.contains(seq),
    ensures
        rx.expected == items.len(),
        rx.pending == Map::<u16, T>::empty(),
{
    let e = rx.expected;
    if e < items.len() {
        assert(rx.have.contains(e));
    }
    assert forall|seq: u16| !#[trigger] rx.pending.contains_key(seq) by {}
    assert(rx.pending =~= Map::<u16, T>::empty());
}

/// A frame that arrives: its number and item, the items that it lets go, and the receiver that it
/// leaves.
pub struct Arrival<T> {
    pub seq: u16,
    pub item: T,
    pub out: Seq<T>,
    pub after: RxState<T>,
}

/// The receiver after some arrivals.
pub open spec fn state_after<T>(start: RxState<T>, arrivals: Seq<Arrival<T>>) -> RxState<T> {
    if arrivals.len() == 0 {
        start
    } else {
        arrivals.last().after
    }
}

/// The arrivals come one after the other, each at the receiver that the one before it left.
pub open spec fn in_turn<T>(start: RxState<T>, arrivals: Seq<Arrival<T>>) -> bool
    decreases arrivals.len(),
{
    arrivals.len() == 0 || {
        let earlier = arrivals.drop_last();
        let a = arrivals.last();
        in_turn(start, earlier) && takes(state_after(start, earlier), a.seq, a.item, a.after, a.out)
    }
}

/// All the items that the arrivals let go.
pub open spec fn let_go<T>(arrivals: Seq<Arrival<T>>) -> Seq<T>
    decreases arrivals.len(),
{
    if arrivals.len() == 0 {
        Seq::empty()
    } else {
        let_go(arrivals.drop_last()) + arrivals.last().out
    }
}

proof fn lemma_arrivals<T>(start: RxState<T>, arrivals: Seq<Arrival<T>>, items: Seq<T>)
    requires
        items.len() <= 0xFFFF,
        items.len() <= start.expected + 0x8000,
        in_step(start, items),
        in_turn(start, arrivals),
        forall|i: int|
            0 <= i < arrivals.len() ==> (#[trigger] arrivals[i]).seq < items.len()
                && arrivals[i].item == items[arrivals[i].seq as int],
    ensures
        in_step(state_after(start, arrivals), items),
        start.expected <= state_after(start, arrivals).expected,
        items.take(start.expected as int) + let_go(arrivals) == items.take(
            state_after(start, arrivals).expected as int,
        ),
        start.have.subset_of(state_after(start, arrivals).have),
        forall|i: int|
            0 <= i < arrivals.len() ==> state_after(start, arrivals).have.contains(
                (#[trigger] arrivals[i]).seq,
            ),
    decreases arrivals.len(),
{
    let e = start.expected as int;
    if arrivals.len() == 0 {
        assert(items.take(e) + let_go(arrivals) =~= items.take(e));
    } else {
        let earlier = arrivals.drop_last();
        let a = arrivals.last();
        assert forall|i: int| 0 <= i < earlier.len() implies (#[trigger] earlier[i]).seq
            < items.len() && earlier[i].item == items[earlier[i].seq as int] by {
            assert(earlier[i] == arrivals[i]);
        }
        lemma_arrivals(start, earlier, items);
        let mid = state_after(start, earlier);
        assert(a == arrivals[arrivals.len() - 1]);
        law_in_order(mid, a.seq, a.item, a.after, a.out, items);
        assert(items.take(e) + let_go(arrivals) =~= items.take(e) + let_go(earlier) + a.out);
        assert(mid.expected <= a.after.expected) by {
            assert((items.take(mid.expected as int) + a.out).len() == items.take(
                a.after.expected as int,
            ).len());
        }
        assert forall|i: int| 0 <= i < arrivals.len() implies a.after.have.contains(
            (#[trigger] arrivals[i]).seq,
        ) by {
            if i < earlier.len() {
                assert(mid.have.contains(earlier[i].seq));
            }
        }
    }
}

/// The frames that a receiver lacks may arrive in any order, each any number of times: once all of
/// them have arrived, the rest of what was sent has been handed out, in order and each item once,
/// and nothing is held back.
pub proof fn law_any_order<T>(start: RxState<T>, arrivals: Seq<Arrival<T>>, items: Seq<T>)
    requires
        items.len() <= 0xFFFF,
        items.len() <= start.expected + 0x8000,
        in_step(start, items),
        in_turn(start, arrivals),
        forall|i: int|
            0 <= i < arrivals.len() ==> (#[trigger] arrivals[i]).seq < items.len()
                && arrivals[i].item == items[arrivals[i].seq as int],
        forall|seq: u16|
            #![trigger start.have.contains(seq)]
            seq < items.len() && !start.have.contains(seq) ==> exists|i: int|
                0 <= i < arrivals.len() && (#[trigger] arrivals[i]).seq == seq,
    ensures
        let_go(arrivals) == items.skip(start.expected as int),
        state_after(start, arrivals).expected == items.len(),
        state_after(start, arrivals).pending == Map::<u16, T>::empty(),
{
    let end = state_after(start, arrivals);
    lemma_arrivals(start, arrivals, items);
    assert forall|seq: u16| seq < items.len() implies #[trigger] end.have.contains(seq) by {
        if !start.have.contains(seq) {
            let i = choose|i: int|
                0 <= i < arrivals.len() && (#[trigger] arrivals[i]).seq == seq;
            assert(end.have.contains(arrivals[i].seq));
        }
    }
    law_complete(end, items);
    let e = start.expected as int;
    let all = items.take(e) + let_go(arrivals);
    assert(all == items.take(items.len() as int));
    assert(items.take(items.len() as int) =~= items);
    assert(let_go(arrivals) =~= items.skip(e)) by {
        assert(all.skip(e) =~= let_go(arrivals));
    }
}

/// What a receiver acknowledges covers just the frames that it has, the held ones as far as 32
/// numbers ahead. This holds of the frames less than half the circle of numbers away from the one
/// that it waits for.
pub proof fn law_acknowledges_what_arrived<T>(
    rx: RxState<T>,
    items: Seq<T>,
    cumulative: u16,
    sack: u32,
    seq: u16,
)
    requires
        items.len() <= 0xFFFF,
        in_step(rx, items),
        reports(rx, cumulative, sack),
        seq < items.len(),
        rx.expected - 0x8000 <= seq < rx.expected + 0x7FFF,
    ensures
        acknowledges(cumulative, sack, seq) <==> seq < rx.expected || (rx.pending.contains_key(seq)
            && seq < rx.expected + 32),
        acknowledges(cumulative, sack, seq) ==> rx.have.contains(seq),
{
    let e = rx.expected;
    let offset = (seq - cumulative - 1) % 0x10000;
    assert(cumulative == if e == 0 { 0xFFFF } else { e - 1 });
    if seq >= e {
        assert(offset == seq - e);
        assert(wrap(e + offset) == seq);
        assert(!seq_before(seq, cumulative));
        assert(seq != cumulative);
        if offset < 32 {
            assert(bit(sack, offset) <==> rx.pending.contains_key(wrap(e + offset)));
        }
    } else {
        assert(seq == cumulative || seq_before(seq, cumulative));
    }
}

/// The acknowledgement that a receiver sends: the number before the one it waits for, and a bit
/// for each of the next 32 that it holds.
pub open spec fn reports<T>(rx: RxState<T>, cumulative: u16, sack: u32) -> bool {
    &&& cumulative == wrap(rx.expected - 1)
    &&& forall|i: int|
        0 <= i < 32 ==> (#[trigger] bit(sack, i) <==> rx.pending.contains_key(
            wrap(rx.expected + i),
        ))
}

impl<T> View for ArqReceiver<T> {
    type V = RxState<T>;

    closed spec fn view(&self) -> RxState<T> {
        RxState { expected: self.expected, pending: self.pending@, have: self.have@ }
    }
}

impl<T> Default for ArqReceiver<T> {
    fn default() -> (r: Self)
        ensures
            r@.expected == 0,
            r@.pending == Map::<u16, T>::empty(),
            r@.have == Set::<u16>::empty(),
    {
        ArqReceiver { expected: 0, pending: HashMap::new(), have: HashSet::new() }
    }
}

impl<T> ArqReceiver<T> {
    pub fn new() -> (r: Self)
        ensures
            r@.expected == 0,
            r@.pending == Map::<u16, T>::empty(),
            r@.have == Set::<u16>::empty(),
    {
        Self::default()
    }

    /// Takes a frame in and returns the items that it lets go, in order.
    pub fn push(&mut self, seq: u16, item: T) -> (r: Vec<T>)
        ensures
            takes(old(self)@, seq, item, final(self)@, r@),
    {
        let ghost before = self@;
        if crate::arq::seq_lt(seq, self.expected) || self.have.contains(&seq) {
            return Vec::new();
        }
        self.have.insert(seq);
        self.pending.insert(seq, item);
        let ghost held = self.pending@;
        let ghost from = self.expected;
        let mut delivered: Vec<T> = Vec::new();
        assert(held =~= left_behind(held, from, 0));
        let mut more: bool = true;
        while more
            invariant
                delivered@.len() <= 0x10000,
                self.have@ == before.have.insert(seq),
                self.expected == wrap(from + delivered@.len()),
                self.pending@ == left_behind(held, from, delivered@.len()),
                forall|i: int|
                    0 <= i < delivered@.len() ==> #[trigger] holds_nth(held, from, i, delivered@[i]),
                !more && delivered@.len() < 0x10000 ==> !held.contains_key(
                    wrap(from + delivered@.len()),
                ),
            decreases 0x10001 - delivered@.len(), (if more { 1int } else { 0int }),
        {
            let ghost n = delivered@.len();
            let ghost sofar = delivered@;
            let ghost at = self.expected;
            proof {
                assert(n < 0x10000 ==> (self.expected - from) % 0x10000 == n);
                assert(n == 0x10000 ==> !self.pending@.contains_key(self.expected));
            }
            match self.pending.remove(&self.expected) {
                Some(item) => {
                    delivered.push(item);
                    self.expected = self.expected.wrapping_add(1);
                    proof {
                        assert(held.contains_key(at) && item == held[at]);
                        assert forall|i: int|
                            0 <= i < delivered@.len() implies #[trigger] holds_nth(
                            held,
                            from,
                            i,
                            delivered@[i],
                        ) by {
                            if i < n {
                                assert(holds_nth(held, from, i, sofar[i]));
                            }
                        }
                        assert(self.pending@ =~= left_behind(held, from, n + 1)) by {
                            assert forall|q: u16| #[trigger] held.contains_key(q) implies ((q - from)
                                % 0x10000 >= n + 1 <==> (q - from) % 0x10000 >= n && q != wrap(
                                from + n,
                            )) by {}
                        }
                    }
                },
                None => {
                    more = false;
                },
            }
        }
        delivered
    }

    /// What to acknowledge: the last number handed out, and a bitmap of the 32 after it.
    pub fn ack_info(&self) -> (r: (u16, u32))
        ensures
            reports(self@, r.0, r.1),
    {
        let cumulative: u16 = self.expected.wrapping_sub(1);
        let mut sack: u32 = 0;
        let mut i: u16 = 0;
        proof {
            assert forall|j: int| 0 <= j < 32 implies !#[trigger] bit(0, j) by {
                let k = j as u32;
                assert(k < 32 ==> (0u32 >> k) & 1u32 == 0u32) by (bit_vector);
            }
        }
        while i < 32
            invariant
                i <= 32,
                forall|j: int|
                    0 <= j < 32 ==> (#[trigger] bit(sack, j) <==> j < i
                        && self.pending@.contains_key(wrap(self.expected + j))),
            decreases 32 - i,
        {
            let seq: u16 = self.expected.wrapping_add(i);
            if self.pending.contains_key(&seq) {
                let ghost sack0 = sack;
                sack = sack | (1u32 << (i as u32));
                proof {
                    assert forall|j: int| 0 <= j < 32 implies (#[trigger] bit(sack, j) <==> bit(
                        sack0,
                        j,
                    ) || j == i) by {
                        let k = j as u32;
                        let m = i as u32;
                        assert(k < 32 && m < 32 ==> (((sack0 | (1u32 << m)) >> k) & 1u32 == 1u32
                            <==> (sack0 >> k) & 1u32 == 1u32 || k == m)) by (bit_vector);
                    }
                }
            }
            i += 1;
        }
        (cumulative, sack)
    }

    /// Whether something is held back for want of a frame before it.
    pub fn has_gap(&self) -> (r: bool)
        ensures
            r == (self@.pending != Map::<u16, T>::empty()),
    {
        let empty: bool = self.pending.is_empty();
        proof {
            if self.pending@.is_empty() {
                assert(self.pending@ =~= Map::<u16, T>::empty());
            }
        }
        !empty
    }
}

/// A number is taken only once, and none that is behind the one waited for. Any other is noted, and
/// it lets items go exactly if it is the one waited for, or if that is held already.
pub proof fn law_each_number_once<T>(
    before: RxState<T>,
    seq: u16,
    item: T,
    after: RxState<T>,
    out: Seq<T>,
)
    requires
        takes(before, seq, item, after, out),
    ensures
        before.have.contains(seq) || seq_before(seq, before.expected) ==> after == before && out.len()
            == 0,
        !before.have.contains(seq) && !seq_before(seq, before.expected) ==> {
            &&& after.have == before.have.insert(seq)
            &&& out.len() > 0 <==> seq == before.expected || before.pending.contains_key(
                before.expected,
            )
            &&& seq == before.expected ==> out[0] == item
            &&& out.len() == 0 ==> after.expected == before.expected && after.pending
                == before.pending.insert(seq, item)
        },
{
    if !is_stale(before, seq) {
        let held = before.pending.insert(seq, item);
        assert(wrap(before.expected + 0) == before.expected);
        if out.len() > 0 {
            assert(holds_nth(held, before.expected, 0, out[0]));
        } else {
            assert(after.pending =~= held);
        }
    }
}

} // verus!
