//! Messages in pieces that fit into one frame each.
//!
//! A piece starts with the number of its message, the number of pieces and its own number. It is
//! sized so that it fills exactly one codeword.

use std::collections::HashMap;
use vstd::prelude::*;
use vstd::slice::{slice_subrange, slice_to_vec};
use crate::fec;
use crate::fec::poly;
use crate::framing::{be16, from_be16};

verus! {

broadcast use vstd::std_specs::hash::group_hash_axioms;

/// The bytes of a message that one piece holds.
pub const CHUNK_LEN: usize = 28;

/// The bytes of the longest message: 255 pieces.
pub const MAX_MESSAGE_LEN: usize = 7140;

/// The data bytes of a codeword.
pub const FEC_K: usize = 32;

/// The check bytes of a codeword.
pub const FEC_NSYM: usize = 16;

/// How many pieces a message of the given length takes.
pub open spec fn pieces(len: nat) -> nat {
    fec::block_count(len, 28)
}

/// The number of pieces as it is sent, in one byte.
pub open spec fn piece_total(len: nat) -> u8 {
    pieces(len) as u8
}

/// The bytes of a message in its piece `idx`.
pub open spec fn piece_text(bytes: Seq<u8>, idx: int) -> Seq<u8> {
    bytes.subrange(
        28 * idx,
        if 28 * idx + 28 <= bytes.len() {
            28 * idx + 28
        } else {
            bytes.len() as int
        },
    )
}

/// Piece `idx` of a message.
pub open spec fn piece(bytes: Seq<u8>, id: u16, idx: int) -> Seq<u8> {
    be16(id) + seq![piece_total(bytes.len()), idx as u8] + piece_text(bytes, idx)
}

/// The message is short enough: its pieces can be numbered in one byte.
pub open spec fn is_short(len: nat) -> bool {
    pieces(len) <= 255
}

/// Whether a text is short enough to be sent as one message.
pub fn fits(text: &str) -> (r: bool)
    ensures
        r == is_short(vstd::utf8::encode_utf8(text@).len()),
{
    let bytes: &[u8] = text.as_bytes();
    bytes.len() <= MAX_MESSAGE_LEN
}

/// Cuts a message into pieces.
pub fn split_message(bytes: &[u8], msg_id: u16) -> (r: Vec<Vec<u8>>)
    requires
        is_short(bytes@.len()),
    ensures
        r@.len() == piece_total(bytes@.len()),
        forall|i: int| 0 <= i < r@.len() ==> (#[trigger] r@[i])@ == piece(bytes@, msg_id, i),
{
    let count: usize = if bytes.len() == 0 {
        1
    } else {
        (bytes.len() + CHUNK_LEN - 1) / CHUNK_LEN
    };
    let total: u8 = count as u8;
    let mut out: Vec<Vec<u8>> = Vec::new();
    let mut idx: u8 = 0;
    while idx < total
        invariant
            idx <= total,
            count == pieces(bytes@.len()) == total,
            is_short(bytes@.len()),
            total == piece_total(bytes@.len()),
            out@.len() == idx,
            forall|i: int| 0 <= i < idx ==> (#[trigger] out@[i])@ == piece(bytes@, msg_id, i),
        decreases total - idx,
    {
        let start: usize = idx as usize * CHUNK_LEN;
        assert(28 * idx <= bytes@.len());
        let end: usize = if start + CHUNK_LEN <= bytes.len() {
            start + CHUNK_LEN
        } else {
            bytes.len()
        };
        let mut inner: Vec<u8> = Vec::with_capacity(4 + (end - start));
        inner.push((msg_id / 256) as u8);
        inner.push((msg_id % 256) as u8);
        inner.push(total);
        inner.push(idx);
        inner.extend_from_slice(slice_subrange(bytes, start, end));
        assert(inner@ =~= piece(bytes@, msg_id, idx as int));
        out.push(inner);
        idx += 1;
    }
    out
}

/// What has arrived of a message.
pub struct Partial {
    pub total: u8,
    pub chunks: Map<u8, Seq<u8>>,
}

/// The chunks below `n` that have arrived, one after the other.
pub open spec fn gather(chunks: Map<u8, Seq<u8>>, n: nat) -> Seq<u8>
    decreases n,
{
    if n == 0 {
        Seq::empty()
    } else {
        let before = gather(chunks, (n - 1) as nat);
        if chunks.contains_key((n - 1) as u8) {
            before + chunks[(n - 1) as u8]
        } else {
            before
        }
    }
}

/// The message with a piece added to what has arrived of it.
pub open spec fn with_piece(partials: Map<u16, Partial>, inner: Seq<u8>) -> Partial {
    let id = from_be16(inner[0], inner[1]);
    let before = if partials.contains_key(id) {
        partials[id]
    } else {
        Partial { total: inner[2], chunks: Map::empty() }
    };
    Partial { total: before.total, chunks: before.chunks.insert(inner[3], inner.skip(4)) }
}

/// As many chunks have arrived as the message has, by the lowest eight bits of their number.
pub open spec fn is_complete(p: Partial) -> bool {
    p.chunks.len() % 256 >= p.total
}

/// What a piece does to the messages that are not complete yet, and the message that it completes.
pub open spec fn accepted(partials: Map<u16, Partial>, inner: Seq<u8>) -> (
    Map<u16, Partial>,
    Option<Seq<u8>>,
) {
    if inner.len() < 4 {
        (partials, None)
    } else {
        let id = from_be16(inner[0], inner[1]);
        let p = with_piece(partials, inner);
        if is_complete(p) {
            (partials.remove(id), Some(gather(p.chunks, p.total as nat)))
        } else {
            (partials.insert(id, p), None)
        }
    }
}

struct Reassembly {
    total: u8,
    chunks: HashMap<u8, Vec<u8>>,
}

impl Reassembly {
    spec fn arrived(&self) -> Partial {
        Partial {
            total: self.total,
            chunks: Map::new(
                |k: u8| self.chunks@.contains_key(k),
                |k: u8| self.chunks@[k]@,
            ),
        }
    }
}

/// Puts messages together.
pub struct Assembler {
    partial: HashMap<u16, Reassembly>,
}

impl Assembler {
    /// The messages that are not complete yet.
    pub closed spec fn partials(&self) -> Map<u16, Partial> {
        Map::new(
            |id: u16| self.partial@.contains_key(id),
            |id: u16| self.partial@[id].arrived(),
        )
    }

    pub fn new() -> (r: Self)
        ensures
            r.partials() == Map::<u16, Partial>::empty(),
    {
        let r = Assembler { partial: HashMap::new() };
        assert(r.partials() =~= Map::<u16, Partial>::empty());
        r
    }

    /// Takes a piece, and returns the bytes of the message that it completes.
    pub fn accept(&mut self, inner: &[u8]) -> (r: Option<Vec<u8>>)
        ensures
            (final(self).partials(), match r {
                Some(bytes) => Some(bytes@),
                None => None,
            }) == accepted(old(self).partials(), inner@),
    {
        if inner.len() < 4 {
            return None;
        }
        let ghost before = self.partials();
        let msg_id: u16 = inner[0] as u16 * 256 + inner[1] as u16;
        let total: u8 = inner[2];
        let idx: u8 = inner[3];
        let text: Vec<u8> = slice_to_vec(slice_subrange(inner, 4, inner.len()));
        assert(text@ =~= inner@.skip(4));
        let mut entry: Reassembly = match self.partial.remove(&msg_id) {
            Some(e) => e,
            None => Reassembly { total, chunks: HashMap::new() },
        };
        let ghost left = self.partial@;
        let ghost e0 = entry;
        entry.chunks.insert(idx, text);
        let ghost p = with_piece(before, inner@);
        proof {
            assert(entry.arrived().chunks =~= p.chunks) by {
                if before.contains_key(msg_id) {
                    assert(e0.arrived() == before[msg_id]);
                }
                assert forall|k: u8| entry.arrived().chunks.contains_key(k) <==> p.chunks.contains_key(k) by {
                    if before.contains_key(msg_id) {
                        assert(e0.arrived().chunks.contains_key(k) <==> e0.chunks@.contains_key(k));
                    }
                }
            }
            assert(entry.total == p.total);
            assert(entry.arrived().chunks.dom() =~= entry.chunks@.dom());
        }
        if (entry.chunks.len() % 256) as u8 >= entry.total {
            let mut full: Vec<u8> = Vec::new();
            let mut i: u8 = 0;
            while i < entry.total
                invariant
                    i <= entry.total,
                    entry.arrived().chunks == p.chunks,
                    entry.total == p.total,
                    full@ == gather(p.chunks, i as nat),
                decreases entry.total - i,
            {
                match entry.chunks.get(&i) {
                    Some(c) => {
                        let ghost f0 = full@;
                        full.extend_from_slice(c);
                        assert(full@ =~= f0 + c@);
                        assert(p.chunks.contains_key(i));
                        assert(p.chunks[i] == c@);
                    },
                    None => {
                        assert(!p.chunks.contains_key(i));
                    },
                }
                i += 1;
            }
            assert(self.partials() =~= before.remove(msg_id));
            return Some(full);
        }
        self.partial.insert(msg_id, entry);
        assert(self.partials() =~= before.insert(msg_id, p)) by {
            assert(self.partials()[msg_id] == entry.arrived());
            assert(entry.arrived() == p);
        }
        None
    }
}

/// A piece as a codeword holds it: filled up with zeros.
pub open spec fn padded_piece(bytes: Seq<u8>, id: u16, idx: int) -> Seq<u8> {
    fec::padded(piece(bytes, id, idx), 32)
}

/// What becomes of messages when the first `n` pieces of one arrive in order.
pub open spec fn accept_pieces(
    partials: Map<u16, Partial>,
    bytes: Seq<u8>,
    id: u16,
    n: nat,
) -> (Map<u16, Partial>, Option<Seq<u8>>)
    decreases n,
{
    if n == 0 {
        (partials, None)
    } else {
        accepted(
            accept_pieces(partials, bytes, id, (n - 1) as nat).0,
            padded_piece(bytes, id, n - 1),
        )
    }
}

/// The text of piece `idx` with the zeros behind it.
pub open spec fn padded_text(bytes: Seq<u8>, idx: int) -> Seq<u8> {
    piece_text(bytes, idx) + poly::zeros((28 - piece_text(bytes, idx).len()) as nat)
}

spec fn first_chunks(bytes: Seq<u8>, n: nat) -> Map<u8, Seq<u8>> {
    Map::new(|k: u8| k < n, |k: u8| padded_text(bytes, k as int))
}

proof fn lemma_piece(bytes: Seq<u8>, id: u16, idx: int)
    requires
        0 <= idx < pieces(bytes.len()) <= 255,
    ensures
        padded_piece(bytes, id, idx).len() == 32,
        padded_piece(bytes, id, idx)[2] == pieces(bytes.len()),
        padded_piece(bytes, id, idx)[3] == idx,
        from_be16(padded_piece(bytes, id, idx)[0], padded_piece(bytes, id, idx)[1]) == id,
        padded_piece(bytes, id, idx).skip(4) == padded_text(bytes, idx),
        padded_text(bytes, idx).len() == 28,
        28 * idx <= bytes.len(),
{
    let p = piece(bytes, id, idx);
    assert(28 * idx <= bytes.len());
    assert(4 <= p.len() <= 32);
    assert(fec::block_count(p.len(), 32) == 1);
    assert(padded_piece(bytes, id, idx).skip(4) =~= padded_text(bytes, idx));
}

proof fn lemma_first_chunks_len(bytes: Seq<u8>, n: nat)
    requires
        n <= 255,
    ensures
        first_chunks(bytes, n).dom().finite(),
        first_chunks(bytes, n).len() == n,
    decreases n,
{
    if n == 0 {
        assert(first_chunks(bytes, 0).dom() =~= Set::<u8>::empty());
    } else {
        let m = (n - 1) as nat;
        lemma_first_chunks_len(bytes, m);
        assert(first_chunks(bytes, n).dom() =~= first_chunks(bytes, m).dom().insert(m as u8));
    }
}

#[verifier::spinoff_prover]
#[verifier::rlimit(60)]
proof fn lemma_accept_some(partials: Map<u16, Partial>, bytes: Seq<u8>, id: u16, n: nat)
    requires
        !partials.contains_key(id),
        is_short(bytes.len()),
        n < pieces(bytes.len()),
    ensures
        n == 0 ==> accept_pieces(partials, bytes, id, n) == (partials, None::<Seq<u8>>),
        n > 0 ==> accept_pieces(partials, bytes, id, n) == (
            partials.insert(
                id,
                (Partial { total: pieces(bytes.len()) as u8, chunks: first_chunks(bytes, n) }),
            ),
            None::<Seq<u8>>,
        ),
    decreases n,
{
    if n > 0 {
        let m = (n - 1) as nat;
        lemma_accept_some(partials, bytes, id, m);
        lemma_piece(bytes, id, m as int);
        lemma_first_chunks_len(bytes, n);
        let before = accept_pieces(partials, bytes, id, m).0;
        let p = with_piece(before, padded_piece(bytes, id, m as int));
        assert(p.chunks =~= first_chunks(bytes, n));
        assert(before.insert(id, p) =~= partials.insert(id, p));
    }
}

proof fn lemma_gather(bytes: Seq<u8>, n: nat, total: nat)
    requires
        total == pieces(bytes.len()) <= 255,
        n <= total,
    ensures
        gather(first_chunks(bytes, total), n) == (bytes + poly::zeros(
            (28 * total - bytes.len()) as nat,
        )).take(28 * n as int),
        28 * total >= bytes.len(),
    decreases n,
{
    let whole = bytes + poly::zeros((28 * total - bytes.len()) as nat);
    assert(28 * total >= bytes.len());
    if n == 0 {
        assert(whole.take(0) =~= Seq::<u8>::empty());
    } else {
        let m = (n - 1) as nat;
        lemma_gather(bytes, m, total);
        lemma_piece(bytes, 0, m as int);
        assert(first_chunks(bytes, total).contains_key(m as u8));
        let t = padded_text(bytes, m as int);
        assert(whole.take(28 * m as int) + t =~= whole.take(28 * n as int)) by {
            assert forall|i: int| 0 <= i < 28 implies t[i] == whole[28 * m + i] by {}
        }
    }
}

/// The pieces of a message of up to 255 pieces, taken in order, give the message back at the last
/// of them and not before, with the zeros that fill its last piece, and leave nothing behind.
pub proof fn law_message_reassembled(partials: Map<u16, Partial>, bytes: Seq<u8>, id: u16)
    requires
        !partials.contains_key(id),
        is_short(bytes.len()),
    ensures
        accept_pieces(partials, bytes, id, pieces(bytes.len())) == (
            partials,
            Some(bytes + poly::zeros((28 * pieces(bytes.len()) - bytes.len()) as nat)),
        ),
        forall|n: nat|
            n < pieces(bytes.len()) ==> (#[trigger] accept_pieces(partials, bytes, id, n)).1 is None,
{
    let total = pieces(bytes.len());
    assert forall|n: nat| n < total implies (#[trigger] accept_pieces(
        partials,
        bytes,
        id,
        n,
    )).1 is None by {
        lemma_accept_some(partials, bytes, id, n);
    }
    let m = (total - 1) as nat;
    lemma_accept_some(partials, bytes, id, m);
    lemma_piece(bytes, id, m as int);
    lemma_first_chunks_len(bytes, total);
    let before = accept_pieces(partials, bytes, id, m).0;
    let p = with_piece(before, padded_piece(bytes, id, m as int));
    assert(p.chunks =~= first_chunks(bytes, total));
    assert(before.remove(id) =~= partials);
    lemma_gather(bytes, total, total);
    let whole = bytes + poly::zeros((28 * total - bytes.len()) as nat);
    assert(whole.take(28 * total as int) =~= whole);
}

/// Calls `String::from_utf8`: bytes that are well-formed UTF-8 give the text they encode, and
/// other bytes none.
#[verifier::external_body]
pub(crate) fn text_of(bytes: Vec<u8>) -> (r: Option<String>)
    ensures
        r is Some <==> vstd::utf8::valid_utf8(bytes@),
        r matches Some(text) ==> text@ == vstd::utf8::decode_utf8(bytes@),
{
    String::from_utf8(bytes).ok()
}

/// The text of a message, if its bytes are one.
pub open spec fn decoded_text(bytes: Seq<u8>) -> Option<Seq<char>> {
    if vstd::utf8::valid_utf8(bytes) {
        Some(vstd::utf8::decode_utf8(bytes))
    } else {
        None
    }
}

/// The bytes without the zeros at their end, which is what fills the last piece of a message.
pub open spec fn unfilled(bytes: Seq<u8>) -> Seq<u8>
    decreases bytes.len(),
{
    if bytes.len() > 0 && bytes.last() == 0 {
        unfilled(bytes.drop_last())
    } else {
        bytes
    }
}

/// Cuts the zeros at the end of a message.
pub fn cut_fill(bytes: Vec<u8>) -> (r: Vec<u8>)
    ensures
        r@ == unfilled(bytes@),
{
    let mut r: Vec<u8> = bytes;
    let mut n: usize = r.len();
    assert(r@.take(n as int) =~= r@);
    while n > 0 && r[n - 1] == 0
        invariant
            n <= r@.len(),
            unfilled(r@.take(n as int)) == unfilled(bytes@),
        decreases n,
    {
        assert(r@.take(n as int).drop_last() =~= r@.take(n - 1));
        n -= 1;
    }
    let ghost whole = r@;
    r.truncate(n);
    assert(r@ =~= whole.take(n as int));
    r
}

/// The fill is cut, however long it is, and nothing of a message that does not end in a zero.
pub proof fn law_fill_is_cut(bytes: Seq<u8>, fill: nat)
    ensures
        unfilled(bytes + poly::zeros(fill)) == unfilled(bytes),
        bytes.len() == 0 || bytes.last() != 0 ==> unfilled(bytes) == bytes,
    decreases fill,
{
    if fill == 0 {
        assert(bytes + poly::zeros(fill) =~= bytes);
    } else {
        law_fill_is_cut(bytes, (fill - 1) as nat);
        assert((bytes + poly::zeros(fill)).drop_last() =~= bytes + poly::zeros((fill - 1) as nat));
    }
}

/// Zeros at the end of a message that take no piece more are sent as the fill would be: no receiver
/// can tell them from it.
pub proof fn law_zeros_are_sent_as_fill(bytes: Seq<u8>, more: nat, id: u16, idx: int)
    requires
        is_short(bytes.len()),
        pieces(bytes.len() + more) == pieces(bytes.len()),
        0 <= idx < pieces(bytes.len()),
    ensures
        fec::encoded(piece(bytes + poly::zeros(more), id, idx), 32, 16) == fec::encoded(
            piece(bytes, id, idx),
            32,
            16,
        ),
{
    let longer = bytes + poly::zeros(more);
    let p = piece(bytes, id, idx);
    let q = piece(longer, id, idx);
    lemma_piece(bytes, id, idx);
    lemma_piece(longer, id, idx);
    assert(fec::block_count(p.len(), 32) == 1);
    assert(fec::block_count(q.len(), 32) == 1);
    assert(padded_text(longer, idx) =~= padded_text(bytes, idx));
    assert(fec::padded(q, 32) =~= fec::padded(p, 32));
    assert(fec::code_words(q, 32, 16) =~= fec::code_words(p, 32, 16));
}

/// A text that does not end in a null character.
pub open spec fn ends_plainly(text: Seq<char>) -> bool {
    text.len() == 0 || text.last() != '\0'
}

proof fn lemma_last_byte(last: char)
    requires
        last != '\0',
    ensures
        vstd::utf8::encode_scalar(last as u32).len() > 0,
        vstd::utf8::encode_scalar(last as u32).last() != 0,
{
    let c = last as u32;
    assert(c != 0);
    assert(c != 0 && c <= 0x7F ==> (c & 0x7F) as u8 != 0u8) by (bit_vector);
    assert(0x80u8 | (c & 0x3F) as u8 != 0u8) by (bit_vector);
}

proof fn lemma_encode_concat(a: Seq<char>, b: Seq<char>)
    ensures
        vstd::utf8::encode_utf8(a + b) == vstd::utf8::encode_utf8(a) + vstd::utf8::encode_utf8(b),
    decreases a.len(),
{
    if a.len() == 0 {
        assert(a + b =~= b);
        assert(vstd::utf8::encode_utf8(a) + vstd::utf8::encode_utf8(b) =~= vstd::utf8::encode_utf8(b));
    } else {
        lemma_encode_concat(a.drop_first(), b);
        assert((a + b).drop_first() =~= a.drop_first() + b);
        assert((a + b)[0] == a[0]);
        assert(vstd::utf8::encode_utf8(a + b) =~= vstd::utf8::encode_utf8(a)
            + vstd::utf8::encode_utf8(b));
    }
}

/// The text that arrives is the text that was sent, unless that ends in null characters, which
/// cannot be told from the fill.
pub proof fn law_text_arrives(text: Seq<char>, fill: nat)
    requires
        ends_plainly(text),
    ensures
        decoded_text(unfilled(vstd::utf8::encode_utf8(text) + poly::zeros(fill))) == Some(text),
{
    let bytes = vstd::utf8::encode_utf8(text);
    if text.len() > 0 {
        let front = text.drop_last();
        let c: char = text.last();
        let back = seq![c];
        assert(text =~= front + back);
        lemma_encode_concat(front, back);
        lemma_last_byte(c);
        assert(back.drop_first() =~= Seq::<char>::empty());
        assert(vstd::utf8::encode_utf8(back.drop_first()) =~= Seq::<u8>::empty());
        assert(vstd::utf8::encode_utf8(back) =~= vstd::utf8::encode_scalar(c as u32));
    }
    law_fill_is_cut(bytes, fill);
    vstd::utf8::encode_utf8_valid_utf8(text);
    vstd::utf8::encode_utf8_decode_utf8(text);
}

/// A piece holds the number of its message, the number of pieces and its own number, and then 28
/// bytes of the message or what is left of it.
#[verifier::spinoff_prover]
#[verifier::rlimit(30)]
pub proof fn law_what_a_piece_holds(bytes: Seq<u8>, id: u16, idx: int)
    requires
        is_short(bytes.len()),
        0 <= idx < pieces(bytes.len()),
    ensures
        ({
            let p = piece(bytes, id, idx);
            &&& p[0] * 256 + p[1] == id
            &&& p[2] == pieces(bytes.len())
            &&& p[3] == idx
            &&& p.len() <= 32
            &&& idx + 1 < pieces(bytes.len()) ==> p.len() == 32
            &&& 28 * idx + (p.len() - 4) <= bytes.len()
            &&& idx + 1 == pieces(bytes.len()) ==> 28 * idx + (p.len() - 4) == bytes.len()
            &&& p.skip(4) == bytes.subrange(28 * idx, 28 * idx + (p.len() - 4))
        }),
        28 * (pieces(bytes.len()) - 1) <= bytes.len() <= 28 * pieces(bytes.len()),
        bytes.len() > 0 ==> 28 * (pieces(bytes.len()) - 1) < bytes.len(),
{
    let n = bytes.len() as int;
    let count = pieces(bytes.len()) as int;
    let p = piece(bytes, id, idx);
    let t = piece_text(bytes, idx);
    assert(count == if n == 0 {
        1
    } else {
        (n + 27) / 28
    });
    assert(28 * idx <= n);
    assert(p.skip(4) =~= t);
    assert(p.len() == 4 + t.len());
    assert(idx + 1 < count ==> 28 * idx + 28 <= n);
    assert(idx + 1 == count ==> n <= 28 * idx + 28);
}

/// What is too short to be a piece is dropped. A piece of one message leaves the others alone.
pub proof fn law_messages_do_not_mix(partials: Map<u16, Partial>, inner: Seq<u8>, other: u16)
    ensures
        inner.len() < 4 ==> accepted(partials, inner) == (partials, None::<Seq<u8>>),
        inner.len() >= 4 && other != inner[0] * 256 + inner[1] ==> {
            let after = accepted(partials, inner).0;
            &&& after.contains_key(other) == partials.contains_key(other)
            &&& after[other] == partials[other]
        },
{
}

/// A piece that does not complete its message may come again: that changes nothing.
pub proof fn law_a_piece_may_come_twice(partials: Map<u16, Partial>, inner: Seq<u8>)
    requires
        accepted(partials, inner).1 is None,
    ensures
        accepted(accepted(partials, inner).0, inner) == accepted(partials, inner),
{
    if inner.len() >= 4 {
        let id = from_be16(inner[0], inner[1]);
        let p = with_piece(partials, inner);
        let once = accepted(partials, inner).0;
        let q = with_piece(once, inner);
        assert(once[id] == p);
        assert(q.chunks =~= p.chunks);
        assert(once.insert(id, q) =~= once);
    }
}

/// A message is given back when as many of its pieces have arrived as the first of them said, and
/// until then its pieces are kept.
pub proof fn law_when_a_message_is_complete(partials: Map<u16, Partial>, inner: Seq<u8>)
    requires
        inner.len() >= 4,
    ensures
        ({
            let id = (inner[0] * 256 + inner[1]) as u16;
            let known = partials.contains_key(id);
            let total = if known {
                partials[id].total
            } else {
                inner[2]
            };
            let chunks = (if known {
                partials[id].chunks
            } else {
                Map::empty()
            }).insert(inner[3], inner.skip(4));
            let (after, full) = accepted(partials, inner);
            &&& full is Some <==> chunks.len() % 256 >= total
            &&& full is Some ==> !after.contains_key(id)
            &&& full is None ==> after.contains_key(id) && after[id].total == total
                && after[id].chunks == chunks
        }),
{
}

/// A piece fills a block: four bytes of its own and 28 of the message. A message has at most 255
/// pieces, so that their number fits into a byte, and half of the 16 check bytes is the number of
/// errors repaired in each.
pub proof fn law_numbers_of_pieces()
    ensures
        CHUNK_LEN == 28,
        CHUNK_LEN + 4 == FEC_K,
        MAX_MESSAGE_LEN == 255 * CHUNK_LEN,
        FEC_NSYM == 16,
{
}

/// A message is what its pieces hold, in the order of their numbers; a number without a piece adds
/// nothing.
pub proof fn law_pieces_are_joined_in_order(chunks: Map<u8, Seq<u8>>, n: nat)
    requires
        n < 256,
    ensures
        gather(chunks, 0) == Seq::<u8>::empty(),
        chunks.contains_key(n as u8) ==> gather(chunks, n + 1) == gather(chunks, n)
            + chunks[n as u8],
        !chunks.contains_key(n as u8) ==> gather(chunks, n + 1) == gather(chunks, n),
{
}

} // verus!
