//! Forward error correction of a payload: Reed-Solomon words and a block interleaver.
//!
//! [`FecCodec`] cuts a payload into blocks of `k` bytes, encodes each into `k + nsym` bytes and
//! interleaves the words. The receiver learns the number of blocks from the length of the stream,
//! so this layer does not describe itself: what it gives back is filled up with zeros to whole
//! blocks, and whoever knows what was sent cuts the fill.

use vstd::prelude::*;
use vstd::slice::{slice_subrange, slice_to_vec};

pub mod forney;
pub mod galois;
pub mod gf;
pub mod interleave;
pub mod massey;
pub mod poly;
pub mod reed_solomon;
pub mod roots;
pub mod words;

pub use reed_solomon::{RsCodec, RsError};

verus! {

/// Why a stream was refused.
#[derive(Debug, Clone, Copy, PartialEq, Eq, Structural)]
pub enum FecError {
    /// The length is no multiple of the length of a codeword.
    Malformed,
    /// One of the words cannot be repaired.
    Rs(RsError),
}

/// A codec with a fixed geometry: `k` data bytes and `nsym` check bytes to a word.
#[derive(Debug, Clone)]
pub struct FecCodec {
    k: usize,
    rs: RsCodec,
}

/// The number of blocks of `k` bytes that hold `len` bytes, at least one.
pub open spec fn block_count(len: nat, k: nat) -> nat {
    if len == 0 {
        1
    } else {
        ((len + k - 1) / (k as int)) as nat
    }
}

/// The payload with zeros behind it up to a whole number of blocks.
pub open spec fn padded(payload: Seq<u8>, k: nat) -> Seq<u8> {
    payload + poly::zeros((block_count(payload.len(), k) * k - payload.len()) as nat)
}

/// The codeword of block `q` of the payload.
pub open spec fn word(payload: Seq<u8>, k: nat, nsym: nat, q: int) -> Seq<u8> {
    reed_solomon::codeword_of(padded(payload, k).subrange(q * k, q * k + k), nsym)
}

/// The codewords of all blocks of the payload.
pub open spec fn code_words(payload: Seq<u8>, k: nat, nsym: nat) -> Seq<Seq<u8>> {
    Seq::new(block_count(payload.len(), k), |q: int| word(payload, k, nsym, q))
}

/// The stream that a payload is sent as.
pub open spec fn encoded(payload: Seq<u8>, k: nat, nsym: nat) -> Seq<u8> {
    interleave::interleaved(code_words(payload, k, nsym), k + nsym)
}

/// The data of the words, one after the other, or the error of the first word that has one.
pub open spec fn gathered(words: Seq<Seq<u8>>, nsym: nat) -> Result<Seq<u8>, RsError>
    decreases words.len(),
{
    if words.len() == 0 {
        Ok(Seq::empty())
    } else {
        match gathered(words.drop_last(), nsym) {
            Ok(before) => match reed_solomon::decoded(words.last(), nsym) {
                Ok(data) => Ok(before + data),
                Err(error) => Err(error),
            },
            Err(error) => Err(error),
        }
    }
}

/// What a stream decodes to.
pub open spec fn stream_decoded(coded: Seq<u8>, k: nat, nsym: nat) -> Result<Seq<u8>, FecError> {
    if coded.len() == 0 || coded.len() % (k + nsym) != 0 {
        Err(FecError::Malformed)
    } else {
        match gathered(
            interleave::deinterleaved(coded, coded.len() / (k + nsym), k + nsym),
            nsym,
        ) {
            Ok(data) => Ok(data),
            Err(error) => Err(FecError::Rs(error)),
        }
    }
}

proof fn lemma_blocks(len: nat, k: nat)
    requires
        k > 0,
    ensures
        block_count(len, k) >= 1,
        block_count(len, k) * k >= len,
        len > 0 ==> (block_count(len, k) - 1) * k < len,
{
    let b = block_count(len, k) as int;
    if len > 0 {
        let n = len + k - 1;
        vstd::arithmetic::div_mod::lemma_fundamental_div_mod(n as int, k as int);
        assert(n / (k as int) >= 1) by (nonlinear_arith)
            requires
                n >= k,
                k > 0,
        ;
        assert(b * k >= len && (b - 1) * k < len) by (nonlinear_arith)
            requires
                n == k * b + n % (k as int),
                0 <= n % (k as int) < k,
                n == len + k - 1,
        ;
    }
}

/// The geometry of an encoded payload: as many words as blocks, each of them a codeword of its
/// block.
pub proof fn lemma_code_words(payload: Seq<u8>, k: nat, nsym: nat)
    requires
        k > 0,
    ensures
        padded(payload, k).len() == block_count(payload.len(), k) * k,
        padded(payload, k).take(payload.len() as int) == payload,
        interleave::rectangular(code_words(payload, k, nsym), k + nsym),
        encoded(payload, k, nsym).len() == (k + nsym) * block_count(payload.len(), k),
        forall|q: int|
            0 <= q < block_count(payload.len(), k) ==> reed_solomon::starts_codeword(
                padded(payload, k).subrange(q * k, q * k + k),
                nsym,
                #[trigger] code_words(payload, k, nsym)[q],
            ),
{
    lemma_blocks(payload.len(), k);
    let b = block_count(payload.len(), k);
    let p = padded(payload, k);
    assert(p.take(payload.len() as int) =~= payload);
    let ws = code_words(payload, k, nsym);
    assert forall|q: int| 0 <= q < b implies reed_solomon::starts_codeword(
        p.subrange(q * k, q * k + k),
        nsym,
        #[trigger] ws[q],
    ) by {
        reed_solomon::lemma_codeword_exists(p.subrange(q * k, q * k + k), nsym);
    }
    assert forall|q: int| 0 <= q < ws.len() implies (#[trigger] ws[q]).len() == k + nsym by {
        assert(0 <= q * k && q * k + k <= b * k) by (nonlinear_arith)
            requires
                0 <= q < b,
        ;
    }
}

/// Words that are each near enough to the codeword of their block give the padded payload back.
proof fn lemma_gathered(payload: Seq<u8>, k: nat, nsym: nat, got: Seq<Seq<u8>>, n: nat)
    requires
        k > 0,
        k + nsym <= 255,
        n <= block_count(payload.len(), k),
        got.len() == block_count(payload.len(), k),
        interleave::rectangular(got, k + nsym),
        forall|q: int|
            0 <= q < got.len() ==> 2 * words::distance(
                code_words(payload, k, nsym)[q],
                #[trigger] got[q],
            ) <= nsym,
    ensures
        gathered(got.take(n as int), nsym) == Ok::<Seq<u8>, RsError>(
            padded(payload, k).take((n * k) as int),
        ),
    decreases n,
{
    let p = padded(payload, k);
    lemma_code_words(payload, k, nsym);
    if n == 0 {
        assert(p.take((0 * k) as int) =~= Seq::<u8>::empty());
    } else {
        let m = (n - 1) as nat;
        lemma_gathered(payload, k, nsym, got, m);
        let t = got.take(n as int);
        assert(t.drop_last() =~= got.take(m as int));
        assert(t.last() == got[m as int]);
        let b = block_count(payload.len(), k);
        assert(m * k + k == n * k && n * k <= b * k && 0 <= m * k) by (nonlinear_arith)
            requires
                n == m + 1,
                n <= b,
        ;
        let msg = p.subrange(m * (k as int), m * (k as int) + k);
        let code = code_words(payload, k, nsym)[m as int];
        assert(got[m as int].len() == k + nsym);
        reed_solomon::law_repairs(msg, nsym, code, got[m as int]);
        assert(p.take((m * k) as int) + msg =~= p.take((n * k) as int));
    }
}

/// A stream in which every word holds no more errors than half of its check symbols decodes to
/// the padded payload.
pub proof fn law_stream_repaired(payload: Seq<u8>, k: nat, nsym: nat, coded: Seq<u8>)
    requires
        k > 0,
        k + nsym <= 255,
        coded.len() == encoded(payload, k, nsym).len(),
        forall|q: int|
            0 <= q < block_count(payload.len(), k) ==> 2 * words::distance(
                code_words(payload, k, nsym)[q],
                #[trigger] interleave::deinterleaved(
                    coded,
                    block_count(payload.len(), k),
                    k + nsym,
                )[q],
            ) <= nsym,
    ensures
        stream_decoded(coded, k, nsym) == Ok::<Seq<u8>, FecError>(padded(payload, k)),
{
    let n = k + nsym;
    let b = block_count(payload.len(), k);
    lemma_blocks(payload.len(), k);
    lemma_code_words(payload, k, nsym);
    vstd::arithmetic::div_mod::lemma_fundamental_div_mod_converse(
        coded.len() as int,
        n as int,
        b as int,
        0,
    );
    assert(coded.len() > 0) by (nonlinear_arith)
        requires
            coded.len() == n * b,
            n > 0,
            b > 0,
    ;
    let got = interleave::deinterleaved(coded, b, n);
    lemma_gathered(payload, k, nsym, got, b);
    assert(got.take(b as int) =~= got);
    assert(padded(payload, k).take((b * k) as int) =~= padded(payload, k));
}

/// A stream that arrives as it was sent decodes to the padded payload.
pub proof fn law_stream_roundtrip(payload: Seq<u8>, k: nat, nsym: nat)
    requires
        k > 0,
        k + nsym <= 255,
    ensures
        stream_decoded(encoded(payload, k, nsym), k, nsym) == Ok::<Seq<u8>, FecError>(
            padded(payload, k),
        ),
{
    lemma_code_words(payload, k, nsym);
    let ws = code_words(payload, k, nsym);
    interleave::law_deinterleave_interleave(ws, k + nsym);
    assert forall|q: int| 0 <= q < ws.len() implies words::distance(ws[q], #[trigger] ws[q]) == 0 by {
        reed_solomon::lemma_distance_self(ws[q]);
    }
    law_stream_repaired(payload, k, nsym, encoded(payload, k, nsym));
}

/// A burst no longer than the number of words times the errors that one word stands is repaired.
pub proof fn law_burst_survives(
    payload: Seq<u8>,
    k: nat,
    nsym: nat,
    coded: Seq<u8>,
    start: int,
    len: nat,
)
    requires
        k > 0,
        k + nsym <= 255,
        interleave::burst(encoded(payload, k, nsym), coded, start, len),
        len <= block_count(payload.len(), k) * (nsym / 2),
    ensures
        stream_decoded(coded, k, nsym) == Ok::<Seq<u8>, FecError>(padded(payload, k)),
{
    let b = block_count(payload.len(), k);
    let sent = encoded(payload, k, nsym);
    let ws = code_words(payload, k, nsym);
    lemma_blocks(payload.len(), k);
    lemma_code_words(payload, k, nsym);
    interleave::law_deinterleave_interleave(ws, k + nsym);
    let got = interleave::deinterleaved(coded, b, k + nsym);
    assert forall|q: int| 0 <= q < b implies 2 * words::distance(ws[q], #[trigger] got[q]) <= nsym by {
        interleave::law_burst_is_spread(sent, coded, start, len, b, k + nsym, q);
        let t = nsym / 2;
        let up = (len + b - 1) / (b as int);
        vstd::arithmetic::div_mod::lemma_fundamental_div_mod(len + b - 1, b as int);
        assert(up <= t) by (nonlinear_arith)
            requires
                len + b - 1 == b * up + (len + b - 1) % (b as int),
                (len + b - 1) % (b as int) >= 0,
                len <= b * t,
                b > 0,
        ;
    }
    law_stream_repaired(payload, k, nsym, coded);
}

impl FecCodec {
    pub closed spec fn data_len(&self) -> nat {
        self.k as nat
    }

    pub closed spec fn checks(&self) -> nat {
        self.rs.checks()
    }

    /// A block holds data, and a word at most 255 bytes.
    pub closed spec fn wf(&self) -> bool {
        &&& self.rs.wf()
        &&& self.k > 0
        &&& self.k + self.rs.checks() <= 255
    }

    /// `k` data bytes to a block and `nsym` check bytes, which repair half as many errors.
    pub fn new(k: usize, nsym: usize) -> (r: Self)
        requires
            k > 0,
            nsym > 0,
            k + nsym <= 255,
        ensures
            r.wf(),
            r.data_len() == k,
            r.checks() == nsym,
    {
        FecCodec { k, rs: RsCodec::new(nsym) }
    }

    pub fn block_data_len(&self) -> (r: usize)
        ensures
            r == self.data_len(),
    {
        self.k
    }

    pub fn block_code_len(&self) -> (r: usize)
        requires
            self.wf(),
        ensures
            r == self.data_len() + self.checks(),
    {
        self.k + self.rs.nsym()
    }

    fn blocks(&self, len: usize) -> (r: usize)
        requires
            self.wf(),
        ensures
            r == block_count(len as nat, self.data_len()),
    {
        if len == 0 {
            return 1;
        }
        let whole: usize = len / self.k;
        proof {
            let k = self.k as int;
            let n = len + k - 1;
            vstd::arithmetic::div_mod::lemma_fundamental_div_mod(len as int, k);
            let q = len as int / k;
            let m = len as int % k;
            assert(q * k == k * q) by (nonlinear_arith);
            assert((q + 1) * k == k * q + k) by (nonlinear_arith);
            if m == 0 {
                vstd::arithmetic::div_mod::lemma_fundamental_div_mod_converse(n, k, q, k - 1);
            } else {
                vstd::arithmetic::div_mod::lemma_fundamental_div_mod_converse(n, k, q + 1, m - 1);
                assert(q < len) by (nonlinear_arith)
                    requires
                        len == k * q + m,
                        m > 0,
                        k > 0,
                        q >= 0,
                ;
            }
        }
        if len % self.k != 0 {
            whole + 1
        } else {
            whole
        }
    }

    /// The length of the stream that a payload of the given length is sent as.
    pub fn encoded_len(&self, payload_len: usize) -> (r: usize)
        requires
            self.wf(),
            block_count(payload_len as nat, self.data_len()) * (self.data_len() + self.checks())
                <= usize::MAX,
        ensures
            r == block_count(payload_len as nat, self.data_len()) * (self.data_len()
                + self.checks()),
            forall|payload: Seq<u8>| #[trigger]
                encoded(payload, self.data_len(), self.checks()).len() == r || payload.len()
                    != payload_len,
    {
        let blocks: usize = self.blocks(payload_len);
        let n: usize = self.block_code_len();
        proof {
            assert forall|payload: Seq<u8>| payload.len() == payload_len implies #[trigger] encoded(
                payload,
                self.data_len(),
                self.checks(),
            ).len() == blocks * n by {
                lemma_code_words(payload, self.data_len(), self.checks());
                vstd::arithmetic::mul::lemma_mul_is_commutative(blocks as int, n as int);
            }
        }
        blocks * n
    }

    /// Pads the payload with zeros to whole blocks, encodes each block and interleaves the words.
    pub fn encode(&self, payload: &[u8]) -> (r: Vec<u8>)
        requires
            self.wf(),
            block_count(payload@.len(), self.data_len()) * (self.data_len() + self.checks())
                <= usize::MAX,
        ensures
            r@ == encoded(payload@, self.data_len(), self.checks()),
    {
        let ghost k = self.k as nat;
        let ghost nsym = self.checks();
        let num_blocks: usize = self.blocks(payload.len());
        proof {
            lemma_blocks(payload@.len(), k);
            lemma_code_words(payload@, k, nsym);
            assert(num_blocks * self.k <= num_blocks * (k + nsym)) by (nonlinear_arith)
                requires
                    self.k == k,
            ;
        }
        let mut pad: Vec<u8> = slice_to_vec(payload);
        pad.resize(num_blocks * self.k, 0);
        assert(pad@ =~= padded(payload@, k));
        let mut words: Vec<Vec<u8>> = Vec::new();
        let mut q: usize = 0;
        while q < num_blocks
            invariant
                q <= num_blocks,
                self.wf(),
                k == self.k,
                nsym == self.checks(),
                num_blocks == block_count(payload@.len(), k),
                pad@ == padded(payload@, k),
                pad@.len() == num_blocks * k,
                num_blocks * k <= usize::MAX,
                words@.len() == q,
                forall|i: int| 0 <= i < q ==> (#[trigger] words@[i])@ == word(payload@, k, nsym, i),
            decreases num_blocks - q,
        {
            proof {
                assert(0 <= q * k && q * k + k <= num_blocks * k) by (nonlinear_arith)
                    requires
                        0 <= q < num_blocks,
                ;
            }
            let from: usize = q * self.k;
            let chunk: &[u8] = slice_subrange(pad.as_slice(), from, from + self.k);
            let coded: Vec<u8> = self.rs.encode(chunk);
            words.push(coded);
            q += 1;
        }
        assert(interleave::rows_of(words@) =~= code_words(payload@, k, nsym));
        proof {
            assert(code_words(payload@, k, nsym)[0].len() == k + nsym);
            assert(words@[0]@ == interleave::rows_of(words@)[0]);
        }
        interleave::interleave(words.as_slice())
    }

    /// Repairs a stream and returns the data of its blocks, with the zeros that fill the last of
    /// them. The caller cuts those.
    pub fn decode(&self, coded: &[u8]) -> (r: Result<Vec<u8>, FecError>)
        requires
            self.wf(),
        ensures
            (match r {
                Ok(data) => Ok(data@),
                Err(error) => Err(error),
            }) == stream_decoded(coded@, self.data_len(), self.checks()),
    {
        let n: usize = self.block_code_len();
        let ghost nsym = self.checks();
        if coded.len() == 0 || coded.len() % n != 0 {
            return Err(FecError::Malformed);
        }
        let num_blocks: usize = coded.len() / n;
        proof {
            vstd::arithmetic::div_mod::lemma_fundamental_div_mod(coded@.len() as int, n as int);
            vstd::arithmetic::mul::lemma_mul_is_commutative(num_blocks as int, n as int);
        }
        let words: Vec<Vec<u8>> = interleave::deinterleave(coded, num_blocks, n);
        let ghost rows = interleave::rows_of(words@);
        let mut out: Vec<u8> = Vec::new();
        let mut q: usize = 0;
        while q < words.len()
            invariant
                q <= words@.len(),
                self.wf(),
                nsym == self.checks(),
                n == self.data_len() + nsym,
                rows == interleave::rows_of(words@),
                interleave::rectangular(rows, n as nat),
                stream_decoded(coded@, self.data_len(), nsym) == (match gathered(rows, nsym) {
                    Ok(data) => Ok::<Seq<u8>, FecError>(data),
                    Err(error) => Err(FecError::Rs(error)),
                }),
                gathered(rows.take(q as int), nsym) == Ok::<Seq<u8>, RsError>(out@),
            decreases words@.len() - q,
        {
            proof {
                assert(rows[q as int].len() == n);
                assert(rows.take(q + 1).drop_last() =~= rows.take(q as int));
            }
            match self.rs.decode(&words[q]) {
                Ok(data) => {
                    let ghost before = out@;
                    out.extend_from_slice(&data);
                    assert(out@ =~= before + data@);
                },
                Err(error) => {
                    proof {
                        lemma_first_error(rows, nsym, (q + 1) as nat);
                    }
                    return Err(FecError::Rs(error));
                },
            }
            q += 1;
        }
        assert(rows.take(q as int) =~= rows);
        Ok(out)
    }
}

proof fn lemma_first_error(rows: Seq<Seq<u8>>, nsym: nat, n: nat)
    requires
        n <= rows.len(),
        gathered(rows.take(n as int), nsym) is Err,
    ensures
        gathered(rows, nsym) == gathered(rows.take(n as int), nsym),
    decreases rows.len() - n,
{
    if n == rows.len() {
        assert(rows.take(n as int) =~= rows);
    } else {
        assert(rows.take((n + 1) as int).drop_last() =~= rows.take(n as int));
        lemma_first_error(rows, nsym, n + 1);
    }
}

/// A payload takes as few blocks as hold it, and an empty one takes one. The fill behind it is zero
/// and shorter than a block, unless the payload is empty.
pub proof fn law_fewest_blocks(payload: Seq<u8>, k: nat)
    requires
        k > 0,
    ensures
        ({
            let n = payload.len();
            let sent = padded(payload, k);
            &&& sent.len() == block_count(n, k) * k
            &&& n <= sent.len()
            &&& n > 0 ==> sent.len() < n + k
            &&& n == 0 ==> sent.len() == k
            &&& sent.take(n as int) == payload
            &&& forall|i: int| n <= i < sent.len() ==> #[trigger] sent[i] == 0
        }),
{
    let n = payload.len();
    let b = block_count(n, k);
    lemma_blocks(n, k);
    lemma_code_words(payload, k, 1);
    assert((b - 1) * k == b * k - k) by (nonlinear_arith);
    if n == 0 {
        assert(b * k == k) by (nonlinear_arith)
            requires
                b == 1,
        ;
    }
}

/// A stream is malformed exactly if it is empty or no whole number of words.
pub proof fn law_malformed_streams(coded: Seq<u8>, k: nat, nsym: nat)
    requires
        k > 0,
    ensures
        stream_decoded(coded, k, nsym) == Err::<Seq<u8>, FecError>(FecError::Malformed)
            <==> coded.len() == 0 || coded.len() % (k + nsym) != 0,
{
}

/// The words of a stream are decoded one after the other: what they hold is joined in their order,
/// and the first that cannot be repaired gives the error.
pub proof fn law_words_are_joined(words: Seq<Seq<u8>>, next: Seq<u8>, nsym: nat)
    ensures
        gathered(Seq::empty(), nsym) == Ok::<Seq<u8>, RsError>(Seq::empty()),
        gathered(words, nsym) is Err ==> gathered(words.push(next), nsym) == gathered(words, nsym),
        gathered(words, nsym) is Ok && reed_solomon::decoded(next, nsym) is Err ==> gathered(
            words.push(next),
            nsym,
        ) == Err::<Seq<u8>, RsError>(reed_solomon::decoded(next, nsym)->Err_0),
        gathered(words, nsym) is Ok && reed_solomon::decoded(next, nsym) is Ok ==> gathered(
            words.push(next),
            nsym,
        ) == Ok::<Seq<u8>, RsError>(
            gathered(words, nsym)->Ok_0 + reed_solomon::decoded(next, nsym)->Ok_0,
        ),
{
    assert(words.push(next).drop_last() =~= words);
}

} // verus!
