//! Reed-Solomon codes over GF(256): a systematic encoder and a decoder that corrects errors, by
//! syndromes, the recurrence of Berlekamp and Massey, the root search of Chien and the magnitudes
//! of Forney.
//!
//! Errors of an acoustic demodulator come in symbols, not in bits: one bad peak or one bad
//! subcarrier spoils one symbol, which this code repairs as one error. A word with more errors
//! than can be repaired is refused and never passed on silently wrong beyond what the distance
//! of the code allows: the retransmission above relies on that.
//!
//! `nsym` is the number of check bytes. Half of them is the number of errors that are repaired.

use vstd::prelude::*;
use vstd::slice::{slice_subrange, slice_to_vec};
use crate::fec::forney;
use crate::fec::galois;
use crate::fec::gf;
use crate::fec::massey;
use crate::fec::poly;
use crate::fec::roots;
use crate::fec::words;

verus! {

/// Why a word was refused.
#[derive(Debug, Clone, Copy, PartialEq, Eq, Structural)]
pub enum RsError {
    /// The locator has a degree above the number of errors that can be repaired.
    TooManyErrors,
    /// The locator does not split into positions of the word, or the repaired word is no
    /// codeword.
    Uncorrectable,
}

/// A code with a fixed number of check symbols.
#[derive(Debug, Clone)]
pub struct RsCodec {
    nsym: usize,
    gen: Vec<u8>,
}

/// The first `n` powers of the generator of the field.
pub open spec fn alphas(n: nat) -> Seq<u8> {
    Seq::new(n, |i: int| gf::alpha(i as nat))
}

/// `code` is the codeword that `word` is decoded to: no more than half of `nsym` positions away.
pub open spec fn decodes_to(word: Seq<u8>, nsym: nat, code: Seq<u8>) -> bool {
    &&& code.len() == word.len()
    &&& words::is_codeword(code, nsym)
    &&& 2 * words::distance(code, word) <= nsym
}

/// The codeword with `nsym` check symbols that starts with `msg`.
pub open spec fn codeword_of(msg: Seq<u8>, nsym: nat) -> Seq<u8> {
    choose|code: Seq<u8>| #[trigger] starts_codeword(msg, nsym, code)
}

/// `code` is a codeword made of `msg` and `nsym` check symbols.
pub open spec fn starts_codeword(msg: Seq<u8>, nsym: nat, code: Seq<u8>) -> bool {
    &&& code.len() == msg.len() + nsym
    &&& code.take(msg.len() as int) == msg
    &&& words::is_codeword(code, nsym)
}

/// What decoding a word with `nsym` check symbols gives: the data symbols of the codeword that is
/// near enough, if there is one, or the reason why there is none.
pub open spec fn decoded(word: Seq<u8>, nsym: nat) -> Result<Seq<u8>, RsError> {
    if exists|code: Seq<u8>| #[trigger] decodes_to(word, nsym, code) {
        let code = choose|code: Seq<u8>| #[trigger] decodes_to(word, nsym, code);
        Ok(code.take(word.len() - nsym))
    } else if 2 * (massey::locator(words::syndromes(word, nsym)).len() - 1) > nsym {
        Err(RsError::TooManyErrors)
    } else {
        Err(RsError::Uncorrectable)
    }
}

/// Every message has a codeword.
pub proof fn lemma_codeword_exists(msg: Seq<u8>, nsym: nat)
    ensures
        starts_codeword(msg, nsym, codeword_of(msg, nsym)),
    decreases msg.len(),
{
    if msg.len() == 0 {
        let code = poly::zeros(nsym);
        assert(code.take(0) =~= msg);
        assert(code + Seq::<u8>::empty() =~= code);
        assert forall|k: int| 0 <= k < nsym implies #[trigger] poly::value(code, gf::alpha(k as nat)) == 0 by {
            poly::lemma_value_leading_zeros(nsym, Seq::empty(), gf::alpha(k as nat));
        }
        assert(starts_codeword(msg, nsym, code));
    } else {
        // a multiple of the generator polynomial with the first symbol, and a codeword for what
        // is left of the others
        let m = (msg.len() - 1) as nat;
        let gen = roots::monic(alphas(nsym));
        roots::lemma_monic(alphas(nsym));
        let head = poly::scaled(gen, msg[0]) + poly::zeros(m);
        let left = Seq::new(m, |i: int| msg[i + 1] ^ head[i + 1]);
        lemma_codeword_exists(left, nsym);
        let rest = codeword_of(left, nsym);
        let tail = poly::zeros(1) + rest;
        let code = poly::xor_seq(head, tail);
        assert(code.take(msg.len() as int) =~= msg) by {
            assert forall|i: int| 0 <= i < msg.len() implies code[i] == msg[i] by {
                gf::lemma_xor(msg[0], 0, 0);
                gf::lemma_mul_unit(msg[0]);
                if i > 0 {
                    assert(rest.take(m as int)[i - 1] == left[i - 1]);
                    gf::lemma_xor(head[i], msg[i], 0);
                    gf::lemma_xor(msg[i], head[i], 0);
                }
            }
        }
        assert forall|k: int| 0 <= k < nsym implies #[trigger] poly::value(code, gf::alpha(k as nat)) == 0 by {
            let x = gf::alpha(k as nat);
            poly::lemma_value_xor(head, tail, x);
            poly::lemma_value_trailing_zeros(poly::scaled(gen, msg[0]), m, x);
            poly::lemma_value_scaled(gen, msg[0], x);
            poly::lemma_value_leading_zeros(1, rest, x);
            lemma_generator_root(nsym, k);
            assert(poly::value(rest, gf::alpha(k as nat)) == 0);
            gf::lemma_mul_unit(msg[0]);
            gf::lemma_mul_unit(gf::power(x, m));
            gf::lemma_xor(0, 0, 0);
        }
        assert(starts_codeword(msg, nsym, code));
    }
}

/// A message has only one codeword.
pub proof fn law_systematic(msg: Seq<u8>, nsym: nat, code: Seq<u8>)
    requires
        msg.len() + nsym <= 255,
        starts_codeword(msg, nsym, code),
    ensures
        code == codeword_of(msg, nsym),
{
    let other = codeword_of(msg, nsym);
    assert(starts_codeword(msg, nsym, other));
    if code != other {
        words::law_minimum_distance(code, other, nsym);
        let pos = Seq::new(nsym, |m: int| msg.len() + m);
        let w = poly::xor_seq(code, other);
        assert forall|i: int| 0 <= i < w.len() && #[trigger] w[i] != 0 implies pos.contains(i) by {
            if i < msg.len() {
                assert(code.take(msg.len() as int)[i] == other.take(msg.len() as int)[i]);
                gf::lemma_xor(code[i], other[i], 0);
            } else {
                assert(pos[i - msg.len()] == i);
            }
        }
        words::lemma_support_covered(w, pos);
    }
}

/// A codeword with errors in no more than half of `nsym` positions decodes to its message.
pub proof fn law_repairs(msg: Seq<u8>, nsym: nat, code: Seq<u8>, word: Seq<u8>)
    requires
        msg.len() + nsym <= 255,
        starts_codeword(msg, nsym, code),
        word.len() == code.len(),
        2 * words::distance(code, word) <= nsym,
    ensures
        decoded(word, nsym) == Ok::<Seq<u8>, RsError>(msg),
{
    assert(decodes_to(word, nsym, code));
    let other = choose|code: Seq<u8>| #[trigger] decodes_to(word, nsym, code);
    words::law_unique_decoding(word, code, other, nsym);
}

/// Whatever a word decodes to encodes to a codeword that is near it, and no other word's data is
/// ever returned: a decoded message is the one and only with a codeword near enough.
pub proof fn law_sound(word: Seq<u8>, nsym: nat)
    requires
        nsym <= word.len() <= 255,
    ensures
        match decoded(word, nsym) {
            Ok(data) => starts_codeword(data, nsym, codeword_of(data, nsym)) && 2 * words::distance(
                codeword_of(data, nsym),
                word,
            ) <= nsym,
            Err(_) => forall|msg: Seq<u8>, code: Seq<u8>| #[trigger]
                starts_codeword(msg, nsym, code) && code.len() == word.len() ==> 2
                    * words::distance(code, word) > nsym,
        },
{
    if exists|code: Seq<u8>| #[trigger] decodes_to(word, nsym, code) {
        let code = choose|code: Seq<u8>| #[trigger] decodes_to(word, nsym, code);
        let data = code.take(word.len() - nsym);
        assert(starts_codeword(data, nsym, code));
        law_systematic(data, nsym, code);
    } else {
        assert forall|msg: Seq<u8>, code: Seq<u8>| #[trigger]
            starts_codeword(msg, nsym, code) && code.len() == word.len() implies 2
            * words::distance(code, word) > nsym by {
            assert(!decodes_to(word, nsym, code));
        }
    }
}

/// The exponents below `n` at whose powers of the generator `p` is zero, in order.
pub open spec fn root_exponents(p: Seq<u8>, n: nat) -> Seq<int>
    decreases n,
{
    if n == 0 {
        Seq::empty()
    } else if poly::value(p, gf::alpha((n - 1) as nat)) == 0 {
        root_exponents(p, (n - 1) as nat).push(n - 1)
    } else {
        root_exponents(p, (n - 1) as nat)
    }
}

spec fn ints(v: Seq<usize>) -> Seq<int> {
    Seq::new(v.len(), |m: int| v[m] as int)
}

proof fn lemma_root_exponents(p: Seq<u8>, n: nat)
    ensures
        words::positions(root_exponents(p, n), n),
        forall|i: int|
            0 <= i < n ==> (#[trigger] root_exponents(p, n).contains(i) <==> poly::value(
                p,
                gf::alpha(i as nat),
            ) == 0),
    decreases n,
{
    if n > 0 {
        let m = (n - 1) as nat;
        lemma_root_exponents(p, m);
        let s = root_exponents(p, n);
        let t = root_exponents(p, m);
        assert forall|j: int| 0 <= j < t.len() implies 0 <= #[trigger] t[j] < m by {}
        assert forall|i: int| 0 <= i < n implies (#[trigger] s.contains(i) <==> poly::value(
            p,
            gf::alpha(i as nat),
        ) == 0) by {
            if s.contains(i) && i < m {
                let j = choose|j: int| 0 <= j < s.len() && s[j] == i;
                assert(t[j] == i);
                assert(t.contains(i));
            }
            if i < m && t.contains(i) {
                let j = choose|j: int| 0 <= j < t.len() && t[j] == i;
                assert(s[j] == i);
            }
            if i == m && poly::value(p, gf::alpha(m)) == 0 {
                assert(s[s.len() - 1] == i);
            }
            if i == m && s.contains(i) && s == t {
                let j = choose|j: int| 0 <= j < t.len() && t[j] == i;
                assert(0 <= t[j] < m);
            }
        }
        assert forall|i: int, j: int| 0 <= i < s.len() && 0 <= j < s.len() && i != j implies s[i]
            != s[j] by {
            if i < t.len() {
                assert(0 <= t[i] < m);
            }
            if j < t.len() {
                assert(0 <= t[j] < m);
            }
        }
        assert forall|j: int| 0 <= j < s.len() implies 0 <= #[trigger] s[j] < n by {
            if j < t.len() {
                assert(0 <= t[j] < m);
            }
        }
    }
}

/// The positions of a word of length `n` that belong to exponents.
spec fn mirrored(exps: Seq<int>, n: nat) -> Seq<int> {
    Seq::new(exps.len(), |m: int| n - 1 - exps[m])
}

proof fn lemma_mirrored(exps: Seq<int>, n: nat)
    requires
        words::positions(exps, n),
    ensures
        words::positions(mirrored(exps, n), n),
{
    let pos = mirrored(exps, n);
    assert forall|m: int| 0 <= m < pos.len() implies 0 <= #[trigger] pos[m] < n by {
        assert(0 <= exps[m] < n);
    }
    assert forall|i: int, j: int| 0 <= i < pos.len() && 0 <= j < pos.len() && i != j implies pos[i]
        != pos[j] by {
        assert(exps[i] != exps[j]);
    }
}

/// The syndromes of a word are those of what it differs from a codeword by.
proof fn lemma_error_syndromes(word: Seq<u8>, code: Seq<u8>, nsym: nat)
    requires
        code.len() == word.len(),
        words::is_codeword(code, nsym),
    ensures
        words::syndromes(word, nsym) == words::syndromes(poly::xor_seq(code, word), nsym),
{
    let s = words::syndromes(word, nsym);
    let w = poly::xor_seq(code, word);
    assert forall|k: int| 0 <= k < nsym implies s[k] == words::syndromes(w, nsym)[k] by {
        let x = gf::alpha(k as nat);
        poly::lemma_value_xor(code, word, x);
        assert(poly::value(code, gf::alpha(k as nat)) == 0);
        gf::lemma_xor(poly::value(word, x), 0, 0);
    }
    assert(s =~= words::syndromes(w, nsym));
}

proof fn lemma_error_locator(word: Seq<u8>, code: Seq<u8>, nsym: nat)
    requires
        word.len() <= 255,
        decodes_to(word, nsym, code),
    ensures
        ({
            let sup = words::support(poly::xor_seq(code, word));
            let l = massey::locator(words::syndromes(word, nsym));
            &&& l.len() == sup.len() + 1
            &&& forall|x: u8| poly::value(#[trigger] l.reverse(), x) == 0 <==> words::locators(
                sup,
                word.len(),
            ).contains(x)
        }),
{
    let n = word.len();
    let s = words::syndromes(word, nsym);
    let w = poly::xor_seq(code, word);
    let sup = words::support(w);
    words::lemma_support(w);
    lemma_error_syndromes(word, code, nsym);
    words::lemma_syndromes(w, sup, nsym);
    words::lemma_locators(sup, n);
    let ys = words::values_at(w, sup);
    assert(!ys.contains(0)) by {
        if ys.contains(0) {
            let m = choose|m: int| 0 <= m < ys.len() && ys[m] == 0;
            assert(w[sup[m]] != 0);
        }
    }
    massey::lemma_locator_complete(s, words::locators(sup, n), ys);
}

/// `l` locates the errors of a word: it has one coefficient more than there are errors, a constant
/// term of one and no leading zero, and position `p` is in error exactly if the inverse of its
/// power of the generator is a root.
pub open spec fn locates(l: Seq<u8>, word: Seq<u8>, code: Seq<u8>) -> bool {
    &&& l.len() == words::distance(code, word) + 1
    &&& l.last() == 1
    &&& l[0] != 0
    &&& forall|p: int|
        0 <= p < word.len() ==> (poly::value(
            l,
            gf::inv(gf::alpha((word.len() - 1 - p) as nat)),
        ) == 0 <==> #[trigger] word[p] != code[p])
}

/// Where a codeword is near enough, the recurrence of the syndromes locates the errors.
pub proof fn law_locator_finds_the_errors(word: Seq<u8>, code: Seq<u8>, nsym: nat)
    requires
        word.len() <= 255,
        decodes_to(word, nsym, code),
    ensures
        locates(massey::locator(words::syndromes(word, nsym)), word, code),
{
    let n = word.len();
    let s = words::syndromes(word, nsym);
    let w = poly::xor_seq(code, word);
    let sup = words::support(w);
    let xs = words::locators(sup, n);
    let l = massey::locator(s);
    words::lemma_support(w);
    lemma_error_locator(word, code, nsym);
    massey::lemma_search(s, nsym);
    assert(s.len() == nsym);
    massey::lemma_trimmed_last(massey::search(s, nsym).0);
    massey::lemma_trimmed_len(massey::search(s, nsym).0);
    assert forall|p: int| 0 <= p < n implies (poly::value(
        l,
        gf::inv(gf::alpha((n - 1 - p) as nat)),
    ) == 0 <==> #[trigger] word[p] != code[p]) by {
        let x = gf::alpha((n - 1 - p) as nat);
        gf::lemma_alpha_nonzero((n - 1 - p) as nat);
        let back = l.reverse();
        assert(back.reverse() =~= l);
        poly::lemma_value_reverse(back, x);
        gf::lemma_power_nonzero(x, (back.len() - 1) as nat);
        gf::lemma_no_zero_divisors(
            poly::value(l, gf::inv(x)),
            gf::power(x, (back.len() - 1) as nat),
        );
        gf::lemma_mul_unit(gf::power(x, (back.len() - 1) as nat));
        gf::lemma_xor(code[p], word[p], 0);
        assert(w[p] == code[p] ^ word[p]);
        if word[p] != code[p] {
            let m = choose|m: int| 0 <= m < sup.len() && sup[m] == p;
            assert(xs[m] == x);
        } else if xs.contains(x) {
            let m = choose|m: int| 0 <= m < xs.len() && xs[m] == x;
            assert(0 <= sup[m] < n);
            gf::lemma_alpha_injective((n - 1 - sup[m]) as nat, (n - 1 - p) as nat);
            assert(w[sup[m]] != 0);
        }
    }
}

/// Where a codeword is near enough, the locator finds its degree's worth of roots, and they are
/// the positions of the errors.
proof fn lemma_positions_found(word: Seq<u8>, code: Seq<u8>, nsym: nat)
    requires
        word.len() <= 255,
        decodes_to(word, nsym, code),
    ensures
        ({
            let s = words::syndromes(word, nsym);
            let l = massey::locator(s);
            let exps = root_exponents(l.reverse(), word.len());
            let pos = mirrored(exps, word.len());
            let w = poly::xor_seq(code, word);
            &&& 2 * (l.len() - 1) <= nsym
            &&& exps.len() == l.len() - 1
            &&& words::covers(pos, w)
            &&& massey::power_sums(
                s,
                words::locators(pos, word.len()),
                words::values_at(w, pos),
            )
        }),
{
    let n = word.len();
    let s = words::syndromes(word, nsym);
    let w = poly::xor_seq(code, word);
    let sup = words::support(w);
    words::lemma_support(w);
    lemma_error_syndromes(word, code, nsym);
    lemma_error_locator(word, code, nsym);
    let xs = words::locators(sup, n);
    let l = massey::locator(s);
    let exps = root_exponents(l.reverse(), n);
    let pos = mirrored(exps, n);
    lemma_root_exponents(l.reverse(), n);
    lemma_mirrored(exps, n);
    assert forall|i: int| 0 <= i < w.len() && #[trigger] w[i] != 0 implies pos.contains(i) by {
        let m = choose|m: int| 0 <= m < sup.len() && sup[m] == i;
        assert(xs[m] == gf::alpha((n - 1 - i) as nat));
        assert(xs.contains(gf::alpha((n - 1 - i) as nat)));
        assert(poly::value(l.reverse(), gf::alpha((n - 1 - i) as nat)) == 0);
        let q = n - 1 - i;
        assert(exps.contains(q));
        let j = choose|j: int| 0 <= j < exps.len() && exps[j] == q;
        assert(pos[j] == i);
    }
    words::lemma_support_covered(w, pos);
    // and conversely every position found is one of an error
    pos.unique_seq_to_set();
    sup.lemma_cardinality_of_set();
    assert(pos.to_set().subset_of(sup.to_set())) by {
        assert forall|i: int| pos.to_set().contains(i) implies sup.to_set().contains(i) by {
            let j = choose|j: int| 0 <= j < pos.len() && pos[j] == i;
            assert(0 <= exps[j] < n);
            assert(exps.contains(exps[j]));
            assert(poly::value(l.reverse(), gf::alpha(exps[j] as nat)) == 0);
            assert(xs.contains(gf::alpha(exps[j] as nat)));
            let m = choose|m: int| 0 <= m < xs.len() && xs[m] == gf::alpha(exps[j] as nat);
            assert(0 <= sup[m] < n);
            gf::lemma_alpha_injective((n - 1 - sup[m]) as nat, exps[j] as nat);
            assert(sup[m] == i);
        }
    }
    vstd::set_lib::lemma_len_subset(pos.to_set(), sup.to_set());
    words::lemma_syndromes(w, pos, nsym);
}

impl RsCodec {
    /// The number of check symbols.
    pub closed spec fn checks(&self) -> nat {
        self.nsym as nat
    }

    /// The number of check symbols is between 0 and 255, and the generator polynomial has the
    /// first powers of the generator of the field as its roots.
    pub closed spec fn wf(&self) -> bool {
        &&& 0 < self.nsym < 255
        &&& self.gen@ == roots::monic(alphas(self.nsym as nat))
    }

    /// A code with `nsym` check bytes, which repairs up to half as many errors.
    pub fn new(nsym: usize) -> (r: Self)
        requires
            0 < nsym < 255,
        ensures
            r.wf(),
            r.checks() == nsym,
    {
        RsCodec { nsym, gen: generator_poly(nsym) }
    }

    pub fn nsym(&self) -> (r: usize)
        ensures
            r == self.checks(),
    {
        self.nsym
    }

    /// The number of errors that are repaired.
    pub fn max_correctable(&self) -> (r: usize)
        ensures
            r == self.checks() / 2,
    {
        self.nsym / 2
    }

    /// Appends the check bytes to `msg`: the one codeword that starts with it.
    pub fn encode(&self, msg: &[u8]) -> (r: Vec<u8>)
        requires
            self.wf(),
            msg@.len() + self.checks() <= 255,
        ensures
            starts_codeword(msg@, self.checks(), r@),
            r@ == codeword_of(msg@, self.checks()),
    {
        let gen: &Vec<u8> = &self.gen;
        let ghost nsym = self.nsym as nat;
        let ghost start = msg@ + poly::zeros(nsym);
        let ghost n = start.len() as int;
        proof {
            roots::lemma_monic(alphas(nsym));
        }
        let mut out: Vec<u8> = slice_to_vec(msg);
        let mut z: usize = 0;
        while z < self.nsym
            invariant
                z <= self.nsym,
                out@ == msg@ + poly::zeros(z as nat),
            decreases self.nsym - z,
        {
            out.push(0);
            z += 1;
            assert(out@ =~= msg@ + poly::zeros(z as nat));
        }
        let mut i: usize = 0;
        assert(poly::zeros(0) + out@.subrange(0, n) =~= start);
        while i < msg.len()
            invariant
                i <= msg@.len(),
                n == msg@.len() + nsym,
                n <= 255,
                nsym == self.nsym,
                out@.len() == n,
                gen@ == roots::monic(alphas(nsym)),
                gen@.len() == nsym + 1,
                gen@[0] == 1,
                forall|k: int|
                    0 <= k < nsym ==> poly::value(
                        poly::zeros(i as nat) + out@.subrange(i as int, n),
                        #[trigger] gf::alpha(k as nat),
                    ) == poly::value(start, gf::alpha(k as nat)),
            decreases msg@.len() - i,
        {
            let coef: u8 = out[i];
            let ghost out0 = out@;
            if coef != 0 {
                let mut j: usize = 1;
                while j < gen.len()
                    invariant
                        1 <= j <= gen@.len(),
                        i + gen@.len() <= n <= 255,
                        out@.len() == n,
                        out0.len() == n,
                        coef == out0[i as int],
                        forall|k: int|
                            0 <= k < n ==> out@[k] == if i < k < i + j {
                                out0[k] ^ gf::prod(gen@[k - i], coef)
                            } else {
                                out0[k]
                            },
                    decreases gen@.len() - j,
                {
                    out[i + j] = out[i + j] ^ crate::fec::galois::mul(gen[j], coef);
                    j += 1;
                }
            }
            proof {
                let before = poly::zeros(i as nat) + out0.subrange(i as int, n);
                let after = poly::zeros((i + 1) as nat) + out@.subrange(i + 1, n);
                let tail = (n - i - gen@.len()) as nat;
                let sub = poly::zeros(i as nat) + (poly::scaled(gen@, coef) + poly::zeros(tail));
                assert(after =~= poly::xor_seq(before, sub)) by {
                    assert forall|k: int| 0 <= k < n implies after[k] == before[k] ^ sub[k] by {
                        gf::lemma_xor(before[k], 0, 0);
                        gf::lemma_xor(0, 0, 0);
                        gf::lemma_mul_unit(coef);
                        gf::lemma_xor(coef, coef, 0);
                        if i <= k < i + gen@.len() {
                            gf::lemma_mul_unit(gen@[k - i]);
                        }
                    }
                }
                assert forall|k: int| 0 <= k < nsym implies poly::value(
                    after,
                    #[trigger] gf::alpha(k as nat),
                ) == poly::value(start, gf::alpha(k as nat)) by {
                    let x = gf::alpha(k as nat);
                    poly::lemma_value_xor(before, sub, x);
                    poly::lemma_value_leading_zeros(
                        i as nat,
                        poly::scaled(gen@, coef) + poly::zeros(tail),
                        x,
                    );
                    poly::lemma_value_trailing_zeros(poly::scaled(gen@, coef), tail, x);
                    poly::lemma_value_scaled(gen@, coef, x);
                    lemma_generator_root(nsym, k);
                    gf::lemma_mul_unit(coef);
                    gf::lemma_mul_unit(gf::power(x, tail));
                    gf::lemma_xor(poly::value(before, x), 0, 0);
                }
            }
            i += 1;
        }
        let ghost rem = out@.subrange(i as int, n);
        let mut c: usize = 0;
        while c < msg.len()
            invariant
                c <= msg@.len(),
                n == msg@.len() + nsym,
                out@.len() == n,
                out@.take(c as int) == msg@.take(c as int),
                out@.subrange(msg@.len() as int, n) == rem,
            decreases msg@.len() - c,
        {
            let ghost prev = out@;
            out[c] = msg[c];
            c += 1;
            assert(out@.take(c as int) =~= msg@.take(c as int)) by {
                assert forall|k: int| 0 <= k < c implies out@[k] == msg@[k] by {
                    if k < c - 1 {
                        assert(prev.take(c - 1)[k] == msg@.take(c - 1)[k]);
                    }
                }
            }
            assert(out@.subrange(msg@.len() as int, n) =~= prev.subrange(msg@.len() as int, n));
        }
        proof {
            assert(out@.take(msg@.len() as int) =~= msg@);
            let low = poly::zeros(msg@.len()) + rem;
            assert(out@ =~= poly::xor_seq(start, low)) by {
                assert forall|k: int| 0 <= k < n implies out@[k] == start[k] ^ low[k] by {
                    gf::lemma_xor(start[k], 0, 0);
                    gf::lemma_xor(low[k], 0, 0);
                    if k < msg@.len() {
                        assert(out@.take(msg@.len() as int)[k] == msg@[k]);
                    } else {
                        assert(out@.subrange(msg@.len() as int, n)[k - msg@.len()] == rem[k - msg@.len()]);
                    }
                }
            }
            assert forall|k: int| 0 <= k < nsym implies #[trigger] poly::value(
                out@,
                gf::alpha(k as nat),
            ) == 0 by {
                let x = gf::alpha(k as nat);
                poly::lemma_value_xor(start, low, x);
                gf::lemma_xor(poly::value(start, x), 0, 0);
            }
            law_systematic(msg@, nsym, out@);
        }
        out
    }

    /// Repairs a word and returns its data bytes, or refuses it. A word of this code has at most
    /// 255 bytes.
    pub fn decode(&self, received: &[u8]) -> (r: Result<Vec<u8>, RsError>)
        requires
            self.wf(),
            self.checks() <= received@.len() <= 255,
        ensures
            (match r {
                Ok(data) => Ok(data@),
                Err(error) => Err(error),
            }) == decoded(received@, self.checks()),
    {
        let ghost nsym = self.nsym as nat;
        let ghost n = received@.len();
        let ghost s = words::syndromes(received@, nsym);
        let synd: Vec<u8> = self.calc_syndromes(received);
        let clean: bool = all_zero(&synd);
        if clean {
            let keep: usize = received.len() - self.nsym;
            let data: Vec<u8> = slice_to_vec(slice_subrange(received, 0, keep));
            proof {
                assert forall|k: int| 0 <= k < nsym implies #[trigger] poly::value(
                    received@,
                    gf::alpha(k as nat),
                ) == 0 by {
                    assert(synd@.skip(1)[k] == s[k]);
                    assert(synd@[k + 1] == 0);
                }
                lemma_distance_self(received@);
                assert(decodes_to(received@, nsym, received@));
                assert(data@ =~= received@.take(keep as int));
                lemma_decoded(received@, nsym, received@);
            }
            return Ok(data);
        }
        proof {
            assert forall|code: Seq<u8>| #[trigger] decodes_to(received@, nsym, code) implies ({
                let l = massey::locator(s);
                2 * (l.len() - 1) <= nsym && root_exponents(l.reverse(), n).len() == l.len() - 1
            }) by {
                lemma_positions_found(received@, code, nsym);
            }
        }
        let err_loc: Vec<u8> = match self.find_error_locator(&synd) {
            Ok(l) => l,
            Err(e) => {
                return Err(e);
            },
        };
        let err_loc_rev: Vec<u8> = reversed(&err_loc);
        let err_pos: Vec<usize> = match self.find_errors(&err_loc_rev, received.len()) {
            Ok(p) => p,
            Err(e) => {
                return Err(e);
            },
        };
        let ghost pos = ints(err_pos@);
        proof {
            lemma_root_exponents(err_loc_rev@, n);
            lemma_mirrored(root_exponents(err_loc_rev@, n), n);
            assert(pos =~= mirrored(root_exponents(err_loc_rev@, n), n));
        }
        let corrected: Vec<u8> = correct_errata(received, &synd, &err_pos);
        let synd2: Vec<u8> = self.calc_syndromes(&corrected);
        let good: bool = all_zero(&synd2);
        if !good {
            proof {
                assert forall|code: Seq<u8>| !#[trigger] decodes_to(received@, nsym, code) by {
                    if decodes_to(received@, nsym, code) {
                        lemma_positions_found(received@, code, nsym);
                        let w = poly::xor_seq(code, received@);
                        assert(massey::power_sums(
                            s,
                            words::locators(pos, n),
                            words::values_at(w, pos),
                        ));
                        assert(synd@.skip(1) =~= s);
                        assert(corrected@ == poly::xor_seq(received@, w));
                        assert(corrected@ =~= code) by {
                            assert forall|i: int| 0 <= i < n implies corrected@[i] == code[i] by {
                                gf::lemma_xor(received@[i], code[i], 0);
                                gf::lemma_xor(code[i], received@[i], 0);
                            }
                        }
                        assert forall|k: int| 0 <= k < synd2@.len() implies synd2@[k] == 0 by {
                            if k > 0 {
                                let q = k - 1;
                                assert(synd2@.skip(1)[q] == words::syndromes(corrected@, nsym)[q]);
                                assert(poly::value(code, gf::alpha(q as nat)) == 0);
                            }
                        }
                    }
                }
            }
            return Err(RsError::Uncorrectable);
        }
        let keep: usize = corrected.len() - self.nsym;
        let data: Vec<u8> = slice_to_vec(slice_subrange(corrected.as_slice(), 0, keep));
        proof {
            assert forall|k: int| 0 <= k < nsym implies #[trigger] poly::value(
                corrected@,
                gf::alpha(k as nat),
            ) == 0 by {
                assert(synd2@.skip(1)[k] == words::syndromes(corrected@, nsym)[k]);
                assert(synd2@[k + 1] == 0);
            }
            let w = poly::xor_seq(corrected@, received@);
            assert forall|i: int| 0 <= i < w.len() && #[trigger] w[i] != 0 implies pos.contains(i) by {
                gf::lemma_xor(corrected@[i], received@[i], 0);
            }
            words::lemma_support_covered(w, pos);
            assert(decodes_to(received@, nsym, corrected@));
            assert(data@ =~= corrected@.take(keep as int));
            lemma_decoded(received@, nsym, corrected@);
        }
        Ok(data)
    }

    /// The syndromes behind a leading zero.
    fn calc_syndromes(&self, msg: &[u8]) -> (r: Vec<u8>)
        requires
            self.wf(),
            msg@.len() > 0,
        ensures
            r@.len() == self.checks() + 1,
            r@[0] == 0,
            r@.skip(1) == words::syndromes(msg@, self.checks()),
    {
        let mut synd: Vec<u8> = vec![0u8; self.nsym + 1];
        let mut i: usize = 0;
        while i < self.nsym
            invariant
                i <= self.nsym < 255,
                msg@.len() > 0,
                synd@.len() == self.nsym + 1,
                synd@[0] == 0,
                forall|k: int|
                    1 <= k <= i ==> synd@[k] == poly::value(msg@, gf::alpha((k - 1) as nat)),
            decreases self.nsym - i,
        {
            proof {
                gf::lemma_log_generator();
            }
            synd[i + 1] = galois::poly_eval(msg, galois::pow(2, i as i32));
            i += 1;
        }
        assert(synd@.skip(1) =~= words::syndromes(msg@, self.checks()));
        synd
    }

    /// The locator of the errors: the recurrence of the syndromes. Of a word with a codeword near
    /// enough it locates the errors.
    fn find_error_locator(&self, synd: &[u8]) -> (r: Result<Vec<u8>, RsError>)
        requires
            self.wf(),
            synd@.len() == self.checks() + 1,
        ensures
            match r {
                Ok(l) => l@ == massey::locator(synd@.skip(1)) && l@.len() > 0 && 2 * (l@.len() - 1)
                    <= self.checks(),
                Err(e) => e == RsError::TooManyErrors && 2 * (massey::locator(synd@.skip(1)).len()
                    - 1) > self.checks(),
            },
            forall|word: Seq<u8>, code: Seq<u8>|
                word.len() <= 255 && synd@.skip(1) == words::syndromes(word, self.checks())
                    && #[trigger] decodes_to(word, self.checks(), code) ==> (r matches Ok(l)
                    && locates(l@, word, code)),
    {
        proof {
            assert forall|word: Seq<u8>, code: Seq<u8>|
                word.len() <= 255 && synd@.skip(1) == words::syndromes(word, self.checks())
                    && #[trigger] decodes_to(word, self.checks(), code) implies locates(
                massey::locator(synd@.skip(1)),
                word,
                code,
            ) by {
                law_locator_finds_the_errors(word, code, self.checks());
            }
        }
        let nsym: usize = self.nsym;
        let ghost s = synd@.skip(1);
        let mut err_loc: Vec<u8> = vec![1u8];
        let mut old_loc: Vec<u8> = vec![1u8];
        let synd_shift: usize = synd.len() - nsym;
        let mut i: usize = 0;
        assert(err_loc@ =~= seq![1u8]);
        assert(old_loc@ =~= seq![1u8]);
        while i < nsym
            invariant
                i <= nsym < 255,
                synd_shift == 1,
                synd@.len() == nsym + 1,
                s == synd@.skip(1),
                (err_loc@, old_loc@) == massey::search(s, i as nat),
            decreases nsym - i,
        {
            proof {
                massey::lemma_search(s, i as nat);
            }
            let kk: usize = i + synd_shift;
            let mut delta: u8 = synd[kk];
            let mut j: usize = 1;
            let ghost f = |q: int|
                if 0 <= i - q < s.len() {
                    gf::prod(err_loc@.reverse()[q], s[i - q])
                } else {
                    0
                };
            proof {
                assert(f(0) == gf::prod(1, s[i as int]));
                gf::lemma_mul_unit(s[i as int]);
                gf::lemma_xor(s[i as int], 0, 0);
                assert(poly::xsum(f, 1) == poly::xsum(f, 0) ^ f(0));
            }
            while j < err_loc.len()
                invariant
                    1 <= j <= err_loc@.len() <= i + 1,
                    i < nsym < 255,
                    kk == i + 1,
                    synd@.len() == nsym + 1,
                    s == synd@.skip(1),
                    f == (|q: int|
                        if 0 <= i - q < s.len() {
                            gf::prod(err_loc@.reverse()[q], s[i - q])
                        } else {
                            0
                        }),
                    delta == poly::xsum(f, j as nat),
                decreases err_loc@.len() - j,
            {
                delta = delta ^ crate::fec::galois::mul(
                    err_loc[err_loc.len() - 1 - j],
                    synd[kk - j],
                );
                assert(f(j as int) == gf::prod(err_loc@[err_loc@.len() - 1 - j], synd@[kk - j]));
                j += 1;
                assert(poly::xsum(f, j as nat) == poly::xsum(f, (j - 1) as nat) ^ f(j - 1));
            }
            assert(delta == massey::discrepancy(err_loc@, s, i as int));
            let ghost c = err_loc@;
            old_loc.push(0);
            let ghost shifted = old_loc@;
            assert(((i + 1) - 1) as nat == i as nat);
            if delta != 0 {
                if old_loc.len() > err_loc.len() {
                    let new_loc: Vec<u8> = galois::poly_scale(&old_loc, delta);
                    old_loc = galois::poly_scale(&err_loc, galois::inverse(delta));
                    err_loc = new_loc;
                    let back: Vec<u8> = galois::poly_scale(&old_loc, delta);
                    proof {
                        assert(back@ =~= c) by {
                            assert forall|k: int| 0 <= k < c.len() implies back@[k] == c[k] by {
                                gf::lemma_inv(delta);
                                gf::lemma_mul_assoc(c[k], gf::inv(delta), delta);
                                gf::lemma_mul_unit(c[k]);
                            }
                        }
                    }
                    let sum: Vec<u8> = galois::poly_add(&err_loc, &back);
                    proof {
                        let want = massey::sum(c, poly::scaled(shifted, delta));
                        assert(sum@ =~= want) by {
                            assert forall|k: int| 0 <= k < want.len() implies sum@[k] == want[k] by {
                                gf::lemma_xor(
                                    poly::aligned(c, want.len() as int, k),
                                    poly::aligned(poly::scaled(shifted, delta), want.len() as int, k),
                                    0,
                                );
                            }
                        }
                    }
                    err_loc = sum;
                } else {
                    let step: Vec<u8> = galois::poly_scale(&old_loc, delta);
                    let sum: Vec<u8> = galois::poly_add(&err_loc, &step);
                    assert(sum@ =~= massey::sum(c, poly::scaled(shifted, delta)));
                    err_loc = sum;
                }
            }
            i += 1;
        }
        proof {
            massey::lemma_search(s, nsym as nat);
            assert(s.len() == nsym);
        }
        while !err_loc.is_empty() && err_loc[0] == 0
            invariant
                massey::trimmed(err_loc@) == massey::locator(s),
                err_loc@.len() > 0,
                err_loc@.last() == 1,
            decreases err_loc@.len(),
        {
            let ghost before = err_loc@;
            let _ = err_loc.remove(0);
            assert(err_loc@ =~= before.drop_first());
        }
        let errs: usize = err_loc.len() - 1;
        proof {
            massey::lemma_trimmed_len(massey::search(s, nsym as nat).0);
        }
        if errs * 2 > nsym {
            return Err(RsError::TooManyErrors);
        }
        Ok(err_loc)
    }

    /// The positions of the errors: the roots of the reversed locator among the powers of the
    /// generator that belong to positions.
    fn find_errors(&self, err_loc_rev: &[u8], nmess: usize) -> (r: Result<Vec<usize>, RsError>)
        requires
            err_loc_rev@.len() > 0,
            nmess <= 255,
        ensures
            ({
                let exps = root_exponents(err_loc_rev@, nmess as nat);
                match r {
                    Ok(pos) => {
                        &&& exps.len() == err_loc_rev@.len() - 1
                        &&& pos@.len() == exps.len()
                        &&& forall|m: int|
                            0 <= m < exps.len() ==> #[trigger] pos@[m] == nmess - 1 - exps[m]
                    },
                    Err(e) => e == RsError::Uncorrectable && exps.len() != err_loc_rev@.len() - 1,
                }
            }),
    {
        let errs: usize = err_loc_rev.len() - 1;
        let mut err_pos: Vec<usize> = Vec::new();
        let mut i: usize = 0;
        while i < nmess
            invariant
                i <= nmess <= 255,
                err_loc_rev@.len() > 0,
                err_pos@.len() == root_exponents(err_loc_rev@, i as nat).len(),
                forall|m: int|
                    0 <= m < err_pos@.len() ==> #[trigger] err_pos@[m] == nmess - 1
                        - root_exponents(err_loc_rev@, i as nat)[m],
            decreases nmess - i,
        {
            proof {
                gf::lemma_log_generator();
            }
            if galois::poly_eval(err_loc_rev, galois::pow(2, i as i32)) == 0 {
                err_pos.push(nmess - 1 - i);
            }
            i += 1;
        }
        if err_pos.len() != errs {
            return Err(RsError::Uncorrectable);
        }
        Ok(err_pos)
    }
}

proof fn lemma_decoded(word: Seq<u8>, nsym: nat, code: Seq<u8>)
    requires
        nsym <= word.len() <= 255,
        decodes_to(word, nsym, code),
    ensures
        decoded(word, nsym) == Ok::<Seq<u8>, RsError>(code.take(word.len() - nsym)),
{
    let other = choose|code: Seq<u8>| #[trigger] decodes_to(word, nsym, code);
    words::law_unique_decoding(word, code, other, nsym);
}

pub proof fn lemma_distance_self(w: Seq<u8>)
    ensures
        words::distance(w, w) == 0,
{
    let d = poly::xor_seq(w, w);
    assert forall|i: int| 0 <= i < d.len() && #[trigger] d[i] != 0 implies Seq::<int>::empty().contains(i) by {
        gf::lemma_xor(w[i], 0, 0);
    }
    words::lemma_support_covered(d, Seq::empty());
}

proof fn lemma_generator_root(nsym: nat, k: int)
    requires
        0 <= k < nsym,
    ensures
        poly::value(roots::monic(alphas(nsym)), gf::alpha(k as nat)) == 0,
{
    roots::lemma_monic_value(alphas(nsym), gf::alpha(k as nat));
    roots::lemma_root_product_zero(alphas(nsym), gf::alpha(k as nat));
    assert(alphas(nsym)[k] == gf::alpha(k as nat));
}

fn all_zero(v: &Vec<u8>) -> (r: bool)
    ensures
        r <==> forall|k: int| 0 <= k < v@.len() ==> v@[k] == 0,
{
    let mut i: usize = 0;
    while i < v.len()
        invariant
            i <= v@.len(),
            forall|k: int| 0 <= k < i ==> v@[k] == 0,
        decreases v@.len() - i,
    {
        if v[i] != 0 {
            return false;
        }
        i += 1;
    }
    true
}

fn reversed(v: &Vec<u8>) -> (r: Vec<u8>)
    ensures
        r@ == v@.reverse(),
{
    let mut r: Vec<u8> = Vec::with_capacity(v.len());
    let mut i: usize = v.len();
    while i > 0
        invariant
            i <= v@.len(),
            r@ == v@.reverse().take(v@.len() - i),
        decreases i,
    {
        i -= 1;
        r.push(v[i]);
        assert(r@ =~= v@.reverse().take(v@.len() - i));
    }
    assert(r@ =~= v@.reverse());
    r
}

/// The product of `x - a^i` over the exponents `i` below `nsym`.
fn generator_poly(nsym: usize) -> (r: Vec<u8>)
    requires
        nsym < 255,
    ensures
        r@ == roots::monic(alphas(nsym as nat)),
{
    let mut g: Vec<u8> = vec![1u8];
    let mut i: usize = 0;
    assert(g@ =~= roots::monic(alphas(0)));
    while i < nsym
        invariant
            i <= nsym < 255,
            g@ == roots::monic(alphas(i as nat)),
            g@.len() == i + 1,
        decreases nsym - i,
    {
        proof {
            gf::lemma_log_generator();
        }
        let factor: [u8; 2] = [1, galois::pow(2, i as i32)];
        let next: Vec<u8> = galois::poly_mul(&g, &factor);
        proof {
            let a = gf::alpha(i as nat);
            let q = factor@;
            assert(next@ =~= roots::times_root(g@, a)) by {
                assert forall|k: int| 0 <= k < next@.len() implies next@[k] == roots::times_root(
                    g@,
                    a,
                )[k] by {
                    poly::lemma_conv_linear(g@, q, k);
                    if k < g@.len() {
                        gf::lemma_mul_unit(g@[k]);
                    }
                }
            }
            let xs = alphas((i + 1) as nat);
            assert(xs.drop_last() =~= alphas(i as nat));
            assert(xs.last() == a);
        }
        g = next;
        i += 1;
    }
    g
}

/// Computes the magnitudes of the errors at the given positions and takes them out. A word that
/// differs from a codeword at these positions only becomes the codeword.
fn correct_errata(msg: &[u8], synd: &[u8], err_pos: &[usize]) -> (r: Vec<u8>)
    requires
        msg@.len() <= 255,
        0 < synd@.len() <= 255,
        synd@[0] == 0,
        err_pos@.len() < synd@.len(),
        words::positions(ints(err_pos@), msg@.len()),
    ensures
        r@.len() == msg@.len(),
        forall|i: int|
            0 <= i < msg@.len() && !ints(err_pos@).contains(i) ==> #[trigger] r@[i] == msg@[i],
        forall|w: Seq<u8>|
            w.len() == msg@.len() && words::covers(ints(err_pos@), w)
                && #[trigger] massey::power_sums(
                synd@.skip(1),
                words::locators(ints(err_pos@), msg@.len()),
                words::values_at(w, ints(err_pos@)),
            ) ==> r@ == poly::xor_seq(msg@, w),
        forall|code: Seq<u8>|
            code.len() == msg@.len() && #[trigger] words::is_codeword(code, (synd@.len() - 1) as nat)
                && synd@.skip(1) == words::syndromes(msg@, (synd@.len() - 1) as nat)
                && words::covers(ints(err_pos@), poly::xor_seq(code, msg@)) ==> r@ == code,
{
    let nlen: usize = msg.len();
    let ghost pos = ints(err_pos@);
    let ghost s = synd@.skip(1);
    let ghost xs = words::locators(pos, nlen as nat);
    let ghost e_len = err_pos@.len();
    proof {
        words::lemma_locators(pos, nlen as nat);
    }
    let mut coef_pos: Vec<usize> = Vec::new();
    let mut c: usize = 0;
    while c < err_pos.len()
        invariant
            c <= err_pos@.len(),
            pos == ints(err_pos@),
            words::positions(pos, nlen as nat),
            coef_pos@.len() == c,
            forall|m: int| 0 <= m < c ==> #[trigger] coef_pos@[m] == nlen - 1 - err_pos@[m],
        decreases err_pos@.len() - c,
    {
        assert(pos[c as int] < nlen);
        coef_pos.push(nlen - 1 - err_pos[c]);
        c += 1;
    }
    assert forall|m: int| 0 <= m < coef_pos@.len() implies #[trigger] coef_pos@[m] < 255 by {
        assert(pos[m] < nlen);
    }
    let err_loc: Vec<u8> = errata_locator(&coef_pos);
    assert(Seq::new(coef_pos@.len(), |m: int| gf::alpha(coef_pos@[m] as nat)) =~= xs);
    proof {
        roots::lemma_monic(xs);
    }
    assert(err_loc@.len() == e_len + 1) by {
        assert(err_loc@.reverse().len() == err_loc@.len());
    }
    let synd_rev: Vec<u8> = reversed(&slice_to_vec(synd));
    let mut err_eval: Vec<u8> = error_evaluator(&synd_rev, &err_loc, err_loc.len() - 1);
    proof {
        lemma_evaluator_terms(synd@, err_loc@, xs, err_eval@);
    }
    err_eval = reversed(&err_eval);
    // the locators of the errors
    let mut x: Vec<u8> = Vec::new();
    let mut q: usize = 0;
    while q < coef_pos.len()
        invariant
            q <= coef_pos@.len(),
            coef_pos@.len() == xs.len(),
            x@ == xs.take(q as int),
            forall|m: int| 0 <= m < coef_pos@.len() ==> #[trigger] coef_pos@[m] < 255,
            forall|m: int| 0 <= m < coef_pos@.len() ==> #[trigger] xs[m] == gf::alpha(coef_pos@[m] as nat),
        decreases coef_pos@.len() - q,
    {
        let cp: usize = coef_pos[q];
        proof {
            gf::lemma_log_generator();
            gf::lemma_alpha_negative(cp as nat);
            assert(xs[q as int] == gf::alpha(coef_pos@[q as int] as nat));
        }
        x.push(galois::pow(2, -(255 - cp as i32)));
        q += 1;
        assert(x@ =~= xs.take(q as int));
    }
    assert(x@ =~= xs);
    let mut e: Vec<u8> = vec![0u8; nlen];
    let err_eval_rev: Vec<u8> = reversed(&err_eval);
    let ghost ev = forney::evaluator(s, xs);
    assert(err_eval_rev@ =~= ev.reverse().push(0));
    let mut i: usize = 0;
    while i < x.len()
        invariant
            i <= x@.len(),
            x@ == xs,
            e_len == xs.len(),
            e_len == err_pos@.len(),
            xs.no_duplicates(),
            !xs.contains(0),
            pos == ints(err_pos@),
            words::positions(pos, nlen as nat),
            e@.len() == nlen,
            ev.len() == e_len,
            err_eval_rev@ == ev.reverse().push(0),
            forall|p: int| 0 <= p < nlen && !pos.contains(p) ==> #[trigger] e@[p] == 0,
            forall|m: int|
                0 <= m < i ==> gf::prod(#[trigger] e@[err_pos@[m] as int], forney::slope(xs, m, e_len))
                    == poly::value(ev.reverse(), gf::inv(xs[m])),
        decreases x@.len() - i,
    {
        let xi: u8 = x[i];
        assert(xs.contains(xi));
        let xi_inv: u8 = galois::inverse(xi);
        let mut err_loc_prime: u8 = 1;
        let mut j: usize = 0;
        while j < x.len()
            invariant
                j <= x@.len(),
                x@ == xs,
                i < xs.len(),
                xi == xs[i as int],
                xi_inv == gf::inv(xi),
                err_loc_prime == forney::slope(xs, i as int, j as nat),
            decreases x@.len() - j,
        {
            if j != i {
                err_loc_prime = crate::fec::galois::mul(
                    err_loc_prime,
                    1 ^ crate::fec::galois::mul(xi_inv, x[j]),
                );
            }
            j += 1;
        }
        let y: u8 = crate::fec::galois::mul(xi, galois::poly_eval(&err_eval_rev, xi_inv));
        proof {
            forney::lemma_slope_nonzero(xs, i as int);
            // the factor x of the evaluator and the inverse cancel
            let a = err_eval_rev@;
            assert(a.drop_last() =~= ev.reverse());
            let v = poly::value(ev.reverse(), xi_inv);
            gf::lemma_xor(gf::prod(v, xi_inv), 0, 0);
            gf::lemma_mul_comm(v, xi_inv);
            gf::lemma_mul_assoc(xi, xi_inv, v);
            gf::lemma_mul_unit(v);
            assert(y == v);
            assert(0 <= pos[i as int] < nlen);
        }
        let ghost e0 = e@;
        let at: usize = err_pos[i];
        e[at] = galois::div(y, err_loc_prime);
        proof {
            assert(pos[i as int] == at);
            assert(pos.contains(at as int));
            assert forall|m: int| 0 <= m < i + 1 implies gf::prod(
                #[trigger] e@[err_pos@[m] as int],
                forney::slope(xs, m, e_len),
            ) == poly::value(ev.reverse(), gf::inv(xs[m])) by {
                if m < i {
                    assert(pos[m] != pos[i as int]);
                    assert(0 <= pos[m] < nlen);
                    assert(e0[err_pos@[m] as int] == e@[err_pos@[m] as int]);
                }
            }
        }
        i += 1;
    }
    let r: Vec<u8> = galois::poly_add(msg, &e);
    proof {
        assert(r@ =~= poly::xor_seq(msg@, e@));
        assert forall|p: int| 0 <= p < nlen && !pos.contains(p) implies #[trigger] r@[p] == msg@[p] by {
            gf::lemma_xor(msg@[p], 0, 0);
            assert(e@[p] == 0);
        }
        assert forall|w: Seq<u8>|
            w.len() == nlen && words::covers(pos, w) && #[trigger] massey::power_sums(
                s,
                xs,
                words::values_at(w, pos),
            ) implies r@ == poly::xor_seq(msg@, w) by {
            let ys = words::values_at(w, pos);
            assert forall|p: int| 0 <= p < nlen implies e@[p] == w[p] by {
                if pos.contains(p) {
                    let m = choose|m: int| 0 <= m < pos.len() && pos[m] == p;
                    assert(err_pos@[m] as int == p);
                    assert(gf::prod(e@[err_pos@[m] as int], forney::slope(xs, m, e_len))
                        == poly::value(ev.reverse(), gf::inv(xs[m])));
                    forney::lemma_magnitude(s, xs, ys, m, e@[p]);
                }
            }
            assert(e@ =~= w);
        }
        let nsym = (synd@.len() - 1) as nat;
        assert forall|code: Seq<u8>|
            code.len() == nlen && #[trigger] words::is_codeword(code, nsym) && s
                == words::syndromes(msg@, nsym) && words::covers(
                pos,
                poly::xor_seq(code, msg@),
            ) implies r@ == code by {
            let w = poly::xor_seq(code, msg@);
            lemma_error_syndromes(msg@, code, nsym);
            words::lemma_syndromes(w, pos, nsym);
            assert(massey::power_sums(s, xs, words::values_at(w, pos)));
            assert(r@ == poly::xor_seq(msg@, w));
            assert forall|p: int| 0 <= p < nlen implies r@[p] == code[p] by {
                gf::lemma_xor(code[p], msg@[p], 0);
                gf::lemma_xor(msg@[p], code[p], 0);
            }
            assert(r@ =~= code);
        }
    }
    r
}

/// The remainder that `error_evaluator` computes, term by term.
proof fn lemma_evaluator_terms(synd: Seq<u8>, err_loc: Seq<u8>, xs: Seq<u8>, rem: Seq<u8>)
    requires
        synd.len() > xs.len(),
        synd[0] == 0,
        err_loc.reverse() == roots::monic(xs),
        rem.len() == xs.len() + 1,
        forall|k: int|
            0 <= k < rem.len() ==> rem[k] == poly::conv(
                synd.reverse(),
                err_loc,
                synd.len() + err_loc.len() - 2 - (xs.len() - k),
            ),
    ensures
        rem == forney::evaluator(synd.skip(1), xs).reverse().push(0),
{
    let e = xs.len();
    let s = synd.skip(1);
    let lam = roots::monic(xs);
    let ev = forney::evaluator(s, xs);
    roots::lemma_monic(xs);
    assert(err_loc.len() == e + 1) by {
        assert(err_loc.reverse().len() == err_loc.len());
    }
    assert(synd.reverse().reverse() =~= synd);
    let want = ev.reverse().push(0);
    assert forall|k: int| 0 <= k < rem.len() implies rem[k] == want[k] by {
        let d = e - k;
        poly::lemma_conv_reverse(synd.reverse(), err_loc, d);
        poly::lemma_conv_comm(synd, lam, d);
        assert(rem[k] == poly::conv(lam, synd, d));
        let f = |i: int|
            if 0 <= d - i < synd.len() {
                gf::prod(lam[i], synd[d - i])
            } else {
                0
            };
        let g = |i: int|
            if 0 <= (d - 1) - i < s.len() {
                gf::prod(lam[i], s[(d - 1) - i])
            } else {
                0
            };
        assert forall|i: int| 0 <= i < lam.len() implies f(i) == #[trigger] g(i) by {
            gf::lemma_mul_unit(lam[i]);
        }
        poly::lemma_xsum_ext(f, g, lam.len());
        if d == 0 {
            poly::lemma_xsum_zero(g, lam.len());
        } else {
            assert(want[k] == ev[d - 1]);
        }
    }
    assert(rem =~= want);
}

/// The product of `a^i x + 1` over the given exponents.
fn errata_locator(e_pos: &[usize]) -> (r: Vec<u8>)
    requires
        e_pos@.len() < 255,
        forall|m: int| 0 <= m < e_pos@.len() ==> #[trigger] e_pos@[m] < 255,
    ensures
        r@.reverse() == roots::monic(
            Seq::new(e_pos@.len(), |m: int| gf::alpha(e_pos@[m] as nat)),
        ),
{
    let mut e_loc: Vec<u8> = vec![1u8];
    let ghost xs = Seq::new(e_pos@.len(), |m: int| gf::alpha(e_pos@[m] as nat));
    let mut i: usize = 0;
    assert(e_loc@.reverse() =~= roots::monic(xs.take(0)));
    while i < e_pos.len()
        invariant
            i <= e_pos@.len() < 255,
            forall|m: int| 0 <= m < e_pos@.len() ==> #[trigger] e_pos@[m] < 255,
            xs == Seq::new(e_pos@.len(), |m: int| gf::alpha(e_pos@[m] as nat)),
            e_loc@.len() == i + 1,
            e_loc@.reverse() == roots::monic(xs.take(i as int)),
        decreases e_pos@.len() - i,
    {
        proof {
            gf::lemma_log_generator();
            assert(e_pos@[i as int] < 255);
        }
        let factor: [u8; 2] = [galois::pow(2, e_pos[i] as i32), 1];
        let next: Vec<u8> = galois::poly_mul(&e_loc, &factor);
        proof {
            let a = xs[i as int];
            let p = e_loc@;
            let n = p.len();
            assert(next@.reverse() =~= roots::times_root(p.reverse(), a)) by {
                assert forall|k: int| 0 <= k < n + 1 implies next@.reverse()[k]
                    == roots::times_root(p.reverse(), a)[k] by {
                    let j = n - k;
                    poly::lemma_conv_linear(p, factor@, j);
                    let lo = if j < n {
                        gf::prod(p[j], a)
                    } else {
                        0
                    };
                    let hi = if j >= 1 {
                        p[j - 1]
                    } else {
                        0
                    };
                    gf::lemma_mul_unit(hi);
                    gf::lemma_xor(lo, hi, 0);
                    assert(next@[j] == lo ^ hi);
                }
            }
            let t = xs.take(i + 1);
            assert(t.drop_last() =~= xs.take(i as int));
            assert(t.last() == a);
        }
        e_loc = next;
        i += 1;
    }
    assert(xs.take(i as int) =~= xs);
    e_loc
}

/// The lowest `nsym + 1` terms of the product of the two polynomials.
fn error_evaluator(synd: &[u8], err_loc: &[u8], nsym: usize) -> (r: Vec<u8>)
    requires
        0 < err_loc@.len(),
        nsym + 2 <= synd@.len() + err_loc@.len() <= 1000,
    ensures
        r@.len() == nsym + 1,
        forall|k: int|
            0 <= k < r@.len() ==> r@[k] == poly::conv(
                synd@,
                err_loc@,
                synd@.len() + err_loc@.len() - 2 - (nsym - k),
            ),
{
    let mut divisor: Vec<u8> = vec![0u8; nsym + 2];
    divisor[0] = 1;
    let product: Vec<u8> = galois::poly_mul(synd, err_loc);
    let (quotient, remainder) = galois::poly_div(&product, &divisor);
    proof {
        let n = product@.len() as int;
        let monic = divisor@.update(0, 1);
        assert forall|k: int| 0 <= k < remainder@.len() implies remainder@[k] == product@[n - (
        nsym + 1) + k] by {
            let at = n - (nsym + 1) + k;
            let f = |i: int|
                if 0 <= at - i < monic.len() {
                    gf::prod(quotient@[i], monic[at - i])
                } else {
                    0
                };
            assert forall|i: int| 0 <= i < quotient@.len() implies #[trigger] f(i) == 0 by {
                gf::lemma_mul_unit(quotient@[i]);
            }
            poly::lemma_xsum_zero(f, quotient@.len());
            gf::lemma_xor(remainder@[k], 0, 0);
            assert(product@[at] == poly::conv(quotient@, monic, at) ^ poly::aligned(
                remainder@,
                n,
                at,
            ));
        }
    }
    remainder
}

/// What the two reasons for a refusal say of the syndromes: too many errors, that no recurrence of
/// no more than half of `nsym` terms generates them; uncorrectable, that there is a recurrence with
/// so few terms, leading zeros not counted.
pub proof fn law_reasons_for_refusals(word: Seq<u8>, nsym: nat, l: Seq<u8>) -> (c: Seq<u8>)
    ensures
        decoded(word, nsym) == Err::<Seq<u8>, RsError>(RsError::TooManyErrors) && l.len() > 0
            && l.last() == 1 && massey::generates(l, words::syndromes(word, nsym), nsym as int)
            ==> 2 * (l.len() - 1) > nsym,
        decoded(word, nsym) == Err::<Seq<u8>, RsError>(RsError::Uncorrectable) ==> {
            &&& c.len() > 0
            &&& c.last() == 1
            &&& massey::generates(c, words::syndromes(word, nsym), nsym as int)
            &&& 2 * (massey::trimmed(c).len() - 1) <= nsym
        },
{
    let s = words::syndromes(word, nsym);
    let c = massey::search(s, nsym).0;
    massey::lemma_search(s, nsym);
    massey::lemma_trimmed_len(c);
    if l.len() > 0 && l.last() == 1 && massey::generates(l, s, nsym as int) {
        massey::lemma_search_shortest(s, l, nsym);
    }
    c
}

/// Leading zeros are all that is cut from a polynomial.
pub proof fn law_leading_zeros_are_cut(p: Seq<u8>) -> (n: int)
    ensures
        0 <= n <= p.len(),
        massey::trimmed(p) == p.skip(n),
        forall|i: int| 0 <= i < n ==> #[trigger] p[i] == 0,
        n < p.len() ==> p[n] != 0,
    decreases p.len(),
{
    if p.len() > 0 && p[0] == 0 {
        let m = law_leading_zeros_are_cut(p.drop_first());
        assert(p.drop_first().skip(m) =~= p.skip(m + 1));
        assert forall|i: int| 0 <= i < m + 1 implies #[trigger] p[i] == 0 by {
            if i > 0 {
                assert(p.drop_first()[i - 1] == p[i]);
            }
        }
        if m + 1 < p.len() {
            assert(p.drop_first()[m] == p[m + 1]);
        }
        m + 1
    } else {
        assert(p.skip(0) =~= p);
        0
    }
}

} // verus!
