//! Words over GF(256), their syndromes and the distance between them.

use vstd::prelude::*;
use crate::fec::gf;
use crate::fec::massey;
use crate::fec::poly;
use crate::fec::roots;

verus! {

/// The positions, in order, at which `w` is not zero.
pub open spec fn support(w: Seq<u8>) -> Seq<int>
    decreases w.len(),
{
    if w.len() == 0 {
        Seq::empty()
    } else if w.last() != 0 {
        support(w.drop_last()).push(w.len() - 1)
    } else {
        support(w.drop_last())
    }
}

/// The number of positions at which two words of one length differ.
pub open spec fn distance(a: Seq<u8>, b: Seq<u8>) -> nat {
    support(poly::xor_seq(a, b)).len()
}

/// The word's values at the first `nsym` powers of the generator.
pub open spec fn syndromes(w: Seq<u8>, nsym: nat) -> Seq<u8> {
    Seq::new(nsym, |k: int| poly::value(w, gf::alpha(k as nat)))
}

/// The words of the code with `nsym` check symbols: those whose syndromes are zero.
pub open spec fn is_codeword(w: Seq<u8>, nsym: nat) -> bool {
    forall|k: int| 0 <= k < nsym ==> #[trigger] poly::value(w, gf::alpha(k as nat)) == 0
}

/// Distinct positions of a word of length `n`.
pub open spec fn positions(pos: Seq<int>, n: nat) -> bool {
    &&& pos.no_duplicates()
    &&& forall|m: int| 0 <= m < pos.len() ==> 0 <= #[trigger] pos[m] < n
}

/// `w` is zero everywhere but at the given positions.
pub open spec fn covers(pos: Seq<int>, w: Seq<u8>) -> bool {
    forall|i: int| 0 <= i < w.len() && #[trigger] w[i] != 0 ==> pos.contains(i)
}

/// The locators of the positions of a word of length `n`: powers of the generator.
pub open spec fn locators(pos: Seq<int>, n: nat) -> Seq<u8> {
    Seq::new(pos.len(), |m: int| gf::alpha((n - 1 - pos[m]) as nat))
}

/// The symbols of `w` at the given positions.
pub open spec fn values_at(w: Seq<u8>, pos: Seq<int>) -> Seq<u8> {
    Seq::new(pos.len(), |m: int| w[pos[m]])
}

pub proof fn lemma_support(w: Seq<u8>)
    ensures
        positions(support(w), w.len()),
        covers(support(w), w),
        forall|m: int| 0 <= m < support(w).len() ==> w[#[trigger] support(w)[m]] != 0,
        support(w).len() <= w.len(),
    decreases w.len(),
{
    if w.len() > 0 {
        let v = w.drop_last();
        lemma_support(v);
        let s = support(w);
        let t = support(v);
        assert forall|m: int| 0 <= m < t.len() implies w[#[trigger] t[m]] != 0 by {
            assert(v[t[m]] != 0);
        }
        assert forall|m: int| 0 <= m < s.len() implies w[#[trigger] s[m]] != 0 by {
            if m < t.len() {
                assert(w[t[m]] != 0);
            }
        }
        assert forall|i: int| 0 <= i < w.len() && #[trigger] w[i] != 0 implies s.contains(i) by {
            if i < v.len() {
                assert(v[i] != 0);
                let m = choose|m: int| 0 <= m < t.len() && t[m] == i;
                assert(s[m] == i);
            } else {
                assert(s[s.len() - 1] == i);
            }
        }
        assert forall|i: int, j: int| 0 <= i < s.len() && 0 <= j < s.len() && i != j implies s[i]
            != s[j] by {
            if i < t.len() {
                assert(0 <= t[i] < v.len());
            }
            if j < t.len() {
                assert(0 <= t[j] < v.len());
            }
        }
        assert forall|m: int| 0 <= m < s.len() implies 0 <= #[trigger] s[m] < w.len() by {
            if m < t.len() {
                assert(0 <= t[m] < v.len());
            }
        }
    }
}

/// A word that is zero but at `pos` has no more symbols than that.
pub proof fn lemma_support_covered(w: Seq<u8>, pos: Seq<int>)
    requires
        covers(pos, w),
    ensures
        support(w).len() <= pos.len(),
{
    lemma_support(w);
    let s = support(w);
    s.unique_seq_to_set();
    pos.lemma_cardinality_of_set();
    assert(s.to_set().subset_of(pos.to_set())) by {
        assert forall|i: int| s.to_set().contains(i) implies pos.to_set().contains(i) by {
            let m = choose|m: int| 0 <= m < s.len() && s[m] == i;
            assert(w[s[m]] != 0);
            assert(pos.contains(i));
        }
    }
    vstd::set_lib::lemma_len_subset(s.to_set(), pos.to_set());
}

proof fn lemma_value_zeros(w: Seq<u8>, x: u8)
    requires
        forall|i: int| 0 <= i < w.len() ==> w[i] == 0,
    ensures
        poly::value(w, x) == 0,
    decreases w.len(),
{
    if w.len() > 0 {
        lemma_value_zeros(w.drop_last(), x);
        gf::lemma_mul_unit(x);
        gf::lemma_xor(0, 0, 0);
    }
}

/// The value of a word is the sum of the terms at the positions where it is not zero.
proof fn lemma_value_covered(w: Seq<u8>, pos: Seq<int>, x: u8)
    requires
        positions(pos, w.len()),
        covers(pos, w),
    ensures
        poly::value(w, x) == poly::xsum(
            |m: int| gf::prod(w[pos[m]], gf::power(x, (w.len() - 1 - pos[m]) as nat)),
            pos.len(),
        ),
    decreases pos.len(),
{
    let n = w.len();
    let f = |m: int| gf::prod(w[pos[m]], gf::power(x, (n - 1 - pos[m]) as nat));
    if pos.len() == 0 {
        assert forall|i: int| 0 <= i < n implies w[i] == 0 by {
            if w[i] != 0 {
                assert(pos.contains(i));
            }
        }
        lemma_value_zeros(w, x);
    } else {
        let p = pos.last();
        assert(0 <= pos[pos.len() - 1] < n);
        let q = pos.drop_last();
        let v = w.update(p, 0);
        assert forall|m: int| 0 <= m < q.len() implies 0 <= #[trigger] q[m] < v.len() by {
            assert(0 <= pos[m] < n);
        }
        assert forall|i: int| 0 <= i < v.len() && #[trigger] v[i] != 0 implies q.contains(i) by {
            assert(w[i] != 0);
            let m = choose|m: int| 0 <= m < pos.len() && pos[m] == i;
            assert(q[m] == i);
        }
        lemma_value_covered(v, q, x);
        let g = |m: int| gf::prod(v[q[m]], gf::power(x, (v.len() - 1 - q[m]) as nat));
        assert forall|m: int| 0 <= m < q.len() implies f(m) == #[trigger] g(m) by {
            assert(pos[m] != p);
            assert(0 <= pos[m] < n);
        }
        poly::lemma_xsum_ext(f, g, q.len());
        // w is v plus the one symbol at p
        let one = Seq::new(n, |i: int| if i == p { w[p] } else { 0u8 });
        assert(w =~= poly::xor_seq(v, one)) by {
            assert forall|i: int| 0 <= i < n implies w[i] == v[i] ^ one[i] by {
                gf::lemma_xor(w[i], 0, 0);
            }
        }
        poly::lemma_value_xor(v, one, x);
        assert(one =~= poly::zeros(p as nat) + (seq![w[p]] + poly::zeros((n - 1 - p) as nat)));
        poly::lemma_value_leading_zeros(p as nat, seq![w[p]] + poly::zeros((n - 1 - p) as nat), x);
        poly::lemma_value_trailing_zeros(seq![w[p]], (n - 1 - p) as nat, x);
        assert(poly::value(seq![w[p]].drop_last(), x) == 0);
        gf::lemma_mul_unit(x);
        gf::lemma_xor(w[p], 0, 0);
        assert(poly::value(seq![w[p]], x) == w[p]);
        gf::lemma_mul_comm(w[p], gf::power(x, (n - 1 - p) as nat));
    }
}

/// The syndromes of a word are the power sums of the locators of its symbols.
pub proof fn lemma_syndromes(w: Seq<u8>, pos: Seq<int>, nsym: nat)
    requires
        positions(pos, w.len()),
        covers(pos, w),
    ensures
        massey::power_sums(syndromes(w, nsym), locators(pos, w.len()), values_at(w, pos)),
{
    let s = syndromes(w, nsym);
    let xs = locators(pos, w.len());
    let ys = values_at(w, pos);
    assert forall|k: int| 0 <= k < nsym implies #[trigger] s[k] == roots::moment(xs, ys, k as nat) by {
        let x = gf::alpha(k as nat);
        lemma_value_covered(w, pos, x);
        let f = |m: int| gf::prod(w[pos[m]], gf::power(x, (w.len() - 1 - pos[m]) as nat));
        let g = |m: int| gf::prod(ys[m], gf::power(xs[m], k as nat));
        assert forall|m: int| 0 <= m < pos.len() implies f(m) == #[trigger] g(m) by {
            assert(0 <= pos[m] < w.len());
            let j = (w.len() - 1 - pos[m]) as nat;
            gf::lemma_power_of_alpha(k as nat, j);
            gf::lemma_power_of_alpha(j, k as nat);
            vstd::arithmetic::mul::lemma_mul_is_commutative(j as int, k);
        }
        poly::lemma_xsum_ext(f, g, pos.len());
    }
}

/// Different positions of a word of at most 255 symbols have different locators, none of them
/// zero.
pub proof fn lemma_locators(pos: Seq<int>, n: nat)
    requires
        positions(pos, n),
        n <= 255,
    ensures
        locators(pos, n).no_duplicates(),
        !locators(pos, n).contains(0),
{
    let xs = locators(pos, n);
    assert forall|i: int, j: int| 0 <= i < xs.len() && 0 <= j < xs.len() && i != j implies xs[i]
        != xs[j] by {
        assert(0 <= pos[i] < n);
        assert(0 <= pos[j] < n);
        if xs[i] == xs[j] {
            gf::lemma_alpha_injective((n - 1 - pos[i]) as nat, (n - 1 - pos[j]) as nat);
        }
    }
    assert forall|m: int| 0 <= m < xs.len() implies xs[m] != 0 by {
        gf::lemma_alpha_nonzero((n - 1 - pos[m]) as nat);
    }
}

/// The sum of two codewords is a codeword.
pub proof fn lemma_codeword_sum(a: Seq<u8>, b: Seq<u8>, nsym: nat)
    requires
        a.len() == b.len(),
        is_codeword(a, nsym),
        is_codeword(b, nsym),
    ensures
        is_codeword(poly::xor_seq(a, b), nsym),
{
    assert forall|k: int| 0 <= k < nsym implies #[trigger] poly::value(
        poly::xor_seq(a, b),
        gf::alpha(k as nat),
    ) == 0 by {
        let x = gf::alpha(k as nat);
        poly::lemma_value_xor(a, b, x);
        assert(poly::value(a, gf::alpha(k as nat)) == 0);
        assert(poly::value(b, gf::alpha(k as nat)) == 0);
        gf::lemma_xor(0, 0, 0);
    }
}

/// A codeword that is zero but at `nsym` positions is zero everywhere.
proof fn lemma_light_codeword(w: Seq<u8>, pos: Seq<int>, nsym: nat)
    requires
        w.len() <= 255,
        is_codeword(w, nsym),
        positions(pos, w.len()),
        covers(pos, w),
        pos.len() <= nsym,
    ensures
        forall|i: int| 0 <= i < w.len() ==> w[i] == 0,
{
    let s = syndromes(w, nsym);
    let xs = locators(pos, w.len());
    let ys = values_at(w, pos);
    lemma_syndromes(w, pos, nsym);
    lemma_locators(pos, w.len());
    assert forall|i: nat| i < xs.len() implies #[trigger] roots::moment(xs, ys, i) == 0 by {
        assert(s[i as int] == poly::value(w, gf::alpha(i)));
        assert(poly::value(w, gf::alpha((i as int) as nat)) == 0);
    }
    roots::lemma_moments_vanish(xs, ys);
    assert forall|i: int| 0 <= i < w.len() implies w[i] == 0 by {
        if w[i] != 0 {
            let m = choose|m: int| 0 <= m < pos.len() && pos[m] == i;
            assert(ys[m] == w[i]);
        }
    }
}

/// Two different codewords of one length differ in more than `nsym` positions.
pub proof fn law_minimum_distance(a: Seq<u8>, b: Seq<u8>, nsym: nat)
    requires
        a.len() == b.len(),
        a.len() <= 255,
        is_codeword(a, nsym),
        is_codeword(b, nsym),
        a != b,
    ensures
        distance(a, b) > nsym,
{
    let w = poly::xor_seq(a, b);
    if distance(a, b) <= nsym {
        lemma_codeword_sum(a, b, nsym);
        lemma_support(w);
        lemma_light_codeword(w, support(w), nsym);
        assert forall|i: int| 0 <= i < a.len() implies a[i] == b[i] by {
            assert(w[i] == 0);
            gf::lemma_xor(a[i], b[i], 0);
        }
        assert(a =~= b);
    }
}

/// At most one codeword lies within half of `nsym` positions of a word.
pub proof fn law_unique_decoding(word: Seq<u8>, a: Seq<u8>, b: Seq<u8>, nsym: nat)
    requires
        word.len() <= 255,
        a.len() == word.len(),
        b.len() == word.len(),
        is_codeword(a, nsym),
        is_codeword(b, nsym),
        2 * distance(a, word) <= nsym,
        2 * distance(b, word) <= nsym,
    ensures
        a == b,
{
    if a != b {
        law_minimum_distance(a, b, nsym);
        let u = poly::xor_seq(a, word);
        let v = poly::xor_seq(b, word);
        let w = poly::xor_seq(a, b);
        let pos = support(u) + support(v);
        lemma_support(u);
        lemma_support(v);
        assert forall|i: int| 0 <= i < w.len() && #[trigger] w[i] != 0 implies pos.contains(i) by {
            gf::lemma_xor(a[i], b[i], 0);
            gf::lemma_xor(a[i], word[i], 0);
            gf::lemma_xor(b[i], word[i], 0);
            if u[i] != 0 {
                let m = choose|m: int| 0 <= m < support(u).len() && support(u)[m] == i;
                assert(pos[m] == i);
            } else {
                assert(v[i] != 0);
                let m = choose|m: int| 0 <= m < support(v).len() && support(v)[m] == i;
                assert(pos[support(u).len() + m] == i);
            }
        }
        lemma_support_covered(w, pos);
    }
}

/// The sum of all symbols of a word.
pub open spec fn sum(w: Seq<u8>) -> u8
    decreases w.len(),
{
    if w.len() == 0 {
        0
    } else {
        sum(w.drop_last()) ^ w.last()
    }
}

/// The first syndrome is the sum of all symbols, and the second is the word's value at the
/// generator: the symbols of a codeword cancel out.
pub proof fn law_first_syndromes(w: Seq<u8>)
    ensures
        syndromes(w, 2)[0] == sum(w),
        syndromes(w, 2)[1] == poly::value(w, 2),
        is_codeword(w, 1) <==> sum(w) == 0,
{
    lemma_sum(w);
    gf::lemma_alpha_step(0);
    gf::lemma_mul_unit(2);
    assert(gf::alpha(1) == 2);
    if is_codeword(w, 1) {
        assert(poly::value(w, gf::alpha(0)) == 0);
    }
}

proof fn lemma_sum(w: Seq<u8>)
    ensures
        poly::value(w, 1) == sum(w),
    decreases w.len(),
{
    if w.len() > 0 {
        lemma_sum(w.drop_last());
        gf::lemma_mul_unit(poly::value(w.drop_last(), 1));
    }
}

/// The distance grows by one with each pair of symbols that differ.
pub proof fn law_differences_are_counted(a: Seq<u8>, b: Seq<u8>, x: u8, y: u8)
    requires
        a.len() == b.len(),
    ensures
        distance(Seq::empty(), Seq::empty()) == 0,
        distance(a.push(x), b.push(y)) == distance(a, b) + (if x == y {
            0nat
        } else {
            1nat
        }),
{
    let w = poly::xor_seq(a.push(x), b.push(y));
    assert(w.drop_last() =~= poly::xor_seq(a, b));
    assert(w.last() == x ^ y);
    gf::lemma_xor(x, y, 0);
}

} // verus!
