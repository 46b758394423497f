//! The shortest linear recurrence of a sequence over GF(256), by Berlekamp and Massey.
//!
//! A recurrence of length `l` is a polynomial `c` of `l + 1` coefficients whose constant term is
//! one. It generates a sequence `s` up to `r` when every term of `c * s` from `l` to `r - 1` is
//! zero, both factors counted from the lowest coefficient.

use vstd::prelude::*;
use crate::fec::gf;
use crate::fec::poly;
use crate::fec::roots;

verus! {

/// The sum of two polynomials, as long as the longer of them.
pub open spec fn sum(p: Seq<u8>, q: Seq<u8>) -> Seq<u8> {
    let n = if p.len() >= q.len() {
        p.len()
    } else {
        q.len()
    };
    Seq::new(n, |k: int| poly::aligned(p, n as int, k) ^ poly::aligned(q, n as int, k))
}

/// Term `k` of the product of the recurrence `c` with the sequence `s`.
pub open spec fn discrepancy(c: Seq<u8>, s: Seq<u8>, k: int) -> u8 {
    poly::conv(c.reverse(), s, k)
}

/// The recurrence found from the first `r` terms of `s`, with the auxiliary polynomial of the
/// search: the recurrence before the last change of length, scaled and shifted.
pub open spec fn search(s: Seq<u8>, r: nat) -> (Seq<u8>, Seq<u8>)
    decreases r,
{
    if r == 0 {
        (seq![1u8], seq![1u8])
    } else {
        let k = (r - 1) as nat;
        let (c, o) = search(s, k);
        let d = discrepancy(c, s, k as int);
        let shifted = o.push(0);
        if d == 0 {
            (c, shifted)
        } else if shifted.len() > c.len() {
            (sum(c, poly::scaled(shifted, d)), poly::scaled(c, gf::inv(d)))
        } else {
            (sum(c, poly::scaled(shifted, d)), shifted)
        }
    }
}

/// `p` without its leading zeros.
pub open spec fn trimmed(p: Seq<u8>) -> Seq<u8>
    decreases p.len(),
{
    if p.len() > 0 && p[0] == 0 {
        trimmed(p.drop_first())
    } else {
        p
    }
}

/// The recurrence of the whole sequence, without leading zeros.
pub open spec fn locator(s: Seq<u8>) -> Seq<u8> {
    trimmed(search(s, s.len()).0)
}

proof fn lemma_discrepancy_sum(p: Seq<u8>, q: Seq<u8>, s: Seq<u8>, k: int)
    ensures
        discrepancy(sum(p, q), s, k) == discrepancy(p, s, k) ^ discrepancy(q, s, k),
{
    let t = sum(p, q);
    let n = t.len();
    let term = |p: Seq<u8>, i: int|
        if 0 <= k - i < s.len() && i < p.len() {
            gf::prod(p.reverse()[i], s[k - i])
        } else {
            0
        };
    let fp = |i: int| term(p, i);
    let fq = |i: int| term(q, i);
    let ft = |i: int| term(t, i);
    poly::lemma_xsum_xor(fp, fq, n);
    assert forall|i: int| 0 <= i < n implies fp(i) ^ fq(i) == #[trigger] ft(i) by {
        let a = if i < p.len() {
            p.reverse()[i]
        } else {
            0
        };
        let b = if i < q.len() {
            q.reverse()[i]
        } else {
            0
        };
        assert(t.reverse()[i] == t[n - 1 - i]);
        assert(t.reverse()[i] == a ^ b);
        gf::lemma_xor(a, 0, 0);
        gf::lemma_xor(b, 0, 0);
        gf::lemma_xor(0, 0, 0);
        if 0 <= k - i < s.len() {
            gf::lemma_mul_unit(s[k - i]);
            gf::lemma_mul_linear(a, b, s[k - i]);
        }
    }
    poly::lemma_xsum_ext(|i: int| fp(i) ^ fq(i), ft, n);
    poly::lemma_xsum_extend(fp, p.len(), n);
    poly::lemma_xsum_extend(fq, q.len(), n);
    lemma_discrepancy_terms(p, s, k, fp);
    lemma_discrepancy_terms(q, s, k, fq);
    lemma_discrepancy_terms(t, s, k, ft);
}

proof fn lemma_discrepancy_terms(p: Seq<u8>, s: Seq<u8>, k: int, f: spec_fn(int) -> u8)
    requires
        forall|i: int|
            0 <= i < p.len() ==> #[trigger] f(i) == if 0 <= k - i < s.len() {
                gf::prod(p.reverse()[i], s[k - i])
            } else {
                0
            },
    ensures
        discrepancy(p, s, k) == poly::xsum(f, p.len()),
{
    let g = |i: int|
        if 0 <= k - i < s.len() {
            gf::prod(p.reverse()[i], s[k - i])
        } else {
            0
        };
    assert forall|i: int| 0 <= i < p.len() implies f(i) == #[trigger] g(i) by {}
    poly::lemma_xsum_ext(f, g, p.len());
}

proof fn lemma_discrepancy_scaled(p: Seq<u8>, c: u8, s: Seq<u8>, k: int)
    ensures
        discrepancy(poly::scaled(p, c), s, k) == gf::prod(c, discrepancy(p, s, k)),
{
    assert(poly::scaled(p, c).reverse() =~= poly::scaled(p.reverse(), c));
    poly::lemma_conv_scaled(p.reverse(), c, s, k);
}

proof fn lemma_discrepancy_shift(p: Seq<u8>, s: Seq<u8>, k: int)
    ensures
        discrepancy(p.push(0), s, k) == discrepancy(p, s, k - 1),
{
    let q = p.push(0);
    let f = |i: int|
        if 0 <= k - i < s.len() {
            gf::prod(q.reverse()[i], s[k - i])
        } else {
            0
        };
    poly::lemma_xsum_first(f, p.len());
    let g = |i: int| f(i + 1);
    assert(f(0) == 0) by {
        if 0 <= k < s.len() {
            gf::lemma_mul_unit(s[k]);
        }
    }
    assert forall|i: int| 0 <= i < p.len() implies #[trigger] g(i) == if 0 <= k - 1 - i < s.len() {
        gf::prod(p.reverse()[i], s[k - 1 - i])
    } else {
        0
    } by {
        assert(q.reverse()[i + 1] == p.reverse()[i]);
    }
    lemma_discrepancy_terms(p, s, k - 1, g);
    gf::lemma_xor(poly::xsum(g, p.len()), 0, 0);
}

/// `c` generates `s` up to `r`.
pub open spec fn generates(c: Seq<u8>, s: Seq<u8>, r: int) -> bool {
    forall|k: int| c.len() - 1 <= k < r ==> #[trigger] discrepancy(c, s, k) == 0
}

/// What the search maintains: the lengths of the two polynomials add up to `r + 2`, the first
/// generates the sequence so far, and the second fails by one, and only, at the last term.
pub open spec fn search_state(c: Seq<u8>, o: Seq<u8>, s: Seq<u8>, r: nat) -> bool {
    &&& 1 <= c.len() <= r + 1
    &&& c.len() + o.len() == r + 2
    &&& c.last() == 1
    &&& generates(c, s, r as int)
    &&& c.len() > 1 ==> {
        &&& forall|k: int| r + 1 - c.len() <= k < r - 1 ==> #[trigger] discrepancy(o, s, k) == 0
        &&& discrepancy(o, s, r - 1) == 1
    }
}

pub proof fn lemma_search(s: Seq<u8>, r: nat)
    ensures
        search_state(search(s, r).0, search(s, r).1, s, r),
    decreases r,
{
    if r > 0 {
        let k = (r - 1) as nat;
        lemma_search(s, k);
        let (c, o) = search(s, k);
        let d = discrepancy(c, s, k as int);
        let shifted = o.push(0);
        assert forall|j: int| true implies #[trigger] discrepancy(shifted, s, j) == discrepancy(
            o,
            s,
            j - 1,
        ) by {
            lemma_discrepancy_shift(o, s, j);
        }
        if d != 0 {
            let scaled = poly::scaled(shifted, d);
            let c1 = sum(c, scaled);
            gf::lemma_mul_unit(d);
            gf::lemma_xor(d, d, 0);
            gf::lemma_xor(1, 0, 0);
            gf::lemma_xor(0, 0, 0);
            assert forall|j: int| true implies #[trigger] discrepancy(c1, s, j) == discrepancy(
                c,
                s,
                j,
            ) ^ gf::prod(d, discrepancy(shifted, s, j)) by {
                lemma_discrepancy_sum(c, scaled, s, j);
                lemma_discrepancy_scaled(shifted, d, s, j);
            }
            assert(c1.last() == 1) by {
                assert(scaled.last() == 0) by {
                    gf::lemma_mul_unit(d);
                }
            }
            if shifted.len() > c.len() {
                let o1 = poly::scaled(c, gf::inv(d));
                assert forall|j: int| true implies #[trigger] discrepancy(o1, s, j) == gf::prod(
                    gf::inv(d),
                    discrepancy(c, s, j),
                ) by {
                    lemma_discrepancy_scaled(c, gf::inv(d), s, j);
                }
                gf::lemma_inv(d);
                gf::lemma_mul_unit(gf::inv(d));
                assert forall|j: int| c1.len() - 1 <= j < r implies #[trigger] discrepancy(c1, s, j) == 0 by {
                    assert(discrepancy(shifted, s, j) == discrepancy(o, s, j - 1));
                }
            } else {
                assert forall|j: int| c1.len() - 1 <= j < r implies #[trigger] discrepancy(c1, s, j) == 0 by {
                    assert(discrepancy(shifted, s, j) == discrepancy(o, s, j - 1));
                }
            }
        }
    } else {
        assert(generates(seq![1u8], s, 0));
    }
}

/// A recurrence that fails at `r` and one that does not are together longer than `r`.
proof fn lemma_lengths(c: Seq<u8>, l: Seq<u8>, s: Seq<u8>, r: int)
    requires
        c.len() > 0,
        l.len() > 0,
        l.last() == 1,
        0 <= r < s.len(),
        generates(c, s, r),
        generates(l, s, r + 1),
        discrepancy(c, s, r) != 0,
    ensures
        (c.len() - 1) + (l.len() - 1) >= r + 1,
{
    if (c.len() - 1) + (l.len() - 1) <= r {
        let f = |j: int, i: int|
            gf::prod(gf::prod(c.reverse()[j], l.reverse()[i]), s[r - i - j]);
        poly::lemma_xsum_swap(f, c.len(), l.len());
        // over j: the terms of l * s
        let gj = |j: int| poly::xsum(|i: int| f(j, i), l.len());
        assert forall|j: int| 0 <= j < c.len() implies #[trigger] gj(j) == 0 by {
            let h = |i: int| gf::prod(l.reverse()[i], s[r - j - i]);
            lemma_discrepancy_terms(l, s, r - j, h);
            assert(discrepancy(l, s, r - j) == 0);
            let cj = c.reverse()[j];
            poly::lemma_xsum_scale(h, l.len(), cj);
            let inner = |i: int| f(j, i);
            assert forall|i: int| 0 <= i < l.len() implies gf::prod(cj, h(i)) == #[trigger] inner(i) by {
                gf::lemma_mul_assoc(cj, l.reverse()[i], s[r - i - j]);
            }
            poly::lemma_xsum_ext(|i: int| gf::prod(cj, h(i)), inner, l.len());
            gf::lemma_mul_unit(cj);
        }
        poly::lemma_xsum_zero(gj, c.len());
        // over i: the terms of c * s
        let gi = |i: int| poly::xsum(|j: int| f(j, i), c.len());
        assert forall|i: int| 0 <= i < l.len() implies #[trigger] gi(i) == gf::prod(
            l.reverse()[i],
            discrepancy(c, s, r - i),
        ) by {
            let h = |j: int| gf::prod(c.reverse()[j], s[r - i - j]);
            lemma_discrepancy_terms(c, s, r - i, h);
            let li = l.reverse()[i];
            poly::lemma_xsum_scale(h, c.len(), li);
            let inner = |j: int| f(j, i);
            assert forall|j: int| 0 <= j < c.len() implies gf::prod(li, h(j)) == #[trigger] inner(j) by {
                gf::lemma_mul_comm(c.reverse()[j], li);
                gf::lemma_mul_assoc(li, c.reverse()[j], s[r - i - j]);
            }
            poly::lemma_xsum_ext(|j: int| gf::prod(li, h(j)), inner, c.len());
        }
        assert forall|i: int| 0 <= i < l.len() && i != 0 implies #[trigger] gi(i) == 0 by {
            assert(discrepancy(c, s, r - i) == 0);
            gf::lemma_mul_unit(l.reverse()[i]);
        }
        poly::lemma_xsum_single(gi, l.len(), 0);
        assert(l.reverse()[0] == 1);
        gf::lemma_mul_unit(discrepancy(c, s, r));
    }
}

/// The search never finds a recurrence longer than one that generates the sequence.
pub proof fn lemma_search_shortest(s: Seq<u8>, l: Seq<u8>, r: nat)
    requires
        r <= s.len(),
        l.len() > 0,
        l.last() == 1,
        generates(l, s, s.len() as int),
    ensures
        search(s, r).0.len() <= l.len(),
    decreases r,
{
    if r > 0 {
        let k = (r - 1) as nat;
        lemma_search(s, k);
        lemma_search_shortest(s, l, k);
        let (c, o) = search(s, k);
        if discrepancy(c, s, k as int) != 0 {
            lemma_lengths(c, l, s, k as int);
        }
    }
}

/// `s` holds the sums of the powers of `xs` weighted by `ys`.
pub open spec fn power_sums(s: Seq<u8>, xs: Seq<u8>, ys: Seq<u8>) -> bool {
    forall|k: int| 0 <= k < s.len() ==> #[trigger] s[k] == roots::moment(xs, ys, k as nat)
}

/// A term of the product with a sequence of power sums, gathered by the points.
pub proof fn lemma_conv_power_sums(p: Seq<u8>, s: Seq<u8>, xs: Seq<u8>, ys: Seq<u8>, k: int, n: nat)
    requires
        0 <= k < s.len(),
        xs.len() == ys.len(),
        power_sums(s, xs, ys),
        n == if k + 1 <= p.len() {
            k + 1
        } else {
            p.len() as int
        },
    ensures
        poly::conv(p, s, k) == poly::xsum(
            |m: int|
                gf::prod(
                    gf::prod(ys[m], poly::value(p.take(n as int), xs[m])),
                    gf::power(xs[m], (k + 1 - n) as nat),
                ),
            xs.len(),
        ),
{
    let e = xs.len();
    let q = p.take(n as int);
    let f = |i: int|
        if 0 <= k - i < s.len() {
            gf::prod(p[i], s[k - i])
        } else {
            0
        };
    poly::lemma_xsum_extend(f, n, p.len());
    let t = |i: int, m: int| gf::prod(p[i], gf::prod(ys[m], gf::power(xs[m], (k - i) as nat)));
    let gi = |i: int| poly::xsum(|m: int| t(i, m), e);
    assert forall|i: int| 0 <= i < n implies f(i) == #[trigger] gi(i) by {
        let h = |m: int| gf::prod(ys[m], gf::power(xs[m], (k - i) as nat));
        poly::lemma_xsum_scale(h, e, p[i]);
        let inner = |m: int| t(i, m);
        poly::lemma_xsum_ext(|m: int| gf::prod(p[i], h(m)), inner, e);
        assert(s[k - i] == roots::moment(xs, ys, (k - i) as nat));
    }
    poly::lemma_xsum_ext(f, gi, n);
    poly::lemma_xsum_swap(t, n, e);
    let gm = |m: int| poly::xsum(|i: int| t(i, m), n);
    let want = |m: int|
        gf::prod(
            gf::prod(ys[m], poly::value(p.take(n as int), xs[m])),
            gf::power(xs[m], (k + 1 - n) as nat),
        );
    assert forall|m: int| 0 <= m < e implies gm(m) == #[trigger] want(m) by {
        let x = xs[m];
        let y = ys[m];
        let w = gf::power(x, (k + 1 - n) as nat);
        poly::lemma_value_sum(q, x);
        let v = |i: int| gf::prod(q[i], gf::power(x, (q.len() - 1 - i) as nat));
        let c = gf::prod(y, w);
        poly::lemma_xsum_scale(v, n, c);
        let inner = |i: int| t(i, m);
        assert forall|i: int| 0 <= i < n implies gf::prod(c, v(i)) == #[trigger] inner(i) by {
            let a = gf::power(x, (n - 1 - i) as nat);
            gf::lemma_pow_add(x, (k + 1 - n) as nat, (n - 1 - i) as nat);
            assert(((k + 1 - n) as nat + (n - 1 - i) as nat) as nat == (k - i) as nat);
            // (y w) (p a) = (p y) (w a)
            gf::lemma_mul_comm(c, v(i));
            gf::lemma_mul4(p[i], a, y, w);
            gf::lemma_mul_comm(a, w);
            gf::lemma_mul_assoc(p[i], y, gf::prod(w, a));
        }
        poly::lemma_xsum_ext(|i: int| gf::prod(c, v(i)), inner, n);
        // (y w) value = (y value) w
        let val = poly::value(q, x);
        gf::lemma_mul_assoc(y, w, val);
        gf::lemma_mul_comm(w, val);
        gf::lemma_mul_assoc(y, val, w);
    }
    poly::lemma_xsum_ext(gm, want, e);
}

/// The polynomial with the given roots generates their power sums.
pub proof fn lemma_monic_generates(s: Seq<u8>, xs: Seq<u8>, ys: Seq<u8>)
    requires
        xs.len() == ys.len(),
        power_sums(s, xs, ys),
    ensures
        generates(roots::monic(xs).reverse(), s, s.len() as int),
        roots::monic(xs).reverse().last() == 1,
{
    let p = roots::monic(xs);
    roots::lemma_monic(xs);
    let l = p.reverse();
    assert(l.reverse() =~= p);
    assert forall|k: int| l.len() - 1 <= k < s.len() implies #[trigger] discrepancy(l, s, k) == 0 by {
        lemma_conv_power_sums(p, s, xs, ys, k, p.len());
        assert(p.take(p.len() as int) =~= p);
        let f = |m: int|
            gf::prod(
                gf::prod(ys[m], poly::value(p.take(p.len() as int), xs[m])),
                gf::power(xs[m], (k + 1 - p.len()) as nat),
            );
        assert forall|m: int| 0 <= m < xs.len() implies #[trigger] f(m) == 0 by {
            roots::lemma_monic_value(xs, xs[m]);
            roots::lemma_root_product_zero(xs, xs[m]);
            assert(xs.contains(xs[m]));
            gf::lemma_mul_unit(ys[m]);
            gf::lemma_mul_unit(gf::power(xs[m], (k + 1 - p.len()) as nat));
        }
        poly::lemma_xsum_zero(f, xs.len());
    }
}

/// A sequence of power sums of few enough points, none of them zero, is located: the recurrence
/// found has one coefficient more than there are points, none of them a leading zero, and its
/// reverse has the points, and nothing else, as roots.
pub proof fn lemma_locator_complete(s: Seq<u8>, xs: Seq<u8>, ys: Seq<u8>)
    requires
        xs.len() == ys.len(),
        2 * xs.len() <= s.len(),
        xs.no_duplicates(),
        !xs.contains(0),
        !ys.contains(0),
        power_sums(s, xs, ys),
    ensures
        locator(s).len() == xs.len() + 1,
        forall|x: u8| poly::value(#[trigger] locator(s).reverse(), x) == 0 <==> xs.contains(x),
{
    let e = xs.len();
    let n = s.len();
    let c = search(s, n).0;
    let p = c.reverse();
    lemma_search(s, n);
    lemma_monic_generates(s, xs, ys);
    roots::lemma_monic(xs);
    lemma_search_shortest(s, roots::monic(xs).reverse(), n);
    let l = (c.len() - 1) as nat;
    // the weights ys[m] * p(xs[m]) have vanishing moments
    let ws = Seq::new(e, |m: int| gf::prod(ys[m], poly::value(p, xs[m])));
    assert forall|i: nat| i < e implies #[trigger] roots::moment(xs, ws, i) == 0 by {
        let k = l + i;
        assert(discrepancy(c, s, k as int) == 0);
        lemma_conv_power_sums(p, s, xs, ys, k as int, p.len());
        assert(p.take(p.len() as int) =~= p);
        let f = |m: int|
            gf::prod(
                gf::prod(ys[m], poly::value(p.take(p.len() as int), xs[m])),
                gf::power(xs[m], (k + 1 - p.len()) as nat),
            );
        let g = |m: int| gf::prod(ws[m], gf::power(xs[m], i));
        assert((k + 1 - p.len()) as nat == i);
        poly::lemma_xsum_ext(f, g, e);
    }
    roots::lemma_moments_vanish(xs, ws);
    assert forall|m: int| 0 <= m < e implies poly::value(p, #[trigger] xs[m]) == 0 by {
        assert(ws[m] == 0);
        assert(ys.contains(ys[m]));
        gf::lemma_no_zero_divisors(ys[m], poly::value(p, xs[m]));
    }
    assert(p[0] == 1);
    roots::lemma_root_count(p, xs);
    assert(p.len() == e + 1);
    assert forall|x: u8| #[trigger] poly::value(p, x) == 0 <==> xs.contains(x) by {
        if xs.contains(x) {
            let m = choose|m: int| 0 <= m < e && xs[m] == x;
            assert(poly::value(p, xs[m]) == 0);
        } else if poly::value(p, x) == 0 {
            let more = xs.push(x);
            assert(more.no_duplicates()) by {
                assert forall|i: int, j: int| 0 <= i < more.len() && 0 <= j < more.len() && i != j implies more[i] != more[j] by {
                    if i == e {
                        assert(xs.contains(xs[j]));
                    } else if j == e {
                        assert(xs.contains(xs[i]));
                    }
                }
            }
            assert(roots::all_roots(p, more)) by {
                assert forall|m: int| 0 <= m < more.len() implies poly::value(p, #[trigger] more[m]) == 0 by {
                    if m < e {
                        assert(poly::value(p, xs[m]) == 0);
                    }
                }
            }
            roots::lemma_root_count(p, more);
        }
    }
    // zero is no root, so the leading coefficient of c is not zero
    lemma_value_at_zero(p);
    assert(c[0] == p.last());
    assert(poly::value(p, 0) != 0);
    assert(locator(s) == c);
}

proof fn lemma_value_at_zero(p: Seq<u8>)
    requires
        p.len() > 0,
    ensures
        poly::value(p, 0) == p.last(),
{
    gf::lemma_mul_unit(poly::value(p.drop_last(), 0));
    gf::lemma_xor(p.last(), 0, 0);
}

pub proof fn lemma_trimmed_len(p: Seq<u8>)
    ensures
        trimmed(p).len() <= p.len(),
        trimmed(p).len() > 0 ==> trimmed(p)[0] != 0,
    decreases p.len(),
{
    if p.len() > 0 && p[0] == 0 {
        lemma_trimmed_len(p.drop_first());
    }
}

pub proof fn lemma_trimmed_last(p: Seq<u8>)
    requires
        p.len() > 0,
        p.last() == 1,
    ensures
        trimmed(p).len() > 0,
        trimmed(p).last() == 1,
    decreases p.len(),
{
    if p[0] == 0 {
        lemma_trimmed_last(p.drop_first());
    }
}

} // verus!
