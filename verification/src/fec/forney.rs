//! Error magnitudes from syndromes and locators, by Forney.

use vstd::prelude::*;
use crate::fec::gf;
use crate::fec::massey;
use crate::fec::poly;
use crate::fec::roots;

verus! {

/// The first terms of the product of the polynomial with the roots `xs` and the sequence `s`,
/// the lowest first: the error evaluator.
pub open spec fn evaluator(s: Seq<u8>, xs: Seq<u8>) -> Seq<u8> {
    Seq::new(xs.len(), |d: int| poly::conv(roots::monic(xs), s, d))
}

/// The product of `1 - xs[j] / xs[i]` over the `j` below `n` other than `i`.
pub open spec fn slope(xs: Seq<u8>, i: int, n: nat) -> u8
    decreases n,
{
    if n == 0 {
        1
    } else if n - 1 == i {
        slope(xs, i, (n - 1) as nat)
    } else {
        gf::prod(slope(xs, i, (n - 1) as nat), 1 ^ gf::prod(gf::inv(xs[i]), xs[n - 1]))
    }
}

/// `slope` cleared of denominators is the product of the differences to the other points.
proof fn lemma_slope(xs: Seq<u8>, i: int, n: nat)
    requires
        0 <= i < xs.len(),
        n <= xs.len(),
        xs[i] != 0,
    ensures
        n <= i ==> gf::prod(slope(xs, i, n), gf::power(xs[i], n)) == roots::root_product(
            xs.take(n as int),
            xs[i],
        ),
        n > i ==> gf::prod(slope(xs, i, n), gf::power(xs[i], (n - 1) as nat))
            == roots::root_product(xs.take(n as int).remove(i), xs[i]),
    decreases n,
{
    let x = xs[i];
    if n == 0 {
        gf::lemma_mul_unit(1);
    } else {
        let m = (n - 1) as nat;
        lemma_slope(xs, i, m);
        let t = xs.take(n as int);
        if m == i {
            assert(t.remove(i) =~= xs.take(m as int));
        } else {
            let z = gf::inv(x);
            let b = xs[m as int];
            let f = 1 ^ gf::prod(z, b);
            // (1 + z b) x = x + b
            gf::lemma_inv(x);
            gf::lemma_mul_linear(1, gf::prod(z, b), x);
            gf::lemma_mul_unit(x);
            gf::lemma_mul_comm(z, b);
            gf::lemma_mul_assoc(b, z, x);
            gf::lemma_mul_unit(b);
            assert(gf::prod(f, x) == x ^ b);
            let k = if n <= i {
                m
            } else {
                (m - 1) as nat
            };
            let s = slope(xs, i, m);
            gf::lemma_mul4(s, f, gf::power(x, k), x);
            gf::lemma_mul_comm(gf::power(x, k), x);
            assert(gf::power(x, k + 1) == gf::prod(x, gf::power(x, k)));
            if n <= i {
                assert(t.drop_last() =~= xs.take(m as int));
                assert(t.last() == b);
            } else {
                assert(t.remove(i).drop_last() =~= xs.take(m as int).remove(i));
                assert(t.remove(i).last() == b);
            }
        }
    }
}

proof fn lemma_value_combination(f: spec_fn(int) -> Seq<u8>, ys: Seq<u8>, n: nat, q: Seq<u8>, x: u8)
    requires
        forall|m: int| 0 <= m < n ==> (#[trigger] f(m)).len() == q.len(),
        forall|d: int|
            0 <= d < q.len() ==> #[trigger] q[d] == poly::xsum(|m: int| gf::prod(ys[m], f(m)[d]), n),
    ensures
        poly::value(q, x) == poly::xsum(|m: int| gf::prod(ys[m], poly::value(f(m), x)), n),
    decreases n,
{
    if n == 0 {
        assert(q =~= poly::zeros(q.len()));
        poly::lemma_value_leading_zeros(q.len(), Seq::empty(), x);
        assert(poly::zeros(q.len()) + Seq::<u8>::empty() =~= q);
    } else {
        let k = (n - 1) as nat;
        let p = Seq::new(q.len(), |d: int| poly::xsum(|m: int| gf::prod(ys[m], f(m)[d]), k));
        lemma_value_combination(f, ys, k, p, x);
        let y = ys[k as int];
        let t = poly::scaled(f(k as int), y);
        assert(q =~= poly::xor_seq(p, t)) by {
            assert forall|d: int| 0 <= d < q.len() implies q[d] == p[d] ^ t[d] by {
                gf::lemma_mul_comm(f(k as int)[d], y);
            }
        }
        poly::lemma_value_xor(p, t, x);
        poly::lemma_value_scaled(f(k as int), y, x);
        gf::lemma_mul_comm(poly::value(f(k as int), x), y);
    }
}

/// The evaluator at a locator: the weight there times the differences to the other points.
proof fn lemma_evaluator_value(s: Seq<u8>, xs: Seq<u8>, ys: Seq<u8>, i: int)
    requires
        xs.len() == ys.len(),
        xs.len() <= s.len(),
        xs.no_duplicates(),
        massey::power_sums(s, xs, ys),
        0 <= i < xs.len(),
    ensures
        poly::value(evaluator(s, xs), xs[i]) == gf::prod(
            ys[i],
            roots::root_product(xs.remove(i), xs[i]),
        ),
{
    let e = xs.len();
    let lam = roots::monic(xs);
    let om = evaluator(s, xs);
    let x = xs[i];
    roots::lemma_monic(xs);
    let f = |m: int| roots::deflated(lam, xs[m]);
    assert forall|d: int| 0 <= d < e implies #[trigger] om[d] == poly::xsum(
        |m: int| gf::prod(ys[m], f(m)[d]),
        e,
    ) by {
        massey::lemma_conv_power_sums(lam, s, xs, ys, d, (d + 1) as nat);
        let g = |m: int|
            gf::prod(
                gf::prod(ys[m], poly::value(lam.take(d + 1), xs[m])),
                gf::power(xs[m], (d + 1 - (d + 1)) as nat),
            );
        let h = |m: int| gf::prod(ys[m], f(m)[d]);
        assert forall|m: int| 0 <= m < e implies g(m) == #[trigger] h(m) by {
            gf::lemma_mul_unit(gf::prod(ys[m], poly::value(lam.take(d + 1), xs[m])));
        }
        poly::lemma_xsum_ext(g, h, e);
        let g1 = |m: int|
            gf::prod(
                gf::prod(ys[m], poly::value(lam.take((d + 1) as nat as int), xs[m])),
                gf::power(xs[m], (d + 1 - (d + 1) as nat) as nat),
            );
        poly::lemma_xsum_ext(g1, g, e);
    }
    lemma_value_combination(f, ys, e, om, x);
    let v = |m: int| gf::prod(ys[m], poly::value(f(m), x));
    roots::lemma_monic_value(xs, x);
    roots::lemma_root_product_zero(xs, x);
    assert(xs.contains(x));
    assert forall|m: int| 0 <= m < e && m != i implies #[trigger] v(m) == 0 by {
        let r = xs[m];
        roots::lemma_monic_value(xs, r);
        roots::lemma_root_product_zero(xs, r);
        assert(xs.contains(r));
        roots::lemma_deflated(lam, r, x);
        gf::lemma_xor(gf::prod(poly::value(f(m), x), x ^ r), 0, 0);
        gf::lemma_no_zero_divisors(poly::value(f(m), x), x ^ r);
        gf::lemma_xor(x, r, 0);
        gf::lemma_mul_unit(ys[m]);
    }
    poly::lemma_xsum_single(v, e, i);
    let rest = xs.remove(i);
    roots::lemma_monic_take_out(xs, i);
    roots::lemma_deflate_times_root(roots::monic(rest), x);
    roots::lemma_monic_value(rest, x);
}

/// The quotient of the evaluator and the slope is the weight.
pub proof fn lemma_magnitude(s: Seq<u8>, xs: Seq<u8>, ys: Seq<u8>, i: int, v: u8)
    requires
        xs.len() == ys.len(),
        xs.len() <= s.len(),
        xs.no_duplicates(),
        !xs.contains(0),
        massey::power_sums(s, xs, ys),
        0 <= i < xs.len(),
        gf::prod(v, slope(xs, i, xs.len())) == poly::value(
            evaluator(s, xs).reverse(),
            gf::inv(xs[i]),
        ),
    ensures
        v == ys[i],
{
    let e = xs.len();
    let x = xs[i];
    assert(xs.contains(x));
    let sl = slope(xs, i, e);
    let w = gf::power(x, (e - 1) as nat);
    lemma_slope(xs, i, e);
    assert(xs.take(e as int) =~= xs);
    let rp = roots::root_product(xs.remove(i), x);
    lemma_evaluator_value(s, xs, ys, i);
    poly::lemma_value_reverse(evaluator(s, xs), x);
    gf::lemma_mul_assoc(v, sl, w);
    assert(gf::prod(v, rp) == gf::prod(ys[i], rp));
    lemma_slope_nonzero(xs, i);
    gf::lemma_power_nonzero(x, (e - 1) as nat);
    gf::lemma_no_zero_divisors(sl, w);
    gf::lemma_cancel(v, ys[i], rp);
}

pub proof fn lemma_slope_nonzero(xs: Seq<u8>, i: int)
    requires
        xs.no_duplicates(),
        !xs.contains(0),
        0 <= i < xs.len(),
    ensures
        slope(xs, i, xs.len()) != 0,
{
    let e = xs.len();
    let x = xs[i];
    assert(xs.contains(x));
    lemma_slope(xs, i, e);
    assert(xs.take(e as int) =~= xs);
    let rest = xs.remove(i);
    roots::lemma_root_product_zero(rest, x);
    if rest.contains(x) {
        let j = choose|j: int| 0 <= j < rest.len() && rest[j] == x;
        let k = if j < i {
            j
        } else {
            j + 1
        };
        assert(xs[k] == x);
    }
    gf::lemma_no_zero_divisors(slope(xs, i, e), gf::power(x, (e - 1) as nat));
}

} // verus!
