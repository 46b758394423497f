//! Roots of polynomials and sums of powers over GF(256).

use vstd::prelude::*;
use crate::fec::gf;
use crate::fec::poly;

verus! {

/// The quotient of `p` by `x - r`: the partial results of Horner's scheme at `r`.
pub open spec fn deflated(p: Seq<u8>, r: u8) -> Seq<u8> {
    Seq::new((p.len() - 1) as nat, |i: int| poly::value(p.take(i + 1), r))
}

pub proof fn lemma_deflated(p: Seq<u8>, r: u8, x: u8)
    requires
        p.len() > 0,
    ensures
        poly::value(p, x) == gf::prod(poly::value(deflated(p, r), x), x ^ r) ^ poly::value(p, r),
    decreases p.len(),
{
    let q = deflated(p, r);
    let p1 = p.drop_last();
    let c = p.last();
    if p.len() == 1 {
        assert(poly::value(q, x) == 0);
        assert(poly::value(p1, x) == 0);
        assert(poly::value(p1, r) == 0);
        gf::lemma_mul_unit(x);
        gf::lemma_mul_unit(r);
        gf::lemma_mul_unit(x ^ r);
        gf::lemma_xor(c, 0, 0);
    } else {
        let q1 = deflated(p1, r);
        assert(q.drop_last() =~= q1) by {
            assert forall|i: int| 0 <= i < q1.len() implies q[i] == q1[i] by {
                assert(p.take(i + 1) =~= p1.take(i + 1));
            }
        }
        assert(p.take(p.len() - 1) =~= p1);
        let a = poly::value(q1, x);
        let b = poly::value(p1, r);
        lemma_deflated(p1, r, x);
        // value(p, x) = (a (x + r) + b) x + c, value(q, x) = a x + b, value(p, r) = b r + c
        let d = x ^ r;
        gf::lemma_mul_linear(gf::prod(a, d), b, x);
        gf::lemma_mul_linear(gf::prod(a, x), b, d);
        gf::lemma_mul_assoc(a, d, x);
        gf::lemma_mul_comm(d, x);
        gf::lemma_mul_assoc(a, x, d);
        gf::lemma_mul_linear(x, r, b);
        let t = gf::prod(gf::prod(a, x), d);
        let bx = gf::prod(b, x);
        let br = gf::prod(b, r);
        lemma_cancel_middle(t, bx, br, c);
    }
}

proof fn lemma_cancel_middle(t: u8, bx: u8, br: u8, c: u8)
    ensures
        (t ^ bx) ^ c == (t ^ (bx ^ br)) ^ (br ^ c),
{
    assert((t ^ bx) ^ c == (t ^ (bx ^ br)) ^ (br ^ c)) by (bit_vector);
}

pub open spec fn all_roots(p: Seq<u8>, xs: Seq<u8>) -> bool {
    forall|m: int| 0 <= m < xs.len() ==> poly::value(p, #[trigger] xs[m]) == 0
}

/// A polynomial has no more roots than its degree.
pub proof fn lemma_root_count(p: Seq<u8>, xs: Seq<u8>)
    requires
        p.len() > 0,
        p[0] != 0,
        xs.no_duplicates(),
        all_roots(p, xs),
    ensures
        xs.len() < p.len(),
    decreases xs.len(),
{
    if xs.len() > 0 {
        let r = xs.last();
        let ys = xs.drop_last();
        let q = deflated(p, r);
        assert(poly::value(p, r) == 0);
        if p.len() == 1 {
            assert(poly::value(p.drop_last(), r) == 0);
            gf::lemma_mul_unit(r);
            gf::lemma_xor(p[0], 0, 0);
        } else {
            assert(poly::value(p.take(1).drop_last(), r) == 0);
            gf::lemma_mul_unit(r);
            gf::lemma_xor(p[0], 0, 0);
            assert(q[0] == p[0]);
            assert forall|m: int| 0 <= m < ys.len() implies poly::value(q, #[trigger] ys[m]) == 0 by {
                let x = xs[m];
                assert(x != r);
                assert(poly::value(p, x) == 0);
                lemma_deflated(p, r, x);
                gf::lemma_xor(gf::prod(poly::value(q, x), x ^ r), 0, 0);
                gf::lemma_xor(x, r, 0);
                gf::lemma_no_zero_divisors(poly::value(q, x), x ^ r);
            }
            lemma_root_count(q, ys);
        }
    }
}

/// The sum of `ys[m] * xs[m]^i`.
pub open spec fn moment(xs: Seq<u8>, ys: Seq<u8>, i: nat) -> u8 {
    poly::xsum(|m: int| gf::prod(ys[m], gf::power(xs[m], i)), xs.len())
}

/// Sums of the first powers of distinct points vanish only if every weight does.
pub proof fn lemma_moments_vanish(xs: Seq<u8>, ys: Seq<u8>)
    requires
        xs.no_duplicates(),
        xs.len() == ys.len(),
        forall|i: nat| i < xs.len() ==> #[trigger] moment(xs, ys, i) == 0,
    ensures
        forall|m: int| 0 <= m < ys.len() ==> ys[m] == 0,
    decreases xs.len(),
{
    if xs.len() > 0 {
        let n = (xs.len() - 1) as nat;
        let x = xs.last();
        let us = xs.drop_last();
        let vs = Seq::new(n, |m: int| gf::prod(ys[m], xs[m] ^ x));
        assert forall|i: nat| i < n implies #[trigger] moment(us, vs, i) == 0 by {
            assert(moment(xs, ys, i) == 0);
            assert(moment(xs, ys, i + 1) == 0);
            lemma_moment_shift(xs, ys, i);
            let f = |m: int| gf::prod(vs[m], gf::power(us[m], i));
            let g = |m: int| gf::prod(gf::prod(ys[m], xs[m] ^ x), gf::power(xs[m], i));
            poly::lemma_xsum_ext(g, f, n);
            assert(g(n as int) == 0) by {
                gf::lemma_xor(x, x, 0);
                gf::lemma_mul_unit(ys[n as int]);
                gf::lemma_mul_unit(gf::power(x, i));
            }
            gf::lemma_xor(poly::xsum(g, n), 0, 0);
        }
        lemma_moments_vanish(us, vs);
        assert forall|m: int| 0 <= m < n implies ys[m] == 0 by {
            assert(vs[m] == 0);
            gf::lemma_no_zero_divisors(ys[m], xs[m] ^ x);
            gf::lemma_xor(xs[m], x, 0);
            assert(us[m] == xs[m]);
            assert(xs[m] != xs[n as int]);
        }
        let h = |m: int| gf::prod(ys[m], gf::power(xs[m], 0));
        assert(moment(xs, ys, 0) == 0);
        assert forall|m: int| 0 <= m < n implies #[trigger] h(m) == 0 by {
            gf::lemma_mul_unit(gf::power(xs[m], 0));
        }
        poly::lemma_xsum_single(h, xs.len(), n as int);
        gf::lemma_mul_unit(ys[n as int]);
    }
}

proof fn lemma_moment_shift(xs: Seq<u8>, ys: Seq<u8>, i: nat)
    requires
        xs.len() > 0,
        xs.len() == ys.len(),
        moment(xs, ys, i) == 0,
        moment(xs, ys, i + 1) == 0,
    ensures
        poly::xsum(
            |m: int| gf::prod(gf::prod(ys[m], xs[m] ^ xs.last()), gf::power(xs[m], i)),
            xs.len(),
        ) == 0,
{
    let x = xs.last();
    let f = |m: int| gf::prod(ys[m], gf::power(xs[m], i));
    let h = |m: int| gf::prod(ys[m], gf::power(xs[m], i + 1));
    let g = |m: int| gf::prod(gf::prod(ys[m], xs[m] ^ x), gf::power(xs[m], i));
    let fx = |m: int| gf::prod(x, f(m));
    poly::lemma_xsum_scale(f, xs.len(), x);
    gf::lemma_mul_unit(x);
    poly::lemma_xsum_xor(h, fx, xs.len());
    assert forall|m: int| 0 <= m < xs.len() implies h(m) ^ fx(m) == #[trigger] g(m) by {
        let y = ys[m];
        let p = gf::power(xs[m], i);
        assert(gf::power(xs[m], i + 1) == gf::prod(xs[m], p));
        gf::lemma_mul_linear(xs[m], x, y);
        gf::lemma_mul_linear(gf::prod(y, xs[m]), gf::prod(y, x), p);
        gf::lemma_mul_assoc(y, xs[m], p);
        gf::lemma_mul_assoc(x, y, p);
        gf::lemma_mul_comm(x, y);
    }
    poly::lemma_xsum_ext(|m: int| h(m) ^ fx(m), g, xs.len());
    gf::lemma_xor(0, 0, 0);
}

/// `p` times `x - r`.
pub open spec fn times_root(p: Seq<u8>, r: u8) -> Seq<u8> {
    Seq::new(
        p.len() + 1,
        |k: int|
            (if k < p.len() {
                p[k]
            } else {
                0
            }) ^ (if k >= 1 {
                gf::prod(p[k - 1], r)
            } else {
                0
            }),
    )
}

/// The product of `x - r` over the given roots.
pub open spec fn monic(xs: Seq<u8>) -> Seq<u8>
    decreases xs.len(),
{
    if xs.len() == 0 {
        seq![1u8]
    } else {
        times_root(monic(xs.drop_last()), xs.last())
    }
}

/// The product of `x - r` over the given roots, as a value.
pub open spec fn root_product(xs: Seq<u8>, x: u8) -> u8
    decreases xs.len(),
{
    if xs.len() == 0 {
        1
    } else {
        gf::prod(root_product(xs.drop_last(), x), x ^ xs.last())
    }
}

pub proof fn lemma_value_times_root(p: Seq<u8>, r: u8, x: u8)
    ensures
        poly::value(times_root(p, r), x) == gf::prod(poly::value(p, x), x ^ r),
{
    // times_root(p, r) is p shifted up, plus r times p
    let up = p + poly::zeros(1);
    let low = poly::zeros(1) + poly::scaled(p, r);
    assert(times_root(p, r) =~= poly::xor_seq(up, low)) by {
        assert forall|k: int| 0 <= k < p.len() + 1 implies times_root(p, r)[k] == up[k] ^ low[k] by {}
    }
    poly::lemma_value_xor(up, low, x);
    poly::lemma_value_trailing_zeros(p, 1, x);
    poly::lemma_value_leading_zeros(1, poly::scaled(p, r), x);
    poly::lemma_value_scaled(p, r, x);
    assert(gf::power(x, 1) == gf::prod(x, gf::power(x, 0)));
    gf::lemma_mul_unit(x);
    gf::lemma_mul_linear(x, r, poly::value(p, x));
}

pub proof fn lemma_monic(xs: Seq<u8>)
    ensures
        monic(xs).len() == xs.len() + 1,
        monic(xs)[0] == 1,
    decreases xs.len(),
{
    if xs.len() > 0 {
        lemma_monic(xs.drop_last());
        gf::lemma_xor(1, 0, 0);
    }
}

pub proof fn lemma_monic_value(xs: Seq<u8>, x: u8)
    ensures
        poly::value(monic(xs), x) == root_product(xs, x),
    decreases xs.len(),
{
    if xs.len() > 0 {
        lemma_monic_value(xs.drop_last(), x);
        lemma_value_times_root(monic(xs.drop_last()), xs.last(), x);
    } else {
        let p = seq![1u8];
        assert(poly::value(p.drop_last(), x) == 0);
        gf::lemma_mul_unit(x);
        gf::lemma_xor(1, 0, 0);
    }
}

/// A product of differences is zero exactly at the roots.
pub proof fn lemma_root_product_zero(xs: Seq<u8>, x: u8)
    ensures
        root_product(xs, x) == 0 <==> xs.contains(x),
    decreases xs.len(),
{
    if xs.len() > 0 {
        let ys = xs.drop_last();
        lemma_root_product_zero(ys, x);
        gf::lemma_no_zero_divisors(root_product(ys, x), x ^ xs.last());
        gf::lemma_xor(x, xs.last(), 0);
        assert(xs.contains(x) <==> ys.contains(x) || x == xs.last()) by {
            if xs.contains(x) {
                let i = choose|i: int| 0 <= i < xs.len() && xs[i] == x;
                if i < ys.len() {
                    assert(ys[i] == x);
                }
            }
            if ys.contains(x) {
                let i = choose|i: int| 0 <= i < ys.len() && ys[i] == x;
                assert(xs[i] == x);
            }
            if x == xs.last() {
                assert(xs[xs.len() - 1] == x);
            }
        }
    }
}

proof fn lemma_times_root_swap(p: Seq<u8>, a: u8, b: u8)
    ensures
        times_root(times_root(p, a), b) =~= times_root(times_root(p, b), a),
{
    let l = times_root(times_root(p, a), b);
    let r = times_root(times_root(p, b), a);
    assert forall|k: int| 0 <= k < p.len() + 2 implies l[k] == r[k] by {
        let u = if k < p.len() {
            p[k]
        } else {
            0
        };
        let v = if 1 <= k <= p.len() {
            p[k - 1]
        } else {
            0
        };
        let w = if 2 <= k {
            p[k - 2]
        } else {
            0
        };
        lemma_two_factors(u, v, w, a, b);
        gf::lemma_mul_unit(a);
        gf::lemma_mul_unit(b);
        gf::lemma_xor(u, 0, 0);
        gf::lemma_xor(gf::prod(v, a), 0, 0);
        gf::lemma_xor(gf::prod(v, b), 0, 0);
        gf::lemma_xor(gf::prod(w, a), 0, 0);
        gf::lemma_xor(gf::prod(w, b), 0, 0);
        gf::lemma_xor(0, 0, 0);
        assert(l[k] == (u ^ gf::prod(v, a)) ^ gf::prod(v ^ gf::prod(w, a), b));
        assert(r[k] == (u ^ gf::prod(v, b)) ^ gf::prod(v ^ gf::prod(w, b), a));
    }
}

proof fn lemma_two_factors(u: u8, v: u8, w: u8, a: u8, b: u8)
    ensures
        (u ^ gf::prod(v, a)) ^ gf::prod(v ^ gf::prod(w, a), b) == (u ^ gf::prod(v, b)) ^ gf::prod(
            v ^ gf::prod(w, b),
            a,
        ),
{
    gf::lemma_mul_linear(v, gf::prod(w, a), b);
    gf::lemma_mul_linear(v, gf::prod(w, b), a);
    gf::lemma_mul_assoc(w, a, b);
    gf::lemma_mul_comm(a, b);
    gf::lemma_mul_assoc(w, b, a);
    let va = gf::prod(v, a);
    let vb = gf::prod(v, b);
    let t = gf::prod(gf::prod(w, a), b);
    assert((u ^ va) ^ (vb ^ t) == (u ^ vb) ^ (va ^ t)) by (bit_vector);
}

/// Any root can be taken as the last factor.
pub proof fn lemma_monic_take_out(xs: Seq<u8>, i: int)
    requires
        0 <= i < xs.len(),
    ensures
        monic(xs) == times_root(monic(xs.remove(i)), xs[i]),
    decreases xs.len(),
{
    let n = xs.len() - 1;
    let ys = xs.drop_last();
    if i == n {
        assert(xs.remove(i) =~= ys);
    } else {
        lemma_monic_take_out(ys, i);
        let zs = xs.remove(i);
        assert(zs.drop_last() =~= ys.remove(i));
        assert(zs.last() == xs.last());
        lemma_times_root_swap(monic(ys.remove(i)), xs[i], xs.last());
    }
}

/// Dividing out a root undoes multiplying it in.
pub proof fn lemma_deflate_times_root(p: Seq<u8>, r: u8)
    ensures
        deflated(times_root(p, r), r) =~= p,
{
    let q = times_root(p, r);
    assert forall|k: int| 0 <= k < p.len() implies deflated(q, r)[k] == p[k] by {
        lemma_horner_times_root(p, r, k);
    }
}

proof fn lemma_horner_times_root(p: Seq<u8>, r: u8, k: int)
    requires
        0 <= k < p.len(),
    ensures
        poly::value(times_root(p, r).take(k + 1), r) == p[k],
    decreases k,
{
    let q = times_root(p, r);
    let t = q.take(k + 1);
    assert(t.drop_last() =~= q.take(k));
    if k == 0 {
        assert(poly::value(t.drop_last(), r) == 0);
        gf::lemma_mul_unit(r);
        gf::lemma_xor(p[0], 0, 0);
    } else {
        lemma_horner_times_root(p, r, k - 1);
        let a = gf::prod(p[k - 1], r);
        gf::lemma_xor(p[k], a, 0);
        gf::lemma_xor(a, p[k], 0);
    }
}

} // verus!
