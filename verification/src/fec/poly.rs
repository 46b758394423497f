//! Polynomials over GF(256) as sequences of coefficients, the highest first.

use vstd::prelude::*;
use crate::fec::gf;

verus! {

/// The sum of `f(0)`, .., `f(n - 1)` in the field.
pub open spec fn xsum(f: spec_fn(int) -> u8, n: nat) -> u8
    decreases n,
{
    if n == 0 {
        0
    } else {
        xsum(f, (n - 1) as nat) ^ f(n - 1)
    }
}

/// The value of `p` at `x`.
pub open spec fn value(p: Seq<u8>, x: u8) -> u8
    decreases p.len(),
{
    if p.len() == 0 {
        0
    } else {
        gf::prod(value(p.drop_last(), x), x) ^ p.last()
    }
}

/// Term `k` of the product of `p` and `q`, counted as in the two factors.
pub open spec fn conv(p: Seq<u8>, q: Seq<u8>, k: int) -> u8 {
    xsum(
        |i: int|
            if 0 <= k - i < q.len() {
                gf::prod(p[i], q[k - i])
            } else {
                0
            },
        p.len(),
    )
}

/// Coefficient `k` of `p` when `p` is written with `len` coefficients.
pub open spec fn aligned(p: Seq<u8>, len: int, k: int) -> u8 {
    if k >= len - p.len() {
        p[k - (len - p.len())]
    } else {
        0
    }
}

pub open spec fn zeros(n: nat) -> Seq<u8> {
    Seq::new(n, |i: int| 0u8)
}

/// The sum of two sequences of one length, term by term.
pub open spec fn xor_seq(p: Seq<u8>, q: Seq<u8>) -> Seq<u8> {
    Seq::new(p.len(), |i: int| p[i] ^ q[i])
}

pub open spec fn scaled(p: Seq<u8>, c: u8) -> Seq<u8> {
    Seq::new(p.len(), |i: int| gf::prod(p[i], c))
}

pub proof fn lemma_xsum_ext(f: spec_fn(int) -> u8, g: spec_fn(int) -> u8, n: nat)
    requires
        forall|i: int| 0 <= i < n ==> f(i) == #[trigger] g(i),
    ensures
        xsum(f, n) == xsum(g, n),
    decreases n,
{
    if n > 0 {
        lemma_xsum_ext(f, g, (n - 1) as nat);
        assert(f(n - 1) == g(n - 1));
    }
}

pub proof fn lemma_xsum_zero(f: spec_fn(int) -> u8, n: nat)
    requires
        forall|i: int| 0 <= i < n ==> #[trigger] f(i) == 0,
    ensures
        xsum(f, n) == 0,
    decreases n,
{
    if n > 0 {
        lemma_xsum_zero(f, (n - 1) as nat);
        assert(f(n - 1) == 0);
        gf::lemma_xor(0, 0, 0);
    }
}

/// A sum in which only the term `j` is not zero.
pub proof fn lemma_xsum_single(f: spec_fn(int) -> u8, n: nat, j: int)
    requires
        0 <= j < n,
        forall|i: int| 0 <= i < n && i != j ==> #[trigger] f(i) == 0,
    ensures
        xsum(f, n) == f(j),
    decreases n,
{
    if j == n - 1 {
        lemma_xsum_zero(f, (n - 1) as nat);
        gf::lemma_xor(f(j), 0, 0);
    } else {
        lemma_xsum_single(f, (n - 1) as nat, j);
        assert(f(n - 1) == 0);
        gf::lemma_xor(f(j), 0, 0);
    }
}

pub proof fn lemma_xsum_xor(f: spec_fn(int) -> u8, g: spec_fn(int) -> u8, n: nat)
    ensures
        xsum(|i: int| f(i) ^ g(i), n) == xsum(f, n) ^ xsum(g, n),
    decreases n,
{
    if n > 0 {
        let m = (n - 1) as nat;
        lemma_xsum_xor(f, g, m);
        gf::lemma_xor4(xsum(f, m), xsum(g, m), f(n - 1), g(n - 1));
    } else {
        gf::lemma_xor(0, 0, 0);
    }
}

pub proof fn lemma_xsum_scale(f: spec_fn(int) -> u8, n: nat, c: u8)
    ensures
        xsum(|i: int| gf::prod(c, f(i)), n) == gf::prod(c, xsum(f, n)),
    decreases n,
{
    gf::lemma_mul_unit(c);
    if n > 0 {
        let m = (n - 1) as nat;
        lemma_xsum_scale(f, m, c);
        gf::lemma_mul_linear(xsum(f, m), f(n - 1), c);
    }
}

/// The order of a double sum does not matter.
pub proof fn lemma_xsum_swap(f: spec_fn(int, int) -> u8, n: nat, m: nat)
    ensures
        xsum(|i: int| xsum(|j: int| f(i, j), m), n) == xsum(|j: int| xsum(|i: int| f(i, j), n), m),
    decreases n,
{
    if n == 0 {
        lemma_xsum_zero(|j: int| xsum(|i: int| f(i, j), 0), m);
    } else {
        let k = (n - 1) as nat;
        lemma_xsum_swap(f, k, m);
        let g = |j: int| xsum(|i: int| f(i, j), k);
        let h = |j: int| f(n - 1, j);
        lemma_xsum_xor(g, h, m);
        lemma_xsum_ext(|j: int| g(j) ^ h(j), |j: int| xsum(|i: int| f(i, j), n), m);
        let inner = |i: int| xsum(|j: int| f(i, j), m);
        assert(inner(n - 1) == xsum(h, m)) by {
            lemma_xsum_ext(|j: int| f(n - 1, j), h, m);
        }
    }
}

/// A sum read backwards.
pub proof fn lemma_xsum_reverse(f: spec_fn(int) -> u8, n: nat)
    ensures
        xsum(f, n) == xsum(|i: int| f(n - 1 - i), n),
    decreases n,
{
    if n > 0 {
        let m = (n - 1) as nat;
        lemma_xsum_reverse(f, m);
        let g = |i: int| f(n - 1 - i);
        lemma_xsum_first(g, m);
        lemma_xsum_ext(|i: int| f(m - 1 - i), |i: int| g(i + 1), m);
        gf::lemma_xor(xsum(f, m), f(n - 1), 0);
    }
}

/// The first term taken out of a sum.
pub proof fn lemma_xsum_first(f: spec_fn(int) -> u8, n: nat)
    ensures
        xsum(f, n + 1) == f(0) ^ xsum(|i: int| f(i + 1), n),
    decreases n,
{
    let g = |i: int| f(i + 1);
    if n == 0 {
        assert(xsum(f, 1) == xsum(f, 0) ^ f(0));
        gf::lemma_xor(f(0), 0, 0);
    } else {
        let m = (n - 1) as nat;
        lemma_xsum_first(f, m);
        assert(xsum(f, n + 1) == xsum(f, n) ^ f(n as int));
        gf::lemma_xor(f(0), xsum(g, m), f(n as int));
    }
}

/// Terms beyond `n` that are all zero add nothing.
pub proof fn lemma_xsum_extend(f: spec_fn(int) -> u8, n: nat, m: nat)
    requires
        n <= m,
        forall|i: int| n <= i < m ==> #[trigger] f(i) == 0,
    ensures
        xsum(f, m) == xsum(f, n),
    decreases m,
{
    if n < m {
        lemma_xsum_extend(f, n, (m - 1) as nat);
        assert(f(m - 1) == 0);
        gf::lemma_xor(xsum(f, n), 0, 0);
    }
}

/// The value of a polynomial as the sum of its terms.
pub proof fn lemma_value_sum(p: Seq<u8>, x: u8)
    ensures
        value(p, x) == xsum(
            |i: int| gf::prod(p[i], gf::power(x, (p.len() - 1 - i) as nat)),
            p.len(),
        ),
    decreases p.len(),
{
    if p.len() > 0 {
        let q = p.drop_last();
        lemma_value_sum(q, x);
        let n = q.len();
        let f = |i: int| gf::prod(q[i], gf::power(x, (n - 1 - i) as nat));
        let g = |i: int| gf::prod(p[i], gf::power(x, (p.len() - 1 - i) as nat));
        lemma_xsum_scale(f, n, x);
        gf::lemma_mul_comm(x, xsum(f, n));
        assert forall|i: int| 0 <= i < n implies gf::prod(x, f(i)) == #[trigger] g(i) by {
            let e = (n - 1 - i) as nat;
            assert((p.len() - 1 - i) as nat == e + 1);
            assert(gf::power(x, e + 1) == gf::prod(x, gf::power(x, e)));
            gf::lemma_mul_assoc(x, p[i], gf::power(x, e));
            gf::lemma_mul_comm(x, p[i]);
            gf::lemma_mul_assoc(p[i], x, gf::power(x, e));
        }
        lemma_xsum_ext(|i: int| gf::prod(x, f(i)), g, n);
        assert(g(n as int) == gf::prod(p.last(), gf::power(x, 0)));
        gf::lemma_mul_unit(p.last());
    }
}

pub proof fn lemma_value_xor(p: Seq<u8>, q: Seq<u8>, x: u8)
    requires
        p.len() == q.len(),
    ensures
        value(xor_seq(p, q), x) == value(p, x) ^ value(q, x),
    decreases p.len(),
{
    let s = xor_seq(p, q);
    if p.len() > 0 {
        let p1 = p.drop_last();
        let q1 = q.drop_last();
        assert(s.drop_last() =~= xor_seq(p1, q1));
        lemma_value_xor(p1, q1, x);
        gf::lemma_mul_linear(value(p1, x), value(q1, x), x);
        gf::lemma_xor4(
            gf::prod(value(p1, x), x),
            gf::prod(value(q1, x), x),
            p.last(),
            q.last(),
        );
    } else {
        gf::lemma_xor(0, 0, 0);
    }
}

pub proof fn lemma_value_scaled(p: Seq<u8>, c: u8, x: u8)
    ensures
        value(scaled(p, c), x) == gf::prod(value(p, x), c),
    decreases p.len(),
{
    let s = scaled(p, c);
    gf::lemma_mul_unit(c);
    if p.len() > 0 {
        let q = p.drop_last();
        assert(s.drop_last() =~= scaled(q, c));
        lemma_value_scaled(q, c, x);
        let v = value(q, x);
        gf::lemma_mul_assoc(v, c, x);
        gf::lemma_mul_comm(c, x);
        gf::lemma_mul_assoc(v, x, c);
        gf::lemma_mul_linear(gf::prod(v, x), p.last(), c);
    }
}

/// Leading zeros do not change the value.
pub proof fn lemma_value_leading_zeros(n: nat, p: Seq<u8>, x: u8)
    ensures
        value(zeros(n) + p, x) == value(p, x),
    decreases n + p.len(),
{
    let s = zeros(n) + p;
    if p.len() > 0 {
        assert(s.drop_last() =~= zeros(n) + p.drop_last());
        lemma_value_leading_zeros(n, p.drop_last(), x);
    } else if n > 0 {
        let m = (n - 1) as nat;
        assert(s.drop_last() =~= zeros(m) + p);
        lemma_value_leading_zeros(m, p, x);
        gf::lemma_mul_unit(x);
        gf::lemma_xor(0, 0, 0);
    }
}

/// Trailing zeros multiply the value by a power of the point.
pub proof fn lemma_value_trailing_zeros(p: Seq<u8>, n: nat, x: u8)
    ensures
        value(p + zeros(n), x) == gf::prod(value(p, x), gf::power(x, n)),
    decreases n,
{
    let s = p + zeros(n);
    if n == 0 {
        assert(s =~= p);
        gf::lemma_mul_unit(value(p, x));
    } else {
        let m = (n - 1) as nat;
        assert(s.drop_last() =~= p + zeros(m));
        lemma_value_trailing_zeros(p, m, x);
        let v = value(p, x);
        gf::lemma_xor(gf::prod(value(p + zeros(m), x), x), 0, 0);
        gf::lemma_mul_assoc(v, gf::power(x, m), x);
        gf::lemma_mul_comm(gf::power(x, m), x);
    }
}

/// The part of term `k` of a product that comes from `p[i]` and the first `j` coefficients of `q`.
pub open spec fn term_below(p: Seq<u8>, q: Seq<u8>, k: int, i: int, j: int) -> u8 {
    if 0 <= k - i < j {
        gf::prod(p[i], q[k - i])
    } else {
        0
    }
}

pub proof fn lemma_term_step(p: Seq<u8>, q: Seq<u8>, k: int, j: int)
    requires
        0 <= j < q.len(),
    ensures
        xsum(|i: int| term_below(p, q, k, i, j + 1), p.len()) == xsum(
            |i: int| term_below(p, q, k, i, j),
            p.len(),
        ) ^ (if 0 <= k - j < p.len() {
            gf::prod(p[k - j], q[j])
        } else {
            0
        }),
{
    let f = |i: int| term_below(p, q, k, i, j);
    let g = |i: int|
        if i == k - j {
            gf::prod(p[i], q[j])
        } else {
            0
        };
    lemma_xsum_xor(f, g, p.len());
    assert forall|i: int| 0 <= i < p.len() implies f(i) ^ g(i) == #[trigger] term_below(
        p,
        q,
        k,
        i,
        j + 1,
    ) by {
        gf::lemma_xor(f(i), 0, 0);
        gf::lemma_xor(g(i), 0, 0);
    }
    let h = |i: int| term_below(p, q, k, i, j + 1);
    assert forall|i: int| 0 <= i < p.len() implies f(i) ^ g(i) == #[trigger] h(i) by {}
    lemma_xsum_ext(|i: int| f(i) ^ g(i), h, p.len());
    if 0 <= k - j < p.len() {
        lemma_xsum_single(g, p.len(), k - j);
    } else {
        lemma_xsum_zero(g, p.len());
    }
}

pub proof fn lemma_conv_push(p: Seq<u8>, q: Seq<u8>, k: int)
    requires
        p.len() > 0,
    ensures
        conv(p, q, k) == conv(p.drop_last(), q, k) ^ (if 0 <= k - (p.len() - 1) < q.len() {
            gf::prod(p.last(), q[k - (p.len() - 1)])
        } else {
            0
        }),
{
    let f = |i: int|
        if 0 <= k - i < q.len() {
            gf::prod(p[i], q[k - i])
        } else {
            0
        };
    let d = p.drop_last();
    let g = |i: int|
        if 0 <= k - i < q.len() {
            gf::prod(d[i], q[k - i])
        } else {
            0
        };
    lemma_xsum_ext(f, g, d.len());
}

/// Term `k` of a product with a polynomial of two coefficients.
pub proof fn lemma_conv_linear(p: Seq<u8>, q: Seq<u8>, k: int)
    requires
        q.len() == 2,
        0 <= k <= p.len(),
    ensures
        conv(p, q, k) == (if k < p.len() {
            gf::prod(p[k], q[0])
        } else {
            0
        }) ^ (if k >= 1 {
            gf::prod(p[k - 1], q[1])
        } else {
            0
        }),
{
    let f = |i: int|
        if i == k {
            gf::prod(p[i], q[0])
        } else {
            0
        };
    let g = |i: int|
        if i == k - 1 {
            gf::prod(p[i], q[1])
        } else {
            0
        };
    let h = |i: int|
        if 0 <= k - i < q.len() {
            gf::prod(p[i], q[k - i])
        } else {
            0
        };
    assert forall|i: int| 0 <= i < p.len() implies f(i) ^ g(i) == #[trigger] h(i) by {
        gf::lemma_xor(f(i), 0, 0);
        gf::lemma_xor(g(i), 0, 0);
    }
    lemma_xsum_xor(f, g, p.len());
    lemma_xsum_ext(|i: int| f(i) ^ g(i), h, p.len());
    if k < p.len() {
        lemma_xsum_single(f, p.len(), k);
    } else {
        lemma_xsum_zero(f, p.len());
    }
    if k >= 1 {
        lemma_xsum_single(g, p.len(), k - 1);
    } else {
        lemma_xsum_zero(g, p.len());
    }
}

/// A product does not depend on the order of its factors.
pub proof fn lemma_conv_comm(p: Seq<u8>, q: Seq<u8>, k: int)
    ensures
        conv(p, q, k) == conv(q, p, k),
{
    let f = |i: int, j: int|
        if i + j == k {
            gf::prod(p[i], q[j])
        } else {
            0
        };
    lemma_xsum_swap(f, p.len(), q.len());
    let fp = |i: int|
        if 0 <= k - i < q.len() {
            gf::prod(p[i], q[k - i])
        } else {
            0
        };
    let fq = |j: int|
        if 0 <= k - j < p.len() {
            gf::prod(q[j], p[k - j])
        } else {
            0
        };
    let gp = |i: int| xsum(|j: int| f(i, j), q.len());
    let gq = |j: int| xsum(|i: int| f(i, j), p.len());
    assert forall|i: int| 0 <= i < p.len() implies gp(i) == #[trigger] fp(i) by {
        let h = |j: int| f(i, j);
        if 0 <= k - i < q.len() {
            lemma_xsum_single(h, q.len(), k - i);
        } else {
            lemma_xsum_zero(h, q.len());
        }
    }
    assert forall|j: int| 0 <= j < q.len() implies gq(j) == #[trigger] fq(j) by {
        let h = |i: int| f(i, j);
        if 0 <= k - j < p.len() {
            lemma_xsum_single(h, p.len(), k - j);
            gf::lemma_mul_comm(p[k - j], q[j]);
        } else {
            lemma_xsum_zero(h, p.len());
        }
    }
    lemma_xsum_ext(gp, fp, p.len());
    lemma_xsum_ext(gq, fq, q.len());
}

/// Reversing both factors reverses the product.
pub proof fn lemma_conv_reverse(p: Seq<u8>, q: Seq<u8>, k: int)
    ensures
        conv(p, q, p.len() + q.len() - 2 - k) == conv(p.reverse(), q.reverse(), k),
{
    let n = p.len();
    let f = |i: int|
        if 0 <= n + q.len() - 2 - k - i < q.len() {
            gf::prod(p[i], q[n + q.len() - 2 - k - i])
        } else {
            0
        };
    let g = |i: int|
        if 0 <= k - i < q.reverse().len() {
            gf::prod(p.reverse()[i], q.reverse()[k - i])
        } else {
            0
        };
    lemma_xsum_reverse(f, n);
    lemma_xsum_ext(|i: int| f(n - 1 - i), g, n);
    let h = |i: int|
        if 0 <= (n + q.len() - 2 - k) - i < q.len() {
            gf::prod(p[i], q[(n + q.len() - 2 - k) - i])
        } else {
            0
        };
    lemma_xsum_ext(f, h, n);
}

/// Term `k` of a product is linear in the first factor.
pub proof fn lemma_conv_scaled(p: Seq<u8>, c: u8, q: Seq<u8>, k: int)
    ensures
        conv(scaled(p, c), q, k) == gf::prod(c, conv(p, q, k)),
{
    let f = |i: int|
        if 0 <= k - i < q.len() {
            gf::prod(p[i], q[k - i])
        } else {
            0
        };
    let s = scaled(p, c);
    let g = |i: int|
        if 0 <= k - i < q.len() {
            gf::prod(s[i], q[k - i])
        } else {
            0
        };
    assert forall|i: int| 0 <= i < p.len() implies gf::prod(c, f(i)) == #[trigger] g(i) by {
        gf::lemma_mul_unit(c);
        if 0 <= k - i < q.len() {
            gf::lemma_mul_comm(p[i], c);
            gf::lemma_mul_assoc(c, p[i], q[k - i]);
        }
    }
    lemma_xsum_scale(f, p.len(), c);
    lemma_xsum_ext(|i: int| gf::prod(c, f(i)), g, p.len());
}

/// The value of a reversed polynomial at the inverse of a point.
pub proof fn lemma_value_reverse(p: Seq<u8>, x: u8)
    requires
        x != 0,
        p.len() > 0,
    ensures
        gf::prod(value(p.reverse(), gf::inv(x)), gf::power(x, (p.len() - 1) as nat)) == value(p, x),
{
    let z = gf::inv(x);
    let n = p.len();
    let q = p.reverse();
    let w = gf::power(x, (n - 1) as nat);
    lemma_value_sum(q, z);
    lemma_value_sum(p, x);
    let f = |i: int| gf::prod(q[i], gf::power(z, (q.len() - 1 - i) as nat));
    let g = |i: int| gf::prod(p[i], gf::power(x, (p.len() - 1 - i) as nat));
    lemma_xsum_reverse(g, n);
    let h = |i: int| g(n - 1 - i);
    lemma_xsum_scale(f, n, w);
    assert forall|i: int| 0 <= i < n implies gf::prod(w, f(i)) == #[trigger] h(i) by {
        let a = (n - 1 - i) as nat;
        let b = i as nat;
        // x^(n-1) z^a = x^b x^a z^a = x^b
        gf::lemma_pow_add(x, b, a);
        assert(b + a == n - 1);
        gf::lemma_power_inverse(x, a);
        gf::lemma_mul_comm(w, f(i));
        gf::lemma_mul_assoc(q[i], gf::power(z, a), w);
        gf::lemma_mul_comm(gf::power(z, a), w);
        gf::lemma_mul_assoc(gf::power(x, b), gf::power(x, a), gf::power(z, a));
        gf::lemma_mul_unit(gf::power(x, b));
        assert((p.len() - 1 - (n - 1 - i)) as nat == b);
    }
    lemma_xsum_ext(|i: int| gf::prod(w, f(i)), h, n);
    gf::lemma_mul_comm(w, xsum(f, n));
}

} // verus!
