//! Arithmetic in GF(256) by logarithm tables, and polynomials over it.
//!
//! The reduction polynomial is 0x11D (x^8 + x^4 + x^3 + x^2 + 1) and the generator is 2, the pair
//! that QR codes and DVB use. Polynomials hold the highest coefficient first.

use vstd::prelude::*;
use vstd::slice::{slice_subrange, slice_to_vec};
use crate::fec::gf;
use crate::fec::poly;

verus! {

const PRIM: u16 = 0x11D;

/// Powers and logarithms of the generator. The powers are held twice over, so that a sum of two
/// logarithms is an index without a reduction.
pub struct Tables {
    pub exp: [u8; 512],
    pub log: [u8; 256],
}

impl Tables {
    pub open spec fn wf(&self) -> bool {
        &&& forall|i: int| 0 <= i < 512 ==> self.exp@[i] == gf::alpha(i as nat)
        &&& forall|x: u8| x != 0 ==> self.log@[x as int] == gf::log(x)
    }
}

fn tables() -> (t: Tables)
    ensures
        t.wf(),
{
    let mut exp: [u8; 512] = [0u8; 512];
    let mut log: [u8; 256] = [0u8; 256];
    let mut x: u16 = 1;
    let mut i: usize = 0;
    proof {
        gf::lemma_alpha_step(0);
    }
    while i < 255
        invariant
            i <= 255,
            x == gf::alpha(i as nat),
            forall|j: int| 0 <= j < i ==> exp@[j] == gf::alpha(j as nat),
            forall|j: int| #![trigger gf::alpha(j as nat)] 0 <= j < i ==> log@[gf::alpha(j as nat) as int] == j,
        decreases 255 - i,
    {
        let ghost a = gf::alpha(i as nat);
        assert(a as u16 == x ==> x <= 0xff && x as u8 == a && ((x << 1u16) & 0x100u16 != 0 ==> (
        (x << 1u16) ^ 0x11Du16) == gf::times_alpha(a) as u16) && ((x << 1u16) & 0x100u16 == 0 ==> (x
            << 1u16) == gf::times_alpha(a) as u16)) by (bit_vector);
        exp[i] = x as u8;
        let ghost log0 = log@;
        log[x as usize] = i as u8;
        proof {
            assert forall|j: int| #![trigger gf::alpha(j as nat)] 0 <= j < i + 1 implies log@[gf::alpha(j as nat) as int] == j by {
                if j < i && gf::alpha(j as nat) == a {
                    gf::lemma_alpha_injective(j as nat, i as nat);
                }
            }
            gf::lemma_alpha_step(i as nat);
        }
        x = x << 1;
        if x & 0x100 != 0 {
            x = x ^ PRIM;
        }
        i += 1;
    }
    proof {
        assert forall|v: u8| v != 0 implies log@[v as int] == gf::log(v) by {
            gf::lemma_log(v);
            let j = gf::log(v) as int;
            assert(log@[gf::alpha(j as nat) as int] == j);
        }
    }
    while i < 512
        invariant
            255 <= i <= 512,
            forall|j: int| 0 <= j < i ==> exp@[j] == gf::alpha(j as nat),
        decreases 512 - i,
    {
        proof {
            gf::lemma_alpha_period((i - 255) as nat);
        }
        exp[i] = exp[i - 255];
        i += 1;
    }
    Tables { exp, log }
}

/// The product in the field.
pub fn mul(a: u8, b: u8) -> (r: u8)
    ensures
        r == gf::prod(a, b),
{
    proof {
        gf::lemma_mul_unit(a);
        gf::lemma_mul_unit(b);
    }
    if a == 0 || b == 0 {
        return 0;
    }
    let t = tables();
    proof {
        gf::lemma_log(a);
        gf::lemma_log(b);
        gf::lemma_pow_add(2, gf::log(a), gf::log(b));
    }
    t.exp[t.log[a as usize] as usize + t.log[b as usize] as usize]
}

/// The quotient in the field. The divisor is not zero.
pub fn div(a: u8, b: u8) -> (r: u8)
    requires
        b != 0,
    ensures
        gf::prod(r, b) == a,
{
    proof {
        gf::lemma_mul_unit(b);
    }
    if a == 0 {
        return 0;
    }
    let t = tables();
    proof {
        gf::lemma_log(a);
        gf::lemma_log(b);
        let k = (gf::log(a) + 255 - gf::log(b)) as nat;
        gf::lemma_pow_add(2, k, gf::log(b));
        gf::lemma_alpha_period(k);
        gf::lemma_alpha_period(gf::log(a));
    }
    t.exp[(t.log[a as usize] as usize + 255 - t.log[b as usize] as usize) % 255]
}

/// The multiplicative inverse of a byte that is not zero.
pub fn inverse(a: u8) -> (r: u8)
    requires
        a != 0,
    ensures
        r == gf::inv(a),
        gf::prod(a, r) == 1,
{
    let t = tables();
    proof {
        gf::lemma_log(a);
        gf::lemma_inv(a);
    }
    t.exp[255 - t.log[a as usize] as usize]
}

/// `x` to an integer power, zero for `x` zero. A negative power is one of the inverse.
pub fn pow(x: u8, power: i32) -> (r: u8)
    requires
        x != 0 ==> i32::MIN <= gf::log(x) * power <= i32::MAX,
    ensures
        x == 0 ==> r == 0,
        x != 0 && power >= 0 ==> r == gf::power(x, power as nat),
        x != 0 && power < 0 ==> r == gf::power(gf::inv(x), (-power) as nat),
{
    let t = tables();
    if x == 0 {
        return 0;
    }
    proof {
        gf::lemma_log(x);
    }
    let e: i32 = t.log[x as usize] as i32 * power;
    let m: i32 = match e.checked_rem_euclid(255) {
        Some(m) => m,
        None => 0,
    };
    proof {
        let k = gf::log(x);
        assert(m == (k * power) % 255);
        if power >= 0 {
            gf::lemma_power_of_alpha(k, power as nat);
            assert(k * power >= 0) by (nonlinear_arith)
                requires
                    k >= 0,
                    power >= 0,
            ;
            gf::lemma_alpha_congruent(m as nat, k * (power as nat));
        } else {
            let n = (-power) as nat;
            let j = (255 - k) as nat;
            gf::lemma_power_of_alpha(j, n);
            assert(j * n == k * power + 255 * n) by (nonlinear_arith)
                requires
                    j == 255 - k,
                    n == -power,
            ;
            assert((k * power + 255 * n) % 255 == (k * power) % 255);
            gf::lemma_alpha_congruent(m as nat, j * n);
        }
    }
    t.exp[m as usize]
}

/// Every coefficient times `x`.
pub fn poly_scale(p: &[u8], x: u8) -> (r: Vec<u8>)
    ensures
        r@ == poly::scaled(p@, x),
{
    let mut r: Vec<u8> = Vec::with_capacity(p.len());
    let mut i: usize = 0;
    while i < p.len()
        invariant
            i <= p.len(),
            r@ == poly::scaled(p@, x).take(i as int),
        decreases p.len() - i,
    {
        r.push(self::mul(p[i], x));
        i += 1;
    }
    r
}

/// The sum of two polynomials, as long as the longer of them.
pub fn poly_add(p: &[u8], q: &[u8]) -> (r: Vec<u8>)
    ensures
        r@.len() == if p@.len() >= q@.len() {
            p@.len()
        } else {
            q@.len()
        },
        forall|k: int|
            0 <= k < r@.len() ==> r@[k] == poly::aligned(p@, r@.len() as int, k) ^ poly::aligned(
                q@,
                r@.len() as int,
                k,
            ),
{
    let len: usize = if p.len() >= q.len() {
        p.len()
    } else {
        q.len()
    };
    let mut r: Vec<u8> = vec![0u8; len];
    let mut i: usize = 0;
    while i < p.len()
        invariant
            i <= p.len() <= len,
            r@.len() == len,
            forall|k: int|
                0 <= k < len ==> r@[k] == if k < len - p.len() + i {
                    poly::aligned(p@, len as int, k)
                } else {
                    0
                },
        decreases p.len() - i,
    {
        r[i + (len - p.len())] = p[i];
        i += 1;
    }
    let mut j: usize = 0;
    proof {
        assert forall|k: int| 0 <= k < len implies r@[k] ^ 0 == r@[k] by {
            gf::lemma_xor(r@[k], 0, 0);
        }
    }
    while j < q.len()
        invariant
            j <= q.len() <= len,
            r@.len() == len,
            forall|k: int|
                0 <= k < len ==> r@[k] == poly::aligned(p@, len as int, k) ^ (if k < len - q.len() + j {
                    poly::aligned(q@, len as int, k)
                } else {
                    0
                }),
        decreases q.len() - j,
    {
        let at: usize = j + (len - q.len());
        proof {
            gf::lemma_xor(poly::aligned(p@, len as int, at as int), 0, 0);
        }
        r[at] = r[at] ^ q[j];
        j += 1;
    }
    r
}

/// The product of two polynomials.
pub fn poly_mul(p: &[u8], q: &[u8]) -> (r: Vec<u8>)
    requires
        1 <= p@.len() + q@.len() <= usize::MAX,
    ensures
        r@.len() == p@.len() + q@.len() - 1,
        forall|k: int| 0 <= k < r@.len() ==> r@[k] == poly::conv(p@, q@, k),
{
    let mut r: Vec<u8> = vec![0u8; p.len() + q.len() - 1];
    let mut j: usize = 0;
    proof {
        assert forall|k: int| 0 <= k < r@.len() implies r@[k] == poly::xsum(
            |i: int| poly::term_below(p@, q@, k, i, 0),
            p@.len(),
        ) by {
            poly::lemma_xsum_zero(|i: int| poly::term_below(p@, q@, k, i, 0), p@.len());
        }
    }
    while j < q.len()
        invariant
            j <= q.len(),
            1 <= p@.len() + q@.len() <= usize::MAX,
            r@.len() == p@.len() + q@.len() - 1,
            forall|k: int|
                0 <= k < r@.len() ==> r@[k] == poly::xsum(
                    |i: int| poly::term_below(p@, q@, k, i, j as int),
                    p@.len(),
                ),
        decreases q.len() - j,
    {
        let qj: u8 = q[j];
        let ghost r0 = r@;
        let mut i: usize = 0;
        while i < p.len()
            invariant
                i <= p.len(),
                j < q.len(),
                qj == q@[j as int],
                p@.len() + q@.len() <= usize::MAX,
                r0.len() == p@.len() + q@.len() - 1,
                r@.len() == r0.len(),
                forall|k: int|
                    0 <= k < r@.len() ==> r@[k] == if j <= k < j + i {
                        r0[k] ^ gf::prod(p@[k - j], qj)
                    } else {
                        r0[k]
                    },
            decreases p.len() - i,
        {
            r[i + j] = r[i + j] ^ self::mul(p[i], qj);
            i += 1;
        }
        proof {
            assert forall|k: int| 0 <= k < r@.len() implies r@[k] == poly::xsum(
                |i: int| poly::term_below(p@, q@, k, i, j + 1),
                p@.len(),
            ) by {
                poly::lemma_term_step(p@, q@, k, j as int);
                gf::lemma_xor(r0[k], 0, 0);
            }
        }
        j += 1;
    }
    proof {
        assert forall|k: int| 0 <= k < r@.len() implies r@[k] == poly::conv(p@, q@, k) by {
            poly::lemma_xsum_ext(
                |i: int| poly::term_below(p@, q@, k, i, j as int),
                |i: int|
                    if 0 <= k - i < q@.len() {
                        gf::prod(p@[i], q@[k - i])
                    } else {
                        0
                    },
                p@.len(),
            );
        }
    }
    r
}

/// The value of a polynomial at `x`.
pub fn poly_eval(p: &[u8], x: u8) -> (r: u8)
    requires
        p@.len() >= 1,
    ensures
        r == poly::value(p@, x),
{
    let mut y: u8 = p[0];
    let mut i: usize = 1;
    proof {
        assert(poly::value(p@.take(1).drop_last(), x) == 0);
        gf::lemma_mul_unit(x);
        gf::lemma_xor(y, 0, 0);
    }
    while i < p.len()
        invariant
            1 <= i <= p.len(),
            y == poly::value(p@.take(i as int), x),
        decreases p.len() - i,
    {
        assert(p@.take(i + 1).drop_last() =~= p@.take(i as int));
        y = self::mul(y, x) ^ p[i];
        i += 1;
    }
    assert(p@.take(i as int) =~= p@);
    y
}

/// Synthetic division: the quotient and the remainder. The leading coefficient of the divisor
/// counts as one, whatever it is.
pub fn poly_div(dividend: &[u8], divisor: &[u8]) -> (r: (Vec<u8>, Vec<u8>))
    requires
        1 <= divisor@.len() <= dividend@.len() + 1,
    ensures
        r.1@.len() == divisor@.len() - 1,
        r.0@.len() == dividend@.len() - r.1@.len(),
        forall|k: int|
            0 <= k < dividend@.len() ==> dividend@[k] == poly::conv(
                r.0@,
                divisor@.update(0, 1),
                k,
            ) ^ poly::aligned(r.1@, dividend@.len() as int, k),
{
    let mut out: Vec<u8> = slice_to_vec(dividend);
    let steps: usize = dividend.len() - (divisor.len() - 1);
    let ghost monic = divisor@.update(0, 1);
    let ghost n = dividend@.len() as int;
    let mut i: usize = 0;
    proof {
        assert forall|k: int| 0 <= k < n implies dividend@[k] == poly::conv(out@.take(0), monic, k)
            ^ out@[k] by {
            gf::lemma_xor(out@[k], 0, 0);
        }
    }
    while i < steps
        invariant
            i <= steps,
            divisor@.len() >= 1,
            n == dividend@.len(),
            n <= usize::MAX,
            steps == n - (divisor@.len() - 1),
            out@.len() == n,
            monic == divisor@.update(0, 1),
            forall|k: int|
                0 <= k < n ==> dividend@[k] == poly::conv(out@.take(i as int), monic, k) ^ (if k
                    >= i {
                    out@[k]
                } else {
                    0
                }),
        decreases steps - i,
    {
        let coef: u8 = out[i];
        let ghost out0 = out@;
        proof {
            gf::lemma_mul_unit(coef);
        }
        if coef != 0 {
            let mut j: usize = 1;
            while j < divisor.len()
                invariant
                    1 <= j <= divisor.len(),
                    i < steps,
                    n <= usize::MAX,
                    steps == n - (divisor@.len() - 1),
                    out0.len() == n,
                    out@.len() == n,
                    coef == out0[i as int],
                    forall|k: int|
                        0 <= k < n ==> out@[k] == if i < k < i + j {
                            out0[k] ^ gf::prod(divisor@[k - i], coef)
                        } else {
                            out0[k]
                        },
                decreases divisor.len() - j,
            {
                if divisor[j] != 0 {
                    out[i + j] = out[i + j] ^ self::mul(divisor[j], coef);
                } else {
                    proof {
                        gf::lemma_mul_unit(coef);
                        gf::lemma_xor(out0[i + j], 0, 0);
                    }
                }
                j += 1;
            }
        }
        proof {
            assert forall|k: int| 0 <= k < n implies dividend@[k] == poly::conv(
                out@.take(i + 1),
                monic,
                k,
            ) ^ (if k >= i + 1 {
                out@[k]
            } else {
                0
            }) by {
                let d = if 0 <= k - i < monic.len() {
                    gf::prod(coef, monic[k - i])
                } else {
                    0
                };
                poly::lemma_conv_push(out@.take(i + 1), monic, k);
                assert(out@.take(i + 1).drop_last() =~= out0.take(i as int));
                assert(out@.take(i + 1).last() == coef);
                let c = poly::conv(out0.take(i as int), monic, k);
                gf::lemma_mul_unit(coef);
                if 0 < k - i < monic.len() {
                    gf::lemma_mul_unit(monic[k - i]);
                    assert(out@[k] == out0[k] ^ d) by {
                        gf::lemma_mul_comm(divisor@[k - i], coef);
                        gf::lemma_xor(out0[k], 0, 0);
                    }
                    gf::lemma_mul_comm(divisor@[k - i], coef);
                    gf::lemma_xor(out0[k], d, 0);
                    gf::lemma_xor4(c, d, out0[k], d);
                    gf::lemma_xor(c ^ out0[k], 0, 0);
                    gf::lemma_xor(d, 0, 0);
                } else {
                    gf::lemma_xor(c, 0, 0);
                    gf::lemma_xor(c, d, 0);
                    gf::lemma_xor(c ^ d, 0, 0);
                    gf::lemma_xor(out0[k], 0, 0);
                }
            }
        }
        i += 1;
    }
    let remainder: Vec<u8> = slice_to_vec(slice_subrange(out.as_slice(), steps, out.len()));
    let quotient: Vec<u8> = slice_to_vec(slice_subrange(out.as_slice(), 0, steps));
    proof {
        assert(quotient@ =~= out@.take(steps as int));
    }
    (quotient, remainder)
}

} // verus!
