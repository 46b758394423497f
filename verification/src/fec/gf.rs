//! The field GF(2^8) with the reduction polynomial x^8 + x^4 + x^3 + x^2 + 1, and the facts
//! about it that the codes rest on. Addition in the field is exclusive or.

use vstd::prelude::*;
use vstd::set_lib::*;

verus! {

/// Multiplication by the generator: a shift, reduced by the field polynomial.
pub open spec fn times_alpha(a: u8) -> u8 {
    (a << 1u8) ^ (if a & 0x80u8 != 0 {
        0x1Du8
    } else {
        0u8
    })
}

/// One partial product: `a` where bit `i` of `b` is set.
pub open spec fn partial(a: u8, b: u8, i: u8) -> u8 {
    if (b >> i) & 1u8 == 1u8 {
        a
    } else {
        0u8
    }
}

/// The product in the field: the sum of `a * 2^i` over the set bits `i` of `b`.
pub closed spec fn prod(a: u8, b: u8) -> u8 {
    let a1 = times_alpha(a);
    let a2 = times_alpha(a1);
    let a3 = times_alpha(a2);
    let a4 = times_alpha(a3);
    let a5 = times_alpha(a4);
    let a6 = times_alpha(a5);
    let a7 = times_alpha(a6);
    partial(a, b, 0) ^ partial(a1, b, 1) ^ partial(a2, b, 2) ^ partial(a3, b, 3) ^ partial(a4, b, 4)
        ^ partial(a5, b, 5) ^ partial(a6, b, 6) ^ partial(a7, b, 7)
}

/// `x` multiplied with itself `k` times.
pub open spec fn power(x: u8, k: nat) -> u8
    decreases k,
{
    if k == 0 {
        1
    } else {
        prod(x, power(x, (k - 1) as nat))
    }
}

/// The power `k` of the generator.
pub open spec fn alpha(k: nat) -> u8 {
    power(2, k)
}

pub proof fn lemma_xor(a: u8, b: u8, c: u8)
    ensures
        a ^ b == b ^ a,
        (a ^ b) ^ c == a ^ (b ^ c),
        a ^ a == 0,
        a ^ 0 == a,
        0 ^ a == a,
        (a ^ b) ^ b == a,
        a ^ (a ^ b) == b,
        a ^ b == 0 <==> a == b,
{
    assert(a ^ b == b ^ a && (a ^ b) ^ c == a ^ (b ^ c) && a ^ a == 0 && a ^ 0 == a && 0 ^ a == a
        && (a ^ b) ^ b == a && a ^ (a ^ b) == b && (a ^ b == 0 <==> a == b)) by (bit_vector);
}

pub proof fn lemma_xor4(a: u8, b: u8, c: u8, d: u8)
    ensures
        (a ^ b) ^ (c ^ d) == (a ^ c) ^ (b ^ d),
{
    assert((a ^ b) ^ (c ^ d) == (a ^ c) ^ (b ^ d)) by (bit_vector);
}

#[verifier::rlimit(30)]
pub proof fn lemma_mul_comm(a: u8, b: u8)
    ensures
        prod(a, b) == prod(b, a),
{
    assert(prod(a, b) == prod(b, a)) by (bit_vector);
}

pub proof fn lemma_mul_linear(a: u8, b: u8, c: u8)
    ensures
        prod(a ^ b, c) == prod(a, c) ^ prod(b, c),
        prod(c, a ^ b) == prod(c, a) ^ prod(c, b),
{
    assert(prod(c, a ^ b) == prod(c, a) ^ prod(c, b)) by (bit_vector);
    lemma_mul_comm(a ^ b, c);
    lemma_mul_comm(a, c);
    lemma_mul_comm(b, c);
}

pub proof fn lemma_mul_unit(a: u8)
    ensures
        prod(a, 0) == 0,
        prod(0, a) == 0,
        prod(a, 1) == a,
        prod(1, a) == a,
        prod(2, a) == times_alpha(a),
{
    assert(prod(a, 0) == 0 && prod(0, a) == 0 && prod(a, 1) == a && prod(1, a) == a
        && prod(2, a) == times_alpha(a)) by (bit_vector);
}

proof fn lemma_mul_times_alpha(a: u8, b: u8)
    ensures
        prod(a, times_alpha(b)) == times_alpha(prod(a, b)),
{
    assert(prod(a, times_alpha(b)) == times_alpha(prod(a, b))) by (bit_vector);
}

proof fn lemma_mul_partial(a: u8, b: u8, c: u8, i: u8)
    ensures
        prod(a, partial(b, c, i)) == partial(prod(a, b), c, i),
{
    lemma_mul_unit(a);
}

pub proof fn lemma_mul_assoc(a: u8, b: u8, c: u8)
    ensures
        prod(prod(a, b), c) == prod(a, prod(b, c)),
{
    let b1 = times_alpha(b);
    let b2 = times_alpha(b1);
    let b3 = times_alpha(b2);
    let b4 = times_alpha(b3);
    let b5 = times_alpha(b4);
    let b6 = times_alpha(b5);
    let b7 = times_alpha(b6);
    lemma_mul_times_alpha(a, b);
    lemma_mul_times_alpha(a, b1);
    lemma_mul_times_alpha(a, b2);
    lemma_mul_times_alpha(a, b3);
    lemma_mul_times_alpha(a, b4);
    lemma_mul_times_alpha(a, b5);
    lemma_mul_times_alpha(a, b6);
    lemma_mul_partial(a, b, c, 0);
    lemma_mul_partial(a, b1, c, 1);
    lemma_mul_partial(a, b2, c, 2);
    lemma_mul_partial(a, b3, c, 3);
    lemma_mul_partial(a, b4, c, 4);
    lemma_mul_partial(a, b5, c, 5);
    lemma_mul_partial(a, b6, c, 6);
    lemma_mul_partial(a, b7, c, 7);
    let s1 = partial(b, c, 0) ^ partial(b1, c, 1);
    let s2 = s1 ^ partial(b2, c, 2);
    let s3 = s2 ^ partial(b3, c, 3);
    let s4 = s3 ^ partial(b4, c, 4);
    let s5 = s4 ^ partial(b5, c, 5);
    let s6 = s5 ^ partial(b6, c, 6);
    lemma_mul_linear(partial(b, c, 0), partial(b1, c, 1), a);
    lemma_mul_linear(s1, partial(b2, c, 2), a);
    lemma_mul_linear(s2, partial(b3, c, 3), a);
    lemma_mul_linear(s3, partial(b4, c, 4), a);
    lemma_mul_linear(s4, partial(b5, c, 5), a);
    lemma_mul_linear(s5, partial(b6, c, 6), a);
    lemma_mul_linear(s6, partial(b7, c, 7), a);
}

/// Swaps the middle factors of a product of four.
pub proof fn lemma_mul4(a: u8, b: u8, c: u8, d: u8)
    ensures
        prod(prod(a, b), prod(c, d)) == prod(prod(a, c), prod(b, d)),
{
    lemma_mul_assoc(a, b, prod(c, d));
    lemma_mul_assoc(b, c, d);
    lemma_mul_comm(b, c);
    lemma_mul_assoc(c, b, d);
    lemma_mul_assoc(a, c, prod(b, d));
}

pub proof fn lemma_pow_add(x: u8, j: nat, k: nat)
    ensures
        power(x, j + k) == prod(power(x, j), power(x, k)),
    decreases j,
{
    if j == 0 {
        lemma_mul_unit(power(x, k));
    } else {
        let j1 = (j - 1) as nat;
        lemma_pow_add(x, j1, k);
        assert((j + k - 1) as nat == j1 + k);
        lemma_mul_assoc(x, power(x, j1), power(x, k));
    }
}

/// The facts about the generator that fix its order: its power 255 is one, and its powers with
/// the largest proper divisors of 255 as exponents are not.
proof fn lemma_alpha_landmarks()
    ensures
        alpha(255) == 1,
        alpha(85) != 1,
        alpha(51) != 1,
        alpha(15) != 1,
{
    reveal_with_fuel(power, 3);
    lemma_mul_unit(1);
    lemma_mul_unit(2);
    assert(prod(2, 2) == 0x04 && prod(0x04, 0x04) == 0x10 && prod(0x10, 0x10) == 0x1D
        && prod(0x1D, 0x1D) == 0x4C && prod(0x4C, 0x4C) == 0x9D && prod(0x9D, 0x9D) == 0x5F
        && prod(0x5F, 0x5F) == 0x85) by (bit_vector);
    assert(alpha(1) == 2);
    lemma_pow_add(2, 1, 1);
    lemma_pow_add(2, 2, 2);
    lemma_pow_add(2, 4, 4);
    lemma_pow_add(2, 8, 8);
    lemma_pow_add(2, 16, 16);
    lemma_pow_add(2, 32, 32);
    lemma_pow_add(2, 64, 64);
    // 15 = 8 + 4 + 2 + 1
    lemma_pow_add(2, 2, 1);
    lemma_pow_add(2, 4, 3);
    lemma_pow_add(2, 8, 7);
    // 51 = 32 + 16 + 3, 85 = 64 + 16 + 5
    lemma_pow_add(2, 16, 3);
    lemma_pow_add(2, 32, 19);
    lemma_pow_add(2, 4, 1);
    lemma_pow_add(2, 16, 5);
    lemma_pow_add(2, 64, 21);
    // 255 = 128 + 64 + 32 + 16 + 15
    lemma_pow_add(2, 16, 15);
    lemma_pow_add(2, 32, 31);
    lemma_pow_add(2, 64, 63);
    lemma_pow_add(2, 128, 127);
    assert(prod(0x04, 2) == 0x08 && prod(0x10, 0x08) == 0x80 && prod(0x1D, 0x80) == 0x26
        && prod(0x4C, 0x08) == 0x5A && prod(0x9D, 0x5A) == 0x0A && prod(0x10, 2) == 0x20
        && prod(0x4C, 0x20) == 0x75 && prod(0x5F, 0x75) == 0xD6 && prod(0x4C, 0x26) == 0xC0
        && prod(0x9D, 0xC0) == 0xA1 && prod(0x5F, 0xA1) == 0xCC && prod(0x85, 0xCC) == 1)
        by (bit_vector);
}

pub proof fn lemma_alpha_step(k: nat)
    ensures
        alpha(0) == 1,
        alpha(k + 1) == times_alpha(alpha(k)),
        alpha(k + 1) == prod(2, alpha(k)),
{
    assert((k + 1 - 1) as nat == k);
    lemma_mul_unit(alpha(k));
}

pub proof fn lemma_alpha_nonzero(k: nat)
    ensures
        alpha(k) != 0,
    decreases k,
{
    if k > 0 {
        let j = (k - 1) as nat;
        lemma_alpha_nonzero(j);
        lemma_alpha_step(j);
        let a = alpha(j);
        assert(a != 0 ==> times_alpha(a) != 0) by (bit_vector);
    }
}

/// Powers of the generator repeat with the period 255.
pub proof fn lemma_alpha_period(k: nat)
    ensures
        alpha(k + 255) == alpha(k),
        alpha(k) == alpha((k % 255) as nat),
    decreases k,
{
    lemma_alpha_landmarks();
    lemma_pow_add(2, k, 255);
    lemma_mul_unit(alpha(k));
    if k >= 255 {
        let j = (k - 255) as nat;
        lemma_alpha_period(j);
        assert(j + 255 == k);
        assert(j % 255 == k % 255);
    }
}

/// If the power `d` of the generator is one, so is every power whose exponent `d` divides.
proof fn lemma_alpha_multiple(d: nat, q: nat)
    requires
        alpha(d) == 1,
    ensures
        alpha(d * q) == 1,
    decreases q,
{
    if q > 0 {
        let p = (q - 1) as nat;
        lemma_alpha_multiple(d, p);
        assert(d * q == d * p + d) by (nonlinear_arith)
            requires
                q == p + 1,
        ;
        lemma_pow_add(2, d * p, d);
        lemma_mul_unit(1);
    } else {
        assert(d * q == 0) by (nonlinear_arith)
            requires
                q == 0,
        ;
    }
}

/// No power of the generator between 0 and 255 is one.
proof fn lemma_alpha_order(d: nat)
    requires
        0 < d < 255,
    ensures
        alpha(d) != 1,
    decreases d,
{
    if alpha(d) == 1 {
        lemma_alpha_landmarks();
        let r = (255nat % d) as nat;
        let q = (255nat / d) as nat;
        vstd::arithmetic::div_mod::lemma_fundamental_div_mod(255, d as int);
        lemma_alpha_multiple(d, q);
        lemma_pow_add(2, d * q, r);
        lemma_mul_unit(alpha(r));
        if r > 0 {
            lemma_alpha_order(r);
        } else {
            let e = d as u32;
            assert(0 < e < 255 && 255u32 % e == 0 ==> 85u32 % e == 0 || 51u32 % e == 0 || 15u32 % e == 0)
                by (bit_vector);
            if 85nat % d == 0 {
                vstd::arithmetic::div_mod::lemma_fundamental_div_mod(85, d as int);
                lemma_alpha_multiple(d, (85nat / d) as nat);
            } else if 51nat % d == 0 {
                vstd::arithmetic::div_mod::lemma_fundamental_div_mod(51, d as int);
                lemma_alpha_multiple(d, (51nat / d) as nat);
            } else {
                vstd::arithmetic::div_mod::lemma_fundamental_div_mod(15, d as int);
                lemma_alpha_multiple(d, (15nat / d) as nat);
            }
        }
    }
}

/// The first 255 powers of the generator are distinct.
pub proof fn lemma_alpha_injective(i: nat, j: nat)
    requires
        i < 255,
        j < 255,
        alpha(i) == alpha(j),
    ensures
        i == j,
{
    if i < j {
        lemma_alpha_cancel(i, j);
    } else if j < i {
        lemma_alpha_cancel(j, i);
    }
}

proof fn lemma_alpha_cancel(i: nat, j: nat)
    requires
        i < j < 255,
    ensures
        alpha(i) != alpha(j),
{
    let c = (255 - i) as nat;
    lemma_pow_add(2, i, c);
    lemma_pow_add(2, j, c);
    let d = (j - i) as nat;
    assert(j + c == d + 255);
    lemma_alpha_landmarks();
    lemma_alpha_period(d);
    lemma_alpha_order(d);
}

/// Every nonzero byte is a power of the generator.
pub proof fn lemma_alpha_surjective(x: u8)
    requires
        x != 0,
    ensures
        exists|i: nat| i < 255 && alpha(i) == x,
{
    let s = Seq::new(255, |i: int| alpha(i as nat) as int);
    assert(s.no_duplicates()) by {
        assert forall|i: int, j: int| 0 <= i < s.len() && 0 <= j < s.len() && i != j implies s[i]
            != s[j] by {
            if s[i] == s[j] {
                lemma_alpha_injective(i as nat, j as nat);
            }
        }
    }
    s.unique_seq_to_set();
    let all = set_int_range(1, 256);
    lemma_int_range(1, 256);
    assert(s.to_set().subset_of(all)) by {
        assert forall|v: int| s.to_set().contains(v) implies all.contains(v) by {
            let i = choose|i: int| 0 <= i < s.len() && s[i] == v;
            lemma_alpha_nonzero(i as nat);
        }
    }
    lemma_len_subset(s.to_set(), all);
    lemma_subset_equality(s.to_set(), all);
    assert(s.to_set().contains(x as int));
    let i = choose|i: int| 0 <= i < s.len() && s[i] == x as int;
    assert(alpha(i as nat) == x);
}

/// The exponent, below 255, of the power of the generator that `x` is.
pub open spec fn log(x: u8) -> nat {
    choose|i: nat| i < 255 && alpha(i) == x
}

pub proof fn lemma_log(x: u8)
    requires
        x != 0,
    ensures
        log(x) < 255,
        alpha(log(x)) == x,
{
    lemma_alpha_surjective(x);
}

pub proof fn lemma_log_alpha(k: nat)
    requires
        k < 255,
    ensures
        log(alpha(k)) == k,
{
    lemma_alpha_nonzero(k);
    lemma_log(alpha(k));
    lemma_alpha_injective(k, log(alpha(k)));
}

/// The multiplicative inverse of a nonzero byte.
pub open spec fn inv(x: u8) -> u8 {
    alpha((255 - log(x)) as nat)
}

pub proof fn lemma_inv(x: u8)
    requires
        x != 0,
    ensures
        prod(x, inv(x)) == 1,
        prod(inv(x), x) == 1,
        inv(x) != 0,
{
    lemma_log(x);
    let i = log(x);
    lemma_pow_add(2, i, (255 - i) as nat);
    lemma_alpha_landmarks();
    lemma_mul_comm(x, inv(x));
    lemma_alpha_nonzero((255 - i) as nat);
}

/// Cancellation: a nonzero factor can be dropped from an equation.
pub proof fn lemma_cancel(a: u8, b: u8, c: u8)
    requires
        c != 0,
        prod(a, c) == prod(b, c),
    ensures
        a == b,
{
    lemma_inv(c);
    lemma_mul_assoc(a, c, inv(c));
    lemma_mul_assoc(b, c, inv(c));
    lemma_mul_unit(a);
    lemma_mul_unit(b);
}

/// The field has no divisors of zero.
pub proof fn lemma_no_zero_divisors(a: u8, b: u8)
    ensures
        prod(a, b) == 0 <==> a == 0 || b == 0,
{
    lemma_mul_unit(a);
    lemma_mul_unit(b);
    if prod(a, b) == 0 && b != 0 {
        lemma_cancel(a, 0, b);
    }
}

/// Exponents multiply when a power of the generator is raised to a power.
pub proof fn lemma_power_of_alpha(k: nat, n: nat)
    ensures
        power(alpha(k), n) == alpha(k * n),
    decreases n,
{
    if n == 0 {
        assert(k * n == 0) by (nonlinear_arith)
            requires
                n == 0,
        ;
    } else {
        let m = (n - 1) as nat;
        lemma_power_of_alpha(k, m);
        assert(k * n == k + k * m) by (nonlinear_arith)
            requires
                n == m + 1,
        ;
        lemma_pow_add(2, k, k * m);
    }
}

/// The powers of the generator with exponents that agree modulo 255 agree.
pub proof fn lemma_alpha_congruent(j: nat, k: nat)
    requires
        j % 255 == k % 255,
    ensures
        alpha(j) == alpha(k),
{
    lemma_alpha_period(j);
    lemma_alpha_period(k);
}

pub proof fn lemma_power_inverse(x: u8, k: nat)
    requires
        x != 0,
    ensures
        prod(power(x, k), power(inv(x), k)) == 1,
    decreases k,
{
    if k == 0 {
        lemma_mul_unit(1);
    } else {
        let j = (k - 1) as nat;
        lemma_power_inverse(x, j);
        lemma_mul4(x, power(x, j), inv(x), power(inv(x), j));
        lemma_inv(x);
        lemma_mul_unit(1);
    }
}

pub proof fn lemma_power_nonzero(x: u8, k: nat)
    requires
        x != 0,
    ensures
        power(x, k) != 0,
    decreases k,
{
    if k > 0 {
        lemma_power_nonzero(x, (k - 1) as nat);
        lemma_no_zero_divisors(x, power(x, (k - 1) as nat));
    }
}

pub proof fn lemma_log_generator()
    ensures
        log(2) == 1,
        inv(2) == alpha(254),
{
    lemma_alpha_step(0);
    lemma_mul_unit(2);
    lemma_log_alpha(1);
}

/// The power `k - 255` of the generator is its power `k`.
pub proof fn lemma_alpha_negative(k: nat)
    requires
        k < 255,
    ensures
        power(inv(2), (255 - k) as nat) == alpha(k),
{
    lemma_log_generator();
    let n = (255 - k) as nat;
    lemma_power_of_alpha(254, n);
    assert(254 * n == 255 * (254 - k) + k);
    lemma_alpha_congruent(254 * n, k);
}

/// Multiplication by the generator doubles a byte, and where that is more than a byte holds, takes
/// out the field polynomial, whose lower bits are 0x1D.
pub proof fn law_doubling(a: u8)
    ensures
        a < 128 ==> prod(2, a) == 2 * a,
        a >= 128 ==> prod(2, a) == ((2 * a - 256) as u8) ^ 0x1Du8,
{
    lemma_mul_unit(a);
    assert((a < 128 ==> (a << 1u8) ^ 0u8 == 2 * a && a & 0x80u8 == 0) && (a >= 128 ==> (a << 1u8) == 2
        * a - 256 && a & 0x80u8 != 0)) by (bit_vector);
}

} // verus!
