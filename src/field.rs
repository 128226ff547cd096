//! Arithmetic in the prime field `Z_p`, on representatives in `[0, p)`.

use vstd::prelude::*;
use vstd::arithmetic::power::*;
use vstd::arithmetic::div_mod::*;

verus! {

/// The modulus is usable: greater than one (and an `i64` by its type).
pub open spec fn valid_modulus(p: int) -> bool {
    1 < p
}

/// `a` is a normalized representative modulo `p`.
pub open spec fn reduced(a: int, p: int) -> bool {
    0 <= a < p
}

/// Every element of `s` is a normalized representative modulo `p`.
pub open spec fn all_reduced(s: Seq<i64>, p: int) -> bool {
    forall|i: int| 0 <= i < s.len() ==> reduced(#[trigger] s[i] as int, p)
}

/// `y` is a multiplicative inverse of `x` modulo `p`.
pub open spec fn is_inverse(x: int, y: int, p: int) -> bool {
    (x * y) % p == 1int % p
}

/// `x` has a multiplicative inverse modulo `p`.
pub open spec fn invertible(x: int, p: int) -> bool {
    exists|y: int| is_inverse(x, y, p)
}

/// Modular addition.
pub fn mod_add(a: i64, b: i64, p: i64) -> (r: i64)
    requires
        valid_modulus(p as int),
        reduced(a as int, p as int),
        reduced(b as int, p as int),
    ensures
        r as int == (a + b) % (p as int),
{
    let s: i128 = a as i128 + b as i128;
    (s % (p as i128)) as i64
}

/// Modular subtraction.
pub fn mod_sub(a: i64, b: i64, p: i64) -> (r: i64)
    requires
        valid_modulus(p as int),
        reduced(a as int, p as int),
        reduced(b as int, p as int),
    ensures
        r as int == (a - b) % (p as int),
{
    let d: i128 = a as i128 - b as i128 + p as i128;
    proof {
        lemma_mod_multiples_vanish(1, a - b, p as int);
    }
    (d % (p as i128)) as i64
}

/// Modular multiplication, through a 128-bit product.
pub fn mod_mul(a: i64, b: i64, p: i64) -> (r: i64)
    requires
        valid_modulus(p as int),
        reduced(a as int, p as int),
        reduced(b as int, p as int),
    ensures
        r as int == (a * b) % (p as int),
{
    proof {
        lemma_mul_strict_upper_bound(a as int, p as int, b as int, p as int);
        assert(p * p <= 0x7fff_ffff_ffff_ffffint * 0x7fff_ffff_ffff_ffffint) by (nonlinear_arith)
            requires 1 < p <= 0x7fff_ffff_ffff_ffffint;
        assert(0 <= a * b) by (nonlinear_arith) requires 0 <= a, 0 <= b;
    }
    let m: i128 = (a as i128) * (b as i128);
    (m % (p as i128)) as i64
}

proof fn lemma_mul_strict_upper_bound(x: int, xb: int, y: int, yb: int)
    requires
        0 <= x < xb,
        0 <= y < yb,
    ensures
        x * y < xb * yb,
{
    assert(x * y < xb * yb) by (nonlinear_arith)
        requires 0 <= x < xb, 0 <= y < yb;
}

pub proof fn lemma_mod_twice(x: int, p: int)
    requires
        0 < p,
    ensures
        (x % p) % p == x % p,
{
    lemma_small_mod((x % p) as nat, p as nat);
}

pub proof fn lemma_congruent_mul(a: int, a2: int, b: int, b2: int, p: int)
    requires
        0 < p,
        a % p == a2 % p,
        b % p == b2 % p,
    ensures
        (a * b) % p == (a2 * b2) % p,
{
    lemma_mul_mod_noop(a, b, p);
    lemma_mul_mod_noop(a2, b2, p);
}

/// Modular exponentiation by repeated squaring.
pub fn mod_pow(base: i64, exp: u64, p: i64) -> (r: i64)
    requires
        valid_modulus(p as int),
        reduced(base as int, p as int),
    ensures
        r as int == pow(base as int, exp as nat) % (p as int),
{
    let mut acc: i64 = 1 % p;
    let mut b: i64 = base;
    let mut e: u64 = exp;
    proof {
        lemma_small_mod(1, p as nat);
    }
    while e > 0
        invariant
            valid_modulus(p as int),
            reduced(acc as int, p as int),
            reduced(b as int, p as int),
            (acc * pow(b as int, e as nat)) % (p as int) == pow(base as int, exp as nat) % (p as int),
        decreases e,
    {
        let ghost old_acc = acc as int;
        let ghost old_b = b as int;
        let ghost old_e = e as nat;
        let ghost half = (e / 2) as nat;
        let ghost pb = p as int;
        proof {
            lemma_pow_adds(old_b, half, half);
            lemma_pow_distributes(old_b, old_b, half);
            lemma_pow_mod_noop(old_b * old_b, half, pb);
        }
        if e % 2 == 1 {
            acc = mod_mul(acc, b, p);
            proof {
                lemma_pow_adds(old_b, 1, (2 * half) as nat);
                lemma_pow1(old_b);
                assert(old_acc * old_b * pow(old_b * old_b, half)
                    == old_acc * pow(old_b, old_e)) by (nonlinear_arith)
                    requires
                        old_e == 1 + 2 * half,
                        pow(old_b, old_e) == pow(old_b, 1) * pow(old_b, (2 * half) as nat),
                        pow(old_b, 1) == old_b,
                        pow(old_b, (2 * half) as nat) == pow(old_b, half) * pow(old_b, half),
                        pow(old_b * old_b, half) == pow(old_b, half) * pow(old_b, half);
                lemma_small_mod(acc as nat, p as nat);
                lemma_mod_twice(old_acc * old_b, pb);
                lemma_congruent_mul(acc as int, old_acc * old_b,
                    pow((old_b * old_b) % pb, half), pow(old_b * old_b, half), pb);
            }
        } else {
            proof {
                assert(old_e == 2 * half);
                assert(pow(old_b * old_b, half) == pow(old_b, old_e));
                lemma_congruent_mul(acc as int, old_acc,
                    pow((old_b * old_b) % pb, half), pow(old_b * old_b, half), pb);
            }
        }
        b = mod_mul(b, b, p);
        e = e / 2;
    }
    proof {
        reveal(pow);
        lemma_small_mod(acc as nat, p as nat);
    }
    acc
}

proof fn lemma_sub_scaled_mod(x_red: int, xx: int, y_red: int, yy: int, q: int, p: int)
    requires
        0 < p,
        x_red == xx % p,
        y_red == yy % p,
    ensures
        (x_red - ((q % p) * y_red) % p) % p == (xx - q * yy) % p,
{
    lemma_mul_mod_noop(q, yy, p);
    lemma_sub_mod_noop(xx, q * yy, p);
}

/// Modular inverse by the extended Euclidean algorithm.
///
/// Returns `None` exactly when `a` has no inverse modulo `p` (in particular
/// when `a == 0`).
pub fn mod_inverse(a: i64, p: i64) -> (r: Option<i64>)
    requires
        valid_modulus(p as int),
        reduced(a as int, p as int),
    ensures
        match r {
            Some(x) => reduced(x as int, p as int) && is_inverse(a as int, x as int, p as int),
            None => forall|y: int| !is_inverse(a as int, y, p as int),
        },
{
    let ghost pi = p as int;
    let ghost ai = a as int;
    let mut old_r: i64 = a;
    let mut r: i64 = p;
    let mut old_s: i64 = 1;
    let mut s: i64 = 0;
    // Bezout coefficients of the two remainders (`old_r == big_old_s * a + ...`).
    let ghost mut big_old_s: int = 1;
    let ghost mut big_old_t: int = 0;
    let ghost mut big_s: int = 0;
    let ghost mut big_t: int = 1;
    // `a` and `p` written over the two remainders.
    let ghost mut u1: int = 1;
    let ghost mut v1: int = 0;
    let ghost mut u2: int = 0;
    let ghost mut v2: int = 1;
    proof {
        lemma_small_mod(1, p as nat);
        lemma_small_mod(0, p as nat);
    }
    while r != 0
        invariant
            valid_modulus(pi),
            pi == p as int,
            ai == a as int,
            0 <= old_r <= p,
            0 <= r <= p,
            reduced(old_s as int, pi),
            reduced(s as int, pi),
            old_s as int == big_old_s % pi,
            s as int == big_s % pi,
            old_r as int == big_old_s * ai + big_old_t * pi,
            r as int == big_s * ai + big_t * pi,
            ai == u1 * old_r + v1 * r,
            pi == u2 * old_r + v2 * r,
        decreases r,
    {
        let q: i64 = old_r / r;
        let rem: i64 = old_r % r;
        let t: i64 = mod_mul(q % p, s, p);
        let ns: i64 = mod_sub(old_s, t, p);
        proof {
            lemma_sub_scaled_mod(old_s as int, big_old_s, s as int, big_s, q as int, pi);
            let qi = q as int;
            let ori = old_r as int;
            let ri = r as int;
            lemma_fundamental_div_mod(ori, ri);
            assert(rem as int == ori - qi * ri) by (nonlinear_arith)
                requires ori == ri * (ori / ri) + ori % ri, qi == ori / ri, rem as int == ori % ri;
            assert(ori - qi * ri == (big_old_s - qi * big_s) * ai + (big_old_t - qi * big_t) * pi)
                by (nonlinear_arith)
                requires
                    ori == big_old_s * ai + big_old_t * pi,
                    ri == big_s * ai + big_t * pi;
            assert(ai == (u1 * qi + v1) * ri + u1 * (ori - qi * ri)) by (nonlinear_arith)
                requires ai == u1 * ori + v1 * ri;
            assert(pi == (u2 * qi + v2) * ri + u2 * (ori - qi * ri)) by (nonlinear_arith)
                requires pi == u2 * ori + v2 * ri;
            let nbs = big_old_s - qi * big_s;
            let nbt = big_old_t - qi * big_t;
            big_old_s = big_s;
            big_old_t = big_t;
            big_s = nbs;
            big_t = nbt;
            let nu1 = u1 * qi + v1;
            let nu2 = u2 * qi + v2;
            v1 = u1;
            v2 = u2;
            u1 = nu1;
            u2 = nu2;
        }
        old_r = r;
        r = rem;
        old_s = s;
        s = ns;
    }
    if old_r == 1 {
        proof {
            lemma_mod_multiples_vanish(-big_old_t, 1, pi);
            assert(pi * (-big_old_t) + 1 == big_old_s * ai) by (nonlinear_arith)
                requires 1 == big_old_s * ai + big_old_t * pi;
            lemma_mul_mod_noop_right(ai, big_old_s, pi);
            assert(ai * big_old_s == big_old_s * ai) by (nonlinear_arith);
        }
        Some(old_s)
    } else {
        proof {
            assert forall|y: int| !is_inverse(ai, y, pi) by {
                if is_inverse(ai, y, pi) {
                    let k = (ai * y) / pi;
                    lemma_fundamental_div_mod(ai * y, pi);
                    lemma_small_mod(1, pi as nat);
                    let z = u1 * y - u2 * k;
                    let o = old_r as int;
                    assert(ai == u1 * o) by (nonlinear_arith)
                        requires ai == u1 * o + v1 * r, r == 0;
                    assert(pi == u2 * o) by (nonlinear_arith)
                        requires pi == u2 * o + v2 * r, r == 0;
                    assert(ai * y == pi * k + 1);
                    assert(o * z == 1) by (nonlinear_arith)
                        requires
                            z == u1 * y - u2 * k,
                            ai == u1 * o,
                            pi == u2 * o,
                            ai * y == pi * k + 1;
                    assert(false) by (nonlinear_arith)
                        requires o * z == 1, o != 1, 0 <= o;
                }
            }
        }
        None
    }
}

} // verus!
