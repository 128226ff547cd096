//! Number-theoretic transforms of power-of-two and power-of-three length.
//!
//! The forward transform with root `w` evaluates the polynomial whose
//! coefficients are the input at `w^0, w^1, ..., w^(n-1)`; the inverse one
//! interpolates values at those points back to coefficients.

use vstd::prelude::*;
use vstd::arithmetic::power::*;
use vstd::arithmetic::div_mod::*;
use crate::field::{all_reduced, invertible, is_inverse, mod_inverse, mod_pow, lemma_congruent_mul, lemma_mod_twice, mod_add, mod_mul, reduced, valid_modulus};
use crate::poly::{eval, lemma_eval_congruent, lemma_eval_split2, lemma_eval_split3, stride};

verus! {

/// `n` is a power of two (including `2^0 == 1`).
pub open spec fn is_pow2(n: nat) -> bool
    decreases n,
{
    if n <= 1 {
        n == 1
    } else {
        n % 2 == 0 && is_pow2(n / 2)
    }
}

/// `n` is a power of three (including `3^0 == 1`).
pub open spec fn is_pow3(n: nat) -> bool
    decreases n,
{
    if n <= 1 {
        n == 1
    } else {
        n % 3 == 0 && is_pow3(n / 3)
    }
}

/// Tests whether `n` is a power of two.
pub fn check_pow2(n: usize) -> (r: bool)
    ensures
        r == is_pow2(n as nat),
{
    let mut m: usize = n;
    while m > 1 && m % 2 == 0
        invariant
            is_pow2(m as nat) == is_pow2(n as nat),
        decreases m,
    {
        m = m / 2;
    }
    m == 1
}

/// Tests whether `n` is a power of three.
pub fn check_pow3(n: usize) -> (r: bool)
    ensures
        r == is_pow3(n as nat),
{
    let mut m: usize = n;
    while m > 1 && m % 3 == 0
        invariant
            is_pow3(m as nat) == is_pow3(n as nat),
        decreases m,
    {
        m = m / 3;
    }
    m == 1
}

/// `w` is an `n`-th root of unity modulo `p`.
pub open spec fn is_root_of_unity(w: int, n: nat, p: int) -> bool {
    pow(w, n) % p == 1
}

/// `r` holds the values of the polynomial `a` at `w^0, ..., w^(n-1)`, reduced.
pub open spec fn evaluates_at_powers(a: Seq<i64>, w: int, p: int, r: Seq<i64>) -> bool {
    &&& r.len() == a.len()
    &&& forall|i: int| 0 <= i < r.len() ==> #[trigger] r[i] as int == eval(a, pow(w, i as nat)) % p
}

proof fn lemma_pow_period(w: int, e: nat, n: nat, m: nat, p: int)
    requires
        0 < p,
        pow(w, n) % p == 1,
    ensures
        pow(w, e + n * m) % p == pow(w, e) % p,
    decreases m,
{
    if m > 0 {
        lemma_pow_period(w, e, n, (m - 1) as nat, p);
        assert(e + n * m == (e + n * (m - 1)) + n) by (nonlinear_arith);
        lemma_pow_adds(w, (e + n * (m - 1)) as nat, n);
        lemma_small_mod(1, p as nat);
        lemma_congruent_mul(pow(w, (e + n * (m - 1)) as nat), pow(w, e), pow(w, n), 1, p);
    } else {
        assert(n * m == 0) by (nonlinear_arith) requires m == 0;
    }
}

/// `(w^k mod p)^j` is congruent to `w^(k*i)` when `k*i == k*j + n*m` and `w^n == 1`.
proof fn lemma_power_of_power(w: int, k: nat, j: nat, i: nat, n: nat, m: nat, p: int)
    requires
        0 < p,
        pow(w, n) % p == 1,
        k * i == k * j + n * m,
    ensures
        pow(pow(w, k) % p, j) % p == pow(w, k * i) % p,
{
    lemma_pow_mod_noop(pow(w, k), j, p);
    lemma_pow_multiplies(w, k, j);
    lemma_pow_period(w, k * j, n, m, p);
}

proof fn lemma_radix2_entry(a: Seq<i64>, w: int, p: int, i: nat, j: nat, m: nat, e: int, o: int,
    t: int)
    requires
        0 < p,
        pow(w, a.len()) % p == 1,
        2 * i == 2 * j + a.len() * m,
        e == eval(stride(a, 2, 0), pow(pow(w, 2) % p, j)) % p,
        o == eval(stride(a, 2, 1), pow(pow(w, 2) % p, j)) % p,
        t % p == pow(w, i) % p,
    ensures
        (e + (t * o) % p) % p == eval(a, pow(w, i)) % p,
{
    let x = pow(w, i);
    let y = pow(pow(w, 2) % p, j);
    lemma_power_of_power(w, 2, j, i, a.len(), m, p);
    lemma_pow_adds(w, i, i);
    assert(x * x == pow(w, 2 * i));
    lemma_eval_split2(a, x);
    lemma_eval_congruent(stride(a, 2, 0), y, x * x, p);
    lemma_eval_congruent(stride(a, 2, 1), y, x * x, p);
    let e0 = eval(stride(a, 2, 0), x * x);
    let e1 = eval(stride(a, 2, 1), x * x);
    lemma_mod_twice(e1, p);
    lemma_congruent_mul(t, x, o, e1, p);
    lemma_add_mod_noop(e0, t * o, p);
    lemma_add_mod_noop(e0, x * e1, p);
    lemma_mod_twice(t * o, p);
    lemma_mod_twice(e0, p);
}

/// Radix-2 forward transform: the values of the polynomial with coefficients
/// `a` at the powers of `w`, where `w^n == 1` and `n == a.len()` is a power of two.
pub fn transform2(a: &Vec<i64>, w: i64, p: i64) -> (r: Vec<i64>)
    requires
        valid_modulus(p as int),
        reduced(w as int, p as int),
        all_reduced(a@, p as int),
        is_pow2(a.len() as nat),
        is_root_of_unity(w as int, a.len() as nat, p as int),
    ensures
        evaluates_at_powers(a@, w as int, p as int, r@),
        all_reduced(r@, p as int),
    decreases a.len(),
{
    let n = a.len();
    if n == 1 {
        proof {
            lemma_small_mod(a[0] as nat, p as nat);
            assert(a@.subrange(1, 1).len() == 0);
            lemma_pow0(w as int);
            assert(eval(a@.subrange(1, 1), 1) == 0);
            assert(eval(a@, pow(w as int, 0)) == a[0]);
        }
        return vec![a[0]];
    }
    let h = n / 2;
    let mut even: Vec<i64> = Vec::new();
    let mut odd: Vec<i64> = Vec::new();
    let mut k: usize = 0;
    while k < h
        invariant
            n == a.len(),
            h == n / 2,
            n % 2 == 0,
            k <= h,
            even.len() == k,
            odd.len() == k,
            forall|q: int| 0 <= q < k ==> #[trigger] even[q] == a[2 * q],
            forall|q: int| 0 <= q < k ==> #[trigger] odd[q] == a[2 * q + 1],
        decreases h - k,
    {
        even.push(a[2 * k]);
        odd.push(a[2 * k + 1]);
        k = k + 1;
    }
    let w2 = mod_mul(w, w, p);
    proof {
        assert(even@ =~= stride(a@, 2, 0));
        assert(odd@ =~= stride(a@, 2, 1));
        reveal(pow);
        assert(pow(w as int, 2) == w * w) by {
            lemma_pow1(w as int);
        }
        lemma_power_of_power(w as int, 2, h as nat, h as nat, n as nat, 0, p as int);
        lemma_small_mod(1, p as nat);
    }
    let e = transform2(&even, w2, p);
    let o = transform2(&odd, w2, p);
    let mut r: Vec<i64> = Vec::new();
    let mut t: i64 = 1 % p;
    let mut i: usize = 0;
    proof {
        reveal(pow);
    }
    while i < n
        invariant
            n == a.len(),
            h == n / 2,
            n % 2 == 0,
            i <= n,
            valid_modulus(p as int),
            reduced(w as int, p as int),
            is_root_of_unity(w as int, a.len() as nat, p as int),
            w2 as int == pow(w as int, 2) % (p as int),
            reduced(t as int, p as int),
            t as int == pow(w as int, i as nat) % (p as int),
            e.len() == h,
            o.len() == h,
            evaluates_at_powers(stride(a@, 2, 0), w2 as int, p as int, e@),
            evaluates_at_powers(stride(a@, 2, 1), w2 as int, p as int, o@),
            all_reduced(e@, p as int),
            all_reduced(o@, p as int),
            r.len() == i,
            forall|q: int| 0 <= q < i ==> #[trigger] r[q] as int == eval(a@, pow(w as int, q as nat)) % (p as int),
            all_reduced(r@, p as int),
        decreases n - i,
    {
        let j: usize = if i < h { i } else { i - h };
        let m: usize = if i < h { 0 } else { 1 };
        let u = mod_mul(t, o[j], p);
        let v = mod_add(e[j], u, p);
        proof {
            assert(e[j as int] == e@[j as int]);
            lemma_small_mod(t as nat, p as nat);
            lemma_radix2_entry(a@, w as int, p as int, i as nat, j as nat, m as nat, e[j as int] as int,
                o[j as int] as int, t as int);
        }
        r.push(v);
        let ghost old_t = t as int;
        t = mod_mul(t, w, p);
        proof {
            lemma_pow_adds(w as int, i as nat, 1);
            lemma_pow1(w as int);
            lemma_small_mod(w as nat, p as nat);
            lemma_congruent_mul(old_t, pow(w as int, i as nat), w as int, w as int, p as int);
        }
        i = i + 1;
    }
    r
}

proof fn lemma_congruent_add(a: int, a2: int, b: int, b2: int, p: int)
    requires
        0 < p,
        a % p == a2 % p,
        b % p == b2 % p,
    ensures
        (a + b) % p == (a2 + b2) % p,
{
    lemma_add_mod_noop(a, b, p);
    lemma_add_mod_noop(a2, b2, p);
}

proof fn lemma_radix3_entry(a: Seq<i64>, w: int, p: int, i: nat, j: nat, m: nat, e0: int, e1: int,
    e2: int, t: int, t2: int)
    requires
        0 < p,
        pow(w, a.len()) % p == 1,
        3 * i == 3 * j + a.len() * m,
        e0 == eval(stride(a, 3, 0), pow(pow(w, 3) % p, j)) % p,
        e1 == eval(stride(a, 3, 1), pow(pow(w, 3) % p, j)) % p,
        e2 == eval(stride(a, 3, 2), pow(pow(w, 3) % p, j)) % p,
        t % p == pow(w, i) % p,
        t2 == (t * t) % p,
    ensures
        ((e0 + (t * e1) % p) % p + (t2 * e2) % p) % p == eval(a, pow(w, i)) % p,
{
    let x = pow(w, i);
    let y = pow(pow(w, 3) % p, j);
    lemma_power_of_power(w, 3, j, i, a.len(), m, p);
    lemma_pow_adds(w, i, i);
    lemma_pow_adds(w, 2 * i, i);
    assert(x * x * x == pow(w, 3 * i));
    lemma_eval_split3(a, x);
    let xxx = x * x * x;
    lemma_eval_congruent(stride(a, 3, 0), y, xxx, p);
    lemma_eval_congruent(stride(a, 3, 1), y, xxx, p);
    lemma_eval_congruent(stride(a, 3, 2), y, xxx, p);
    let f0 = eval(stride(a, 3, 0), xxx);
    let f1 = eval(stride(a, 3, 1), xxx);
    let f2 = eval(stride(a, 3, 2), xxx);
    lemma_mod_twice(f0, p);
    lemma_mod_twice(f1, p);
    lemma_mod_twice(f2, p);
    lemma_congruent_mul(t, x, e1, f1, p);
    lemma_congruent_mul(t, x, t, x, p);
    lemma_mod_twice(t * t, p);
    lemma_congruent_mul(t2, x * x, e2, f2, p);
    lemma_mod_twice(t * e1, p);
    lemma_mod_twice(t2 * e2, p);
    lemma_congruent_add(e0, f0, (t * e1) % p, x * f1, p);
    let s1 = e0 + (t * e1) % p;
    lemma_mod_twice(s1, p);
    lemma_congruent_add(s1 % p, f0 + x * f1, (t2 * e2) % p, x * x * f2, p);
}

/// Radix-3 forward transform: the values of the polynomial with coefficients
/// `a` at the powers of `w`, where `w^n == 1` and `n == a.len()` is a power of three.
pub fn transform3(a: &Vec<i64>, w: i64, p: i64) -> (r: Vec<i64>)
    requires
        valid_modulus(p as int),
        reduced(w as int, p as int),
        all_reduced(a@, p as int),
        is_pow3(a.len() as nat),
        is_root_of_unity(w as int, a.len() as nat, p as int),
    ensures
        evaluates_at_powers(a@, w as int, p as int, r@),
        all_reduced(r@, p as int),
    decreases a.len(),
{
    let n = a.len();
    if n == 1 {
        proof {
            lemma_small_mod(a[0] as nat, p as nat);
            lemma_pow0(w as int);
            assert(eval(a@.subrange(1, 1), 1) == 0);
            assert(eval(a@, pow(w as int, 0)) == a[0]);
        }
        return vec![a[0]];
    }
    let h = n / 3;
    let mut s0: Vec<i64> = Vec::new();
    let mut s1: Vec<i64> = Vec::new();
    let mut s2: Vec<i64> = Vec::new();
    let mut k: usize = 0;
    while k < h
        invariant
            n == a.len(),
            h == n / 3,
            n % 3 == 0,
            k <= h,
            s0.len() == k,
            s1.len() == k,
            s2.len() == k,
            forall|q: int| 0 <= q < k ==> #[trigger] s0[q] == a[3 * q],
            forall|q: int| 0 <= q < k ==> #[trigger] s1[q] == a[3 * q + 1],
            forall|q: int| 0 <= q < k ==> #[trigger] s2[q] == a[3 * q + 2],
        decreases h - k,
    {
        s0.push(a[3 * k]);
        s1.push(a[3 * k + 1]);
        s2.push(a[3 * k + 2]);
        k = k + 1;
    }
    let w3 = mod_mul(mod_mul(w, w, p), w, p);
    proof {
        assert(s0@ =~= stride(a@, 3, 0));
        assert(s1@ =~= stride(a@, 3, 1));
        assert(s2@ =~= stride(a@, 3, 2));
        reveal(pow);
        lemma_pow1(w as int);
        assert(pow(w as int, 2) == w * w);
        lemma_pow_adds(w as int, 2, 1);
        assert(pow(w as int, 3) == w * w * w);
        lemma_mod_twice(w * w, p as int);
        lemma_small_mod(w as nat, p as nat);
        lemma_congruent_mul((w * w) % (p as int), w * w, w as int, w as int, p as int);
        lemma_power_of_power(w as int, 3, h as nat, h as nat, n as nat, 0, p as int);
        lemma_small_mod(1, p as nat);
    }
    let e0 = transform3(&s0, w3, p);
    let e1 = transform3(&s1, w3, p);
    let e2 = transform3(&s2, w3, p);
    let mut r: Vec<i64> = Vec::new();
    let mut t: i64 = 1 % p;
    let mut i: usize = 0;
    proof {
        reveal(pow);
    }
    while i < n
        invariant
            n == a.len(),
            h == n / 3,
            n % 3 == 0,
            i <= n,
            valid_modulus(p as int),
            reduced(w as int, p as int),
            is_root_of_unity(w as int, a.len() as nat, p as int),
            w3 as int == pow(w as int, 3) % (p as int),
            reduced(t as int, p as int),
            t as int == pow(w as int, i as nat) % (p as int),
            e0.len() == h,
            e1.len() == h,
            e2.len() == h,
            evaluates_at_powers(stride(a@, 3, 0), w3 as int, p as int, e0@),
            evaluates_at_powers(stride(a@, 3, 1), w3 as int, p as int, e1@),
            evaluates_at_powers(stride(a@, 3, 2), w3 as int, p as int, e2@),
            all_reduced(e0@, p as int),
            all_reduced(e1@, p as int),
            all_reduced(e2@, p as int),
            r.len() == i,
            forall|q: int| 0 <= q < i ==> #[trigger] r[q] as int == eval(a@, pow(w as int, q as nat)) % (p as int),
            all_reduced(r@, p as int),
        decreases n - i,
    {
        let j: usize = if i < h { i } else if i < 2 * h { i - h } else { i - 2 * h };
        let m: usize = if i < h { 0 } else if i < 2 * h { 1 } else { 2 };
        let t2 = mod_mul(t, t, p);
        let u1 = mod_mul(t, e1[j], p);
        let u2 = mod_mul(t2, e2[j], p);
        let v = mod_add(mod_add(e0[j], u1, p), u2, p);
        proof {
            assert(e0[j as int] == e0@[j as int]);
            lemma_small_mod(t as nat, p as nat);
            lemma_radix3_entry(a@, w as int, p as int, i as nat, j as nat, m as nat,
                e0[j as int] as int, e1[j as int] as int, e2[j as int] as int, t as int, t2 as int);
        }
        r.push(v);
        let ghost old_t = t as int;
        t = mod_mul(t, w, p);
        proof {
            lemma_pow_adds(w as int, i as nat, 1);
            lemma_pow1(w as int);
            lemma_small_mod(w as nat, p as nat);
            lemma_congruent_mul(old_t, pow(w as int, i as nat), w as int, w as int, p as int);
        }
        i = i + 1;
    }
    r
}

/// The inverse of a root of unity `w` of order dividing `n` is `w^(n-1)`.
fn root_inverse(w: i64, n: usize, p: i64) -> (r: i64)
    requires
        valid_modulus(p as int),
        reduced(w as int, p as int),
        n >= 1,
        is_root_of_unity(w as int, n as nat, p as int),
    ensures
        reduced(r as int, p as int),
        r as int == pow(w as int, (n - 1) as nat) % (p as int),
        is_root_of_unity(r as int, n as nat, p as int),
{
    let r = mod_pow(w, (n - 1) as u64, p);
    proof {
        let k = (n - 1) as nat;
        lemma_pow_mod_noop(pow(w as int, k), n as nat, p as int);
        lemma_pow_multiplies(w as int, k, n as nat);
        lemma_pow_multiplies(w as int, n as nat, k);
        assert(k * n == n * k) by (nonlinear_arith);
        lemma_pow_mod_noop(pow(w as int, n as nat), k, p as int);
        lemma1_pow(k);
        lemma_small_mod(1, p as nat);
    }
    r
}

/// Multiplies every value by the inverse of `n` modulo `p`.
fn divide_all(f: Vec<i64>, n: usize, p: i64) -> (r: Vec<i64>)
    requires
        valid_modulus(p as int),
        reduced(n as int, p as int),
        invertible(n as int, p as int),
        all_reduced(f@, p as int),
    ensures
        r.len() == f.len(),
        all_reduced(r@, p as int),
        forall|i: int| 0 <= i < r.len() ==> (n * #[trigger] r[i]) % (p as int) == f[i] as int,
{
    let ninv = match mod_inverse(n as i64, p) {
        Some(x) => x,
        None => {
            proof {
                let y = choose|y: int| is_inverse(n as int, y, p as int);
                assert(is_inverse(n as int, y, p as int));
            }
            return f;
        }
    };
    let mut r: Vec<i64> = Vec::new();
    let mut i: usize = 0;
    while i < f.len()
        invariant
            valid_modulus(p as int),
            all_reduced(f@, p as int),
            reduced(ninv as int, p as int),
            reduced(n as int, p as int),
            is_inverse(n as int, ninv as int, p as int),
            i <= f.len(),
            r.len() == i,
            all_reduced(r@, p as int),
            forall|q: int| 0 <= q < i ==> (n * #[trigger] r[q]) % (p as int) == f[q] as int,
        decreases f.len() - i,
    {
        let v = mod_mul(ninv, f[i], p);
        proof {
            let pi = p as int;
            let fi = f[i as int] as int;
            lemma_mul_mod_noop_right(n as int, ninv * fi, pi);
            assert(n * (ninv * fi) == (n * ninv) * fi) by (nonlinear_arith);
            lemma_small_mod(1, pi as nat);
            lemma_congruent_mul(n * ninv, 1, fi, fi, pi);
            lemma_small_mod(fi as nat, pi as nat);
        }
        r.push(v);
        i = i + 1;
    }
    r
}

/// Radix-2 inverse transform: coefficients `r` of the polynomial whose values at
/// `w^0, ..., w^(n-1)` are `a`. Stated as: `n * r[i]` is the value of `a` at `w^(-i)`.
pub fn transform2_inverse(a: &Vec<i64>, w: i64, p: i64) -> (r: Vec<i64>)
    requires
        valid_modulus(p as int),
        reduced(w as int, p as int),
        all_reduced(a@, p as int),
        is_pow2(a.len() as nat),
        is_root_of_unity(w as int, a.len() as nat, p as int),
        reduced(a.len() as int, p as int),
        invertible(a.len() as int, p as int),
    ensures
        r.len() == a.len(),
        all_reduced(r@, p as int),
        forall|i: int| 0 <= i < r.len() ==> (a.len() * #[trigger] r[i]) % (p as int)
            == eval(a@, pow(w as int, ((a.len() - 1) * i) as nat)) % (p as int),
{
    let n = a.len();
    let winv = root_inverse(w, n, p);
    let f = transform2(a, winv, p);
    proof {
        assert forall|i: int| 0 <= i < f.len() implies #[trigger] f[i] as int
            == eval(a@, pow(w as int, ((n - 1) * i) as nat)) % (p as int) by {
            assert((n - 1) * i >= 0) by (nonlinear_arith) requires n >= 1, i >= 0;
            lemma_power_of_power(w as int, (n - 1) as nat, i as nat, i as nat, n as nat, 0, p as int);
            lemma_eval_congruent(a@, pow(winv as int, i as nat),
                pow(w as int, ((n - 1) * i) as nat), p as int);
        }
    }
    divide_all(f, n, p)
}

/// Radix-3 inverse transform, stated as for the radix-2 one.
pub fn transform3_inverse(a: &Vec<i64>, w: i64, p: i64) -> (r: Vec<i64>)
    requires
        valid_modulus(p as int),
        reduced(w as int, p as int),
        all_reduced(a@, p as int),
        is_pow3(a.len() as nat),
        is_root_of_unity(w as int, a.len() as nat, p as int),
        reduced(a.len() as int, p as int),
        invertible(a.len() as int, p as int),
    ensures
        r.len() == a.len(),
        all_reduced(r@, p as int),
        forall|i: int| 0 <= i < r.len() ==> (a.len() * #[trigger] r[i]) % (p as int)
            == eval(a@, pow(w as int, ((a.len() - 1) * i) as nat)) % (p as int),
{
    let n = a.len();
    let winv = root_inverse(w, n, p);
    let f = transform3(a, winv, p);
    proof {
        assert forall|i: int| 0 <= i < f.len() implies #[trigger] f[i] as int
            == eval(a@, pow(w as int, ((n - 1) * i) as nat)) % (p as int) by {
            assert((n - 1) * i >= 0) by (nonlinear_arith) requires n >= 1, i >= 0;
            lemma_power_of_power(w as int, (n - 1) as nat, i as nat, i as nat, n as nat, 0, p as int);
            lemma_eval_congruent(a@, pow(winv as int, i as nat),
                pow(w as int, ((n - 1) * i) as nat), p as int);
        }
    }
    divide_all(f, n, p)
}

} // verus!
