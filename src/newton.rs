//! Newton interpolation and evaluation over arbitrary points of `Z_p`.

use vstd::prelude::*;
use vstd::arithmetic::div_mod::*;
use crate::field::{
    all_reduced, invertible, is_inverse, lemma_congruent_mul, mod_add, mod_inverse, mod_mul,
    mod_sub, reduced, valid_modulus,
};

verus! {

/// A polynomial in Newton form: `c[0] + (x - x[0]) * (c[1] + (x - x[1]) * (...))`.
pub struct NewtonPolynomial {
    /// interpolation points `x[0..m)`
    pub points: Vec<i64>,
    /// Newton coefficients `c[0..m)`
    pub coefficients: Vec<i64>,
}

/// The unique reduced inverse of `d` modulo `p`, where one exists.
pub open spec fn inverse_of(d: int, p: int) -> int {
    choose|y: int| reduced(y, p) && is_inverse(d, y, p)
}

/// All pairwise differences of the points are invertible modulo `p`
/// (for a prime `p`: the points are distinct).
pub open spec fn separable(xs: Seq<i64>, p: int) -> bool {
    forall|a: int, b: int|
        0 <= a < b < xs.len() ==> invertible((#[trigger] xs[b] - #[trigger] xs[a]) % p, p)
}

/// The divided difference `f[x_lo, ..., x_hi]` of the values `ys` at the points `xs`,
/// modulo `p`.
pub open spec fn divided_difference(xs: Seq<i64>, ys: Seq<i64>, lo: int, hi: int, p: int) -> int
    decreases hi - lo,
{
    if hi <= lo {
        ys[lo] as int % p
    } else {
        ((divided_difference(xs, ys, lo + 1, hi, p) - divided_difference(xs, ys, lo, hi - 1, p))
            * inverse_of((xs[hi] - xs[lo]) % p, p)) % p
    }
}

/// Value at `x` of the Newton-form polynomial with points `xs` and
/// coefficients `cs`, over the integers.
pub open spec fn newton_value(xs: Seq<i64>, cs: Seq<i64>, x: int) -> int
    decreases cs.len(),
{
    if cs.len() == 0 || xs.len() == 0 {
        0
    } else {
        cs[0] + (x - xs[0]) * newton_value(xs.drop_first(), cs.drop_first(), x)
    }
}

proof fn lemma_inverse_unique(d: int, y: int, p: int)
    requires
        valid_modulus(p),
        reduced(y, p),
        is_inverse(d, y, p),
    ensures
        inverse_of(d, p) == y,
{
    let z = inverse_of(d, p);
    assert(reduced(z, p) && is_inverse(d, z, p));
    lemma_small_mod(1, p as nat);
    lemma_small_mod(y as nat, p as nat);
    lemma_small_mod(z as nat, p as nat);
    assert((y * d) % p == 1) by {
        assert(y * d == d * y) by (nonlinear_arith);
    }
    lemma_congruent_mul(y, y, d * z, 1, p);
    lemma_congruent_mul(y * d, 1, z, z, p);
    assert(y * (d * z) == (y * d) * z) by (nonlinear_arith);
}

/// Newton interpolation by a table of divided differences.
///
/// Returns the coefficients `f[x_0], f[x_0, x_1], ..., f[x_0, ..., x_(m-1)]`, or
/// `None` exactly when two of the points cannot be separated modulo `p`.
pub fn newton_interpolation_general(points: &Vec<i64>, values: &Vec<i64>, p: i64) -> (r: Option<NewtonPolynomial>)
    requires
        valid_modulus(p as int),
        points.len() == values.len(),
        all_reduced(points@, p as int),
        all_reduced(values@, p as int),
    ensures
        r is Some <==> separable(points@, p as int),
        r matches Some(poly) ==> {
            &&& poly.points@ == points@
            &&& poly.coefficients.len() == values.len()
            &&& all_reduced(poly.coefficients@, p as int)
            &&& forall|k: int| 0 <= k < values.len() ==> #[trigger] poly.coefficients[k] as int
                == divided_difference(points@, values@, 0, k, p as int)
        },
{
    let m = values.len();
    let ghost pi = p as int;
    let ghost xs = points@;
    let ghost ys = values@;
    let mut c: Vec<i64> = values.clone();
    proof {
        assert forall|k: int| 0 <= k < m implies #[trigger] c[k] as int == divided_difference(xs, ys, k, k, pi) by {
            lemma_small_mod(ys[k] as nat, pi as nat);
        }
    }
    let mut j: usize = 1;
    while j < m
        invariant
            valid_modulus(pi),
            pi == p as int,
            xs == points@,
            ys == values@,
            m == values.len(),
            m == points.len(),
            all_reduced(xs, pi),
            1 <= j,
            j <= m || m == 0,
            c.len() == m,
            all_reduced(c@, pi),
            forall|k: int| 0 <= k < m ==> #[trigger] c[k] as int == divided_difference(xs, ys,
                k - (if k < j - 1 { k } else { j - 1 }), k, pi),
            forall|a: int, b: int|
                0 <= a < b < m && b - a < j ==> invertible((#[trigger] xs[b] - #[trigger] xs[a]) % pi, pi),
        decreases m - j,
    {
        let mut i: usize = m;
        while i > j
            invariant
                valid_modulus(pi),
                pi == p as int,
                xs == points@,
                ys == values@,
                m == values.len(),
                m == points.len(),
                all_reduced(xs, pi),
                1 <= j < m,
                j <= i <= m,
                c.len() == m,
                all_reduced(c@, pi),
                forall|k: int| 0 <= k < m ==> #[trigger] c[k] as int == if k >= i {
                    divided_difference(xs, ys, k - j, k, pi)
                } else {
                    divided_difference(xs, ys, k - (if k < j - 1 { k } else { j - 1 }), k, pi)
                },
                forall|a: int, b: int|
                    0 <= a < b < m && (b - a < j || (b - a == j && b >= i))
                    ==> invertible((#[trigger] xs[b] - #[trigger] xs[a]) % pi, pi),
            decreases i,
        {
            i = i - 1;
            let den = mod_sub(points[i], points[i - j], p);
            let inv = match mod_inverse(den, p) {
                Some(v) => v,
                None => {
                    proof {
                        let a = (i - j) as int;
                        let b = i as int;
                        assert(!invertible((xs[b] - xs[a]) % pi, pi));
                    }
                    return None;
                },
            };
            let num = mod_sub(c[i], c[i - 1], p);
            let v = mod_mul(num, inv, p);
            proof {
                let ii = i as int;
                let d1 = divided_difference(xs, ys, ii - j + 1, ii, pi);
                let d0 = divided_difference(xs, ys, ii - j, ii - 1, pi);
                assert(c[ii] as int == d1);
                assert(c[ii - 1] as int == d0);
                lemma_inverse_unique(den as int, inv as int, pi);
                lemma_mul_mod_noop_left(d1 - d0, inv as int, pi);
                assert(invertible(den as int, pi));
            }
            c.set(i, v);
        }
        j = j + 1;
    }
    proof {
        if m > 0 {
            assert forall|k: int| 0 <= k < m implies #[trigger] c[k] as int
                == divided_difference(xs, ys, 0, k, pi) by {
                assert(k - (if k < j - 1 { k } else { j - 1 }) == 0);
            }
        }
    }
    Some(NewtonPolynomial { points: points.clone(), coefficients: c })
}

/// Evaluates a Newton-form polynomial at `x` by nested multiplication.
pub fn newton_evaluate(poly: &NewtonPolynomial, x: i64, p: i64) -> (r: i64)
    requires
        valid_modulus(p as int),
        reduced(x as int, p as int),
        poly.points.len() == poly.coefficients.len(),
        all_reduced(poly.points@, p as int),
        all_reduced(poly.coefficients@, p as int),
    ensures
        r as int == newton_value(poly.points@, poly.coefficients@, x as int) % (p as int),
{
    let m = poly.coefficients.len();
    let ghost xs = poly.points@;
    let ghost cs = poly.coefficients@;
    let ghost pi = p as int;
    let mut acc: i64 = 0;
    let mut i: usize = m;
    proof {
        lemma_small_mod(0, pi as nat);
        assert(cs.subrange(m as int, m as int).len() == 0);
    }
    while i > 0
        invariant
            valid_modulus(pi),
            pi == p as int,
            reduced(x as int, pi),
            xs == poly.points@,
            cs == poly.coefficients@,
            m == cs.len(),
            m == xs.len(),
            all_reduced(xs, pi),
            all_reduced(cs, pi),
            i <= m,
            reduced(acc as int, pi),
            acc as int == newton_value(xs.subrange(i as int, m as int), cs.subrange(i as int, m as int),
                x as int) % pi,
        decreases i,
    {
        i = i - 1;
        let ghost old_acc = acc as int;
        let d = mod_sub(x, poly.points[i], p);
        let t = mod_mul(d, acc, p);
        acc = mod_add(poly.coefficients[i], t, p);
        proof {
            let ii = i as int;
            let xt = xs.subrange(ii, m as int);
            let ct = cs.subrange(ii, m as int);
            assert(xt.drop_first() =~= xs.subrange(ii + 1, m as int));
            assert(ct.drop_first() =~= cs.subrange(ii + 1, m as int));
            let tail = newton_value(xs.subrange(ii + 1, m as int), cs.subrange(ii + 1, m as int), x as int);
            assert(newton_value(xt, ct, x as int) == cs[ii] + (x - xs[ii]) * tail);
            lemma_small_mod(old_acc as nat, pi as nat);
            lemma_mod_twice_local(tail, pi);
            lemma_small_mod(d as nat, pi as nat);
            lemma_mod_twice_local(x - xs[ii], pi);
            lemma_congruent_mul(d as int, x - xs[ii], old_acc, tail, pi);
            lemma_small_mod(cs[ii] as nat, pi as nat);
            lemma_add_mod_noop(cs[ii] as int, (x - xs[ii]) * tail, pi);
            lemma_mod_twice_local(d * old_acc, pi);
            lemma_mod_twice_local((x - xs[ii]) * tail, pi);
        }
    }
    proof {
        assert(xs.subrange(0, m as int) =~= xs);
        assert(cs.subrange(0, m as int) =~= cs);
    }
    acc
}

proof fn lemma_mod_twice_local(x: int, p: int)
    requires
        0 < p,
    ensures
        (x % p) % p == x % p,
{
    crate::field::lemma_mod_twice(x, p);
}

} // verus!
