//! Polynomials in coefficient form, as mathematical objects.

use vstd::prelude::*;
use vstd::assert_seqs_equal;

use vstd::arithmetic::div_mod::*;
use crate::field::{all_reduced, lemma_congruent_mul, lemma_mod_twice, mod_add, mod_mul, reduced, valid_modulus};

verus! {

/// Value of the polynomial with coefficients `c` (lowest degree first) at `x`,
/// over the integers.
pub open spec fn eval(c: Seq<i64>, x: int) -> int
    decreases c.len(),
{
    if c.len() == 0 {
        0
    } else {
        c[0] + x * eval(c.subrange(1, c.len() as int), x)
    }
}

/// The coefficients of `c` at positions `j`, `j + k`, `j + 2k`, ...
pub open spec fn stride(c: Seq<i64>, k: int, j: int) -> Seq<i64> {
    Seq::new(((c.len() - j + k - 1) / k) as nat, |i: int| c[j + k * i])
}

proof fn lemma_stride2_shift(c: Seq<i64>)
    requires
        c.len() >= 1,
    ensures
        stride(c, 2, 0) == seq![c[0]] + stride(c.subrange(1, c.len() as int), 2, 1),
        stride(c, 2, 1) == stride(c.subrange(1, c.len() as int), 2, 0),
{
    let t = c.subrange(1, c.len() as int);
    assert_seqs_equal!(stride(c, 2, 0), seq![c[0]] + stride(t, 2, 1));
    assert_seqs_equal!(stride(c, 2, 1), stride(t, 2, 0));
}

proof fn lemma_stride3_shift(c: Seq<i64>)
    requires
        c.len() >= 1,
    ensures
        stride(c, 3, 0) == seq![c[0]] + stride(c.subrange(1, c.len() as int), 3, 2),
        stride(c, 3, 1) == stride(c.subrange(1, c.len() as int), 3, 0),
        stride(c, 3, 2) == stride(c.subrange(1, c.len() as int), 3, 1),
{
    let t = c.subrange(1, c.len() as int);
    assert_seqs_equal!(stride(c, 3, 0), seq![c[0]] + stride(t, 3, 2));
    assert_seqs_equal!(stride(c, 3, 1), stride(t, 3, 0));
    assert_seqs_equal!(stride(c, 3, 2), stride(t, 3, 1));
}

proof fn lemma_eval_cons(v: i64, c: Seq<i64>, x: int)
    ensures
        eval(seq![v] + c, x) == v + x * eval(c, x),
{
    let s = seq![v] + c;
    assert(s.subrange(1, s.len() as int) =~= c);
}

/// Splitting a polynomial into its even and odd coefficients.
pub proof fn lemma_eval_split2(c: Seq<i64>, x: int)
    ensures
        eval(c, x) == eval(stride(c, 2, 0), x * x) + x * eval(stride(c, 2, 1), x * x),
    decreases c.len(),
{
    if c.len() == 0 {
        assert(stride(c, 2, 0).len() == 0);
        assert(stride(c, 2, 1).len() == 0);
    } else {
        let t = c.subrange(1, c.len() as int);
        lemma_eval_split2(t, x);
        lemma_stride2_shift(c);
        lemma_eval_cons(c[0], stride(t, 2, 1), x * x);
        let e0 = eval(stride(t, 2, 0), x * x);
        let e1 = eval(stride(t, 2, 1), x * x);
        assert(c[0] + x * (e0 + x * e1) == (c[0] + (x * x) * e1) + x * e0) by (nonlinear_arith);
    }
}

/// Splitting a polynomial into its coefficients of index `0`, `1` and `2`
/// modulo three.
pub proof fn lemma_eval_split3(c: Seq<i64>, x: int)
    ensures
        eval(c, x) == eval(stride(c, 3, 0), x * x * x) + x * eval(stride(c, 3, 1), x * x * x)
            + x * x * eval(stride(c, 3, 2), x * x * x),
    decreases c.len(),
{
    if c.len() == 0 {
        assert(stride(c, 3, 0).len() == 0);
        assert(stride(c, 3, 1).len() == 0);
        assert(stride(c, 3, 2).len() == 0);
    } else {
        let t = c.subrange(1, c.len() as int);
        lemma_eval_split3(t, x);
        lemma_stride3_shift(c);
        lemma_eval_cons(c[0], stride(t, 3, 2), x * x * x);
        let e0 = eval(stride(t, 3, 0), x * x * x);
        let e1 = eval(stride(t, 3, 1), x * x * x);
        let e2 = eval(stride(t, 3, 2), x * x * x);
        assert(c[0] + x * (e0 + x * e1 + x * x * e2) == (c[0] + (x * x * x) * e2) + x * e0 + x
            * x * e1) by (nonlinear_arith);
    }
}

/// Evaluation respects congruence of the point modulo `p`.
pub proof fn lemma_eval_congruent(c: Seq<i64>, x: int, y: int, p: int)
    requires
        0 < p,
        x % p == y % p,
    ensures
        eval(c, x) % p == eval(c, y) % p,
    decreases c.len(),
{
    if c.len() > 0 {
        let t = c.subrange(1, c.len() as int);
        lemma_eval_congruent(t, x, y, p);
        lemma_congruent_mul(x, y, eval(t, x), eval(t, y), p);
        lemma_add_mod_noop(c[0] as int, x * eval(t, x), p);
        lemma_add_mod_noop(c[0] as int, y * eval(t, y), p);
    }
}

/// Elementwise sum modulo `p`.
pub open spec fn add_values(a: Seq<i64>, b: Seq<i64>, p: int) -> Seq<i64> {
    Seq::new(a.len(), |i: int| ((a[i] + b[i]) % p) as i64)
}

/// Evaluation is additive in the coefficients, modulo `p`.
pub proof fn lemma_eval_add(a: Seq<i64>, b: Seq<i64>, x: int, p: int)
    requires
        valid_modulus(p),
        p <= i64::MAX,
        a.len() == b.len(),
    ensures
        eval(add_values(a, b, p), x) % p == (eval(a, x) + eval(b, x)) % p,
    decreases a.len(),
{
    if a.len() > 0 {
        let ta = a.subrange(1, a.len() as int);
        let tb = b.subrange(1, b.len() as int);
        let c = add_values(a, b, p);
        assert(c.subrange(1, c.len() as int) =~= add_values(ta, tb, p));
        lemma_eval_add(ta, tb, x, p);
        assert(eval(c, x) == c[0] + x * eval(add_values(ta, tb, p), x));
        let ec = eval(add_values(ta, tb, p), x);
        let ea = eval(ta, x);
        let eb = eval(tb, x);
        // c[0] + x * ec  ==  (a0 + b0) + x * (ea + eb)  (mod p)
        assert(c[0] as int == (a[0] + b[0]) % p);
        lemma_mod_twice(a[0] + b[0], p);
        lemma_congruent_mul(x, x, ec, ea + eb, p);
        lemma_add_mod_noop(c[0] as int, x * ec, p);
        lemma_add_mod_noop(a[0] + b[0], x * (ea + eb), p);
        lemma_mod_twice(x * ec, p);
        lemma_mod_twice(x * (ea + eb), p);
        assert((a[0] + b[0]) + x * (ea + eb) == (a[0] + x * ea) + (b[0] + x * eb)) by (nonlinear_arith);
    }
}

/// Evaluates the polynomial with coefficients `c` at `x` modulo `p`, by Horner's rule.
pub fn mod_evaluate_polynomial(c: &Vec<i64>, x: i64, p: i64) -> (r: i64)
    requires
        valid_modulus(p as int),
        reduced(x as int, p as int),
        all_reduced(c@, p as int),
    ensures
        r as int == eval(c@, x as int) % (p as int),
{
    let m = c.len();
    let ghost pi = p as int;
    let mut acc: i64 = 0;
    let mut i: usize = m;
    proof {
        lemma_small_mod(0, pi as nat);
        assert(c@.subrange(m as int, m as int).len() == 0);
    }
    while i > 0
        invariant
            valid_modulus(pi),
            pi == p as int,
            reduced(x as int, pi),
            m == c.len(),
            all_reduced(c@, pi),
            i <= m,
            reduced(acc as int, pi),
            acc as int == eval(c@.subrange(i as int, m as int), x as int) % pi,
        decreases i,
    {
        i = i - 1;
        let ghost old_acc = acc as int;
        let t = mod_mul(x, acc, p);
        acc = mod_add(c[i], t, p);
        proof {
            let ii = i as int;
            let ct = c@.subrange(ii, m as int);
            assert(ct.subrange(1, ct.len() as int) =~= c@.subrange(ii + 1, m as int));
            let tail = eval(c@.subrange(ii + 1, m as int), x as int);
            lemma_small_mod(old_acc as nat, pi as nat);
            lemma_small_mod(x as nat, pi as nat);
            lemma_mod_twice(tail, pi);
            lemma_congruent_mul(x as int, x as int, old_acc, tail, pi);
            lemma_small_mod(c[ii] as nat, pi as nat);
            lemma_add_mod_noop(c[ii] as int, x * tail, pi);
            lemma_mod_twice(x * old_acc, pi);
            lemma_mod_twice(x * tail, pi);
        }
    }
    proof {
        assert(c@.subrange(0, m as int) =~= c@);
    }
    acc
}

} // verus!
