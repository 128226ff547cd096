//! Search for a prime field and roots of unity that suit a configuration.

use vstd::prelude::*;
use vstd::arithmetic::power::*;
use crate::field::{mod_pow, reduced, valid_modulus};

verus! {

/// `p` is prime.
pub open spec fn is_prime(p: int) -> bool {
    p >= 2 && forall|d: int| 2 <= d < p ==> #[trigger] (p % d) != 0
}

/// Tests primality by trial division up to the square root.
pub fn check_prime(p: i64) -> (r: bool)
    ensures
        r == is_prime(p as int),
{
    if p < 2 {
        return false;
    }
    let mut d: i64 = 2;
    while d <= p / d
        invariant
            2 <= p,
            2 <= d <= p,
            forall|e: int| 2 <= e < d ==> #[trigger] (p as int % e) != 0,
        decreases p - d,
    {
        proof {
            assert(d * d <= p) by (nonlinear_arith)
                requires d <= p / d, d >= 2, p >= 2;
            assert(d < p) by (nonlinear_arith)
                requires d * d <= p, d >= 2;
        }
        if p % d == 0 {
            proof {
                assert((p as int) % (d as int) == 0);
            }
            return false;
        }
        proof {
            assert(d * d <= p) by (nonlinear_arith)
                requires d <= p / d, d >= 2, p >= 2;
            assert(d + 1 <= p) by (nonlinear_arith)
                requires d * d <= p, d >= 2;
        }
        d = d + 1;
    }
    proof {
        let pi = p as int;
        let di = d as int;
        vstd::arithmetic::div_mod::lemma_fundamental_div_mod(pi, di);
        assert(pi < di * di) by (nonlinear_arith)
            requires di > pi / di, pi == di * (pi / di) + pi % di, 0 <= pi % di < di, di >= 2;
        assert forall|x: int| 2 <= x < pi implies #[trigger] (pi % x) != 0 by {
            if x >= di && pi % x == 0 {
                vstd::arithmetic::div_mod::lemma_fundamental_div_mod(pi, x);
                let y = pi / x;
                assert(pi == x * y);
                assert(y >= 2) by (nonlinear_arith)
                    requires pi == x * y, x < pi, pi >= 2, x >= 2;
                assert(y < di) by (nonlinear_arith)
                    requires pi == x * y, x >= di, pi < di * di, y >= 2, di >= 2;
                assert(pi % y == 0) by {
                    vstd::arithmetic::div_mod::lemma_mod_multiples_basic(x, y);
                    assert(x * y == y * x) by (nonlinear_arith);
                }
                assert(pi % y != 0);
            }
        }
    }
    true
}

/// `p` is at least `min_p`, and `p - 1` is a multiple of `n * m` whose cofactor is
/// divisible by neither `n` nor `m`.
pub open spec fn prime_form(min_p: int, n: int, m: int, p: int) -> bool {
    &&& p >= min_p
    &&& (p - 1) % n == 0
    &&& (p - 1) % m == 0
    &&& ((p - 1) / (n * m)) % n != 0
    &&& ((p - 1) / (n * m)) % m != 0
}

/// `p` is the least prime of the form above.
pub open spec fn is_least_prime_of_form(min_p: int, n: int, m: int, p: int) -> bool {
    &&& is_prime(p)
    &&& prime_form(min_p, n, m, p)
    &&& forall|q: int| 2 <= q < p && #[trigger] is_prime(q) ==> !prime_form(min_p, n, m, q)
}

/// Tests the form of a candidate prime.
pub fn check_prime_form(min_p: usize, n: usize, m: usize, p: usize) -> (r: bool)
    requires
        p < min_p || (p >= 1 && n >= 1 && m >= 1 && n * m <= usize::MAX),
    ensures
        r == prime_form(min_p as int, n as int, m as int, p as int),
{
    if p < min_p {
        return false;
    }
    let q = p - 1;
    if q % n != 0 {
        return false;
    }
    if q % m != 0 {
        return false;
    }
    proof {
        assert(n * m >= 1) by (nonlinear_arith)
            requires n >= 1, m >= 1;
    }
    let q = q / (n * m);
    if q % n == 0 {
        return false;
    }
    if q % m == 0 {
        return false;
    }
    true
}

/// Relies on primal's `Primes::all()`, which yields every prime `2, 3, 5, 7, ...`
/// in increasing order, and `Iterator::find`: the first prime accepted by
/// `check_prime_form`. With `n, m >= 2` such primes are found among those
/// that fit a `usize` whenever one exists there.
#[verifier::external_body]
fn least_prime_of_form(min_p: usize, n: usize, m: usize) -> (r: Option<usize>)
    requires
        n >= 2,
        m >= 2,
        n * m <= usize::MAX,
    ensures
        r matches Some(p) ==> is_least_prime_of_form(min_p as int, n as int, m as int, p as int),
        (exists|q: int| q <= usize::MAX && #[trigger] is_prime(q) && prime_form(min_p as int, n as int, m as int, q))
            ==> r is Some,
{
    primal::Primes::all().find(|p| check_prime_form(min_p, n, m, *p))
}

/// The least `b >= start` with `b * b >= p` (or `b >= p`).
pub open spec fn ceil_sqrt_from(p: nat, b: nat) -> nat
    decreases p + 1 - b,
{
    if b * b >= p || b >= p {
        b
    } else {
        ceil_sqrt_from(p, b + 1)
    }
}

/// `ceil(sqrt(p))`.
pub open spec fn ceil_sqrt(p: nat) -> nat {
    ceil_sqrt_from(p, 0)
}

/// For each `f` in `lo..=hi` dividing `p`, the pair `f, p / f`.
pub open spec fn factor_list(p: nat, lo: nat, hi: nat) -> Seq<usize>
    decreases hi + 1 - lo,
{
    if lo > hi || lo == 0 {
        seq![]
    } else {
        (if p % lo == 0 {
            seq![lo as usize, (p / lo) as usize]
        } else {
            seq![]
        }) + factor_list(p, lo + 1, hi)
    }
}

proof fn lemma_ceil_sqrt_bound(p: nat, b: nat)
    requires
        b <= p,
    ensures
        ceil_sqrt_from(p, b) <= p,
    decreases p + 1 - b,
{
    if !(b * b >= p || b >= p) {
        lemma_ceil_sqrt_bound(p, b + 1);
    }
}

proof fn lemma_factor_list_positive(p: nat, lo: nat, hi: nat)
    requires
        p >= 1,
        p <= usize::MAX,
        lo >= 1,
        hi <= usize::MAX,
    ensures
        forall|i: int| 0 <= i < factor_list(p, lo, hi).len() ==> #[trigger] factor_list(p, lo, hi)[i] >= 1,
    decreases hi + 1 - lo,
{
    if lo <= hi {
        lemma_factor_list_positive(p, lo + 1, hi);
        let tail = factor_list(p, lo + 1, hi);
        if p % lo == 0 {
            assert(p / lo >= 1) by (nonlinear_arith)
                requires p >= 1, lo >= 1, p % lo == 0;
            assert(p / lo <= p) by (nonlinear_arith)
                requires p >= 1, lo >= 1;
            let head = seq![lo as usize, (p / lo) as usize];
            assert(factor_list(p, lo, hi) == head + tail);
            assert forall|i: int| 0 <= i < factor_list(p, lo, hi).len() implies #[trigger] factor_list(p, lo, hi)[i] >= 1 by {
                if i >= 2 {
                    assert(factor_list(p, lo, hi)[i] == tail[i - 2]);
                }
            }
        } else {
            assert(factor_list(p, lo, hi) =~= tail);
        }
    }
}

fn square_reaches(b: usize, p: usize) -> (r: bool)
    requires
        b <= 0x1_0000_0000,
    ensures
        r == (b * b >= p || b >= p),
{
    assert(b * b <= 0x1_0000_0000_0000_0000) by (nonlinear_arith)
        requires b <= 0x1_0000_0000;
    (b as u128) * (b as u128) >= p as u128 || b >= p
}

/// The divisors `f` of `p` with `2 <= f <= ceil(sqrt(p))`, each followed by `p / f`.
pub fn factor(p: usize) -> (r: Vec<usize>)
    ensures
        r@ == factor_list(p as nat, 2, ceil_sqrt(p as nat)),
{
    let mut b: usize = 0;
    while !square_reaches(b, p)
        invariant
            ceil_sqrt_from(p as nat, b as nat) == ceil_sqrt(p as nat),
            b <= 0x1_0000_0000,
        decreases p - b,
    {
        assert(b < 0x1_0000_0000) by (nonlinear_arith)
            requires b * b < p, p <= usize::MAX;
        b = b + 1;
    }
    let mut factors: Vec<usize> = Vec::new();
    let mut f: u64 = 2;
    proof {
        assert(factors@ + factor_list(p as nat, 2, b as nat) =~= factor_list(p as nat, 2, b as nat));
    }
    while f <= b as u64
        invariant
            b <= 0x1_0000_0000,
            b == ceil_sqrt(p as nat),
            2 <= f <= b + 2,
            factors@ + factor_list(p as nat, f as nat, b as nat) == factor_list(p as nat, 2, b as nat),
        decreases b + 1 - f,
    {
        let ghost before = factors@;
        let d = f as usize;
        if p % d == 0 {
            factors.push(d);
            factors.push(p / d);
        }
        proof {
            assert(factors@ + factor_list(p as nat, (f + 1) as nat, b as nat)
                =~= before + factor_list(p as nat, f as nat, b as nat));
        }
        f = f + 1;
    }
    proof {
        assert(factors@ =~= factors@ + factor_list(p as nat, f as nat, b as nat));
    }
    factors
}

/// `g` passes the generator test of `Z_p`: `g^((p-1)/f) != 1` for every `f` of
/// `factor(p - 1)`.
pub open spec fn passes_generator_test(g: int, p: int) -> bool {
    let fs = factor_list((p - 1) as nat, 2, ceil_sqrt((p - 1) as nat));
    forall|i: int| 0 <= i < fs.len() ==> pow(g, ((p - 1) / (#[trigger] fs[i] as int)) as nat) % p != 1
}

proof fn lemma_least_prime_unique(min_p: int, n: int, m: int, p: int, q: int)
    requires
        is_least_prime_of_form(min_p, n, m, p),
        is_least_prime_of_form(min_p, n, m, q),
    ensures
        p == q,
{
    if p < q {
        assert(is_prime(p));
    } else if q < p {
        assert(is_prime(q));
    }
}

/// The field choice is unique.
proof fn lemma_field_choice_unique(min_p: int, n: int, m: int, p: int, g: int, q: int, h: int)
    requires
        is_field_choice(min_p, n, m, p, g),
        is_field_choice(min_p, n, m, q, h),
    ensures
        p == q,
        g == h,
{
    lemma_least_prime_unique(min_p, n, m, p, q);
    if g < h {
        assert(!passes_generator_test(g, q));
    } else if h < g {
        assert(!passes_generator_test(h, p));
    }
}

/// The field found for the orders `n` and `m`: the least prime `p` of the right
/// form, and the least `g >= 2` passing the generator test.
pub open spec fn is_field_choice(min_p: int, n: int, m: int, p: int, g: int) -> bool {
    &&& is_least_prime_of_form(min_p, n, m, p)
    &&& 2 <= g < p
    &&& passes_generator_test(g, p)
    &&& forall|h: int| 2 <= h < g ==> !#[trigger] passes_generator_test(h, p)
}

fn is_generator(g: usize, p: usize, factors: &Vec<usize>) -> (r: bool)
    requires
        valid_modulus(p as int),
        p <= 0x7fff_ffff_ffff_ffff,
        reduced(g as int, p as int),
        factors@ == factor_list((p - 1) as nat, 2, ceil_sqrt((p - 1) as nat)),
    ensures
        r == passes_generator_test(g as int, p as int),
{
    let ghost fs = factors@;
    proof {
        lemma_ceil_sqrt_bound((p - 1) as nat, 0);
        lemma_factor_list_positive((p - 1) as nat, 2, ceil_sqrt((p - 1) as nat));
    }
    let mut i: usize = 0;
    while i < factors.len()
        invariant
            valid_modulus(p as int),
            p <= 0x7fff_ffff_ffff_ffff,
            reduced(g as int, p as int),
            fs == factors@,
            fs == factor_list((p - 1) as nat, 2, ceil_sqrt((p - 1) as nat)),
            forall|k: int| 0 <= k < fs.len() ==> #[trigger] fs[k] >= 1,
            i <= factors.len(),
            forall|k: int| 0 <= k < i ==> pow(g as int, ((p - 1) / (#[trigger] fs[k] as int)) as nat)
                % (p as int) != 1,
        decreases factors.len() - i,
    {
        let e: usize = (p - 1) / factors[i];
        if mod_pow(g as i64, e as u64, p as i64) == 1 {
            proof {
                assert(fs[i as int] == factors[i as int]);
                assert(pow(g as int, ((p - 1) / (fs[i as int] as int)) as nat) % (p as int) == 1);
            }
            return false;
        }
        i = i + 1;
    }
    true
}

/// Finds the least prime of the right form and a generator of its
/// multiplicative group; `None` when the search fails or the prime does not
/// fit an `i64`.
pub fn find_field(min_p: usize, n: usize, m: usize) -> (r: Option<(i64, i64)>)
    requires
        n >= 2,
        m >= 2,
        n * m <= usize::MAX,
    ensures
        r matches Some((p, g)) ==> is_field_choice(min_p as int, n as int, m as int, p as int, g as int),
        forall|p: int, g: int| #[trigger] is_field_choice(min_p as int, n as int, m as int, p, g)
            && p <= i64::MAX && p <= usize::MAX ==> r is Some,
{
    let p = match least_prime_of_form(min_p, n, m) {
        Some(p) => p,
        None => {
            proof {
                assert forall|q: int, g: int| #[trigger] is_field_choice(min_p as int, n as int, m as int, q, g)
                    && q <= i64::MAX && q <= usize::MAX implies false by {
                    assert(is_prime(q));
                }
            }
            return None;
        },
    };
    if p as u64 > 0x7fff_ffff_ffff_ffffu64 {
        proof {
            assert forall|q: int, g: int| #[trigger] is_field_choice(min_p as int, n as int, m as int, q, g)
                && q <= i64::MAX && q <= usize::MAX implies false by {
                lemma_least_prime_unique(min_p as int, n as int, m as int, q, p as int);
            }
        }
        return None;
    }
    let factors = factor(p - 1);
    let mut g: usize = 2;
    while g < p
        invariant
            2 <= g <= p,
            p <= 0x7fff_ffff_ffff_ffff,
            is_least_prime_of_form(min_p as int, n as int, m as int, p as int),
            factors@ == factor_list((p - 1) as nat, 2, ceil_sqrt((p - 1) as nat)),
            forall|h: int| 2 <= h < g ==> !#[trigger] passes_generator_test(h, p as int),
        decreases p - g,
    {
        if is_generator(g, p, &factors) {
            return Some((p as i64, g as i64));
        }
        g = g + 1;
    }
    proof {
        assert forall|q: int, h: int| #[trigger] is_field_choice(min_p as int, n as int, m as int, q, h)
            && q <= i64::MAX && q <= usize::MAX implies false by {
            lemma_least_prime_unique(min_p as int, n as int, m as int, q, p as int);
            assert(!passes_generator_test(h, p as int));
        }
    }
    None
}

/// The `n`-th and `m`-th roots of unity derived from the generator `g`:
/// `g^((p-1)/n)` and `g^((p-1)/m)`.
pub fn find_roots(n: usize, m: usize, p: i64, g: i64) -> (r: (i64, i64))
    requires
        n >= 1,
        m >= 1,
        valid_modulus(p as int),
        reduced(g as int, p as int),
    ensures
        r.0 as int == pow(g as int, ((p - 1) / (n as int)) as nat) % (p as int),
        r.1 as int == pow(g as int, ((p - 1) / (m as int)) as nat) % (p as int),
{
    let omega_secrets = mod_pow(g, ((p - 1) as u64) / (n as u64), p);
    let omega_shares = mod_pow(g, ((p - 1) as u64) / (m as u64), p);
    (omega_secrets, omega_shares)
}

/// The parameters `(prime, omega_secrets, omega_shares)` for secrets on the
/// `n`-th and shares on the `m`-th roots of unity.
pub open spec fn is_generated(min_size: int, n: int, m: int, p: int, ws: int, wh: int) -> bool {
    exists|g: int|
        #[trigger] is_field_choice(min_size, n, m, p, g)
            && ws == pow(g, ((p - 1) / n) as nat) % p
            && wh == pow(g, ((p - 1) / m) as nat) % p
}

/// Generates a prime field and the two roots of unity.
pub fn generate_parameters(min_size: usize, n: usize, m: usize) -> (r: Option<(i64, i64, i64)>)
    requires
        n >= 2,
        m >= 2,
        n * m <= usize::MAX,
    ensures
        r matches Some((p, ws, wh)) ==> is_generated(min_size as int, n as int, m as int, p as int,
            ws as int, wh as int),
        forall|p: int, g: int| #[trigger] is_field_choice(min_size as int, n as int, m as int, p, g)
            && p <= i64::MAX && p <= usize::MAX ==> r is Some,
        forall|p: int, ws: int, wh: int|
            #[trigger] is_generated(min_size as int, n as int, m as int, p, ws, wh) && p <= i64::MAX
            && p <= usize::MAX
            ==> r == Some((p as i64, ws as i64, wh as i64)),
{
    let (prime, g) = match find_field(min_size, n, m) {
        Some(field) => field,
        None => {
            proof {
                assert forall|p: int, ws: int, wh: int|
                    #[trigger] is_generated(min_size as int, n as int, m as int, p, ws, wh) && p <= i64::MAX
            && p <= usize::MAX
                    implies false by {
                    let h = choose|h: int| #[trigger] is_field_choice(min_size as int, n as int, m as int, p, h)
                        && ws == pow(h, ((p - 1) / (n as int)) as nat) % p
                        && wh == pow(h, ((p - 1) / (m as int)) as nat) % p;
                }
            }
            return None;
        },
    };
    let (omega_secrets, omega_shares) = find_roots(n, m, prime, g);
    proof {
        assert(is_field_choice(min_size as int, n as int, m as int, prime as int, g as int));
        assert forall|p: int, ws: int, wh: int|
            #[trigger] is_generated(min_size as int, n as int, m as int, p, ws, wh) && p <= i64::MAX
            && p <= usize::MAX
            implies p == prime && ws == omega_secrets && wh == omega_shares by {
            let h = choose|h: int| #[trigger] is_field_choice(min_size as int, n as int, m as int, p, h)
                && ws == pow(h, ((p - 1) / (n as int)) as nat) % p
                && wh == pow(h, ((p - 1) / (m as int)) as nat) % p;
            lemma_field_choice_unique(min_size as int, n as int, m as int, p, h, prime as int, g as int);
        }
    }
    Some((prime, omega_secrets, omega_shares))
}

} // verus!
