//! The packed secret sharing scheme.

use vstd::prelude::*;
use vstd::arithmetic::power::*;
use vstd::arithmetic::div_mod::*;
use crate::field::{
    all_reduced, invertible, is_inverse, lemma_congruent_mul, lemma_mod_twice, mod_inverse, mod_pow,
    reduced, valid_modulus,
};
use crate::newton::{
    divided_difference, inverse_of, newton_evaluate, newton_interpolation_general, newton_value,
    separable,
};
use crate::poly::{add_values, eval, lemma_eval_add};
use crate::transform::{check_pow2, check_pow3, is_pow2, is_pow3, is_root_of_unity, transform2_inverse, transform3};
use crate::paramgen::{check_prime, generate_parameters, is_field_choice, is_generated, is_prime};
use rand::Rng;

verus! {

/// Packed variant of the secret sharing.
///
/// Secrets are placed on the `reconstruct_limit()`-th roots of unity (a power
/// of two), shares are read on the `(share_count + 1)`-th roots of unity (a
/// power of three). The point `1`, common to both, carries neither.
#[derive(Debug, Copy, Clone, PartialEq, Eq, Structural)]
pub struct PackedSecretSharing {
    /// security threshold
    pub threshold: usize,
    /// number of shares to generate
    pub share_count: usize,
    /// number of secrets in each share
    pub secret_count: usize,
    /// prime field to use
    pub prime: i64,
    /// `reconstruct_limit`-th principal root of unity in Z_p
    pub omega_secrets: i64,
    /// `(share_count + 1)`-th principal root of unity in Z_p
    pub omega_shares: i64,
}

/// Tiny settings: 3 secrets shared 8 ways, with a security threshold of 4.
pub fn pss_4_8_3() -> (r: PackedSecretSharing)
    ensures
        r == (PackedSecretSharing {
            threshold: 4,
            share_count: 8,
            secret_count: 3,
            prime: 433,
            omega_secrets: 354,
            omega_shares: 150,
        }),
{
    PackedSecretSharing {
        threshold: 4,
        share_count: 8,
        secret_count: 3,
        prime: 433,
        omega_secrets: 354,
        omega_shares: 150,
    }
}

/// Small settings: 3 secrets shared 26 ways, with a security threshold of 4.
pub fn pss_4_26_3() -> (r: PackedSecretSharing)
    ensures
        r == (PackedSecretSharing {
            threshold: 4,
            share_count: 26,
            secret_count: 3,
            prime: 433,
            omega_secrets: 354,
            omega_shares: 17,
        }),
{
    PackedSecretSharing {
        threshold: 4,
        share_count: 26,
        secret_count: 3,
        prime: 433,
        omega_secrets: 354,
        omega_shares: 17,
    }
}

/// 100 secrets shared 728 ways, with a security threshold of 155.
pub fn pss_155_728_100() -> (r: PackedSecretSharing)
    ensures
        r == (PackedSecretSharing {
            threshold: 155,
            share_count: 728,
            secret_count: 100,
            prime: 746497,
            omega_secrets: 95660,
            omega_shares: 610121,
        }),
{
    PackedSecretSharing {
        threshold: 155,
        share_count: 728,
        secret_count: 100,
        prime: 746497,
        omega_secrets: 95660,
        omega_shares: 610121,
    }
}

/// 100 secrets shared 19682 ways, with a security threshold of 155.
pub fn pss_155_19682_100() -> (r: PackedSecretSharing)
    ensures
        r == (PackedSecretSharing {
            threshold: 155,
            share_count: 19682,
            secret_count: 100,
            prime: 5038849,
            omega_secrets: 4318906,
            omega_shares: 1814687,
        }),
{
    PackedSecretSharing {
        threshold: 155,
        share_count: 19682,
        secret_count: 100,
        prime: 5038849,
        omega_secrets: 4318906,
        omega_shares: 1814687,
    }
}

/// The values that the secret polynomial takes at `omega_secrets^0, ^1, ...`:
/// zero at the reserved point, then the secrets, then the randomness.
pub open spec fn point_values(secrets: Seq<i64>, randomness: Seq<i64>) -> Seq<i64> {
    seq![0i64] + secrets + randomness
}

/// Coefficients of the polynomial taking `values[j]` at `w^j`, by the inverse
/// discrete Fourier transform: `c[i] = n^-1 * sum_j values[j] * w^(-i*j)`.
pub open spec fn interpolated_coefficients(values: Seq<i64>, w: int, p: int) -> Seq<i64> {
    Seq::new(
        values.len(),
        |i: int|
            ((inverse_of(values.len() as int, p) * eval(values, pow(w, ((values.len() - 1) * i) as nat)))
                % p) as i64,
    )
}

/// Evaluation points of the shares of the given ranks: `omega_shares^(rank + 1)`.
pub open spec fn share_points_of(omega_shares: int, p: int, indices: Seq<usize>) -> Seq<i64> {
    Seq::new(indices.len(), |i: int| (pow(omega_shares, (indices[i] + 1) as nat) % p) as i64)
}

/// Newton coefficients of the interpolation of `ys` at `xs`.
pub open spec fn newton_coefficients(xs: Seq<i64>, ys: Seq<i64>, p: int) -> Seq<i64> {
    Seq::new(ys.len(), |k: int| divided_difference(xs, ys, 0, k, p) as i64)
}

/// The reduced inverse of an invertible `n` exists, and solving `n * c == e`
/// for a reduced `c` gives `c == n^-1 * e`.
pub proof fn lemma_solve_scaled(n: int, c: int, e: int, p: int)
    requires
        valid_modulus(p),
        reduced(c, p),
        invertible(n, p),
        (n * c) % p == e % p,
    ensures
        c == (inverse_of(n, p) * e) % p,
{
    let y = choose|y: int| is_inverse(n, y, p);
    let z = y % p;
    lemma_mul_mod_noop_right(n, y, p);
    assert(reduced(z, p) && is_inverse(n, z, p));
    let iv = inverse_of(n, p);
    assert(reduced(iv, p) && is_inverse(n, iv, p));
    lemma_congruent_mul(iv, iv, e, n * c, p);
    assert(iv * (n * c) == (iv * n) * c) by (nonlinear_arith);
    assert(iv * n == n * iv) by (nonlinear_arith);
    lemma_congruent_mul(iv * n, 1, c, c, p);
    lemma_small_mod(c as nat, p as nat);
}

/// Appending zero coefficients does not change a polynomial.
pub proof fn lemma_eval_zero_padding(c: Seq<i64>, z: Seq<i64>, x: int)
    requires
        forall|i: int| 0 <= i < z.len() ==> z[i] == 0,
    ensures
        eval(c + z, x) == eval(c, x),
    decreases c.len() + z.len(),
{
    if c.len() == 0 {
        assert(c + z =~= z);
        if z.len() > 0 {
            lemma_eval_zero_padding(c, z.subrange(1, z.len() as int), x);
            assert(c + z.subrange(1, z.len() as int) =~= z.subrange(1, z.len() as int));
        }
    } else {
        let t = c.subrange(1, c.len() as int);
        lemma_eval_zero_padding(t, z, x);
        assert((c + z).subrange(1, (c + z).len() as int) =~= t + z);
    }
}

/// Relies on rand's `OsRng` with `Rng::gen_range`: a value drawn uniformly from
/// `[0, bound)` by the operating system's secure generator.
#[verifier::external_body]
fn random_below(bound: i64) -> (r: i64)
    requires
        bound > 0,
    ensures
        0 <= r < bound,
{
    rand::rngs::OsRng.gen_range(0..bound)
}

/// The sizes admit a configuration: at least one secret, `secret_count +
/// threshold + 1` a power of two, `share_count + 1` a power of three, at least
/// that many shares, and a field size of at least `share_count + secret_count + 1`.
pub open spec fn sizes_admissible(threshold: int, secret_count: int, share_count: int, min_size: int) -> bool {
    let r = secret_count + threshold + 1;
    let m = share_count + 1;
    &&& secret_count >= 1
    &&& r <= usize::MAX
    &&& m <= usize::MAX
    &&& is_pow2(r as nat)
    &&& is_pow3(m as nat)
    &&& share_count >= r
    &&& min_size >= share_count + secret_count + 1
    &&& r * m <= usize::MAX
}

/// The configuration with the given sizes and field parameters.
pub open spec fn configuration(
    threshold: usize,
    secret_count: usize,
    share_count: usize,
    prime: i64,
    omega_secrets: i64,
    omega_shares: i64,
) -> PackedSecretSharing {
    PackedSecretSharing { threshold, share_count, secret_count, prime, omega_secrets, omega_shares }
}

impl PackedSecretSharing {
    /// The configuration invariants.
    pub open spec fn wf(&self) -> bool {
        let r = self.secret_count + self.threshold + 1;
        &&& self.secret_count >= 1
        &&& r <= usize::MAX
        &&& self.share_count + 1 <= usize::MAX
        &&& self.share_count >= r
        &&& is_pow2(r as nat)
        &&& is_pow3((self.share_count + 1) as nat)
        &&& valid_modulus(self.prime as int)
        &&& is_prime(self.prime as int)
        &&& r < self.prime
        &&& invertible(r, self.prime as int)
        &&& reduced(self.omega_secrets as int, self.prime as int)
        &&& reduced(self.omega_shares as int, self.prime as int)
        &&& is_root_of_unity(self.omega_secrets as int, r as nat, self.prime as int)
        &&& is_root_of_unity(self.omega_shares as int, (self.share_count + 1) as nat, self.prime as int)
        // primitive: for orders 2^a and 3^b, no power at the largest proper divisor is one
        &&& pow(self.omega_secrets as int, (r / 2) as nat) % (self.prime as int) != 1
        &&& pow(self.omega_shares as int, ((self.share_count + 1) / 3) as nat) % (self.prime as int) != 1
    }

    /// `secret_count + threshold + 1`.
    pub open spec fn limit(&self) -> int {
        self.secret_count + self.threshold + 1
    }

    /// The coefficients of the secret-bearing polynomial for the given values.
    pub open spec fn polynomial_of(&self, values: Seq<i64>) -> Seq<i64> {
        interpolated_coefficients(values, self.omega_secrets as int, self.prime as int)
    }

    /// The shares of the polynomial interpolating `values` on the secret domain:
    /// its values at `omega_shares^1, ..., omega_shares^share_count`.
    pub open spec fn shares_of(&self, values: Seq<i64>) -> Seq<i64> {
        Seq::new(
            self.share_count as nat,
            |i: int|
                (eval(self.polynomial_of(values), pow(self.omega_shares as int, (i + 1) as nat))
                    % (self.prime as int)) as i64,
        )
    }

    /// The secrets read back from shares `shares` of ranks `indices`: the Newton
    /// interpolation of the shares evaluated at `omega_secrets^1 .. ^secret_count`.
    pub open spec fn reconstructed(&self, indices: Seq<usize>, shares: Seq<i64>) -> Seq<i64> {
        let p = self.prime as int;
        let xs = share_points_of(self.omega_shares as int, p, indices);
        let cs = newton_coefficients(xs, shares, p);
        Seq::new(
            self.secret_count as nat,
            |e: int| (newton_value(xs, cs, pow(self.omega_secrets as int, (e + 1) as nat) % p) % p) as i64,
        )
    }

    /// Tests the configuration invariants.
    pub fn is_valid(&self) -> (r: bool)
        ensures
            r == self.wf(),
    {
        if self.secret_count < 1 || self.threshold >= usize::MAX - self.secret_count {
            return false;
        }
        let r = self.secret_count + self.threshold + 1;
        if self.share_count >= usize::MAX || self.share_count < r {
            return false;
        }
        if !check_pow2(r) || !check_pow3(self.share_count + 1) {
            return false;
        }
        let p = self.prime;
        if p <= 1 || (r as i128) >= (p as i128) || !check_prime(p) {
            return false;
        }
        if mod_inverse(r as i64, p).is_none() {
            proof {
                if invertible(r as int, p as int) {
                    let y = choose|y: int| is_inverse(r as int, y, p as int);
                    assert(is_inverse(r as int, y, p as int));
                }
            }
            return false;
        }
        if self.omega_secrets < 0 || self.omega_secrets >= p || self.omega_shares < 0
            || self.omega_shares >= p {
            return false;
        }
        let m = self.share_count + 1;
        mod_pow(self.omega_secrets, r as u64, p) == 1
            && mod_pow(self.omega_shares, m as u64, p) == 1
            && mod_pow(self.omega_secrets, (r / 2) as u64, p) != 1
            && mod_pow(self.omega_shares, (m / 3) as u64, p) != 1
    }

    /// Minimum number of shares required to reconstruct the secrets:
    /// `secret_count + threshold + 1`.
    pub fn reconstruct_limit(&self) -> (r: usize)
        requires
            self.secret_count + self.threshold + 1 <= usize::MAX,
        ensures
            r == self.limit(),
    {
        self.secret_count + self.threshold + 1
    }

    /// Interpolates the values `[0] ++ secrets ++ randomness`, placed on the powers of
    /// `omega_secrets`, into polynomial coefficients.
    pub fn recover_polynomial(&self, secrets: &[i64], randomness: Vec<i64>) -> (r: Vec<i64>)
        requires
            self.wf(),
            secrets.len() + randomness.len() + 1 == self.limit(),
            all_reduced(secrets@, self.prime as int),
            all_reduced(randomness@, self.prime as int),
        ensures
            r@ == self.polynomial_of(point_values(secrets@, randomness@)),
            all_reduced(r@, self.prime as int),
    {
        let p = self.prime;
        let mut values: Vec<i64> = vec![0];
        let mut i: usize = 0;
        while i < secrets.len()
            invariant
                i <= secrets.len(),
                values@ == seq![0i64] + secrets@.subrange(0, i as int),
            decreases secrets.len() - i,
        {
            values.push(secrets[i]);
            i = i + 1;
            proof {
                assert(secrets@.subrange(0, i as int) =~= secrets@.subrange(0, i - 1) + seq![secrets[i - 1]]);
            }
        }
        let mut i: usize = 0;
        while i < randomness.len()
            invariant
                i <= randomness.len(),
                secrets@.subrange(0, secrets.len() as int) == secrets@,
                values@ == seq![0i64] + secrets@ + randomness@.subrange(0, i as int),
            decreases randomness.len() - i,
        {
            values.push(randomness[i]);
            i = i + 1;
            proof {
                assert(randomness@.subrange(0, i as int) =~= randomness@.subrange(0, i - 1) + seq![randomness[i - 1]]);
            }
        }
        proof {
            assert(secrets@.subrange(0, secrets.len() as int) =~= secrets@);
            assert(randomness@.subrange(0, randomness.len() as int) =~= randomness@);
            assert(values@ =~= point_values(secrets@, randomness@));
            lemma_small_mod(0, p as nat);
        }
        let coefficients = transform2_inverse(&values, self.omega_secrets, p);
        proof {
            let n = values.len() as int;
            assert forall|i: int| 0 <= i < coefficients.len() implies coefficients[i]
                == #[trigger] self.polynomial_of(values@)[i] by {
                lemma_solve_scaled(n, coefficients[i] as int,
                    eval(values@, pow(self.omega_secrets as int, ((n - 1) * i) as nat)), p as int);
            }
            assert(coefficients@ =~= self.polynomial_of(values@));
        }
        coefficients
    }

    /// Evaluates the polynomial with `share_count + 1` coefficients at the powers
    /// of `omega_shares`.
    pub fn evaluate_polynomial(&self, coefficients: Vec<i64>) -> (r: Vec<i64>)
        requires
            self.wf(),
            coefficients.len() == self.share_count + 1,
            all_reduced(coefficients@, self.prime as int),
        ensures
            r.len() == coefficients.len(),
            all_reduced(r@, self.prime as int),
            forall|i: int| 0 <= i < r.len() ==> #[trigger] r[i] as int
                == eval(coefficients@, pow(self.omega_shares as int, i as nat)) % (self.prime as int),
    {
        transform3(&coefficients, self.omega_shares, self.prime)
    }

    /// Computes the shares of `secrets`, with `randomness` as the random
    /// values of the polynomial.
    pub fn share_with_randomness(&self, secrets: &[i64], randomness: Vec<i64>) -> (r: Vec<i64>)
        requires
            self.wf(),
            secrets.len() == self.secret_count,
            randomness.len() == self.threshold,
            all_reduced(secrets@, self.prime as int),
            all_reduced(randomness@, self.prime as int),
        ensures
            r@ == self.shares_of(point_values(secrets@, randomness@)),
            r.len() == self.share_count,
            all_reduced(r@, self.prime as int),
    {
        let ghost values = point_values(secrets@, randomness@);
        let mut poly = self.recover_polynomial(secrets, randomness);
        let ghost coefficients = poly@;
        let limit = self.reconstruct_limit();
        proof {
            lemma_small_mod(0, self.prime as nat);
        }
        while poly.len() < self.share_count + 1
            invariant
                self.wf(),
                poly.len() <= self.share_count + 1,
                poly.len() >= coefficients.len(),
                poly@.subrange(0, coefficients.len() as int) == coefficients,
                forall|i: int| coefficients.len() <= i < poly.len() ==> poly[i] == 0,
                all_reduced(poly@, self.prime as int),
            decreases self.share_count + 1 - poly.len(),
        {
            poly.push(0);
            proof {
                assert(poly@.subrange(0, coefficients.len() as int) =~= coefficients);
            }
        }
        let ghost padded = poly@;
        let points = self.evaluate_polynomial(poly);
        let mut shares: Vec<i64> = Vec::new();
        let mut i: usize = 1;
        while i < points.len()
            invariant
                1 <= i <= points.len(),
                points.len() == self.share_count + 1,
                shares.len() == i - 1,
                forall|q: int| 0 <= q < shares.len() ==> #[trigger] shares[q] == points[q + 1],
            decreases points.len() - i,
        {
            shares.push(points[i]);
            i = i + 1;
        }
        proof {
            let zs = padded.subrange(coefficients.len() as int, padded.len() as int);
            assert(padded =~= coefficients + zs);
            assert forall|q: int| 0 <= q < shares.len() implies shares[q]
                == #[trigger] self.shares_of(values)[q] by {
                lemma_eval_zero_padding(coefficients, zs, pow(self.omega_shares as int, (q + 1) as nat));
            }
            assert(shares@ =~= self.shares_of(values));
        }
        shares
    }

    /// Computes shares for the vector of secrets, with `threshold` fresh random
    /// field elements.
    pub fn share(&self, secrets: &[i64]) -> (r: Vec<i64>)
        requires
            self.wf(),
            secrets.len() == self.secret_count,
            all_reduced(secrets@, self.prime as int),
        ensures
            r.len() == self.share_count,
            all_reduced(r@, self.prime as int),
            exists|randomness: Seq<i64>|
                randomness.len() == self.threshold
                && all_reduced(randomness, self.prime as int)
                && r@ == #[trigger] self.shares_of(point_values(secrets@, randomness)),
    {
        let mut randomness: Vec<i64> = Vec::new();
        let mut i: usize = 0;
        while i < self.threshold
            invariant
                self.wf(),
                i <= self.threshold,
                randomness.len() == i,
                all_reduced(randomness@, self.prime as int),
            decreases self.threshold - i,
        {
            randomness.push(random_below(self.prime));
            i = i + 1;
        }
        let ghost rs = randomness@;
        let r = self.share_with_randomness(secrets, randomness);
        proof {
            assert(rs.len() == self.threshold && all_reduced(rs, self.prime as int)
                && r@ == self.shares_of(point_values(secrets@, rs)));
        }
        r
    }

    /// Reconstructs the secrets from the shares `shares` of ranks `indices`.
    ///
    /// Returns `None` when the two slices differ in length, when fewer than
    /// `reconstruct_limit()` shares are given, when a rank is not below
    /// `share_count`, or when two ranks give inseparable points (a repeated rank).
    pub fn reconstruct(&self, indices: &[usize], shares: &[i64]) -> (r: Option<Vec<i64>>)
        requires
            self.wf(),
            all_reduced(shares@, self.prime as int),
        ensures
            r is Some <==> {
                &&& indices.len() == shares.len()
                &&& shares.len() >= self.limit()
                &&& forall|i: int| 0 <= i < indices.len() ==> #[trigger] indices[i] < self.share_count
                &&& separable(
                    share_points_of(self.omega_shares as int, self.prime as int, indices@),
                    self.prime as int,
                )
            },
            r matches Some(v) ==> v@ == self.reconstructed(indices@, shares@),
    {
        let p = self.prime;
        if indices.len() != shares.len() || shares.len() < self.reconstruct_limit() {
            return None;
        }
        let mut points: Vec<i64> = Vec::new();
        let mut i: usize = 0;
        while i < indices.len()
            invariant
                self.wf(),
                p == self.prime,
                i <= indices.len(),
                points.len() == i,
                forall|q: int| 0 <= q < i ==> #[trigger] indices[q] < self.share_count,
                forall|q: int| 0 <= q < i ==> #[trigger] points[q]
                    == share_points_of(self.omega_shares as int, p as int, indices@)[q],
                all_reduced(points@, p as int),
            decreases indices.len() - i,
        {
            if indices[i] >= self.share_count {
                return None;
            }
            points.push(mod_pow(self.omega_shares, (indices[i] + 1) as u64, p));
            i = i + 1;
        }
        proof {
            assert(points@ =~= share_points_of(self.omega_shares as int, p as int, indices@));
        }
        let mut shares_vec: Vec<i64> = Vec::new();
        let mut i: usize = 0;
        while i < shares.len()
            invariant
                i <= shares.len(),
                shares_vec@ == shares@.subrange(0, i as int),
            decreases shares.len() - i,
        {
            shares_vec.push(shares[i]);
            i = i + 1;
            proof {
                assert(shares@.subrange(0, i as int) =~= shares@.subrange(0, i - 1) + seq![shares[i - 1]]);
            }
        }
        proof {
            assert(shares@.subrange(0, shares.len() as int) =~= shares@);
        }
        let poly = match newton_interpolation_general(&points, &shares_vec, p) {
            Some(poly) => poly,
            None => {
                return None;
            },
        };
        let ghost xs = points@;
        let ghost cs = newton_coefficients(xs, shares@, p as int);
        proof {
            assert(poly.coefficients@ =~= cs);
        }
        let mut secrets: Vec<i64> = Vec::new();
        let mut e: usize = 0;
        while e < self.secret_count
            invariant
                self.wf(),
                p == self.prime,
                e <= self.secret_count,
                poly.points@ == xs,
                poly.coefficients@ == cs,
                xs == share_points_of(self.omega_shares as int, p as int, indices@),
                cs == newton_coefficients(xs, shares@, p as int),
                xs.len() == cs.len(),
                all_reduced(xs, p as int),
                all_reduced(cs, p as int),
                secrets.len() == e,
                forall|q: int| 0 <= q < e ==> #[trigger] secrets[q]
                    == self.reconstructed(indices@, shares@)[q],
            decreases self.secret_count - e,
        {
            let x = mod_pow(self.omega_secrets, (e + 1) as u64, p);
            secrets.push(newton_evaluate(&poly, x, p));
            e = e + 1;
        }
        proof {
            assert(secrets@ =~= self.reconstructed(indices@, shares@));
        }
        Some(secrets)
    }

    /// Builds a configuration with generated field parameters, over a prime of at
    /// least `min_size`.
    ///
    /// `None` when the sizes are not admissible. Otherwise the result is the
    /// configuration with the generated parameters whenever those exist and meet
    /// the configuration invariants, and `None` when they do not.
    pub fn new_with_min_size(threshold: usize, secret_count: usize, share_count: usize, min_size: usize)
        -> (r: Option<PackedSecretSharing>)
        ensures
            !sizes_admissible(threshold as int, secret_count as int, share_count as int, min_size as int)
                ==> r is None,
            r matches Some(c) ==> {
                &&& c.wf()
                &&& c.threshold == threshold
                &&& c.secret_count == secret_count
                &&& c.share_count == share_count
                &&& is_generated(min_size as int, c.limit(), share_count + 1, c.prime as int,
                    c.omega_secrets as int, c.omega_shares as int)
            },
            forall|p: int, ws: int, wh: int|
                sizes_admissible(threshold as int, secret_count as int, share_count as int, min_size as int)
                && #[trigger] is_generated(min_size as int, secret_count + threshold + 1, share_count + 1, p, ws, wh)
                && p <= i64::MAX && p <= usize::MAX
                && configuration(threshold, secret_count, share_count, p as i64, ws as i64, wh as i64).wf()
                ==> r == Some(configuration(threshold, secret_count, share_count, p as i64, ws as i64, wh as i64)),
    {
        if secret_count < 1 || threshold >= usize::MAX - secret_count || share_count >= usize::MAX {
            return None;
        }
        let n = threshold + secret_count + 1;
        let m = share_count + 1;
        if !check_pow2(n) || !check_pow3(m) || share_count < n {
            return None;
        }
        if secret_count >= usize::MAX - share_count || min_size < share_count + secret_count + 1 {
            return None;
        }
        if n > usize::MAX / m {
            proof {
                vstd::arithmetic::div_mod::lemma_fundamental_div_mod(usize::MAX as int, m as int);
                assert(n * m > usize::MAX) by (nonlinear_arith)
                    requires n > usize::MAX / m, m >= 1,
                        usize::MAX == m * (usize::MAX / m) + usize::MAX % m, usize::MAX % m < m;
            }
            return None;
        }
        proof {
            assert(n * m <= usize::MAX) by (nonlinear_arith)
                requires n <= usize::MAX / m, m >= 1;
            assert(n * m >= 1) by (nonlinear_arith)
                requires n >= 1, m >= 1;
        }
        let (prime, omega_secrets, omega_shares) = match generate_parameters(min_size, n, m) {
            Some(params) => params,
            None => {
                return None;
            },
        };
        let pss = PackedSecretSharing {
            threshold: threshold,
            share_count: share_count,
            secret_count: secret_count,
            prime: prime,
            omega_secrets: omega_secrets,
            omega_shares: omega_shares,
        };
        if pss.is_valid() {
            Some(pss)
        } else {
            None
        }
    }

    /// Builds a configuration with generated field parameters, over a prime of at
    /// least `share_count + secret_count + threshold + 1`.
    pub fn new(threshold: usize, secret_count: usize, share_count: usize) -> (r: Option<PackedSecretSharing>)
        ensures
            share_count + secret_count + threshold + 1 > usize::MAX ==> r is None,
            !sizes_admissible(threshold as int, secret_count as int, share_count as int,
                share_count + secret_count + threshold + 1) ==> r is None,
            r matches Some(c) ==> {
                &&& c.wf()
                &&& c.threshold == threshold
                &&& c.secret_count == secret_count
                &&& c.share_count == share_count
                &&& is_generated(share_count + secret_count + threshold + 1, c.limit(), share_count + 1,
                    c.prime as int, c.omega_secrets as int, c.omega_shares as int)
            },
            forall|p: int, ws: int, wh: int|
                sizes_admissible(threshold as int, secret_count as int, share_count as int, share_count + secret_count + threshold + 1)
                && #[trigger] is_generated(share_count + secret_count + threshold + 1, secret_count + threshold + 1, share_count + 1, p, ws, wh)
                && p <= i64::MAX && p <= usize::MAX
                && configuration(threshold, secret_count, share_count, p as i64, ws as i64, wh as i64).wf()
                ==> r == Some(configuration(threshold, secret_count, share_count, p as i64, ws as i64, wh as i64)),
    {
        if secret_count >= usize::MAX - share_count || threshold >= usize::MAX - share_count - secret_count {
            return None;
        }
        let min_size = share_count + secret_count + threshold + 1;
        Self::new_with_min_size(threshold, secret_count, share_count, min_size)
    }
}

/// Sharing is additive: the shares of the elementwise sums (modulo the prime)
/// of two secret vectors, with the elementwise sums of their randomness, are the
/// elementwise sums of the two share vectors.
pub proof fn lemma_share_additive(
    pss: PackedSecretSharing,
    secrets_a: Seq<i64>,
    randomness_a: Seq<i64>,
    secrets_b: Seq<i64>,
    randomness_b: Seq<i64>,
)
    requires
        pss.wf(),
        secrets_a.len() == pss.secret_count,
        secrets_b.len() == pss.secret_count,
        randomness_a.len() == pss.threshold,
        randomness_b.len() == pss.threshold,
        all_reduced(secrets_a, pss.prime as int),
        all_reduced(secrets_b, pss.prime as int),
        all_reduced(randomness_a, pss.prime as int),
        all_reduced(randomness_b, pss.prime as int),
    ensures
        pss.shares_of(point_values(
            add_values(secrets_a, secrets_b, pss.prime as int),
            add_values(randomness_a, randomness_b, pss.prime as int),
        )) == add_values(
            pss.shares_of(point_values(secrets_a, randomness_a)),
            pss.shares_of(point_values(secrets_b, randomness_b)),
            pss.prime as int,
        ),
{
    let p = pss.prime as int;
    let va = point_values(secrets_a, randomness_a);
    let vb = point_values(secrets_b, randomness_b);
    let vs = point_values(add_values(secrets_a, secrets_b, p), add_values(randomness_a, randomness_b, p));
    lemma_small_mod(0, p as nat);
    assert(vs =~= add_values(va, vb, p));
    let pa = pss.polynomial_of(va);
    let pb = pss.polynomial_of(vb);
    let ps = pss.polynomial_of(vs);
    let n = va.len();
    let w = pss.omega_secrets as int;
    let iv = inverse_of(n as int, p);
    assert forall|i: int| 0 <= i < n implies #[trigger] ps[i] == ((pa[i] + pb[i]) % p) as i64 by {
        let x = pow(w, ((n - 1) * i) as nat);
        lemma_eval_add(va, vb, x, p);
        let ea = eval(va, x);
        let eb = eval(vb, x);
        let es = eval(vs, x);
        lemma_congruent_mul(iv, iv, es, ea + eb, p);
        assert(iv * (ea + eb) == iv * ea + iv * eb) by (nonlinear_arith);
        lemma_add_mod_noop(iv * ea, iv * eb, p);
        lemma_mod_twice(iv * es, p);
    }
    assert(ps =~= add_values(pa, pb, p));
    let sa = pss.shares_of(va);
    let sb = pss.shares_of(vb);
    let ss = pss.shares_of(vs);
    assert forall|i: int| 0 <= i < ss.len() implies #[trigger] ss[i] == ((sa[i] + sb[i]) % p) as i64 by {
        let y = pow(pss.omega_shares as int, (i + 1) as nat);
        lemma_eval_add(pa, pb, y, p);
        lemma_add_mod_noop(eval(pa, y), eval(pb, y), p);
    }
    assert(ss =~= add_values(sa, sb, p));
}

} // verus!
