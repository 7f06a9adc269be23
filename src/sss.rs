//! Shamir's secret sharing over the field modulo the Mersenne prime 2^521 - 1.
use crate::field::{evaluate_polynomial, interpolate_at_zero, poly_value, reconstruction};
use crate::uint::{opt_value, values, Uint};
use vstd::arithmetic::power::{lemma_pow_strictly_increases, pow};
use vstd::prelude::*;

verus! {

/// The field modulus, 2^521 - 1.
pub open spec fn mersenne_prime() -> int {
    pow(2, 521) - 1
}

/// One point of the sharing polynomial.
#[derive(Debug, Clone)]
pub struct Share {
    pub x: Uint,
    pub y: Uint,
}

/// The evaluation points of a sequence of shares.
pub open spec fn xs_of(s: Seq<Share>) -> Seq<int> {
    s.map_values(|sh: Share| sh.x@ as int)
}

/// The values of a sequence of shares.
pub open spec fn ys_of(s: Seq<Share>) -> Seq<int> {
    s.map_values(|sh: Share| sh.y@ as int)
}

/// Whether `c` is a sharing polynomial of `secret` for threshold `t` modulo
/// `m`: `t` coefficients, `secret` first, the others field elements.
pub open spec fn is_sharing_polynomial(c: Seq<int>, secret: int, t: nat, m: int) -> bool {
    &&& c.len() == t
    &&& c[0] == secret
    &&& forall|k: int| 0 < k < t ==> 0 <= #[trigger] c[k] < m
}

/// Whether `s` holds the `n` points `(i, c(i) mod m)` for `i = 1 ..= n`, in order.
pub open spec fn shares_on(s: Seq<Share>, c: Seq<int>, m: int, n: nat) -> bool {
    &&& s.len() == n
    &&& forall|i: int|
        0 <= i < n ==> #[trigger] s[i].x@ == i + 1 && s[i].y@ == poly_value(c, i + 1) % m
}

/// Holds the field modulus, the threshold and the number of shares.
pub struct SecretSharer {
    prime: Uint,
    threshold: usize,
    total_shares: usize,
}

impl SecretSharer {
    /// The field modulus.
    pub closed spec fn modulus(&self) -> int {
        self.prime@ as int
    }

    /// The number of shares that reconstruct the secret.
    pub closed spec fn threshold(&self) -> nat {
        self.threshold as nat
    }

    /// The number of shares produced by a split.
    pub closed spec fn total_shares(&self) -> nat {
        self.total_shares as nat
    }

    /// The modulus is the Mersenne prime and the threshold positive.
    pub closed spec fn wf(&self) -> bool {
        &&& self.prime@ == mersenne_prime()
        &&& self.prime@ >= 2
        &&& self.threshold >= 1
    }

    /// A sharer for `threshold` out of `total_shares`. A threshold above the
    /// number of shares is accepted, and such shares never reconstruct.
    pub fn new(threshold: usize, total_shares: usize) -> (r: SecretSharer)
        requires
            threshold >= 1,
        ensures
            r.wf(),
            r.modulus() == mersenne_prime(),
            r.threshold() == threshold,
            r.total_shares() == total_shares,
    {
        let two = Uint::from_u64(2);
        let one = Uint::from_u64(1);
        let power = two.pow_u32(521);
        proof {
            lemma_pow_strictly_increases(2, 2, 521);
            reveal_with_fuel(pow, 3);
        }
        let prime = power.minus(&one);
        SecretSharer { prime, threshold, total_shares }
    }

    /// The shares of the polynomial with the given coefficients (lowest
    /// power first) at `x = 1 ..= total_shares`.
    pub fn shares_from_polynomial(&self, coefficients: &Vec<Uint>) -> (r: Vec<Share>)
        requires
            self.wf(),
        ensures
            shares_on(r@, values(coefficients@), self.modulus(), self.total_shares()),
    {
        let mut shares: Vec<Share> = Vec::new();
        let mut i: usize = 0;
        while i < self.total_shares
            invariant
                self.wf(),
                i <= self.total_shares,
                shares_on(shares@, values(coefficients@), self.modulus(), i as nat),
            decreases self.total_shares - i,
        {
            let x = Uint::from_u64((i + 1) as u64);
            let y = evaluate_polynomial(coefficients, &x, &self.prime);
            shares.push(Share { x, y });
            i = i + 1;
        }
        shares
    }

    /// Splits `secret` into `total_shares` shares: the points `x = 1 ..= n`
    /// of a polynomial with `threshold` coefficients, the secret reduced
    /// modulo the prime first and the rest drawn at random.
    pub fn split_secret(&self, secret: &Uint) -> (r: Vec<Share>)
        requires
            self.wf(),
        ensures
            exists|c: Seq<int>|
                #[trigger] is_sharing_polynomial(
                    c,
                    (secret@ as int) % self.modulus(),
                    self.threshold(),
                    self.modulus(),
                ) && shares_on(r@, c, self.modulus(), self.total_shares()),
            forall|i: int, j: int|
                0 <= i < j < r.len() ==> r[i].x@ != r[j].x@ && r[i].x@ != 0 && r[j].x@ != 0,
    {
        let mut coefficients: Vec<Uint> = Vec::new();
        coefficients.push(secret.modulo(&self.prime));
        let mut k: usize = 1;
        while k < self.threshold
            invariant
                self.wf(),
                1 <= k <= self.threshold,
                coefficients.len() == k,
                coefficients@[0]@ as int == (secret@ as int) % self.modulus(),
                forall|j: int| 0 < j < k ==> #[trigger] coefficients@[j]@ < self.modulus(),
            decreases self.threshold - k,
        {
            coefficients.push(Uint::random_below(&self.prime));
            k = k + 1;
        }
        let shares = self.shares_from_polynomial(&coefficients);
        proof {
            let c = values(coefficients@);
            assert(is_sharing_polynomial(
                c,
                (secret@ as int) % self.modulus(),
                self.threshold(),
                self.modulus(),
            ));
        }
        shares
    }

    /// Recovers the secret from the first `threshold` shares by Lagrange
    /// interpolation at zero; absent with fewer shares, or where one of the
    /// shares used has `x` zero or two of them have the same `x`, both modulo
    /// the prime.
    pub fn reconstruct_secret(&self, shares: &[Share]) -> (r: Option<Uint>)
        requires
            self.wf(),
        ensures
            opt_value(r) == reconstruction(
                xs_of(shares@),
                ys_of(shares@),
                self.threshold(),
                self.modulus(),
            ),
    {
        if shares.len() < self.threshold {
            return None;
        }
        let mut xs: Vec<Uint> = Vec::new();
        let mut ys: Vec<Uint> = Vec::new();
        let mut i: usize = 0;
        while i < self.threshold
            invariant
                self.wf(),
                self.threshold <= shares.len(),
                i <= self.threshold,
                values(xs@) == xs_of(shares@).take(i as int),
                values(ys@) == ys_of(shares@).take(i as int),
            decreases self.threshold - i,
        {
            let ghost old_xs = xs@;
            let ghost old_ys = ys@;
            let x = shares[i].x.copy();
            let y = shares[i].y.copy();
            xs.push(x);
            ys.push(y);
            proof {
                assert(values(xs@) =~= values(old_xs).push(x@ as int));
                assert(values(ys@) =~= values(old_ys).push(y@ as int));
                assert(xs_of(shares@).take(i + 1) =~= xs_of(shares@).take(i as int).push(x@ as int));
                assert(ys_of(shares@).take(i + 1) =~= ys_of(shares@).take(i as int).push(y@ as int));
            }
            i = i + 1;
        }
        interpolate_at_zero(&xs, &ys, &self.prime)
    }
}

} // verus!
