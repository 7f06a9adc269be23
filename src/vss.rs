//! Feldman's verifiable secret sharing: Shamir's scheme modulo the prime `q`,
//! with each coefficient committed to as `g^c mod p`, where `g` generates a
//! subgroup of order `q` modulo the prime `p`.
use crate::field::{
    evaluate_polynomial, interpolate_at_zero, lemma_add_scaled_mod, poly_value, reconstruction,
};
use crate::uint::{opt_value, values, Uint};
use vstd::arithmetic::div_mod::{
    lemma_fundamental_div_mod, lemma_mod_bound, lemma_mul_mod_noop, lemma_mul_mod_noop_left,
    lemma_mul_mod_noop_right, lemma_small_mod,
};
use vstd::arithmetic::power::{
    lemma1_pow, lemma_pow_adds, lemma_pow_mod_noop, lemma_pow_multiplies, pow,
};
use vstd::prelude::*;

verus! {

/// One point of the sharing polynomial.
#[derive(Clone, Debug)]
pub struct Share {
    pub id: Uint,
    pub value: Uint,
}

/// The commitments `g^c mod p` to the coefficients `c`, lowest power first.
#[derive(Clone, Debug)]
pub struct Commitment(pub Vec<Uint>);

/// The evaluation points of a sequence of shares.
pub open spec fn ids_of(s: Seq<Share>) -> Seq<int> {
    s.map_values(|sh: Share| sh.id@ as int)
}

/// The values of a sequence of shares.
pub open spec fn values_of(s: Seq<Share>) -> Seq<int> {
    s.map_values(|sh: Share| sh.value@ as int)
}

/// Whether `c` is a sharing polynomial of `secret` for threshold `t` modulo
/// `q`: `t` coefficients, `secret` first, all of them field elements.
pub open spec fn is_sharing_polynomial(c: Seq<int>, secret: int, t: nat, q: int) -> bool {
    &&& c.len() == t
    &&& c[0] == secret
    &&& forall|k: int| 0 <= k < t ==> 0 <= #[trigger] c[k] < q
}

/// Whether `s` holds the `n` points `(i, c(i) mod q)` for `i = 1 ..= n`, in order.
pub open spec fn shares_on(s: Seq<Share>, c: Seq<int>, q: int, n: nat) -> bool {
    &&& s.len() == n
    &&& forall|i: int|
        0 <= i < n ==> #[trigger] s[i].id@ == i + 1 && s[i].value@ == poly_value(c, i + 1) % q
}

/// Whether `cs` holds `g^c[k] mod p` for each coefficient `c[k]`.
pub open spec fn commits_to(cs: Seq<int>, c: Seq<int>, g: int, p: int) -> bool {
    &&& cs.len() == c.len()
    &&& forall|k: int| 0 <= k < c.len() ==> #[trigger] cs[k] == pow(g, c[k] as nat) % p
}

/// The product of `cs[k] ^ (x^k mod q)` over `k < n`.
pub open spec fn commitment_product(cs: Seq<int>, x: int, q: int, n: nat) -> int
    decreases n,
{
    if n == 0 {
        1
    } else {
        commitment_product(cs, x, q, (n - 1) as nat) * pow(
            cs[n - 1],
            (pow(x, (n - 1) as nat) % q) as nat,
        )
    }
}

/// Whether a share with point `id` and value `value` is consistent with the
/// commitments `cs`: `g^value` equals the product of `cs[k] ^ (id^k mod q)`,
/// both modulo `p`.
pub open spec fn share_consistent(cs: Seq<int>, id: int, value: int, g: int, p: int, q: int) -> bool {
    commitment_product(cs, id, q, cs.len()) % p == pow(g, value as nat) % p
}

/// The exponent that the commitment product raises `g` to:
/// the sum of `c[k]·(x^k mod q)` over `k < n`.
pub open spec fn exponent_sum(c: Seq<int>, x: int, q: int, n: nat) -> int
    decreases n,
{
    if n == 0 {
        0
    } else {
        exponent_sum(c, x, q, (n - 1) as nat) + c[n - 1] * (pow(x, (n - 1) as nat) % q)
    }
}

proof fn lemma_exponent_sum_nonnegative(c: Seq<int>, x: int, q: int, n: nat)
    requires
        q > 0,
        n <= c.len(),
        forall|k: int| 0 <= k < c.len() ==> 0 <= #[trigger] c[k],
    ensures
        exponent_sum(c, x, q, n) >= 0,
    decreases n,
{
    if n > 0 {
        lemma_exponent_sum_nonnegative(c, x, q, (n - 1) as nat);
        lemma_mod_bound(pow(x, (n - 1) as nat), q);
        assert(c[n - 1] * (pow(x, (n - 1) as nat) % q) >= 0) by (nonlinear_arith)
            requires
                c[n - 1] >= 0,
                pow(x, (n - 1) as nat) % q >= 0,
        ;
    }
}

proof fn lemma_exponent_sum_congruent(c: Seq<int>, x: int, q: int, n: nat)
    requires
        q > 0,
        n <= c.len(),
    ensures
        exponent_sum(c, x, q, n) % q == poly_value(c.take(n as int), x) % q,
    decreases n,
{
    if n > 0 {
        let k = (n - 1) as nat;
        lemma_exponent_sum_congruent(c, x, q, k);
        let prefix = c.take(n as int);
        assert(prefix.drop_last() =~= c.take(k as int));
        let s = exponent_sum(c, x, q, k);
        let v = poly_value(c.take(k as int), x);
        let xp = pow(x, k);
        lemma_add_scaled_mod(s, c[k as int], xp % q, q);
        lemma_add_scaled_mod(v, c[k as int], xp, q);
        lemma_mod_bound(xp, q);
        lemma_small_mod((xp % q) as nat, q as nat);
    } else {
        assert(c.take(0).len() == 0);
    }
}

proof fn lemma_commitment_product(cs: Seq<int>, c: Seq<int>, x: int, g: int, p: int, q: int, n: nat)
    requires
        p > 0,
        q > 0,
        n <= c.len(),
        forall|k: int| 0 <= k < c.len() ==> 0 <= #[trigger] c[k],
        commits_to(cs, c, g, p),
    ensures
        exponent_sum(c, x, q, n) >= 0,
        commitment_product(cs, x, q, n) % p == pow(g, exponent_sum(c, x, q, n) as nat) % p,
    decreases n,
{
    lemma_exponent_sum_nonnegative(c, x, q, n);
    if n == 0 {
        reveal_with_fuel(pow, 1);
    } else {
        let k = (n - 1) as nat;
        lemma_commitment_product(cs, c, x, g, p, q, k);
        let before = commitment_product(cs, x, q, k);
        let s = exponent_sum(c, x, q, k) as nat;
        lemma_mod_bound(pow(x, k), q);
        let e = (pow(x, k) % q) as nat;
        let ck = c[k as int] as nat;
        // cs[k]^e == (g^ck mod p)^e, which is g^(ck·e) modulo p
        lemma_pow_mod_noop(pow(g, ck), e, p);
        lemma_pow_multiplies(g, ck, e);
        let term = pow(cs[k as int], e);
        lemma_mul_mod_noop(before, term, p);
        lemma_mul_mod_noop(pow(g, s), pow(g, ck * e), p);
        lemma_pow_adds(g, s, ck * e);
        assert(exponent_sum(c, x, q, n) == s + ck * e);
    }
}

proof fn lemma_pow_reduce_exponent(g: int, e: nat, p: int, q: int)
    requires
        p >= 2,
        q > 0,
        pow(g, q as nat) % p == 1,
    ensures
        pow(g, e) % p == pow(g, (e % (q as nat)) as nat) % p,
{
    let qn = q as nat;
    let d = e / qn;
    let r = e % qn;
    lemma_fundamental_div_mod(e as int, q);
    assert(e == qn * d + r);
    lemma_pow_adds(g, qn * d, r);
    lemma_pow_multiplies(g, qn, d);
    lemma_pow_mod_noop(pow(g, qn), d, p);
    lemma1_pow(d);
    lemma_small_mod(1, p as nat);
    lemma_mul_mod_noop_left(pow(pow(g, qn), d), pow(g, r), p);
}

/// An honestly dealt share verifies: where `g^q = 1 (mod p)` and the
/// commitments are `g^c[k] mod p` for a polynomial `c` with non-negative
/// coefficients, the share `(x, c(x) mod q)` is consistent with them for
/// every point `x`.
pub proof fn lemma_honest_share_verifies(cs: Seq<int>, c: Seq<int>, x: int, g: int, p: int, q: int)
    requires
        p >= 2,
        q >= 2,
        forall|k: int| 0 <= k < c.len() ==> 0 <= #[trigger] c[k],
        commits_to(cs, c, g, p),
        pow(g, q as nat) % p == 1,
    ensures
        share_consistent(cs, x, poly_value(c, x) % q, g, p, q),
{
    let n = c.len();
    lemma_commitment_product(cs, c, x, g, p, q, n);
    lemma_exponent_sum_congruent(c, x, q, n);
    assert(c.take(n as int) =~= c);
    let s = exponent_sum(c, x, q, n) as nat;
    lemma_pow_reduce_exponent(g, s, p, q);
}

/// A share's value is bound by the commitments: where `g` has order exactly
/// `q` modulo `p`, a share at point `x` whose value is a field element other
/// than the honest `c(x) mod q` is not consistent with the commitments to `c`.
pub proof fn lemma_altered_value_rejected(
    cs: Seq<int>,
    c: Seq<int>,
    x: int,
    w: int,
    g: int,
    p: int,
    q: int,
)
    requires
        p >= 2,
        q >= 2,
        forall|k: int| 0 <= k < c.len() ==> 0 <= #[trigger] c[k],
        commits_to(cs, c, g, p),
        pow(g, q as nat) % p == 1,
        forall|e: nat| 0 < e < q ==> #[trigger] pow(g, e) % p != 1,
        0 <= w < q,
        w != poly_value(c, x) % q,
    ensures
        !share_consistent(cs, x, w, g, p, q),
{
    let v = poly_value(c, x) % q;
    lemma_honest_share_verifies(cs, c, x, g, p, q);
    if share_consistent(cs, x, w, g, p, q) {
        let lo = (if v < w { v } else { w }) as nat;
        let hi = (if v < w { w } else { v }) as nat;
        let d = (hi - lo) as nat;
        let qn = q as nat;
        assert(pow(g, hi) % p == pow(g, lo) % p);
        // g^(q+d) = g^q·g^d, which is g^d modulo p
        lemma_pow_adds(g, qn, d);
        lemma_mul_mod_noop_left(pow(g, qn), pow(g, d), p);
        lemma_small_mod(1, p as nat);
        // g^(q+d) = g^(q-lo)·g^hi, which is g^(q-lo)·g^lo = g^q modulo p
        lemma_pow_adds(g, (qn - lo) as nat, hi);
        assert((qn - lo) as nat + hi == qn + d);
        lemma_mul_mod_noop_right(pow(g, (qn - lo) as nat), pow(g, hi), p);
        lemma_mul_mod_noop_right(pow(g, (qn - lo) as nat), pow(g, lo), p);
        lemma_pow_adds(g, (qn - lo) as nat, lo);
        assert((qn - lo) as nat + lo == qn);
        assert(pow(g, d) % p == 1);
        assert(0 < d < q);
    }
}

struct VssParams {
    p: Uint,
    q: Uint,
    g: Uint,
    threshold: usize,
    total_shares: usize,
}

/// Holds the group parameters `p`, `q`, `g`, the threshold and the number of
/// shares.
pub struct FeldmanVSS {
    params: VssParams,
}

impl FeldmanVSS {
    /// The prime modulus of the commitments.
    pub closed spec fn p(&self) -> int {
        self.params.p@ as int
    }

    /// The prime order of `g`, modulus of the shares.
    pub closed spec fn q(&self) -> int {
        self.params.q@ as int
    }

    /// The generator.
    pub closed spec fn g(&self) -> int {
        self.params.g@ as int
    }

    /// The number of shares that reconstruct the secret.
    pub closed spec fn threshold(&self) -> nat {
        self.params.threshold as nat
    }

    /// The number of shares produced by a split.
    pub closed spec fn total_shares(&self) -> nat {
        self.params.total_shares as nat
    }

    /// Both moduli are at least 2, and `1 <= threshold <= total_shares`.
    pub closed spec fn wf(&self) -> bool {
        &&& self.params.p@ >= 2
        &&& self.params.q@ >= 2
        &&& 1 <= self.params.threshold <= self.params.total_shares
    }

    /// A scheme over the primes `p` and `q` with generator `g`, for
    /// `threshold` out of `total_shares`.
    pub fn new(p: Uint, q: Uint, g: Uint, threshold: usize, total_shares: usize) -> (r: FeldmanVSS)
        requires
            p@ >= 2,
            q@ >= 2,
            1 <= threshold <= total_shares,
        ensures
            r.wf(),
            r.p() == p@,
            r.q() == q@,
            r.g() == g@,
            r.threshold() == threshold,
            r.total_shares() == total_shares,
    {
        FeldmanVSS { params: VssParams { p, q, g, threshold, total_shares } }
    }

    /// Splits `secret` into `total_shares` shares and the commitments to a
    /// polynomial with `threshold` coefficients, `secret` first and the rest
    /// drawn at random below `q`. Fails when `secret >= q`.
    pub fn split_secret(&mut self, secret: &Uint) -> (r: Result<(Vec<Share>, Commitment), &'static str>)
        requires
            old(self).wf(),
        ensures
            *final(self) == *old(self),
            r is Err <==> secret@ >= old(self).q(),
            r matches Err(e) ==> e@ == "Secret must be less than q"@,
            r matches Ok((s, cs)) ==> forall|i: int, j: int|
                0 <= i < j < s.len() ==> s[i].id@ != s[j].id@ && s[i].id@ != 0 && s[j].id@ != 0,
            r matches Ok((s, cs)) ==> exists|c: Seq<int>|
                #[trigger] is_sharing_polynomial(c, secret@ as int, old(self).threshold(), old(self).q())
                    && shares_on(s@, c, old(self).q(), old(self).total_shares())
                    && commits_to(values(cs.0@), c, old(self).g(), old(self).p()),
    {
        if !secret.less_than(&self.params.q) {
            proof {
                reveal_strlit("Secret must be less than q");
            }
            return Err("Secret must be less than q");
        }
        let coefficients = self.generate_polynomial(secret);
        proof {
            assert(is_sharing_polynomial(values(coefficients@), secret@ as int, self.threshold(), self.q()));
        }
        let (shares, commitments) = self.deal_from_polynomial(&coefficients);
        Ok((shares, commitments))
    }

    /// The shares at `x = 1 ..= total_shares` of the polynomial with the given
    /// coefficients (lowest power first), and the commitments to them.
    pub fn deal_from_polynomial(&self, coefficients: &Vec<Uint>) -> (r: (Vec<Share>, Commitment))
        requires
            self.wf(),
        ensures
            shares_on(r.0@, values(coefficients@), self.q(), self.total_shares()),
            commits_to(values(r.1.0@), values(coefficients@), self.g(), self.p()),
    {
        let commitments = self.generate_commitments(coefficients);
        let shares = self.generate_shares(coefficients);
        (shares, commitments)
    }

    /// Whether `share` is consistent with `commitments`.
    pub fn verify_share(&self, share: &Share, commitments: &Commitment) -> (r: bool)
        requires
            self.wf(),
        ensures
            r == share_consistent(
                values(commitments.0@),
                share.id@ as int,
                share.value@ as int,
                self.g(),
                self.p(),
                self.q(),
            ),
    {
        let lhs = self.compute_commitment_product(share, commitments);
        let rhs = self.params.g.mod_pow(&share.value, &self.params.p);
        lhs.equals(&rhs)
    }

    /// Recovers the secret from the first `threshold` shares by Lagrange
    /// interpolation at zero modulo `q`; absent with fewer shares, or where
    /// one of the shares used has a zero point or two of them have the same
    /// point, both modulo `q`.
    pub fn reconstruct_secret(&self, shares: &[Share]) -> (r: Option<Uint>)
        requires
            self.wf(),
        ensures
            opt_value(r) == reconstruction(
                ids_of(shares@),
                values_of(shares@),
                self.threshold(),
                self.q(),
            ),
    {
        if shares.len() < self.params.threshold {
            return None;
        }
        let mut xs: Vec<Uint> = Vec::new();
        let mut ys: Vec<Uint> = Vec::new();
        let mut i: usize = 0;
        while i < self.params.threshold
            invariant
                self.wf(),
                self.params.threshold <= shares.len(),
                i <= self.params.threshold,
                values(xs@) == ids_of(shares@).take(i as int),
                values(ys@) == values_of(shares@).take(i as int),
            decreases self.params.threshold - i,
        {
            let ghost old_xs = xs@;
            let ghost old_ys = ys@;
            let x = shares[i].id.copy();
            let y = shares[i].value.copy();
            xs.push(x);
            ys.push(y);
            proof {
                assert(values(xs@) =~= values(old_xs).push(x@ as int));
                assert(values(ys@) =~= values(old_ys).push(y@ as int));
                assert(ids_of(shares@).take(i + 1) =~= ids_of(shares@).take(i as int).push(x@ as int));
                assert(values_of(shares@).take(i + 1) =~= values_of(shares@).take(i as int).push(
                    y@ as int,
                ));
            }
            i = i + 1;
        }
        interpolate_at_zero(&xs, &ys, &self.params.q)
    }

    fn generate_polynomial(&self, secret: &Uint) -> (r: Vec<Uint>)
        requires
            self.wf(),
        ensures
            r.len() == self.threshold(),
            r@[0]@ == secret@,
            forall|k: int| 0 < k < r.len() ==> #[trigger] r@[k]@ < self.q(),
    {
        let mut coefficients: Vec<Uint> = Vec::new();
        coefficients.push(secret.copy());
        let mut k: usize = 1;
        while k < self.params.threshold
            invariant
                self.wf(),
                1 <= k <= self.params.threshold,
                coefficients.len() == k,
                coefficients@[0]@ == secret@,
                forall|j: int| 0 < j < k ==> #[trigger] coefficients@[j]@ < self.q(),
            decreases self.params.threshold - k,
        {
            coefficients.push(Uint::random_below(&self.params.q));
            k = k + 1;
        }
        coefficients
    }

    fn generate_commitments(&self, coefficients: &Vec<Uint>) -> (r: Commitment)
        requires
            self.wf(),
        ensures
            commits_to(values(r.0@), values(coefficients@), self.g(), self.p()),
    {
        let mut cs: Vec<Uint> = Vec::new();
        let mut k: usize = 0;
        while k < coefficients.len()
            invariant
                self.wf(),
                k <= coefficients.len(),
                cs.len() == k,
                forall|j: int|
                    0 <= j < k ==> #[trigger] cs@[j]@ == pow(self.g(), coefficients@[j]@) % self.p(),
            decreases coefficients.len() - k,
        {
            cs.push(self.params.g.mod_pow(&coefficients[k], &self.params.p));
            k = k + 1;
        }
        Commitment(cs)
    }

    fn generate_shares(&self, coefficients: &Vec<Uint>) -> (r: Vec<Share>)
        requires
            self.wf(),
        ensures
            shares_on(r@, values(coefficients@), self.q(), self.total_shares()),
    {
        let mut shares: Vec<Share> = Vec::new();
        let mut i: usize = 0;
        while i < self.params.total_shares
            invariant
                self.wf(),
                i <= self.params.total_shares,
                shares_on(shares@, values(coefficients@), self.q(), i as nat),
            decreases self.params.total_shares - i,
        {
            let id = Uint::from_u64((i + 1) as u64);
            let value = evaluate_polynomial(coefficients, &id, &self.params.q);
            shares.push(Share { id, value });
            i = i + 1;
        }
        shares
    }

    fn compute_commitment_product(&self, share: &Share, commitments: &Commitment) -> (r: Uint)
        requires
            self.wf(),
        ensures
            r@ == commitment_product(values(commitments.0@), share.id@ as int, self.q(), commitments.0.len() as nat)
                % self.p(),
    {
        let ghost cs = values(commitments.0@);
        let ghost p = self.p();
        let ghost q = self.q();
        let ghost x = share.id@ as int;
        let mut acc = Uint::from_u64(1);
        proof {
            lemma_small_mod(1, p as nat);
        }
        let mut k: usize = 0;
        while k < commitments.0.len()
            invariant
                self.wf(),
                k <= commitments.0.len(),
                cs == values(commitments.0@),
                p == self.p(),
                q == self.q(),
                x == share.id@ as int,
                acc@ == commitment_product(cs, x, q, k as nat) % p,
            decreases commitments.0.len() - k,
        {
            let e = Uint::from_u64(k as u64);
            let x_power = share.id.mod_pow(&e, &self.params.q);
            let term = commitments.0[k].mod_pow(&x_power, &self.params.p);
            let prod = acc.times(&term);
            acc = prod.modulo(&self.params.p);
            proof {
                let before = commitment_product(cs, x, q, k as nat);
                let t = pow(cs[k as int], (pow(x, k as nat) % q) as nat);
                lemma_mul_mod_noop_left(before, term@ as int, p);
                lemma_mul_mod_noop_right(before, t, p);
            }
            k = k + 1;
        }
        acc
    }
}

} // verus!
