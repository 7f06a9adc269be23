//! Unbounded natural numbers held as base 2^32 digits, least significant first.
//!
//! The digits are what the library reads and stores; every arithmetic
//! operation converts them to a `num_bigint::BigUint`, lets that type do the
//! work, and converts the result back.
use num_bigint::{BigUint, RandBigInt};
use num_traits::Zero;
use vstd::arithmetic::power::pow;
use vstd::prelude::*;

verus! {

/// Number of values one digit can hold.
pub const DIGIT_BASE: u64 = 4294967296;

/// The value of a little-endian sequence of base 2^32 digits.
pub open spec fn digits_value(d: Seq<u32>) -> nat
    decreases d.len(),
{
    if d.len() == 0 {
        0
    } else {
        d[0] as nat + DIGIT_BASE as nat * digits_value(d.subrange(1, d.len() as int))
    }
}

/// The values of a sequence of numbers, as integers.
pub open spec fn values(v: Seq<Uint>) -> Seq<int> {
    v.map_values(|u: Uint| u@ as int)
}

/// The value held by an optional number.
pub open spec fn opt_value(r: Option<Uint>) -> Option<int> {
    match r {
        Some(v) => Some(v@ as int),
        None => None,
    }
}

/// An unbounded natural number. Every constructor leaves no high zero digit,
/// so two numbers are `==` exactly when their values are equal.
#[derive(Clone, Debug, PartialEq, Eq)]
pub struct Uint {
    digits: Vec<u32>,
}

impl View for Uint {
    type V = nat;

    closed spec fn view(&self) -> nat {
        digits_value(self.digits@)
    }
}

proof fn lemma_trailing_zero(d: Seq<u32>)
    requires
        d.len() > 0,
        d.last() == 0,
    ensures
        digits_value(d) == digits_value(d.drop_last()),
    decreases d.len(),
{
    if d.len() == 1 {
        assert(d.drop_last().len() == 0);
        assert(d.subrange(1, 1).len() == 0);
        assert(digits_value(d.subrange(1, 1)) == 0);
        assert(digits_value(d.drop_last()) == 0);
    } else {
        let rest = d.subrange(1, d.len() as int);
        lemma_trailing_zero(rest);
        let shorter = d.drop_last();
        assert(shorter.subrange(1, shorter.len() as int) =~= rest.drop_last());
        assert(shorter[0] == d[0]);
        assert(digits_value(shorter) == shorter[0] as nat + DIGIT_BASE as nat * digits_value(
            shorter.subrange(1, shorter.len() as int),
        ));
    }
}

impl Uint {
    /// Zero.
    pub fn zero() -> (r: Uint)
        ensures
            r@ == 0,
    {
        let r = Uint { digits: Vec::new() };
        proof {
            reveal_with_fuel(digits_value, 1);
        }
        r
    }

    /// The number with the value `v`.
    pub fn from_u64(v: u64) -> (r: Uint)
        ensures
            r@ == v,
    {
        let mut digits: Vec<u32> = Vec::new();
        if v > 0 {
            if v < DIGIT_BASE {
                digits.push(v as u32);
            } else {
                digits.push((v % DIGIT_BASE) as u32);
                digits.push((v / DIGIT_BASE) as u32);
            }
        }
        let r = Uint { digits };
        proof {
            reveal_with_fuel(digits_value, 3);
            if v >= DIGIT_BASE {
                assert(r.digits@.subrange(1, 2).subrange(1, 1).len() == 0);
            } else if v > 0 {
                assert(r.digits@.subrange(1, 1).len() == 0);
            }
        }
        r
    }

    /// The number whose base 2^32 digits, least significant first, are
    /// `digits`; high zero digits are dropped.
    pub fn from_u32_digits(digits: Vec<u32>) -> (r: Uint)
        ensures
            r@ == digits_value(digits@),
    {
        let mut d = digits;
        while d.len() > 0 && d[d.len() - 1] == 0
            invariant
                digits_value(d@) == digits_value(digits@),
            decreases d.len(),
        {
            proof {
                lemma_trailing_zero(d@);
            }
            d.pop();
        }
        Uint { digits: d }
    }

    /// The base 2^32 digits, least significant first.
    pub fn to_u32_digits(&self) -> (r: Vec<u32>)
        ensures
            digits_value(r@) == self@,
    {
        self.copy().digits
    }

    /// A number with the same value.
    pub fn copy(&self) -> (r: Uint)
        ensures
            r@ == self@,
    {
        let mut d: Vec<u32> = Vec::new();
        let mut i: usize = 0;
        while i < self.digits.len()
            invariant
                i <= self.digits.len(),
                d@ == self.digits@.subrange(0, i as int),
            decreases self.digits.len() - i,
        {
            d.push(self.digits[i]);
            i = i + 1;
        }
        assert(d@ =~= self.digits@);
        Uint { digits: d }
    }

    /// Relies on `Add for BigUint`: the exact sum.
    #[verifier::external_body]
    pub(crate) fn plus(&self, b: &Uint) -> (r: Uint)
        ensures
            r@ == self@ + b@,
    {
        let s = BigUint::new(self.digits.clone()) + BigUint::new(b.digits.clone());
        Uint { digits: s.to_u32_digits() }
    }

    /// Relies on `BigUint::pow`: `base ^ exponent`.
    #[verifier::external_body]
    pub(crate) fn pow_u32(&self, exponent: u32) -> (r: Uint)
        ensures
            r@ == pow(self@ as int, exponent as nat),
    {
        let s = BigUint::new(self.digits.clone()).pow(exponent);
        Uint { digits: s.to_u32_digits() }
    }

    /// Relies on `Sub for BigUint`: the exact difference, which panics below zero.
    #[verifier::external_body]
    pub(crate) fn minus(&self, b: &Uint) -> (r: Uint)
        requires
            b@ <= self@,
        ensures
            r@ == self@ - b@,
    {
        let s = BigUint::new(self.digits.clone()) - BigUint::new(b.digits.clone());
        Uint { digits: s.to_u32_digits() }
    }

    /// Relies on `Mul for BigUint`: the exact product.
    #[verifier::external_body]
    pub(crate) fn times(&self, b: &Uint) -> (r: Uint)
        ensures
            r@ == self@ * b@,
    {
        let s = BigUint::new(self.digits.clone()) * BigUint::new(b.digits.clone());
        Uint { digits: s.to_u32_digits() }
    }

    /// Relies on `Rem for BigUint`: the remainder, which panics on a zero divisor.
    #[verifier::external_body]
    pub(crate) fn modulo(&self, m: &Uint) -> (r: Uint)
        requires
            m@ > 0,
        ensures
            r@ == self@ % m@,
    {
        let s = BigUint::new(self.digits.clone()) % BigUint::new(m.digits.clone());
        Uint { digits: s.to_u32_digits() }
    }

    /// Relies on `BigUint::modpow`: `(base ^ exponent) % modulus`, which panics on
    /// a zero modulus.
    #[verifier::external_body]
    pub(crate) fn mod_pow(&self, exponent: &Uint, modulus: &Uint) -> (r: Uint)
        requires
            modulus@ > 0,
        ensures
            r@ == pow(self@ as int, exponent@) % (modulus@ as int),
    {
        let b = BigUint::new(self.digits.clone());
        let s = b.modpow(&BigUint::new(exponent.digits.clone()), &BigUint::new(modulus.digits.clone()));
        Uint { digits: s.to_u32_digits() }
    }

    /// Relies on `PartialOrd for BigUint`: numeric order.
    #[verifier::external_body]
    pub(crate) fn less_than(&self, b: &Uint) -> (r: bool)
        ensures
            r == (self@ < b@),
    {
        BigUint::new(self.digits.clone()) < BigUint::new(b.digits.clone())
    }

    /// Relies on `PartialEq for BigUint`: numeric equality.
    #[verifier::external_body]
    pub(crate) fn equals(&self, b: &Uint) -> (r: bool)
        ensures
            r == (self@ == b@),
    {
        BigUint::new(self.digits.clone()) == BigUint::new(b.digits.clone())
    }

    /// Relies on `RandBigInt::gen_biguint_range` over `rand::thread_rng`: a value
    /// drawn from `[0, bound)`; it panics on an empty range.
    #[verifier::external_body]
    pub(crate) fn random_below(bound: &Uint) -> (r: Uint)
        requires
            bound@ > 0,
        ensures
            r@ < bound@,
    {
        let s = rand::thread_rng().gen_biguint_range(&BigUint::zero(), &BigUint::new(bound.digits.clone()));
        Uint { digits: s.to_u32_digits() }
    }
}

} // verus!
