//! Arithmetic over the field of integers modulo a prime: polynomial
//! evaluation and Lagrange interpolation at zero.
use crate::uint::{values, Uint};
use vstd::arithmetic::div_mod::{
    lemma_add_mod_noop_right, lemma_mod_add_multiples_vanish, lemma_mul_mod_noop,
    lemma_mul_mod_noop_left, lemma_mul_mod_noop_right, lemma_small_mod, lemma_sub_mod_noop,
};
use vstd::arithmetic::power::{lemma_pow_mod_noop, pow};
use vstd::prelude::*;

verus! {

/// `c[0] + c[1]·x + ... + c[k-1]·x^(k-1)` over the integers, for `k = c.len()`.
pub open spec fn poly_value(c: Seq<int>, x: int) -> int
    decreases c.len(),
{
    if c.len() == 0 {
        0
    } else {
        poly_value(c.drop_last(), x) + c.last() * pow(x, (c.len() - 1) as nat)
    }
}

/// The product of `xs[j]` over `j < k`, `j != i`.
pub open spec fn basis_numerator(xs: Seq<int>, i: int, k: nat) -> int
    decreases k,
{
    if k == 0 {
        1
    } else {
        let j = k - 1;
        basis_numerator(xs, i, j as nat) * (if j == i {
            1
        } else {
            xs[j]
        })
    }
}

/// The product of `xs[j] - xs[i]` over `j < k`, `j != i`.
pub open spec fn basis_denominator(xs: Seq<int>, i: int, k: nat) -> int
    decreases k,
{
    if k == 0 {
        1
    } else {
        let j = k - 1;
        basis_denominator(xs, i, j as nat) * (if j == i {
            1
        } else {
            xs[j] - xs[i]
        })
    }
}

/// The inverse of `a` modulo a prime `m` by Fermat's little theorem.
pub open spec fn fermat_inverse(a: int, m: int) -> int {
    pow(a, (m - 2) as nat) % m
}

/// Whether the Lagrange basis polynomial of point `i` can be formed modulo
/// `m`: its denominator is not divisible by `m`.
pub open spec fn basis_defined(xs: Seq<int>, i: int, m: int) -> bool {
    basis_denominator(xs, i, xs.len()) % m != 0
}

/// The Lagrange basis polynomial of point `i`, evaluated at zero modulo `m`.
pub open spec fn basis_value(xs: Seq<int>, i: int, m: int) -> int {
    basis_numerator(xs, i, xs.len()) * pow(basis_denominator(xs, i, xs.len()), (m - 2) as nat)
        % m
}

/// Whether the points `xs` can be interpolated modulo `m`: none of them is
/// zero modulo `m`, and every basis polynomial can be formed.
pub open spec fn interpolation_defined(xs: Seq<int>, m: int) -> bool {
    forall|i: int| 0 <= i < xs.len() ==> #[trigger] point_usable(xs, i, m)
}

/// Whether point `i` of `xs` is nonzero modulo `m` and its basis polynomial
/// can be formed.
pub open spec fn point_usable(xs: Seq<int>, i: int, m: int) -> bool {
    xs[i] % m != 0 && basis_defined(xs, i, m)
}

/// `ys[0]·L_0 + ... + ys[k-1]·L_(k-1)`, `L_i` the basis values at zero.
pub open spec fn lagrange_sum(xs: Seq<int>, ys: Seq<int>, m: int, k: nat) -> int
    decreases k,
{
    if k == 0 {
        0
    } else {
        lagrange_sum(xs, ys, m, (k - 1) as nat) + ys[k - 1] * basis_value(xs, k - 1, m)
    }
}

/// The value at zero of the polynomial through the points `(xs[i], ys[i])`,
/// modulo `m`; absent where a point is zero modulo `m` or a basis polynomial
/// cannot be formed.
pub open spec fn interpolated_at_zero(xs: Seq<int>, ys: Seq<int>, m: int) -> Option<int> {
    if interpolation_defined(xs, m) {
        Some(lagrange_sum(xs, ys, m, xs.len()) % m)
    } else {
        None
    }
}

/// The secret recovered from the points `(xs[i], ys[i])` with threshold `t`:
/// absent with fewer than `t` points, else interpolated from the first `t`.
pub open spec fn reconstruction(xs: Seq<int>, ys: Seq<int>, t: nat, m: int) -> Option<int> {
    if xs.len() < t {
        None
    } else {
        interpolated_at_zero(xs.take(t as int), ys.take(t as int), m)
    }
}

/// With fewer points than the threshold, nothing is reconstructed.
pub proof fn lemma_threshold_floor(xs: Seq<int>, ys: Seq<int>, t: nat, m: int)
    requires
        xs.len() < t,
    ensures
        reconstruction(xs, ys, t, m) is None,
{
}

/// Reconstruction reads only the first `t` points: two sequences of at least
/// `t` points that agree on their first `t` give the same result.
pub proof fn lemma_first_threshold_decides(
    xs1: Seq<int>,
    ys1: Seq<int>,
    xs2: Seq<int>,
    ys2: Seq<int>,
    t: nat,
    m: int,
)
    requires
        xs1.len() >= t,
        xs2.len() >= t,
        xs1.take(t as int) == xs2.take(t as int),
        ys1.take(t as int) == ys2.take(t as int),
    ensures
        reconstruction(xs1, ys1, t, m) == reconstruction(xs2, ys2, t, m),
{
}

/// Round trip for threshold one: a share of the constant polynomial `[s]`,
/// `s` a field element, gives back `s`, whatever its nonzero point.
pub proof fn lemma_round_trip_threshold_one(c: Seq<int>, xs: Seq<int>, ys: Seq<int>, m: int)
    requires
        m >= 2,
        c.len() == 1,
        0 <= c[0] < m,
        xs.len() >= 1,
        xs[0] % m != 0,
        ys.len() >= 1,
        ys[0] == poly_value(c, xs[0]) % m,
    ensures
        reconstruction(xs, ys, 1, m) == Some(c[0]),
{
    let x1 = xs.take(1);
    let y1 = ys.take(1);
    vstd::arithmetic::power::lemma_pow0(xs[0]);
    assert(c.drop_last().len() == 0);
    assert(poly_value(c.drop_last(), xs[0]) == 0);
    assert(poly_value(c, xs[0]) == c[0]);
    lemma_small_mod(c[0] as nat, m as nat);
    lemma_small_mod(1, m as nat);
    assert(basis_numerator(x1, 0, 0) == 1);
    assert(basis_numerator(x1, 0, 1) == 1);
    assert(basis_denominator(x1, 0, 0) == 1);
    assert(basis_denominator(x1, 0, 1) == 1);
    vstd::arithmetic::power::lemma1_pow((m - 2) as nat);
    assert(point_usable(x1, 0, m));
    assert(basis_value(x1, 0, m) == 1);
    assert(lagrange_sum(x1, y1, m, 0) == 0);
    assert(lagrange_sum(x1, y1, m, 1) == c[0]);
}

/// `(p mod m + c·(x mod m)) mod m == (p + c·x) mod m`.
pub proof fn lemma_add_scaled_mod(p: int, c: int, x: int, m: int)
    requires
        m > 0,
    ensures
        (p % m + c * (x % m)) % m == (p + c * x) % m,
{
    lemma_add_mod_noop_right(c * (x % m), p, m);
    lemma_add_mod_noop_right(p, c * (x % m), m);
    lemma_mul_mod_noop_right(c, x, m);
    lemma_add_mod_noop_right(p, c * x, m);
}

/// Evaluates the polynomial with the given coefficients (lowest power first)
/// at `x`, modulo `modulus`.
pub fn evaluate_polynomial(coefficients: &Vec<Uint>, x: &Uint, modulus: &Uint) -> (r: Uint)
    requires
        modulus@ > 0,
    ensures
        r@ == poly_value(values(coefficients@), x@ as int) % (modulus@ as int),
{
    let ghost c = values(coefficients@);
    let ghost m = modulus@ as int;
    let mut acc = Uint::zero();
    let mut power: usize = 0;
    proof {
        assert(c.take(0).len() == 0);
        assert(poly_value(c.take(0), x@ as int) == 0);
        lemma_small_mod(0, m as nat);
    }
    while power < coefficients.len()
        invariant
            power <= coefficients.len(),
            c == values(coefficients@),
            m == modulus@ as int,
            m > 0,
            acc@ == poly_value(c.take(power as int), x@ as int) % m,
        decreases coefficients.len() - power,
    {
        let e = Uint::from_u64(power as u64);
        let xp = x.mod_pow(&e, modulus);
        let term = coefficients[power].times(&xp);
        let sum = acc.plus(&term);
        proof {
            let prefix = c.take(power as int + 1);
            assert(prefix.drop_last() =~= c.take(power as int));
            assert(prefix.last() == coefficients@[power as int]@);
            lemma_add_scaled_mod(
                poly_value(c.take(power as int), x@ as int),
                c[power as int],
                pow(x@ as int, power as nat),
                m,
            );
        }
        acc = sum.modulo(modulus);
        power = power + 1;
    }
    proof {
        assert(c.take(power as int) =~= c);
    }
    acc
}

/// The inverse of `a` modulo the prime `modulus`, by Fermat's little theorem;
/// absent for zero.
pub fn mod_inverse(a: &Uint, modulus: &Uint) -> (r: Option<Uint>)
    requires
        modulus@ >= 2,
    ensures
        r is None <==> a@ == 0,
        r matches Some(v) ==> v@ == fermat_inverse(a@ as int, modulus@ as int),
{
    if a.equals(&Uint::zero()) {
        return None;
    }
    let two = Uint::from_u64(2);
    let e = modulus.minus(&two);
    Some(a.mod_pow(&e, modulus))
}

/// The Lagrange basis polynomial of point `i` of `xs`, evaluated at zero
/// modulo the prime `modulus`; absent where its denominator vanishes.
pub fn lagrange_coefficient(xs: &Vec<Uint>, i: usize, modulus: &Uint) -> (r: Option<Uint>)
    requires
        i < xs.len(),
        modulus@ >= 2,
    ensures
        r is None <==> !basis_defined(values(xs@), i as int, modulus@ as int),
        r matches Some(v) ==> v@ == basis_value(values(xs@), i as int, modulus@ as int),
{
    let ghost v = values(xs@);
    let ghost m = modulus@ as int;
    let mut numerator = Uint::from_u64(1);
    let mut denominator = Uint::from_u64(1);
    let xi = xs[i].modulo(modulus);
    proof {
        lemma_small_mod(1, m as nat);
    }
    let mut j: usize = 0;
    while j < xs.len()
        invariant
            i < xs.len(),
            j <= xs.len(),
            v == values(xs@),
            m == modulus@ as int,
            m >= 2,
            xi@ == v[i as int] % m,
            numerator@ == basis_numerator(v, i as int, j as nat) % m,
            denominator@ == basis_denominator(v, i as int, j as nat) % m,
        decreases xs.len() - j,
    {
        if j != i {
            let prod = numerator.times(&xs[j]);
            numerator = prod.modulo(modulus);
            let xj = xs[j].modulo(modulus);
            let shifted = xj.plus(modulus);
            let diff0 = shifted.minus(&xi);
            let diff = diff0.modulo(modulus);
            let dprod = denominator.times(&diff);
            denominator = dprod.modulo(modulus);
            proof {
                lemma_mul_mod_noop_left(basis_numerator(v, i as int, j as nat), v[j as int], m);
                lemma_mod_add_multiples_vanish(v[j as int] % m - v[i as int] % m, m);
                lemma_sub_mod_noop(v[j as int], v[i as int], m);
                lemma_mul_mod_noop(
                    basis_denominator(v, i as int, j as nat),
                    v[j as int] - v[i as int],
                    m,
                );
                assert(basis_numerator(v, i as int, (j + 1) as nat) == basis_numerator(
                    v,
                    i as int,
                    j as nat,
                ) * v[j as int]);
            }
        }
        j = j + 1;
    }
    let ghost num = basis_numerator(v, i as int, xs.len() as nat);
    let ghost den = basis_denominator(v, i as int, xs.len() as nat);
    match mod_inverse(&denominator, modulus) {
        None => None,
        Some(inv) => {
            let prod = numerator.times(&inv);
            let r = prod.modulo(modulus);
            proof {
                let e = (m - 2) as nat;
                lemma_pow_mod_noop(den, e, m);
                lemma_mul_mod_noop(num, pow(den % m, e), m);
                lemma_mul_mod_noop(num, pow(den, e), m);
            }
            Some(r)
        },
    }
}

/// The value at zero of the polynomial through the points `(xs[i], ys[i])`,
/// modulo the prime `modulus`; absent where a point is zero or two points are
/// equal, both modulo `modulus`.
pub fn interpolate_at_zero(xs: &Vec<Uint>, ys: &Vec<Uint>, modulus: &Uint) -> (r: Option<Uint>)
    requires
        xs.len() == ys.len(),
        modulus@ >= 2,
    ensures
        crate::uint::opt_value(r) == interpolated_at_zero(values(xs@), values(ys@), modulus@ as int),
{
    let ghost xv = values(xs@);
    let ghost yv = values(ys@);
    let ghost m = modulus@ as int;
    let mut acc = Uint::zero();
    let mut i: usize = 0;
    while i < xs.len()
        invariant
            xs.len() == ys.len(),
            i <= xs.len(),
            xv == values(xs@),
            yv == values(ys@),
            m == modulus@ as int,
            m >= 2,
            forall|k: int| 0 <= k < i ==> #[trigger] point_usable(xv, k, m),
            acc@ == lagrange_sum(xv, yv, m, i as nat) % m,
        decreases xs.len() - i,
    {
        let reduced = xs[i].modulo(modulus);
        if reduced.equals(&Uint::zero()) {
            proof {
                assert(!point_usable(xv, i as int, m));
            }
            return None;
        }
        match lagrange_coefficient(xs, i, modulus) {
            None => {
                proof {
                    assert(!point_usable(xv, i as int, m));
                }
                return None;
            },
            Some(l) => {
                let term = ys[i].times(&l);
                let sum = acc.plus(&term);
                acc = sum.modulo(modulus);
                proof {
                    lemma_add_mod_noop_right(
                        term@ as int,
                        lagrange_sum(xv, yv, m, i as nat),
                        m,
                    );
                }
            },
        }
        i = i + 1;
    }
    Some(acc)
}

} // verus!
