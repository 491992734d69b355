//! Exact rational arithmetic.
//!
//! A `Rational` holds a value in canonical form: the denominator is positive
//! and the two components have been divided by their greatest common divisor.
//! Ghost reasoning works on unbounded integer pairs `(numerator, denominator)`,
//! so every contract can state the exact rational value of a result.
//! An operation returns `None` exactly when the canonical form of the exact
//! result does not fit the 64-bit representation.

use vstd::arithmetic::div_mod::{
    lemma_div_of0, lemma_div_pos_is_pos, lemma_fundamental_div_mod,
    lemma_mod_division_less_than_divisor, lemma_mod_multiples_basic, lemma_mod_self_0,
    lemma_small_mod,
};
use vstd::prelude::*;

verus! {

/// Magnitude of an integer.
pub open spec fn abs_n(x: int) -> nat {
    if x < 0 {
        (-x) as nat
    } else {
        x as nat
    }
}

/// Greatest common divisor, by Euclid's recursion.
pub open spec fn spec_gcd(a: nat, b: nat) -> nat
    decreases b,
{
    if b == 0 {
        a
    } else {
        spec_gcd(b, a % b)
    }
}

/// The pairs `a` and `b`, read as fractions, denote the same rational number.
/// Meaningful only for nonzero denominators.
pub open spec fn rat_eq(a: (int, int), b: (int, int)) -> bool {
    a.0 * b.1 == b.0 * a.1
}

/// `a <= b` as rational numbers, for pairs with positive denominators.
pub open spec fn rat_le(a: (int, int), b: (int, int)) -> bool {
    a.0 * b.1 <= b.0 * a.1
}

/// `a < b` as rational numbers, for pairs with positive denominators.
pub open spec fn rat_lt(a: (int, int), b: (int, int)) -> bool {
    a.0 * b.1 < b.0 * a.1
}

/// The rational number zero.
pub open spec fn rat_zero() -> (int, int) {
    (0int, 1int)
}

/// Exact sum of two fractions.
pub open spec fn rat_add(a: (int, int), b: (int, int)) -> (int, int) {
    (a.0 * b.1 + b.0 * a.1, a.1 * b.1)
}

/// Exact difference of two fractions.
pub open spec fn rat_sub(a: (int, int), b: (int, int)) -> (int, int) {
    (a.0 * b.1 - b.0 * a.1, a.1 * b.1)
}

/// Exact product of two fractions.
pub open spec fn rat_mul(a: (int, int), b: (int, int)) -> (int, int) {
    (a.0 * b.0, a.1 * b.1)
}

/// Exact quotient of two fractions; meaningful only when `b.0 != 0`.
pub open spec fn rat_div(a: (int, int), b: (int, int)) -> (int, int) {
    (a.0 * b.1, a.1 * b.0)
}

/// Sign factor of the fraction `p`: `-1` when exactly one component is negative.
pub open spec fn pair_sign(p: (int, int)) -> int {
    if (p.0 < 0) != (p.1 < 0) {
        -1
    } else {
        1
    }
}

/// Canonical form of the fraction `p`: positive denominator, both components
/// divided by their greatest common divisor.
pub open spec fn rat_norm(p: (int, int)) -> (int, int) {
    let g = spec_gcd(abs_n(p.0), abs_n(p.1)) as int;
    (pair_sign(p) * (abs_n(p.0) as int / g), abs_n(p.1) as int / g)
}

/// The pair fits the executable representation.
pub open spec fn fits(p: (int, int)) -> bool {
    i64::MIN <= p.0 <= i64::MAX && 1 <= p.1 <= i64::MAX
}

/// The greatest common divisor is positive and divides both arguments.
pub proof fn lemma_gcd_properties(a: nat, b: nat)
    requires
        a > 0 || b > 0,
    ensures
        spec_gcd(a, b) >= 1,
        a % spec_gcd(a, b) == 0,
        b % spec_gcd(a, b) == 0,
    decreases b,
{
    if b == 0 {
        lemma_mod_self_0(a as int);
        lemma_small_mod(0, a);
    } else {
        lemma_mod_division_less_than_divisor(a as int, b as int);
        let r = a % b;
        lemma_gcd_properties(b, r);
        let g = spec_gcd(b, r);
        lemma_fundamental_div_mod(a as int, b as int);
        lemma_fundamental_div_mod(b as int, g as int);
        lemma_fundamental_div_mod(r as int, g as int);
        let qa = a as int / b as int;
        let qb = b as int / g as int;
        let qr = r as int / g as int;
        assert(a as int == (qb * qa + qr) * (g as int)) by (nonlinear_arith)
            requires
                a as int == b as int * qa + r as int,
                b as int == g as int * qb,
                r as int == g as int * qr,
        ;
        lemma_mod_multiples_basic(qb * qa + qr, g as int);
    }
}

/// The product of two 64-bit values stays within the 128-bit range.
proof fn lemma_i64_prod_bounds(a: int, b: int)
    by (nonlinear_arith)
    requires
        -0x8000_0000_0000_0000 <= a <= 0x7fff_ffff_ffff_ffff,
        -0x8000_0000_0000_0000 <= b <= 0x7fff_ffff_ffff_ffff,
    ensures
        -0x4000_0000_0000_0000_0000_0000_0000_0000 <= a * b <= 0x4000_0000_0000_0000_0000_0000_0000_0000,
{
}

/// The product of a 64-bit numerator and a positive 64-bit denominator stays
/// well within the 128-bit range, leaving room for one addition.
proof fn lemma_num_den_prod_bounds(a: int, b: int)
    by (nonlinear_arith)
    requires
        -0x8000_0000_0000_0000 <= a <= 0x7fff_ffff_ffff_ffff,
        1 <= b <= 0x7fff_ffff_ffff_ffff,
    ensures
        -0x3fff_ffff_ffff_ffff_8000_0000_0000_0000 <= a * b
            <= 0x3fff_ffff_ffff_ffff_8000_0000_0000_0000,
        -0x3fff_ffff_ffff_ffff_8000_0000_0000_0000 <= b * a
            <= 0x3fff_ffff_ffff_ffff_8000_0000_0000_0000,
{
}

/// Bounds of an exact division written multiplicatively.
proof fn lemma_mul_div_bounds(d: int, q: int, x: int)
    by (nonlinear_arith)
    requires
        1 <= d,
        1 <= x,
        x == d * q,
    ensures
        1 <= q <= x,
        d <= x,
{
}

/// Normalization keeps the rational value, makes the denominator positive,
/// and never grows the magnitudes.
pub proof fn lemma_norm_eq(p: (int, int))
    requires
        p.1 != 0,
    ensures
        rat_eq(rat_norm(p), p),
        rat_eq(p, rat_norm(p)),
        1 <= rat_norm(p).1,
        rat_norm(p).1 <= abs_n(p.1) as int,
        abs_n(rat_norm(p).0) <= abs_n(p.0),
        rat_norm(p).0 == 0 <==> p.0 == 0,
{
    let na = abs_n(p.0) as int;
    let da = abs_n(p.1) as int;
    lemma_gcd_properties(na as nat, da as nat);
    let g = spec_gcd(na as nat, da as nat) as int;
    lemma_fundamental_div_mod(na, g);
    lemma_fundamental_div_mod(da, g);
    let qn = na / g;
    let qd = da / g;
    assert(na == g * qn);
    assert(da == g * qd);
    lemma_mul_div_bounds(g, qd, da);
    if na >= 1 {
        lemma_mul_div_bounds(g, qn, na);
    } else {
        lemma_div_of0(g);
    }
    let s0: int = if p.0 < 0 {
        -1
    } else {
        1
    };
    let s1: int = if p.1 < 0 {
        -1
    } else {
        1
    };
    assert(p.0 == s0 * na) by {
        if p.0 < 0 {
            assert(s0 * na == -na);
        } else {
            assert(s0 * na == na);
        }
    }
    assert(p.1 == s1 * da) by {
        if p.1 < 0 {
            assert(s1 * da == -da);
        } else {
            assert(s1 * da == da);
        }
    }
    assert(pair_sign(p) == s0 * s1);
    assert((s0 * s1 * qn) * p.1 == p.0 * qd) by (nonlinear_arith)
        requires
            na == g * qn,
            da == g * qd,
            p.0 == s0 * na,
            p.1 == s1 * da,
            s0 * s0 == 1,
            s1 * s1 == 1,
    ;
    assert(rat_norm(p).0 == s0 * s1 * qn);
}

/// The product of two positive values is positive.
pub proof fn lemma_pos_prod(a: int, b: int)
    by (nonlinear_arith)
    requires
        1 <= a,
        1 <= b,
    ensures
        1 <= a * b,
{
}

/// The product of a positive value and a nonzero value is nonzero.
pub proof fn lemma_nonzero_prod(a: int, b: int)
    by (nonlinear_arith)
    requires
        1 <= a,
        b != 0,
    ensures
        a * b != 0,
{
}

/// Denoting the same rational number is transitive.
pub proof fn lemma_rat_eq_trans(a: (int, int), b: (int, int), c: (int, int))
    by (nonlinear_arith)
    requires
        rat_eq(a, b),
        rat_eq(b, c),
        b.1 != 0,
    ensures
        rat_eq(a, c),
{
}

/// Sums of equal fractions are equal.
pub proof fn lemma_rat_add_cong(a: (int, int), b: (int, int), a2: (int, int), b2: (int, int))
    requires
        rat_eq(a, a2),
        rat_eq(b, b2),
    ensures
        rat_eq(rat_add(a, b), rat_add(a2, b2)),
{
    assert((a.0 * b.1) * (a2.1 * b2.1) == (a2.0 * b2.1) * (a.1 * b.1)) by (nonlinear_arith)
        requires
            a.0 * a2.1 == a2.0 * a.1,
    ;
    assert((b.0 * a.1) * (a2.1 * b2.1) == (b2.0 * a2.1) * (a.1 * b.1)) by (nonlinear_arith)
        requires
            b.0 * b2.1 == b2.0 * b.1,
    ;
    assert((a.0 * b.1 + b.0 * a.1) * (a2.1 * b2.1) == (a.0 * b.1) * (a2.1 * b2.1) + (b.0 * a.1) * (
    a2.1 * b2.1)) by (nonlinear_arith);
    assert((a2.0 * b2.1 + b2.0 * a2.1) * (a.1 * b.1) == (a2.0 * b2.1) * (a.1 * b.1) + (b2.0 * a2.1)
        * (a.1 * b.1)) by (nonlinear_arith);
}

/// Differences of equal fractions are equal.
pub proof fn lemma_rat_sub_cong(a: (int, int), b: (int, int), a2: (int, int), b2: (int, int))
    requires
        rat_eq(a, a2),
        rat_eq(b, b2),
    ensures
        rat_eq(rat_sub(a, b), rat_sub(a2, b2)),
{
    assert((a.0 * b.1) * (a2.1 * b2.1) == (a2.0 * b2.1) * (a.1 * b.1)) by (nonlinear_arith)
        requires
            a.0 * a2.1 == a2.0 * a.1,
    ;
    assert((b.0 * a.1) * (a2.1 * b2.1) == (b2.0 * a2.1) * (a.1 * b.1)) by (nonlinear_arith)
        requires
            b.0 * b2.1 == b2.0 * b.1,
    ;
    assert((a.0 * b.1 - b.0 * a.1) * (a2.1 * b2.1) == (a.0 * b.1) * (a2.1 * b2.1) - (b.0 * a.1) * (
    a2.1 * b2.1)) by (nonlinear_arith);
    assert((a2.0 * b2.1 - b2.0 * a2.1) * (a.1 * b.1) == (a2.0 * b2.1) * (a.1 * b.1) - (b2.0 * a2.1)
        * (a.1 * b.1)) by (nonlinear_arith);
}

/// Products of equal fractions are equal.
pub proof fn lemma_rat_mul_cong(a: (int, int), b: (int, int), a2: (int, int), b2: (int, int))
    by (nonlinear_arith)
    requires
        rat_eq(a, a2),
        rat_eq(b, b2),
    ensures
        rat_eq(rat_mul(a, b), rat_mul(a2, b2)),
{
}

/// Quotients of equal fractions are equal.
pub proof fn lemma_rat_div_cong(a: (int, int), b: (int, int), a2: (int, int), b2: (int, int))
    requires
        rat_eq(a, a2),
        rat_eq(b, b2),
    ensures
        rat_eq(rat_div(a, b), rat_div(a2, b2)),
{
    assert((a.0 * b.1) * (a2.1 * b2.0) == (a2.0 * a.1) * (b.1 * b2.0)) by (nonlinear_arith)
        requires
            a.0 * a2.1 == a2.0 * a.1,
    ;
    assert((a2.0 * b2.1) * (a.1 * b.0) == (a2.0 * a.1) * (b.1 * b2.0)) by (nonlinear_arith)
        requires
            b.0 * b2.1 == b2.0 * b.1,
    ;
}

/// Dividing by a fraction and multiplying by it again gives the value back.
pub proof fn lemma_rat_div_mul_cancel(a: (int, int), b: (int, int))
    by (nonlinear_arith)
    ensures
        rat_eq(rat_mul(rat_div(a, b), b), a),
{
}





/// An order between fractions carries over to equal fractions, weakly.
pub proof fn lemma_rat_le_cong(a: (int, int), b: (int, int), a2: (int, int), b2: (int, int))
    requires
        rat_le(a, b),
        rat_eq(a, a2),
        rat_eq(b, b2),
        1 <= a.1,
        1 <= b.1,
        1 <= a2.1,
        1 <= b2.1,
    ensures
        rat_le(a2, b2),
{
    assert((a.0 * b.1) * (a2.1 * b2.1) <= (b.0 * a.1) * (a2.1 * b2.1)) by (nonlinear_arith)
        requires
            a.0 * b.1 <= b.0 * a.1,
            1 <= a2.1,
            1 <= b2.1,
    ;
    assert((a.0 * b.1) * (a2.1 * b2.1) == (a2.0 * b2.1) * (a.1 * b.1)) by (nonlinear_arith)
        requires
            a.0 * a2.1 == a2.0 * a.1,
    ;
    assert((b.0 * a.1) * (a2.1 * b2.1) == (b2.0 * a2.1) * (a.1 * b.1)) by (nonlinear_arith)
        requires
            b.0 * b2.1 == b2.0 * b.1,
    ;
    assert(a2.0 * b2.1 <= b2.0 * a2.1) by (nonlinear_arith)
        requires
            (a2.0 * b2.1) * (a.1 * b.1) <= (b2.0 * a2.1) * (a.1 * b.1),
            1 <= a.1,
            1 <= b.1,
    ;
}

/// The weak order on fractions is transitive.
pub proof fn lemma_rat_le_trans(a: (int, int), b: (int, int), c: (int, int))
    requires
        rat_le(a, b),
        rat_le(b, c),
        1 <= a.1,
        1 <= b.1,
        1 <= c.1,
    ensures
        rat_le(a, c),
{
    assert((a.0 * c.1) * b.1 <= (c.0 * a.1) * b.1) by (nonlinear_arith)
        requires
            a.0 * b.1 <= b.0 * a.1,
            b.0 * c.1 <= c.0 * b.1,
            1 <= a.1,
            1 <= c.1,
    ;
    assert(a.0 * c.1 <= c.0 * a.1) by (nonlinear_arith)
        requires
            (a.0 * c.1) * b.1 <= (c.0 * a.1) * b.1,
            1 <= b.1,
    ;
}

/// Subtracting a non-negative fraction never increases the value.
pub proof fn lemma_rat_sub_nonneg_le(p: (int, int), d: (int, int))
    by (nonlinear_arith)
    requires
        0 <= d.0,
        1 <= d.1,
        1 <= p.1,
    ensures
        rat_le(rat_sub(p, d), p),
{
}

/// Scaling both sides of an order by a positive factor keeps the order.
pub proof fn lemma_rat_mul_le_right(a: (int, int), b: (int, int), m: (int, int))
    by (nonlinear_arith)
    requires
        rat_le(a, b),
        1 <= a.1,
        1 <= b.1,
        1 <= m.0,
        1 <= m.1,
    ensures
        rat_le(rat_mul(a, m), rat_mul(b, m)),
{
}

/// The strict order on fractions is transitive.
pub proof fn lemma_rat_lt_trans(a: (int, int), b: (int, int), c: (int, int))
    requires
        rat_lt(a, b),
        rat_lt(b, c),
        1 <= a.1,
        1 <= b.1,
        1 <= c.1,
    ensures
        rat_lt(a, c),
{
    assert((a.0 * c.1) * b.1 < (c.0 * a.1) * b.1) by (nonlinear_arith)
        requires
            a.0 * b.1 < b.0 * a.1,
            b.0 * c.1 < c.0 * b.1,
            1 <= a.1,
            1 <= c.1,
    ;
    assert(a.0 * c.1 < c.0 * a.1) by (nonlinear_arith)
        requires
            (a.0 * c.1) * b.1 < (c.0 * a.1) * b.1,
            1 <= b.1,
    ;
}

/// A weak bound followed by a strict one is strict.
pub proof fn lemma_rat_le_lt_trans(a: (int, int), b: (int, int), c: (int, int))
    requires
        rat_le(a, b),
        rat_lt(b, c),
        1 <= a.1,
        1 <= b.1,
        1 <= c.1,
    ensures
        rat_lt(a, c),
{
    assert((a.0 * c.1) * b.1 < (c.0 * a.1) * b.1) by (nonlinear_arith)
        requires
            a.0 * b.1 <= b.0 * a.1,
            b.0 * c.1 < c.0 * b.1,
            1 <= a.1,
            1 <= c.1,
    ;
    assert(a.0 * c.1 < c.0 * a.1) by (nonlinear_arith)
        requires
            (a.0 * c.1) * b.1 < (c.0 * a.1) * b.1,
            1 <= b.1,
    ;
}




/// A strict order between fractions carries over to equal fractions.
pub proof fn lemma_rat_lt_cong(a: (int, int), b: (int, int), a2: (int, int), b2: (int, int))
    requires
        rat_lt(a, b),
        rat_eq(a, a2),
        rat_eq(b, b2),
        1 <= a.1,
        1 <= b.1,
        1 <= a2.1,
        1 <= b2.1,
    ensures
        rat_lt(a2, b2),
{
    assert((a.0 * b.1) * (a2.1 * b2.1) < (b.0 * a.1) * (a2.1 * b2.1)) by (nonlinear_arith)
        requires
            a.0 * b.1 < b.0 * a.1,
            1 <= a2.1,
            1 <= b2.1,
    ;
    assert((a.0 * b.1) * (a2.1 * b2.1) == (a2.0 * b2.1) * (a.1 * b.1)) by (nonlinear_arith)
        requires
            a.0 * a2.1 == a2.0 * a.1,
    ;
    assert((b.0 * a.1) * (a2.1 * b2.1) == (b2.0 * a2.1) * (a.1 * b.1)) by (nonlinear_arith)
        requires
            b.0 * b2.1 == b2.0 * b.1,
    ;
    assert(a2.0 * b2.1 < b2.0 * a2.1) by (nonlinear_arith)
        requires
            (a2.0 * b2.1) * (a.1 * b.1) < (b2.0 * a2.1) * (a.1 * b.1),
            1 <= a.1,
            1 <= b.1,
    ;
}

/// An exact rational number `num / den`, held in canonical form.
#[derive(Clone, Copy, PartialEq, Eq, Structural, Debug)]
pub struct Rational {
    num: i64,
    den: i64,
}

impl View for Rational {
    type V = (int, int);

    closed spec fn view(&self) -> (int, int) {
        (self.num as int, self.den as int)
    }
}

/// Greatest common divisor of two machine integers, by Euclid's algorithm.
fn gcd_u128(a: u128, b: u128) -> (g: u128)
    ensures
        g as nat == spec_gcd(a as nat, b as nat),
{
    let mut x = a;
    let mut y = b;
    while y != 0
        invariant
            spec_gcd(x as nat, y as nat) == spec_gcd(a as nat, b as nat),
        decreases y,
    {
        proof {
            lemma_mod_division_less_than_divisor(x as int, y as int);
        }
        let r = x % y;
        x = y;
        y = r;
    }
    x
}

/// Bring the fraction `n / d` into canonical form, when it fits the
/// executable range.
fn normalize(n: i128, d: i128) -> (r: Option<Rational>)
    requires
        d != 0,
        i128::MIN < n,
        i128::MIN < d,
    ensures
        fits(rat_norm((n as int, d as int))) ==> (r matches Some(q) && q@ == rat_norm(
            (n as int, d as int),
        ) && q.wf()),
        !fits(rat_norm((n as int, d as int))) ==> r is None,
{
    let p: Ghost<(int, int)> = Ghost((n as int, d as int));
    let neg = (n < 0) != (d < 0);
    let na: u128 = if n < 0 {
        (-n) as u128
    } else {
        n as u128
    };
    let da: u128 = if d < 0 {
        (-d) as u128
    } else {
        d as u128
    };
    proof {
        assert(na as nat == abs_n(p@.0));
        assert(da as nat == abs_n(p@.1));
        lemma_gcd_properties(na as nat, da as nat);
    }
    let g = gcd_u128(na, da);
    proof {
        lemma_fundamental_div_mod(na as int, g as int);
        lemma_fundamental_div_mod(da as int, g as int);
        lemma_mul_div_bounds(g as int, da as int / g as int, da as int);
        lemma_div_pos_is_pos(na as int, g as int);
    }
    let rn = na / g;
    let rd = da / g;
    proof {
        assert(rat_norm(p@).1 == rd as int);
        assert(rat_norm(p@).0 == pair_sign(p@) * rn as int);
        assert(pair_sign(p@) == if neg { -1int } else { 1int });
    }
    if rd > 0x7fff_ffff_ffff_ffffu128 {
        return None;
    }
    if neg {
        if rn > 0x8000_0000_0000_0000u128 {
            return None;
        }
        let num: i64 = if rn == 0x8000_0000_0000_0000u128 {
            i64::MIN
        } else {
            -(rn as i64)
        };
        Some(Rational { num, den: rd as i64 })
    } else {
        if rn > 0x7fff_ffff_ffff_ffffu128 {
            return None;
        }
        Some(Rational { num: rn as i64, den: rd as i64 })
    }
}

impl Rational {
    /// Well-formed: the denominator is positive.
    pub open spec fn wf(self) -> bool {
        1 <= self@.1
    }

    /// The rational number `num / den`, in canonical form.
    pub fn new(num: i64, den: i64) -> (r: Rational)
        requires
            den != 0,
            num != i64::MIN,
            den != i64::MIN,
        ensures
            r.wf(),
            r@ == rat_norm((num as int, den as int)),
            rat_eq(r@, (num as int, den as int)),
    {
        proof {
            let p = (num as int, den as int);
            lemma_norm_eq(p);
            assert(abs_n(p.0) <= i64::MAX);
            assert(abs_n(p.1) <= i64::MAX);
            assert(fits(rat_norm(p)));
        }
        let r = normalize(num as i128, den as i128);
        r.unwrap()
    }

    /// Whether the value is well formed; true of every value this module
    /// hands out.
    pub fn is_well_formed(&self) -> (r: bool)
        ensures
            r == self.wf(),
    {
        self.den >= 1
    }

    /// The numerator of the canonical form.
    pub fn numer(&self) -> (r: i64)
        ensures
            r as int == self@.0,
    {
        self.num
    }

    /// The denominator of the canonical form.
    pub fn denom(&self) -> (r: i64)
        ensures
            r as int == self@.1,
    {
        self.den
    }

    /// The rational number `1 / den`, which is already canonical.
    pub fn one_over(den: i64) -> (r: Rational)
        requires
            1 <= den,
        ensures
            r.wf(),
            r@ == (1int, den as int),
    {
        Rational { num: 1, den }
    }

    /// The rational number zero.
    pub fn zero() -> (r: Rational)
        ensures
            r.wf(),
            r@ == rat_zero(),
    {
        Rational { num: 0, den: 1 }
    }

    /// `self <= other` as rational numbers.
    pub fn le(&self, other: &Rational) -> (r: bool)
        requires
            self.wf(),
            other.wf(),
        ensures
            r == rat_le(self@, other@),
    {
        proof {
            lemma_i64_prod_bounds(self@.0, other@.1);
            lemma_i64_prod_bounds(other@.0, self@.1);
        }
        (self.num as i128) * (other.den as i128) <= (other.num as i128) * (self.den as i128)
    }

    /// `self < other` as rational numbers.
    pub fn lt(&self, other: &Rational) -> (r: bool)
        requires
            self.wf(),
            other.wf(),
        ensures
            r == rat_lt(self@, other@),
    {
        proof {
            lemma_i64_prod_bounds(self@.0, other@.1);
            lemma_i64_prod_bounds(other@.0, self@.1);
        }
        (self.num as i128) * (other.den as i128) < (other.num as i128) * (self.den as i128)
    }

    /// `self == other` as rational numbers.
    pub fn eq_val(&self, other: &Rational) -> (r: bool)
        requires
            self.wf(),
            other.wf(),
        ensures
            r == rat_eq(self@, other@),
    {
        proof {
            lemma_i64_prod_bounds(self@.0, other@.1);
            lemma_i64_prod_bounds(other@.0, self@.1);
        }
        (self.num as i128) * (other.den as i128) == (other.num as i128) * (self.den as i128)
    }

    /// Exact sum; `None` exactly when the canonical result does not fit.
    pub fn add(&self, other: &Rational) -> (r: Option<Rational>)
        requires
            self.wf(),
            other.wf(),
        ensures
            fits(rat_norm(rat_add(self@, other@))) ==> (r matches Some(q) && q@ == rat_norm(
                rat_add(self@, other@),
            ) && q.wf() && rat_eq(q@, rat_add(self@, other@))),
            !fits(rat_norm(rat_add(self@, other@))) ==> r is None,
    {
        proof {
            lemma_num_den_prod_bounds(self@.0, other@.1);
            lemma_num_den_prod_bounds(other@.0, self@.1);
            lemma_i64_prod_bounds(self@.1, other@.1);
            lemma_pos_prod(self@.1, other@.1);
            lemma_norm_eq(rat_add(self@, other@));
        }
        let n = (self.num as i128) * (other.den as i128) + (other.num as i128) * (self.den
            as i128);
        let d = (self.den as i128) * (other.den as i128);
        normalize(n, d)
    }

    /// Exact difference; `None` exactly when the canonical result does not fit.
    pub fn sub(&self, other: &Rational) -> (r: Option<Rational>)
        requires
            self.wf(),
            other.wf(),
        ensures
            fits(rat_norm(rat_sub(self@, other@))) ==> (r matches Some(q) && q@ == rat_norm(
                rat_sub(self@, other@),
            ) && q.wf() && rat_eq(q@, rat_sub(self@, other@))),
            !fits(rat_norm(rat_sub(self@, other@))) ==> r is None,
    {
        proof {
            lemma_num_den_prod_bounds(self@.0, other@.1);
            lemma_num_den_prod_bounds(other@.0, self@.1);
            lemma_i64_prod_bounds(self@.1, other@.1);
            lemma_pos_prod(self@.1, other@.1);
            lemma_norm_eq(rat_sub(self@, other@));
        }
        let n = (self.num as i128) * (other.den as i128) - (other.num as i128) * (self.den
            as i128);
        let d = (self.den as i128) * (other.den as i128);
        normalize(n, d)
    }

    /// Exact product; `None` exactly when the canonical result does not fit.
    pub fn mul(&self, other: &Rational) -> (r: Option<Rational>)
        requires
            self.wf(),
            other.wf(),
        ensures
            fits(rat_norm(rat_mul(self@, other@))) ==> (r matches Some(q) && q@ == rat_norm(
                rat_mul(self@, other@),
            ) && q.wf() && rat_eq(q@, rat_mul(self@, other@))),
            !fits(rat_norm(rat_mul(self@, other@))) ==> r is None,
    {
        proof {
            lemma_i64_prod_bounds(self@.0, other@.0);
            lemma_i64_prod_bounds(self@.1, other@.1);
            lemma_pos_prod(self@.1, other@.1);
            lemma_norm_eq(rat_mul(self@, other@));
        }
        let n = (self.num as i128) * (other.num as i128);
        let d = (self.den as i128) * (other.den as i128);
        normalize(n, d)
    }

    /// Exact quotient; `None` exactly when the canonical result does not fit.
    /// The divisor must be nonzero.
    pub fn div(&self, other: &Rational) -> (r: Option<Rational>)
        requires
            self.wf(),
            other.wf(),
            other@.0 != 0,
        ensures
            fits(rat_norm(rat_div(self@, other@))) ==> (r matches Some(q) && q@ == rat_norm(
                rat_div(self@, other@),
            ) && q.wf() && rat_eq(q@, rat_div(self@, other@))),
            !fits(rat_norm(rat_div(self@, other@))) ==> r is None,
    {
        proof {
            lemma_num_den_prod_bounds(self@.0, other@.1);
            lemma_num_den_prod_bounds(other@.0, self@.1);
            lemma_nonzero_prod(self@.1, other@.0);
            lemma_norm_eq(rat_div(self@, other@));
        }
        let n = (self.num as i128) * (other.den as i128);
        let d = (self.den as i128) * (other.num as i128);
        normalize(n, d)
    }
}

} // verus!
