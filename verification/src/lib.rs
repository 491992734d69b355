//! Energy loss of a charged projectile traversing a thin target, computed
//! from a tabulated stopping-power curve by table interpolation and a
//! fixed-step integration.
//!
//! All numbers are exact rationals, so the interpolation and integration
//! contracts state the exact value of every result.
#![allow(unused_imports)]

use vstd::prelude::*;

pub mod interpolation;
pub mod rational;

use crate::interpolation::{
    all_wf, interp_ok, interp_val, interpolate, sorted_strict, InterpolationResult,
};
use crate::rational::{
    fits, lemma_nonzero_prod, lemma_norm_eq, lemma_pos_prod, lemma_rat_div_mul_cancel,
    lemma_rat_eq_trans, lemma_rat_le_cong, lemma_rat_le_trans, lemma_rat_lt_trans,
    lemma_rat_mul_cong, lemma_rat_mul_le_right, lemma_rat_sub_cong, lemma_rat_sub_nonneg_le,
    rat_div, rat_eq, rat_le, rat_lt, rat_mul, rat_norm, rat_sub, rat_zero, Rational,
};

verus! {

/// The thickness is always divided into this many equal integration steps.
pub const STEP_COUNT: u64 = 100000;

/// Why a pair of sample vectors cannot form a table.
#[derive(Clone, Copy, PartialEq, Eq, Structural, Debug)]
pub enum TableError {
    /// The coordinate and value vectors differ in length.
    LengthMismatch,
    /// The table holds no sample at all.
    Empty,
    /// A sample is not a well-formed number.
    InvalidSample,
    /// The coordinates are not strictly ascending.
    NotSorted,
}

/// Why an energy-loss computation yields no value.
#[derive(Clone, Copy, PartialEq, Eq, Structural, Debug)]
pub enum ElossError {
    /// The projectile enters with no kinetic energy to lose.
    NonPositiveEnergy,
    /// A target cannot have negative areal thickness.
    NegativeThickness,
    /// Some exact intermediate value left the representable range.
    ValueOutOfRange,
}

/// A validated stopping-power curve: specific-energy coordinates `xs`,
/// strictly ascending, with the stopping power `ys` at each.
pub struct SampleTable {
    xs: Vec<Rational>,
    ys: Vec<Rational>,
}

impl View for SampleTable {
    type V = (Seq<Rational>, Seq<Rational>);

    closed spec fn view(&self) -> (Seq<Rational>, Seq<Rational>) {
        (self.xs@, self.ys@)
    }
}

impl SampleTable {
    /// The invariant every constructed table carries.
    pub open spec fn wf(self) -> bool {
        &&& self@.0.len() == self@.1.len()
        &&& self@.0.len() >= 1
        &&& all_wf(self@.0)
        &&& all_wf(self@.1)
        &&& sorted_strict(self@.0)
    }

    /// Validate and take ownership of a pair of sample vectors.
    pub fn new(xs: Vec<Rational>, ys: Vec<Rational>) -> (r: Result<SampleTable, TableError>)
        ensures
            match r {
                Ok(t) => t.wf() && t@.0 == xs@ && t@.1 == ys@,
                Err(TableError::LengthMismatch) => xs@.len() != ys@.len(),
                Err(TableError::Empty) => xs@.len() == ys@.len() && xs@.len() == 0,
                Err(TableError::InvalidSample) => xs@.len() == ys@.len() && xs@.len() >= 1 && !(
                all_wf(xs@) && all_wf(ys@)),
                Err(TableError::NotSorted) => xs@.len() == ys@.len() && xs@.len() >= 1 && all_wf(
                    xs@,
                ) && all_wf(ys@) && !sorted_strict(xs@),
            },
    {
        if xs.len() != ys.len() {
            return Err(TableError::LengthMismatch);
        }
        if xs.len() == 0 {
            return Err(TableError::Empty);
        }
        let n = xs.len();
        let mut i: usize = 0;
        while i < n
            invariant
                n == xs@.len() == ys@.len(),
                0 <= i <= n,
                forall|j: int| 0 <= j < i ==> (#[trigger] xs@[j]).wf(),
                forall|j: int| 0 <= j < i ==> (#[trigger] ys@[j]).wf(),
            decreases n - i,
        {
            if !xs[i].is_well_formed() || !ys[i].is_well_formed() {
                return Err(TableError::InvalidSample);
            }
            proof {
                assert(xs@[i as int].wf());
                assert(ys@[i as int].wf());
            }
            i = i + 1;
        }
        let mut i: usize = 1;
        while i < n
            invariant
                n == xs@.len() == ys@.len(),
                n >= 1,
                1 <= i <= n,
                all_wf(xs@),
                all_wf(ys@),
                forall|p: int, q: int| 0 <= p < q < i ==> rat_lt(#[trigger] xs@[p]@, #[trigger] xs@[q]@),
            decreases n - i,
        {
            if !xs[i - 1].lt(&xs[i]) {
                return Err(TableError::NotSorted);
            }
            proof {
                assert forall|p: int, q: int| 0 <= p < q < i + 1 implies rat_lt(
                    #[trigger] xs@[p]@,
                    #[trigger] xs@[q]@,
                ) by {
                    if q == i && p < i - 1 {
                        lemma_rat_lt_trans(xs@[p]@, xs@[i - 1]@, xs@[i as int]@);
                    }
                }
            }
            i = i + 1;
        }
        Ok(SampleTable { xs, ys })
    }
}

/// One integration step from specific energy `u`: query the table at `u` for
/// the stopping power `s` and subtract the slab loss `s * d / mass`. Every
/// intermediate is brought to canonical form, as the executable arithmetic
/// leaves it.
pub open spec fn spec_step(
    xs: Seq<Rational>,
    ys: Seq<Rational>,
    u: (int, int),
    d: (int, int),
    mass: (int, int),
) -> (int, int) {
    let s = interp_val(xs, ys, u);
    let sd = rat_norm(rat_mul(s, d));
    let du = rat_norm(rat_div(sd, mass));
    rat_norm(rat_sub(u, du))
}

/// Whether that step stays representable.
pub open spec fn spec_step_ok(
    xs: Seq<Rational>,
    ys: Seq<Rational>,
    u: (int, int),
    d: (int, int),
    mass: (int, int),
) -> bool {
    let s = interp_val(xs, ys, u);
    let sd = rat_norm(rat_mul(s, d));
    let du = rat_norm(rat_div(sd, mass));
    interp_ok(xs, ys, u) && fits(sd) && fits(du) && fits(rat_norm(rat_sub(u, du)))
}

/// Specific energy after `k` steps of width `d`; the march freezes once the
/// energy is exhausted.
pub open spec fn spec_march(
    xs: Seq<Rational>,
    ys: Seq<Rational>,
    u: (int, int),
    d: (int, int),
    mass: (int, int),
    k: nat,
) -> (int, int)
    decreases k,
{
    if k == 0 {
        u
    } else {
        let prev = spec_march(xs, ys, u, d, mass, (k - 1) as nat);
        if rat_le(prev, rat_zero()) {
            prev
        } else {
            spec_step(xs, ys, prev, d, mass)
        }
    }
}

/// Every step of the march up to `k` is representable.
pub open spec fn spec_march_ok(
    xs: Seq<Rational>,
    ys: Seq<Rational>,
    u: (int, int),
    d: (int, int),
    mass: (int, int),
    k: nat,
) -> bool
    decreases k,
{
    if k == 0 {
        true
    } else {
        let prev = spec_march(xs, ys, u, d, mass, (k - 1) as nat);
        spec_march_ok(xs, ys, u, d, mass, (k - 1) as nat) && (rat_le(prev, rat_zero())
            || spec_step_ok(xs, ys, prev, d, mass))
    }
}

/// The initial specific energy: total energy over per-nucleon mass.
pub open spec fn spec_u0(e: (int, int), mass: (int, int)) -> (int, int) {
    rat_norm(rat_div(e, mass))
}

/// The step width: the thickness divided into `STEP_COUNT` equal slabs.
pub open spec fn spec_dstep(thick: (int, int)) -> (int, int) {
    rat_norm(rat_mul(thick, (1int, STEP_COUNT as int)))
}

/// How many steps the march takes: none for a zero thickness, else the
/// fixed count.
pub open spec fn spec_nsteps(thick: (int, int)) -> nat {
    if rat_le(thick, rat_zero()) {
        0
    } else {
        STEP_COUNT as nat
    }
}

/// The total energy lost: the entry energy minus what is left after the
/// march, converted back from specific energy.
pub open spec fn spec_loss(
    xs: Seq<Rational>,
    ys: Seq<Rational>,
    e: (int, int),
    mass: (int, int),
    thick: (int, int),
) -> (int, int) {
    let uf = spec_march(xs, ys, spec_u0(e, mass), spec_dstep(thick), mass, spec_nsteps(thick));
    rat_norm(rat_sub(e, rat_norm(rat_mul(uf, mass))))
}

/// Every quantity of the computation is representable.
pub open spec fn spec_loss_ok(
    xs: Seq<Rational>,
    ys: Seq<Rational>,
    e: (int, int),
    mass: (int, int),
    thick: (int, int),
) -> bool {
    let u0 = spec_u0(e, mass);
    let d = spec_dstep(thick);
    let uf = spec_march(xs, ys, u0, d, mass, spec_nsteps(thick));
    &&& fits(u0)
    &&& fits(d)
    &&& spec_march_ok(xs, ys, u0, d, mass, spec_nsteps(thick))
    &&& fits(rat_norm(rat_mul(uf, mass)))
    &&& fits(rat_norm(rat_sub(e, rat_norm(rat_mul(uf, mass)))))
}

/// A march that is representable up to `kk` is representable up to any
/// earlier point.
proof fn lemma_march_ok_prefix(
    xs: Seq<Rational>,
    ys: Seq<Rational>,
    u: (int, int),
    d: (int, int),
    mass: (int, int),
    k: nat,
    kk: nat,
)
    requires
        k <= kk,
        spec_march_ok(xs, ys, u, d, mass, kk),
    ensures
        spec_march_ok(xs, ys, u, d, mass, k),
    decreases kk,
{
    if k < kk {
        lemma_march_ok_prefix(xs, ys, u, d, mass, k, (kk - 1) as nat);
    }
}

/// Once the energy is exhausted the march no longer moves.
proof fn lemma_march_frozen(
    xs: Seq<Rational>,
    ys: Seq<Rational>,
    u: (int, int),
    d: (int, int),
    mass: (int, int),
    k: nat,
    kk: nat,
)
    requires
        k <= kk,
        rat_le(spec_march(xs, ys, u, d, mass, k), rat_zero()),
    ensures
        spec_march(xs, ys, u, d, mass, kk) == spec_march(xs, ys, u, d, mass, k),
        spec_march_ok(xs, ys, u, d, mass, k) ==> spec_march_ok(xs, ys, u, d, mass, kk),
    decreases kk,
{
    if k < kk {
        lemma_march_frozen(xs, ys, u, d, mass, k, (kk - 1) as nat);
    }
}

/// Compute the energy lost by a projectile of per-nucleon mass `mass` and
/// total kinetic energy `e` while it traverses a target of areal thickness
/// `thick`, against the stopping-power curve `table`.
///
/// The thickness is divided once into `STEP_COUNT` equal slabs; each step
/// queries the table at the current specific energy `u = e / mass` and
/// subtracts the slab loss, until the thickness is exhausted or the particle
/// has stopped (`u <= 0`, range-out). The result is the exact value of that
/// march; callers can detect a full stop by comparing the returned loss to
/// `e`. A non-positive energy and a negative thickness are rejected, and
/// `ValueOutOfRange` is returned exactly when some exact intermediate of the
/// march leaves the representable range.
pub fn eloss(mass: &Rational, e: &Rational, table: &SampleTable, thick: &Rational) -> (r: Result<
    Rational,
    ElossError,
>)
    requires
        mass.wf(),
        e.wf(),
        thick.wf(),
        table.wf(),
        rat_lt(rat_zero(), mass@),
    ensures
        r == Err::<Rational, ElossError>(ElossError::NonPositiveEnergy) <==> rat_le(
            e@,
            rat_zero(),
        ),
        rat_lt(rat_zero(), e@) ==> (r == Err::<Rational, ElossError>(
            ElossError::NegativeThickness,
        ) <==> rat_lt(thick@, rat_zero())),
        (rat_lt(rat_zero(), e@) && rat_le(rat_zero(), thick@)) ==> (r is Ok <==> spec_loss_ok(
            table@.0,
            table@.1,
            e@,
            mass@,
            thick@,
        )),
        r matches Ok(l) ==> l.wf() && l@ == spec_loss(table@.0, table@.1, e@, mass@, thick@),
        // A zero thickness loses no energy.
        rat_eq(thick@, rat_zero()) ==> (match r {
            Ok(l) => rat_eq(l@, rat_zero()),
            Err(_) => true,
        }),
{
    let zero = Rational::zero();
    if e.le(&zero) {
        return Err(ElossError::NonPositiveEnergy);
    }
    if thick.lt(&zero) {
        return Err(ElossError::NegativeThickness);
    }
    let ghost xs = table@.0;
    let ghost ys = table@.1;
    proof {
        lemma_nonzero_prod(e@.1, mass@.0);
    }
    let mut u = match e.div(mass) {
        Some(v) => v,
        None => {
            return Err(ElossError::ValueOutOfRange);
        },
    };
    let step_frac = Rational::one_over(100000);
    proof {
        lemma_pos_prod(thick@.1, step_frac@.1);
    }
    let d = match thick.mul(&step_frac) {
        Some(v) => v,
        None => {
            return Err(ElossError::ValueOutOfRange);
        },
    };
    let ghost u0 = u@;
    if zero.lt(thick) {
        let mut k: u64 = 0;
        while k < STEP_COUNT && zero.lt(&u)
            invariant
                0 <= k <= STEP_COUNT,
                zero@ == rat_zero(),
                u.wf(),
                d.wf(),
                mass.wf(),
                e.wf(),
                thick.wf(),
                table.wf(),
                xs == table@.0,
                ys == table@.1,
                rat_lt(rat_zero(), mass@),
                rat_lt(rat_zero(), e@),
                rat_lt(rat_zero(), thick@),
                u0 == spec_u0(e@, mass@),
                d@ == spec_dstep(thick@),
                u@ == spec_march(xs, ys, u0, d@, mass@, k as nat),
                spec_march_ok(xs, ys, u0, d@, mass@, k as nat),
            decreases STEP_COUNT - k,
        {
            let ghost prev = u@;
            let s = match interpolate(&u, &table.xs, &table.ys) {
                Some(v) => v,
                None => {
                    proof {
                        lemma_march_ok_not(xs, ys, u0, d@, mass@, k as nat);
                    }
                    return Err(ElossError::ValueOutOfRange);
                },
            };
            let sval = match s {
                InterpolationResult::InterpolatedValue(v) => v,
                InterpolationResult::ExtrapolatedValue(v) => v,
                InterpolationResult::NoValue => {
                    proof {
                        assert(false);
                    }
                    return Err(ElossError::ValueOutOfRange);
                },
            };
            proof {
                lemma_pos_prod(sval@.1, d@.1);
            }
            let sd = match sval.mul(&d) {
                Some(v) => v,
                None => {
                    proof {
                        lemma_march_ok_not(xs, ys, u0, d@, mass@, k as nat);
                    }
                    return Err(ElossError::ValueOutOfRange);
                },
            };
            proof {
                lemma_nonzero_prod(sd@.1, mass@.0);
            }
            let du = match sd.div(mass) {
                Some(v) => v,
                None => {
                    proof {
                        lemma_march_ok_not(xs, ys, u0, d@, mass@, k as nat);
                    }
                    return Err(ElossError::ValueOutOfRange);
                },
            };
            proof {
                lemma_pos_prod(u@.1, du@.1);
            }
            u = match u.sub(&du) {
                Some(v) => v,
                None => {
                    proof {
                        lemma_march_ok_not(xs, ys, u0, d@, mass@, k as nat);
                    }
                    return Err(ElossError::ValueOutOfRange);
                },
            };
            k = k + 1;
        }
        proof {
            if k < STEP_COUNT {
                lemma_march_frozen(xs, ys, u0, d@, mass@, k as nat, STEP_COUNT as nat);
            }
        }
    }
    proof {
        lemma_pos_prod(u@.1, mass@.1);
    }
    let um = match u.mul(mass) {
        Some(v) => v,
        None => {
            return Err(ElossError::ValueOutOfRange);
        },
    };
    proof {
        lemma_pos_prod(e@.1, um@.1);
    }
    let l = match e.sub(&um) {
        Some(v) => v,
        None => {
            return Err(ElossError::ValueOutOfRange);
        },
    };
    proof {
        if rat_eq(thick@, rat_zero()) {
            lemma_loss_zero_thickness(xs, ys, e@, mass@, thick@);
        }
    }
    Ok(l)
}

/// Law: a zero thickness loses no energy — the exact loss of the march is
/// the rational number zero.
pub proof fn lemma_loss_zero_thickness(
    xs: Seq<Rational>,
    ys: Seq<Rational>,
    e: (int, int),
    mass: (int, int),
    thick: (int, int),
)
    requires
        1 <= e.1,
        1 <= mass.1,
        1 <= mass.0,
        rat_eq(thick, rat_zero()),
    ensures
        rat_eq(spec_loss(xs, ys, e, mass, thick), rat_zero()),
{
    assert(rat_le(thick, rat_zero()));
    assert(spec_nsteps(thick) == 0);
    let u0 = spec_u0(e, mass);
    let dv = rat_div(e, mass);
    lemma_pos_prod(e.1, mass.0);
    lemma_norm_eq(dv);
    assert(spec_march(xs, ys, u0, spec_dstep(thick), mass, 0) == u0);
    let m1 = rat_mul(u0, mass);
    lemma_pos_prod(u0.1, mass.1);
    lemma_norm_eq(m1);
    lemma_rat_mul_cong(u0, mass, dv, mass);
    lemma_rat_div_mul_cancel(e, mass);
    lemma_pos_prod(dv.1, mass.1);
    lemma_rat_eq_trans(rat_norm(m1), m1, rat_mul(dv, mass));
    lemma_rat_eq_trans(rat_norm(m1), rat_mul(dv, mass), e);
    let sb = rat_sub(e, rat_norm(m1));
    lemma_pos_prod(e.1, rat_norm(m1).1);
    lemma_norm_eq(sb);
    lemma_rat_sub_cong(e, rat_norm(m1), e, e);
    lemma_pos_prod(e.1, e.1);
    lemma_rat_eq_trans(rat_norm(sb), sb, rat_sub(e, e));
    lemma_rat_eq_trans(rat_norm(sb), rat_sub(e, e), rat_zero());
}

/// Against a stopping-power curve that is non-negative everywhere queried,
/// the march never gains energy.
proof fn lemma_march_nonincreasing(
    xs: Seq<Rational>,
    ys: Seq<Rational>,
    e: (int, int),
    mass: (int, int),
    thick: (int, int),
    k: nat,
)
    requires
        1 <= e.1,
        1 <= mass.1,
        1 <= mass.0,
        1 <= thick.1,
        0 <= thick.0,
        forall|u: (int, int)|
            0 <= (#[trigger] interp_val(xs, ys, u)).0 && 1 <= interp_val(xs, ys, u).1,
    ensures
        1 <= spec_march(xs, ys, spec_u0(e, mass), spec_dstep(thick), mass, k).1,
        rat_le(spec_march(xs, ys, spec_u0(e, mass), spec_dstep(thick), mass, k), spec_u0(e, mass)),
    decreases k,
{
    let u0 = spec_u0(e, mass);
    lemma_pos_prod(e.1, mass.0);
    lemma_norm_eq(rat_div(e, mass));
    if k > 0 {
        lemma_march_nonincreasing(xs, ys, e, mass, thick, (k - 1) as nat);
        let prev = spec_march(xs, ys, u0, spec_dstep(thick), mass, (k - 1) as nat);
        if !rat_le(prev, rat_zero()) {
            let s = interp_val(xs, ys, prev);
            assert(0 <= s.0 && 1 <= s.1);
            let dex = rat_mul(thick, (1int, STEP_COUNT as int));
            let d = spec_dstep(thick);
            lemma_pos_prod(thick.1, STEP_COUNT as int);
            lemma_norm_eq(dex);
            assert(0 <= dex.0);
            lemma_rat_le_cong(rat_zero(), dex, rat_zero(), d);
            let sdx = rat_mul(s, d);
            lemma_pos_prod(s.1, d.1);
            lemma_norm_eq(sdx);
            let sd = rat_norm(sdx);
            assert(0 <= sdx.0) by (nonlinear_arith)
                requires
                    sdx.0 == s.0 * d.0,
                    0 <= s.0,
                    0 <= d.0,
            ;
            lemma_rat_le_cong(rat_zero(), sdx, rat_zero(), sd);
            let dux = rat_div(sd, mass);
            lemma_pos_prod(sd.1, mass.0);
            lemma_norm_eq(dux);
            let du = rat_norm(dux);
            assert(0 <= dux.0) by (nonlinear_arith)
                requires
                    dux.0 == sd.0 * mass.1,
                    0 <= sd.0,
                    1 <= mass.1,
            ;
            lemma_rat_le_cong(rat_zero(), dux, rat_zero(), du);
            let sb = rat_sub(prev, du);
            lemma_pos_prod(prev.1, du.1);
            lemma_norm_eq(sb);
            lemma_rat_sub_nonneg_le(prev, du);
            lemma_rat_le_cong(sb, prev, rat_norm(sb), prev);
            lemma_rat_le_trans(rat_norm(sb), prev, u0);
        }
    }
}

/// Law (one direction of thickness monotonicity, from its zero-thickness
/// baseline): against a stopping-power curve that is non-negative everywhere
/// queried, the exact energy loss of the march is never negative, whatever
/// the areal thickness.
pub proof fn lemma_loss_nonneg(
    xs: Seq<Rational>,
    ys: Seq<Rational>,
    e: (int, int),
    mass: (int, int),
    thick: (int, int),
)
    requires
        1 <= e.1,
        1 <= mass.1,
        1 <= mass.0,
        1 <= thick.1,
        0 <= thick.0,
        forall|u: (int, int)|
            0 <= (#[trigger] interp_val(xs, ys, u)).0 && 1 <= interp_val(xs, ys, u).1,
    ensures
        rat_le(rat_zero(), spec_loss(xs, ys, e, mass, thick)),
{
    lemma_march_nonincreasing(xs, ys, e, mass, thick, spec_nsteps(thick));
    let u0 = spec_u0(e, mass);
    let uf = spec_march(xs, ys, u0, spec_dstep(thick), mass, spec_nsteps(thick));
    lemma_pos_prod(e.1, mass.0);
    lemma_norm_eq(rat_div(e, mass));
    lemma_rat_mul_le_right(uf, u0, mass);
    lemma_rat_mul_cong(u0, mass, rat_div(e, mass), mass);
    lemma_rat_div_mul_cancel(e, mass);
    lemma_pos_prod(rat_div(e, mass).1, mass.1);
    lemma_rat_eq_trans(rat_mul(u0, mass), rat_mul(rat_div(e, mass), mass), e);
    let um = rat_norm(rat_mul(uf, mass));
    lemma_pos_prod(uf.1, mass.1);
    lemma_pos_prod(u0.1, mass.1);
    lemma_norm_eq(rat_mul(uf, mass));
    lemma_rat_le_cong(rat_mul(uf, mass), rat_mul(u0, mass), um, e);
    let sb = rat_sub(e, um);
    assert(rat_le(rat_zero(), sb));
    lemma_pos_prod(e.1, um.1);
    lemma_norm_eq(sb);
    lemma_rat_le_cong(rat_zero(), sb, rat_zero(), rat_norm(sb));
}

/// A march whose next step is not representable is not representable as a
/// whole.
proof fn lemma_march_ok_not(
    xs: Seq<Rational>,
    ys: Seq<Rational>,
    u: (int, int),
    d: (int, int),
    mass: (int, int),
    k: nat,
)
    requires
        k < STEP_COUNT as nat,
        spec_march_ok(xs, ys, u, d, mass, k),
        !rat_le(spec_march(xs, ys, u, d, mass, k), rat_zero()),
        !spec_step_ok(xs, ys, spec_march(xs, ys, u, d, mass, k), d, mass),
    ensures
        !spec_march_ok(xs, ys, u, d, mass, STEP_COUNT as nat),
{
    assert(!spec_march_ok(xs, ys, u, d, mass, (k + 1) as nat));
    if spec_march_ok(xs, ys, u, d, mass, STEP_COUNT as nat) {
        lemma_march_ok_prefix(xs, ys, u, d, mass, (k + 1) as nat, STEP_COUNT as nat);
    }
}

} // verus!
