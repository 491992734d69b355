//! Table lookup with linear interpolation and extrapolation over sorted
//! sample points.
//!
//! A query against the table `(xs, ys)` is classified: an exact hit or a
//! coordinate between two samples yields an interpolated value, a coordinate
//! outside the sampled range yields a value extrapolated linearly from the
//! nearest edge segment, and the empty table yields no value.

use crate::rational::{
    fits, lemma_norm_eq, lemma_nonzero_prod, lemma_pos_prod, lemma_rat_add_cong,
    lemma_rat_div_cong, lemma_rat_eq_trans, lemma_rat_le_lt_trans, lemma_rat_lt_cong, lemma_rat_lt_trans,
    lemma_rat_mul_cong,
    rat_add, rat_div, rat_eq, rat_le, rat_lt, rat_mul, rat_norm, rat_sub, Rational,
};
use vstd::prelude::*;

verus! {

/// Classified result of a table query.
#[derive(Clone, Copy, PartialEq, Eq, Structural, Debug)]
pub enum InterpolationResult {
    InterpolatedValue(Rational),
    ExtrapolatedValue(Rational),
    NoValue,
}

impl InterpolationResult {
    /// The query landed inside the sampled range.
    pub fn is_interp(&self) -> (r: bool)
        ensures
            r == (self is InterpolatedValue),
    {
        match *self {
            InterpolationResult::InterpolatedValue(_) => true,
            _ => false,
        }
    }

    /// The query landed outside the sampled range.
    pub fn is_extrap(&self) -> (r: bool)
        ensures
            r == (self is ExtrapolatedValue),
    {
        match *self {
            InterpolationResult::ExtrapolatedValue(_) => true,
            _ => false,
        }
    }

    /// The query produced a value at all.
    pub fn is_value(&self) -> (r: bool)
        ensures
            r == (self is InterpolatedValue || self is ExtrapolatedValue),
    {
        match *self {
            InterpolationResult::InterpolatedValue(_) | InterpolationResult::ExtrapolatedValue(_) => true,
            _ => false,
        }
    }

    /// The interpolated value, when there is one.
    pub fn to_interp(&self) -> (r: Option<Rational>)
        ensures
            r == (match *self {
                InterpolationResult::InterpolatedValue(v) => Some(v),
                _ => None::<Rational>,
            }),
    {
        match *self {
            InterpolationResult::InterpolatedValue(v) => Some(v),
            _ => None,
        }
    }

    /// The extrapolated value, when there is one.
    pub fn to_extrap(&self) -> (r: Option<Rational>)
        ensures
            r == (match *self {
                InterpolationResult::ExtrapolatedValue(v) => Some(v),
                _ => None::<Rational>,
            }),
    {
        match *self {
            InterpolationResult::ExtrapolatedValue(v) => Some(v),
            _ => None,
        }
    }

    /// The value regardless of its classification, when there is one.
    pub fn to_value(&self) -> (r: Option<Rational>)
        ensures
            r == (match *self {
                InterpolationResult::InterpolatedValue(v) => Some(v),
                InterpolationResult::ExtrapolatedValue(v) => Some(v),
                InterpolationResult::NoValue => None::<Rational>,
            }),
    {
        match *self {
            InterpolationResult::InterpolatedValue(v) | InterpolationResult::ExtrapolatedValue(v) => Some(v),
            InterpolationResult::NoValue => None,
        }
    }
}

/// Every sample in the sequence is well formed.
pub open spec fn all_wf(s: Seq<Rational>) -> bool {
    forall|i: int| 0 <= i < s.len() ==> (#[trigger] s[i]).wf()
}

/// The coordinates are sorted strictly ascending.
pub open spec fn sorted_strict(s: Seq<Rational>) -> bool {
    forall|i: int, j: int| 0 <= i < j < s.len() ==> rat_lt(#[trigger] s[i]@, #[trigger] s[j]@)
}

/// Index of the segment that `x` falls into: the least index whose coordinate
/// is at least `x`, or the length when every coordinate lies below `x`.
pub open spec fn seg_idx(xs: Seq<Rational>, x: (int, int)) -> int
    decreases xs.len(),
{
    if xs.len() == 0 {
        0
    } else if rat_le(x, xs[0]@) {
        0
    } else {
        1 + seg_idx(xs.skip(1), x)
    }
}

/// What `seg_idx` yields: everything before it lies strictly below `x`, and
/// the sample at it (when there is one) lies at or above `x`.
pub proof fn lemma_seg_idx_char(xs: Seq<Rational>, x: (int, int))
    ensures
        0 <= seg_idx(xs, x) <= xs.len(),
        forall|j: int| 0 <= j < seg_idx(xs, x) ==> rat_lt(#[trigger] xs[j]@, x),
        seg_idx(xs, x) < xs.len() ==> rat_le(x, xs[seg_idx(xs, x)]@),
    decreases xs.len(),
{
    if xs.len() == 0 {
    } else if rat_le(x, xs[0]@) {
    } else {
        lemma_seg_idx_char(xs.skip(1), x);
        assert forall|j: int| 0 <= j < seg_idx(xs, x) implies rat_lt(#[trigger] xs[j]@, x) by {
            if j > 0 {
                assert(xs.skip(1)[j - 1] == xs[j]);
            }
        }
        if seg_idx(xs, x) < xs.len() {
            assert(xs.skip(1)[seg_idx(xs, x) - 1] == xs[seg_idx(xs, x)]);
        }
    }
}

/// Exact value at `x` of the line through `(x0, y0)` and `(x1, y1)`, written
/// from the anchor point `(xa, ya)`:
/// `ya + (y1 - y0) / (x1 - x0) * (x - xa)`.
pub open spec fn line_exact(
    x0: (int, int),
    y0: (int, int),
    x1: (int, int),
    y1: (int, int),
    xa: (int, int),
    ya: (int, int),
    x: (int, int),
) -> (int, int) {
    rat_add(rat_mul(rat_div(rat_sub(y1, y0), rat_sub(x1, x0)), rat_sub(x, xa)), ya)
}

/// The value the staged evaluation of that line produces, canonical at each
/// of its steps; equal, as a rational number, to `line_exact`.
pub open spec fn line_val(
    x0: (int, int),
    y0: (int, int),
    x1: (int, int),
    y1: (int, int),
    xa: (int, int),
    ya: (int, int),
    x: (int, int),
) -> (int, int) {
    let dy = rat_norm(rat_sub(y1, y0));
    let dx = rat_norm(rat_sub(x1, x0));
    let sl = rat_norm(rat_div(dy, dx));
    let off = rat_norm(rat_sub(x, xa));
    let t = rat_norm(rat_mul(sl, off));
    rat_norm(rat_add(t, ya))
}

/// Every step of that staged evaluation stays representable.
pub open spec fn line_ok(
    x0: (int, int),
    y0: (int, int),
    x1: (int, int),
    y1: (int, int),
    xa: (int, int),
    ya: (int, int),
    x: (int, int),
) -> bool {
    let dy = rat_norm(rat_sub(y1, y0));
    let dx = rat_norm(rat_sub(x1, x0));
    let sl = rat_norm(rat_div(dy, dx));
    let off = rat_norm(rat_sub(x, xa));
    let t = rat_norm(rat_mul(sl, off));
    let v = rat_norm(rat_add(t, ya));
    fits(dy) && fits(dx) && fits(sl) && fits(off) && fits(t) && fits(v)
}

/// Evaluate the line through two distinct sample points at `x`.
fn line_value(
    x0: &Rational,
    y0: &Rational,
    x1: &Rational,
    y1: &Rational,
    xa: &Rational,
    ya: &Rational,
    x: &Rational,
) -> (r: Option<Rational>)
    requires
        x0.wf(),
        y0.wf(),
        x1.wf(),
        y1.wf(),
        xa.wf(),
        ya.wf(),
        x.wf(),
        !rat_eq(x0@, x1@),
    ensures
        line_ok(x0@, y0@, x1@, y1@, xa@, ya@, x@) ==> (r matches Some(v) && v.wf() && v@
            == line_val(x0@, y0@, x1@, y1@, xa@, ya@, x@) && rat_eq(
            v@,
            line_exact(x0@, y0@, x1@, y1@, xa@, ya@, x@),
        )),
        !line_ok(x0@, y0@, x1@, y1@, xa@, ya@, x@) ==> r is None,
{
    let ghost gdy = rat_sub(y1@, y0@);
    let ghost gdx = rat_sub(x1@, x0@);
    proof {
        lemma_pos_prod(y1@.1, y0@.1);
        lemma_pos_prod(x1@.1, x0@.1);
    }
    let dy = match y1.sub(y0) {
        Some(v) => v,
        None => {
            return None;
        },
    };
    let dx = match x1.sub(x0) {
        Some(v) => v,
        None => {
            return None;
        },
    };
    proof {
        lemma_norm_eq(gdx);
        assert(gdx.0 != 0);
        assert(dx@.0 != 0);
        lemma_nonzero_prod(dy@.1, dx@.0);
    }
    let ghost gsl = rat_div(dy@, dx@);
    let sl = match dy.div(&dx) {
        Some(v) => v,
        None => {
            return None;
        },
    };
    let ghost goff = rat_sub(x@, xa@);
    proof {
        lemma_pos_prod(x@.1, xa@.1);
    }
    let off = match x.sub(xa) {
        Some(v) => v,
        None => {
            return None;
        },
    };
    let ghost gt = rat_mul(sl@, off@);
    proof {
        lemma_pos_prod(sl@.1, off@.1);
    }
    let t = match sl.mul(&off) {
        Some(v) => v,
        None => {
            return None;
        },
    };
    let ghost gv = rat_add(t@, ya@);
    proof {
        lemma_pos_prod(t@.1, ya@.1);
    }
    let v = match t.add(ya) {
        Some(w) => w,
        None => {
            return None;
        },
    };
    proof {
        // Chain the value through each normalized step back to the exact line.
        lemma_norm_eq(gdy);
        lemma_norm_eq(gsl);
        lemma_norm_eq(goff);
        lemma_norm_eq(gt);
        lemma_norm_eq(gv);
        let exdy = rat_sub(y1@, y0@);
        let exdx = rat_sub(x1@, x0@);
        let exsl = rat_div(exdy, exdx);
        let exoff = rat_sub(x@, xa@);
        let ext = rat_mul(exsl, exoff);
        let exv = rat_add(ext, ya@);
        lemma_rat_div_cong(dy@, dx@, exdy, exdx);
        lemma_rat_eq_trans(sl@, gsl, exsl);
        lemma_rat_mul_cong(sl@, off@, exsl, exoff);
        lemma_rat_eq_trans(t@, gt, ext);
        lemma_rat_add_cong(t@, ya@, ext, ya@);
        lemma_rat_eq_trans(v@, gv, exv);
    }
    Some(v)
}

/// Least index whose coordinate is at least `x`; the length when none is.
fn scan_table(x: &Rational, xs: &Vec<Rational>) -> (i: usize)
    requires
        x.wf(),
        all_wf(xs@),
    ensures
        i as int == seg_idx(xs@, x@),
        0 <= i <= xs@.len(),
        forall|j: int| 0 <= j < i ==> rat_lt(#[trigger] xs@[j]@, x@),
        i < xs@.len() ==> rat_le(x@, xs@[i as int]@),
{
    let mut i: usize = 0;
    while i < xs.len() && xs[i].lt(x)
        invariant
            x.wf(),
            all_wf(xs@),
            0 <= i <= xs@.len(),
            forall|j: int| 0 <= j < i ==> rat_lt(#[trigger] xs@[j]@, x@),
        decreases xs@.len() - i,
    {
        i = i + 1;
    }
    proof {
        lemma_seg_idx_char(xs@, x@);
        let s = seg_idx(xs@, x@);
        if (i as int) < s {
            assert(rat_lt(xs@[i as int]@, x@));
        }
        if s < (i as int) {
            assert(rat_lt(xs@[s]@, x@));
        }
    }
    i
}

/// The query coordinate counts as lying within the sampled range: an exact
/// hit, or strictly between two neighbouring samples.
pub open spec fn query_within(xs: Seq<Rational>, x: (int, int)) -> bool {
    let i = seg_idx(xs, x);
    (i < xs.len() && rat_eq(xs[i]@, x)) || (0 < i < xs.len())
}

/// The exact value the interpolation routine yields for `x` against a
/// non-empty table, before classification.
pub open spec fn interp_val(xs: Seq<Rational>, ys: Seq<Rational>, x: (int, int)) -> (int, int) {
    let i = seg_idx(xs, x);
    let n = xs.len() as int;
    if i < n && rat_eq(xs[i]@, x) {
        ys[i]@
    } else if n == 1 {
        ys[0]@
    } else if i == 0 {
        line_val(xs[0]@, ys[0]@, xs[1]@, ys[1]@, xs[0]@, ys[0]@, x)
    } else if i == n {
        line_val(xs[n - 2]@, ys[n - 2]@, xs[n - 1]@, ys[n - 1]@, xs[n - 1]@, ys[n - 1]@, x)
    } else {
        line_val(xs[i - 1]@, ys[i - 1]@, xs[i]@, ys[i]@, xs[i - 1]@, ys[i - 1]@, x)
    }
}

/// That value is representable at every evaluation step.
pub open spec fn interp_ok(xs: Seq<Rational>, ys: Seq<Rational>, x: (int, int)) -> bool {
    let i = seg_idx(xs, x);
    let n = xs.len() as int;
    if i < n && rat_eq(xs[i]@, x) {
        true
    } else if n == 1 {
        true
    } else if i == 0 {
        line_ok(xs[0]@, ys[0]@, xs[1]@, ys[1]@, xs[0]@, ys[0]@, x)
    } else if i == n {
        line_ok(xs[n - 2]@, ys[n - 2]@, xs[n - 1]@, ys[n - 1]@, xs[n - 1]@, ys[n - 1]@, x)
    } else {
        line_ok(xs[i - 1]@, ys[i - 1]@, xs[i]@, ys[i]@, xs[i - 1]@, ys[i - 1]@, x)
    }
}

/// Query the sorted table `(xs, ys)` at the coordinate `x`.
///
/// An empty table yields `NoValue`. An exact hit at index `i` yields
/// `InterpolatedValue(ys[i])`; a coordinate strictly between two samples
/// yields the linear interpolation between them; a coordinate outside the
/// sampled range yields the linear extrapolation of the nearest edge segment,
/// flat when the table has a single point. `None` is returned exactly when
/// some step of the evaluation leaves the representable range.
pub fn interpolate(x: &Rational, xs: &Vec<Rational>, ys: &Vec<Rational>) -> (r: Option<
    InterpolationResult,
>)
    requires
        x.wf(),
        all_wf(xs@),
        all_wf(ys@),
        sorted_strict(xs@),
        xs@.len() == ys@.len(),
    ensures
        r is Some <==> (xs@.len() == 0 || interp_ok(xs@, ys@, x@)),
        xs@.len() == 0 ==> r == Some(InterpolationResult::NoValue),
        xs@.len() > 0 ==> r != Some(InterpolationResult::NoValue),
        r matches Some(InterpolationResult::InterpolatedValue(w)) ==> query_within(xs@, x@) && w@
            == interp_val(xs@, ys@, x@) && w.wf(),
        r matches Some(InterpolationResult::ExtrapolatedValue(w)) ==> xs@.len() > 0
            && !query_within(xs@, x@) && w@ == interp_val(xs@, ys@, x@) && w.wf(),
        // Exact hits return the tabulated value itself.
        forall|i: int|
            0 <= i < xs@.len() && rat_eq(x@, xs@[i]@) ==> r == Some(
                InterpolationResult::InterpolatedValue(ys@[i]),
            ),
        // A single-point table extrapolates flat.
        xs@.len() == 1 && !rat_eq(x@, xs@[0]@) ==> r == Some(
            InterpolationResult::ExtrapolatedValue(ys@[0]),
        ),
        // Below the range: linear projection of the first segment.
        (xs@.len() >= 2 && rat_lt(x@, xs@[0]@)) ==> (match r {
            Some(InterpolationResult::ExtrapolatedValue(w)) => rat_eq(
                w@,
                line_exact(xs@[0]@, ys@[0]@, xs@[1]@, ys@[1]@, xs@[0]@, ys@[0]@, x@),
            ),
            Some(_) => false,
            None => true,
        }),
        // Above the range: linear projection of the last segment.
        (xs@.len() >= 2 && rat_lt(xs@[xs@.len() - 1]@, x@)) ==> (match r {
            Some(InterpolationResult::ExtrapolatedValue(w)) => rat_eq(
                w@,
                line_exact(
                    xs@[xs@.len() - 2]@,
                    ys@[xs@.len() - 2]@,
                    xs@[xs@.len() - 1]@,
                    ys@[xs@.len() - 1]@,
                    xs@[xs@.len() - 1]@,
                    ys@[xs@.len() - 1]@,
                    x@,
                ),
            ),
            Some(_) => false,
            None => true,
        }),
        // Strictly between two neighbouring samples: linear interpolation.
        forall|i: int|
            (1 <= i < xs@.len() && rat_lt(xs@[i - 1]@, x@) && rat_lt(x@, xs@[i]@)) ==> (match r {
                Some(InterpolationResult::InterpolatedValue(w)) => rat_eq(
                    w@,
                    line_exact(
                        xs@[i - 1]@,
                        ys@[i - 1]@,
                        xs@[i]@,
                        ys@[i]@,
                        xs@[i - 1]@,
                        ys@[i - 1]@,
                        x@,
                    ),
                ),
                Some(_) => false,
                None => true,
            }),
{
    if xs.len() == 0 {
        return Some(InterpolationResult::NoValue);
    }
    let i = scan_table(x, xs);
    proof {
        lemma_uniqueness_of_position(xs@, x@, i as int);
    }
    if i < xs.len() && xs[i].eq_val(x) {
        proof {
            let gi = i as int;
            assert forall|j: int| 0 <= j < gi implies rat_lt(#[trigger] xs@[j]@, x@) by {
                lemma_rat_lt_cong(xs@[j]@, xs@[gi]@, xs@[j]@, x@);
            }
            assert forall|j: int| gi < j < xs@.len() implies rat_lt(x@, #[trigger] xs@[j]@) by {
                lemma_rat_lt_cong(xs@[gi]@, xs@[j]@, x@, xs@[j]@);
            }
        }
        return Some(InterpolationResult::InterpolatedValue(ys[i]));
    }
    proof {
        lemma_sides_of_position(xs@, x@, i as int);
    }
    if xs.len() == 1 {
        return Some(InterpolationResult::ExtrapolatedValue(ys[0]));
    }
    if i == 0 {
        match line_value(&xs[0], &ys[0], &xs[1], &ys[1], &xs[0], &ys[0], x) {
            Some(v) => Some(InterpolationResult::ExtrapolatedValue(v)),
            None => None,
        }
    } else if i == xs.len() {
        let n = xs.len();
        match line_value(&xs[n - 2], &ys[n - 2], &xs[n - 1], &ys[n - 1], &xs[n - 1], &ys[n - 1], x) {
            Some(v) => Some(InterpolationResult::ExtrapolatedValue(v)),
            None => None,
        }
    } else {
        match line_value(&xs[i - 1], &ys[i - 1], &xs[i], &ys[i], &xs[i - 1], &ys[i - 1], x) {
            Some(v) => Some(InterpolationResult::InterpolatedValue(v)),
            None => None,
        }
    }
}

/// Products commute.
proof fn lemma_mul_comm(a: int, b: int)
    by (nonlinear_arith)
    ensures
        a * b == b * a,
{
}

/// Multiplication distributes over sums and differences.
proof fn lemma_mul_dist(x: int, a: int, b: int)
    by (nonlinear_arith)
    ensures
        (a + b) * x == a * x + b * x,
        (a - b) * x == a * x - b * x,
        x * (a - b) == x * a - x * b,
{
}

/// A product of three factors can be rotated.
proof fn lemma_mul_rot(a: int, b: int, c: int)
    by (nonlinear_arith)
    ensures
        a * (b * c) == (a * c) * b,
        (a * b) * c == a * (c * b),
        (a * b) * c == (a * c) * b,
{
}

/// A product of four factors can be regrouped pairwise.
proof fn lemma_mul_pair(a: int, b: int, c: int, d: int)
    by (nonlinear_arith)
    ensures
        (a * b) * (c * d) == (b * d) * (a * c),
        ((a * b) * c) * d == (d * a) * (b * c),
{
}

/// Ring identity behind `lemma_interior_value_between`: the gap to the upper
/// sample value, written over the staged products.
proof fn lemma_between_num(
    v0: int,
    v1: int,
    t0: int,
    t1: int,
    p: int,
    q: int,
    y10: int,
    y11: int,
    y00: int,
    y01: int,
)
    requires
        v0 == t0 * y01 + y00 * t1,
        v1 == t1 * y01,
        p == y10 * y01 - y00 * y11,
        q == y11 * y01,
    ensures
        y10 * v1 - v0 * y11 == t1 * p - t0 * q,
{
    lemma_mul_rot(y10, t1, y01);
    lemma_mul_dist(y11, t0 * y01, y00 * t1);
    lemma_mul_rot(t0, y01, y11);
    lemma_mul_rot(y00, t1, y11);
    lemma_mul_comm(t1, p);
    lemma_mul_dist(t1, y10 * y01, y00 * y11);
}

/// Ring identity: that gap factors through the segment widths.
proof fn lemma_between_factor(t0: int, t1: int, p: int, q: int, r: int, w: int, o: int, z: int)
    requires
        t1 == (q * r) * z,
        t0 == (p * w) * o,
    ensures
        t1 * p - t0 * q == (p * q) * (r * z - w * o),
{
    lemma_mul_pair(q, r, z, p);
    lemma_mul_pair(p, w, o, q);
    lemma_mul_comm(q, p);
    lemma_mul_comm(r, z);
    lemma_mul_comm(w, o);
    lemma_mul_dist(p * q, r * z, w * o);
    assert(t1 * p == ((q * r) * z) * p);
    assert(((q * r) * z) * p == (p * q) * (r * z));
    assert(t0 * q == ((p * w) * o) * q);
    assert(((p * w) * o) * q == (q * p) * (w * o));
}

/// Ring identity: the width difference is a positive multiple of the
/// coordinate gap.
proof fn lemma_between_dx(
    r: int,
    w: int,
    o: int,
    z: int,
    x00: int,
    x01: int,
    x10: int,
    x11: int,
    xq0: int,
    xq1: int,
)
    requires
        r == x10 * x01 - x00 * x11,
        w == x11 * x01,
        o == xq0 * x01 - x00 * xq1,
        z == xq1 * x01,
    ensures
        r * z - w * o == (x01 * x01) * (x10 * xq1 - xq0 * x11),
{
    lemma_mul_dist(xq1 * x01, x10 * x01, x00 * x11);
    lemma_mul_dist(x11 * x01, xq0 * x01, x00 * xq1);
    lemma_mul_pair(x10, x01, xq1, x01);
    lemma_mul_pair(x00, x11, xq1, x01);
    lemma_mul_pair(x11, x01, xq0, x01);
    lemma_mul_comm(x11, xq0);
    lemma_mul_comm(x00, xq1);
    lemma_mul_pair(x11, x01, x00, xq1);
    lemma_mul_dist(x01 * x01, x10 * xq1, xq0 * x11);
}

/// A product of three positive factors is positive.
proof fn lemma_prod3_pos(a: int, b: int, c: int, d: int)
    by (nonlinear_arith)
    requires
        1 <= a,
        1 <= b,
        1 <= c,
        1 <= d,
    ensures
        1 <= ((a * b) * c) * d,
        1 <= (a * b) * c,
{
}

/// The same product with one negative factor is negative.
proof fn lemma_prod3_neg(a: int, b: int, c: int, d: int)
    by (nonlinear_arith)
    requires
        a <= -1,
        1 <= b,
        1 <= c,
        1 <= d,
    ensures
        ((a * b) * c) * d <= -1,
        (a * b) * c <= -1,
{
}

/// Law: strictly between two samples, the value on the connecting line lies
/// strictly between the two sample values whenever the curve is strictly
/// monotonic across the segment, and coincides with them when it is flat.
/// `interpolate` returns exactly this line value there.
pub proof fn lemma_interior_value_between(
    x0: (int, int),
    y0: (int, int),
    x1: (int, int),
    y1: (int, int),
    x: (int, int),
)
    requires
        1 <= x0.1,
        1 <= y0.1,
        1 <= x1.1,
        1 <= y1.1,
        1 <= x.1,
        rat_lt(x0, x),
        rat_lt(x, x1),
    ensures
        rat_lt(y0, y1) ==> rat_lt(y0, line_exact(x0, y0, x1, y1, x0, y0, x)) && rat_lt(
            line_exact(x0, y0, x1, y1, x0, y0, x),
            y1,
        ),
        rat_lt(y1, y0) ==> rat_lt(y1, line_exact(x0, y0, x1, y1, x0, y0, x)) && rat_lt(
            line_exact(x0, y0, x1, y1, x0, y0, x),
            y0,
        ),
        rat_eq(y0, y1) ==> rat_eq(line_exact(x0, y0, x1, y1, x0, y0, x), y0),
{
    lemma_rat_lt_trans(x0, x, x1);
    let dy = rat_sub(y1, y0);
    let p = dy.0;
    let q = dy.1;
    let dx = rat_sub(x1, x0);
    let r = dx.0;
    let w = dx.1;
    let off = rat_sub(x, x0);
    let o = off.0;
    let z = off.1;
    let sl = rat_div(dy, dx);
    let t = rat_mul(sl, off);
    let v = line_exact(x0, y0, x1, y1, x0, y0, x);
    lemma_pos_prod(y1.1, y0.1);
    lemma_pos_prod(x1.1, x0.1);
    lemma_pos_prod(x.1, x0.1);
    lemma_pos_prod(y0.1, y0.1);
    assert(1 <= o);
    assert(1 <= r);
    assert(v.0 == t.0 * y0.1 + y0.0 * t.1);
    assert(v.1 == t.1 * y0.1);
    assert(t.0 == (p * w) * o);
    assert(t.1 == (q * r) * z);
    assert(v.0 * y0.1 - y0.0 * v.1 == t.0 * (y0.1 * y0.1)) by (nonlinear_arith)
        requires
            v.0 == t.0 * y0.1 + y0.0 * t.1,
            v.1 == t.1 * y0.1,
    ;
    lemma_between_num(v.0, v.1, t.0, t.1, p, q, y1.0, y1.1, y0.0, y0.1);
    lemma_between_factor(t.0, t.1, p, q, r, w, o, z);
    lemma_between_dx(r, w, o, z, x0.0, x0.1, x1.0, x1.1, x.0, x.1);
    assert(1 <= x1.0 * x.1 - x.0 * x1.1);
    lemma_pos_prod(x0.1, x0.1);
    lemma_pos_prod(x0.1 * x0.1, x1.0 * x.1 - x.0 * x1.1);
    if rat_lt(y0, y1) {
        assert(1 <= p);
        lemma_prod3_pos(p, w, o, y0.1 * y0.1);
        assert(t.0 * (y0.1 * y0.1) == ((p * w) * o) * (y0.1 * y0.1));
        lemma_prod3_pos(p, q, r * z - w * o, 1);
        assert((p * q) * (r * z - w * o) >= 1);
    }
    if rat_lt(y1, y0) {
        assert(p <= -1);
        lemma_prod3_neg(p, w, o, y0.1 * y0.1);
        assert(t.0 * (y0.1 * y0.1) == ((p * w) * o) * (y0.1 * y0.1));
        lemma_prod3_neg(p, q, r * z - w * o, 1);
        assert((p * q) * (r * z - w * o) <= -1);
    }
    if rat_eq(y0, y1) {
        assert(p == 0);
        assert(t.0 == (0 * w) * o);
        assert(t.0 == 0) by (nonlinear_arith)
            requires
                t.0 == (0 * w) * o,
        ;
        assert(t.0 * (y0.1 * y0.1) == 0) by (nonlinear_arith)
            requires
                t.0 == 0,
        ;
    }
}

/// When the query is no exact hit, every sample lies strictly on one side
/// of it: those before the segment position below, the rest above.
proof fn lemma_sides_of_position(xs: Seq<Rational>, x: (int, int), i: int)
    requires
        all_wf(xs),
        sorted_strict(xs),
        1 <= x.1,
        i == seg_idx(xs, x),
        i < xs.len() ==> !rat_eq(xs[i]@, x),
    ensures
        forall|j: int| 0 <= j < i ==> rat_lt(#[trigger] xs[j]@, x),
        forall|j: int| i <= j < xs.len() ==> rat_lt(x, #[trigger] xs[j]@),
{
    lemma_seg_idx_char(xs, x);
    assert forall|j: int| i <= j < xs.len() implies rat_lt(x, #[trigger] xs[j]@) by {
        assert(rat_lt(x, xs[i]@));
        if j > i {
            lemma_rat_lt_trans(x, xs[i]@, xs[j]@);
        }
    }
}

/// In a sorted table, the segment position is the only index at which an
/// exact hit can occur, and the range cases exclude each other.
proof fn lemma_uniqueness_of_position(xs: Seq<Rational>, x: (int, int), i: int)
    requires
        all_wf(xs),
        sorted_strict(xs),
        1 <= x.1,
        i == seg_idx(xs, x),
    ensures
        forall|j: int|
            0 <= j < xs.len() && j != i ==> !rat_eq(x, #[trigger] xs[j]@) && !rat_eq(xs[j]@, x),
        i < xs.len() && rat_eq(xs[i]@, x) ==> forall|j: int|
            0 <= j < xs.len() && j != i ==> !rat_eq(x, #[trigger] xs[j]@),
{
    lemma_seg_idx_char(xs, x);
    assert forall|j: int| 0 <= j < xs.len() && j != i implies !rat_eq(x, #[trigger] xs[j]@)
        && !rat_eq(xs[j]@, x) by {
        if j < i {
            assert(rat_lt(xs[j]@, x));
        } else {
            assert(rat_le(x, xs[i]@));
            assert(rat_lt(xs[i]@, xs[j]@));
            lemma_rat_le_lt_trans(x, xs[i]@, xs[j]@);
        }
    }
}

} // verus!
