use eloss::interpolation::{interpolate, InterpolationResult};
use eloss::rational::Rational;

fn r(n: i64, d: i64) -> Rational {
    Rational::new(n, d)
}

#[test]
fn interpolation() {
    let empty: Vec<Rational> = vec![];
    let x = interpolate(&r(0, 1), &empty, &empty).unwrap();
    assert!(!x.is_interp());
    assert!(!x.is_extrap());
    assert!(!x.is_value());
    assert_eq!(x, InterpolationResult::NoValue);

    let x = interpolate(&r(0, 1), &vec![r(0, 1)], &vec![r(1, 1)]).unwrap();
    assert!(x.is_interp());
    assert!(!x.is_extrap());
    assert!(x.is_value());
    assert_eq!(x.to_interp().unwrap(), r(1, 1));
    assert!(x.to_extrap().is_none());
    assert_eq!(x.to_value().unwrap(), r(1, 1));

    let x = interpolate(&r(10, 1), &vec![r(100, 1), r(200, 1)], &vec![r(3, 1), r(4, 1)]).unwrap();
    assert!(!x.is_interp());
    assert!(x.is_extrap());
    assert!(x.is_value());
    assert!(x.to_interp().is_none());
    assert_eq!(x.to_extrap().unwrap(), r(21, 10));
    assert_eq!(x.to_value().unwrap(), r(21, 10));

    let x = interpolate(&r(210, 1), &vec![r(100, 1), r(200, 1)], &vec![r(3, 1), r(4, 1)]).unwrap();
    assert!(!x.is_interp());
    assert!(x.is_extrap());
    assert!(x.is_value());
    assert!(x.to_interp().is_none());
    assert_eq!(x.to_extrap().unwrap(), r(41, 10));
    assert_eq!(x.to_value().unwrap(), r(41, 10));

    let x = interpolate(&r(100, 1), &vec![r(100, 1), r(200, 1)], &vec![r(3, 1), r(4, 1)]).unwrap();
    assert!(x.is_interp());
    assert!(!x.is_extrap());
    assert!(x.is_value());
    assert_eq!(x.to_interp().unwrap(), r(3, 1));
    assert!(x.to_extrap().is_none());
    assert_eq!(x.to_value().unwrap(), r(3, 1));

    let x = interpolate(&r(200, 1), &vec![r(100, 1), r(200, 1)], &vec![r(3, 1), r(4, 1)]).unwrap();
    assert!(x.is_interp());
    assert!(!x.is_extrap());
    assert!(x.is_value());
    assert_eq!(x.to_interp().unwrap(), r(4, 1));
    assert!(x.to_extrap().is_none());
    assert_eq!(x.to_value().unwrap(), r(4, 1));
}

#[test]
fn interior_query_lies_on_the_line() {
    // Midpoint of the segment from (100, 3) to (200, 4): exactly 3.5.
    let x = interpolate(&r(150, 1), &vec![r(100, 1), r(200, 1)], &vec![r(3, 1), r(4, 1)]).unwrap();
    assert!(x.is_interp());
    assert_eq!(x.to_interp().unwrap(), r(7, 2));
    // A quarter of the way: 3.25; the value lies strictly between 3 and 4.
    let x = interpolate(&r(125, 1), &vec![r(100, 1), r(200, 1)], &vec![r(3, 1), r(4, 1)]).unwrap();
    assert_eq!(x.to_interp().unwrap(), r(13, 4));
    // Fractional samples interpolate exactly too.
    let x = interpolate(&r(1, 2), &vec![r(0, 1), r(1, 1)], &vec![r(1, 3), r(2, 3)]).unwrap();
    assert_eq!(x.to_interp().unwrap(), r(1, 2));
}

#[test]
fn single_point_table_extrapolates_flat() {
    let xs = vec![r(100, 1)];
    let ys = vec![r(3, 1)];
    let x = interpolate(&r(100, 1), &xs, &ys).unwrap();
    assert_eq!(x, InterpolationResult::InterpolatedValue(r(3, 1)));
    let x = interpolate(&r(7, 5), &xs, &ys).unwrap();
    assert_eq!(x, InterpolationResult::ExtrapolatedValue(r(3, 1)));
    let x = interpolate(&r(100000, 1), &xs, &ys).unwrap();
    assert_eq!(x, InterpolationResult::ExtrapolatedValue(r(3, 1)));
    let x = interpolate(&r(-50, 1), &xs, &ys).unwrap();
    assert_eq!(x, InterpolationResult::ExtrapolatedValue(r(3, 1)));
}

#[test]
fn edge_extrapolation_uses_nearest_segment() {
    // Three segments with different slopes: below uses the first, above the
    // last. Below 0 on ys [10, 20, 100]: slope (20-10)/(10-0) = 1, so at -10
    // the value is 0; above 20: slope (100-20)/(20-10) = 8, at 30 it is 180.
    let xs = vec![r(0, 1), r(10, 1), r(20, 1)];
    let ys = vec![r(10, 1), r(20, 1), r(100, 1)];
    let x = interpolate(&r(-10, 1), &xs, &ys).unwrap();
    assert_eq!(x, InterpolationResult::ExtrapolatedValue(r(0, 1)));
    let x = interpolate(&r(30, 1), &xs, &ys).unwrap();
    assert_eq!(x, InterpolationResult::ExtrapolatedValue(r(180, 1)));
}

#[test]
fn unrepresentable_interpolation_yields_none() {
    // The segment slope is i64::MAX divided by 1/1000, which no 64-bit
    // canonical form can hold.
    let xs = vec![r(0, 1), r(1, 1000)];
    let ys = vec![r(0, 1), r(i64::MAX, 1)];
    assert!(interpolate(&r(1, 2000), &xs, &ys).is_none());
}
