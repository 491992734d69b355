use eloss::rational::Rational;
use eloss::{eloss, ElossError, SampleTable, TableError};

fn r(n: i64, d: i64) -> Rational {
    Rational::new(n, d)
}

fn constant_table(s: Rational) -> SampleTable {
    SampleTable::new(vec![r(1, 1)], vec![s]).unwrap()
}

#[test]
fn table_validation() {
    assert!(matches!(
        SampleTable::new(vec![r(1, 1)], vec![]),
        Err(TableError::LengthMismatch)
    ));
    assert!(matches!(SampleTable::new(vec![], vec![]), Err(TableError::Empty)));
    assert!(matches!(
        SampleTable::new(vec![r(2, 1), r(1, 1)], vec![r(1, 1), r(1, 1)]),
        Err(TableError::NotSorted)
    ));
    assert!(matches!(
        SampleTable::new(vec![r(1, 1), r(1, 1)], vec![r(1, 1), r(1, 1)]),
        Err(TableError::NotSorted)
    ));
    assert!(SampleTable::new(vec![r(1, 2), r(3, 2)], vec![r(5, 1), r(7, 1)]).is_ok());
}

#[test]
fn zero_thickness_loses_nothing() {
    let table = constant_table(r(3, 1));
    let loss = eloss(&r(2, 1), &r(10, 1), &table, &r(0, 1)).unwrap();
    assert_eq!(loss, Rational::zero());
}

#[test]
fn constant_stopping_power_gives_exact_product() {
    // With a constant stopping power s and no range-out, the fixed-step march
    // telescopes to exactly s * thickness.
    let table = constant_table(r(2, 1));
    let loss = eloss(&r(1, 1), &r(10, 1), &table, &r(3, 1)).unwrap();
    assert_eq!(loss, r(6, 1));
    // The same with a fractional stopping power and mass.
    let table = constant_table(r(1, 2));
    let loss = eloss(&r(2, 1), &r(10, 1), &table, &r(4, 1)).unwrap();
    assert_eq!(loss, r(2, 1));
}

#[test]
fn loss_grows_with_thickness() {
    let table = constant_table(r(2, 1));
    let thin = eloss(&r(1, 1), &r(10, 1), &table, &r(1, 1)).unwrap();
    let thick = eloss(&r(1, 1), &r(10, 1), &table, &r(2, 1)).unwrap();
    assert_eq!(thin, r(2, 1));
    assert_eq!(thick, r(4, 1));
    assert!(thin.lt(&thick));
}

#[test]
fn range_out_stops_the_march() {
    // s * thickness would be 200, far more than the 10 units of energy the
    // projectile carries: it stops inside the target, and the reported loss
    // is the whole entry energy (up to one discretization step).
    let table = constant_table(r(2, 1));
    let loss = eloss(&r(1, 1), &r(10, 1), &table, &r(100, 1)).unwrap();
    assert!(r(10, 1).le(&loss));
    assert!(loss.le(&r(10002, 1000)));
}

#[test]
fn invalid_inputs_are_rejected() {
    let table = constant_table(r(2, 1));
    assert_eq!(
        eloss(&r(1, 1), &r(0, 1), &table, &r(1, 1)).unwrap_err(),
        ElossError::NonPositiveEnergy
    );
    assert_eq!(
        eloss(&r(1, 1), &r(-5, 1), &table, &r(1, 1)).unwrap_err(),
        ElossError::NonPositiveEnergy
    );
    assert_eq!(
        eloss(&r(1, 1), &r(10, 1), &table, &r(-1, 1)).unwrap_err(),
        ElossError::NegativeThickness
    );
}

#[test]
fn unrepresentable_march_is_reported() {
    // The first step subtracts 1/700000 from a huge specific energy; the
    // exact difference has no 64-bit canonical form.
    let table = constant_table(r(1, 1));
    assert_eq!(
        eloss(&r(1, 1), &r(9_000_000_000_000_000_000, 1), &table, &r(1, 7)).unwrap_err(),
        ElossError::ValueOutOfRange
    );
}

#[test]
fn two_point_curve_integrates() {
    // A flat two-point curve: every query falls in the interior of the
    // segment and interpolates to exactly 1, so the loss is the thickness.
    let table = SampleTable::new(vec![r(1, 1), r(100, 1)], vec![r(1, 1), r(1, 1)]).unwrap();
    let loss = eloss(&r(1, 1), &r(50, 1), &table, &r(1, 1)).unwrap();
    assert_eq!(loss, r(1, 1));
}
