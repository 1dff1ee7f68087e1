use finite_curve::{checked_curve, sum_on_curve, ParameterError, Point, SumOutcome};

#[test]
fn checked_curve_accepts_coefficients_inside_a_prime_field() {
    let curve = checked_curve(7, 1, 1).unwrap();
    assert_eq!((curve.a, curve.b), (1, 1));
    let curve = checked_curve(7, 6, 6).unwrap();
    assert_eq!((curve.a, curve.b), (6, 6));
    let curve = checked_curve(10007, 2, 3).unwrap();
    assert_eq!((curve.a, curve.b), (2, 3));
}

#[test]
fn checked_curve_refuses_a_composite_characteristic() {
    assert_eq!(checked_curve(8, 1, 1).err(), Some(ParameterError::NotPrime));
    assert_eq!(checked_curve(0, 1, 1).err(), Some(ParameterError::NotPrime));
    assert_eq!(checked_curve(1, 1, 1).err(), Some(ParameterError::NotPrime));
    assert_eq!(checked_curve(9, 0, 20).err(), Some(ParameterError::NotPrime));
}

#[test]
fn checked_curve_refuses_coefficients_out_of_range() {
    assert_eq!(checked_curve(7, 0, 1).err(), Some(ParameterError::CoefficientOutOfRange));
    assert_eq!(checked_curve(7, 1, 0).err(), Some(ParameterError::CoefficientOutOfRange));
    assert_eq!(checked_curve(7, 7, 1).err(), Some(ParameterError::CoefficientOutOfRange));
    assert_eq!(checked_curve(7, 1, 7).err(), Some(ParameterError::CoefficientOutOfRange));
    assert_eq!(checked_curve(7, 1, 8).err(), Some(ParameterError::CoefficientOutOfRange));
    assert_eq!(checked_curve(2, 1, 2).err(), Some(ParameterError::CoefficientOutOfRange));
}

#[test]
fn sum_on_curve_adds_points_of_the_curve() {
    let curve = checked_curve(7, 1, 1).unwrap();
    assert_eq!(
        sum_on_curve(Point { x: 0, y: 1 }, Point { x: 2, y: 2 }, &curve, 7),
        SumOutcome::Finite(Point { x: 0, y: 6 })
    );
    assert_eq!(
        sum_on_curve(Point { x: 2, y: 2 }, Point { x: 2, y: 2 }, &curve, 7),
        SumOutcome::Finite(Point { x: 0, y: 1 })
    );
}

#[test]
fn sum_on_curve_reports_the_vertical_line() {
    let curve = checked_curve(7, 1, 1).unwrap();
    assert_eq!(
        sum_on_curve(Point { x: 0, y: 1 }, Point { x: 0, y: 6 }, &curve, 7),
        SumOutcome::VerticalTangent
    );
    let curve = checked_curve(11, 2, 3).unwrap();
    assert_eq!(
        sum_on_curve(Point { x: 6, y: 0 }, Point { x: 6, y: 0 }, &curve, 11),
        SumOutcome::VerticalTangent
    );
}

#[test]
fn sum_on_curve_refuses_points_off_the_curve() {
    let curve = checked_curve(7, 1, 1).unwrap();
    assert_eq!(
        sum_on_curve(Point { x: 1, y: 1 }, Point { x: 2, y: 2 }, &curve, 7),
        SumOutcome::NotOnCurve
    );
    assert_eq!(
        sum_on_curve(Point { x: 2, y: 2 }, Point { x: 3, y: 3 }, &curve, 7),
        SumOutcome::NotOnCurve
    );
    assert_eq!(
        sum_on_curve(Point { x: 1, y: 1 }, Point { x: 1, y: 1 }, &curve, 7),
        SumOutcome::NotOnCurve
    );
}

#[test]
fn sum_on_curve_with_the_demonstration_points() {
    let p = Point { x: 2130, y: 2999 };
    let q = Point { x: 8592, y: 2572 };
    let curve = checked_curve(10007, 2, 3).unwrap();
    assert_eq!(sum_on_curve(p, q, &curve, 10007), SumOutcome::NotOnCurve);
}

#[test]
fn sum_on_curve_with_the_demonstration_points_on_their_curve() {
    let p = Point { x: 2130, y: 2999 };
    let q = Point { x: 8592, y: 2572 };
    let curve = checked_curve(10007, 2008, 6452).unwrap();
    assert_eq!(
        sum_on_curve(p, q, &curve, 10007),
        SumOutcome::Finite(Point { x: 1096, y: 6472 })
    );
    assert_eq!(
        sum_on_curve(q, p, &curve, 10007),
        SumOutcome::Finite(Point { x: 1096, y: 6472 })
    );
}
