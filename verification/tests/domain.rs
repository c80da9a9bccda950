use cdr_outline::domain::{
    points_are_continuous, ClosedPath, DomainError, Hole, HoleSettings, PathSegment, PointMm,
    PositiveMm,
};

fn point(x: f64, y: f64) -> PointMm {
    PointMm::new(x.to_bits(), y.to_bits())
}

fn millimeters(value: f64) -> PositiveMm {
    PositiveMm::try_new(value.to_bits()).unwrap()
}

#[test]
fn removes_repeated_closing_vertex() {
    let path = ClosedPath::try_from_vertices(vec![
        point(0.0, 0.0),
        point(10.0, 0.0),
        point(0.0, 10.0),
        point(0.0, 0.0),
    ])
    .unwrap();

    assert_eq!(path.segments().len(), 3);
}

#[test]
fn rejects_too_few_vertices() {
    let error =
        ClosedPath::try_from_vertices(vec![point(0.0, 0.0), point(10.0, 0.0)]).unwrap_err();

    assert_eq!(error, DomainError::TooFewVertices);
}

#[test]
fn rejects_non_finite_coordinates() {
    let error = ClosedPath::try_from_vertices(vec![
        point(0.0, 0.0),
        point(f64::NAN, 0.0),
        point(0.0, 10.0),
    ])
    .unwrap_err();

    assert_eq!(error, DomainError::NonFiniteCoordinate);
}

#[test]
fn accepts_a_closed_cubic_bezier() {
    let origin = point(0.0, 0.0);
    let path = ClosedPath::try_new(vec![PathSegment::CubicBezier {
        start: origin,
        control_start: point(10.0, 0.0),
        control_end: point(0.0, 10.0),
        end: origin,
    }])
    .unwrap();

    assert_eq!(path.segments().len(), 1);
}

#[test]
fn rejects_discontinuous_segments() {
    let error = ClosedPath::try_new(vec![
        PathSegment::Line {
            start: point(0.0, 0.0),
            end: point(1.0, 0.0),
        },
        PathSegment::Line {
            start: point(2.0, 0.0),
            end: point(0.0, 0.0),
        },
    ])
    .unwrap_err();

    assert_eq!(error, DomainError::DiscontinuousPath);
}

#[test]
fn rejects_an_open_path() {
    let error = ClosedPath::try_new(vec![
        PathSegment::Line {
            start: point(0.0, 0.0),
            end: point(1.0, 0.0),
        },
        PathSegment::Line {
            start: point(1.0, 0.0),
            end: point(2.0, 0.0),
        },
    ])
    .unwrap_err();

    assert_eq!(error, DomainError::OpenPath);
}

#[test]
fn positive_measurements_reject_zero() {
    let error = PositiveMm::try_new(0.0f64.to_bits()).unwrap_err();
    assert_eq!(error, DomainError::NonPositiveMeasurement);
}

#[test]
fn creates_a_positioned_hole() {
    let diameter = millimeters(3.0);
    let hole = Hole::try_new(point(10.0, 20.0), diameter).unwrap();

    assert_eq!(hole.center, point(10.0, 20.0));
    assert_eq!(f64::from_bits(hole.diameter.get()), 3.0);
}

#[test]
fn positioned_hole_rejects_a_non_finite_center() {
    let diameter = millimeters(3.0);
    let error = Hole::try_new(point(f64::INFINITY, 20.0), diameter).unwrap_err();

    assert_eq!(error, DomainError::NonFiniteCoordinate);
}

#[test]
fn stores_confirmed_hole_settings() {
    let settings = HoleSettings::new(millimeters(3.0), millimeters(2.0));

    assert_eq!(f64::from_bits(settings.diameter.get()), 3.0);
    assert_eq!(f64::from_bits(settings.edge_clearance.get()), 2.0);
}

#[test]
fn an_empty_path_is_rejected() {
    let error = ClosedPath::try_new(Vec::new()).unwrap_err();
    assert_eq!(error, DomainError::NoSegments);
}

#[test]
fn a_gap_of_a_billionth_keeps_a_path_together() {
    assert!(points_are_continuous(point(1.0, 1.0), point(1.0 + 9.0e-10, 1.0)));
    assert!(!points_are_continuous(point(1.0, 1.0), point(1.0 + 2.0e-9, 1.0)));
    assert!(!points_are_continuous(point(f64::INFINITY, 1.0), point(f64::INFINITY, 1.0)));
}

#[test]
fn zeros_of_both_signs_are_the_same_point() {
    assert!(point(0.0, -0.0) == point(-0.0, 0.0));
    assert!(point(f64::NAN, 0.0) != point(f64::NAN, 0.0));
}

#[test]
fn a_path_reversed_twice_is_the_path() {
    let path = ClosedPath::try_from_vertices(vec![
        point(0.0, 0.0),
        point(10.0, 0.0),
        point(0.0, 10.0),
    ])
    .unwrap();
    let reversed = path.reversed();
    assert!(reversed.segments()[0].start() == point(0.0, 0.0));
    assert!(reversed.segments()[0].end() == point(0.0, 10.0));
    let again = reversed.reversed();
    for (first, second) in path.segments().iter().zip(again.segments()) {
        assert!(first.start() == second.start());
        assert!(first.end() == second.end());
    }
}

#[test]
fn domain_errors_are_told() {
    assert_eq!(
        DomainError::OpenPath.message(),
        "the final path segment must end at the first point"
    );
}

#[test]
fn infinite_measurements_are_rejected() {
    let error = PositiveMm::try_new(f64::INFINITY.to_bits()).unwrap_err();
    assert_eq!(error, DomainError::NonFiniteMeasurement);
    assert_eq!(error.message(), "measurements must be finite");
}
