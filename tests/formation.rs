use gbpplanner::formation::{
    check_formation, check_formation_group, check_shape, FormationError, FormationGroupError, PlacementStrategy,
    ShapeError, ShapeOutline,
};

/// The waypoint shapes of the default formation: three lines.
fn default_shapes() -> Vec<ShapeOutline> {
    vec![ShapeOutline::Line, ShapeOutline::Line, ShapeOutline::Line]
}

#[test]
fn default_is_valid() {
    assert!(matches!(check_formation(false, &default_shapes()), Ok(())));
}

#[test]
fn negative_time_is_invalid() {
    assert!(matches!(
        check_formation(true, &default_shapes()),
        Err(FormationError::NegativeTime)
    ));
}

#[test]
fn zero_waypoints_are_invalid() {
    assert!(matches!(
        check_formation(false, &vec![]),
        Err(FormationError::LessThanTwoWaypoints)
    ))
}

#[test]
fn one_waypoint_is_invalid() {
    assert!(matches!(
        check_formation(false, &vec![ShapeOutline::Line]),
        Err(FormationError::LessThanTwoWaypoints)
    ))
}

#[test]
fn zero_time_is_okay() {
    let delay: f32 = 0.0;
    assert!(matches!(check_formation(delay < 0.0, &default_shapes()), Ok(())));
}

#[test]
fn negative_time_comes_before_waypoint_count() {
    assert_eq!(check_formation(true, &vec![]), Err(FormationError::NegativeTime));
}

#[test]
fn first_bad_shape_is_reported() {
    let shapes = vec![
        ShapeOutline::Line,
        ShapeOutline::Circle { radius_positive: false },
        ShapeOutline::Polygon { vertices: 0 },
    ];
    assert_eq!(
        check_formation(false, &shapes),
        Err(FormationError::ShapeError(ShapeError::NegativeRadius))
    );
    let shapes = vec![
        ShapeOutline::Polygon { vertices: 3 },
        ShapeOutline::Polygon { vertices: 0 },
        ShapeOutline::Circle { radius_positive: false },
    ];
    assert_eq!(
        check_formation(false, &shapes),
        Err(FormationError::ShapeError(ShapeError::PolygonWithZeroVertices))
    );
}

#[test]
fn shapes_are_checked() {
    assert_eq!(check_shape(&ShapeOutline::Line), Ok(()));
    assert_eq!(check_shape(&ShapeOutline::Circle { radius_positive: true }), Ok(()));
    assert_eq!(check_shape(&ShapeOutline::Circle { radius_positive: false }), Err(ShapeError::NegativeRadius));
    assert_eq!(check_shape(&ShapeOutline::Polygon { vertices: 1 }), Ok(()));
    assert_eq!(
        check_shape(&ShapeOutline::Polygon { vertices: 0 }),
        Err(ShapeError::PolygonWithZeroVertices)
    );
}

#[test]
fn shape_error_converts_into_formation_error() {
    assert_eq!(
        FormationError::from(ShapeError::NegativeRadius),
        FormationError::ShapeError(ShapeError::NegativeRadius)
    );
}

#[test]
fn empty_group_is_invalid() {
    assert_eq!(check_formation_group(&vec![]), Err(FormationGroupError::NoFormations));
}

#[test]
fn group_of_valid_formations_is_valid() {
    assert_eq!(check_formation_group(&vec![Ok(()), Ok(())]), Ok(()));
}

#[test]
fn group_lists_each_invalid_formation() {
    let verdicts = vec![
        Ok(()),
        Err(FormationError::NegativeTime),
        Ok(()),
        Err(FormationError::LessThanTwoWaypoints),
    ];
    assert_eq!(
        check_formation_group(&verdicts),
        Err(FormationGroupError::InvalidFormations(vec![
            (1, FormationError::NegativeTime),
            (3, FormationError::LessThanTwoWaypoints)
        ]))
    );
}

#[test]
fn placement_strategy_predicates() {
    assert!(PlacementStrategy::Equal.is_equal());
    assert!(!PlacementStrategy::Equal.is_random());
    assert!(PlacementStrategy::Random.is_random());
    assert!(!PlacementStrategy::Random.is_equal());
    assert!(!PlacementStrategy::Mapped.is_equal());
    assert!(!PlacementStrategy::Mapped.is_random());
}
