use gbpplanner::factor::{FactorKind, PoseFactor, RemoteVariable, POSE_FACTOR_NEIGHBORS, TRACKING_FACTOR_NEIGHBORS};

#[test]
fn pose_factor_declarations() {
    let f = PoseFactor;
    assert_eq!(f.name(), "PoseFactor");
    assert_eq!(f.color(), [198, 160, 246]);
    assert!(!f.skip());
    assert!(!f.linear());
    assert_eq!(f.neighbours(), 1);
    assert_eq!(POSE_FACTOR_NEIGHBORS, 1);
    assert_eq!(f.kind(), FactorKind::Pose);
}

#[test]
fn factor_kind_neighbours() {
    let remote = RemoteVariable { robot: 3, variable_index: 2 };
    assert_eq!(FactorKind::InterRobot { remote }.neighbours(), 2);
    assert_eq!(FactorKind::Pose.neighbours(), 1);
    assert_eq!(FactorKind::Dynamic.neighbours(), 1);
    assert_eq!(FactorKind::Obstacle.neighbours(), 1);
    assert_eq!(FactorKind::Tracking.neighbours(), TRACKING_FACTOR_NEIGHBORS);
}

#[test]
fn factor_kind_remote_robot_and_linearity() {
    let remote = RemoteVariable { robot: 3, variable_index: 2 };
    assert_eq!(FactorKind::InterRobot { remote }.remote_robot(), Some(3));
    assert_eq!(FactorKind::Dynamic.remote_robot(), None);
    assert!(!FactorKind::InterRobot { remote }.linear());
    assert!(!FactorKind::Tracking.linear());
}
