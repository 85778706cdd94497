//! The kinds of factors of a robot's factor graph and what each declares
//! about itself.

use vstd::prelude::*;

verus! {

/// A variable of another robot's factor graph, named by the robot and the
/// variable's index there.
#[derive(Debug, Clone, Copy, PartialEq, Eq, Structural)]
pub struct RemoteVariable {
    pub robot: usize,
    pub variable_index: usize,
}

/// The closed set of factor kinds.
#[derive(Debug, Clone, Copy, PartialEq, Eq, Structural)]
pub enum FactorKind {
    /// A soft prior pulling one variable toward a target pose.
    Pose,
    /// The motion model between consecutive states.
    Dynamic,
    /// Collision avoidance between this robot's variable and `remote`.
    InterRobot { remote: RemoteVariable },
    /// Distance to static obstacles.
    Obstacle,
    /// Following a reference path.
    Tracking,
}

/// How many variables a factor of kind `k` connects.
pub open spec fn kind_neighbours(k: FactorKind) -> nat {
    match k {
        FactorKind::InterRobot { .. } => 2,
        _ => 1,
    }
}

impl FactorKind {
    /// How many variables the factor connects: two for an inter-robot factor,
    /// one for every other kind.
    pub fn neighbours(&self) -> (r: usize)
        ensures
            r == kind_neighbours(*self),
    {
        match self {
            FactorKind::InterRobot { .. } => 2,
            _ => 1,
        }
    }

    /// Whether the factor's jacobian can be kept across iterations; none of
    /// these kinds allows it, so every factor is relinearized each iteration.
    pub fn linear(&self) -> (r: bool)
        ensures
            !r,
    {
        false
    }

    /// The robot on the other side of an inter-robot factor.
    pub fn remote_robot(&self) -> (r: Option<usize>)
        ensures
            r == match *self {
                FactorKind::InterRobot { remote } => Some(remote.robot),
                _ => None::<usize>,
            },
    {
        match self {
            FactorKind::InterRobot { remote } => Some(remote.robot),
            _ => None,
        }
    }
}

/// Number of variables a pose factor connects.
pub const POSE_FACTOR_NEIGHBORS: usize = 1;

/// Number of variables a tracking factor connects.
pub const TRACKING_FACTOR_NEIGHBORS: usize = 1;

/// A pose factor: its measurement is the identity, so it pulls its variable
/// toward a target pose.
#[derive(Debug, Clone, Copy, PartialEq, Eq, Structural)]
pub struct PoseFactor;

impl PoseFactor {
    /// The name shown for this factor kind.
    pub fn name(&self) -> (r: &'static str)
        ensures
            r@ == "PoseFactor"@,
    {
        "PoseFactor"
    }

    /// The colour shown for this factor kind, as red, green and blue.
    pub fn color(&self) -> (r: [u8; 3])
        ensures
            r@ == seq![198u8, 160u8, 246u8],
    {
        [198, 160, 246]
    }

    /// A pose factor always contributes.
    pub fn skip(&self) -> (r: bool)
        ensures
            !r,
    {
        false
    }

    /// A pose factor is relinearized every iteration.
    pub fn linear(&self) -> (r: bool)
        ensures
            !r,
    {
        false
    }

    /// A pose factor connects one variable.
    pub fn neighbours(&self) -> (r: usize)
        ensures
            r == POSE_FACTOR_NEIGHBORS,
            r == kind_neighbours(FactorKind::Pose),
    {
        POSE_FACTOR_NEIGHBORS
    }

    /// The factor kind this factor is.
    pub fn kind(&self) -> (r: FactorKind)
        ensures
            r == FactorKind::Pose,
    {
        FactorKind::Pose
    }
}

} // verus!
