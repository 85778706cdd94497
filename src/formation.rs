//! Validation of robot formations: how robots are placed at each waypoint and
//! which formations are accepted.

use vstd::prelude::*;

verus! {

/// How robots are placed along the shape of a waypoint.
#[derive(Debug, Clone, Copy, PartialEq, Eq, Structural)]
pub enum PlacementStrategy {
    Equal,
    Random,
    /// Placed by a mapping from the previous waypoint's placement.
    Mapped,
}

impl PlacementStrategy {
    /// Returns `true` if the placement strategy is `Equal`.
    pub fn is_equal(&self) -> (r: bool)
        ensures
            r <==> *self == PlacementStrategy::Equal,
    {
        matches!(self, PlacementStrategy::Equal)
    }

    /// Returns `true` if the placement strategy is `Random`.
    pub fn is_random(&self) -> (r: bool)
        ensures
            r <==> *self == PlacementStrategy::Random,
    {
        matches!(self, PlacementStrategy::Random)
    }
}

/// Why the shape of a waypoint is refused.
#[derive(Debug, Clone, Copy, PartialEq, Eq, Structural)]
pub enum ShapeError {
    /// A circle whose radius is not positive.
    NegativeRadius,
    /// A polygon without vertices.
    PolygonWithZeroVertices,
}

/// Why a formation is refused.
#[derive(Debug, Clone, Copy, PartialEq, Eq, Structural)]
pub enum FormationError {
    NegativeTime,
    ShapeError(ShapeError),
    LessThanTwoWaypoints,
    NoFormations,
    NoRobots,
}

impl From<ShapeError> for FormationError {
    fn from(e: ShapeError) -> (r: FormationError)
        ensures
            r == FormationError::ShapeError(e),
    {
        FormationError::ShapeError(e)
    }
}

impl vstd::std_specs::convert::FromSpecImpl<ShapeError> for FormationError {
    open spec fn obeys_from_spec() -> bool {
        true
    }

    open spec fn from_spec(e: ShapeError) -> FormationError {
        FormationError::ShapeError(e)
    }
}

/// Why a group of formations is refused.
#[derive(Debug, PartialEq, Eq)]
pub enum FormationGroupError {
    NoFormations,
    /// Each refused formation, by its index in the group, in order.
    InvalidFormations(Vec<(usize, FormationError)>),
}

/// What the validation of a waypoint's shape reads of it: its kind, whether a
/// circle's radius is positive, and how many vertices a polygon has.
#[derive(Debug, Clone, Copy, PartialEq, Eq, Structural)]
pub enum ShapeOutline {
    Circle { radius_positive: bool },
    Polygon { vertices: usize },
    Line,
}

/// The verdict on one shape.
pub open spec fn shape_verdict(s: ShapeOutline) -> Result<(), ShapeError> {
    match s {
        ShapeOutline::Circle { radius_positive } => if radius_positive {
            Ok(())
        } else {
            Err(ShapeError::NegativeRadius)
        },
        ShapeOutline::Polygon { vertices } => if vertices == 0 {
            Err(ShapeError::PolygonWithZeroVertices)
        } else {
            Ok(())
        },
        ShapeOutline::Line => Ok(()),
    }
}

/// Check one waypoint's shape.
pub fn check_shape(s: &ShapeOutline) -> (r: Result<(), ShapeError>)
    ensures
        r == shape_verdict(*s),
{
    match s {
        ShapeOutline::Circle { radius_positive } => if *radius_positive {
            Ok(())
        } else {
            Err(ShapeError::NegativeRadius)
        },
        ShapeOutline::Polygon { vertices } => if *vertices == 0 {
            Err(ShapeError::PolygonWithZeroVertices)
        } else {
            Ok(())
        },
        ShapeOutline::Line => Ok(()),
    }
}

/// The index of the first refused shape among `shapes`, if any.
pub open spec fn first_bad_shape(shapes: Seq<ShapeOutline>) -> Option<int>
    decreases shapes.len(),
{
    if shapes.len() == 0 {
        None
    } else if shape_verdict(shapes[0]) is Err {
        Some(0)
    } else {
        match first_bad_shape(shapes.drop_first()) {
            Some(i) => Some(i + 1),
            None => None,
        }
    }
}

/// The verdict on a formation: a negative delay first, then fewer than two
/// waypoints, then the first waypoint whose shape is refused.
pub open spec fn formation_verdict(delay_negative: bool, shapes: Seq<ShapeOutline>) -> Result<
    (),
    FormationError,
> {
    if delay_negative {
        Err(FormationError::NegativeTime)
    } else if shapes.len() < 2 {
        Err(FormationError::LessThanTwoWaypoints)
    } else {
        match first_bad_shape(shapes) {
            Some(i) => Err(FormationError::ShapeError(shape_verdict(shapes[i])->Err_0)),
            None => Ok(()),
        }
    }
}

proof fn lemma_first_bad_shape(shapes: Seq<ShapeOutline>, n: int)
    requires
        0 <= n <= shapes.len(),
        forall|k: int| 0 <= k < n ==> shape_verdict(#[trigger] shapes[k]) is Ok,
    ensures
        n < shapes.len() && shape_verdict(shapes[n]) is Err ==> first_bad_shape(shapes) == Some(
            n,
        ),
        n == shapes.len() ==> first_bad_shape(shapes) is None,
    decreases n,
{
    if n > 0 {
        let rest = shapes.drop_first();
        assert forall|k: int| 0 <= k < n - 1 implies shape_verdict(#[trigger] rest[k]) is Ok by {
            assert(rest[k] == shapes[k + 1]);
        }
        lemma_first_bad_shape(rest, n - 1);
        assert(shape_verdict(shapes[0]) is Ok);
        if n < shapes.len() {
            assert(rest[n - 1] == shapes[n]);
        }
    }
}

/// Check a formation, given whether its delay is negative and the shapes of
/// its waypoints in order.
pub fn check_formation(delay_negative: bool, shapes: &Vec<ShapeOutline>) -> (r: Result<
    (),
    FormationError,
>)
    ensures
        r == formation_verdict(delay_negative, shapes@),
{
    if delay_negative {
        return Err(FormationError::NegativeTime);
    }
    if shapes.len() < 2 {
        return Err(FormationError::LessThanTwoWaypoints);
    }
    let mut i: usize = 0;
    while i < shapes.len()
        invariant
            0 <= i <= shapes@.len(),
            shapes@.len() >= 2,
            !delay_negative,
            forall|k: int| 0 <= k < i ==> shape_verdict(#[trigger] shapes@[k]) is Ok,
        decreases shapes@.len() - i,
    {
        match check_shape(&shapes[i]) {
            Err(e) => {
                proof {
                    lemma_first_bad_shape(shapes@, i as int);
                }
                return Err(FormationError::from(e));
            },
            Ok(()) => {},
        }
        i = i + 1;
    }
    proof {
        lemma_first_bad_shape(shapes@, i as int);
    }
    Ok(())
}

/// The refused formations among `verdicts`, each with its index, in order.
pub open spec fn invalid_formations(verdicts: Seq<Result<(), FormationError>>) -> Seq<
    (usize, FormationError),
>
    decreases verdicts.len(),
{
    if verdicts.len() == 0 {
        Seq::empty()
    } else {
        let n = (verdicts.len() - 1) as int;
        let before = invalid_formations(verdicts.take(n));
        match verdicts[n] {
            Err(e) => before.push((n as usize, e)),
            Ok(()) => before,
        }
    }
}

/// Check a group of formations from the verdict on each of its formations:
/// a group needs at least one formation, and every formation must be valid.
pub fn check_formation_group(verdicts: &Vec<Result<(), FormationError>>) -> (r: Result<
    (),
    FormationGroupError,
>)
    ensures
        verdicts@.len() == 0 <==> r == Err::<(), FormationGroupError>(
            FormationGroupError::NoFormations,
        ),
        r is Ok <==> verdicts@.len() > 0 && invalid_formations(verdicts@).len() == 0,
        r matches Err(FormationGroupError::InvalidFormations(list)) ==> verdicts@.len() > 0
            && list@ == invalid_formations(verdicts@) && list@.len() > 0,
{
    if verdicts.len() == 0 {
        return Err(FormationGroupError::NoFormations);
    }
    let mut invalid: Vec<(usize, FormationError)> = Vec::new();
    let mut i: usize = 0;
    while i < verdicts.len()
        invariant
            0 <= i <= verdicts@.len(),
            invalid@ == invalid_formations(verdicts@.take(i as int)),
        decreases verdicts@.len() - i,
    {
        proof {
            assert(verdicts@.take(i + 1).take(i as int) =~= verdicts@.take(i as int));
        }
        match &verdicts[i] {
            Err(e) => {
                invalid.push((i, *e));
            },
            Ok(()) => {},
        }
        i = i + 1;
    }
    proof {
        assert(verdicts@.take(i as int) =~= verdicts@);
    }
    if invalid.len() == 0 {
        Ok(())
    } else {
        Err(FormationGroupError::InvalidFormations(invalid))
    }
}

} // verus!
