//! Two-dimensional sketch constraints: their references, dimensions, and the
//! structural checks that do not depend on geometry.

use vstd::prelude::*;

use crate::expression::{ExpressionError, ParameterExpression, utf8};
use crate::text::{decimal, is_blank, push_decimal, push_str, str_is_blank};
use crate::{ConstraintId, EntityId};

verus! {

pub const MAX_CONSTRAINT_NAME_BYTES: usize = 256;

#[derive(Clone, Copy, Debug, PartialEq, Eq, Structural)]
pub enum PointAnchor {
    Start,
    End,
    Center,
    Origin,
    Vertex { index: u32 },
    Insertion,
}

/// How an anchor is written in messages.
pub open spec fn anchor_text(a: PointAnchor) -> Seq<char> {
    match a {
        PointAnchor::Start => "Start"@,
        PointAnchor::End => "End"@,
        PointAnchor::Center => "Center"@,
        PointAnchor::Origin => "Origin"@,
        PointAnchor::Vertex { index } => "Vertex { index: "@ + decimal(index as nat) + " }"@,
        PointAnchor::Insertion => "Insertion"@,
    }
}

/// Appends how `a` is written in messages to `s`.
pub fn push_anchor(s: &mut String, a: PointAnchor)
    ensures
        final(s)@ == old(s)@ + anchor_text(a),
{
    match a {
        PointAnchor::Start => push_str(s, "Start"),
        PointAnchor::End => push_str(s, "End"),
        PointAnchor::Center => push_str(s, "Center"),
        PointAnchor::Origin => push_str(s, "Origin"),
        PointAnchor::Vertex { index } => {
            push_str(s, "Vertex { index: ");
            push_decimal(s, index as u64);
            push_str(s, " }");
        },
        PointAnchor::Insertion => push_str(s, "Insertion"),
    }
    proof {
        assert(final(s)@ =~= old(s)@ + anchor_text(a));
    }
}

/// One characteristic point of a sketch entity.
#[derive(Clone, Copy, Debug, PartialEq, Eq, Structural)]
pub struct SketchPoint {
    pub entity_id: EntityId,
    pub anchor: PointAnchor,
}

impl SketchPoint {
    pub fn new(entity_id: EntityId, anchor: PointAnchor) -> (p: Self)
        ensures
            p == (SketchPoint { entity_id, anchor }),
    {
        SketchPoint { entity_id, anchor }
    }
}

/// Two sketch points taken as a segment.
#[derive(Clone, Copy, Debug, PartialEq, Eq, Structural)]
pub struct SketchSegment {
    pub start: SketchPoint,
    pub end: SketchPoint,
}

impl SketchSegment {
    pub fn new(start: SketchPoint, end: SketchPoint) -> (s: Self)
        ensures
            s == (SketchSegment { start, end }),
    {
        SketchSegment { start, end }
    }
}

pub enum ConstraintKind {
    Coincident { first: SketchPoint, second: SketchPoint },
    Horizontal { segment: SketchSegment },
    Vertical { segment: SketchSegment },
    Distance { first: SketchPoint, second: SketchPoint, value: ParameterExpression },
    Radius { entity_id: EntityId, value: ParameterExpression },
}

pub struct SketchConstraint {
    pub id: ConstraintId,
    pub name: String,
    pub driving: bool,
    pub kind: ConstraintKind,
}

impl SketchConstraint {
    /// A field-for-field copy.
    pub fn copy(&self) -> (c: Self)
        ensures
            c == *self,
    {
        let kind = match &self.kind {
            ConstraintKind::Coincident { first, second } => ConstraintKind::Coincident {
                first: *first,
                second: *second,
            },
            ConstraintKind::Horizontal { segment } => ConstraintKind::Horizontal { segment: *segment },
            ConstraintKind::Vertical { segment } => ConstraintKind::Vertical { segment: *segment },
            ConstraintKind::Distance { first, second, value } => ConstraintKind::Distance {
                first: *first,
                second: *second,
                value: value.copy(),
            },
            ConstraintKind::Radius { entity_id, value } => ConstraintKind::Radius {
                entity_id: *entity_id,
                value: value.copy(),
            },
        };
        SketchConstraint { id: self.id, name: self.name.clone(), driving: self.driving, kind }
    }
}

pub enum ConstraintError {
    EntityMissing(EntityId),
    AnchorMissing { entity_id: EntityId, anchor: PointAnchor },
    AnchorUnsupported { entity_id: EntityId, anchor: PointAnchor },
    Expression(ExpressionError),
    InvalidConstraint(String),
    InvalidSettings(String),
    NonFiniteGeometry,
    NotConverged,
}

/// A constraint's two points must differ.
pub fn validate_distinct_points(first: SketchPoint, second: SketchPoint) -> (r: Result<
    (),
    ConstraintError,
>)
    ensures
        r is Ok <==> first != second,
        r matches Err(e) ==> e matches ConstraintError::InvalidConstraint(m) && m@
            == "a constraint must reference two distinct sketch points"@,
{
    if first == second {
        return Err(
            ConstraintError::InvalidConstraint(
                "a constraint must reference two distinct sketch points".to_owned(),
            ),
        );
    }
    Ok(())
}

/// The identity and name checks that open constraint validation.
pub open spec fn constraint_header_problem(id: ConstraintId, name: Seq<char>) -> Option<Seq<char>> {
    if id == ConstraintId::MAX || is_blank(name) {
        Some("constraint id and name must be valid"@)
    } else if utf8(name).len() > MAX_CONSTRAINT_NAME_BYTES {
        Some("constraint name exceeds the 256-byte limit"@)
    } else {
        None
    }
}

/// Checks a constraint's id and name.
pub fn validate_constraint_header(constraint: &SketchConstraint) -> (r: Result<(), ConstraintError>)
    ensures
        match constraint_header_problem(constraint.id, constraint.name@) {
            None => r is Ok,
            Some(m) => r matches Err(ConstraintError::InvalidConstraint(text)) && text@ == m,
        },
{
    if constraint.id == ConstraintId::MAX || str_is_blank(constraint.name.as_str()) {
        return Err(
            ConstraintError::InvalidConstraint("constraint id and name must be valid".to_owned()),
        );
    }
    if constraint.name.as_str().as_bytes().len() > MAX_CONSTRAINT_NAME_BYTES {
        return Err(
            ConstraintError::InvalidConstraint(
                "constraint name exceeds the 256-byte limit".to_owned(),
            ),
        );
    }
    Ok(())
}

} // verus!
