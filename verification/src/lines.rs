//! Half-planes and segment clipping, decided from comparison outcomes.
//!
//! The coordinates themselves are numbers that the caller works out in its own
//! arithmetic. What reaches this module is how two of them compare: a [`Side`].
//! From those outcomes the module decides which side of a line counts as
//! inside, whether a point is inside, on the boundary or outside, and whether
//! the meeting point of two lines falls within a segment.

use std::cmp::Ordering;
use vstd::prelude::*;

verus! {

/// How a coordinate compares with the one it is measured against.
///
/// `Unordered` is the outcome when one of the two is not a number; it
/// satisfies none of `<`, `<=`, `==`, `>=`, `>`.
#[derive(Clone, Copy, Debug, PartialEq, Eq, Structural)]
pub enum Side {
    Less,
    Equal,
    Greater,
    Unordered,
}

impl Side {
    /// The side that a partial comparison reports.
    pub open spec fn of(order: Option<Ordering>) -> Side {
        match order {
            Some(Ordering::Less) => Side::Less,
            Some(Ordering::Equal) => Side::Equal,
            Some(Ordering::Greater) => Side::Greater,
            None => Side::Unordered,
        }
    }

    /// `<=` on the compared coordinates.
    pub open spec fn at_most(self) -> bool {
        self is Less || self is Equal
    }

    /// `>=` on the compared coordinates.
    pub open spec fn at_least(self) -> bool {
        self is Greater || self is Equal
    }

    /// The same comparison with its two operands exchanged.
    pub open spec fn reversed(self) -> Side {
        match self {
            Side::Less => Side::Greater,
            Side::Greater => Side::Less,
            Side::Equal => Side::Equal,
            Side::Unordered => Side::Unordered,
        }
    }

    /// Turns the result of `partial_cmp` into a side.
    pub fn from_ordering(order: Option<Ordering>) -> (side: Side)
        ensures
            side == Side::of(order),
    {
        match order {
            Some(Ordering::Less) => Side::Less,
            Some(Ordering::Equal) => Side::Equal,
            Some(Ordering::Greater) => Side::Greater,
            None => Side::Unordered,
        }
    }

    /// Exchanges the operands of the comparison.
    pub fn flip(self) -> (side: Side)
        ensures
            side == self.reversed(),
    {
        match self {
            Side::Less => Side::Greater,
            Side::Greater => Side::Less,
            Side::Equal => Side::Equal,
            Side::Unordered => Side::Unordered,
        }
    }
}

/// The form in which a line is written down.
///
/// A vertical line is known by its constant `x`; any other by its slope and
/// its intercept. A level line is one whose slope is zero.
#[derive(Clone, Copy, Debug, PartialEq, Eq, Structural)]
pub enum Line {
    Vertical,
    Level,
    Slanted,
}

/// How the point that two lines share is worked out.
#[derive(Clone, Copy, Debug, PartialEq, Eq, Structural)]
pub enum Meet {
    /// Neither line is vertical: solve the two equations for `x`, and take
    /// `y` from the first line.
    Solve,
    /// Only the second line is vertical: `x` is its constant, and `y` is the
    /// first line's `y` there.
    AtSecond,
    /// Only the first line is vertical: `x` is its constant, and `y` is the
    /// second line's `y` there.
    AtFirst,
}

impl Line {
    /// The form of a line with the given slope; `slope` says how the slope
    /// compares with zero, and is absent for a vertical line.
    pub open spec fn of(slope: Option<Side>) -> Line {
        match slope {
            None => Line::Vertical,
            Some(Side::Equal) => Line::Level,
            Some(_) => Line::Slanted,
        }
    }

    /// The form of the perpendicular: level for a vertical line, vertical
    /// for a level one, slanted for a slanted one.
    pub open spec fn normal(self) -> Line {
        match self {
            Line::Vertical => Line::Level,
            Line::Level => Line::Vertical,
            Line::Slanted => Line::Slanted,
        }
    }

    /// How two lines of these forms meet; not at all where both are
    /// vertical.
    pub open spec fn meets(self, other: Line) -> Option<Meet> {
        if self is Vertical {
            if other is Vertical {
                None
            } else {
                Some(Meet::AtFirst)
            }
        } else if other is Vertical {
            Some(Meet::AtSecond)
        } else {
            Some(Meet::Solve)
        }
    }

    /// Whether the line through two points is vertical, given how their `x`
    /// compare: it is where they are equal.
    pub fn through(xs: Side) -> (vertical: bool)
        ensures
            vertical == (xs is Equal),
    {
        match xs {
            Side::Equal => true,
            _ => false,
        }
    }

    /// The form of a line from its slope.
    pub fn from_slope(slope: Option<Side>) -> (line: Line)
        ensures
            line == Line::of(slope),
    {
        match slope {
            None => Line::Vertical,
            Some(Side::Equal) => Line::Level,
            Some(_) => Line::Slanted,
        }
    }

    /// The half-plane on this line that has the reference point inside,
    /// given how the reference point compares against the line.
    ///
    /// A reference point on the line, or one that does not compare, gives the
    /// lower half-plane.
    pub fn initialize(self, reference: Side) -> (half: InEq)
        ensures
            half.line == self,
            half.greater == (reference is Greater),
    {
        InEq {
            line: self,
            greater: match reference {
                Side::Greater => true,
                _ => false,
            },
        }
    }

    /// The form of the perpendicular to this line. Where both are slanted,
    /// the slope of the perpendicular is the negative reciprocal.
    pub fn normal_through(self) -> (normal: Line)
        ensures
            normal == self.normal(),
    {
        match self {
            Line::Vertical => Line::Level,
            Line::Level => Line::Vertical,
            Line::Slanted => Line::Slanted,
        }
    }

    /// How the point that this line shares with another is worked out, or
    /// nothing where both are vertical.
    pub fn intersection(self, other: Line) -> (meet: Option<Meet>)
        ensures
            meet == self.meets(other),
            meet is None <==> self is Vertical && other is Vertical,
    {
        match self {
            Line::Vertical => {
                match other {
                    Line::Vertical => None,
                    _ => Some(Meet::AtFirst),
                }
            },
            _ => {
                match other {
                    Line::Vertical => Some(Meet::AtSecond),
                    _ => Some(Meet::Solve),
                }
            },
        }
    }
}

/// The perpendicular of the perpendicular has the form of the line itself.
pub proof fn lemma_normal_twice(line: Line)
    ensures
        line.normal().normal() == line,
        line.meets(line.normal()) is Some,
{
}

/// Where a point stands with respect to a half-plane.
#[derive(Clone, Copy, Debug, PartialEq, Eq, Structural)]
pub enum TouchResult {
    /// On the boundary line.
    Touch,
    /// Strictly inside.
    Contain,
    /// Strictly outside, or not comparable.
    Outside,
}

/// One side of a line, fixed by a reference point at construction.
///
/// `greater` records that the reference point compared `Greater` against the
/// line. For a line that is not vertical the comparison is between the
/// point's `y` and the line's `y` at the point's `x`; for a vertical line it is
/// between the point's `x` and the line's constant `x`.
#[derive(Clone, Copy, Debug, PartialEq, Eq, Structural)]
pub struct InEq {
    pub line: Line,
    pub greater: bool,
}

impl InEq {
    /// Strict containment: the point compares as the reference point did.
    pub open spec fn holds(self, point: Side) -> bool {
        if self.greater {
            point is Greater
        } else {
            point is Less
        }
    }

    /// The three-way classification of a point.
    pub open spec fn classify(self, point: Side) -> TouchResult {
        if self.holds(point) {
            TouchResult::Contain
        } else if point is Equal {
            TouchResult::Touch
        } else {
            TouchResult::Outside
        }
    }

    /// Whether a point that compares as `point` against the line is strictly
    /// inside. Points on the line are not.
    pub fn contains(&self, point: Side) -> (inside: bool)
        ensures
            inside == self.holds(point),
    {
        if self.greater {
            match point {
                Side::Greater => true,
                _ => false,
            }
        } else {
            match point {
                Side::Less => true,
                _ => false,
            }
        }
    }

    /// Inside, on the boundary, or outside.
    pub fn touches(&self, point: Side) -> (touch: TouchResult)
        ensures
            touch == self.classify(point),
    {
        if self.contains(point) {
            TouchResult::Contain
        } else {
            match point {
                Side::Equal => TouchResult::Touch,
                _ => TouchResult::Outside,
            }
        }
    }
}

/// How the meeting point of two lines compares with the two ends of a
/// segment, on each axis.
#[derive(Clone, Copy, Debug, PartialEq, Eq, Structural)]
pub struct Crossing {
    /// The meeting point's `x` against the `x` of the segment's start.
    pub x_start: Side,
    /// The meeting point's `x` against the `x` of the segment's end.
    pub x_end: Side,
    /// The meeting point's `y` against the `y` of the segment's start.
    pub y_start: Side,
    /// The meeting point's `y` against the `y` of the segment's end.
    pub y_end: Side,
}

/// A coordinate lies in the closed span between two others, whichever of the
/// two is the larger.
pub open spec fn spans(from_start: Side, from_end: Side) -> bool {
    (from_start.at_least() && from_end.at_most()) || (from_start.at_most() && from_end.at_least())
}

impl Crossing {
    /// The meeting point lies in the closed bounding box of the segment.
    pub open spec fn on_segment(self) -> bool {
        spans(self.x_start, self.x_end) && spans(self.y_start, self.y_end)
    }

    /// Whether the meeting point lies within the segment's closed bounding
    /// box, on both axes, for either order of the segment's ends.
    pub fn within(&self) -> (inside: bool)
        ensures
            inside == self.on_segment(),
    {
        between(self.x_start, self.x_end) && between(self.y_start, self.y_end)
    }
}

/// Whether a coordinate that compares as `from_start` against one bound and
/// as `from_end` against the other lies between the two, bounds included.
pub fn between(from_start: Side, from_end: Side) -> (inside: bool)
    ensures
        inside == spans(from_start, from_end),
{
    let above_start = match from_start {
        Side::Greater | Side::Equal => true,
        _ => false,
    };
    let below_start = match from_start {
        Side::Less | Side::Equal => true,
        _ => false,
    };
    let above_end = match from_end {
        Side::Greater | Side::Equal => true,
        _ => false,
    };
    let below_end = match from_end {
        Side::Less | Side::Equal => true,
        _ => false,
    };
    (above_start && below_end) || (below_start && above_end)
}

/// The meeting point of two lines, kept only where it falls on the segment.
///
/// `meeting` is absent where the two lines have no single point in common.
pub fn intersection_segment(meeting: Option<Crossing>) -> (kept: bool)
    ensures
        kept == (meeting matches Some(crossing) && crossing.on_segment()),
{
    match meeting {
        Some(crossing) => crossing.within(),
        None => false,
    }
}

} // verus!
