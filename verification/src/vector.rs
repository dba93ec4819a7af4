//! The two places where the direction of a vector is put right by a half
//! turn or a full one.
//!
//! The arc tangent of `y / x` gives the direction of a vector only up to a
//! half turn, and an angle that has been added to leaves the range in which
//! directions are kept. Which correction applies is decided here, from how
//! the numbers compare.

use crate::lines::Side;
use vstd::prelude::*;

verus! {

/// A correction to an angle.
#[derive(Clone, Copy, Debug, PartialEq, Eq, Structural)]
pub enum Turn {
    /// The angle stands as it is.
    Keep,
    /// The angle is to be raised.
    Add,
    /// The angle is to be lowered.
    Subtract,
}

/// The half turn that takes the arc tangent of `y / x` to the direction of
/// the vector `(x, y)`.
///
/// `x` and `y` say how the two components compare with zero. With `x` at
/// least zero the arc tangent is the direction. Otherwise a half turn is
/// added where `y` is at least zero, and subtracted where it is not.
pub fn angle(x: Side, y: Side) -> (turn: Turn)
    ensures
        turn == (if x.at_least() {
            Turn::Keep
        } else if y.at_least() {
            Turn::Add
        } else {
            Turn::Subtract
        }),
{
    match x {
        Side::Greater | Side::Equal => Turn::Keep,
        _ => {
            match y {
                Side::Greater | Side::Equal => Turn::Add,
                _ => Turn::Subtract,
            }
        },
    }
}

/// The full turn that takes an accumulated angle back into the range from
/// minus a half turn, exclusive, to a half turn, inclusive.
///
/// `high` says how the angle compares with a half turn, `low` how it
/// compares with minus a half turn. Above the range a full turn is
/// subtracted; at its lower end or below, one is added.
pub fn rotate(high: Side, low: Side) -> (turn: Turn)
    ensures
        turn == (if high is Greater {
            Turn::Subtract
        } else if low.at_most() {
            Turn::Add
        } else {
            Turn::Keep
        }),
{
    match high {
        Side::Greater => Turn::Subtract,
        _ => {
            match low {
                Side::Less | Side::Equal => Turn::Add,
                _ => Turn::Keep,
            }
        },
    }
}

} // verus!
