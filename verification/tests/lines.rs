use std::cmp::Ordering;

use collision2d::lines::{
    between, intersection_segment, Crossing, InEq, Line, Meet, Side, TouchResult,
};

const SIDES: [Side; 4] = [Side::Less, Side::Equal, Side::Greater, Side::Unordered];

#[test]
fn side_of_each_ordering() {
    assert_eq!(Side::from_ordering(Some(Ordering::Less)), Side::Less);
    assert_eq!(Side::from_ordering(Some(Ordering::Equal)), Side::Equal);
    assert_eq!(Side::from_ordering(Some(Ordering::Greater)), Side::Greater);
    assert_eq!(Side::from_ordering(None), Side::Unordered);
}

#[test]
fn side_of_float_comparisons() {
    assert_eq!(Side::from_ordering(1.0f32.partial_cmp(&2.0)), Side::Less);
    assert_eq!(Side::from_ordering(2.0f32.partial_cmp(&2.0)), Side::Equal);
    assert_eq!(Side::from_ordering(0.0f32.partial_cmp(&-0.0)), Side::Equal);
    assert_eq!(Side::from_ordering(3.0f32.partial_cmp(&2.0)), Side::Greater);
    assert_eq!(Side::from_ordering(f32::NAN.partial_cmp(&2.0)), Side::Unordered);
}

#[test]
fn flip_exchanges_less_and_greater() {
    assert_eq!(Side::Less.flip(), Side::Greater);
    assert_eq!(Side::Greater.flip(), Side::Less);
    assert_eq!(Side::Equal.flip(), Side::Equal);
    assert_eq!(Side::Unordered.flip(), Side::Unordered);
    for side in SIDES {
        assert_eq!(side.flip().flip(), side);
    }
}

#[test]
fn initialize_records_the_reference_side() {
    assert!(Line::Slanted.initialize(Side::Greater).greater);
    assert!(!Line::Slanted.initialize(Side::Less).greater);
    assert!(!Line::Level.initialize(Side::Equal).greater);
    assert!(!Line::Vertical.initialize(Side::Unordered).greater);
    assert_eq!(Line::Vertical.initialize(Side::Greater), InEq { line: Line::Vertical, greater: true });
    assert_eq!(Line::Level.initialize(Side::Less), InEq { line: Line::Level, greater: false });
}

#[test]
fn contains_is_strict() {
    let upper = InEq { line: Line::Slanted, greater: true };
    assert!(upper.contains(Side::Greater));
    assert!(!upper.contains(Side::Equal));
    assert!(!upper.contains(Side::Less));
    assert!(!upper.contains(Side::Unordered));
    let lower = InEq { line: Line::Vertical, greater: false };
    assert!(lower.contains(Side::Less));
    assert!(!lower.contains(Side::Equal));
    assert!(!lower.contains(Side::Greater));
    assert!(!lower.contains(Side::Unordered));
}

#[test]
fn reference_point_is_inside_its_half_plane() {
    for line in [Line::Vertical, Line::Level, Line::Slanted] {
        for side in [Side::Less, Side::Greater] {
            assert!(line.initialize(side).contains(side));
        }
    }
}

#[test]
fn touches_tells_boundary_from_inside_and_outside() {
    let upper = InEq { line: Line::Slanted, greater: true };
    assert_eq!(upper.touches(Side::Greater), TouchResult::Contain);
    assert_eq!(upper.touches(Side::Equal), TouchResult::Touch);
    assert_eq!(upper.touches(Side::Less), TouchResult::Outside);
    assert_eq!(upper.touches(Side::Unordered), TouchResult::Outside);
    let lower = InEq { line: Line::Vertical, greater: false };
    assert_eq!(lower.touches(Side::Less), TouchResult::Contain);
    assert_eq!(lower.touches(Side::Equal), TouchResult::Touch);
    assert_eq!(lower.touches(Side::Greater), TouchResult::Outside);
    assert_eq!(lower.touches(Side::Unordered), TouchResult::Outside);
}

#[test]
fn between_takes_either_order_of_the_bounds() {
    // start < x < end
    assert!(between(Side::Greater, Side::Less));
    // end < x < start
    assert!(between(Side::Less, Side::Greater));
    // on a bound
    assert!(between(Side::Equal, Side::Less));
    assert!(between(Side::Equal, Side::Greater));
    assert!(between(Side::Greater, Side::Equal));
    assert!(between(Side::Equal, Side::Equal));
    // beyond both bounds
    assert!(!between(Side::Greater, Side::Greater));
    assert!(!between(Side::Less, Side::Less));
    // not a number
    for side in SIDES {
        assert!(!between(Side::Unordered, side));
        assert!(!between(side, Side::Unordered));
    }
}

#[test]
fn between_agrees_with_float_bounds() {
    let values = [-1.0f32, 0.0, 0.5, 1.0, 2.0, f32::NAN];
    for &start in &values {
        for &end in &values {
            for &x in &values {
                let expected = (start <= x && x <= end) || (start >= x && x >= end);
                let found = between(
                    Side::from_ordering(x.partial_cmp(&start)),
                    Side::from_ordering(x.partial_cmp(&end)),
                );
                assert_eq!(found, expected, "{} in {}..{}", x, start, end);
            }
        }
    }
}

#[test]
fn crossing_needs_both_axes() {
    let inside = Crossing {
        x_start: Side::Greater,
        x_end: Side::Less,
        y_start: Side::Equal,
        y_end: Side::Equal,
    };
    assert!(inside.within());
    let off_x = Crossing {
        x_start: Side::Greater,
        x_end: Side::Greater,
        ..inside
    };
    assert!(!off_x.within());
    let off_y = Crossing {
        y_start: Side::Less,
        y_end: Side::Less,
        ..inside
    };
    assert!(!off_y.within());
}

#[test]
fn parallel_lines_cross_no_segment() {
    assert!(!intersection_segment(None));
    let inside = Crossing {
        x_start: Side::Equal,
        x_end: Side::Less,
        y_start: Side::Greater,
        y_end: Side::Less,
    };
    assert!(intersection_segment(Some(inside)));
    let outside = Crossing {
        x_start: Side::Less,
        x_end: Side::Less,
        ..inside
    };
    assert!(!intersection_segment(Some(outside)));
}

#[test]
fn line_through_points_of_equal_x_is_vertical() {
    assert!(Line::through(Side::Equal));
    assert!(!Line::through(Side::Less));
    assert!(!Line::through(Side::Greater));
    assert!(!Line::through(Side::Unordered));
}

#[test]
fn form_of_a_line_follows_its_slope() {
    assert_eq!(Line::from_slope(None), Line::Vertical);
    assert_eq!(Line::from_slope(Some(Side::Equal)), Line::Level);
    assert_eq!(Line::from_slope(Some(Side::Less)), Line::Slanted);
    assert_eq!(Line::from_slope(Some(Side::Greater)), Line::Slanted);
    assert_eq!(Line::from_slope(Some(Side::Unordered)), Line::Slanted);
    assert_eq!(Line::from_slope(Some(Side::from_ordering((-0.0f32).partial_cmp(&0.0)))), Line::Level);
}

#[test]
fn perpendicular_of_level_is_vertical() {
    assert_eq!(Line::Level.normal_through(), Line::Vertical);
    assert_eq!(Line::Vertical.normal_through(), Line::Level);
    assert_eq!(Line::Slanted.normal_through(), Line::Slanted);
    for line in [Line::Vertical, Line::Level, Line::Slanted] {
        assert_eq!(line.normal_through().normal_through(), line);
        assert!(line.intersection(line.normal_through()).is_some());
    }
}

#[test]
fn two_vertical_lines_share_no_point() {
    assert_eq!(Line::Vertical.intersection(Line::Vertical), None);
    assert_eq!(Line::Vertical.intersection(Line::Level), Some(Meet::AtFirst));
    assert_eq!(Line::Vertical.intersection(Line::Slanted), Some(Meet::AtFirst));
    assert_eq!(Line::Level.intersection(Line::Vertical), Some(Meet::AtSecond));
    assert_eq!(Line::Slanted.intersection(Line::Vertical), Some(Meet::AtSecond));
    assert_eq!(Line::Slanted.intersection(Line::Slanted), Some(Meet::Solve));
    assert_eq!(Line::Level.intersection(Line::Slanted), Some(Meet::Solve));
    assert_eq!(Line::Level.intersection(Line::Level), Some(Meet::Solve));
}
