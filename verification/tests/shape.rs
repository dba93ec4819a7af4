use collision2d::lines::{Crossing, InEq, Line, Side};
use collision2d::shape::{
    dist_inside, get_line, max_test, next_vertex, receive_ray, resolve, with_midpoints, EdgeReading,
    Meeting, Separation,
};

const UPPER: InEq = InEq { line: Line::Level, greater: true };
const LOWER: InEq = InEq { line: Line::Slanted, greater: false };

fn inside(depth: u32) -> EdgeReading {
    EdgeReading { half: UPPER, point: Side::Greater, depth }
}

fn outside(depth: u32) -> EdgeReading {
    EdgeReading { half: UPPER, point: Side::Less, depth }
}

fn on_edge(depth: u32) -> EdgeReading {
    EdgeReading { half: LOWER, point: Side::Equal, depth }
}

fn hit(reach: u32) -> Option<Meeting> {
    Some(Meeting {
        crossing: Crossing {
            x_start: Side::Greater,
            x_end: Side::Less,
            y_start: Side::Equal,
            y_end: Side::Equal,
        },
        ahead: Side::Greater,
        reach,
    })
}

#[test]
fn first_edge_closes_the_outline() {
    assert_eq!(get_line(4, 0), (3, 0));
    assert_eq!(get_line(4, 1), (0, 1));
    assert_eq!(get_line(4, 3), (2, 3));
    assert_eq!(get_line(1, 0), (0, 0));
}

#[test]
fn last_vertex_is_followed_by_the_first() {
    assert_eq!(next_vertex(4, 0), 1);
    assert_eq!(next_vertex(4, 2), 3);
    assert_eq!(next_vertex(4, 3), 0);
    assert_eq!(next_vertex(1, 0), 0);
    for vertex in 0..5 {
        assert_eq!(get_line(5, next_vertex(5, vertex)), (vertex, next_vertex(5, vertex)));
    }
}

#[test]
fn midpoints_follow_their_vertices() {
    assert_eq!(with_midpoints(&Vec::<(i32, i32)>::new()), Vec::<i32>::new());
    assert_eq!(with_midpoints(&vec![(0, 5), (10, 15), (20, 25)]), vec![0, 5, 10, 15, 20, 25]);
}

#[test]
fn bounding_test_needs_both_axes() {
    assert!(max_test(Side::Less, Side::Less));
    assert!(!max_test(Side::Less, Side::Equal));
    assert!(!max_test(Side::Equal, Side::Less));
    assert!(!max_test(Side::Greater, Side::Less));
    assert!(!max_test(Side::Less, Side::Greater));
    assert!(!max_test(Side::Unordered, Side::Less));
    assert!(!max_test(Side::Less, Side::Unordered));
}

#[test]
fn point_outside_any_edge_is_outside() {
    assert_eq!(dist_inside(&vec![]), None);
    assert_eq!(dist_inside(&vec![inside(3), outside(1), inside(2)]), None);
    assert_eq!(dist_inside(&vec![outside(0)]), None);
    assert_eq!(dist_inside(&vec![inside(3), inside(1), outside(0)]), None);
}

#[test]
fn point_on_an_edge_is_outside() {
    assert_eq!(dist_inside(&vec![inside(3), on_edge(0), inside(2)]), None);
}

#[test]
fn contained_point_leaves_by_the_nearest_edge() {
    assert_eq!(dist_inside(&vec![inside(30), inside(10), inside(20)]), Some(1));
    assert_eq!(dist_inside(&vec![inside(5)]), Some(0));
    assert_eq!(dist_inside(&vec![inside(51), inside(51), inside(49), inside(49)]), Some(2));
}

#[test]
fn contained_point_may_be_below_an_edge() {
    let below = EdgeReading { half: LOWER, point: Side::Less, depth: 4 };
    assert_eq!(dist_inside(&vec![inside(9), below]), Some(1));
    let above = EdgeReading { half: LOWER, point: Side::Greater, depth: 4 };
    assert_eq!(dist_inside(&vec![inside(9), above]), None);
}

#[test]
fn no_separation_without_a_contained_vertex() {
    let apart = vec![vec![inside(1), outside(1)], vec![outside(2), inside(2)]];
    assert_eq!(resolve(true, &apart, &apart), None);
    assert_eq!(resolve(true, &vec![], &vec![]), None);
    assert_eq!(resolve(true, &vec![vec![]], &vec![vec![]]), None);
}

#[test]
fn no_separation_where_the_bounding_test_fails() {
    let contained = vec![vec![inside(1), inside(2)]];
    assert_eq!(resolve(false, &contained, &contained), None);
    assert!(resolve(true, &contained, &contained).is_some());
}

#[test]
fn separation_from_a_vertex_of_the_other_shape() {
    let theirs = vec![vec![outside(1), inside(1)], vec![inside(8), inside(6), inside(7)]];
    let ours = vec![vec![outside(1)], vec![inside(3), outside(3)]];
    assert_eq!(
        resolve(true, &theirs, &ours),
        Some(Separation { reversed: false, vertex: 1, edge: 1 })
    );
}

#[test]
fn separation_from_a_vertex_of_this_shape() {
    let theirs = vec![vec![outside(1), inside(1)]];
    let ours = vec![vec![outside(1)], vec![outside(3)], vec![inside(9), inside(4)]];
    assert_eq!(
        resolve(true, &theirs, &ours),
        Some(Separation { reversed: true, vertex: 2, edge: 1 })
    );
}

#[test]
fn shortest_penetration_of_both_passes_wins() {
    let theirs = vec![vec![inside(25), inside(30)], vec![inside(40)]];
    let ours = vec![vec![inside(50)], vec![inside(27), inside(15), inside(16)]];
    assert_eq!(
        resolve(true, &theirs, &ours),
        Some(Separation { reversed: true, vertex: 1, edge: 1 })
    );
    let ours = vec![vec![inside(50)], vec![inside(27), inside(26)]];
    assert_eq!(
        resolve(true, &theirs, &ours),
        Some(Separation { reversed: false, vertex: 0, edge: 0 })
    );
}

#[test]
fn equal_penetrations_go_to_the_first_tested() {
    let theirs = vec![vec![inside(49)], vec![inside(49)]];
    let ours = vec![vec![inside(49)]];
    assert_eq!(
        resolve(true, &theirs, &ours),
        Some(Separation { reversed: false, vertex: 0, edge: 0 })
    );
    assert_eq!(
        resolve(true, &ours, &theirs),
        Some(Separation { reversed: false, vertex: 0, edge: 0 })
    );
}

#[test]
fn resolving_the_other_way_finds_the_same_penetration_reversed() {
    let of_b_in_a = vec![vec![outside(1)], vec![inside(25), inside(30)], vec![outside(2)]];
    let of_a_in_b = vec![vec![inside(50)], vec![inside(27), inside(15), inside(16)]];
    let from_a = resolve(true, &of_b_in_a, &of_a_in_b).unwrap();
    let from_b = resolve(true, &of_a_in_b, &of_b_in_a).unwrap();
    assert_eq!(from_a, Separation { reversed: true, vertex: 1, edge: 1 });
    assert_eq!(from_b, Separation { reversed: false, vertex: 1, edge: 1 });
    assert_eq!(
        from_b,
        Separation { reversed: !from_a.reversed, vertex: from_a.vertex, edge: from_a.edge }
    );
}

#[test]
fn ray_meets_no_edge() {
    let front = Line::Slanted.initialize(Side::Greater);
    assert_eq!(receive_ray(front, &vec![]), None);
    assert_eq!(receive_ray(front, &vec![None, None]), None);
}

#[test]
fn ray_takes_the_nearest_edge() {
    let front = Line::Slanted.initialize(Side::Greater);
    assert_eq!(receive_ray(front, &vec![hit(90), None, hit(40), hit(70)]), Some(2));
    assert_eq!(receive_ray(front, &vec![None, hit(40), hit(40)]), Some(1));
}

#[test]
fn ray_ignores_what_lies_behind_its_origin() {
    let front = Line::Slanted.initialize(Side::Greater);
    let behind = hit(10).map(|meeting| Meeting { ahead: Side::Less, ..meeting });
    let at_origin = hit(0).map(|meeting| Meeting { ahead: Side::Equal, ..meeting });
    assert_eq!(receive_ray(front, &vec![behind, at_origin]), None);
    assert_eq!(receive_ray(front, &vec![behind, hit(99), at_origin]), Some(1));
    let back = Line::Slanted.initialize(Side::Less);
    assert_eq!(receive_ray(back, &vec![behind, hit(99), at_origin]), Some(0));
}

#[test]
fn ray_ignores_a_meeting_beyond_the_edge() {
    let front = Line::Slanted.initialize(Side::Greater);
    let beyond = hit(10).map(|meeting| Meeting {
        crossing: Crossing { x_start: Side::Greater, x_end: Side::Greater, ..meeting.crossing },
        ..meeting
    });
    assert_eq!(receive_ray(front, &vec![beyond]), None);
    assert_eq!(receive_ray(front, &vec![beyond, hit(80)]), Some(1));
}
