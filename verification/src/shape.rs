//! Convex polygons: containment, separation of two overlapping shapes, and
//! the nearest edge that a ray meets.
//!
//! A polygon's edge `i` runs from vertex `i - 1` to vertex `i`, the first edge
//! from the last vertex to the first. Each edge is a half-plane whose inside
//! is the side of the polygon's center. The caller measures a point against
//! every edge and hands over one [`EdgeReading`] per edge; the functions here
//! decide from the readings.

use crate::lines::{Crossing, InEq, Side};
use crate::nearest::{
    is_nearest, lemma_nearest_concat, lemma_nearest_exists, lemma_nearest_of, nearest, nearest_of,
    none_present,
};
use vstd::prelude::*;

verus! {

/// The two vertices that bound an edge, in the order in which the edge runs.
pub open spec fn edge_ends(sides: int, num: int) -> (int, int) {
    if num == 0 {
        (sides - 1, 0)
    } else {
        (num - 1, num)
    }
}

/// The indices of the vertices at the start and at the end of edge `num` of
/// a polygon with `sides` vertices.
pub fn get_line(sides: usize, num: usize) -> (ends: (usize, usize))
    requires
        num < sides,
    ensures
        (ends.0 as int, ends.1 as int) == edge_ends(sides as int, num as int),
        ends.0 < sides,
        ends.1 == num,
{
    if num == 0 {
        (sides - 1, 0)
    } else {
        (num - 1, num)
    }
}

/// The vertex that follows `vertex` on the outline, the first one after the
/// last.
pub fn next_vertex(sides: usize, vertex: usize) -> (next: usize)
    requires
        vertex < sides,
    ensures
        next < sides,
        edge_ends(sides as int, next as int) == (vertex as int, next as int),
        next == (if vertex + 1 == sides {
            0
        } else {
            vertex + 1
        }),
{
    if vertex + 1 == sides {
        0
    } else {
        vertex + 1
    }
}

/// The outline with the midpoint of every edge added as a vertex.
///
/// Each item of `corners` is a vertex together with the midpoint between it
/// and the vertex that follows it. The result lists each vertex and then its
/// midpoint, in the order of the outline.
pub fn with_midpoints<P: Copy>(corners: &Vec<(P, P)>) -> (outline: Vec<P>)
    ensures
        outline@.len() == 2 * corners@.len(),
        forall|i: int|
            0 <= i < corners@.len() ==> outline@[2 * i] == (#[trigger] corners@[i]).0 && outline@[2
                * i + 1] == corners@[i].1,
{
    let mut outline: Vec<P> = Vec::new();
    let mut i: usize = 0;
    while i < corners.len()
        invariant
            i <= corners@.len(),
            outline@.len() == 2 * i,
            forall|k: int|
                0 <= k < i ==> outline@[2 * k] == (#[trigger] corners@[k]).0 && outline@[2 * k + 1]
                    == corners@[k].1,
        decreases corners@.len() - i,
    {
        let corner = corners[i];
        outline.push(corner.0);
        outline.push(corner.1);
        i += 1;
    }
    outline
}

/// The cheap test that runs before two shapes are compared edge by edge.
///
/// `x` and `y` say how the distance between the two centers, taken along one
/// axis, compares with the sum of the two bounding radii. The shapes may
/// overlap only where the distance is the smaller on both axes.
pub fn max_test(x: Side, y: Side) -> (near: bool)
    ensures
        near == (x is Less && y is Less),
{
    let near_x = match x {
        Side::Less => true,
        _ => false,
    };
    let near_y = match y {
        Side::Less => true,
        _ => false,
    };
    near_x && near_y
}

/// What one edge of a polygon reports about a probed point.
#[derive(Clone, Copy, Debug, PartialEq, Eq, Structural)]
pub struct EdgeReading {
    /// The edge's half-plane, with the polygon's center inside.
    pub half: InEq,
    /// How the probed point compares against the edge's line.
    pub point: Side,
    /// Length key of the vector from the edge's line to the point, taken
    /// along the perpendicular. Read only where the point is inside `half`.
    pub depth: u32,
}

impl EdgeReading {
    /// The probed point is strictly inside this edge's half-plane.
    pub open spec fn inside(self) -> bool {
        self.half.holds(self.point)
    }
}

/// The probed point is strictly inside every edge of a polygon that has at
/// least one edge.
pub open spec fn lies_inside(edges: Seq<EdgeReading>) -> bool {
    &&& edges.len() > 0
    &&& forall|e: int| 0 <= e < edges.len() ==> (#[trigger] edges[e]).inside()
}

/// The depth keys of all edges, each one present.
pub open spec fn depths(edges: Seq<EdgeReading>) -> Seq<Option<u32>> {
    Seq::new(edges.len(), |e: int| Some(edges[e].depth))
}

/// The edge from which a contained point is pushed out: the first edge of
/// least depth. Absent where the point is not inside the polygon.
pub open spec fn penetration(edges: Seq<EdgeReading>) -> Option<int> {
    if lies_inside(edges) {
        nearest_of(depths(edges))
    } else {
        None
    }
}

/// The depth key that goes with [`penetration`].
pub open spec fn penetration_key(edges: Seq<EdgeReading>) -> Option<u32> {
    match penetration(edges) {
        Some(e) => Some(edges[e].depth),
        None => None,
    }
}

/// A contained point has a penetration edge, and only a contained point.
pub proof fn lemma_penetration(edges: Seq<EdgeReading>)
    ensures
        penetration(edges) is Some <==> lies_inside(edges),
        penetration_key(edges) is Some <==> lies_inside(edges),
        penetration(edges) matches Some(e) ==> is_nearest(depths(edges), e),
{
    if lies_inside(edges) {
        assert(depths(edges)[0] is Some);
        lemma_nearest_exists(depths(edges), 0);
        let e = choose|e: int| is_nearest(depths(edges), e);
        lemma_nearest_of(depths(edges), e);
    }
}

/// A point that is not strictly inside some edge, be it on the edge's line,
/// does not lie inside the polygon, and has no penetration.
pub proof fn lemma_on_edge_is_outside(edges: Seq<EdgeReading>, e: int)
    requires
        0 <= e < edges.len(),
        !edges[e].inside(),
    ensures
        !lies_inside(edges),
        penetration(edges) is None,
        penetration_key(edges) is None,
{
}

/// Tests a point against every edge of a polygon.
///
/// Gives nothing where the point fails any edge, or where the polygon has no
/// edge. Otherwise gives the edge with the shortest penetration vector, the
/// first such edge among equals.
pub fn dist_inside(edges: &Vec<EdgeReading>) -> (edge: Option<usize>)
    ensures
        edge is Some <==> lies_inside(edges@),
        edge matches Some(e) ==> is_nearest(depths(edges@), e as int),
        (match edge {
            Some(e) => Some(e as int),
            None => None,
        }) == penetration(edges@),
{
    let mut keys: Vec<Option<u32>> = Vec::new();
    let mut e: usize = 0;
    while e < edges.len()
        invariant
            e <= edges.len(),
            keys@.len() == e,
            forall|k: int| 0 <= k < e ==> (#[trigger] edges@[k]).inside(),
            forall|k: int| 0 <= k < e ==> (#[trigger] keys@[k]) == Some(edges@[k].depth),
        decreases edges.len() - e,
    {
        let reading = edges[e];
        if !reading.half.contains(reading.point) {
            return None;
        }
        keys.push(Some(reading.depth));
        e += 1;
    }
    proof {
        assert(keys@ =~= depths(edges@));
        lemma_penetration(edges@);
    }
    if edges.len() == 0 {
        return None;
    }
    let found = nearest(&keys);
    found
}

/// Which penetration separates two overlapping shapes.
#[derive(Clone, Copy, Debug, PartialEq, Eq, Structural)]
pub struct Separation {
    /// `false`: a vertex of the other shape lies inside this one, and its
    /// penetration vector is the resolution. `true`: a vertex of this shape
    /// lies inside the other, and the resolution is its penetration vector
    /// negated.
    pub reversed: bool,
    /// The vertex that lies inside, counted in the shape it belongs to.
    pub vertex: usize,
    /// The edge it is pushed out from, counted in the shape it lies in.
    pub edge: usize,
}

/// A [`Separation`] with its two places as mathematical integers.
pub struct Place {
    pub reversed: bool,
    pub vertex: int,
    pub edge: int,
}

impl View for Separation {
    type V = Place;

    open spec fn view(&self) -> Place {
        Place { reversed: self.reversed, vertex: self.vertex as int, edge: self.edge as int }
    }
}

/// The separation found, as a place.
pub open spec fn place_of(found: Option<Separation>) -> Option<Place> {
    match found {
        Some(s) => Some(s@),
        None => None,
    }
}

/// The readings of each vertex, as sequences.
pub open spec fn rows(vertices: Seq<Vec<EdgeReading>>) -> Seq<Seq<EdgeReading>> {
    Seq::new(vertices.len(), |v: int| vertices[v]@)
}

/// No vertex of one shape lies inside the other.
pub open spec fn none_inside(vertices: Seq<Seq<EdgeReading>>) -> bool {
    forall|v: int| 0 <= v < vertices.len() ==> !lies_inside(#[trigger] vertices[v])
}

/// The penetration keys of all tested vertices: first those of the other
/// shape's vertices, then those of this shape's.
pub open spec fn candidates(theirs: Seq<Seq<EdgeReading>>, ours: Seq<Seq<EdgeReading>>) -> Seq<
    Option<u32>,
> {
    Seq::new(
        theirs.len() + ours.len(),
        |k: int|
            if k < theirs.len() {
                penetration_key(theirs[k])
            } else {
                penetration_key(ours[k - theirs.len()])
            },
    )
}

/// The separation that stands at place `k` of [`candidates`].
pub open spec fn separation_at(
    theirs: Seq<Seq<EdgeReading>>,
    ours: Seq<Seq<EdgeReading>>,
    k: int,
) -> Place {
    if k < theirs.len() {
        Place { reversed: false, vertex: k, edge: penetration(theirs[k]).unwrap() }
    } else {
        Place {
            reversed: true,
            vertex: k - theirs.len(),
            edge: penetration(ours[k - theirs.len()]).unwrap(),
        }
    }
}

/// What [`resolve`] returns.
///
/// Nothing where the bounding test failed. Otherwise the shortest of the
/// penetrations of all vertices of either shape that lie inside the other;
/// among equals, a vertex of the other shape before one of this shape, and a
/// lower vertex before a higher one.
pub open spec fn resolution(
    near: bool,
    theirs: Seq<Seq<EdgeReading>>,
    ours: Seq<Seq<EdgeReading>>,
) -> Option<Place> {
    if !near {
        None
    } else {
        match nearest_of(candidates(theirs, ours)) {
            Some(k) => Some(separation_at(theirs, ours, k)),
            None => None,
        }
    }
}

/// The penetration key of every vertex of one shape, and the edge it goes
/// with.
fn penetrations(vertices: &Vec<Vec<EdgeReading>>) -> (found: (Vec<Option<u32>>, Vec<usize>))
    ensures
        found.0@.len() == vertices@.len(),
        found.1@.len() == vertices@.len(),
        forall|v: int|
            0 <= v < vertices@.len() ==> (#[trigger] found.0@[v]) == penetration_key(
                rows(vertices@)[v],
            ),
        forall|v: int|
            0 <= v < vertices@.len() && penetration(rows(vertices@)[v]) is Some ==> (
            #[trigger] found.1@[v]) as int == penetration(rows(vertices@)[v]).unwrap(),
{
    let mut keys: Vec<Option<u32>> = Vec::new();
    let mut edges: Vec<usize> = Vec::new();
    let mut v: usize = 0;
    while v < vertices.len()
        invariant
            v <= vertices.len(),
            keys@.len() == v,
            edges@.len() == v,
            forall|k: int|
                0 <= k < v ==> (#[trigger] keys@[k]) == penetration_key(rows(vertices@)[k]),
            forall|k: int|
                0 <= k < v && penetration(rows(vertices@)[k]) is Some ==> (#[trigger] edges@[k]) as int
                    == penetration(rows(vertices@)[k]).unwrap(),
        decreases vertices.len() - v,
    {
        let readings = &vertices[v];
        assert(rows(vertices@)[v as int] == readings@);
        match dist_inside(readings) {
            Some(e) => {
                keys.push(Some(readings[e].depth));
                edges.push(e);
            },
            None => {
                keys.push(None);
                edges.push(0);
            },
        }
        v += 1;
    }
    (keys, edges)
}

/// Finds the vector that separates this shape from another.
///
/// `near` is the outcome of [`max_test`]. `theirs` holds, for each vertex of
/// the other shape, its readings against the edges of this shape; `ours`
/// holds, for each vertex of this shape, its readings against the edges of
/// the other.
///
/// Where the bounding test passed, there is no separation exactly when no
/// vertex of either shape lies inside the other.
pub fn resolve(near: bool, theirs: &Vec<Vec<EdgeReading>>, ours: &Vec<Vec<EdgeReading>>) -> (found:
    Option<Separation>)
    ensures
        place_of(found) == resolution(near, rows(theirs@), rows(ours@)),
        found is None <==> !near || (none_inside(rows(theirs@)) && none_inside(rows(ours@))),
        found matches Some(s) ==> {
            &&& !s.reversed ==> s.vertex < theirs@.len() && lies_inside(rows(theirs@)[s.vertex as int])
                && s.edge < theirs@[s.vertex as int]@.len()
            &&& s.reversed ==> s.vertex < ours@.len() && lies_inside(rows(ours@)[s.vertex as int])
                && s.edge < ours@[s.vertex as int]@.len()
        },
{
    proof {
        lemma_resolution_absent(near, rows(theirs@), rows(ours@));
        lemma_resolution_present(near, rows(theirs@), rows(ours@));
    }
    if !near {
        return None;
    }
    let (mut keys, mut edges) = penetrations(theirs);
    let (mut more_keys, mut more_edges) = penetrations(ours);
    let ghost first = keys@;
    let ghost second = more_keys@;
    let ghost first_edges = edges@;
    let ghost second_edges = more_edges@;
    keys.append(&mut more_keys);
    edges.append(&mut more_edges);
    proof {
        assert(keys@ =~= first + second);
        assert(edges@ =~= first_edges + second_edges);
        assert(keys@ =~= candidates(rows(theirs@), rows(ours@)));
    }
    match nearest(&keys) {
        Some(k) => {
            proof {
                let all = candidates(rows(theirs@), rows(ours@));
                assert(all[k as int] is Some);
                if k < theirs@.len() {
                    assert(edges@[k as int] == first_edges[k as int]);
                } else {
                    assert(edges@[k as int] == second_edges[k - theirs@.len()]);
                }
            }
            if k < theirs.len() {
                Some(Separation { reversed: false, vertex: k, edge: edges[k] })
            } else {
                Some(Separation { reversed: true, vertex: k - theirs.len(), edge: edges[k] })
            }
        },
        None => None,
    }
}

/// With the bounding test passed, there is no resolution exactly when no
/// vertex of either shape lies inside the other.
pub proof fn lemma_resolution_absent(
    near: bool,
    theirs: Seq<Seq<EdgeReading>>,
    ours: Seq<Seq<EdgeReading>>,
)
    ensures
        resolution(near, theirs, ours) is None <==> !near || (none_inside(theirs) && none_inside(
            ours,
        )),
{
    let all = candidates(theirs, ours);
    lemma_nearest_of(all, 0);
    if none_inside(theirs) && none_inside(ours) {
        assert forall|k: int| 0 <= k < all.len() implies (#[trigger] all[k]) is None by {
            if k < theirs.len() {
                lemma_penetration(theirs[k]);
            } else {
                lemma_penetration(ours[k - theirs.len()]);
            }
        }
    }
    if none_present(all) {
        assert forall|v: int| 0 <= v < theirs.len() implies !lies_inside(#[trigger] theirs[v]) by {
            lemma_penetration(theirs[v]);
            assert(all[v] is None);
        }
        assert forall|v: int| 0 <= v < ours.len() implies !lies_inside(#[trigger] ours[v]) by {
            lemma_penetration(ours[v]);
            assert(all[v + theirs.len()] is None);
        }
    }
}

/// A resolution names a vertex that lies inside the other shape and an edge
/// of that shape.
pub proof fn lemma_resolution_present(
    near: bool,
    theirs: Seq<Seq<EdgeReading>>,
    ours: Seq<Seq<EdgeReading>>,
)
    ensures
        resolution(near, theirs, ours) matches Some(s) ==> {
            &&& !s.reversed ==> 0 <= s.vertex < theirs.len() && lies_inside(theirs[s.vertex]) && 0
                <= s.edge < theirs[s.vertex].len()
            &&& s.reversed ==> 0 <= s.vertex < ours.len() && lies_inside(ours[s.vertex]) && 0
                <= s.edge < ours[s.vertex].len()
        },
{
    let all = candidates(theirs, ours);
    if near && nearest_of(all) is Some {
        let k = nearest_of(all).unwrap();
        lemma_nearest_of(all, k);
        assert(all[k] is Some);
        if k < theirs.len() {
            lemma_penetration(theirs[k]);
        } else {
            lemma_penetration(ours[k - theirs.len()]);
        }
    }
}

/// The penetration keys of the vertices of one shape.
pub open spec fn penetration_keys(vertices: Seq<Seq<EdgeReading>>) -> Seq<Option<u32>> {
    Seq::new(vertices.len(), |v: int| penetration_key(vertices[v]))
}

/// The shortest penetration among the vertices of one shape, as a length
/// key; absent where none of them lies inside the other shape.
pub open spec fn shortest(vertices: Seq<Seq<EdgeReading>>) -> Option<u32> {
    match nearest_of(penetration_keys(vertices)) {
        Some(v) => penetration_key(vertices[v]),
        None => None,
    }
}

/// Resolving in the other direction gives the same penetration with the
/// opposite sign, unless the two shapes tie.
///
/// Seen from the other shape, the two lists of readings change places. Where
/// the shortest penetration of the one shape's vertices differs in length
/// from the shortest of the other's, or only one shape has a vertex inside
/// the other, both directions find the same vertex and the same edge, and
/// `reversed` is the opposite: the one resolution vector is the negation of
/// the other. Where the two are equally long, each direction takes the
/// penetration that it tested first.
pub proof fn lemma_resolution_antisymmetric(
    near: bool,
    theirs: Seq<Seq<EdgeReading>>,
    ours: Seq<Seq<EdgeReading>>,
)
    requires
        shortest(theirs) is None || shortest(theirs) != shortest(ours),
    ensures
        resolution(near, theirs, ours) is Some <==> resolution(near, ours, theirs) is Some,
        resolution(near, theirs, ours) matches Some(s) ==> resolution(near, ours, theirs) == Some(
            Place { reversed: !s.reversed, vertex: s.vertex, edge: s.edge },
        ),
{
    let a = penetration_keys(theirs);
    let b = penetration_keys(ours);
    assert(candidates(theirs, ours) =~= a + b);
    assert(candidates(ours, theirs) =~= b + a);
    lemma_nearest_concat(a, b);
    lemma_nearest_concat(b, a);
    lemma_nearest_of(a, 0);
    lemma_nearest_of(b, 0);
    if nearest_of(a) is Some {
        lemma_nearest_of(a, nearest_of(a)->0);
    }
    if nearest_of(b) is Some {
        lemma_nearest_of(b, nearest_of(b)->0);
    }
}

/// What one edge of a polygon reports about a ray.
#[derive(Clone, Copy, Debug, PartialEq, Eq, Structural)]
pub struct Meeting {
    /// Where the point in which the ray's line meets the edge's line stands
    /// against the two ends of the edge.
    pub crossing: Crossing,
    /// How that point compares against the line through the ray's origin
    /// that is perpendicular to the ray.
    pub ahead: Side,
    /// Length key of the vector to that point.
    pub reach: u32,
}

/// The key under which an edge competes for the nearest hit: its reach where
/// the ray's line meets the edge within its two ends and in front of the
/// origin, and nothing otherwise.
pub open spec fn ray_key(normal: InEq, edge: Option<Meeting>) -> Option<u32> {
    match edge {
        Some(meeting) => if meeting.crossing.on_segment() && normal.holds(meeting.ahead) {
            Some(meeting.reach)
        } else {
            None
        },
        None => None,
    }
}

/// The keys of all edges of a polygon.
pub open spec fn ray_keys(normal: InEq, edges: Seq<Option<Meeting>>) -> Seq<Option<u32>> {
    Seq::new(edges.len(), |e: int| ray_key(normal, edges[e]))
}

/// Finds the edge that a ray meets first.
///
/// `normal` is the half-plane in front of the ray's origin. `edges` holds one
/// entry per edge of the polygon, absent where the ray's line and the edge's
/// line have no single point in common. An edge is hit where the meeting point
/// lies within the edge and strictly inside `normal`. The result is the hit
/// edge of least reach, the first among equals, or nothing where no edge is
/// hit.
pub fn receive_ray(normal: InEq, edges: &Vec<Option<Meeting>>) -> (hit: Option<usize>)
    ensures
        hit is None <==> none_present(ray_keys(normal, edges@)),
        hit matches Some(e) ==> is_nearest(ray_keys(normal, edges@), e as int),
        (match hit {
            Some(e) => Some(e as int),
            None => None,
        }) == nearest_of(ray_keys(normal, edges@)),
{
    let mut keys: Vec<Option<u32>> = Vec::new();
    let mut e: usize = 0;
    while e < edges.len()
        invariant
            e <= edges.len(),
            keys@.len() == e,
            forall|k: int| 0 <= k < e ==> (#[trigger] keys@[k]) == ray_key(normal, edges@[k]),
        decreases edges.len() - e,
    {
        let key = match edges[e] {
            Some(meeting) => {
                if meeting.crossing.within() && normal.contains(meeting.ahead) {
                    Some(meeting.reach)
                } else {
                    None
                }
            },
            None => None,
        };
        keys.push(key);
        e += 1;
    }
    proof {
        assert(keys@ =~= ray_keys(normal, edges@));
    }
    nearest(&keys)
}

} // verus!
