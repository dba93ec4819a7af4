//! The registry of live shapes.
//!
//! Every registered shape has an identifier, a tag and a handle. Identifiers
//! grow with each registration, so the entries stay sorted by identifier and
//! an entry is found by bisection. A shape leaves the registry when its
//! handle is released, and in no other way.
//!
//! The registry owns its entries and nothing else: a caller that shares it
//! between threads wraps it in a lock of its own, and may wrap each shape in
//! one as well.

use crate::nearest::{is_nearest, nearest, nearest_of, none_present};
use vstd::prelude::*;

verus! {

/// The owning reference to one registry entry.
///
/// It is made by registering a shape and consumed by releasing it. It cannot
/// be copied.
pub struct ShapeHandle {
    id: usize,
}

impl ShapeHandle {
    /// The identifier of the entry that this handle owns.
    pub closed spec fn ident(&self) -> usize {
        self.id
    }

    /// The identifier of the entry that this handle owns.
    pub fn id(&self) -> (id: usize)
        ensures
            id == self.ident(),
    {
        self.id
    }
}

/// The identifiers grow strictly from one entry to the next.
pub open spec fn ascending<T, S>(entries: Seq<(usize, T, S)>) -> bool {
    forall|i: int, j: int|
        0 <= i < j < entries.len() ==> (#[trigger] entries[i]).0 < (#[trigger] entries[j]).0
}

/// Some entry has this identifier.
pub open spec fn holds<T, S>(entries: Seq<(usize, T, S)>, id: usize) -> bool {
    exists|i: int| 0 <= i < entries.len() && (#[trigger] entries[i]).0 == id
}

/// The place of the entry with this identifier.
pub open spec fn place_of<T, S>(entries: Seq<(usize, T, S)>, id: usize) -> int {
    choose|i: int| 0 <= i < entries.len() && (#[trigger] entries[i]).0 == id
}

/// The identifier that the next registration gets: one more than the last
/// entry's, and zero in an empty registry.
pub open spec fn next_id<T, S>(entries: Seq<(usize, T, S)>) -> int {
    if entries.len() == 0 {
        0
    } else {
        entries.last().0 + 1
    }
}

/// The registry after a batch of registrations: the new entries follow the
/// old ones in the order of the batch, with consecutive identifiers from the
/// next one on.
pub open spec fn registered<T, S>(entries: Seq<(usize, T, S)>, batch: Seq<(S, T)>) -> Seq<
    (usize, T, S),
> {
    entries + Seq::new(
        batch.len(),
        |k: int| ((next_id(entries) + k) as usize, batch[k].1, batch[k].0),
    )
}

/// In a sorted registry an identifier belongs to one entry at most.
pub proof fn lemma_ids_unique<T, S>(entries: Seq<(usize, T, S)>, i: int, j: int)
    requires
        ascending(entries),
        0 <= i < entries.len(),
        0 <= j < entries.len(),
        entries[i].0 == entries[j].0,
    ensures
        i == j,
{
}

/// The next identifier is larger than every identifier in the registry, so
/// no live entry holds it.
pub proof fn lemma_next_id_fresh<T, S>(entries: Seq<(usize, T, S)>)
    requires
        ascending(entries),
    ensures
        forall|i: int| 0 <= i < entries.len() ==> (#[trigger] entries[i]).0 < next_id(entries),
        next_id(entries) <= usize::MAX ==> !holds(entries, next_id(entries) as usize),
{
    assert forall|i: int| 0 <= i < entries.len() implies (#[trigger] entries[i]).0 < next_id(
        entries,
    ) by {
        if i < entries.len() - 1 {
            assert(entries[i].0 < entries[entries.len() - 1].0);
        }
    }
}

/// Releasing an entry leaves the others as they were, in their order, and
/// the registry sorted. The released identifier is held no more, and the
/// identifier that comes next is held by none of those that stay.
pub proof fn lemma_release<T, S>(entries: Seq<(usize, T, S)>, id: usize)
    requires
        ascending(entries),
        holds(entries, id),
    ensures
        ascending(entries.remove(place_of(entries, id))),
        entries.remove(place_of(entries, id)).len() == entries.len() - 1,
        !holds(entries.remove(place_of(entries, id)), id),
        forall|other: usize|
            other != id ==> (holds(entries.remove(place_of(entries, id)), other) <==> holds(
                entries,
                other,
            )),
        next_id(entries.remove(place_of(entries, id))) <= usize::MAX ==> !holds(
            entries.remove(place_of(entries, id)),
            next_id(entries.remove(place_of(entries, id))) as usize,
        ),
{
    let p = place_of(entries, id);
    assert(0 <= p < entries.len() && entries[p].0 == id);
    let rest = entries.remove(p);
    assert forall|i: int, j: int| 0 <= i < j < rest.len() implies (#[trigger] rest[i]).0 < (
    #[trigger] rest[j]).0 by {
        let a = if i < p {
            i
        } else {
            i + 1
        };
        let b = if j < p {
            j
        } else {
            j + 1
        };
        assert(rest[i] == entries[a]);
        assert(rest[j] == entries[b]);
    }
    assert forall|i: int| 0 <= i < rest.len() implies (#[trigger] rest[i]).0 != id by {
        let a = if i < p {
            i
        } else {
            i + 1
        };
        assert(rest[i] == entries[a]);
        if entries[a].0 == id {
            lemma_ids_unique(entries, a, p);
        }
    }
    assert forall|other: usize| other != id implies (holds(rest, other) <==> holds(
        entries,
        other,
    )) by {
        if holds(rest, other) {
            let i = choose|i: int| 0 <= i < rest.len() && (#[trigger] rest[i]).0 == other;
            let a = if i < p {
                i
            } else {
                i + 1
            };
            assert(rest[i] == entries[a]);
        }
        if holds(entries, other) {
            let a = choose|a: int| 0 <= a < entries.len() && (#[trigger] entries[a]).0 == other;
            let i = if a < p {
                a
            } else {
                a - 1
            };
            assert(rest[i] == entries[a]);
        }
    }
    lemma_next_id_fresh(rest);
}

/// Registering a batch is registering its shapes one by one: each gets the
/// identifier that is next at its turn.
pub proof fn lemma_registered_one_by_one<T, S>(
    entries: Seq<(usize, T, S)>,
    batch: Seq<(S, T)>,
    shape: S,
    tag: T,
)
    requires
        next_id(entries) + batch.len() <= usize::MAX,
    ensures
        registered(entries, Seq::<(S, T)>::empty()) == entries,
        next_id(registered(entries, batch)) == next_id(entries) + batch.len(),
        registered(entries, batch.push((shape, tag))) == registered(entries, batch).push(
            (next_id(registered(entries, batch)) as usize, tag, shape),
        ),
{
    let before = registered(entries, batch);
    let after = registered(entries, batch.push((shape, tag)));
    assert(registered(entries, Seq::<(S, T)>::empty()) =~= entries);
    if batch.len() > 0 {
        assert(before.last() == before[entries.len() + batch.len() - 1]);
    } else {
        assert(before =~= entries);
    }
    assert(after =~= before.push((next_id(before) as usize, tag, shape)));
}

/// Registering a batch in an empty registry numbers the entries from zero;
/// releasing the first then leaves one entry fewer, numbered from one, and
/// the identifier that comes next is held by none of them.
pub proof fn lemma_release_first<T, S>(batch: Seq<(S, T)>)
    requires
        1 <= batch.len() <= usize::MAX,
    ensures
        ({
            let full = registered(Seq::<(usize, T, S)>::empty(), batch);
            let rest = full.remove(place_of(full, 0));
            &&& full.len() == batch.len()
            &&& ascending(full)
            &&& forall|k: int| 0 <= k < full.len() ==> (#[trigger] full[k]).0 == k
            &&& rest.len() == batch.len() - 1
            &&& ascending(rest)
            &&& forall|k: int| 0 <= k < rest.len() ==> (#[trigger] rest[k]).0 == k + 1
            &&& next_id(rest) <= usize::MAX ==> !holds(rest, next_id(rest) as usize)
        }),
{
    let full = registered(Seq::<(usize, T, S)>::empty(), batch);
    assert(full[0].0 == 0);
    assert(holds(full, 0));
    let p = place_of(full, 0);
    assert(0 <= p < full.len() && full[p].0 == 0);
    assert(p == 0);
    lemma_release(full, 0);
}

/// An entry counts as hit: it has an outcome, and it is not the entry to
/// leave out.
pub open spec fn is_hit<V, T, S>(
    entries: Seq<(usize, T, S)>,
    outcomes: Seq<Option<V>>,
    skip: Option<usize>,
    i: int,
) -> bool {
    &&& 0 <= i < entries.len()
    &&& i < outcomes.len()
    &&& outcomes[i] is Some
    &&& skip != Some(entries[i].0)
}

/// The hits among the first `upto` entries, in the order of the registry:
/// each with its outcome and its place.
pub open spec fn kept<V, T, S>(
    entries: Seq<(usize, T, S)>,
    outcomes: Seq<Option<V>>,
    skip: Option<usize>,
    upto: int,
) -> Seq<(V, int)>
    decreases upto,
{
    if upto <= 0 {
        Seq::empty()
    } else if is_hit(entries, outcomes, skip, upto - 1) {
        kept(entries, outcomes, skip, upto - 1).push((outcomes[upto - 1].unwrap(), upto - 1))
    } else {
        kept(entries, outcomes, skip, upto - 1)
    }
}

/// `kept` holds the hits and nothing else, each once, in rising order of
/// place.
pub proof fn lemma_kept<V, T, S>(
    entries: Seq<(usize, T, S)>,
    outcomes: Seq<Option<V>>,
    skip: Option<usize>,
    upto: int,
)
    ensures
        forall|k: int|
            0 <= k < kept(entries, outcomes, skip, upto).len() ==> {
                let hit = #[trigger] kept(entries, outcomes, skip, upto)[k];
                &&& hit.1 < upto
                &&& is_hit(entries, outcomes, skip, hit.1)
                &&& hit.0 == outcomes[hit.1].unwrap()
            },
        forall|k: int, l: int|
            0 <= k < l < kept(entries, outcomes, skip, upto).len() ==> (#[trigger] kept(
                entries,
                outcomes,
                skip,
                upto,
            )[k]).1 < (#[trigger] kept(entries, outcomes, skip, upto)[l]).1,
        forall|i: int|
            0 <= i < upto && #[trigger] is_hit(entries, outcomes, skip, i) ==> exists|k: int|
                0 <= k < kept(entries, outcomes, skip, upto).len() && (#[trigger] kept(
                    entries,
                    outcomes,
                    skip,
                    upto,
                )[k]).1 == i,
    decreases upto,
{
    if upto > 0 {
        lemma_kept(entries, outcomes, skip, upto - 1);
        let before = kept(entries, outcomes, skip, upto - 1);
        let now = kept(entries, outcomes, skip, upto);
        assert forall|i: int| 0 <= i < upto && #[trigger] is_hit(entries, outcomes, skip, i) implies exists|
            k: int,
        |
            0 <= k < now.len() && (#[trigger] now[k]).1 == i by {
            if i < upto - 1 {
                let k = choose|k: int| 0 <= k < before.len() && (#[trigger] before[k]).1 == i;
                assert(now[k] == before[k]);
            } else {
                assert(now[before.len() as int].1 == i);
            }
        }
    }
}

/// The length keys of the outcomes, each at the place of its entry. An
/// outcome beyond the last entry has no key.
pub open spec fn reach_keys<V, T, S>(entries: Seq<(usize, T, S)>, outcomes: Seq<Option<(u32, V)>>) -> Seq<
    Option<u32>,
> {
    Seq::new(
        outcomes.len(),
        |i: int|
            if i < entries.len() && outcomes[i] is Some {
                Some(outcomes[i].unwrap().0)
            } else {
                None
            },
    )
}

/// The live shapes, each with its identifier and its tag, sorted by
/// identifier.
pub struct PhysicsWorld<T, S> {
    entries: Vec<(usize, T, S)>,
}

impl<T, S> View for PhysicsWorld<T, S> {
    type V = Seq<(usize, T, S)>;

    closed spec fn view(&self) -> Seq<(usize, T, S)> {
        self.entries@
    }
}

impl<T, S> PhysicsWorld<T, S> {
    /// The entries are sorted by identifier.
    pub open spec fn well_formed(&self) -> bool {
        ascending(self@)
    }

    /// An empty registry.
    pub fn new() -> (world: Self)
        ensures
            world.well_formed(),
            world@.len() == 0,
    {
        PhysicsWorld { entries: Vec::new() }
    }

    /// The number of live entries.
    pub fn len(&self) -> (count: usize)
        ensures
            count == self@.len(),
    {
        self.entries.len()
    }

    /// Registers a shape under the next identifier and gives out its handle.
    ///
    /// The identifier is one more than that of the last entry, and zero in an
    /// empty registry, so no live entry holds it.
    pub fn add_shape(&mut self, shape: S, tag: T) -> (handle: ShapeHandle)
        requires
            old(self).well_formed(),
            next_id(old(self)@) <= usize::MAX,
        ensures
            final(self).well_formed(),
            handle.ident() == next_id(old(self)@),
            !holds(old(self)@, handle.ident()),
            final(self)@ == old(self)@.push((handle.ident(), tag, shape)),
    {
        proof {
            lemma_next_id_fresh(self@);
        }
        let count = self.entries.len();
        let id: usize = if count == 0 {
            0
        } else {
            self.entries[count - 1].0 + 1
        };
        self.entries.push((id, tag, shape));
        ShapeHandle { id }
    }

    /// Registers a batch of shapes under consecutive identifiers and gives out
    /// their handles, in the order of the batch.
    pub fn add_shapes(&mut self, shapes: Vec<(S, T)>) -> (handles: Vec<ShapeHandle>)
        requires
            old(self).well_formed(),
            next_id(old(self)@) + shapes@.len() <= usize::MAX,
        ensures
            final(self).well_formed(),
            final(self)@ == registered(old(self)@, shapes@),
            handles@.len() == shapes@.len(),
            forall|k: int|
                0 <= k < handles@.len() ==> (#[trigger] handles@[k]).ident() == next_id(old(self)@)
                    + k,
    {
        let count = self.entries.len();
        let mut next: usize = if count == 0 {
            0
        } else {
            self.entries[count - 1].0 + 1
        };
        let ghost first = next as int;
        let ghost before = self@;
        let mut handles: Vec<ShapeHandle> = Vec::new();
        for pair in it: shapes
            invariant
                it.seq() == shapes@,
                first == next_id(before),
                first + shapes@.len() <= usize::MAX,
                next == first + it.index(),
                handles@.len() == it.index(),
                forall|k: int| 0 <= k < handles@.len() ==> (#[trigger] handles@[k]).ident() == first + k,
                ascending(self@),
                self@ == before + Seq::new(
                    it.index() as nat,
                    |k: int| ((first + k) as usize, shapes@[k].1, shapes@[k].0),
                ),
                next_id(self@) == next,
        {
            let ghost held = self@;
            let (shape, tag) = pair;
            let handle = self.add_shape(shape, tag);
            proof {
                assert(self@ =~= before + Seq::new(
                    (it.index() + 1) as nat,
                    |k: int| ((first + k) as usize, shapes@[k].1, shapes@[k].0),
                ));
            }
            handles.push(handle);
            next = next + 1;
        }
        handles
    }

    /// Finds the place of the entry with this identifier, by bisection.
    pub fn find(&self, id: usize) -> (place: Option<usize>)
        requires
            self.well_formed(),
        ensures
            place is Some <==> holds(self@, id),
            place matches Some(p) ==> p < self@.len() && self@[p as int].0 == id && p == place_of(
                self@,
                id,
            ),
    {
        let mut low: usize = 0;
        let mut high: usize = self.entries.len();
        while low < high
            invariant
                low <= high <= self.entries@.len(),
                ascending(self.entries@),
                forall|i: int| 0 <= i < low ==> (#[trigger] self.entries@[i]).0 < id,
                forall|i: int| high <= i < self.entries@.len() ==> (#[trigger] self.entries@[i]).0 > id,
            decreases high - low,
        {
            let middle: usize = low + (high - low) / 2;
            let key: usize = self.entries[middle].0;
            if key == id {
                proof {
                    let p = place_of(self@, id);
                    lemma_ids_unique(self@, middle as int, p);
                }
                return Some(middle);
            } else if key < id {
                low = middle + 1;
            } else {
                high = middle;
            }
        }
        None
    }

    /// Whether some live entry has this identifier.
    pub fn has(&self, id: usize) -> (live: bool)
        requires
            self.well_formed(),
        ensures
            live == holds(self@, id),
    {
        self.find(id).is_some()
    }

    /// The place of a live entry.
    pub fn get_index(&self, id: usize) -> (place: usize)
        requires
            self.well_formed(),
            holds(self@, id),
        ensures
            place < self@.len(),
            self@[place as int].0 == id,
            place == place_of(self@, id),
    {
        self.find(id).unwrap()
    }

    fn hits<V: Copy>(&self, outcomes: &Vec<Option<V>>, skip: Option<usize>) -> (out: Vec<(V, &T)>)
        ensures
            out@.len() == kept(self@, outcomes@, skip, self@.len() as int).len(),
            forall|k: int|
                0 <= k < out@.len() ==> {
                    let hit = kept(self@, outcomes@, skip, self@.len() as int)[k];
                    &&& (#[trigger] out@[k]).0 == hit.0
                    &&& *out@[k].1 == self@[hit.1].1
                },
    {
        let mut out: Vec<(V, &T)> = Vec::new();
        let mut i: usize = 0;
        while i < self.entries.len()
            invariant
                i <= self.entries@.len(),
                out@.len() == kept(self@, outcomes@, skip, i as int).len(),
                forall|k: int|
                    0 <= k < out@.len() ==> {
                        let hit = kept(self@, outcomes@, skip, i as int)[k];
                        &&& (#[trigger] out@[k]).0 == hit.0
                        &&& *out@[k].1 == self@[hit.1].1
                    },
            decreases self.entries@.len() - i,
        {
            let ghost before = kept(self@, outcomes@, skip, i as int);
            let ghost now = kept(self@, outcomes@, skip, i as int + 1);
            let ghost held = out@;
            let left_out = match skip {
                Some(id) => self.entries[i].0 == id,
                None => false,
            };
            if i < outcomes.len() && !left_out {
                match outcomes[i] {
                    Some(outcome) => {
                        out.push((outcome, &self.entries[i].1));
                    },
                    None => {},
                }
            }
            proof {
                assert forall|k: int| 0 <= k < out@.len() implies {
                    let hit = now[k];
                    &&& (#[trigger] out@[k]).0 == hit.0
                    &&& *out@[k].1 == self@[hit.1].1
                } by {
                    if k < held.len() {
                        assert(out@[k] == held[k]);
                        assert(now[k] == before[k]);
                    }
                }
            }
            i += 1;
        }
        out
    }

    /// The shapes that a ray meets, in the order of the registry.
    ///
    /// `outcomes` holds, at the place of each entry, the distance at which
    /// the ray meets that entry's shape, where it does. The result pairs
    /// each distance with the entry's tag.
    pub fn raycast<V: Copy>(&self, outcomes: &Vec<Option<V>>) -> (out: Vec<(V, &T)>)
        ensures
            out@.len() == kept(self@, outcomes@, None, self@.len() as int).len(),
            forall|k: int|
                0 <= k < out@.len() ==> {
                    let hit = kept(self@, outcomes@, None, self@.len() as int)[k];
                    &&& (#[trigger] out@[k]).0 == hit.0
                    &&& *out@[k].1 == self@[hit.1].1
                },
    {
        self.hits(outcomes, None)
    }

    /// The shape that a ray meets first.
    ///
    /// `outcomes` holds, at the place of each entry, the distance at which
    /// the ray meets that entry's shape, where it does, with its length key
    /// in front. The result is the distance of least key, from the first
    /// entry among equals, with that entry's tag; or nothing where the ray
    /// meets no shape.
    pub fn raycast_nearest<V: Copy>(&self, outcomes: &Vec<Option<(u32, V)>>) -> (out: Option<
        (V, &T),
    >)
        ensures
            out is None <==> none_present(reach_keys(self@, outcomes@)),
            out matches Some(hit) ==> {
                let place = nearest_of(reach_keys(self@, outcomes@)).unwrap();
                &&& is_nearest(reach_keys(self@, outcomes@), place)
                &&& place < self@.len()
                &&& hit.0 == outcomes@[place].unwrap().1
                &&& *hit.1 == self@[place].1
            },
    {
        let mut keys: Vec<Option<u32>> = Vec::new();
        let mut i: usize = 0;
        while i < outcomes.len()
            invariant
                i <= outcomes@.len(),
                keys@.len() == i,
                forall|k: int|
                    0 <= k < i ==> (#[trigger] keys@[k]) == reach_keys(self@, outcomes@)[k],
            decreases outcomes@.len() - i,
        {
            let key = if i < self.entries.len() {
                match outcomes[i] {
                    Some(outcome) => Some(outcome.0),
                    None => None,
                }
            } else {
                None
            };
            keys.push(key);
            i += 1;
        }
        proof {
            assert(keys@ =~= reach_keys(self@, outcomes@));
        }
        match nearest(&keys) {
            Some(place) => {
                match outcomes[place] {
                    Some(outcome) => Some((outcome.1, &self.entries[place].1)),
                    None => None,
                }
            },
            None => None,
        }
    }

    /// The identifier of the entry at a place.
    pub fn id_at(&self, place: usize) -> (id: usize)
        requires
            place < self@.len(),
        ensures
            id == self@[place as int].0,
    {
        self.entries[place].0
    }

    /// The tag of the entry at a place.
    pub fn tag_at(&self, place: usize) -> (tag: &T)
        requires
            place < self@.len(),
        ensures
            *tag == self@[place as int].1,
    {
        &self.entries[place].1
    }

    /// The shape of the entry at a place.
    pub fn shape_at(&self, place: usize) -> (shape: &S)
        requires
            place < self@.len(),
        ensures
            *shape == self@[place as int].2,
    {
        &self.entries[place].2
    }
}

impl ShapeHandle {
    /// Removes the entry that the handle owns from the registry. The handle
    /// is used up.
    pub fn release<T, S>(self, world: &mut PhysicsWorld<T, S>)
        requires
            old(world).well_formed(),
            holds(old(world)@, self.ident()),
        ensures
            final(world).well_formed(),
            final(world)@ == old(world)@.remove(place_of(old(world)@, self.ident())),
            final(world)@.len() == old(world)@.len() - 1,
            !holds(final(world)@, self.ident()),
    {
        proof {
            lemma_release(world@, self.id);
        }
        let place = world.get_index(self.id);
        world.entries.remove(place);
    }

    /// The tag of the entry that the handle owns.
    pub fn tag<'a, T, S>(&self, world: &'a PhysicsWorld<T, S>) -> (tag: &'a T)
        requires
            world.well_formed(),
            holds(world@, self.ident()),
        ensures
            *tag == world@[place_of(world@, self.ident())].1,
    {
        let place = world.get_index(self.id);
        &world.entries[place].1
    }

    /// The shape of the entry that the handle owns.
    pub fn shape<'a, T, S>(&self, world: &'a PhysicsWorld<T, S>) -> (shape: &'a S)
        requires
            world.well_formed(),
            holds(world@, self.ident()),
        ensures
            *shape == world@[place_of(world@, self.ident())].2,
    {
        let place = world.get_index(self.id);
        &world.entries[place].2
    }

    /// The overlaps of the handle's shape with all others.
    ///
    /// `outcomes` holds, at the place of each entry, what resolving the
    /// handle's shape against that entry's shape gave. The result has one
    /// item for each other entry with an outcome, in the order of the
    /// registry: the outcome and the entry's tag. What stands at the place
    /// of the handle's own entry is passed over.
    pub fn collisions<'a, V: Copy, T, S>(
        &self,
        world: &'a PhysicsWorld<T, S>,
        outcomes: &Vec<Option<V>>,
    ) -> (out: Vec<(V, &'a T)>)
        requires
            world.well_formed(),
            holds(world@, self.ident()),
        ensures
            out@.len() == kept(world@, outcomes@, Some(self.ident()), world@.len() as int).len(),
            forall|k: int|
                0 <= k < out@.len() ==> {
                    let hit = kept(world@, outcomes@, Some(self.ident()), world@.len() as int)[k];
                    &&& (#[trigger] out@[k]).0 == hit.0
                    &&& *out@[k].1 == world@[hit.1].1
                },
    {
        world.hits(outcomes, Some(self.id))
    }
}

} // verus!
