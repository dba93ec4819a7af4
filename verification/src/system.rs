//! The contacts of one shape with all others, as a record that a simulation
//! step writes once per shape.
//!
//! Most shapes touch nothing or one other shape, so the record keeps its
//! first contact inline and goes to the heap only for more.

use smallvec::SmallVec;
use vstd::prelude::*;

verus! {

/// A `smallvec::SmallVec` with room for one item inline.
#[verifier::external_body]
pub struct Record {
    items: SmallVec<[(bool, usize); 1]>,
}

/// The items that a record holds, in the order in which they were pushed.
pub uninterp spec fn record_items(record: Record) -> Seq<(bool, usize)>;

/// The largest number of contacts that one record takes.
pub const RECORD_LIMIT: usize = 0x100_0000;

/// `SmallVec::new`: a vector without items.
#[verifier::external_body]
fn record_new() -> (record: Record)
    ensures
        record_items(record) == Seq::<(bool, usize)>::empty(),
{
    Record { items: SmallVec::new() }
}

/// `SmallVec::push`: appends one item and leaves the others in place.
///
/// The call grows the buffer to the next power of two and panics where that
/// size cannot be allocated; below [`RECORD_LIMIT`] items the size stays far
/// from that.
#[verifier::external_body]
fn record_push(record: &mut Record, item: (bool, usize))
    requires
        record_items(*old(record)).len() < RECORD_LIMIT,
    ensures
        record_items(*final(record)) == record_items(*old(record)).push(item),
{
    record.items.push(item)
}

/// `SmallVec::as_slice`: all items of the vector, as a slice.
#[verifier::external_body]
fn record_slice(record: &Record) -> (items: &[(bool, usize)])
    ensures
        items@ == record_items(*record),
{
    record.items.as_slice()
}

/// Shape `i` is in contact: it has an outcome and is not the shape whose
/// record is written.
pub open spec fn in_contact(outcomes: Seq<Option<bool>>, own: int, i: int) -> bool {
    &&& 0 <= i < outcomes.len()
    &&& i != own
    &&& outcomes[i] is Some
}

/// The contacts among the first `upto` shapes, in their order: for each,
/// whether it pushes the shape away, and its number.
pub open spec fn contacts(outcomes: Seq<Option<bool>>, own: int, upto: int) -> Seq<(bool, usize)>
    decreases upto,
{
    if upto <= 0 {
        Seq::empty()
    } else if in_contact(outcomes, own, upto - 1) {
        contacts(outcomes, own, upto - 1).push((outcomes[upto - 1].unwrap(), (upto - 1) as usize))
    } else {
        contacts(outcomes, own, upto - 1)
    }
}

/// There are no more contacts than shapes looked at.
pub proof fn lemma_contacts_len(outcomes: Seq<Option<bool>>, own: int, upto: int)
    ensures
        contacts(outcomes, own, upto).len() <= (if upto <= 0 {
            0
        } else {
            upto
        }),
    decreases upto,
{
    if upto > 0 {
        lemma_contacts_len(outcomes, own, upto - 1);
    }
}

/// `contacts` holds the shapes in contact and no others, each once, in
/// rising order of their numbers, each with its own outcome.
pub proof fn lemma_contacts(outcomes: Seq<Option<bool>>, own: int, upto: int)
    requires
        upto <= usize::MAX,
    ensures
        forall|k: int|
            0 <= k < contacts(outcomes, own, upto).len() ==> {
                let contact = #[trigger] contacts(outcomes, own, upto)[k];
                &&& contact.1 < upto
                &&& in_contact(outcomes, own, contact.1 as int)
                &&& contact.0 == outcomes[contact.1 as int].unwrap()
            },
        forall|k: int, l: int|
            0 <= k < l < contacts(outcomes, own, upto).len() ==> (#[trigger] contacts(
                outcomes,
                own,
                upto,
            )[k]).1 < (#[trigger] contacts(outcomes, own, upto)[l]).1,
        forall|i: int|
            0 <= i < upto && #[trigger] in_contact(outcomes, own, i) ==> exists|k: int|
                0 <= k < contacts(outcomes, own, upto).len() && (#[trigger] contacts(
                    outcomes,
                    own,
                    upto,
                )[k]).1 == i,
    decreases upto,
{
    if upto > 0 {
        lemma_contacts(outcomes, own, upto - 1);
        let before = contacts(outcomes, own, upto - 1);
        let now = contacts(outcomes, own, upto);
        assert forall|i: int| 0 <= i < upto && #[trigger] in_contact(outcomes, own, i) implies exists|
            k: int,
        |
            0 <= k < now.len() && (#[trigger] now[k]).1 == i by {
            if i < upto - 1 {
                let k = choose|k: int| 0 <= k < before.len() && (#[trigger] before[k]).1 == i;
                assert(now[k] == before[k]);
            } else {
                assert(now[before.len() as int].1 == i);
            }
        }
    }
}

/// The contacts of one shape.
pub struct Collisions {
    collisions: Record,
}

impl View for Collisions {
    type V = Seq<(bool, usize)>;

    closed spec fn view(&self) -> Seq<(bool, usize)> {
        record_items(self.collisions)
    }
}

impl Collisions {
    /// A record without contacts.
    pub fn new() -> (record: Self)
        ensures
            record@.len() == 0,
    {
        Collisions { collisions: record_new() }
    }

    /// The contacts, in the order of the shapes: for each, whether it pushes
    /// the shape away, and the number of the other shape.
    pub fn collisions(&self) -> (items: &[(bool, usize)])
        ensures
            items@ == self@,
    {
        record_slice(&self.collisions)
    }

    /// Writes the record of shape `own` from the outcomes of testing it
    /// against every shape.
    ///
    /// `outcomes` holds, at the number of each shape, nothing where the two
    /// are apart, `false` where they touch, and `true` where they overlap and
    /// the other shape pushes this one away. What stands at `own` is passed
    /// over. Every other shape with an outcome is recorded, in order.
    pub fn gather(own: usize, outcomes: &Vec<Option<bool>>) -> (record: Self)
        requires
            outcomes@.len() <= RECORD_LIMIT,
        ensures
            record@ == contacts(outcomes@, own as int, outcomes@.len() as int),
    {
        let mut collisions = record_new();
        let mut i: usize = 0;
        while i < outcomes.len()
            invariant
                i <= outcomes@.len(),
                outcomes@.len() <= RECORD_LIMIT,
                record_items(collisions) == contacts(outcomes@, own as int, i as int),
            decreases outcomes@.len() - i,
        {
            proof {
                lemma_contacts_len(outcomes@, own as int, i as int);
            }
            if i != own {
                match outcomes[i] {
                    Some(pushes) => {
                        record_push(&mut collisions, (pushes, i));
                    },
                    None => {},
                }
            }
            i += 1;
        }
        Collisions { collisions }
    }
}

} // verus!
