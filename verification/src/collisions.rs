//! Reporting every overlapping pair of a stream of shapes, in both
//! directions, one pull at a time.
//!
//! The shapes stay with the caller, who buffers them as they arrive and
//! numbers them from zero. [`Collisions`] keeps the place in the walk over all
//! pairs: each buffered shape is tested against every shape buffered before
//! it, once. It tells the caller what to do next ([`Step`]): hand out a
//! report, test one pair, or pull one more shape. A pair that overlaps gives
//! two reports: the later shape against the earlier one at once, and the
//! earlier against the later, held back for the very next step.

use vstd::prelude::*;

verus! {

/// One report: `collider` overlaps `other`, and moving `collider` by
/// `resolution` separates the two.
pub struct Collision<V> {
    pub collider: usize,
    pub resolution: V,
    pub other: usize,
}

/// A [`Collision`] with its two shape numbers as mathematical integers.
pub struct Report<V> {
    pub collider: int,
    pub resolution: V,
    pub other: int,
}

impl<V> View for Collision<V> {
    type V = Report<V>;

    open spec fn view(&self) -> Report<V> {
        Report { collider: self.collider as int, resolution: self.resolution, other: self.other as int }
    }
}

/// What the caller is to do next.
pub enum Step<V> {
    /// Hand this report out.
    Emit(Collision<V>),
    /// Resolve shape `collider` against shape `other` and say what came of
    /// it with [`Collisions::tested`].
    Test { collider: usize, other: usize },
    /// Pull one more shape from the source. Where there is one, buffer it
    /// and call [`Collisions::pulled`]; where there is none, the stream has
    /// ended.
    Pull,
}

/// The place in the walk over all pairs, and the report held back.
pub struct Collisions<V> {
    collected: usize,
    collider: usize,
    other: usize,
    grab: Option<Collision<V>>,
}

impl<V> Collisions<V> {
    /// How many shapes the caller has buffered.
    pub closed spec fn collected(&self) -> nat {
        self.collected as nat
    }

    /// The later shape of the next pair to test.
    pub closed spec fn collider(&self) -> nat {
        self.collider as nat
    }

    /// The earlier shape of the next pair to test.
    pub closed spec fn other(&self) -> nat {
        self.other as nat
    }

    /// The report held back for the next step.
    pub closed spec fn grab(&self) -> Option<Collision<V>> {
        self.grab
    }

    /// The next pair is a proper one. It does not run ahead of the buffer by
    /// more than the first shape, which has nothing before it, and a shape
    /// whose tests have begun is in the buffer.
    pub open spec fn well_formed(&self) -> bool {
        &&& self.other() < self.collider()
        &&& self.collider() <= self.collected() || self.collider() == 1
        &&& self.other() == 0 || self.collider() < self.collected()
    }

    /// A pair of buffered shapes is waiting to be tested.
    pub open spec fn test_due(&self) -> bool {
        self.collider() < self.collected()
    }

    /// The pair that follows `(collider, other)` in the walk.
    pub open spec fn pair_after(collider: nat, other: nat) -> (nat, nat) {
        if other + 1 < collider {
            (collider, other + 1)
        } else {
            (collider + 1, 0)
        }
    }

    /// Nothing buffered, nothing held back, the walk at its first pair.
    pub fn new() -> (fresh: Self)
        ensures
            fresh.well_formed(),
            fresh.collected() == 0,
            fresh.collider() == 1,
            fresh.other() == 0,
            fresh.grab() is None,
    {
        Collisions { collected: 0, collider: 1, other: 0, grab: None }
    }

    /// The next step. A report that was held back comes first; then a pair
    /// that is waiting; and where neither is there, one more shape is
    /// needed.
    pub fn advance(&mut self) -> (step: Step<V>)
        requires
            old(self).well_formed(),
        ensures
            final(self).well_formed(),
            final(self).collected() == old(self).collected(),
            final(self).collider() == old(self).collider(),
            final(self).other() == old(self).other(),
            final(self).grab() is None,
            match old(self).grab() {
                Some(held) => step == Step::Emit(held),
                None => if old(self).test_due() {
                    step == (Step::<V>::Test {
                        collider: old(self).collider() as usize,
                        other: old(self).other() as usize,
                    })
                } else {
                    step == Step::<V>::Pull
                },
            },
    {
        match self.grab.take() {
            Some(held) => Step::Emit(held),
            None => {
                if self.collider < self.collected {
                    Step::Test { collider: self.collider, other: self.other }
                } else {
                    Step::Pull
                }
            },
        }
    }

    /// Takes the outcome of the test that [`Step::Test`] asked for.
    ///
    /// `outcome` is absent where the two shapes do not overlap. Where they
    /// do, it holds the vector that separates the later shape from the
    /// earlier one, and its negation. The first is reported at once; the
    /// second is held back for the next step. Either way the walk moves on
    /// to the next pair. Where no test is due, or a report is still held
    /// back, nothing changes and nothing is reported.
    pub fn tested(&mut self, outcome: Option<(V, V)>) -> (first: Option<Collision<V>>)
        requires
            old(self).well_formed(),
        ensures
            final(self).well_formed(),
            final(self).collected() == old(self).collected(),
            old(self).test_due() && old(self).grab() is None ==> {
                &&& (final(self).collider(), final(self).other()) == Self::pair_after(
                    old(self).collider(),
                    old(self).other(),
                )
                &&& match outcome {
                    Some((there, back)) => {
                        &&& first == Some(
                            Collision {
                                collider: old(self).collider() as usize,
                                resolution: there,
                                other: old(self).other() as usize,
                            },
                        )
                        &&& final(self).grab() == Some(
                            Collision {
                                collider: old(self).other() as usize,
                                resolution: back,
                                other: old(self).collider() as usize,
                            },
                        )
                    },
                    None => first is None && final(self).grab() is None,
                }
            },
            !(old(self).test_due() && old(self).grab() is None) ==> {
                &&& first is None
                &&& final(self).collider() == old(self).collider()
                &&& final(self).other() == old(self).other()
                &&& final(self).grab() == old(self).grab()
            },
    {
        if self.collider >= self.collected || self.grab.is_some() {
            return None;
        }
        let collider = self.collider;
        let other = self.other;
        if other + 1 < collider {
            self.other = other + 1;
        } else {
            self.collider = collider + 1;
            self.other = 0;
        }
        match outcome {
            Some((there, back)) => {
                self.grab = Some(Collision { collider: other, resolution: back, other: collider });
                Some(Collision { collider, resolution: there, other })
            },
            None => None,
        }
    }

    /// Records that the caller has buffered one more shape.
    pub fn pulled(&mut self)
        requires
            old(self).well_formed(),
            old(self).collected() < usize::MAX,
        ensures
            final(self).well_formed(),
            final(self).collected() == old(self).collected() + 1,
            final(self).collider() == old(self).collider(),
            final(self).other() == old(self).other(),
            final(self).grab() == old(self).grab(),
    {
        self.collected = self.collected + 1;
    }

    /// Bounds on the number of reports still to come, given the upper bound
    /// that the source gives for the shapes it still holds.
    ///
    /// The lower bound counts the report that is held back. The upper bound
    /// allows two reports for each shape still to come, on top of the one
    /// held back; it is absent where the source gives none or where the sum
    /// does not fit.
    pub fn size_hint(&self, upper: Option<usize>) -> (bounds: (usize, Option<usize>))
        ensures
            bounds.0 == (if self.grab() is Some {
                1int
            } else {
                0int
            }),
            bounds.1 matches Some(most) ==> upper is Some && most == 2 * upper.unwrap() + bounds.0,
            bounds.1 is None <==> upper is None || 2 * upper.unwrap() + bounds.0 > usize::MAX,
    {
        let min: usize = if self.grab.is_some() {
            1
        } else {
            0
        };
        let max = match upper {
            Some(val) => {
                match val.checked_mul(2) {
                    Some(twice) => twice.checked_add(min),
                    None => None,
                }
            },
            None => None,
        };
        (min, max)
    }
}

/// The outcome of resolving shape `collider` against shape `other`, looked
/// up in a table with one row per shape. What the table does not hold counts
/// as no overlap.
pub open spec fn outcome_at<V>(hits: Seq<Seq<Option<(V, V)>>>, collider: int, other: int) -> Option<
    (V, V),
> {
    if 0 <= collider < hits.len() && 0 <= other < hits[collider].len() {
        hits[collider][other]
    } else {
        None
    }
}

/// The reports that one pair gives: two where it overlaps, the later shape
/// first, and none where it does not.
pub open spec fn pair_trace<V>(hits: Seq<Seq<Option<(V, V)>>>, collider: int, other: int) -> Seq<
    Report<V>,
> {
    match outcome_at(hits, collider, other) {
        Some((there, back)) => seq![
            Report { collider, resolution: there, other },
            Report { collider: other, resolution: back, other: collider },
        ],
        None => Seq::empty(),
    }
}

/// The reports of shape `collider` against the first `upto` shapes.
pub open spec fn item_trace<V>(hits: Seq<Seq<Option<(V, V)>>>, collider: int, upto: int) -> Seq<
    Report<V>,
>
    decreases upto,
{
    if upto <= 0 {
        Seq::empty()
    } else {
        item_trace(hits, collider, upto - 1) + pair_trace(hits, collider, upto - 1)
    }
}

/// All reports among the first `count` shapes, in the order in which they
/// are handed out.
pub open spec fn run_trace<V>(hits: Seq<Seq<Option<(V, V)>>>, count: int) -> Seq<Report<V>>
    decreases count,
{
    if count <= 0 {
        Seq::empty()
    } else {
        run_trace(hits, count - 1) + item_trace(hits, count - 1, count - 1)
    }
}

/// The rows of a table, as sequences.
pub open spec fn table<V>(hits: Seq<Vec<Option<(V, V)>>>) -> Seq<Seq<Option<(V, V)>>> {
    Seq::new(hits.len(), |i: int| hits[i]@)
}

/// The reports of a list, each with its shape numbers as integers.
pub open spec fn reports<V>(out: Seq<Collision<V>>) -> Seq<Report<V>> {
    Seq::new(out.len(), |i: int| out[i]@)
}

fn lookup<V: Copy>(hits: &Vec<Vec<Option<(V, V)>>>, collider: usize, other: usize) -> (outcome:
    Option<(V, V)>)
    ensures
        outcome == outcome_at(table(hits@), collider as int, other as int),
{
    if collider < hits.len() {
        let row = &hits[collider];
        if other < row.len() {
            row[other]
        } else {
            None
        }
    } else {
        None
    }
}

/// Runs the walk to its end over as many shapes as the table has rows, and
/// collects every report in the order in which it is handed out.
///
/// Row `i` of `hits` holds, at place `j < i`, what resolving shape `i`
/// against shape `j` gives: nothing, or the separating vector and its
/// negation.
pub fn enumerate<V: Copy>(hits: &Vec<Vec<Option<(V, V)>>>) -> (out: Vec<Collision<V>>)
    ensures
        reports(out@) == run_trace(table(hits@), hits@.len() as int),
{
    let mut walk: Collisions<V> = Collisions::new();
    let mut out: Vec<Collision<V>> = Vec::new();
    let ghost rows = table(hits@);
    proof {
        reveal_with_fuel(run_trace, 2);
        assert(run_trace(rows, 1) =~= Seq::<Report<V>>::empty());
        assert(reports(out@) =~= Seq::<Report<V>>::empty());
    }
    loop
        invariant
            walk.well_formed(),
            walk.collected() <= hits@.len(),
            rows == table(hits@),
            walk.grab() is None ==> reports(out@) == run_trace(rows, walk.collider() as int)
                + item_trace(rows, walk.collider() as int, walk.other() as int),
            walk.grab() matches Some(held) ==> reports(out@).push(held@) == run_trace(
                rows,
                walk.collider() as int,
            ) + item_trace(rows, walk.collider() as int, walk.other() as int),
        ensures
            reports(out@) == run_trace(rows, hits@.len() as int),
        decreases
            hits@.len() - walk.collected(),
            walk.collected() + 1 - walk.collider(),
            walk.collider() - walk.other(),
            (if walk.grab() is Some { 1int } else { 0int }),
    {
        let ghost before = reports(out@);
        let ghost collider = walk.collider() as int;
        let ghost other = walk.other() as int;
        match walk.advance() {
            Step::Emit(held) => {
                out.push(held);
                proof {
                    assert(reports(out@) =~= before.push(held@));
                }
            },
            Step::Test { collider: later, other: earlier } => {
                let outcome = lookup(hits, later, earlier);
                let first = walk.tested(outcome);
                proof {
                    let next = Collisions::<V>::pair_after(collider as nat, other as nat);
                    assert(run_trace(rows, next.0 as int) + item_trace(rows, next.0 as int, next.1 as int)
                        =~= run_trace(rows, collider) + item_trace(rows, collider, other) + pair_trace(
                        rows,
                        collider,
                        other,
                    )) by {
                        reveal_with_fuel(item_trace, 2);
                        reveal_with_fuel(run_trace, 2);
                        if other + 1 < collider {
                        } else {
                            assert(item_trace(rows, collider + 1, 0) =~= Seq::<Report<V>>::empty());
                        }
                    }
                }
                match first {
                    Some(report) => {
                        out.push(report);
                        proof {
                            assert(reports(out@) =~= before.push(report@));
                            let held = walk.grab().unwrap();
                            assert(pair_trace(rows, collider, other) =~= seq![report@, held@]);
                            assert(reports(out@).push(held@) =~= before + pair_trace(
                                rows,
                                collider,
                                other,
                            ));
                        }
                    },
                    None => {
                        proof {
                            assert(pair_trace(rows, collider, other) =~= Seq::<Report<V>>::empty());
                            assert(before + pair_trace(rows, collider, other) =~= before);
                        }
                    },
                }
            },
            Step::Pull => {
                if walk.collected == hits.len() {
                    proof {
                        assert(other == 0);
                        assert(item_trace(rows, collider, 0) =~= Seq::<Report<V>>::empty());
                        if hits@.len() == 0 {
                            reveal_with_fuel(run_trace, 2);
                            assert(item_trace(rows, 0, 0) =~= Seq::<Report<V>>::empty());
                            assert(run_trace(rows, 1) =~= Seq::<Report<V>>::empty());
                            assert(run_trace(rows, 0) =~= Seq::<Report<V>>::empty());
                        } else {
                            assert(collider == hits@.len());
                        }
                        assert(reports(out@) =~= run_trace(rows, hits@.len() as int));
                    }
                    break ;
                }
                walk.pulled();
            },
        }
    }
    out
}

/// How many of the first `upto` shapes overlap shape `collider`.
pub open spec fn item_overlaps<V>(hits: Seq<Seq<Option<(V, V)>>>, collider: int, upto: int) -> nat
    decreases upto,
{
    if upto <= 0 {
        0
    } else {
        item_overlaps(hits, collider, upto - 1) + (if outcome_at(hits, collider, upto - 1) is Some {
            1nat
        } else {
            0nat
        })
    }
}

/// How many pairs among the first `count` shapes overlap.
pub open spec fn run_overlaps<V>(hits: Seq<Seq<Option<(V, V)>>>, count: int) -> nat
    decreases count,
{
    if count <= 0 {
        0
    } else {
        run_overlaps(hits, count - 1) + item_overlaps(hits, count - 1, count - 1)
    }
}

/// How often a trace reports `collider` against `other`.
pub open spec fn times_reported<V>(trace: Seq<Report<V>>, collider: int, other: int) -> nat
    decreases trace.len(),
{
    if trace.len() == 0 {
        0
    } else {
        times_reported(trace.drop_last(), collider, other) + (if trace.last().collider == collider
            && trace.last().other == other {
            1nat
        } else {
            0nat
        })
    }
}

proof fn lemma_times_concat<V>(a: Seq<Report<V>>, b: Seq<Report<V>>, collider: int, other: int)
    ensures
        times_reported(a + b, collider, other) == times_reported(a, collider, other)
            + times_reported(b, collider, other),
    decreases b.len(),
{
    if b.len() == 0 {
        assert(a + b =~= a);
    } else {
        assert((a + b).drop_last() =~= a + b.drop_last());
        assert((a + b).last() == b.last());
        lemma_times_concat(a, b.drop_last(), collider, other);
    }
}

proof fn lemma_times_pair<V>(
    hits: Seq<Seq<Option<(V, V)>>>,
    collider: int,
    other: int,
    a: int,
    b: int,
)
    requires
        collider != other,
    ensures
        times_reported(pair_trace(hits, collider, other), a, b) == (if outcome_at(
            hits,
            collider,
            other,
        ) is Some && ((a == collider && b == other) || (a == other && b == collider)) {
            1nat
        } else {
            0nat
        }),
{
    let trace = pair_trace(hits, collider, other);
    if outcome_at(hits, collider, other) is Some {
        assert(trace.len() == 2);
        assert(trace.drop_last().len() == 1);
        assert(trace.drop_last().drop_last().len() == 0);
        reveal_with_fuel(times_reported, 3);
        assert(trace.drop_last().last() == trace[0]);
        assert(trace.last() == trace[1]);
    } else {
        assert(trace.len() == 0);
    }
}

proof fn lemma_times_item<V>(
    hits: Seq<Seq<Option<(V, V)>>>,
    collider: int,
    upto: int,
    a: int,
    b: int,
)
    requires
        0 <= upto <= collider,
    ensures
        times_reported(item_trace(hits, collider, upto), a, b) == (if ((a == collider && 0 <= b
            < upto && outcome_at(hits, a, b) is Some) || (b == collider && 0 <= a < upto
            && outcome_at(hits, b, a) is Some)) {
            1nat
        } else {
            0nat
        }),
        item_trace(hits, collider, upto).len() == 2 * item_overlaps(hits, collider, upto),
    decreases upto,
{
    if upto > 0 {
        lemma_times_item(hits, collider, upto - 1, a, b);
        lemma_times_pair(hits, collider, upto - 1, a, b);
        lemma_times_concat(
            item_trace(hits, collider, upto - 1),
            pair_trace(hits, collider, upto - 1),
            a,
            b,
        );
    }
}

/// Every overlapping pair is reported exactly twice, once in each direction,
/// and nothing else is reported.
///
/// Among the first `count` shapes, `later` against `earlier` is reported
/// once where the two overlap and never where they do not, and so is
/// `earlier` against `later`. No shape is reported against itself. The number
/// of reports is twice the number of overlapping pairs.
pub proof fn lemma_each_pair_twice<V>(
    hits: Seq<Seq<Option<(V, V)>>>,
    count: int,
    later: int,
    earlier: int,
)
    requires
        0 <= earlier <= later,
    ensures
        run_trace(hits, count).len() == 2 * run_overlaps(hits, count),
        times_reported(run_trace(hits, count), later, earlier) == (if earlier < later < count
            && outcome_at(hits, later, earlier) is Some {
            1nat
        } else {
            0nat
        }),
        times_reported(run_trace(hits, count), earlier, later) == times_reported(
            run_trace(hits, count),
            later,
            earlier,
        ),
    decreases count,
{
    if count > 0 {
        lemma_each_pair_twice(hits, count - 1, later, earlier);
        lemma_times_item(hits, count - 1, count - 1, later, earlier);
        lemma_times_item(hits, count - 1, count - 1, earlier, later);
        lemma_times_concat(
            run_trace(hits, count - 1),
            item_trace(hits, count - 1, count - 1),
            later,
            earlier,
        );
        lemma_times_concat(
            run_trace(hits, count - 1),
            item_trace(hits, count - 1, count - 1),
            earlier,
            later,
        );
    }
}

/// The two reports of an overlapping pair stand side by side: the later
/// shape against the earlier one with the separating vector, then the
/// earlier against the later with the vector handed in as its negation.
pub proof fn lemma_pair_side_by_side<V>(
    hits: Seq<Seq<Option<(V, V)>>>,
    count: int,
    later: int,
    earlier: int,
)
    requires
        0 <= earlier < later < count,
        outcome_at(hits, later, earlier) is Some,
    ensures
        exists|p: int|
            {
                &&& 0 <= p
                &&& p + 1 < run_trace(hits, count).len()
                &&& (#[trigger] run_trace(hits, count)[p]) == (Report {
                    collider: later,
                    resolution: outcome_at(hits, later, earlier).unwrap().0,
                    other: earlier,
                })
                &&& run_trace(hits, count)[p + 1] == (Report {
                    collider: earlier,
                    resolution: outcome_at(hits, later, earlier).unwrap().1,
                    other: later,
                })
            },
    decreases count,
{
    let trace = run_trace(hits, count);
    let head = run_trace(hits, count - 1);
    let tail = item_trace(hits, count - 1, count - 1);
    if later < count - 1 {
        lemma_pair_side_by_side(hits, count - 1, later, earlier);
        let p = choose|p: int|
            {
                &&& 0 <= p
                &&& p + 1 < head.len()
                &&& (#[trigger] head[p]) == (Report {
                    collider: later,
                    resolution: outcome_at(hits, later, earlier).unwrap().0,
                    other: earlier,
                })
                &&& head[p + 1] == (Report {
                    collider: earlier,
                    resolution: outcome_at(hits, later, earlier).unwrap().1,
                    other: later,
                })
            };
        assert(trace[p] == head[p]);
        assert(trace[p + 1] == head[p + 1]);
    } else {
        lemma_item_side_by_side(hits, later, later, earlier);
        let q = choose|q: int|
            {
                &&& 0 <= q
                &&& q + 1 < tail.len()
                &&& (#[trigger] tail[q]) == (Report {
                    collider: later,
                    resolution: outcome_at(hits, later, earlier).unwrap().0,
                    other: earlier,
                })
                &&& tail[q + 1] == (Report {
                    collider: earlier,
                    resolution: outcome_at(hits, later, earlier).unwrap().1,
                    other: later,
                })
            };
        let p = head.len() + q;
        assert(trace[p] == tail[q]);
        assert(trace[p + 1] == tail[q + 1]);
    }
}

proof fn lemma_item_side_by_side<V>(
    hits: Seq<Seq<Option<(V, V)>>>,
    later: int,
    upto: int,
    earlier: int,
)
    requires
        0 <= earlier < upto,
        outcome_at(hits, later, earlier) is Some,
    ensures
        exists|q: int|
            {
                &&& 0 <= q
                &&& q + 1 < item_trace(hits, later, upto).len()
                &&& (#[trigger] item_trace(hits, later, upto)[q]) == (Report {
                    collider: later,
                    resolution: outcome_at(hits, later, earlier).unwrap().0,
                    other: earlier,
                })
                &&& item_trace(hits, later, upto)[q + 1] == (Report {
                    collider: earlier,
                    resolution: outcome_at(hits, later, earlier).unwrap().1,
                    other: later,
                })
            },
    decreases upto,
{
    let trace = item_trace(hits, later, upto);
    let head = item_trace(hits, later, upto - 1);
    let tail = pair_trace(hits, later, upto - 1);
    if earlier < upto - 1 {
        lemma_item_side_by_side(hits, later, upto - 1, earlier);
        let q = choose|q: int|
            {
                &&& 0 <= q
                &&& q + 1 < head.len()
                &&& (#[trigger] head[q]) == (Report {
                    collider: later,
                    resolution: outcome_at(hits, later, earlier).unwrap().0,
                    other: earlier,
                })
                &&& head[q + 1] == (Report {
                    collider: earlier,
                    resolution: outcome_at(hits, later, earlier).unwrap().1,
                    other: later,
                })
            };
        assert(trace[q] == head[q]);
        assert(trace[q + 1] == head[q + 1]);
    } else {
        let q = head.len() as int;
        assert(tail.len() == 2);
        assert(trace[q] == tail[0]);
        assert(trace[q + 1] == tail[1]);
    }
}

} // verus!
