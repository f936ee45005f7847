//! The exact search for the nearest reference transactions.
use crate::dataset::{label_of, Record, ReferenceDataset, TOP_K};
use crate::quantize::VECTOR_DIMENSIONS;
use vstd::prelude::*;
use vstd::slice::slice_subrange;

verus! {

/// The squared Euclidean distance over the first `dimensions` features.
pub open spec fn squared_distance(query: Seq<i16>, candidate: Seq<i16>, dimensions: nat) -> int
    decreases dimensions,
{
    if dimensions == 0 {
        0
    } else {
        let last = dimensions - 1;
        let delta = query[last] - candidate[last];
        squared_distance(query, candidate, last as nat) + delta * delta
    }
}

/// The squared Euclidean distance between a query and a record.
pub open spec fn distance(query: Seq<i16>, record: Record) -> int {
    squared_distance(query, record.vector, VECTOR_DIMENSIONS as nat)
}

/// The position of the largest value; of several, the first.
pub open spec fn farthest(values: Seq<int>) -> int
    decreases values.len(),
{
    if values.len() <= 1 {
        0
    } else {
        let before = farthest(values.drop_last());
        if values.last() > values[before] {
            values.len() - 1
        } else {
            before
        }
    }
}

/// The distances of the records at given positions.
pub open spec fn distances(records: Seq<Record>, query: Seq<i16>, held: Seq<int>) -> Seq<int> {
    Seq::new(held.len(), |j: int| distance(query, records[held[j]]))
}

/// The positions held after the first `count` records have been seen: the
/// first ones fill the places; a later one that is strictly nearer than the
/// farthest held takes its place.
pub open spec fn nearest(records: Seq<Record>, query: Seq<i16>, count: nat) -> Seq<int>
    decreases count,
{
    if count == 0 {
        Seq::empty()
    } else {
        let candidate = count - 1;
        let held = nearest(records, query, candidate as nat);
        let worst = farthest(distances(records, query, held));
        if held.len() < TOP_K {
            held.push(candidate)
        } else if distance(query, records[candidate]) < distance(query, records[held[worst]]) {
            held.update(worst, candidate)
        } else {
            held
        }
    }
}

/// Of the records at given positions, the number that are fraud.
pub open spec fn fraud_count(records: Seq<Record>, held: Seq<int>) -> nat
    decreases held.len(),
{
    if held.len() == 0 {
        0
    } else {
        fraud_count(records, held.drop_last()) + if records[held.last()].fraud {
            1nat
        } else {
            0nat
        }
    }
}

/// A distance is not negative and far below the largest integer.
pub proof fn lemma_distance_bounds(query: Seq<i16>, candidate: Seq<i16>, dimensions: nat)
    ensures
        0 <= squared_distance(query, candidate, dimensions) <= dimensions * 4_294_836_225,
    decreases dimensions,
{
    if dimensions > 0 {
        let last = dimensions - 1;
        lemma_distance_bounds(query, candidate, last as nat);
        let delta = query[last] - candidate[last];
        assert(0 <= delta * delta <= 65_535 * 65_535) by (nonlinear_arith)
            requires
                -65_535 <= delta <= 65_535,
        ;
    }
}

/// The squared Euclidean distance between two vectors.
pub fn squared_distance_i16(query: &[i16; VECTOR_DIMENSIONS], candidate: &[i16]) -> (distance: i64)
    requires
        candidate@.len() == VECTOR_DIMENSIONS,
    ensures
        distance == squared_distance(query@, candidate@, VECTOR_DIMENSIONS as nat),
{
    let mut distance: i64 = 0;
    let mut dimension: usize = 0;
    while dimension < VECTOR_DIMENSIONS
        invariant
            dimension <= VECTOR_DIMENSIONS,
            candidate@.len() == VECTOR_DIMENSIONS,
            distance == squared_distance(query@, candidate@, dimension as nat),
        decreases VECTOR_DIMENSIONS - dimension,
    {
        let delta: i64 = query[dimension] as i64 - candidate[dimension] as i64;
        proof {
            lemma_distance_bounds(query@, candidate@, dimension as nat);
            assert(0 <= delta * delta <= 65_535 * 65_535) by (nonlinear_arith)
                requires
                    -65_535 <= delta <= 65_535,
            ;
        }
        distance = distance + delta * delta;
        dimension = dimension + 1;
    }
    distance
}

/// The farthest position holds a largest value, and no value before it is as large.
pub proof fn lemma_farthest(values: Seq<int>)
    requires
        values.len() > 0,
    ensures
        0 <= farthest(values) < values.len(),
        forall|j: int| 0 <= j < values.len() ==> #[trigger] values[j] <= values[farthest(values)],
        forall|j: int| 0 <= j < farthest(values) ==> #[trigger] values[j] < values[farthest(values)],
    decreases values.len(),
{
    if values.len() > 1 {
        let shorter = values.drop_last();
        lemma_farthest(shorter);
        assert forall|j: int| 0 <= j < values.len() implies #[trigger] values[j] <= values[farthest(
            values,
        )] by {
            if j < values.len() - 1 {
                assert(shorter[j] == values[j]);
            }
        }
        assert forall|j: int| 0 <= j < farthest(values) implies #[trigger] values[j]
            < values[farthest(values)] by {
            assert(shorter[j] == values[j]);
        }
    }
}

/// Only the farthest position is such.
proof fn lemma_farthest_is(values: Seq<int>, at: int)
    requires
        0 <= at < values.len(),
        forall|j: int| 0 <= j < values.len() ==> #[trigger] values[j] <= values[at],
        forall|j: int| 0 <= j < at ==> #[trigger] values[j] < values[at],
    ensures
        farthest(values) == at,
{
    lemma_farthest(values);
    let found = farthest(values);
    if found < at {
        assert(values[found] < values[at]);
    }
    if at < found {
        assert(values[at] < values[found]);
    }
}

/// Whether the places hold what is known of the positions held, and the
/// largest integer where no position is held yet.
spec fn places_hold(
    records: Seq<Record>,
    query: Seq<i16>,
    held: Seq<int>,
    places: Seq<i64>,
    labels: Seq<u8>,
) -> bool {
    &&& places.len() == TOP_K
    &&& labels.len() == TOP_K
    &&& held.len() <= TOP_K
    &&& forall|j: int|
        0 <= j < held.len() ==> #[trigger] places[j] == distance(query, records[held[j]])
    &&& forall|j: int|
        0 <= j < held.len() ==> #[trigger] labels[j] == label_of(records[held[j]].fraud)
    &&& forall|j: int| held.len() <= j < TOP_K ==> #[trigger] places[j] == i64::MAX
}

/// Whether `worst` is the first of the places with the largest distance.
spec fn worst_place(places: Seq<i64>, worst: int) -> bool {
    &&& 0 <= worst < places.len()
    &&& forall|j: int| 0 <= j < places.len() ==> #[trigger] places[j] <= places[worst]
    &&& forall|j: int| 0 <= j < worst ==> #[trigger] places[j] < places[worst]
}

/// The worst place is the next free one, or else that of the farthest held.
proof fn lemma_worst_place(
    records: Seq<Record>,
    query: Seq<i16>,
    held: Seq<int>,
    places: Seq<i64>,
    labels: Seq<u8>,
    worst: int,
)
    requires
        places_hold(records, query, held, places, labels),
        worst_place(places, worst),
    ensures
        held.len() < TOP_K ==> worst == held.len() && places[worst] == i64::MAX,
        held.len() == TOP_K ==> worst == farthest(distances(records, query, held)),
{
    if held.len() < TOP_K {
        let free = held.len() as int;
        assert(places[free] == i64::MAX);
        assert(places[free] <= places[worst]);
        if worst < free {
            lemma_distance_bounds(query, records[held[worst]].vector, 14);
        }
        if free < worst {
            assert(places[free] < places[worst]);
        }
    } else {
        let values = distances(records, query, held);
        assert forall|j: int| 0 <= j < values.len() implies #[trigger] values[j] <= values[worst] by {
            assert(places[j] <= places[worst]);
        }
        assert forall|j: int| 0 <= j < worst implies #[trigger] values[j] < values[worst] by {
            assert(places[j] < places[worst]);
        }
        lemma_farthest_is(values, worst);
    }
}

/// The first place with the largest distance.
fn find_worst(places: &[i64; TOP_K]) -> (worst: usize)
    ensures
        worst_place(places@, worst as int),
{
    let mut worst: usize = 0;
    let mut slot: usize = 1;
    while slot < TOP_K
        invariant
            1 <= slot <= TOP_K,
            worst < slot,
            forall|j: int| 0 <= j < slot ==> #[trigger] places[j] <= places[worst as int],
            forall|j: int| 0 <= j < worst ==> #[trigger] places[j] < places[worst as int],
        decreases TOP_K - slot,
    {
        if places[slot] > places[worst] {
            worst = slot;
        }
        slot = slot + 1;
    }
    worst
}

impl ReferenceDataset {
    /// The labels of the nearest records, or nothing where there are fewer
    /// records than neighbours wanted.
    pub fn top5_labels(&self, query: &[i16; VECTOR_DIMENSIONS]) -> (labels: Option<[u8; TOP_K]>)
        requires
            self.well_formed(),
        ensures
            labels is None <==> self@.len() < TOP_K,
            labels matches Some(found) ==> nearest(self@, query@, self@.len()).len() == TOP_K && (
            forall|j: int|
                0 <= j < TOP_K ==> #[trigger] found@[j] == label_of(
                    self@[nearest(self@, query@, self@.len())[j]].fraud,
                )),
    {
        if self.len() < TOP_K {
            return None;
        }
        let mut top_distances: [i64; TOP_K] = [i64::MAX; TOP_K];
        let mut top_labels: [u8; TOP_K] = [0; TOP_K];
        let mut worst: usize = 0;
        let vectors: &Vec<i16> = self.vectors();
        let labels: &Vec<u8> = self.labels();
        let values: usize = vectors.len();
        let count: usize = self.len();
        let mut record: usize = 0;
        while record < count
            invariant
                count == self@.len(),
                values == vectors@.len(),
                values == 14 * count,
                labels@.len() == count,
                record <= count,
                forall|i: int|
                    0 <= i < count ==> #[trigger] self@[i].vector == vectors@.subrange(
                        14 * i,
                        14 * i + 14,
                    ),
                forall|i: int|
                    0 <= i < count ==> #[trigger] labels@[i] == label_of(self@[i].fraud),
                places_hold(
                    self@,
                    query@,
                    nearest(self@, query@, record as nat),
                    top_distances@,
                    top_labels@,
                ),
                nearest(self@, query@, record as nat).len() == if record < TOP_K {
                    record as nat
                } else {
                    TOP_K as nat
                },
                worst_place(top_distances@, worst as int),
            decreases count - record,
        {
            let ghost held = nearest(self@, query@, record as nat);
            let offset: usize = record * VECTOR_DIMENSIONS;
            let candidate: &[i16] = slice_subrange(
                vectors.as_slice(),
                offset,
                offset + VECTOR_DIMENSIONS,
            );
            let distance: i64 = squared_distance_i16(query, candidate);
            proof {
                assert(self@[record as int].vector == candidate@);
                lemma_distance_bounds(query@, candidate@, 14);
                lemma_worst_place(
                    self@,
                    query@,
                    held,
                    top_distances@,
                    top_labels@,
                    worst as int,
                );
            }
            if distance < top_distances[worst] {
                top_distances[worst] = distance;
                top_labels[worst] = labels[record];
                worst = find_worst(&top_distances);
            }
            record = record + 1;
        }
        Some(top_labels)
    }

    /// How many of the nearest records are fraud, or nothing where there are
    /// fewer records than neighbours wanted.
    pub fn fraud_count_top5(&self, query: &[i16; VECTOR_DIMENSIONS]) -> (count: Option<u8>)
        requires
            self.well_formed(),
        ensures
            count is None <==> self@.len() < TOP_K,
            count matches Some(frauds) ==> frauds == fraud_count(
                self@,
                nearest(self@, query@, self@.len()),
            ) && frauds <= TOP_K,
    {
        let labels: [u8; TOP_K] = match self.top5_labels(query) {
            Some(labels) => labels,
            None => return None,
        };
        let ghost held = nearest(self@, query@, self@.len());
        let mut frauds: u8 = 0;
        let mut slot: usize = 0;
        while slot < TOP_K
            invariant
                slot <= TOP_K,
                held.len() == TOP_K,
                forall|j: int|
                    0 <= j < TOP_K ==> #[trigger] labels@[j] == label_of(self@[held[j]].fraud),
                frauds == fraud_count(self@, held.take(slot as int)),
                frauds <= slot,
            decreases TOP_K - slot,
        {
            proof {
                assert(held.take(slot + 1).drop_last() =~= held.take(slot as int));
            }
            if labels[slot] != 0 {
                frauds = frauds + 1;
            }
            slot = slot + 1;
        }
        proof {
            assert(held.take(TOP_K as int) =~= held);
        }
        Some(frauds)
    }
}

/// The positions held are different ones, as many as there are places or
/// records, and none of the other records is nearer than any of them.
pub proof fn lemma_nearest_are_nearest(records: Seq<Record>, query: Seq<i16>, count: nat)
    ensures
        ({
            let held = nearest(records, query, count);
            &&& held.len() == if count < TOP_K {
                count
            } else {
                TOP_K as nat
            }
            &&& held.no_duplicates()
            &&& forall|j: int| 0 <= j < held.len() ==> 0 <= #[trigger] held[j] < count
            &&& forall|i: int, j: int|
                #![trigger records[i], held[j]]
                0 <= i < count && !held.contains(i) && 0 <= j < held.len() ==> distance(
                    query,
                    records[held[j]],
                ) <= distance(query, records[i])
        }),
    decreases count,
{
    if count > 0 {
        let candidate = count - 1;
        let before = nearest(records, query, candidate as nat);
        let held = nearest(records, query, count);
        lemma_nearest_are_nearest(records, query, candidate as nat);
        if before.len() < TOP_K {
            assert(before.len() == candidate);
            lemma_all_are_held(records, query, count);
        } else {
            let values = distances(records, query, before);
            let worst = farthest(values);
            lemma_farthest(values);
            let limit = distance(query, records[before[worst]]);
            assert(values[worst] == limit);
            if distance(query, records[candidate]) < limit {
                assert forall|i: int, j: int|
                    #![trigger records[i], held[j]]
                    0 <= i < count && !held.contains(i) && 0 <= j < held.len() implies distance(
                    query,
                    records[held[j]],
                ) <= distance(query, records[i]) by {
                    assert(held[worst] == candidate);
                    assert(values[j] <= values[worst]);
                    if before.contains(i) {
                        let at = choose|at: int| 0 <= at < before.len() && before[at] == i;
                        if at != worst {
                            assert(held[at] == i);
                        }
                    } else {
                        assert(distance(query, records[before[worst]]) <= distance(
                            query,
                            records[i],
                        ));
                        assert(distance(query, records[before[j]]) <= distance(query, records[i]));
                    }
                }
            } else {
                assert forall|i: int, j: int|
                    #![trigger records[i], held[j]]
                    0 <= i < count && !held.contains(i) && 0 <= j < held.len() implies distance(
                    query,
                    records[held[j]],
                ) <= distance(query, records[i]) by {
                    assert(values[j] <= values[worst]);
                }
            }
        }
    }
}

/// As long as there are places, every position seen is held.
proof fn lemma_all_are_held(records: Seq<Record>, query: Seq<i16>, count: nat)
    requires
        count <= TOP_K,
    ensures
        nearest(records, query, count).len() == count,
        forall|i: int| 0 <= i < count ==> #[trigger] nearest(records, query, count)[i] == i,
        forall|i: int| 0 <= i < count ==> nearest(records, query, count).contains(i),
    decreases count,
{
    if count > 0 {
        lemma_all_are_held(records, query, (count - 1) as nat);
    }
    let held = nearest(records, query, count);
    assert forall|i: int| 0 <= i < count implies held.contains(i) by {
        assert(held[i] == i);
    }
}

/// Where some records are strictly nearer than all others, and they are as many
/// as there are places, they are the ones held.
pub proof fn lemma_strictly_nearest_are_held(
    records: Seq<Record>,
    query: Seq<i16>,
    count: nat,
    picks: Seq<int>,
)
    requires
        picks.len() == TOP_K,
        picks.no_duplicates(),
        forall|j: int| 0 <= j < picks.len() ==> 0 <= #[trigger] picks[j] < count,
        forall|i: int, j: int|
            #![trigger records[i], picks[j]]
            0 <= i < count && !picks.contains(i) && 0 <= j < picks.len() ==> distance(
                query,
                records[picks[j]],
            ) < distance(query, records[i]),
    ensures
        nearest(records, query, count).to_set() == picks.to_set(),
{
    lemma_nearest_are_nearest(records, query, count);
    let held = nearest(records, query, count);
    picks.unique_seq_to_set();
    held.unique_seq_to_set();
    if count < TOP_K {
        assert forall|i: int| picks.to_set().contains(i) implies vstd::set_lib::set_int_range(
            0,
            count as int,
        ).contains(i) by {
            let at = choose|at: int| 0 <= at < picks.len() && picks[at] == i;
            assert(picks[at] == i);
        }
        vstd::set_lib::lemma_int_range(0, count as int);
        vstd::set_lib::lemma_len_subset(
            picks.to_set(),
            vstd::set_lib::set_int_range(0, count as int),
        );
    }
    assert(held.to_set().subset_of(picks.to_set())) by {
        assert forall|i: int| held.to_set().contains(i) implies picks.to_set().contains(i) by {
            let at = choose|at: int| 0 <= at < held.len() && held[at] == i;
            assert(held[at] == i);
            if !picks.contains(i) {
                assert forall|p: int| picks.to_set().contains(p) implies held.to_set().contains(
                    p,
                ) by {
                    let from = choose|from: int| 0 <= from < picks.len() && picks[from] == p;
                    assert(picks[from] == p);
                    assert(distance(query, records[picks[from]]) < distance(query, records[i]));
                    if !held.contains(p) {
                        assert(distance(query, records[held[at]]) <= distance(query, records[p]));
                    }
                }
                vstd::set_lib::lemma_len_subset(picks.to_set().insert(i), held.to_set());
            }
        }
    }
    vstd::set_lib::lemma_subset_equality(held.to_set(), picks.to_set());
}

/// Distance is symmetric.
pub proof fn lemma_distance_is_symmetric(a: Seq<i16>, b: Seq<i16>, dimensions: nat)
    ensures
        squared_distance(a, b, dimensions) == squared_distance(b, a, dimensions),
    decreases dimensions,
{
    if dimensions > 0 {
        let last = dimensions - 1;
        lemma_distance_is_symmetric(a, b, last as nat);
        let x = a[last] as int;
        let y = b[last] as int;
        assert((x - y) * (x - y) == (y - x) * (y - x)) by (nonlinear_arith);
    }
}

/// Two vectors are at distance zero just when they agree in every dimension.
pub proof fn lemma_distance_zero_means_equal(a: Seq<i16>, b: Seq<i16>, dimensions: nat)
    ensures
        squared_distance(a, b, dimensions) == 0 <==> (forall|i: int|
            0 <= i < dimensions ==> #[trigger] a[i] == b[i]),
    decreases dimensions,
{
    if dimensions > 0 {
        let last = dimensions - 1;
        lemma_distance_zero_means_equal(a, b, last as nat);
        lemma_distance_bounds(a, b, last as nat);
        let delta = a[last] - b[last];
        assert(delta * delta >= 0 && (delta * delta == 0 <==> delta == 0)) by (nonlinear_arith);
    }
}

/// Changing one feature of a candidate exchanges the square of one difference for
/// that of another.
pub proof fn lemma_distance_by_feature(
    query: Seq<i16>,
    candidate: Seq<i16>,
    dimensions: nat,
    at: int,
    value: i16,
)
    requires
        0 <= at < dimensions <= candidate.len(),
    ensures
        squared_distance(query, candidate.update(at, value), dimensions) - squared_distance(
            query,
            candidate,
            dimensions,
        ) == (query[at] - value) * (query[at] - value) - (query[at] - candidate[at]) * (query[at]
            - candidate[at]),
    decreases dimensions,
{
    let last = dimensions - 1;
    if at < last {
        lemma_distance_by_feature(query, candidate, last as nat, at, value);
    } else {
        lemma_distance_of_shared(query, candidate, candidate.update(at, value), last as nat);
    }
}

/// Features beyond those that are compared do not matter.
proof fn lemma_distance_of_shared(
    query: Seq<i16>,
    candidate: Seq<i16>,
    other: Seq<i16>,
    dimensions: nat,
)
    requires
        forall|i: int| 0 <= i < dimensions ==> #[trigger] candidate[i] == other[i],
    ensures
        squared_distance(query, candidate, dimensions) == squared_distance(
            query,
            other,
            dimensions,
        ),
    decreases dimensions,
{
    if dimensions > 0 {
        lemma_distance_of_shared(query, candidate, other, (dimensions - 1) as nat);
        assert(candidate[dimensions - 1] == other[dimensions - 1]);
    }
}

/// The distance of a record is the square of its difference in one feature, added
/// to the distance of the record that agrees with the query there. A record that
/// agrees everywhere is at distance zero.
pub proof fn lemma_difference_adds_its_square(query: Seq<i16>, record: Record, at: int)
    requires
        query.len() == 14,
        record.vector.len() == 14,
        0 <= at < 14,
    ensures
        ({
            let agreeing = Record { vector: record.vector.update(at, query[at]), ..record };
            let difference = query[at] - record.vector[at];
            distance(query, record) == distance(query, agreeing) + difference * difference
        }),
        record.vector == query ==> distance(query, record) == 0,
{
    lemma_distance_by_feature(query, record.vector, 14, at, query[at]);
    if record.vector == query {
        lemma_distance_zero_means_equal(query, record.vector, 14);
    }
}

/// The squared distance of two vectors, feature by feature.
pub proof fn lemma_distance_is_the_sum_of_squares(query: Seq<i16>, record: Record)
    ensures
        ({
            let square = |i: int|
                (query[i] - record.vector[i]) * (query[i] - record.vector[i]);
            distance(query, record) == square(0) + square(1) + square(2) + square(3) + square(4)
                + square(5) + square(6) + square(7) + square(8) + square(9) + square(10)
                + square(11) + square(12) + square(13)
        }),
{
    reveal_with_fuel(squared_distance, 15);
}

/// Of the records at given positions, as many are fraud as there are places that
/// hold one.
pub proof fn lemma_fraud_count_is_the_number_of_frauds(records: Seq<Record>, held: Seq<int>)
    ensures
        ({
            let frauds = Set::new(
                |j: int| 0 <= j < held.len() && records[held[j]].fraud,
            );
            frauds.finite() && fraud_count(records, held) == frauds.len()
        }),
    decreases held.len(),
{
    let frauds = Set::new(|j: int| 0 <= j < held.len() && records[held[j]].fraud);
    if held.len() == 0 {
        assert(frauds =~= Set::empty());
    } else {
        let shorter = held.drop_last();
        let before = Set::new(
            |j: int| 0 <= j < shorter.len() && records[shorter[j]].fraud,
        );
        lemma_fraud_count_is_the_number_of_frauds(records, shorter);
        if records[held.last()].fraud {
            assert(frauds =~= before.insert(held.len() - 1));
        } else {
            assert(frauds =~= before);
        }
    }
}

/// What one more record does to the places: it takes a free one, or that of the
/// first of the farthest if it is strictly nearer, or none.
pub proof fn lemma_one_more_record(records: Seq<Record>, query: Seq<i16>, count: nat, slot: int)
    ensures
        nearest(records, query, 0) == Seq::<int>::empty(),
        ({
            let held = nearest(records, query, count);
            let after = nearest(records, query, count + 1);
            let far = |j: int| distance(query, records[held[j]]);
            let new = distance(query, records[count as int]);
            &&& held.len() == if count < 5 {
                count
            } else {
                5
            }
            &&& count < 5 ==> after == held.push(count as int)
            &&& count >= 5 && (forall|j: int| 0 <= j < 5 ==> #[trigger] far(j) <= new) ==> after
                == held
            &&& count >= 5 && 0 <= slot < 5 && new < far(slot) && (forall|j: int|
                0 <= j < 5 ==> #[trigger] far(j) <= far(slot)) && (forall|j: int|
                0 <= j < slot ==> #[trigger] far(j) < far(slot)) ==> after == held.update(
                slot,
                count as int,
            )
        }),
{
    lemma_nearest_are_nearest(records, query, count);
    let held = nearest(records, query, count);
    let far = |j: int| distance(query, records[held[j]]);
    let values = distances(records, query, held);
    if count >= 5 {
        lemma_farthest(values);
        let worst = farthest(values);
        assert(values[worst] == far(worst));
        if 0 <= slot < 5 && (forall|j: int| 0 <= j < 5 ==> #[trigger] far(j) <= far(slot)) && (
        forall|j: int| 0 <= j < slot ==> #[trigger] far(j) < far(slot)) {
            assert forall|j: int| 0 <= j < values.len() implies #[trigger] values[j]
                <= values[slot] by {
                assert(far(j) <= far(slot));
            }
            assert forall|j: int| 0 <= j < slot implies #[trigger] values[j] < values[slot] by {
                assert(far(j) < far(slot));
            }
            lemma_farthest_is(values, slot);
        }
    }
}

} // verus!
