//! A reproducible sample of the reference transactions, balanced by class.
use crate::dataset::{label_of, Record, ReferenceDataset};
use crate::quantize::VECTOR_DIMENSIONS;
use vstd::prelude::*;

verus! {

/// The SplitMix64 generator of pseudo-random numbers.
#[derive(Clone, Copy, Debug)]
pub struct SplitMix64 {
    pub state: u64,
}

/// The state after `draws` numbers have been drawn.
pub open spec fn state_after(seed: u64, draws: nat) -> u64
    decreases draws,
{
    if draws == 0 {
        seed
    } else {
        state_after(seed, (draws - 1) as nat).wrapping_add(0x9E37_79B9_7F4A_7C15)
    }
}

/// The number that a state yields.
pub open spec fn mixed(state: u64) -> u64 {
    let first = (state ^ (state >> 30)).wrapping_mul(0xBF58_476D_1CE4_E5B9);
    let second = (first ^ (first >> 27)).wrapping_mul(0x94D0_49BB_1331_11EB);
    second ^ (second >> 31)
}

impl SplitMix64 {
    /// A generator that starts from a seed.
    pub fn new(seed: u64) -> (generator: Self)
        ensures
            generator.state == seed,
    {
        Self { state: seed }
    }

    /// Draws the next number.
    pub fn next_u64(&mut self) -> (number: u64)
        ensures
            final(self).state == state_after(old(self).state, 1),
            number == mixed(final(self).state),
    {
        self.state = self.state.wrapping_add(0x9E37_79B9_7F4A_7C15);
        proof {
            reveal_with_fuel(state_after, 2);
        }
        let mut z: u64 = self.state;
        z = (z ^ (z >> 30)).wrapping_mul(0xBF58_476D_1CE4_E5B9);
        z = (z ^ (z >> 27)).wrapping_mul(0x94D0_49BB_1331_11EB);
        z ^ (z >> 31)
    }
}

/// A sequence with two of its places exchanged.
pub open spec fn swapped(values: Seq<usize>, i: int, j: int) -> Seq<usize> {
    values.update(i, values[j]).update(j, values[i])
}

/// The place that is drawn for a slot: one of those from the slot on.
pub open spec fn drawn(seed: u64, slot: nat, length: nat) -> int {
    slot + mixed(state_after(seed, slot + 1)) as int % (length - slot)
}

/// The first `take` steps of a Fisher-Yates shuffle: each slot in turn is
/// exchanged with the place drawn for it.
pub open spec fn shuffled(indices: Seq<usize>, take: nat, seed: u64) -> Seq<usize>
    decreases take,
{
    if take == 0 {
        indices
    } else {
        let slot = (take - 1) as nat;
        swapped(
            shuffled(indices, slot, seed),
            slot as int,
            drawn(seed, slot, indices.len()),
        )
    }
}

/// The smaller of two numbers.
pub open spec fn smaller(a: nat, b: nat) -> nat {
    if a < b {
        a
    } else {
        b
    }
}

/// Drawing in two goes is drawing in one.
proof fn lemma_state_after(seed: u64, first: nat, second: nat)
    ensures
        state_after(state_after(seed, first), second) == state_after(seed, first + second),
    decreases second,
{
    if second > 0 {
        lemma_state_after(seed, first, (second - 1) as nat);
        assert(first + (second - 1) as nat == (first + second - 1) as nat);
    }
}

/// Shuffles the first `take` slots.
pub fn partial_fisher_yates(indices: &mut Vec<usize>, take: usize, rng: &mut SplitMix64)
    ensures
        final(indices)@ == shuffled(
            old(indices)@,
            smaller(take as nat, old(indices)@.len()),
            old(rng).state,
        ),
        final(indices)@.len() == old(indices)@.len(),
        final(rng).state == state_after(
            old(rng).state,
            smaller(take as nat, old(indices)@.len()),
        ),
{
    let length: usize = indices.len();
    let count: usize = if take < length {
        take
    } else {
        length
    };
    let ghost seed = rng.state;
    let mut slot: usize = 0;
    while slot < count
        invariant
            slot <= count <= length,
            length == old(indices)@.len(),
            indices@.len() == length,
            indices@ == shuffled(old(indices)@, slot as nat, seed),
            rng.state == state_after(seed, slot as nat),
        decreases count - slot,
    {
        let remaining: u64 = (length - slot) as u64;
        let number: u64 = rng.next_u64();
        let step: u64 = number % remaining;
        proof {
            lemma_state_after(seed, slot as nat, 1);
            assert(step < remaining);
        }
        let pick: usize = slot + step as usize;
        let kept: usize = indices[slot];
        let chosen: usize = indices[pick];
        indices.set(slot, chosen);
        indices.set(pick, kept);
        slot = slot + 1;
    }
}

/// The positions of the records of one class among the first `count`.
pub open spec fn class_positions(records: Seq<Record>, fraud: bool, count: nat) -> Seq<usize>
    decreases count,
{
    if count == 0 {
        Seq::empty()
    } else {
        let last = count - 1;
        let before = class_positions(records, fraud, last as nat);
        if records[last].fraud == fraud {
            before.push(last as usize)
        } else {
            before
        }
    }
}

/// The positions that a sample takes: fraud first, then the others, at most
/// `per_class` of each.
pub open spec fn sampled_positions(records: Seq<Record>, per_class: nat, seed: u64) -> Seq<usize> {
    let frauds = class_positions(records, true, records.len());
    let others = class_positions(records, false, records.len());
    let fraud_take = smaller(per_class, frauds.len());
    let other_take = smaller(per_class, others.len());
    shuffled(frauds, fraud_take, seed).take(fraud_take as int) + shuffled(
        others,
        other_take,
        state_after(seed, fraud_take),
    ).take(other_take as int)
}

/// What the positions of a class are: each such position, once.
pub proof fn lemma_class_positions(records: Seq<Record>, fraud: bool, count: nat)
    requires
        count <= records.len() <= usize::MAX,
    ensures
        ({
            let positions = class_positions(records, fraud, count);
            &&& positions.len() <= count
            &&& positions.no_duplicates()
            &&& forall|j: int|
                0 <= j < positions.len() ==> #[trigger] positions[j] < count
                    && records[positions[j] as int].fraud == fraud
            &&& forall|i: usize|
                i < count && records[i as int].fraud == fraud ==> #[trigger] positions.contains(i)
        }),
    decreases count,
{
    if count > 0 {
        let last = count - 1;
        let before = class_positions(records, fraud, last as nat);
        let positions = class_positions(records, fraud, count);
        lemma_class_positions(records, fraud, last as nat);
        assert forall|i: usize|
            i < count && records[i as int].fraud == fraud implies #[trigger] positions.contains(
            i,
        ) by {
            if i < last {
                assert(before.contains(i));
                let at = choose|at: int| 0 <= at < before.len() && before[at] == i;
                assert(positions[at] == i);
            } else {
                assert(positions[positions.len() - 1] == i);
            }
        }
    }
}

/// The two classes together are all records.
pub proof fn lemma_classes_partition(records: Seq<Record>, count: nat)
    ensures
        class_positions(records, true, count).len() + class_positions(records, false, count).len()
            == count,
    decreases count,
{
    if count > 0 {
        lemma_classes_partition(records, (count - 1) as nat);
    }
}

/// The place drawn for a slot is one of those from the slot on.
pub(crate) proof fn lemma_drawn(seed: u64, slot: nat, length: nat)
    requires
        slot < length,
    ensures
        slot <= drawn(seed, slot, length) < length,
{
    vstd::arithmetic::div_mod::lemma_mod_bound(
        mixed(state_after(seed, slot + 1)) as int,
        length - slot,
    );
}

/// Setting one place exchanges one value for another.
proof fn lemma_place_set(values: Seq<usize>, at: int, value: usize)
    requires
        0 <= at < values.len(),
    ensures
        values.to_multiset().count(values[at]) > 0,
        values.update(at, value).to_multiset() == values.to_multiset().remove(values[at]).insert(
            value,
        ),
{
    broadcast use vstd::multiset::group_multiset_axioms;

    let set = values.update(at, value);
    values.to_multiset_ensures();
    set.to_multiset_ensures();
    assert(values.contains(values[at]));
    assert(set[at] == value);
    assert(set.contains(value));
    assert(set.remove(at) =~= values.remove(at));
    assert(set.remove(at).to_multiset() == set.to_multiset().remove(value));
    assert(values.remove(at).to_multiset() == values.to_multiset().remove(values[at]));
    assert(set.to_multiset().remove(value).insert(value) =~= set.to_multiset());
}

/// Exchanging two places keeps the values.
proof fn lemma_swap_keeps_values(values: Seq<usize>, i: int, j: int)
    requires
        0 <= i < values.len(),
        0 <= j < values.len(),
    ensures
        swapped(values, i, j).to_multiset() == values.to_multiset(),
{
    broadcast use vstd::multiset::group_multiset_axioms;

    lemma_place_set(values, i, values[j]);
    lemma_place_set(values.update(i, values[j]), j, values[i]);
    assert(swapped(values, i, j).to_multiset() =~= values.to_multiset());
}

/// A shuffle keeps every value as often as it occurs, and repeats none that was
/// not repeated.
pub proof fn lemma_shuffle_permutes(indices: Seq<usize>, take: nat, seed: u64)
    requires
        take <= indices.len(),
    ensures
        ({
            let result = shuffled(indices, take, seed);
            &&& result.len() == indices.len()
            &&& result.to_multiset() == indices.to_multiset()
            &&& indices.no_duplicates() ==> result.no_duplicates()
            &&& forall|value: usize| #[trigger]
                result.contains(value) <==> indices.contains(value)
        }),
    decreases take,
{
    if take > 0 {
        let slot = (take - 1) as nat;
        let before = shuffled(indices, slot, seed);
        let result = shuffled(indices, take, seed);
        let pick = drawn(seed, slot, indices.len());
        lemma_shuffle_permutes(indices, slot, seed);
        lemma_drawn(seed, slot, indices.len());
        lemma_swap_keeps_values(before, slot as int, pick);
        assert forall|value: usize| #[trigger]
            result.contains(value) <==> indices.contains(value) by {
            if result.contains(value) {
                let at = choose|at: int| 0 <= at < result.len() && result[at] == value;
                let from = if at == pick {
                    slot as int
                } else if at == slot {
                    pick
                } else {
                    at
                };
                assert(before[from] == value);
                assert(before.contains(value));
            }
            if indices.contains(value) {
                assert(before.contains(value));
                let at = choose|at: int| 0 <= at < before.len() && before[at] == value;
                let to = if at == pick {
                    slot as int
                } else if at == slot {
                    pick
                } else {
                    at
                };
                assert(result[to] == value);
            }
        }
    }
}

/// What a sample is: of each class as many records as wanted or as there are,
/// fraud first, no record twice.
pub proof fn lemma_sample_is_balanced(records: Seq<Record>, per_class: nat, seed: u64)
    requires
        records.len() <= usize::MAX,
    ensures
        ({
            let positions = sampled_positions(records, per_class, seed);
            let frauds = smaller(per_class, class_positions(records, true, records.len()).len());
            let others = smaller(per_class, class_positions(records, false, records.len()).len());
            &&& positions.len() == frauds + others
            &&& positions.len() <= records.len()
            &&& positions.no_duplicates()
            &&& forall|j: int|
                0 <= j < positions.len() ==> #[trigger] positions[j] < records.len()
                    && records[positions[j] as int].fraud == (j < frauds)
        }),
{
    let length = records.len();
    lemma_class_positions(records, true, length);
    lemma_class_positions(records, false, length);
    lemma_classes_partition(records, length);
    let frauds = class_positions(records, true, length);
    let others = class_positions(records, false, length);
    let fraud_take = smaller(per_class, frauds.len());
    let other_take = smaller(per_class, others.len());
    lemma_shuffle_permutes(frauds, fraud_take, seed);
    lemma_shuffle_permutes(others, other_take, state_after(seed, fraud_take));
    let first = shuffled(frauds, fraud_take, seed);
    let second = shuffled(others, other_take, state_after(seed, fraud_take));
    let positions = sampled_positions(records, per_class, seed);
    assert forall|j: int| 0 <= j < positions.len() implies #[trigger] positions[j] < length
        && records[positions[j] as int].fraud == (j < fraud_take) by {
        if j < fraud_take {
            assert(first.contains(first[j]));
            let at = choose|at: int| 0 <= at < frauds.len() && frauds[at] == first[j];
            assert(frauds[at] == positions[j]);
        } else {
            let k = j - fraud_take;
            assert(second.contains(second[k]));
            let at = choose|at: int| 0 <= at < others.len() && others[at] == second[k];
            assert(others[at] == positions[j]);
        }
    }
    assert forall|i: int, j: int|
        0 <= i < positions.len() && 0 <= j < positions.len() && i != j implies positions[i]
        != positions[j] by {
        if i < fraud_take && j < fraud_take {
            assert(first[i] != first[j]);
        } else if i >= fraud_take && j >= fraud_take {
            assert(second[i - fraud_take] != second[j - fraud_take]);
        } else {
            assert(records[positions[i] as int].fraud != records[positions[j] as int].fraud);
        }
    }
}

impl ReferenceDataset {
    /// The positions of the records of one class.
    fn positions_of(&self, fraud: bool) -> (positions: Vec<usize>)
        requires
            self.well_formed(),
        ensures
            positions@ == class_positions(self@, fraud, self@.len()),
    {
        let labels: &Vec<u8> = self.labels();
        let count: usize = self.len();
        let mut positions: Vec<usize> = Vec::new();
        let mut record: usize = 0;
        while record < count
            invariant
                record <= count,
                count == self@.len(),
                labels@.len() == count,
                forall|i: int|
                    0 <= i < count ==> #[trigger] labels@[i] == label_of(self@[i].fraud),
                positions@ == class_positions(self@, fraud, record as nat),
            decreases count - record,
        {
            if (labels[record] != 0) == fraud {
                positions.push(record);
            }
            record = record + 1;
        }
        positions
    }

    /// Appends copies of the records at the first `take` of some positions.
    fn push_from(&mut self, source: &ReferenceDataset, positions: &Vec<usize>, take: usize)
        requires
            old(self).well_formed(),
            source.well_formed(),
            take <= positions@.len(),
            forall|j: int| 0 <= j < take ==> #[trigger] positions@[j] < source@.len(),
        ensures
            final(self).well_formed(),
            final(self)@ == old(self)@ + Seq::new(
                take as nat,
                |j: int| source@[positions@[j] as int],
            ),
    {
        let labels: &Vec<u8> = source.labels();
        let mut next: usize = 0;
        while next < take
            invariant
                next <= take <= positions@.len(),
                self.well_formed(),
                source.well_formed(),
                labels@.len() == source@.len(),
                forall|i: int|
                    0 <= i < source@.len() ==> #[trigger] labels@[i] == label_of(source@[i].fraud),
                forall|j: int| 0 <= j < take ==> #[trigger] positions@[j] < source@.len(),
                self@ == old(self)@ + Seq::new(
                    next as nat,
                    |j: int| source@[positions@[j] as int],
                ),
            decreases take - next,
        {
            let from: usize = positions[next];
            let vector: [i16; VECTOR_DIMENSIONS] = source.vector_at(from);
            self.push_quantized_vector(&vector, labels[from]);
            proof {
                assert(self@.last() =~= source@[from as int]);
                assert(self@ =~= old(self)@ + Seq::new(
                    (next + 1) as nat,
                    |j: int| source@[positions@[j] as int],
                ));
            }
            next = next + 1;
        }
    }

    /// A sample with at most `per_class` records of each class, fraud first.
    /// The same seed always gives the same sample.
    pub fn stratified_subsample(&self, per_class: usize, seed: u64) -> (sample: Self)
        requires
            self.well_formed(),
        ensures
            sample.well_formed(),
            sample@ == Seq::new(
                sampled_positions(self@, per_class as nat, seed).len(),
                |j: int| self@[sampled_positions(self@, per_class as nat, seed)[j] as int],
            ),
    {
        let mut fraud_indices: Vec<usize> = self.positions_of(true);
        let mut legit_indices: Vec<usize> = self.positions_of(false);
        let count: usize = self.len();
        let mut rng: SplitMix64 = SplitMix64::new(seed);
        partial_fisher_yates(&mut fraud_indices, per_class, &mut rng);
        partial_fisher_yates(&mut legit_indices, per_class, &mut rng);
        let take_fraud: usize = if fraud_indices.len() < per_class {
            fraud_indices.len()
        } else {
            per_class
        };
        let take_legit: usize = if legit_indices.len() < per_class {
            legit_indices.len()
        } else {
            per_class
        };
        let ghost positions = sampled_positions(self@, per_class as nat, seed);
        proof {
            assert(count == self@.len());
            lemma_sample_is_balanced(self@, per_class as nat, seed);
            assert forall|j: int| 0 <= j < take_fraud implies #[trigger] fraud_indices@[j]
                < self@.len() by {
                assert(positions[j] == fraud_indices@[j]);
            }
            assert forall|j: int| 0 <= j < take_legit implies #[trigger] legit_indices@[j]
                < self@.len() by {
                assert(positions[take_fraud + j] == legit_indices@[j]);
            }
        }
        let mut output: ReferenceDataset = ReferenceDataset::with_room_for(take_fraud + take_legit);
        output.push_from(self, &fraud_indices, take_fraud);
        output.push_from(self, &legit_indices, take_legit);
        proof {
            assert(output@ =~= Seq::new(
                positions.len(),
                |j: int| self@[positions[j] as int],
            ));
        }
        output
    }
}

} // verus!
