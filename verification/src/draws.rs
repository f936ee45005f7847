//! What the draws of a sample are for: each is made among all places that are
//! left, and every record can come up.
use crate::dataset::Record;
use crate::sampling::{
    class_positions, drawn, lemma_class_positions, lemma_drawn, lemma_shuffle_permutes,
    mixed, sampled_positions, shuffled, smaller, state_after,
};
use vstd::prelude::*;

verus! {

/// A sum that wraps around is the sum modulo two to the power of 64.
proof fn lemma_wrapped_sum(a: int, b: int)
    requires
        0 <= a < 0x1_0000_0000_0000_0000,
        0 <= b < 0x1_0000_0000_0000_0000,
    ensures
        (a + b) % 0x1_0000_0000_0000_0000 == if a + b >= 0x1_0000_0000_0000_0000 {
            a + b - 0x1_0000_0000_0000_0000
        } else {
            a + b
        },
{
}

/// The state of the generator grows by the same step with every draw, modulo two
/// to the power of 64.
pub proof fn lemma_state_is_linear(seed: u64, draws: nat)
    ensures
        state_after(seed, draws) == (seed + draws * 0x9E37_79B9_7F4A_7C15)
            % 0x1_0000_0000_0000_0000,
    decreases draws,
{
    let range: int = 0x1_0000_0000_0000_0000;
    let step: int = 0x9E37_79B9_7F4A_7C15;
    if draws == 0 {
        vstd::arithmetic::div_mod::lemma_small_mod(seed as nat, range as nat);
    } else {
        let before = (draws - 1) as nat;
        lemma_state_is_linear(seed, before);
        let sum = seed + before * step;
        assert(seed + draws * step == sum + step);
        let state = state_after(seed, before) as int;
        lemma_wrapped_sum(state, step);
        vstd::arithmetic::div_mod::lemma_add_mod_noop(sum, step, range);
        vstd::arithmetic::div_mod::lemma_small_mod(step as nat, range as nat);
    }
}

/// Some seed leads to a given state.
proof fn lemma_state_can_be_reached(state: u64, draws: nat) -> (seed: u64)
    ensures
        state_after(seed, draws) == state,
    decreases draws,
{
    if draws == 0 {
        state
    } else {
        let before: u64 = if state >= 0x9E37_79B9_7F4A_7C15u64 {
            (state - 0x9E37_79B9_7F4A_7C15u64) as u64
        } else {
            (state + 0x1_0000_0000_0000_0000 - 0x9E37_79B9_7F4A_7C15u64) as u64
        };
        lemma_state_can_be_reached(before, (draws - 1) as nat)
    }
}

/// Multiplying by a number and then by its inverse gives the same number back.
proof fn lemma_inverse_multiplier(value: u64, factor: u64, inverse: u64)
    requires
        (inverse * factor) % 0x1_0000_0000_0000_0000 == 1,
    ensures
        value.wrapping_mul(inverse).wrapping_mul(factor) == value,
{
    let range: int = 0x1_0000_0000_0000_0000;
    let v = value as int;
    let f = factor as int;
    let i = inverse as int;
    vstd::arithmetic::div_mod::lemma_mul_mod_noop_left(v * i, f, range);
    vstd::arithmetic::div_mod::lemma_mul_mod_noop_right(v, i * f, range);
    assert((v * i) * f == v * (i * f)) by (nonlinear_arith);
    assert(v * 1 == v);
    vstd::arithmetic::div_mod::lemma_small_mod(value as nat, range as nat);
}

/// Every number is what some state yields.
pub proof fn lemma_every_number_is_yielded(number: u64) -> (state: u64)
    ensures
        mixed(state) == number,
{
    let second: u64 = number ^ (number >> 31) ^ (number >> 62);
    assert(second ^ (second >> 31) == number) by (bit_vector)
        requires
            second == number ^ (number >> 31) ^ (number >> 62),
    ;
    let product: u64 = second.wrapping_mul(0x3196_42B2_D24D_8EC3);
    lemma_inverse_multiplier(second, 0x94D0_49BB_1331_11EB, 0x3196_42B2_D24D_8EC3);
    let first: u64 = product ^ (product >> 27) ^ (product >> 54);
    assert(first ^ (first >> 27) == product) by (bit_vector)
        requires
            first == product ^ (product >> 27) ^ (product >> 54),
    ;
    let start: u64 = first.wrapping_mul(0x96DE_1B17_3F11_9089);
    lemma_inverse_multiplier(first, 0xBF58_476D_1CE4_E5B9, 0x96DE_1B17_3F11_9089);
    let state: u64 = start ^ (start >> 30) ^ (start >> 60);
    assert(state ^ (state >> 30) == start) by (bit_vector)
        requires
            state == start ^ (start >> 30) ^ (start >> 60),
    ;
    state
}

/// The state can be told from the number that it yields: undoing the steps of the
/// mixing one by one leads back to it.
pub proof fn lemma_mixing_can_be_undone(state: u64)
    ensures
        ({
            let number = mixed(state);
            let second = number ^ (number >> 31) ^ (number >> 62);
            let product = second.wrapping_mul(0x3196_42B2_D24D_8EC3);
            let first = product ^ (product >> 27) ^ (product >> 54);
            let start = first.wrapping_mul(0x96DE_1B17_3F11_9089);
            start ^ (start >> 30) ^ (start >> 60) == state
        }),
{
    let start: u64 = state ^ (state >> 30);
    let first: u64 = start.wrapping_mul(0xBF58_476D_1CE4_E5B9);
    let product: u64 = first ^ (first >> 27);
    let second: u64 = product.wrapping_mul(0x94D0_49BB_1331_11EB);
    let number: u64 = second ^ (second >> 31);
    assert(number ^ (number >> 31) ^ (number >> 62) == second) by (bit_vector)
        requires
            number == second ^ (second >> 31),
    ;
    assert(product ^ (product >> 27) ^ (product >> 54) == first) by (bit_vector)
        requires
            product == first ^ (first >> 27),
    ;
    assert(start ^ (start >> 30) ^ (start >> 60) == state) by (bit_vector)
        requires
            start == state ^ (state >> 30),
    ;
    lemma_inverse_multiplier(product, 0x3196_42B2_D24D_8EC3, 0x94D0_49BB_1331_11EB);
    lemma_inverse_multiplier(start, 0x96DE_1B17_3F11_9089, 0xBF58_476D_1CE4_E5B9);
}

/// The place drawn for a slot is as many places behind it as the number of the
/// slot leaves when it is divided by the number of places that are left.
pub proof fn lemma_draw_is_the_remainder(seed: u64, slot: nat, length: nat)
    requires
        slot < length,
    ensures
        slot <= drawn(seed, slot, length) < length,
        (mixed(state_after(seed, slot + 1)) - (drawn(seed, slot, length) - slot)) % (length - slot)
            == 0,
{
    lemma_drawn(seed, slot, length);
    let number = mixed(state_after(seed, slot + 1)) as int;
    let left = length - slot;
    vstd::arithmetic::div_mod::lemma_fundamental_div_mod(number, left);
    vstd::arithmetic::div_mod::lemma_mod_multiples_basic(number / left, left);
    assert(number - number % left == (number / left) * left) by (nonlinear_arith)
        requires
            number == left * (number / left) + number % left,
    ;
}

/// For every slot and every place from it on there is a seed that draws it.
pub proof fn lemma_every_place_can_be_drawn(slot: nat, length: nat, place: nat) -> (seed: u64)
    requires
        slot <= place < length <= usize::MAX,
    ensures
        drawn(seed, slot, length) == place,
{
    let number = (place - slot) as u64;
    let state = lemma_every_number_is_yielded(number);
    vstd::arithmetic::div_mod::lemma_small_mod(number as nat, (length - slot) as nat);
    lemma_state_can_be_reached(state, slot + 1)
}

/// A shuffle of no slots changes nothing, and one more slot exchanges that slot
/// with the place drawn for it and leaves the others as they are.
pub proof fn lemma_shuffle_steps(indices: Seq<usize>, slot: nat, seed: u64)
    requires
        slot < indices.len(),
    ensures
        shuffled(indices, 0, seed) == indices,
        ({
            let before = shuffled(indices, slot, seed);
            let after = shuffled(indices, slot + 1, seed);
            let place = drawn(seed, slot, indices.len());
            &&& after.len() == indices.len()
            &&& after[slot as int] == before[place]
            &&& after[place] == before[slot as int]
            &&& forall|i: int|
                0 <= i < indices.len() && i != slot && i != place ==> #[trigger] after[i]
                    == before[i]
        }),
{
    lemma_shuffle_permutes(indices, slot, seed);
    lemma_drawn(seed, slot, indices.len());
}

/// A slot that has been shuffled is not touched again.
pub proof fn lemma_shuffled_slots_stay(indices: Seq<usize>, take: nat, seed: u64, slot: int)
    requires
        0 <= slot < take <= indices.len(),
    ensures
        shuffled(indices, take, seed)[slot] == shuffled(indices, (slot + 1) as nat, seed)[slot],
    decreases take,
{
    if slot + 1 < take {
        let last = (take - 1) as nat;
        lemma_shuffled_slots_stay(indices, last, seed, slot);
        lemma_shuffle_steps(indices, last, seed);
        lemma_drawn(seed, last, indices.len());
    }
}

/// Every value can come first.
pub proof fn lemma_every_value_can_come_first(indices: Seq<usize>, take: nat, at: nat) -> (seed:
    u64)
    requires
        at < indices.len() <= usize::MAX,
        0 < take <= indices.len(),
    ensures
        shuffled(indices, take, seed)[0] == indices[at as int],
{
    let seed = lemma_every_place_can_be_drawn(0, indices.len(), at);
    lemma_shuffle_steps(indices, 0, seed);
    lemma_shuffled_slots_stay(indices, take, seed, 0);
    seed
}

/// The positions of a class are in the order of the records.
pub proof fn lemma_class_positions_ascend(records: Seq<Record>, fraud: bool, count: nat)
    requires
        count <= records.len() <= usize::MAX,
    ensures
        ({
            let positions = class_positions(records, fraud, count);
            forall|i: int, j: int|
                0 <= i < j < positions.len() ==> #[trigger] positions[i] < #[trigger] positions[j]
        }),
    decreases count,
{
    if count > 0 {
        lemma_class_positions_ascend(records, fraud, (count - 1) as nat);
        lemma_class_positions(records, fraud, (count - 1) as nat);
    }
}

/// How a sample is drawn: of the frauds in their order the first slots of a
/// shuffle, then of the others the first slots of a shuffle with the numbers that
/// follow; of each class as many as wanted, or all.
pub proof fn lemma_sample_is_drawn_by_class(records: Seq<Record>, per_class: nat, seed: u64)
    requires
        records.len() <= usize::MAX,
    ensures
        ({
            let positions = sampled_positions(records, per_class, seed);
            let frauds = class_positions(records, true, records.len());
            let others = class_positions(records, false, records.len());
            let first: nat = if per_class < frauds.len() {
                per_class
            } else {
                frauds.len()
            };
            let second: nat = if per_class < others.len() {
                per_class
            } else {
                others.len()
            };
            let later = ((seed + first * 0x9E37_79B9_7F4A_7C15) % 0x1_0000_0000_0000_0000) as u64;
            &&& positions.len() == first + second
            &&& forall|j: int|
                0 <= j < first ==> #[trigger] positions[j] == shuffled(frauds, first, seed)[j]
            &&& forall|j: int|
                first <= j < first + second ==> #[trigger] positions[j] == shuffled(
                    others,
                    second,
                    later,
                )[j - first]
        }),
{
    let frauds = class_positions(records, true, records.len());
    let others = class_positions(records, false, records.len());
    let first = smaller(per_class, frauds.len());
    let second = smaller(per_class, others.len());
    lemma_state_is_linear(seed, first);
    lemma_shuffle_permutes(frauds, first, seed);
    lemma_shuffle_permutes(others, second, state_after(seed, first));
}

/// Every record can be sampled: for each of them there is a seed with which it is
/// in the sample.
pub proof fn lemma_every_record_can_be_sampled(
    records: Seq<Record>,
    per_class: nat,
    record: usize,
) -> (seed: u64)
    requires
        record < records.len() <= usize::MAX,
        per_class > 0,
    ensures
        sampled_positions(records, per_class, seed).contains(record),
{
    let fraud = records[record as int].fraud;
    let frauds = class_positions(records, true, records.len());
    let others = class_positions(records, false, records.len());
    lemma_class_positions(records, true, records.len());
    lemma_class_positions(records, false, records.len());
    let first = smaller(per_class, frauds.len());
    let second = smaller(per_class, others.len());
    if fraud {
        assert(frauds.contains(record));
        let at = choose|at: int| 0 <= at < frauds.len() && frauds[at] == record;
        let seed = lemma_every_value_can_come_first(frauds, first, at as nat);
        lemma_shuffle_permutes(frauds, first, seed);
        assert(sampled_positions(records, per_class, seed)[0] == record);
        seed
    } else {
        assert(others.contains(record));
        let at = choose|at: int| 0 <= at < others.len() && others[at] == record;
        let later = lemma_every_value_can_come_first(others, second, at as nat);
        let seed = lemma_state_can_be_reached(later, first);
        lemma_shuffle_permutes(frauds, first, seed);
        lemma_shuffle_permutes(others, second, later);
        assert(sampled_positions(records, per_class, seed)[first as int] == record);
        seed
    }
}

/// The smaller of two numbers is one of them, and above neither.
pub proof fn lemma_smaller_is_the_least(a: nat, b: nat)
    ensures
        smaller(a, b) <= a,
        smaller(a, b) <= b,
        smaller(a, b) == a || smaller(a, b) == b,
{
}

} // verus!
