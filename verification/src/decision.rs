//! From the number of fraudulent neighbours to a decision.
use crate::feature_values::lemma_share_is_nearest;
use crate::features::share_of;
use crate::float32::{
    divide, from_i64, lemma_fraction_at_most_one, lemma_fraction_between,
    lemma_patterns_are_ordered, lemma_small_integer, one_units, pattern_units, Float32,
};
use crate::rounding::{lemma_kinds, off, rounds};
use vstd::arithmetic::power2::{lemma2_to64, lemma_pow2_adds, lemma_pow2_pos, pow2};
use vstd::prelude::*;

verus! {

/// The answer to a request: the score, and whether the transaction is approved.
/// Compared with `==`, the scores are compared as numbers.
#[derive(Clone, Copy, Debug)]
pub struct FraudResponse {
    pub approved: bool,
    pub fraud_score: Float32,
}

impl PartialEq for FraudResponse {
    fn eq(&self, other: &FraudResponse) -> (answer: bool) {
        self.approved == other.approved && self.fraud_score == other.fraud_score
    }
}

impl vstd::std_specs::cmp::PartialEqSpecImpl for FraudResponse {
    open spec fn obeys_eq_spec() -> bool {
        true
    }

    open spec fn eq_spec(&self, other: &FraudResponse) -> bool {
        self.approved == other.approved && self.fraud_score.equals(other.fraud_score)
    }
}

/// The share of fraud among the neighbours, in single precision.
pub open spec fn score_of(fraud_count: nat) -> Float32 {
    if fraud_count < 5 {
        share_of(fraud_count as int, 5)
    } else {
        share_of(5, 5)
    }
}

/// A transaction is approved below the score of three frauds in five.
pub open spec fn approved(score: Float32) -> bool {
    score.precedes(share_of(3, 5))
}

/// The answer for a number of fraudulent neighbours.
pub open spec fn decision(fraud_count: nat) -> FraudResponse {
    FraudResponse { approved: approved(score_of(fraud_count)), fraud_score: score_of(fraud_count) }
}

/// The share of fraud among the neighbours.
pub fn fraud_score_from_count(fraud_count: u8) -> (score: Float32)
    ensures
        score == score_of(fraud_count as nat),
{
    proof {
        lemma_small_integer(5);
    }
    let counted: u8 = if fraud_count < 5 {
        fraud_count
    } else {
        5
    };
    divide(from_i64(counted as i64), from_i64(5))
}

/// Whether a transaction with a score is approved.
pub fn approved_from_score(fraud_score: Float32) -> (answer: bool)
    ensures
        answer == approved(fraud_score),
{
    proof {
        lemma_small_integer(5);
    }
    fraud_score.is_less(divide(from_i64(3), from_i64(5)))
}

/// The answer for a number of fraudulent neighbours.
pub fn decision_from_fraud_count(fraud_count: u8) -> (response: FraudResponse)
    ensures
        response == decision(fraud_count as nat),
{
    let fraud_score: Float32 = fraud_score_from_count(fraud_count);
    FraudResponse { approved: approved_from_score(fraud_score), fraud_score }
}

/// Where the scores lie, in sixteenths.
proof fn lemma_scores()
    ensures
        forall|count: nat| #[trigger] score_of(count).finite(),
        score_of(0).units() == 0,
        3 * pow2(145) <= score_of(1).units() <= 4 * pow2(145),
        6 * pow2(145) <= score_of(2).units() <= 7 * pow2(145),
        9 * pow2(145) <= score_of(3).units() <= 10 * pow2(145),
        12 * pow2(145) <= score_of(4).units() <= 13 * pow2(145),
        score_of(5).units() == one_units(),
        16 * pow2(145) == one_units(),
        pow2(145) > 0,
{
    lemma_fraction_between(0, 5, 0, 0);
    lemma_fraction_between(1, 5, 3, 4);
    lemma_fraction_between(2, 5, 6, 7);
    lemma_fraction_between(3, 5, 9, 10);
    lemma_fraction_between(4, 5, 12, 13);
    lemma_fraction_at_most_one(5, 5);
    lemma2_to64();
    lemma_pow2_adds(4, 145);
    lemma_pow2_pos(145);
    assert forall|count: nat| #[trigger] score_of(count).finite() by {
        if count < 5 {
            assert(count == 0 || count == 1 || count == 2 || count == 3 || count == 4);
        }
    }
}

/// The score starts at zero, ends at one, and grows with every fraudulent neighbour.
pub proof fn lemma_score_grows(fewer: nat, more: nat)
    requires
        fewer < more <= 5,
    ensures
        score_of(0).units() == 0,
        score_of(5).units() == one_units(),
        score_of(fewer).precedes(score_of(more)),
{
    lemma_scores();
    assert(fewer == 0 || fewer == 1 || fewer == 2 || fewer == 3 || fewer == 4);
    assert(more == 1 || more == 2 || more == 3 || more == 4 || more == 5);
    assert(score_of(fewer).finite() && score_of(more).finite());
    assert(score_of(fewer).units() < score_of(more).units());
}

/// A transaction is approved just when fewer than three of its neighbours are fraud.
pub proof fn lemma_majority_decides(fraud_count: nat)
    ensures
        decision(fraud_count).approved <==> fraud_count < 3,
{
    lemma_scores();
    if fraud_count < 5 {
        assert(fraud_count == 0 || fraud_count == 1 || fraud_count == 2 || fraud_count == 3
            || fraud_count == 4);
    } else {
        assert(score_of(fraud_count) == score_of(5));
    }
    assert(score_of(fraud_count).finite() && score_of(3).finite());
    assert(share_of(3, 5) == score_of(3));
    assert(score_of(fraud_count).units() < score_of(3).units() <==> fraud_count < 3);
}

/// The score is the number nearest to the share of fraud among five neighbours.
pub proof fn lemma_score_is_the_share(fraud_count: nat)
    ensures
        rounds(
            score_of(fraud_count),
            false,
            (if fraud_count < 5 {
                fraud_count
            } else {
                5
            }) * pow2(149),
            5,
        ),
{
    if fraud_count < 5 {
        lemma_share_is_nearest(fraud_count, 5);
    } else {
        lemma_share_is_nearest(5, 5);
    }
}

/// The number nearest to three fifths.
proof fn lemma_three_fifths()
    ensures
        share_of(3, 5) == (Float32 { bits: 0x3f19_999a }),
        pattern_units(0x3f19_9999) == 10_066_329 * pow2(125),
        pattern_units(0x3f19_999a) == 10_066_330 * pow2(125),
        pow2(149) == 0x0100_0000 * pow2(125),
        pow2(125) > 0,
{
    lemma2_to64();
    lemma_pow2_adds(24, 125);
    lemma_pow2_pos(125);
    lemma_share_is_nearest(3, 5);
    let share = share_of(3, 5);
    let fifth = pow2(125);
    let near = Float32 { bits: 0x3f19_999a };
    assert(pattern_units(0x3f19_9999) == 10_066_329 * fifth);
    assert(pattern_units(0x3f19_999a) == 10_066_330 * fifth);
    assert(pattern_units(0x3f19_999b) == 10_066_331 * fifth);
    assert(near.finite());
    lemma_fraction_between(3, 5, 9, 10);
    assert(share.finite());
    lemma_kinds(share);
    if share.pattern() < 0x3f19_999a {
        if share.pattern() < 0x3f19_9999 {
            lemma_patterns_are_ordered(share.pattern(), 0x3f19_9999);
        }
    }
    if share.pattern() > 0x3f19_999a {
        if share.pattern() > 0x3f19_999b {
            lemma_patterns_are_ordered(0x3f19_999b, share.pattern());
        }
    }
    let exact = (3 * pow2(149)) as int;
    assert(off(exact, 5 * share.units()) <= off(exact, 5 * near.units()));
}

/// A score is approved just when it is a number below three fifths, exactly.
pub proof fn lemma_approval_is_below_three_fifths(score: Float32)
    ensures
        approved(score) <==> !score.nan() && 5 * score.units() < 3 * pow2(149),
{
    lemma_three_fifths();
    lemma_kinds(score);
    let limit = Float32 { bits: 0x3f19_999a };
    lemma_kinds(limit);
    if score.pattern() < 0x3f19_9999 {
        lemma_patterns_are_ordered(score.pattern(), 0x3f19_9999);
    }
    if score.pattern() > 0x3f19_999a {
        lemma_patterns_are_ordered(0x3f19_999a, score.pattern());
    }
}

/// A decision holds the score, and whether it is approved.
pub proof fn lemma_decision_holds_its_score(fraud_count: nat)
    ensures
        decision(fraud_count).fraud_score == score_of(fraud_count),
        decision(fraud_count).approved == approved(score_of(fraud_count)),
{
}

} // verus!
