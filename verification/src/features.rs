//! From a transaction to its vector of features.
use crate::float32::{
    clamp01, clamped01, divide, from_i64, lemma_clamped_stays, lemma_fraction_at_most_one,
    lemma_small_integer, lemma_unit_numbers, nearest_to_integer, one_units, quotient, Float32,
    HALF, MINUS_ONE, ONE, ZERO,
};
use crate::quantize::VECTOR_DIMENSIONS;
use crate::request::{
    entered_risks, loaded_risks, FraudRequest, MccRisk, Normalization,
};
use crate::timestamp::{
    elapsed_nanos, instant, read_timestamp, whole_seconds, UtcTimestamp, VectorizeError,
};
use vstd::prelude::*;

verus! {

/// A value as a share of the value that counts as one, between zero and one;
/// zero where that value is of no use.
pub open spec fn normalized(value: Float32, max: Float32) -> Float32 {
    if max.positive() {
        clamped01(quotient(value, max))
    } else {
        Float32 { bits: ZERO }
    }
}

/// A value as a share of the value that counts as one, between zero and one;
/// zero where that value is of no use.
pub fn normalize_positive(value: Float32, max: Float32) -> (share: Float32)
    ensures
        share == normalized(value, max),
{
    if !max.is_positive() {
        return Float32 { bits: ZERO };
    }
    clamp01(divide(value, max))
}

/// How far an amount exceeds the customer's average, as a share of the ratio
/// that counts as one. No amount is zero; where there is nothing to compare
/// with, any amount counts as one.
pub open spec fn amount_ratio(amount: Float32, average: Float32, ratio: Float32) -> Float32 {
    if !amount.positive() {
        Float32 { bits: ZERO }
    } else if !average.positive() || !ratio.positive() {
        Float32 { bits: ONE }
    } else {
        clamped01(quotient(quotient(amount, average), ratio))
    }
}

/// How far an amount exceeds the customer's average.
fn amount_vs_avg(amount: Float32, average: Float32, ratio: Float32) -> (share: Float32)
    ensures
        share == amount_ratio(amount, average, ratio),
{
    if !amount.is_positive() {
        Float32 { bits: ZERO }
    } else if !average.is_positive() || !ratio.is_positive() {
        Float32 { bits: ONE }
    } else {
        clamp01(divide(divide(amount, average), ratio))
    }
}

/// A flag as a feature.
pub open spec fn flag(set: bool) -> Float32 {
    if set {
        Float32 { bits: ONE }
    } else {
        Float32 { bits: ZERO }
    }
}

/// A flag as a feature.
fn flag_feature(set: bool) -> (feature: Float32)
    ensures
        feature == flag(set),
{
    if set {
        Float32 { bits: ONE }
    } else {
        Float32 { bits: ZERO }
    }
}

/// Whether the customer has dealt with the merchant before.
pub open spec fn knows_merchant(request: FraudRequest) -> bool {
    exists|i: int|
        0 <= i < request.customer.known_merchants@.len()
            && #[trigger] request.customer.known_merchants@[i]@ == request.merchant.id@
}

/// Whether a name is among others.
fn contains_name(names: &Vec<String>, name: &String) -> (found: bool)
    ensures
        found == exists|i: int| 0 <= i < names@.len() && #[trigger] names@[i]@ == name@,
{
    let mut next: usize = 0;
    while next < names.len()
        invariant
            next <= names@.len(),
            forall|i: int| 0 <= i < next ==> #[trigger] names@[i]@ != name@,
        decreases names@.len() - next,
    {
        if names[next] == *name {
            assert(names@[next as int]@ == name@);
            return true;
        }
        next = next + 1;
    }
    false
}

/// The risk of a merchant category, between zero and one; one half where it is
/// not known.
pub open spec fn category_risk(risks: Map<Seq<char>, Float32>, mcc: Seq<char>) -> Float32 {
    if risks.contains_key(mcc) {
        clamped01(risks[mcc])
    } else {
        Float32 { bits: HALF }
    }
}

/// A whole number as a share of another.
pub open spec fn share_of(part: int, whole: int) -> Float32 {
    quotient(nearest_to_integer(part), nearest_to_integer(whole))
}

/// A whole number as a share of another.
fn share(part: i64, whole: i64) -> (result: Float32)
    requires
        0 < whole < 0x0100_0000,
    ensures
        result == share_of(part as int, whole as int),
{
    proof {
        lemma_small_integer(whole as nat);
    }
    divide(from_i64(part), from_i64(whole))
}

/// The minutes from one instant to another, as a number.
pub open spec fn minutes_between(later: UtcTimestamp, earlier: UtcTimestamp) -> Float32 {
    share_of(whole_seconds(elapsed_nanos(later, earlier)), 60)
}

/// The features of a transaction, for instants that were read from it.
pub open spec fn features(
    request: FraudRequest,
    risks: Map<Seq<char>, Float32>,
    normalization: Normalization,
    requested_at: UtcTimestamp,
    last_at: UtcTimestamp,
) -> Seq<Float32> {
    let amount = request.transaction.amount;
    seq![
        normalized(amount, normalization.max_amount),
        normalized(request.transaction.installments, normalization.max_installments),
        amount_ratio(amount, request.customer.avg_amount, normalization.amount_vs_avg_ratio),
        share_of(requested_at.seconds as int % 86_400 / 3_600, 23),
        share_of((requested_at.seconds as int / 86_400 + 3) % 7, 6),
        match request.last_transaction {
            Some(last) => normalized(
                minutes_between(requested_at, last_at),
                normalization.max_minutes,
            ),
            None => Float32 { bits: MINUS_ONE },
        },
        match request.last_transaction {
            Some(last) => normalized(last.km_from_current, normalization.max_km),
            None => Float32 { bits: MINUS_ONE },
        },
        normalized(request.terminal.km_from_home, normalization.max_km),
        normalized(request.customer.tx_count_24h, normalization.max_tx_count_24h),
        flag(request.terminal.is_online),
        flag(request.terminal.card_present),
        flag(!knows_merchant(request)),
        category_risk(risks, request.merchant.mcc@),
        normalized(request.merchant.avg_amount, normalization.max_merchant_avg_amount),
    ]
}

/// What turning a transaction into a vector comes to, for what its timestamps
/// were read as: its features, or the field that is wrong and what it holds.
pub open spec fn vectorized(
    request: FraudRequest,
    risks: Map<Seq<char>, Float32>,
    normalization: Normalization,
    requested_at: Option<UtcTimestamp>,
    last_at: Option<UtcTimestamp>,
) -> Result<Seq<Float32>, (Seq<char>, Seq<char>)> {
    match requested_at {
        None => Err(("transaction.requested_at"@, request.transaction.requested_at@)),
        Some(at) => match request.last_transaction {
            None => Ok(features(request, risks, normalization, at, at)),
            Some(last) => match last_at {
                None => Err(("last_transaction.timestamp"@, last.timestamp@)),
                Some(before) => Ok(features(request, risks, normalization, at, before)),
            },
        },
    }
}

/// Whether an outcome is what is expected.
pub open spec fn agrees(
    outcome: Result<[Float32; VECTOR_DIMENSIONS], VectorizeError>,
    expected: Result<Seq<Float32>, (Seq<char>, Seq<char>)>,
) -> bool {
    match (outcome, expected) {
        (Ok(vector), Ok(features)) => vector@ == features,
        (Err(error), Err(wrong)) => error.field@ == wrong.0 && error.value@ == wrong.1,
        _ => false,
    }
}

/// What the timestamp of the last transaction reads as, if there is one.
pub open spec fn last_instant(request: FraudRequest) -> Option<UtcTimestamp> {
    match request.last_transaction {
        Some(last) => instant(last.timestamp@),
        None => None,
    }
}

/// The features of a transaction, given what its timestamps were read as.
pub fn vectorize_at(
    request: &FraudRequest,
    mcc_risk: &MccRisk,
    normalization: &Normalization,
    requested_at: Option<UtcTimestamp>,
    last_at: Option<UtcTimestamp>,
) -> (outcome: Result<[Float32; VECTOR_DIMENSIONS], VectorizeError>)
    requires
        requested_at matches Some(at) ==> at.valid(),
        last_at matches Some(at) ==> at.valid(),
    ensures
        agrees(outcome, vectorized(*request, mcc_risk@, *normalization, requested_at, last_at)),
{
    let requested: UtcTimestamp = match requested_at {
        Some(at) => at,
        None => return Err(
            VectorizeError::invalid_timestamp(
                "transaction.requested_at",
                request.transaction.requested_at.as_str(),
            ),
        ),
    };
    let (minutes_since_last, km_from_last_tx) = match &request.last_transaction {
        Some(last) => {
            let before: UtcTimestamp = match last_at {
                Some(at) => at,
                None => return Err(
                    VectorizeError::invalid_timestamp(
                        "last_transaction.timestamp",
                        last.timestamp.as_str(),
                    ),
                ),
            };
            let minutes: Float32 = share(requested.seconds_since(&before), 60);
            (
                normalize_positive(minutes, normalization.max_minutes),
                normalize_positive(last.km_from_current, normalization.max_km),
            )
        },
        None => (Float32 { bits: MINUS_ONE }, Float32 { bits: MINUS_ONE }),
    };
    let amount: Float32 = request.transaction.amount;
    let risk: Float32 = match mcc_risk.get(request.merchant.mcc.as_str()) {
        Some(risk) => clamp01(risk),
        None => Float32 { bits: HALF },
    };
    let known: bool = contains_name(&request.customer.known_merchants, &request.merchant.id);
    let vector: [Float32; VECTOR_DIMENSIONS] = [
        normalize_positive(amount, normalization.max_amount),
        normalize_positive(request.transaction.installments, normalization.max_installments),
        amount_vs_avg(amount, request.customer.avg_amount, normalization.amount_vs_avg_ratio),
        share(requested.hour() as i64, 23),
        share(requested.day_of_week() as i64, 6),
        minutes_since_last,
        km_from_last_tx,
        normalize_positive(request.terminal.km_from_home, normalization.max_km),
        normalize_positive(request.customer.tx_count_24h, normalization.max_tx_count_24h),
        flag_feature(request.terminal.is_online),
        flag_feature(request.terminal.card_present),
        flag_feature(!known),
        risk,
        normalize_positive(request.merchant.avg_amount, normalization.max_merchant_avg_amount),
    ];
    proof {
        let expected = vectorized(*request, mcc_risk@, *normalization, requested_at, last_at);
        assert(vector@ =~= expected->Ok_0);
    }
    Ok(vector)
}

/// The features of a transaction, or the first of its timestamps that is wrong.
pub fn vectorize_transaction(
    request: &FraudRequest,
    mcc_risk: &MccRisk,
    normalization: &Normalization,
) -> (outcome: Result<[Float32; VECTOR_DIMENSIONS], VectorizeError>)
    ensures
        agrees(
            outcome,
            vectorized(
                *request,
                mcc_risk@,
                *normalization,
                instant(request.transaction.requested_at@),
                last_instant(*request),
            ),
        ),
{
    let requested_at: Option<UtcTimestamp> = read_timestamp(
        request.transaction.requested_at.as_str(),
    );
    let last_at: Option<UtcTimestamp> = match &request.last_transaction {
        Some(last) => read_timestamp(last.timestamp.as_str()),
        None => None,
    };
    vectorize_at(request, mcc_risk, normalization, requested_at, last_at)
}

/// Whether a feature is a number between zero and one.
#[verifier::opaque]
pub open spec fn within_unit(feature: Float32) -> bool {
    feature.finite() && 0 <= feature.units() <= one_units()
}

/// A share of what counts as one lies between zero and one.
proof fn lemma_normalized_in_unit(value: Float32, max: Float32)
    ensures
        within_unit(normalized(value, max)),
{
    reveal(within_unit);
    lemma_unit_numbers();
    lemma_clamped_stays(quotient(value, max));
}

/// The remaining features lie between zero and one too.
proof fn lemma_others_in_unit(
    amount: Float32,
    average: Float32,
    ratio: Float32,
    risks: Map<Seq<char>, Float32>,
    mcc: Seq<char>,
)
    ensures
        within_unit(amount_ratio(amount, average, ratio)),
        within_unit(category_risk(risks, mcc)),
        within_unit(flag(true)),
        within_unit(flag(false)),
        !within_unit(Float32 { bits: MINUS_ONE }),
{
    reveal(within_unit);
    lemma_unit_numbers();
    lemma_clamped_stays(quotient(quotient(amount, average), ratio));
    lemma_clamped_stays(risks[mcc]);
}

/// A part of a whole lies between zero and one.
proof fn lemma_share_in_unit(part: nat, whole: nat)
    requires
        part <= whole,
        0 < whole < 0x0100_0000,
    ensures
        within_unit(share_of(part as int, whole as int)),
{
    reveal(within_unit);
    lemma_fraction_at_most_one(part, whole);
}

/// Every feature is a number between zero and one, but for the two on the last
/// transaction: where there is none, both are the sentinel minus one, and only then.
pub proof fn lemma_features_lie_in_range(
    request: FraudRequest,
    risks: Map<Seq<char>, Float32>,
    normalization: Normalization,
    requested_at: UtcTimestamp,
    last_at: UtcTimestamp,
)
    ensures
        ({
            let vector = features(request, risks, normalization, requested_at, last_at);
            &&& vector.len() == VECTOR_DIMENSIONS
            &&& forall|i: int|
                0 <= i < VECTOR_DIMENSIONS && i != 5 && i != 6 ==> within_unit(
                    #[trigger] vector[i],
                )
            &&& request.last_transaction is Some ==> within_unit(vector[5]) && within_unit(
                vector[6],
            )
            &&& request.last_transaction is None ==> vector[5].bits == MINUS_ONE
                && vector[6].bits == MINUS_ONE
            &&& vector[5].bits == MINUS_ONE ==> request.last_transaction is None
            &&& vector[6].bits == MINUS_ONE ==> request.last_transaction is None
        }),
{
    let vector = features(request, risks, normalization, requested_at, last_at);
    let transaction = request.transaction;
    lemma_normalized_in_unit(transaction.amount, normalization.max_amount);
    lemma_normalized_in_unit(transaction.installments, normalization.max_installments);
    lemma_normalized_in_unit(request.terminal.km_from_home, normalization.max_km);
    lemma_normalized_in_unit(request.customer.tx_count_24h, normalization.max_tx_count_24h);
    lemma_normalized_in_unit(request.merchant.avg_amount, normalization.max_merchant_avg_amount);
    lemma_others_in_unit(
        transaction.amount,
        request.customer.avg_amount,
        normalization.amount_vs_avg_ratio,
        risks,
        request.merchant.mcc@,
    );
    let hour = requested_at.seconds as int % 86_400 / 3_600;
    let day = (requested_at.seconds as int / 86_400 + 3) % 7;
    lemma_share_in_unit(hour as nat, 23);
    lemma_share_in_unit(day as nat, 6);
    if let Some(last) = request.last_transaction {
        lemma_normalized_in_unit(minutes_between(requested_at, last_at), normalization.max_minutes);
        lemma_normalized_in_unit(last.km_from_current, normalization.max_km);
        assert(vector[5] != Float32 { bits: MINUS_ONE });
        assert(vector[6] != Float32 { bits: MINUS_ONE });
    }
}

/// Bringing the risks between zero and one when they are loaded changes no feature.
pub proof fn lemma_loading_keeps_features(
    request: FraudRequest,
    entries: Seq<(String, Float32)>,
    normalization: Normalization,
    requested_at: UtcTimestamp,
    last_at: UtcTimestamp,
)
    ensures
        features(request, loaded_risks(entries), normalization, requested_at, last_at) == features(
            request,
            entered_risks(entries),
            normalization,
            requested_at,
            last_at,
        ),
{
    lemma_clamped_stays(entered_risks(entries)[request.merchant.mcc@]);
}

} // verus!
