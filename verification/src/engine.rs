//! The engine that scores transactions.
use crate::dataset::{Record, ReferenceDataset, TOP_K};
use crate::decision::{
    decision, decision_from_fraud_count, lemma_majority_decides, lemma_score_is_the_share,
    score_of, FraudResponse,
};
use crate::features::{
    features, last_instant, lemma_features_lie_in_range, vectorize_at, vectorize_transaction,
    vectorized, within_unit,
};
use crate::float32::{lemma_unit_numbers, Float32, ZERO};
use crate::order::lemma_same_positions_same_frauds;
use crate::quantize::{
    lemma_quantisation_keeps_order, lemma_quantised_within_scale, lemma_sentinel_is_kept,
    quantize_vector, quantized, quantized_vector, QUANTIZATION_SCALE, VECTOR_DIMENSIONS,
};
use crate::reference_file::{decoded, encoded, lemma_saved_dataset_loads, ReferenceFileError};
use crate::request::{FraudRequest, MccRisk, Normalization};
use crate::rounding::rounds;
use crate::search::{
    distance, fraud_count, lemma_distance_bounds, lemma_distance_zero_means_equal,
    lemma_fraud_count_is_the_number_of_frauds, lemma_nearest_are_nearest,
    lemma_strictly_nearest_are_held, nearest, squared_distance,
};
use crate::timestamp::{instant, UtcTimestamp, VectorizeError};
use vstd::arithmetic::power2::pow2;
use vstd::prelude::*;

verus! {

/// Why an engine could not be set up: it found fewer references than a decision
/// rests on.
#[derive(Clone, Copy, PartialEq, Eq, Debug, Structural)]
pub struct LoadError {
    pub found: usize,
}

/// The character of a decimal digit.
pub open spec fn digit_char(digit: nat) -> char {
    (48 + digit) as char
}

/// A number in decimal.
pub open spec fn decimal(number: nat) -> Seq<char>
    decreases number,
{
    if number < 10 {
        seq![digit_char(number)]
    } else {
        decimal(number / 10).push(digit_char(number % 10))
    }
}

/// A decimal digit as a text.
fn digit_text(digit: usize) -> (text: &'static str)
    requires
        digit < 10,
    ensures
        text@ == seq![digit_char(digit as nat)],
{
    proof {
        reveal_strlit("0");
        reveal_strlit("1");
        reveal_strlit("2");
        reveal_strlit("3");
        reveal_strlit("4");
        reveal_strlit("5");
        reveal_strlit("6");
        reveal_strlit("7");
        reveal_strlit("8");
        reveal_strlit("9");
    }
    let text: &'static str = match digit {
        0 => "0",
        1 => "1",
        2 => "2",
        3 => "3",
        4 => "4",
        5 => "5",
        6 => "6",
        7 => "7",
        8 => "8",
        _ => "9",
    };
    assert(text@ =~= seq![digit_char(digit as nat)]);
    text
}

/// Appends a number in decimal.
fn append_decimal(text: &mut String, number: usize)
    ensures
        final(text)@ == old(text)@ + decimal(number as nat),
    decreases number,
{
    if number >= 10 {
        append_decimal(text, number / 10);
    }
    text.append(digit_text(number % 10));
    assert(text@ =~= old(text)@ + decimal(number as nat));
}

impl LoadError {
    /// The error in words.
    pub fn message(&self) -> (text: String)
        ensures
            text@ == "reference dataset must contain at least 5 records, found "@ + decimal(
                self.found as nat,
            ),
    {
        let mut text: String = "reference dataset must contain at least 5 records, found ".to_owned();
        append_decimal(&mut text, self.found);
        text
    }
}

/// Scores transactions against reference transactions.
pub struct FraudEngine {
    dataset: ReferenceDataset,
    normalization: Normalization,
    mcc_risk: MccRisk,
}

/// The query that a vector of features makes.
pub open spec fn query_of(features: Seq<Float32>) -> Seq<i16> {
    Seq::new(features.len(), |i: int| quantized(features[i]) as i16)
}

impl FraudEngine {
    /// The references of the engine.
    pub closed spec fn references(&self) -> ReferenceDataset {
        self.dataset
    }

    /// What the engine measures features against.
    pub closed spec fn limits(&self) -> Normalization {
        self.normalization
    }

    /// The risks that the engine knows.
    pub closed spec fn risks(&self) -> Map<Seq<char>, Float32> {
        self.mcc_risk@
    }

    /// Whether the engine can score: its references are well formed, and there
    /// are enough of them.
    pub open spec fn ready(&self) -> bool {
        self.references().well_formed() && self.references()@.len() >= TOP_K
    }

    /// An engine of parts that were loaded, if there are enough references.
    pub fn load(
        dataset: ReferenceDataset,
        normalization: Normalization,
        mcc_risk: MccRisk,
    ) -> (outcome: Result<Self, LoadError>)
        requires
            dataset.well_formed(),
        ensures
            match outcome {
                Ok(engine) => dataset@.len() >= TOP_K && engine.ready() && engine.references()
                    == dataset && engine.limits() == normalization && engine.risks() == mcc_risk@,
                Err(error) => dataset@.len() < TOP_K && error.found == dataset@.len(),
            },
    {
        if dataset.len() < TOP_K {
            return Err(LoadError { found: dataset.len() });
        }
        Ok(Self { dataset, normalization, mcc_risk })
    }

    /// An engine of given parts.
    pub fn from_parts(
        dataset: ReferenceDataset,
        normalization: Normalization,
        mcc_risk: MccRisk,
    ) -> (engine: Self)
        ensures
            engine.references() == dataset,
            engine.limits() == normalization,
            engine.risks() == mcc_risk@,
    {
        Self { dataset, normalization, mcc_risk }
    }

    /// The number of references.
    pub fn reference_count(&self) -> (count: usize)
        ensures
            count == self.references()@.len(),
    {
        self.dataset.len()
    }

    /// The bytes that the references take.
    pub fn reference_memory_bytes(&self) -> (bytes: usize)
        requires
            self.references().well_formed(),
        ensures
            bytes == 29 * self.references()@.len(),
    {
        self.dataset.memory_bytes()
    }

    /// What scoring a transaction comes to, for what its timestamps were read as.
    pub open spec fn scored(
        &self,
        request: FraudRequest,
        requested_at: Option<UtcTimestamp>,
        last_at: Option<UtcTimestamp>,
    ) -> Result<FraudResponse, (Seq<char>, Seq<char>)> {
        match vectorized(request, self.risks(), self.limits(), requested_at, last_at) {
            Ok(features) => {
                let records = self.references()@;
                Ok(
                    decision(
                        fraud_count(records, nearest(records, query_of(features), records.len())),
                    ),
                )
            },
            Err(wrong) => Err(wrong),
        }
    }

    /// Whether the engine has an answer, for what the timestamps of a transaction
    /// were read as: it can score, or there is a wrong timestamp to name.
    pub open spec fn has_answer(
        &self,
        request: FraudRequest,
        requested_at: Option<UtcTimestamp>,
        last_at: Option<UtcTimestamp>,
    ) -> bool {
        &&& self.references().well_formed()
        &&& self.references()@.len() >= TOP_K || vectorized(
            request,
            self.risks(),
            self.limits(),
            requested_at,
            last_at,
        ) is Err
    }

    /// The answer for a vector of features.
    pub fn score_vector(&self, vector: &[Float32; VECTOR_DIMENSIONS]) -> (response: FraudResponse)
        requires
            self.ready(),
        ensures
            response == decision(
                fraud_count(
                    self.references()@,
                    nearest(self.references()@, query_of(vector@), self.references()@.len()),
                ),
            ),
    {
        let query: [i16; VECTOR_DIMENSIONS] = quantize_vector(vector);
        proof {
            assert(query@ =~= query_of(vector@));
        }
        let frauds: u8 = self.dataset.fraud_count_top5(&query).unwrap();
        decision_from_fraud_count(frauds)
    }

    /// Scores a transaction, given what its timestamps were read as.
    pub fn score_at(
        &self,
        request: &FraudRequest,
        requested_at: Option<UtcTimestamp>,
        last_at: Option<UtcTimestamp>,
    ) -> (outcome: Result<FraudResponse, VectorizeError>)
        requires
            self.has_answer(*request, requested_at, last_at),
            requested_at matches Some(at) ==> at.valid(),
            last_at matches Some(at) ==> at.valid(),
        ensures
            answers(outcome, self.scored(*request, requested_at, last_at)),
    {
        match vectorize_at(
            request,
            &self.mcc_risk,
            &self.normalization,
            requested_at,
            last_at,
        ) {
            Ok(vector) => Ok(self.score_vector(&vector)),
            Err(error) => Err(error),
        }
    }

    /// Scores a transaction, or names the first of its timestamps that is wrong.
    pub fn score(&self, request: &FraudRequest) -> (outcome: Result<FraudResponse, VectorizeError>)
        requires
            self.has_answer(
                *request,
                instant(request.transaction.requested_at@),
                last_instant(*request),
            ),
        ensures
            answers(
                outcome,
                self.scored(
                    *request,
                    instant(request.transaction.requested_at@),
                    last_instant(*request),
                ),
            ),
    {
        match vectorize_transaction(request, &self.mcc_risk, &self.normalization) {
            Ok(vector) => Ok(self.score_vector(&vector)),
            Err(error) => Err(error),
        }
    }

    /// Scores a transaction where the engine has an answer: nothing where the
    /// timestamps are right and the references too few.
    pub fn try_score(&self, request: &FraudRequest) -> (outcome: Option<
        Result<FraudResponse, VectorizeError>,
    >)
        requires
            self.references().well_formed(),
        ensures
            outcome is Some <==> self.has_answer(
                *request,
                instant(request.transaction.requested_at@),
                last_instant(*request),
            ),
            outcome matches Some(answer) ==> answers(
                answer,
                self.scored(
                    *request,
                    instant(request.transaction.requested_at@),
                    last_instant(*request),
                ),
            ),
    {
        if self.dataset.len() >= TOP_K {
            return Some(self.score(request));
        }
        match vectorize_transaction(request, &self.mcc_risk, &self.normalization) {
            Ok(_) => None,
            Err(error) => Some(Err(error)),
        }
    }
}

/// Whether an outcome is what is expected.
pub open spec fn answers(
    outcome: Result<FraudResponse, VectorizeError>,
    expected: Result<FraudResponse, (Seq<char>, Seq<char>)>,
) -> bool {
    match (outcome, expected) {
        (Ok(response), Ok(answer)) => response == answer,
        (Err(error), Err(wrong)) => error.field@ == wrong.0 && error.value@ == wrong.1,
        _ => false,
    }
}

/// Not more of the records at given positions are fraud than there are positions.
pub proof fn lemma_fraud_count_bounded(records: Seq<Record>, held: Seq<int>)
    ensures
        fraud_count(records, held) <= held.len(),
    decreases held.len(),
{
    if held.len() > 0 {
        lemma_fraud_count_bounded(records, held.drop_last());
    }
}

/// A transaction whose timestamps can be read is approved just when fewer than
/// three of the five records that are nearest to it are fraud.
pub proof fn lemma_answer_follows_neighbours(
    engine: FraudEngine,
    request: FraudRequest,
    requested_at: Option<UtcTimestamp>,
    last_at: Option<UtcTimestamp>,
)
    requires
        engine.ready(),
        requested_at is Some,
        request.last_transaction is Some ==> last_at is Some,
    ensures
        ({
            let records = engine.references()@;
            let vector = vectorized(
                request,
                engine.risks(),
                engine.limits(),
                requested_at,
                last_at,
            );
            let frauds = fraud_count(
                records,
                nearest(records, query_of(vector->Ok_0), records.len()),
            );
            &&& vector is Ok
            &&& frauds <= TOP_K
            &&& engine.scored(request, requested_at, last_at) matches Ok(response)
                && response.approved == (frauds < 3) && response.fraud_score == score_of(frauds)
        }),
{
    let records = engine.references()@;
    let vector = vectorized(request, engine.risks(), engine.limits(), requested_at, last_at);
    let held = nearest(records, query_of(vector->Ok_0), records.len());
    lemma_nearest_are_nearest(records, query_of(vector->Ok_0), records.len());
    lemma_fraud_count_bounded(records, held);
    lemma_majority_decides(fraud_count(records, held));
}

/// A wrong timestamp is named whatever the references are, and however few.
pub proof fn lemma_wrong_timestamp_is_named(
    engine: FraudEngine,
    request: FraudRequest,
    requested_at: Option<UtcTimestamp>,
    last_at: Option<UtcTimestamp>,
)
    requires
        engine.references().well_formed(),
        requested_at is None || request.last_transaction is Some && last_at is None,
    ensures
        engine.has_answer(request, requested_at, last_at),
        engine.scored(request, requested_at, last_at) == match (
            requested_at,
            request.last_transaction,
        ) {
            (Some(_), Some(last)) => Err::<FraudResponse, (Seq<char>, Seq<char>)>(
                ("last_transaction.timestamp"@, last.timestamp@),
            ),
            _ => Err(("transaction.requested_at"@, request.transaction.requested_at@)),
        },
{
}

/// An engine whose references come from a saved file answers as the engine
/// whose references were saved.
pub proof fn lemma_reloaded_references_answer_alike(
    engine: FraudEngine,
    reloaded: FraudEngine,
    request: FraudRequest,
    requested_at: Option<UtcTimestamp>,
    last_at: Option<UtcTimestamp>,
)
    requires
        engine.ready(),
        decoded(encoded(engine.references()@)) == Ok::<Seq<Record>, ReferenceFileError>(
            reloaded.references()@,
        ),
        reloaded.limits() == engine.limits(),
        reloaded.risks() == engine.risks(),
    ensures
        reloaded.references()@.len() >= TOP_K,
        reloaded.scored(request, requested_at, last_at) == engine.scored(
            request,
            requested_at,
            last_at,
        ),
{
    lemma_saved_dataset_loads(&engine.references());
}

/// Every value of a query lies within the scale. Without a last transaction the
/// two values on it are minus the scale; with one they are not negative.
pub proof fn lemma_query_lies_within_scale(
    request: FraudRequest,
    risks: Map<Seq<char>, Float32>,
    normalization: Normalization,
    requested_at: UtcTimestamp,
    last_at: UtcTimestamp,
)
    ensures
        ({
            let query = query_of(
                features(request, risks, normalization, requested_at, last_at),
            );
            &&& query.len() == VECTOR_DIMENSIONS
            &&& forall|i: int|
                0 <= i < VECTOR_DIMENSIONS ==> -QUANTIZATION_SCALE <= #[trigger] query[i]
                    <= QUANTIZATION_SCALE
            &&& forall|i: int|
                0 <= i < VECTOR_DIMENSIONS && i != 5 && i != 6 ==> 0 <= #[trigger] query[i]
            &&& request.last_transaction is None ==> query[5] == -QUANTIZATION_SCALE && query[6]
                == -QUANTIZATION_SCALE
            &&& request.last_transaction is Some ==> query[5] >= 0 && query[6] >= 0
        }),
{
    let vector = features(request, risks, normalization, requested_at, last_at);
    lemma_features_lie_in_range(request, risks, normalization, requested_at, last_at);
    lemma_sentinel_is_kept();
    assert forall|i: int| 0 <= i < VECTOR_DIMENSIONS implies -QUANTIZATION_SCALE
        <= #[trigger] query_of(vector)[i] <= QUANTIZATION_SCALE && (within_unit(vector[i])
        ==> query_of(vector)[i] >= 0) by {
        lemma_quantised_within_scale(vector[i]);
        if within_unit(vector[i]) {
            lemma_unit_is_not_negative(vector[i]);
        }
    }
    assert(query_of(vector)[5] == quantized(vector[5]) as i16);
    assert(query_of(vector)[6] == quantized(vector[6]) as i16);
}

/// A feature between zero and one is not quantised to a negative number.
proof fn lemma_unit_is_not_negative(feature: Float32)
    requires
        within_unit(feature),
    ensures
        quantized(feature) >= 0,
{
    reveal(within_unit);
    lemma_unit_numbers();
    lemma_sentinel_is_kept();
    lemma_quantisation_keeps_order(Float32 { bits: ZERO }, feature);
}

/// A record without a last transaction and a query with one, or the other way
/// round, are at least as far apart as the sentinel is from zero in both of
/// the features concerned.
pub proof fn lemma_sentinel_separates(query: Seq<i16>, record: Record)
    requires
        query[5] == -QUANTIZATION_SCALE && query[6] == -QUANTIZATION_SCALE
            && record.vector[5] >= 0 && record.vector[6] >= 0 || record.vector[5]
            == -QUANTIZATION_SCALE && record.vector[6] == -QUANTIZATION_SCALE && query[5] >= 0
            && query[6] >= 0,
    ensures
        distance(query, record) >= 2 * QUANTIZATION_SCALE * QUANTIZATION_SCALE,
{
    let candidate = record.vector;
    lemma_distance_bounds(query, candidate, 5);
    lemma_distance_grows(query, candidate, 7, 14);
    let a = query[5] - candidate[5];
    let b = query[6] - candidate[6];
    assert(a * a >= 10_000 * 10_000 && b * b >= 10_000 * 10_000) by (nonlinear_arith)
        requires
            a >= 10_000 || a <= -10_000,
            b >= 10_000 || b <= -10_000,
    ;
    assert(squared_distance(query, candidate, 6) == squared_distance(query, candidate, 5) + a * a);
    assert(squared_distance(query, candidate, 7) == squared_distance(query, candidate, 6) + b * b);
}

/// More features never make a distance smaller.
proof fn lemma_distance_grows(query: Seq<i16>, candidate: Seq<i16>, fewer: nat, more: nat)
    requires
        fewer <= more,
    ensures
        squared_distance(query, candidate, fewer) <= squared_distance(query, candidate, more),
    decreases more - fewer,
{
    if fewer < more {
        let last = more - 1;
        lemma_distance_grows(query, candidate, fewer, last as nat);
        let delta = query[last] - candidate[last];
        assert(delta * delta >= 0) by (nonlinear_arith);
    }
}

/// A query has the quantised form of every feature, in its place.
pub proof fn lemma_query_holds_every_feature(vector: Seq<Float32>)
    ensures
        query_of(vector).len() == vector.len(),
        forall|i: int| 0 <= i < vector.len() ==> #[trigger] query_of(vector)[i] == quantized(
            vector[i],
        ),
{
    assert forall|i: int| 0 <= i < vector.len() implies #[trigger] query_of(vector)[i] == quantized(
        vector[i],
    ) by {
        lemma_quantised_within_scale(vector[i]);
    }
}

/// A record that was stored with the features of a transaction is at distance
/// zero from its query, and one that differs from it in a quantised feature is not.
pub proof fn lemma_own_record_is_at_distance_zero(vector: Seq<Float32>, record: Record)
    requires
        vector.len() == VECTOR_DIMENSIONS,
        record.vector.len() == VECTOR_DIMENSIONS,
    ensures
        distance(query_of(vector), record) == 0 <==> forall|i: int|
            0 <= i < VECTOR_DIMENSIONS ==> #[trigger] record.vector[i] == quantized(vector[i]),
        quantized_vector(vector, record.vector) ==> distance(query_of(vector), record) == 0,
{
    let query = query_of(vector);
    lemma_query_holds_every_feature(vector);
    lemma_distance_zero_means_equal(query, record.vector, VECTOR_DIMENSIONS as nat);
    if distance(query, record) == 0 {
        assert forall|i: int| 0 <= i < VECTOR_DIMENSIONS implies #[trigger] record.vector[i]
            == quantized(vector[i]) by {
            assert(query[i] == record.vector[i]);
        }
    }
    if forall|i: int|
        0 <= i < VECTOR_DIMENSIONS ==> #[trigger] record.vector[i] == quantized(vector[i]) {
        assert forall|i: int| 0 <= i < VECTOR_DIMENSIONS implies #[trigger] query[i]
            == record.vector[i] by {
            assert(record.vector[i] == quantized(vector[i]));
        }
    }
}

/// What an engine needs to answer: five references, or a wrong timestamp to name.
pub proof fn lemma_when_there_is_an_answer(
    engine: FraudEngine,
    request: FraudRequest,
    requested_at: Option<UtcTimestamp>,
    last_at: Option<UtcTimestamp>,
)
    requires
        engine.references().well_formed(),
    ensures
        engine.ready() <==> engine.references()@.len() >= 5,
        engine.has_answer(request, requested_at, last_at) <==> engine.references()@.len() >= 5
            || requested_at is None || request.last_transaction is Some && last_at is None,
{
}

/// What it means that an outcome answers as expected: both approve alike with the
/// same score, or both name the same field and value.
pub proof fn lemma_answer_is_exact(
    outcome: Result<FraudResponse, VectorizeError>,
    expected: Result<FraudResponse, (Seq<char>, Seq<char>)>,
)
    requires
        answers(outcome, expected),
    ensures
        outcome is Ok <==> expected is Ok,
        outcome matches Ok(response) ==> response.approved == expected->Ok_0.approved
            && response.fraud_score.bits == expected->Ok_0.fraud_score.bits,
        outcome matches Err(error) ==> error.field@ == expected->Err_0.0 && error.value@
            == expected->Err_0.1,
{
}

/// The five references that are strictly nearest to a transaction decide: the
/// score is the number nearest to their share of fraud, and the transaction is
/// approved just when fewer than three of them are fraud. The distance of a
/// reference is the sum of the squared differences of the quantised features.
pub proof fn lemma_nearest_references_decide(
    engine: FraudEngine,
    request: FraudRequest,
    requested_at: Option<UtcTimestamp>,
    last_at: Option<UtcTimestamp>,
    query: Seq<i16>,
    picks: Seq<int>,
)
    requires
        engine.ready(),
        requested_at is Some,
        request.last_transaction is Some ==> last_at is Some,
        ({
            let vector = vectorized(
                request,
                engine.risks(),
                engine.limits(),
                requested_at,
                last_at,
            )->Ok_0;
            query.len() == vector.len() && forall|i: int|
                0 <= i < vector.len() ==> #[trigger] query[i] == quantized(vector[i])
        }),
        picks.len() == 5,
        picks.no_duplicates(),
        forall|j: int| 0 <= j < 5 ==> 0 <= #[trigger] picks[j] < engine.references()@.len(),
        forall|i: int, j: int|
            #![trigger engine.references()@[i], picks[j]]
            0 <= i < engine.references()@.len() && !picks.contains(i) && 0 <= j < 5 ==> distance(
                query,
                engine.references()@[picks[j]],
            ) < distance(query, engine.references()@[i]),
    ensures
        ({
            let frauds = Set::new(
                |j: int| 0 <= j < 5 && engine.references()@[picks[j]].fraud,
            ).len();
            engine.scored(request, requested_at, last_at) matches Ok(response)
                && response.approved == (frauds < 3) && rounds(
                response.fraud_score,
                false,
                frauds * pow2(149),
                5,
            )
        }),
{
    let records = engine.references()@;
    let vector = vectorized(
        request,
        engine.risks(),
        engine.limits(),
        requested_at,
        last_at,
    )->Ok_0;
    lemma_query_holds_every_feature(vector);
    assert forall|i: int| 0 <= i < vector.len() implies #[trigger] query[i] == query_of(
        vector,
    )[i] by {
        assert(query_of(vector)[i] == quantized(vector[i]));
    }
    assert(query =~= query_of(vector));
    let held = nearest(records, query, records.len());
    lemma_answer_follows_neighbours(engine, request, requested_at, last_at);
    lemma_nearest_are_nearest(records, query, records.len());
    lemma_strictly_nearest_are_held(records, query, records.len(), picks);
    lemma_same_positions_same_frauds(records, held, picks);
    lemma_fraud_count_is_the_number_of_frauds(records, picks);
    lemma_score_is_the_share(fraud_count(records, picks));
    lemma_fraud_count_bounded(records, picks);
    assert(Set::new(|j: int| 0 <= j < 5 && records[picks[j]].fraud) =~= Set::new(
        |j: int| 0 <= j < picks.len() && records[picks[j]].fraud,
    ));
}

} // verus!
