use rinha_fraude_vetorial::dataset::ReferenceDataset;
use rinha_fraude_vetorial::decision::{
    approved_from_score, decision_from_fraud_count, fraud_score_from_count, FraudResponse,
};
use rinha_fraude_vetorial::engine::{FraudEngine, LoadError};
use rinha_fraude_vetorial::features::{normalize_positive, vectorize_at, vectorize_transaction};
use rinha_fraude_vetorial::float32::Float32;
use rinha_fraude_vetorial::quantize::{quantize_vector, VECTOR_DIMENSIONS};
use rinha_fraude_vetorial::reference_file::{load_references_bin, save_references_bin};
use rinha_fraude_vetorial::request::{
    load_mcc_risk, Customer, FraudRequest, LastTransaction, MccRisk, Merchant, Normalization,
    Terminal, Transaction,
};
use rinha_fraude_vetorial::sampling::SplitMix64;
use rinha_fraude_vetorial::search::squared_distance_i16;
use rinha_fraude_vetorial::timestamp::UtcTimestamp;

fn single(value: f32) -> Float32 {
    Float32 { bits: value.to_bits() }
}

fn value(number: Float32) -> f32 {
    f32::from_bits(number.bits)
}

fn values(vector: [Float32; VECTOR_DIMENSIONS]) -> [f32; VECTOR_DIMENSIONS] {
    vector.map(value)
}

fn sample_request(
    last_transaction: Option<LastTransaction>,
    merchant_id: &str,
    mcc: &str,
) -> FraudRequest {
    FraudRequest {
        transaction: Transaction {
            amount: single(384.88),
            installments: single(3.0),
            requested_at: "2026-03-11T20:23:35Z".to_owned(),
        },
        customer: Customer {
            avg_amount: single(769.76),
            tx_count_24h: single(3.0),
            known_merchants: vec![
                "MERC-009".to_owned(),
                "MERC-001".to_owned(),
                "MERC-001".to_owned(),
            ],
        },
        merchant: Merchant {
            id: merchant_id.to_owned(),
            mcc: mcc.to_owned(),
            avg_amount: single(298.95),
        },
        terminal: Terminal {
            is_online: false,
            card_present: true,
            km_from_home: single(13.709_052),
        },
        last_transaction,
    }
}

fn last_transaction(timestamp: &str) -> Option<LastTransaction> {
    Some(LastTransaction {
        timestamp: timestamp.to_owned(),
        km_from_current: single(18.862_648),
    })
}

fn sample_risks() -> MccRisk {
    let mut risks = MccRisk::new();
    risks.insert("5912".to_owned(), single(0.7));
    risks
}

fn sample_vector(request: &FraudRequest) -> [f32; VECTOR_DIMENSIONS] {
    values(vectorize_transaction(request, &sample_risks(), &Normalization::default()).unwrap())
}

fn approx_eq(left: f32, right: f32) {
    assert!(
        (left - right).abs() < 0.000_01,
        "left={left}, right={right}"
    );
}

/// Records with a given first feature each; all others are zero.
fn line_dataset(records: &[(f32, u8)]) -> ReferenceDataset {
    let mut dataset = ReferenceDataset::with_capacity(records.len());
    for &(first, label) in records {
        let mut vector = [single(0.0); VECTOR_DIMENSIONS];
        vector[0] = single(first);
        dataset.push_float_vector(&vector, label);
    }
    dataset
}

#[test]
fn last_transaction_null_uses_negative_one_sentinel() {
    let request = sample_request(None, "MERC-001", "5912");
    let vector = sample_vector(&request);

    approx_eq(vector[5], -1.0);
    approx_eq(vector[6], -1.0);
}

#[test]
fn unknown_merchant_is_inverted_flag() {
    let known = sample_request(None, "MERC-001", "5912");
    let unknown = sample_request(None, "MERC-999", "5912");

    let known_vector = sample_vector(&known);
    let unknown_vector = sample_vector(&unknown);

    approx_eq(known_vector[11], 0.0);
    approx_eq(unknown_vector[11], 1.0);
}

#[test]
fn unknown_mcc_uses_half_risk_fallback() {
    let request = sample_request(None, "MERC-001", "0000");
    let vector = sample_vector(&request);

    approx_eq(vector[12], 0.5);
}

#[test]
fn vectorizes_full_known_example() {
    let request = sample_request(
        Some(LastTransaction {
            timestamp: "2026-03-11T14:58:35Z".to_owned(),
            km_from_current: single(18.862_648),
        }),
        "MERC-001",
        "5912",
    );
    let vector = sample_vector(&request);

    approx_eq(vector[0], 0.038_488);
    approx_eq(vector[1], 0.25);
    approx_eq(vector[2], 0.05);
    approx_eq(vector[3], 20.0 / 23.0);
    approx_eq(vector[4], 2.0 / 6.0);
    approx_eq(vector[5], 325.0 / 1440.0);
    approx_eq(vector[6], 0.018_862_648);
    approx_eq(vector[7], 0.013_709_052);
    approx_eq(vector[8], 0.15);
    approx_eq(vector[9], 0.0);
    approx_eq(vector[10], 1.0);
    approx_eq(vector[11], 0.0);
    approx_eq(vector[12], 0.7);
    approx_eq(vector[13], 0.029_895);
}

#[test]
fn features_are_exact_in_single_precision() {
    let vector = sample_vector(&sample_request(
        last_transaction("2026-03-11T14:58:34.5Z"),
        "MERC-001",
        "5912",
    ));
    let expected: [f32; VECTOR_DIMENSIONS] = [
        384.88 / 10_000.0,
        3.0 / 12.0,
        (384.88 / 769.76) / 10.0,
        20.0 / 23.0,
        2.0 / 6.0,
        19_500.0 / 60.0 / 1_440.0,
        18.862_648 / 1_000.0,
        13.709_052 / 1_000.0,
        3.0 / 20.0,
        0.0,
        1.0,
        0.0,
        0.7,
        298.95 / 10_000.0,
    ];
    assert_eq!(vector, expected);
}

#[test]
fn an_earlier_request_has_no_minutes_since_the_last() {
    let vector = sample_vector(&sample_request(
        last_transaction("2026-03-12T00:00:00Z"),
        "MERC-001",
        "5912",
    ));
    assert_eq!(vector[5], 0.0);
    let vector = sample_vector(&sample_request(
        last_transaction("2025-03-12T00:00:00Z"),
        "MERC-001",
        "5912",
    ));
    assert_eq!(vector[5], 1.0);
}

#[test]
fn timestamps_that_are_wrong_are_named() {
    let mut request = sample_request(last_transaction("yesterday"), "MERC-001", "5912");
    let error = vectorize_transaction(&request, &sample_risks(), &Normalization::default())
        .unwrap_err();
    assert_eq!(error.field, "last_transaction.timestamp");
    assert_eq!(error.value, "yesterday");
    assert_eq!(
        error.message(),
        "invalid timestamp in last_transaction.timestamp: yesterday"
    );
    request.transaction.requested_at = "2026-03-11".to_owned();
    let error = vectorize_transaction(&request, &sample_risks(), &Normalization::default())
        .unwrap_err();
    assert_eq!(
        error.message(),
        "invalid timestamp in transaction.requested_at: 2026-03-11"
    );
}

#[test]
fn features_follow_the_instants_that_were_read() {
    let request = sample_request(last_transaction("unread"), "MERC-001", "5912");
    let monday = UtcTimestamp { seconds: 1_773_014_400, nanos: 0 };
    let before = UtcTimestamp { seconds: 1_773_014_400 - 720 * 60, nanos: 0 };
    let risks = sample_risks();
    let limits = Normalization::default();
    let vector = values(
        vectorize_at(&request, &risks, &limits, Some(monday), Some(before)).unwrap(),
    );
    assert_eq!(vector[3], 0.0);
    assert_eq!(vector[4], 0.0);
    assert_eq!(vector[5], 0.5);
    let error = vectorize_at(&request, &risks, &limits, None, Some(before)).unwrap_err();
    assert_eq!(error.field, "transaction.requested_at");
    let error = vectorize_at(&request, &risks, &limits, Some(monday), None).unwrap_err();
    assert_eq!(error.field, "last_transaction.timestamp");
}

#[test]
fn an_amount_is_compared_with_the_average() {
    let ratio = |amount: f32, average: f32, limit: f32| {
        let mut request = sample_request(None, "MERC-001", "5912");
        request.transaction.amount = single(amount);
        request.customer.avg_amount = single(average);
        let mut limits = Normalization::default();
        limits.amount_vs_avg_ratio = single(limit);
        values(vectorize_transaction(&request, &sample_risks(), &limits).unwrap())[2]
    };
    assert_eq!(ratio(100.0, 50.0, 10.0), 0.2);
    assert_eq!(ratio(100.0, 5.0, 10.0), 1.0);
    assert_eq!(ratio(0.0, 0.0, 10.0), 0.0);
    assert_eq!(ratio(-3.0, 50.0, 10.0), 0.0);
    assert_eq!(ratio(f32::INFINITY, 50.0, 10.0), 0.0);
    assert_eq!(ratio(100.0, 0.0, 10.0), 1.0);
    assert_eq!(ratio(100.0, f32::NAN, 10.0), 1.0);
    assert_eq!(ratio(100.0, 50.0, 0.0), 1.0);
    assert_eq!(ratio(100.0, 50.0, f32::INFINITY), 1.0);
    assert_eq!(ratio(f32::MAX, f32::MIN_POSITIVE, 10.0), 0.0);
}

#[test]
fn a_limit_that_is_no_use_gives_zero() {
    for max in [0.0, -1.0, f32::NAN, f32::INFINITY] {
        assert_eq!(normalize_positive(single(5.0), single(max)).bits, 0);
    }
    assert_eq!(value(normalize_positive(single(5.0), single(20.0))), 0.25);
    assert_eq!(value(normalize_positive(single(25.0), single(20.0))), 1.0);
    assert_eq!(value(normalize_positive(single(-5.0), single(20.0))), 0.0);
    assert_eq!(value(normalize_positive(single(f32::NAN), single(20.0))), 0.0);
}

#[test]
fn default_limits_are_whole_numbers() {
    let limits = Normalization::default();
    assert_eq!(value(limits.max_amount), 10_000.0);
    assert_eq!(value(limits.max_installments), 12.0);
    assert_eq!(value(limits.amount_vs_avg_ratio), 10.0);
    assert_eq!(value(limits.max_minutes), 1_440.0);
    assert_eq!(value(limits.max_km), 1_000.0);
    assert_eq!(value(limits.max_tx_count_24h), 20.0);
    assert_eq!(value(limits.max_merchant_avg_amount), 10_000.0);
}

#[test]
fn loaded_risks_lie_between_zero_and_one() {
    let risks = load_mcc_risk(&vec![
        ("5912".to_owned(), single(0.9)),
        ("7995".to_owned(), single(1.5)),
        ("5411".to_owned(), single(-0.5)),
        ("5912".to_owned(), single(0.15)),
    ]);
    assert_eq!(risks.get("5912"), Some(single(0.15)));
    assert_eq!(risks.get("7995"), Some(single(1.0)));
    assert_eq!(risks.get("5411"), Some(single(0.0)));
    assert_eq!(risks.get("0000"), None);
}

#[test]
fn loading_risks_changes_no_feature() {
    let mut raw = MccRisk::new();
    raw.insert("7995".to_owned(), single(1.5));
    let loaded = load_mcc_risk(&vec![("7995".to_owned(), single(1.5))]);
    assert_eq!(raw.get("7995"), Some(single(1.5)));
    let request = sample_request(None, "MERC-001", "7995");
    let limits = Normalization::default();
    let first = vectorize_transaction(&request, &raw, &limits).unwrap();
    assert_eq!(value(first[12]), 1.0);
    assert_eq!(first, vectorize_transaction(&request, &loaded, &limits).unwrap());
}

#[test]
fn features_lie_between_zero_and_one() {
    let mut rng = SplitMix64::new(11);
    for round in 0..500 {
        let mut number = || Float32 { bits: rng.next_u64() as u32 };
        let mut request = sample_request(
            if round % 2 == 0 { last_transaction("2026-03-11T14:58:35Z") } else { None },
            "MERC-999",
            "5912",
        );
        request.transaction.amount = number();
        request.transaction.installments = number();
        request.customer.avg_amount = number();
        request.customer.tx_count_24h = number();
        request.merchant.avg_amount = number();
        request.terminal.km_from_home = number();
        let limits = Normalization {
            max_amount: number(),
            max_installments: number(),
            amount_vs_avg_ratio: number(),
            max_minutes: number(),
            max_km: number(),
            max_tx_count_24h: number(),
            max_merchant_avg_amount: number(),
        };
        let vector = vectorize_transaction(&request, &sample_risks(), &limits).unwrap();
        let query = quantize_vector(&vector);
        for (dimension, feature) in values(vector).into_iter().enumerate() {
            if round % 2 == 1 && (dimension == 5 || dimension == 6) {
                assert_eq!(feature, -1.0);
                assert_eq!(query[dimension], -10_000);
            } else {
                assert!((0.0..=1.0).contains(&feature), "{dimension} {feature}");
                assert!((0..=10_000).contains(&query[dimension]));
            }
        }
    }
}

#[test]
fn calculates_fraud_score_from_top5_count() {
    approx_eq(value(fraud_score_from_count(0)), 0.0);
    approx_eq(value(fraud_score_from_count(3)), 0.6);
    approx_eq(value(fraud_score_from_count(5)), 1.0);
}

#[test]
fn approval_requires_score_below_point_six() {
    assert!(approved_from_score(single(0.4)));
    assert!(!approved_from_score(single(0.6)));
    assert!(!approved_from_score(single(0.8)));
}

#[test]
fn scores_are_exact_fifths() {
    let expected: [f32; 7] = [0.0, 0.2, 0.4, 0.6, 0.8, 1.0, 1.0];
    for count in 0..7u8 {
        let score = fraud_score_from_count(count);
        assert_eq!(score.bits, expected[count as usize].to_bits());
        assert_eq!(
            decision_from_fraud_count(count),
            FraudResponse { approved: count < 3, fraud_score: score }
        );
    }
    assert_eq!(value(fraud_score_from_count(255)), 1.0);
    for count in 0..5 {
        assert!(fraud_score_from_count(count).is_less(fraud_score_from_count(count + 1)));
    }
    assert!(approved_from_score(single(0.6f32.next_down())));
    assert!(approved_from_score(single(f32::NEG_INFINITY)));
    assert!(!approved_from_score(single(f32::NAN)));
}

#[test]
fn an_engine_needs_five_references() {
    for count in 0..5 {
        let error = FraudEngine::load(
            line_dataset(&vec![(0.5, 1); count]),
            Normalization::default(),
            sample_risks(),
        )
        .err()
        .unwrap();
        assert_eq!(error, LoadError { found: count });
        assert_eq!(
            error.message(),
            format!("reference dataset must contain at least 5 records, found {count}")
        );
    }
    assert_eq!(
        (LoadError { found: 1_234_567_890 }).message(),
        "reference dataset must contain at least 5 records, found 1234567890"
    );
    let engine = FraudEngine::load(
        line_dataset(&vec![(0.5, 1); 5]),
        Normalization::default(),
        sample_risks(),
    )
    .ok()
    .unwrap();
    assert_eq!(engine.reference_count(), 5);
    assert_eq!(engine.reference_memory_bytes(), 145);
}

#[test]
fn an_engine_scores_by_the_nearest_references() {
    let request = sample_request(
        last_transaction("2026-03-11T14:58:35Z"),
        "MERC-001",
        "5912",
    );
    let limits = Normalization::default();
    let vector = vectorize_transaction(&request, &sample_risks(), &limits).unwrap();
    let mut dataset = ReferenceDataset::with_capacity(12);
    for step in 1..=6u16 {
        // The fraudulent ones lie a little farther off than the others.
        for label in [0, 1] {
            let mut near = vector;
            near[10] = single(1.0 - 0.01 * step as f32 - 0.005 * label as f32);
            dataset.push_float_vector(&near, label);
        }
    }
    let engine = FraudEngine::from_parts(dataset, limits, sample_risks());
    let response = engine.score(&request).ok().unwrap();
    assert_eq!(response, FraudResponse { approved: true, fraud_score: single(0.4) });
    assert_eq!(engine.score_vector(&vector), response);

    let unreadable = sample_request(last_transaction("never"), "MERC-001", "5912");
    assert_eq!(
        engine.score(&unreadable).err().unwrap().message(),
        "invalid timestamp in last_transaction.timestamp: never"
    );
    let at = UtcTimestamp { seconds: 1_773_260_615, nanos: 0 };
    let before = UtcTimestamp { seconds: 1_773_260_615 - 19_500, nanos: 0 };
    let same = engine.score_at(&unreadable, Some(at), Some(before)).ok().unwrap();
    assert_eq!(same, response);
    assert!(engine.score_at(&request, None, None).is_err());
}

#[test]
fn three_frauds_in_five_are_not_approved() {
    for frauds in 0..=5u8 {
        let mut dataset = ReferenceDataset::with_capacity(5);
        for record in 0..5 {
            dataset.push_quantized_vector(&[0; VECTOR_DIMENSIONS], u8::from(record < frauds));
        }
        let engine = FraudEngine::from_parts(dataset, Normalization::default(), sample_risks());
        let response = engine
            .score(&sample_request(None, "MERC-001", "5912"))
            .ok()
            .unwrap();
        assert_eq!(response.approved, frauds < 3);
        assert_eq!(response.fraud_score.bits, (frauds as f32 / 5.0).to_bits());
    }
}

#[test]
fn reloaded_references_answer_alike() {
    let dataset = line_dataset(&[
        (0.90, 0),
        (0.40, 1),
        (0.10, 1),
        (0.30, 0),
        (0.20, 1),
        (0.50, 0),
    ]);
    let reloaded = load_references_bin(&save_references_bin(&dataset)).ok().unwrap();
    let limits = Normalization::default();
    let first = FraudEngine::from_parts(dataset, limits, sample_risks());
    let second = FraudEngine::from_parts(reloaded, limits, sample_risks());
    let request = sample_request(None, "MERC-001", "5912");
    assert_eq!(first.score(&request).ok(), second.score(&request).ok());
    let origin = [single(0.0); VECTOR_DIMENSIONS];
    assert_eq!(
        second.score_vector(&origin),
        FraudResponse { approved: false, fraud_score: single(0.6) }
    );
}

#[test]
fn the_sentinel_keeps_records_apart() {
    let limits = Normalization::default();
    let without = vectorize_transaction(
        &sample_request(None, "MERC-001", "5912"),
        &sample_risks(),
        &limits,
    )
    .unwrap();
    let with = vectorize_transaction(
        &sample_request(last_transaction("2026-03-11T20:23:35Z"), "MERC-001", "5912"),
        &sample_risks(),
        &limits,
    )
    .unwrap();
    let apart = squared_distance_i16(&quantize_vector(&without), &quantize_vector(&with));
    assert!(apart >= 200_000_000);
}

#[test]
fn a_wrong_timestamp_is_named_without_references() {
    for count in 0..5 {
        let engine = FraudEngine::from_parts(
            line_dataset(&vec![(0.5, 1); count]),
            Normalization::default(),
            sample_risks(),
        );
        let wrong = sample_request(last_transaction("never"), "MERC-001", "5912");
        let message = "invalid timestamp in last_transaction.timestamp: never";
        assert_eq!(engine.score(&wrong).err().unwrap().message(), message);
        assert_eq!(engine.try_score(&wrong).unwrap().err().unwrap().message(), message);
        let at = UtcTimestamp { seconds: 1_773_260_615, nanos: 0 };
        assert_eq!(
            engine.score_at(&wrong, Some(at), None).err().unwrap().message(),
            message
        );
        let right = sample_request(None, "MERC-001", "5912");
        assert!(engine.try_score(&right).is_none());
    }
    let engine = FraudEngine::from_parts(
        line_dataset(&vec![(0.5, 1); 5]),
        Normalization::default(),
        sample_risks(),
    );
    let right = sample_request(None, "MERC-001", "5912");
    assert_eq!(
        engine.try_score(&right).unwrap().ok(),
        Some(FraudResponse { approved: false, fraud_score: single(1.0) })
    );
}

#[test]
fn answers_compare_their_scores_as_numbers() {
    let answer = |approved: bool, score: f32| FraudResponse {
        approved,
        fraud_score: single(score),
    };
    assert!(answer(true, 0.0) == answer(true, -0.0));
    assert!(answer(true, 0.2) == answer(true, 0.2));
    assert!(answer(true, 0.2) != answer(true, 0.4));
    assert!(answer(true, 0.2) != answer(true, -0.2));
    assert!(answer(true, 0.2) != answer(false, 0.2));
    assert!(answer(true, f32::NAN) != answer(true, f32::NAN));
    assert!(answer(true, f32::INFINITY) == answer(true, f32::INFINITY));
}
