//! What each feature says of a transaction.
use crate::features::{
    agrees, amount_ratio, features, last_instant, minutes_between, normalized, share_of, vectorized,
};
use crate::float32::{
    lemma_nearest_scales, lemma_small_integer, lemma_unit_numbers, lemma_units_identify,
    nearest_to_integer, quotient, Float32,
};
use crate::quantize::VECTOR_DIMENSIONS;
use crate::request::{FraudRequest, Normalization};
use crate::rounding::{
    converts, held_within, lemma_clamping_is_nearest, lemma_conversion_is_nearest, lemma_kinds,
    lemma_nearest_rounds, lemma_quotient_is_nearest, off, rounds,
};
use crate::timestamp::{elapsed_nanos, instant, whole_seconds, UtcTimestamp, VectorizeError};
use vstd::arithmetic::power2::{lemma2_to64, lemma_pow2_adds, lemma_pow2_pos, pow2};
use vstd::prelude::*;

verus! {

/// Whether a feature is a value as a share of the value that counts as one. It
/// is zero where that value is of no use, where there is nothing to measure, and
/// where the share is too large for a number; one from that value on; and below
/// it the number nearest to the exact share.
pub open spec fn is_share(feature: Float32, value: Float32, max: Float32) -> bool {
    if !max.positive() || !value.positive() {
        feature.bits == 0
    } else if 2 * (value.units() * pow2(149)) >= max.units() * (0x01ff_ffff * pow2(253)) {
        feature.bits == 0
    } else if value.units() >= max.units() {
        feature.bits == 0x3f80_0000
    } else {
        rounds(feature, false, (value.units() * pow2(149)) as nat, max.units() as nat)
    }
}

/// The share of a value is its share.
pub proof fn lemma_normalized_is_share(value: Float32, max: Float32)
    ensures
        is_share(normalized(value, max), value, max),
{
    lemma_unit_numbers();
    if max.positive() {
        lemma_quotient_is_nearest(value, max);
        let share = quotient(value, max);
        let one = Float32 { bits: 0x3f80_0000 };
        let zero = Float32 { bits: 0 };
        lemma_pow2_pos(149);
        let unit = pow2(149) as int;
        let v = value.units();
        let m = max.units();
        let s = share.units();
        if value.finite() {
            lemma_kinds(value);
            lemma_kinds(share);
            if v > 0 {
                assert(v * unit > 0 && m * unit > 0) by (nonlinear_arith)
                    requires
                        v > 0,
                        m > 0,
                        unit > 0,
                ;
                if share.finite() {
                    assert(one.finite());
                    if v >= m {
                        assert(v * unit >= m * unit) by (nonlinear_arith)
                            requires
                                v >= m,
                                unit > 0,
                        ;
                        if s < unit {
                            assert(m * s < m * unit) by (nonlinear_arith)
                                requires
                                    s < unit,
                                    m > 0,
                            ;
                        }
                    } else {
                        assert(v * unit < m * unit) by (nonlinear_arith)
                            requires
                                v < m,
                                unit > 0,
                        ;
                        if s > unit {
                            assert(m * s > m * unit) by (nonlinear_arith)
                                requires
                                    s > unit,
                                    m > 0,
                            ;
                        }
                        if s == unit {
                            lemma_units_identify(share, one);
                        }
                        if s <= 0 {
                            lemma_units_identify(share, zero);
                        }
                        assert(normalized(value, max) == share);
                    }
                }
            } else if !value.negative() {
                assert(v == 0);
                assert(0 * unit == 0);
                assert(zero.finite());
                assert(m * 0 == 0);
                lemma_pow2_pos(253);
                assert(m * (0x01ff_ffff * pow2(253)) > 0) by (nonlinear_arith)
                    requires
                        m > 0,
                        pow2(253) > 0,
                ;
                assert(m * s == 0);
                assert(s == 0) by (nonlinear_arith)
                    requires
                        m * s == 0,
                        m > 0,
                ;
            }
        }
    }
}

/// A small whole number as a share of another is the number nearest to the fraction.
pub proof fn lemma_share_is_nearest(part: nat, whole: nat)
    requires
        part < 0x0100_0000,
        0 < whole < 0x0100_0000,
    ensures
        rounds(share_of(part as int, whole as int), false, part * pow2(149), whole),
{
    lemma_small_integer(part);
    lemma_small_integer(whole);
    let one = pow2(149);
    lemma_pow2_pos(149);
    assert(whole * one > 0) by (nonlinear_arith)
        requires
            whole > 0,
            one > 0,
    ;
    lemma_nearest_scales(part * one, whole, one);
    lemma_nearest_rounds(false, part * one, whole);
}

/// Whether a feature compares an amount with an average: zero without an amount,
/// one without an average or a ratio to measure by, and else the share of the
/// ratio that the quotient is, itself rounded.
pub open spec fn is_comparison(
    feature: Float32,
    amount: Float32,
    average: Float32,
    ratio: Float32,
) -> bool {
    if !amount.positive() {
        feature.bits == 0
    } else if !average.positive() || !ratio.positive() {
        feature.bits == 0x3f80_0000
    } else {
        exists|multiple: Float32|
            {
                &&& #[trigger] rounds(
                    multiple,
                    false,
                    (amount.units() * pow2(149)) as nat,
                    average.units() as nat,
                )
                &&& is_share(feature, multiple, ratio)
            }
    }
}

/// The amount is compared with the average.
proof fn lemma_amount_is_compared(amount: Float32, average: Float32, ratio: Float32)
    ensures
        is_comparison(amount_ratio(amount, average, ratio), amount, average, ratio),
{
    lemma_unit_numbers();
    if amount.positive() && average.positive() && ratio.positive() {
        lemma_kinds(amount);
        lemma_quotient_is_nearest(amount, average);
        lemma_normalized_is_share(quotient(amount, average), ratio);
    }
}

/// Whether a feature measures seconds in minutes against a limit: the seconds,
/// the minutes and the share are each rounded.
pub open spec fn is_minutes(feature: Float32, seconds: int, max: Float32) -> bool {
    exists|whole: Float32, minutes: Float32|
        {
            &&& #[trigger] converts(whole, seconds)
            &&& #[trigger] rounds(
                minutes,
                whole.negative(),
                (off(whole.units(), 0) * pow2(149)) as nat,
                60 * pow2(149),
            )
            &&& is_share(feature, minutes, max)
        }
}

/// The time since the last transaction is measured in minutes.
proof fn lemma_minutes_are_measured(later: UtcTimestamp, earlier: UtcTimestamp, max: Float32)
    requires
        -1_000_000_000_000_000_000_000 < whole_seconds(elapsed_nanos(later, earlier))
            < 1_000_000_000_000_000_000_000,
    ensures
        is_minutes(
            normalized(minutes_between(later, earlier), max),
            whole_seconds(elapsed_nanos(later, earlier)),
            max,
        ),
{
    let seconds = whole_seconds(elapsed_nanos(later, earlier));
    let whole = nearest_to_integer(seconds);
    let minutes = minutes_between(later, earlier);
    lemma_conversion_is_nearest(seconds);
    lemma_small_integer(60);
    lemma_second_count_is_finite(seconds, whole);
    lemma_quotient_is_nearest(whole, nearest_to_integer(60));
    lemma_normalized_is_share(minutes, max);
}

/// A count of seconds is finite as a number.
proof fn lemma_second_count_is_finite(seconds: int, whole: Float32)
    requires
        -1_000_000_000_000_000_000_000 < seconds < 1_000_000_000_000_000_000_000,
        converts(whole, seconds),
    ensures
        whole.finite(),
{
    lemma2_to64();
    lemma_pow2_adds(149, 104);
    lemma_pow2_adds(64, 40);
    lemma_pow2_adds(32, 8);
    lemma_pow2_pos(149);
    let one = pow2(149);
    let size = off(seconds, 0);
    assert(2 * (size * one) < 1 * (0x01ff_ffff * pow2(253))) by (nonlinear_arith)
        requires
            0 <= size < 1_000_000_000_000_000_000_000,
            one > 0,
            pow2(253) == one * pow2(104),
            pow2(104) == 0x1_0000_0000_0000_0000 * 0x100_0000_0000,
    ;
}

/// The features of the purchase itself: the amount, the installments, the amount
/// against the average, and how often and at what merchant the customer buys.
pub proof fn lemma_purchase_features(
    request: FraudRequest,
    risks: Map<Seq<char>, Float32>,
    normalization: Normalization,
    requested_at: UtcTimestamp,
    last_at: UtcTimestamp,
)
    ensures
        ({
            let vector = features(request, risks, normalization, requested_at, last_at);
            let amount = request.transaction.amount;
            &&& vector.len() == 14
            &&& is_share(vector[0], amount, normalization.max_amount)
            &&& is_share(
                vector[1],
                request.transaction.installments,
                normalization.max_installments,
            )
            &&& is_comparison(
                vector[2],
                amount,
                request.customer.avg_amount,
                normalization.amount_vs_avg_ratio,
            )
            &&& is_share(vector[7], request.terminal.km_from_home, normalization.max_km)
            &&& is_share(
                vector[8],
                request.customer.tx_count_24h,
                normalization.max_tx_count_24h,
            )
            &&& is_share(
                vector[13],
                request.merchant.avg_amount,
                normalization.max_merchant_avg_amount,
            )
        }),
{
    let amount = request.transaction.amount;
    lemma_normalized_is_share(amount, normalization.max_amount);
    lemma_normalized_is_share(request.transaction.installments, normalization.max_installments);
    lemma_amount_is_compared(
        amount,
        request.customer.avg_amount,
        normalization.amount_vs_avg_ratio,
    );
    lemma_normalized_is_share(request.terminal.km_from_home, normalization.max_km);
    lemma_normalized_is_share(request.customer.tx_count_24h, normalization.max_tx_count_24h);
    lemma_normalized_is_share(
        request.merchant.avg_amount,
        normalization.max_merchant_avg_amount,
    );
}

/// The flags: one where the purchase is online, where the card is present, and
/// where the customer has not dealt with the merchant before; zero otherwise.
pub proof fn lemma_flag_features(
    request: FraudRequest,
    risks: Map<Seq<char>, Float32>,
    normalization: Normalization,
    requested_at: UtcTimestamp,
    last_at: UtcTimestamp,
)
    ensures
        ({
            let vector = features(request, risks, normalization, requested_at, last_at);
            let known = exists|i: int|
                0 <= i < request.customer.known_merchants@.len()
                    && #[trigger] request.customer.known_merchants@[i]@ == request.merchant.id@;
            &&& vector[9].bits == if request.terminal.is_online {
                0x3f80_0000u32
            } else {
                0
            }
            &&& vector[10].bits == if request.terminal.card_present {
                0x3f80_0000u32
            } else {
                0
            }
            &&& vector[11].bits == if known {
                0u32
            } else {
                0x3f80_0000
            }
        }),
{
}

/// The risk of the merchant's category: the nearest number from zero to one where
/// it is known, and one half where it is not.
pub proof fn lemma_risk_feature(
    request: FraudRequest,
    risks: Map<Seq<char>, Float32>,
    normalization: Normalization,
    requested_at: UtcTimestamp,
    last_at: UtcTimestamp,
)
    ensures
        ({
            let risk = features(request, risks, normalization, requested_at, last_at)[12];
            let mcc = request.merchant.mcc@;
            &&& risks.contains_key(mcc) ==> held_within(risk, risks[mcc], 0, pow2(149) as int)
                && !risk.negative()
            &&& !risks.contains_key(mcc) ==> risk.bits == 0x3f00_0000
        }),
{
    lemma_clamping_is_nearest(risks[request.merchant.mcc@]);
}

/// The time features: the hour of the day as a share of 23, and the day of the
/// week, from Monday, as a share of six. The first day of 1970 was a Thursday.
pub proof fn lemma_time_features(
    request: FraudRequest,
    risks: Map<Seq<char>, Float32>,
    normalization: Normalization,
    requested_at: UtcTimestamp,
    last_at: UtcTimestamp,
    week: int,
    day: nat,
    hour: nat,
    rest: int,
)
    requires
        day < 7,
        hour < 24,
        0 <= rest < 3_600,
        requested_at.seconds == (7 * week + day - 3) * 86_400 + hour * 3_600 + rest,
    ensures
        ({
            let vector = features(request, risks, normalization, requested_at, last_at);
            &&& rounds(vector[3], false, hour * pow2(149), 23)
            &&& rounds(vector[4], false, day * pow2(149), 6)
        }),
{
    lemma_share_is_nearest(hour, 23);
    lemma_share_is_nearest(day, 6);
    let seconds = requested_at.seconds as int;
    assert(seconds % 86_400 / 3_600 == hour);
    assert((seconds / 86_400 + 3) % 7 == day);
}

/// The features on the last transaction: the minutes since then and the distance
/// from there, or minus one for both where there was none.
pub proof fn lemma_last_transaction_features(
    request: FraudRequest,
    risks: Map<Seq<char>, Float32>,
    normalization: Normalization,
    requested_at: UtcTimestamp,
    last_at: UtcTimestamp,
)
    ensures
        ({
            let vector = features(request, risks, normalization, requested_at, last_at);
            match request.last_transaction {
                Some(last) => is_minutes(
                    vector[5],
                    whole_seconds(elapsed_nanos(requested_at, last_at)),
                    normalization.max_minutes,
                ) && is_share(vector[6], last.km_from_current, normalization.max_km),
                None => vector[5].bits == 0xbf80_0000 && vector[6].bits == 0xbf80_0000,
            }
        }),
{
    if let Some(last) = request.last_transaction {
        lemma_minutes_are_measured(requested_at, last_at, normalization.max_minutes);
        lemma_normalized_is_share(last.km_from_current, normalization.max_km);
    }
}

/// A transaction has a vector just when its timestamps could be read; it is that
/// of the instants, and else the first wrong timestamp is named.
pub proof fn lemma_vector_needs_its_timestamps(
    request: FraudRequest,
    risks: Map<Seq<char>, Float32>,
    normalization: Normalization,
    requested_at: Option<UtcTimestamp>,
    last_at: Option<UtcTimestamp>,
)
    ensures
        ({
            let outcome = vectorized(request, risks, normalization, requested_at, last_at);
            &&& requested_at is None ==> outcome == Err::<Seq<Float32>, (Seq<char>, Seq<char>)>(
                ("transaction.requested_at"@, request.transaction.requested_at@),
            )
            &&& requested_at is Some && request.last_transaction is Some && last_at is None
                ==> outcome == Err::<Seq<Float32>, (Seq<char>, Seq<char>)>(
                ("last_transaction.timestamp"@, request.last_transaction->0.timestamp@),
            )
            &&& requested_at is Some && request.last_transaction is Some && last_at is Some
                ==> outcome == Ok::<Seq<Float32>, (Seq<char>, Seq<char>)>(
                features(request, risks, normalization, requested_at->0, last_at->0),
            )
            &&& requested_at is Some && request.last_transaction is None ==> outcome is Ok && (
            forall|other: UtcTimestamp| #[trigger]
                features(request, risks, normalization, requested_at->0, other) == outcome->Ok_0)
        }),
{
    if requested_at is Some && request.last_transaction is None {
        let at = requested_at->0;
        assert forall|other: UtcTimestamp| #[trigger]
            features(request, risks, normalization, at, other) == features(
            request,
            risks,
            normalization,
            at,
            at,
        ) by {
            assert(features(request, risks, normalization, at, other) =~= features(
                request,
                risks,
                normalization,
                at,
                at,
            ));
        }
    }
}

/// What it means that an outcome agrees with what is expected: both are vectors
/// with the same features, or both name the same field and value.
pub proof fn lemma_agreement_is_exact(
    outcome: Result<[Float32; VECTOR_DIMENSIONS], VectorizeError>,
    expected: Result<Seq<Float32>, (Seq<char>, Seq<char>)>,
)
    requires
        agrees(outcome, expected),
    ensures
        outcome is Ok <==> expected is Ok,
        outcome matches Ok(vector) ==> expected->Ok_0.len() == 14 && forall|i: int|
            0 <= i < 14 ==> #[trigger] vector@[i] == expected->Ok_0[i],
        outcome matches Err(error) ==> error.field@ == expected->Err_0.0 && error.value@
            == expected->Err_0.1,
{
}

/// The timestamp of the last transaction is read where there is one.
pub proof fn lemma_last_instant(request: FraudRequest)
    ensures
        request.last_transaction matches Some(last) ==> last_instant(request) == instant(
            last.timestamp@,
        ),
{
}

} // verus!
