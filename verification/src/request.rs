//! What is known of a transaction, and what its features are measured against.
use crate::float32::{clamp01, clamped01, from_i64, nearest_to_integer, Float32};
use crate::rounding::{held_within, lemma_clamping_is_nearest};
use vstd::arithmetic::power2::pow2;
use vstd::hash_map::StringHashMap;
use vstd::prelude::*;

verus! {

/// The values that count as one, per feature.
#[derive(Clone, Copy, Debug)]
pub struct Normalization {
    pub max_amount: Float32,
    pub max_installments: Float32,
    pub amount_vs_avg_ratio: Float32,
    pub max_minutes: Float32,
    pub max_km: Float32,
    pub max_tx_count_24h: Float32,
    pub max_merchant_avg_amount: Float32,
}

impl Default for Normalization {
    fn default() -> (normalization: Self)
        ensures
            normalization.max_amount == nearest_to_integer(10_000),
            normalization.max_installments == nearest_to_integer(12),
            normalization.amount_vs_avg_ratio == nearest_to_integer(10),
            normalization.max_minutes == nearest_to_integer(1_440),
            normalization.max_km == nearest_to_integer(1_000),
            normalization.max_tx_count_24h == nearest_to_integer(20),
            normalization.max_merchant_avg_amount == nearest_to_integer(10_000),
    {
        Self {
            max_amount: from_i64(10_000),
            max_installments: from_i64(12),
            amount_vs_avg_ratio: from_i64(10),
            max_minutes: from_i64(1_440),
            max_km: from_i64(1_000),
            max_tx_count_24h: from_i64(20),
            max_merchant_avg_amount: from_i64(10_000),
        }
    }
}

/// A transaction to be judged.
#[derive(Debug)]
pub struct FraudRequest {
    pub transaction: Transaction,
    pub customer: Customer,
    pub merchant: Merchant,
    pub terminal: Terminal,
    pub last_transaction: Option<LastTransaction>,
}

#[derive(Debug)]
pub struct Transaction {
    pub amount: Float32,
    pub installments: Float32,
    pub requested_at: String,
}

#[derive(Debug)]
pub struct Customer {
    pub avg_amount: Float32,
    pub tx_count_24h: Float32,
    pub known_merchants: Vec<String>,
}

#[derive(Debug)]
pub struct Merchant {
    pub id: String,
    pub mcc: String,
    pub avg_amount: Float32,
}

#[derive(Debug)]
pub struct Terminal {
    pub is_online: bool,
    pub card_present: bool,
    pub km_from_home: Float32,
}

#[derive(Debug)]
pub struct LastTransaction {
    pub timestamp: String,
    pub km_from_current: Float32,
}

/// The risk of each merchant category, by its code.
pub struct MccRisk {
    risks: StringHashMap<Float32>,
}

impl View for MccRisk {
    type V = Map<Seq<char>, Float32>;

    closed spec fn view(&self) -> Map<Seq<char>, Float32> {
        self.risks@
    }
}

impl MccRisk {
    /// No category has a known risk.
    pub fn new() -> (risks: Self)
        ensures
            risks@ == Map::<Seq<char>, Float32>::empty(),
    {
        Self { risks: StringHashMap::new() }
    }

    /// Sets the risk of a category.
    pub fn insert(&mut self, mcc: String, risk: Float32)
        ensures
            final(self)@ == old(self)@.insert(mcc@, risk),
    {
        self.risks.insert(mcc, risk);
    }

    /// The risk of a category, where it is known.
    pub fn get(&self, mcc: &str) -> (risk: Option<Float32>)
        ensures
            risk == if self@.contains_key(mcc@) {
                Some(self@[mcc@])
            } else {
                None
            },
    {
        match self.risks.get(mcc) {
            Some(risk) => Some(*risk),
            None => None,
        }
    }
}

/// The risks that entries give, each as it is; of several for one category, the last.
pub open spec fn entered_risks(entries: Seq<(String, Float32)>) -> Map<Seq<char>, Float32>
    decreases entries.len(),
{
    if entries.len() == 0 {
        Map::empty()
    } else {
        entered_risks(entries.drop_last()).insert(entries.last().0@, entries.last().1)
    }
}

/// The same risks, each brought between zero and one.
pub open spec fn loaded_risks(entries: Seq<(String, Float32)>) -> Map<Seq<char>, Float32> {
    entered_risks(entries).map_values(|risk: Float32| clamped01(risk))
}

/// The risks that entries give, each brought between zero and one; of several
/// for one category, the last counts.
pub fn load_mcc_risk(entries: &Vec<(String, Float32)>) -> (risks: MccRisk)
    ensures
        risks@ == loaded_risks(entries@),
{
    let mut risks: MccRisk = MccRisk::new();
    let mut next: usize = 0;
    proof {
        assert(loaded_risks(entries@.take(0)) =~= Map::<Seq<char>, Float32>::empty());
    }
    while next < entries.len()
        invariant
            next <= entries@.len(),
            risks@ == loaded_risks(entries@.take(next as int)),
        decreases entries@.len() - next,
    {
        let mcc: String = entries[next].0.clone();
        let risk: Float32 = clamp01(entries[next].1);
        risks.insert(mcc, risk);
        proof {
            let longer = entries@.take(next + 1);
            assert(longer.drop_last() =~= entries@.take(next as int));
            assert(loaded_risks(longer) =~= loaded_risks(longer.drop_last()).insert(
                longer.last().0@,
                clamped01(longer.last().1),
            ));
        }
        next = next + 1;
    }
    assert(entries@.take(next as int) =~= entries@);
    risks
}

/// The risk of a category is that of the last entry that names it.
proof fn lemma_last_entry_counts(entries: Seq<(String, Float32)>, at: int)
    requires
        0 <= at < entries.len(),
        forall|k: int| at < k < entries.len() ==> #[trigger] entries[k].0@ != entries[at].0@,
    ensures
        entered_risks(entries).contains_key(entries[at].0@),
        entered_risks(entries)[entries[at].0@] == entries[at].1,
    decreases entries.len(),
{
    let before = entries.drop_last();
    let last = entries.len() - 1;
    if at < last {
        assert forall|k: int| at < k < before.len() implies #[trigger] before[k].0@
            != before[at].0@ by {
            assert(entries[k].0@ != entries[at].0@);
        }
        lemma_last_entry_counts(before, at);
        assert(entries[last].0@ != entries[at].0@);
    }
}

/// Only categories that some entry names have a risk.
proof fn lemma_entered_are_named(entries: Seq<(String, Float32)>, mcc: Seq<char>) -> (at: int)
    requires
        entered_risks(entries).contains_key(mcc),
    ensures
        0 <= at < entries.len(),
        entries[at].0@ == mcc,
    decreases entries.len(),
{
    if entries.last().0@ == mcc {
        entries.len() - 1
    } else {
        lemma_entered_are_named(entries.drop_last(), mcc)
    }
}

/// The last of the entries with a name, from one of them on.
proof fn lemma_last_of_name(entries: Seq<(String, Float32)>, from: int) -> (at: int)
    requires
        0 <= from < entries.len(),
    ensures
        from <= at < entries.len(),
        entries[at].0@ == entries[from].0@,
        forall|k: int| at < k < entries.len() ==> #[trigger] entries[k].0@ != entries[at].0@,
    decreases entries.len() - from,
{
    if exists|k: int| from < k < entries.len() && #[trigger] entries[k].0@ == entries[from].0@ {
        let next = choose|k: int|
            from < k < entries.len() && #[trigger] entries[k].0@ == entries[from].0@;
        lemma_last_of_name(entries, next)
    } else {
        from
    }
}

/// A category is in the loaded table just when some entry names it.
pub proof fn lemma_named_categories_are_loaded(entries: Seq<(String, Float32)>, mcc: Seq<char>)
    ensures
        loaded_risks(entries).contains_key(mcc) <==> exists|i: int|
            0 <= i < entries.len() && #[trigger] entries[i].0@ == mcc,
{
    if entered_risks(entries).contains_key(mcc) {
        let at = lemma_entered_are_named(entries, mcc);
        assert(entries[at].0@ == mcc);
    }
    if exists|i: int| 0 <= i < entries.len() && #[trigger] entries[i].0@ == mcc {
        let from = choose|i: int| 0 <= i < entries.len() && #[trigger] entries[i].0@ == mcc;
        let at = lemma_last_of_name(entries, from);
        lemma_last_entry_counts(entries, at);
    }
}

/// The loaded risk of a category is that of the last entry that names it, brought
/// to the nearest number from zero to one.
pub proof fn lemma_loaded_risk_is_the_last_entered(entries: Seq<(String, Float32)>, at: int)
    requires
        0 <= at < entries.len(),
        forall|k: int| at < k < entries.len() ==> #[trigger] entries[k].0@ != entries[at].0@,
    ensures
        loaded_risks(entries).contains_key(entries[at].0@),
        held_within(loaded_risks(entries)[entries[at].0@], entries[at].1, 0, pow2(149) as int),
        !loaded_risks(entries)[entries[at].0@].negative(),
{
    lemma_last_entry_counts(entries, at);
    lemma_clamping_is_nearest(entries[at].1);
}

} // verus!
