//! The reference transactions.
use crate::float32::Float32;
use crate::quantize::{quantize_vector, quantized_vector, VECTOR_DIMENSIONS};
use vstd::prelude::*;

verus! {

/// The number of neighbours that a decision rests on.
pub const TOP_K: usize = 5;

/// The bytes that the vector of one record takes.
pub const VECTOR_BYTES: usize = 28;

/// One reference transaction: its quantised features and whether it was fraud.
#[verifier::ext_equal]
pub struct Record {
    pub vector: Seq<i16>,
    pub fraud: bool,
}

/// The class of a reference transaction.
#[derive(Clone, Copy, PartialEq, Eq, Debug, Structural)]
pub enum ReferenceLabel {
    Fraud,
    Legit,
}

impl ReferenceLabel {
    /// The label of the class.
    pub fn as_u8(&self) -> (label: u8)
        ensures
            label == label_of(*self == ReferenceLabel::Fraud),
    {
        match self {
            Self::Fraud => 1,
            Self::Legit => 0,
        }
    }
}

/// The reference transactions, their vectors laid out one after the other.
#[derive(Debug)]
pub struct ReferenceDataset {
    vectors: Vec<i16>,
    labels: Vec<u8>,
}

/// A record with a value for every feature.
pub open spec fn whole(record: Record) -> bool {
    record.vector.len() == VECTOR_DIMENSIONS
}

/// The label that marks a record.
pub open spec fn label_of(fraud: bool) -> u8 {
    if fraud {
        1
    } else {
        0
    }
}

/// Calls `std::alloc::Layout::for_value` on a slice and takes its `size`: two
/// bytes for each value. No layout is larger than the largest `isize`.
#[verifier::external_body]
fn value_bytes(values: &[i16]) -> (bytes: usize)
    ensures
        bytes == 2 * values@.len(),
        bytes <= isize::MAX,
{
    std::alloc::Layout::for_value(values).size()
}

impl View for ReferenceDataset {
    type V = Seq<Record>;

    closed spec fn view(&self) -> Seq<Record> {
        Seq::new(
            self.labels@.len(),
            |i: int|
                Record {
                    vector: self.vectors@.subrange(14 * i, 14 * i + 14),
                    fraud: self.labels@[i] != 0,
                },
        )
    }
}

impl ReferenceDataset {
    /// Every record has a whole vector and a label that is zero or one.
    pub closed spec fn well_formed(&self) -> bool {
        &&& self.vectors@.len() == 14 * self.labels@.len()
        &&& forall|i: int|
            0 <= i < self.labels@.len() ==> (#[trigger] self.labels@[i] == 0 || self.labels@[i]
                == 1)
    }

    /// Every record of a dataset is whole, and there are not more of them than
    /// can be addressed.
    pub proof fn lemma_records_are_whole(&self)
        requires
            self.well_formed(),
        ensures
            self@.len() * VECTOR_DIMENSIONS <= usize::MAX,
            forall|i: int| 0 <= i < self@.len() ==> whole(#[trigger] self@[i]),
    {
        assert(self.vectors@.len() == self.vectors.len());
    }

    /// An empty dataset with room for a number of records.
    pub fn with_capacity(records: usize) -> (dataset: Self)
        requires
            records * VECTOR_BYTES <= isize::MAX,
        ensures
            dataset.well_formed(),
            dataset@ == Seq::<Record>::empty(),
    {
        let dataset = Self {
            vectors: Vec::with_capacity(records * VECTOR_DIMENSIONS),
            labels: Vec::with_capacity(records),
        };
        assert(dataset@ =~= Seq::<Record>::empty());
        dataset
    }

    /// An empty dataset, with room for a number of records where they can be
    /// addressed at all.
    pub(crate) fn with_room_for(records: usize) -> (dataset: Self)
        ensures
            dataset.well_formed(),
            dataset@ == Seq::<Record>::empty(),
    {
        if records <= isize::MAX as usize / VECTOR_BYTES {
            Self::with_capacity(records)
        } else {
            Self::with_capacity(0)
        }
    }

    /// The number of records.
    pub fn len(&self) -> (count: usize)
        ensures
            count == self@.len(),
    {
        self.labels.len()
    }

    /// Whether there is no record.
    pub fn is_empty(&self) -> (empty: bool)
        ensures
            empty == (self@.len() == 0),
    {
        self.labels.len() == 0
    }

    /// The bytes that vectors and labels take together: 29 for each record.
    pub fn memory_bytes(&self) -> (bytes: usize)
        requires
            self.well_formed(),
        ensures
            bytes == 29 * self@.len(),
    {
        value_bytes(self.vectors.as_slice()) + self.labels.len()
    }

    /// The vectors of all records, one after the other.
    pub fn vectors(&self) -> (vectors: &Vec<i16>)
        requires
            self.well_formed(),
        ensures
            vectors@.len() == 14 * self@.len(),
            forall|i: int|
                0 <= i < self@.len() ==> #[trigger] self@[i].vector == vectors@.subrange(
                    14 * i,
                    14 * i + 14,
                ),
    {
        &self.vectors
    }

    /// The labels of all records: one for fraud, zero for the others.
    pub fn labels(&self) -> (labels: &Vec<u8>)
        requires
            self.well_formed(),
        ensures
            labels@.len() == self@.len(),
            forall|i: int|
                0 <= i < self@.len() ==> #[trigger] labels@[i] == label_of(self@[i].fraud),
    {
        &self.labels
    }

    /// The vector of one record.
    pub fn vector_at(&self, record: usize) -> (vector: [i16; VECTOR_DIMENSIONS])
        requires
            self.well_formed(),
            record < self@.len(),
        ensures
            vector@ == self@[record as int].vector,
    {
        let values: usize = self.vectors.len();
        let mut vector: [i16; VECTOR_DIMENSIONS] = [0; VECTOR_DIMENSIONS];
        let mut dimension: usize = 0;
        while dimension < VECTOR_DIMENSIONS
            invariant
                dimension <= VECTOR_DIMENSIONS,
                values == self.vectors@.len(),
                14 * record + 14 <= values,
                forall|d: int| 0 <= d < dimension ==> #[trigger] vector@[d] == self.vectors@[14
                    * record + d],
            decreases VECTOR_DIMENSIONS - dimension,
        {
            vector[dimension] = self.vectors[record * VECTOR_DIMENSIONS + dimension];
            dimension = dimension + 1;
        }
        assert(vector@ =~= self@[record as int].vector);
        vector
    }

    /// Appends a record whose vector is already quantised. Any label but zero
    /// marks fraud.
    pub fn push_quantized_vector(&mut self, vector: &[i16; VECTOR_DIMENSIONS], label: u8)
        requires
            old(self).well_formed(),
        ensures
            final(self).well_formed(),
            final(self)@ == old(self)@.push(Record { vector: vector@, fraud: label != 0 }),
    {
        let ghost before = self.vectors@;
        let mut dimension: usize = 0;
        while dimension < VECTOR_DIMENSIONS
            invariant
                dimension <= VECTOR_DIMENSIONS,
                self.vectors@ == before + vector@.take(dimension as int),
                self.labels@ == old(self).labels@,
            decreases VECTOR_DIMENSIONS - dimension,
        {
            self.vectors.push(vector[dimension]);
            proof {
                assert(vector@.take(dimension + 1) =~= vector@.take(dimension as int).push(
                    vector@[dimension as int],
                ));
            }
            dimension = dimension + 1;
        }
        self.labels.push(if label != 0 { 1 } else { 0 });
        proof {
            let n = old(self).labels@.len() as int;
            assert(vector@.take(14) =~= vector@);
            assert forall|i: int| 0 <= i < n implies self@[i] == #[trigger] old(self)@[i] by {
                assert(self.vectors@.subrange(14 * i, 14 * i + 14) =~= before.subrange(
                    14 * i,
                    14 * i + 14,
                ));
            }
            assert(self.vectors@.subrange(14 * n, 14 * n + 14) =~= vector@);
            assert(self@ =~= old(self)@.push(Record { vector: vector@, fraud: label != 0 }));
        }
    }

    /// Quantises a vector and appends it with its label.
    pub fn push_float_vector(&mut self, vector: &[Float32; VECTOR_DIMENSIONS], label: u8)
        requires
            old(self).well_formed(),
        ensures
            final(self).well_formed(),
            final(self)@.len() == old(self)@.len() + 1,
            final(self)@.drop_last() == old(self)@,
            quantized_vector(vector@, final(self)@.last().vector),
            final(self)@.last().fraud == (label != 0),
    {
        let quantized: [i16; VECTOR_DIMENSIONS] = quantize_vector(vector);
        self.push_quantized_vector(&quantized, label);
        assert(self@.drop_last() =~= old(self)@);
    }
}

/// The label of a record tells whether it is fraud.
pub proof fn lemma_label_tells_fraud(fraud: bool)
    ensures
        label_of(fraud) == 0 || label_of(fraud) == 1,
        label_of(fraud) != 0 <==> fraud,
{
}

} // verus!
