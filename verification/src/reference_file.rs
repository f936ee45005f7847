//! The binary form of the reference transactions.
//!
//! A file starts with a magic number and the record count, and holds one
//! record after the other: the features as two bytes each, then the label. All
//! numbers are little-endian.
use crate::dataset::{label_of, whole, Record, ReferenceDataset};
use crate::quantize::VECTOR_DIMENSIONS;
use vstd::arithmetic::power2::{lemma2_to64, lemma_pow2_adds, pow2};
use vstd::prelude::*;

verus! {

/// The length of the magic number, and that of the record count.
pub const FIELD_BYTES: usize = 8;

/// The length of one record.
pub const RECORD_BYTES: usize = 29;

/// What is wrong with the bytes of a reference file.
#[derive(Clone, Copy, PartialEq, Eq, Debug, Structural)]
pub enum ReferenceFileError {
    /// The bytes end before the file does.
    Truncated,
    /// The bytes do not start with the magic number.
    InvalidMagic,
    /// The record count is too large for this platform.
    TooManyRecords,
}

impl ReferenceFileError {
    /// The error in words.
    pub fn message(&self) -> (text: &'static str)
        ensures
            text@ == match self {
                ReferenceFileError::Truncated => "failed to fill whole buffer"@,
                ReferenceFileError::InvalidMagic => "invalid references.bin magic header"@,
                ReferenceFileError::TooManyRecords =>
                    "references.bin record count is too large for this platform"@,
            },
    {
        match self {
            ReferenceFileError::Truncated => "failed to fill whole buffer",
            ReferenceFileError::InvalidMagic => "invalid references.bin magic header",
            ReferenceFileError::TooManyRecords =>
                "references.bin record count is too large for this platform",
        }
    }
}

/// The magic number: "RFVEC01" and a zero byte.
pub open spec fn magic() -> Seq<u8> {
    seq![0x52u8, 0x46, 0x56, 0x45, 0x43, 0x30, 0x31, 0x00]
}

/// A number as so many bytes, the least significant first.
pub open spec fn le_bytes(value: nat, width: nat) -> Seq<u8>
    decreases width,
{
    if width == 0 {
        Seq::empty()
    } else {
        seq![(value % 256) as u8] + le_bytes(value / 256, (width - 1) as nat)
    }
}

/// The number that bytes stand for, the least significant first.
pub open spec fn le_value(bytes: Seq<u8>) -> nat
    decreases bytes.len(),
{
    if bytes.len() == 0 {
        0
    } else {
        bytes[0] as nat + 256 * le_value(bytes.skip(1))
    }
}

/// The low byte of a feature in two's complement.
pub open spec fn low_byte(value: i16) -> u8 {
    (value as int % 65_536 % 256) as u8
}

/// The high byte of a feature in two's complement.
pub open spec fn high_byte(value: i16) -> u8 {
    (value as int % 65_536 / 256) as u8
}

/// The feature with given bytes in two's complement.
pub open spec fn feature_of(low: u8, high: u8) -> i16 {
    let unsigned = low + 256 * high;
    (if unsigned >= 32_768 {
        unsigned - 65_536
    } else {
        unsigned
    }) as i16
}

/// The bytes of one record.
pub open spec fn record_bytes(record: Record) -> Seq<u8> {
    Seq::new(
        29,
        |k: int|
            if k == 28 {
                label_of(record.fraud)
            } else if k % 2 == 0 {
                low_byte(record.vector[k / 2])
            } else {
                high_byte(record.vector[k / 2])
            },
    )
}

/// The bytes of a sequence of records.
pub open spec fn body_bytes(records: Seq<Record>) -> Seq<u8> {
    Seq::new(29 * records.len(), |k: int| record_bytes(records[k / 29])[k % 29])
}

/// What comes before the records: the magic number and the record count.
pub open spec fn header(count: nat) -> Seq<u8> {
    magic() + le_bytes(count, 8)
}

/// The bytes of a file.
pub open spec fn encoded(records: Seq<Record>) -> Seq<u8> {
    header(records.len()) + body_bytes(records)
}

/// The bytes of a file up to its first `count` records.
pub open spec fn encoded_so_far(records: Seq<Record>, count: int) -> Seq<u8> {
    header(records.len()) + body_bytes(records.take(count))
}

/// The record that some bytes stand for. Any label but zero marks fraud.
pub open spec fn record_of(bytes: Seq<u8>) -> Record {
    Record {
        vector: Seq::new(14, |d: int| feature_of(bytes[2 * d], bytes[2 * d + 1])),
        fraud: bytes[28] != 0,
    }
}

/// The first `count` records in the bytes of a file.
pub open spec fn records_in(bytes: Seq<u8>, count: nat) -> Seq<Record> {
    Seq::new(count, |i: int| record_of(bytes.subrange(16 + 29 * i, 16 + 29 * i + 29)))
}

/// The records that the bytes of a file stand for, or what is wrong with them.
/// Bytes after the last record do not matter.
pub open spec fn decoded(bytes: Seq<u8>) -> Result<Seq<Record>, ReferenceFileError> {
    if bytes.len() < 8 {
        Err(ReferenceFileError::Truncated)
    } else if bytes.take(8) != magic() {
        Err(ReferenceFileError::InvalidMagic)
    } else if bytes.len() < 16 {
        Err(ReferenceFileError::Truncated)
    } else {
        let count = le_value(bytes.subrange(8, 16));
        if count > usize::MAX as nat / 14 {
            Err(ReferenceFileError::TooManyRecords)
        } else if bytes.len() < 16 + 29 * count {
            Err(ReferenceFileError::Truncated)
        } else {
            Ok(records_in(bytes, count))
        }
    }
}

/// Checks the magic number.
pub fn check_magic(bytes: &[u8]) -> (outcome: Result<(), ReferenceFileError>)
    requires
        bytes@.len() == FIELD_BYTES,
    ensures
        outcome == if bytes@ == magic() {
            Ok::<(), ReferenceFileError>(())
        } else {
            Err(ReferenceFileError::InvalidMagic)
        },
{
    let good: bool = bytes[0] == 0x52 && bytes[1] == 0x46 && bytes[2] == 0x56 && bytes[3] == 0x45
        && bytes[4] == 0x43 && bytes[5] == 0x30 && bytes[6] == 0x31 && bytes[7] == 0x00;
    if good {
        assert(bytes@ =~= magic());
        Ok(())
    } else {
        Err(ReferenceFileError::InvalidMagic)
    }
}

/// Bytes stand for a number below the power of two with as many bits.
proof fn lemma_le_value_bound(bytes: Seq<u8>)
    ensures
        le_value(bytes) < pow2(8 * bytes.len()),
    decreases bytes.len(),
{
    lemma2_to64();
    if bytes.len() > 0 {
        let rest = bytes.skip(1);
        lemma_le_value_bound(rest);
        lemma_pow2_adds(8, 8 * rest.len());
        assert(8 + 8 * rest.len() == 8 * bytes.len());
    }
}

/// Reads the record count.
pub fn read_count(bytes: &[u8]) -> (outcome: Result<usize, ReferenceFileError>)
    requires
        bytes@.len() == FIELD_BYTES,
    ensures
        match outcome {
            Ok(count) => count == le_value(bytes@) && count <= usize::MAX / 14,
            Err(error) => error == ReferenceFileError::TooManyRecords && le_value(bytes@)
                > usize::MAX / 14,
        },
{
    let mut value: u64 = 0;
    let mut left: usize = FIELD_BYTES;
    proof {
        lemma2_to64();
    }
    while left > 0
        invariant
            left <= FIELD_BYTES,
            bytes@.len() == FIELD_BYTES,
            value == le_value(bytes@.skip(left as int)),
            pow2(64) == 0x1_0000_0000_0000_0000,
        decreases left,
    {
        proof {
            let wider = bytes@.skip(left - 1);
            assert(wider.skip(1) =~= bytes@.skip(left as int));
            assert(wider[0] == bytes@[left - 1]);
            lemma_le_value_bound(wider);
            if 8 * wider.len() < 64 {
                vstd::arithmetic::power2::lemma_pow2_strictly_increases(8 * wider.len(), 64);
            }
        }
        left = left - 1;
        value = bytes[left] as u64 + 256 * value;
    }
    assert(bytes@.skip(0) =~= bytes@);
    if value > (usize::MAX / VECTOR_DIMENSIONS) as u64 {
        Err(ReferenceFileError::TooManyRecords)
    } else {
        Ok(value as usize)
    }
}

/// Appends the record that some bytes stand for.
pub fn push_encoded_record(dataset: &mut ReferenceDataset, bytes: &[u8])
    requires
        old(dataset).well_formed(),
        bytes@.len() == RECORD_BYTES,
    ensures
        final(dataset).well_formed(),
        final(dataset)@ == old(dataset)@.push(record_of(bytes@)),
{
    let mut vector: [i16; VECTOR_DIMENSIONS] = [0; VECTOR_DIMENSIONS];
    let mut dimension: usize = 0;
    while dimension < VECTOR_DIMENSIONS
        invariant
            dimension <= VECTOR_DIMENSIONS,
            bytes@.len() == RECORD_BYTES,
            forall|d: int|
                0 <= d < dimension ==> #[trigger] vector@[d] == feature_of(
                    bytes@[2 * d],
                    bytes@[2 * d + 1],
                ),
        decreases VECTOR_DIMENSIONS - dimension,
    {
        let unsigned: i32 = bytes[2 * dimension] as i32 + 256 * bytes[2 * dimension + 1] as i32;
        vector[dimension] = if unsigned >= 32_768 {
            (unsigned - 65_536) as i16
        } else {
            unsigned as i16
        };
        dimension = dimension + 1;
    }
    dataset.push_quantized_vector(&vector, bytes[28]);
    proof {
        assert(vector@ =~= record_of(bytes@).vector);
    }
}

/// Whether reading a file piece by piece can have come as far as some bytes:
/// nothing wrong has been met, and no piece is cut.
pub open spec fn underway(bytes: Seq<u8>) -> bool {
    ||| bytes.len() == 0
    ||| bytes == magic()
    ||| {
        &&& bytes.len() >= 16
        &&& bytes.take(8) == magic()
        &&& (bytes.len() - 16) % 29 == 0
        &&& bytes.len() <= 16 + 29 * le_value(bytes.subrange(8, 16))
        &&& le_value(bytes.subrange(8, 16)) <= usize::MAX as nat / 14
    }
}

/// The length of the piece that follows what was read of a file: the magic
/// number, the record count, a record, or nothing at the end.
pub open spec fn piece_after(bytes: Seq<u8>) -> nat {
    if bytes.len() < 16 {
        8
    } else if bytes.len() < 16 + 29 * le_value(bytes.subrange(8, 16)) {
        29
    } else {
        0
    }
}

/// What reading one more piece of a file comes to: nothing, or what is wrong.
pub open spec fn piece_error(bytes: Seq<u8>, piece: Seq<u8>) -> Option<ReferenceFileError> {
    if bytes.len() == 0 && piece != magic() {
        Some(ReferenceFileError::InvalidMagic)
    } else if bytes.len() == 8 && le_value(piece) > usize::MAX as nat / 14 {
        Some(ReferenceFileError::TooManyRecords)
    } else {
        None
    }
}

/// Reads a file piece by piece, so that its bytes never have to be held at once.
pub struct ReferenceReader {
    checked: bool,
    count: Option<usize>,
    dataset: ReferenceDataset,
    read: Ghost<Seq<u8>>,
}

impl View for ReferenceReader {
    type V = Seq<u8>;

    /// The bytes that were read.
    closed spec fn view(&self) -> Seq<u8> {
        self.read@
    }
}

impl ReferenceReader {
    /// Whether the records are those in the bytes that were read, and the bytes
    /// can be read on from.
    pub closed spec fn well_formed(&self) -> bool {
        &&& self.dataset.well_formed()
        &&& underway(self@)
        &&& self.dataset@.len() == if self@.len() < 16 {
            0
        } else {
            (self@.len() - 16) / 29
        }
        &&& self.checked == (self@.len() > 0)
        &&& self.dataset@ == records_in(self@, self.dataset@.len())
        &&& match self.count {
            Some(count) => self@.len() >= 16 && count == le_value(self@.subrange(8, 16)),
            None => self@.len() < 16,
        }
    }

    /// A reader at the start of a file.
    pub fn new() -> (reader: Self)
        ensures
            reader.well_formed(),
            reader@ == Seq::<u8>::empty(),
            underway(reader@),
    {
        let reader = Self {
            checked: false,
            count: None,
            dataset: ReferenceDataset::with_room_for(0),
            read: Ghost(Seq::empty()),
        };
        assert(reader.dataset@ =~= records_in(reader@, 0));
        reader
    }

    /// The length of the next piece; zero at the end.
    pub fn wanted(&self) -> (bytes: usize)
        requires
            self.well_formed(),
        ensures
            bytes == piece_after(self@),
            bytes <= RECORD_BYTES,
    {
        match self.count {
            None => FIELD_BYTES,
            Some(count) => if self.dataset.len() < count {
                RECORD_BYTES
            } else {
                0
            },
        }
    }

    /// Reads the next piece. What is wrong with it is wrong with every file that
    /// starts with these bytes.
    pub fn feed(&mut self, piece: &[u8]) -> (outcome: Result<(), ReferenceFileError>)
        requires
            old(self).well_formed(),
            piece@.len() == piece_after(old(self)@),
            piece@.len() > 0,
        ensures
            match outcome {
                Ok(_) => piece_error(old(self)@, piece@) is None && final(self).well_formed()
                    && final(self)@ == old(self)@ + piece@ && underway(final(self)@),
                Err(error) => piece_error(old(self)@, piece@) == Some(error) && *final(self)
                    == *old(self),
            },
    {
        let ghost before = self@;
        let ghost after = before + piece@;
        if !self.checked {
            match check_magic(piece) {
                Ok(_) => {},
                Err(error) => return Err(error),
            }
            self.checked = true;
            self.read = Ghost(after);
            proof {
                assert(after =~= magic());
                assert(self.dataset@ =~= records_in(after, 0));
            }
            return Ok(());
        }
        match self.count {
            None => {
                let count: usize = match read_count(piece) {
                    Ok(count) => count,
                    Err(error) => return Err(error),
                };
                self.count = Some(count);
                self.dataset = ReferenceDataset::with_room_for(count);
                self.read = Ghost(after);
                proof {
                    assert(after.take(8) =~= before);
                    assert(after.subrange(8, 16) =~= piece@);
                    assert(self.dataset@ =~= records_in(after, 0));
                }
            },
            Some(_) => {
                let ghost records = self.dataset@.len();
                push_encoded_record(&mut self.dataset, piece);
                self.read = Ghost(after);
                proof {
                    assert(after.take(8) =~= before.take(8));
                    assert(after.subrange(8, 16) =~= before.subrange(8, 16));
                    assert forall|i: int| 0 <= i < records implies #[trigger] records_in(
                        after,
                        records + 1,
                    )[i] == records_in(before, records)[i] by {
                        assert(after.subrange(16 + 29 * i, 16 + 29 * i + 29) =~= before.subrange(
                            16 + 29 * i,
                            16 + 29 * i + 29,
                        ));
                    }
                    let start = 16 + 29 * records;
                    assert(after.subrange(start as int, (start + 29) as int) =~= piece@);
                    assert(self.dataset@ =~= records_in(after, records + 1));
                }
            },
        }
        Ok(())
    }

    /// The records of the file, at its end.
    pub fn finish(self) -> (dataset: ReferenceDataset)
        requires
            self.well_formed(),
            piece_after(self@) == 0,
        ensures
            dataset.well_formed(),
            decoded(self@) == Ok::<Seq<Record>, ReferenceFileError>(dataset@),
    {
        proof {
            assert(decoded(self@)->Ok_0 =~= records_in(self@, self.dataset@.len()));
        }
        self.dataset
    }
}

/// Where a piece is wrong, so is every file that starts with it and what was
/// read before, for the same reason.
pub proof fn lemma_wrong_piece_is_rejected(
    bytes: Seq<u8>,
    piece: Seq<u8>,
    more: Seq<u8>,
)
    requires
        underway(bytes),
        piece.len() == piece_after(bytes),
        piece_error(bytes, piece) is Some,
    ensures
        decoded(bytes + piece + more) == Err::<Seq<Record>, ReferenceFileError>(
            piece_error(bytes, piece)->0,
        ),
{
    let file = bytes + piece + more;
    if bytes.len() == 0 {
        assert(file.take(8) =~= piece);
    } else {
        assert(file.take(8) =~= bytes);
        assert(file.subrange(8, 16) =~= piece);
    }
}

/// A file that ends inside a piece is rejected as truncated.
pub proof fn lemma_short_piece_is_truncated(bytes: Seq<u8>, rest: Seq<u8>)
    requires
        underway(bytes),
        rest.len() < piece_after(bytes),
    ensures
        decoded(bytes + rest) == Err::<Seq<Record>, ReferenceFileError>(
            ReferenceFileError::Truncated,
        ),
{
    let file = bytes + rest;
    if bytes.len() >= 8 {
        assert(file.take(8) =~= bytes.take(8));
        assert(magic().take(8) =~= magic());
    }
    if bytes.len() >= 16 {
        assert(file.subrange(8, 16) =~= bytes.subrange(8, 16));
        let done = (bytes.len() - 16) / 29;
        assert(bytes.len() == 16 + 29 * done);
        assert(done < le_value(bytes.subrange(8, 16)));
    }
}

/// Reads the records from the bytes of a file.
pub fn load_references_bin(bytes: &[u8]) -> (outcome: Result<ReferenceDataset, ReferenceFileError>)
    ensures
        match outcome {
            Ok(dataset) => dataset.well_formed() && decoded(bytes@) == Ok::<
                Seq<Record>,
                ReferenceFileError,
            >(dataset@),
            Err(error) => decoded(bytes@) == Err::<Seq<Record>, ReferenceFileError>(error),
        },
{
    let length: usize = bytes.len();
    if length < FIELD_BYTES {
        return Err(ReferenceFileError::Truncated);
    }
    let head: &[u8] = vstd::slice::slice_subrange(bytes, 0, FIELD_BYTES);
    assert(head@ =~= bytes@.take(8));
    match check_magic(head) {
        Ok(_) => {},
        Err(error) => return Err(error),
    }
    if length < 2 * FIELD_BYTES {
        return Err(ReferenceFileError::Truncated);
    }
    let field: &[u8] = vstd::slice::slice_subrange(bytes, FIELD_BYTES, 2 * FIELD_BYTES);
    let count: usize = match read_count(field) {
        Ok(count) => count,
        Err(error) => return Err(error),
    };
    if (length - 2 * FIELD_BYTES) / RECORD_BYTES < count {
        return Err(ReferenceFileError::Truncated);
    }
    let mut dataset: ReferenceDataset = ReferenceDataset::with_room_for(count);
    let mut record: usize = 0;
    while record < count
        invariant
            record <= count,
            length == bytes@.len(),
            16 + 29 * count <= length,
            dataset.well_formed(),
            dataset@ == records_in(bytes@, record as nat),
        decreases count - record,
    {
        let start: usize = 2 * FIELD_BYTES + RECORD_BYTES * record;
        let slice: &[u8] = vstd::slice::slice_subrange(bytes, start, start + RECORD_BYTES);
        push_encoded_record(&mut dataset, slice);
        record = record + 1;
        proof {
            assert(dataset@ =~= records_in(bytes@, record as nat));
        }
    }
    Ok(dataset)
}

/// Appends a number of eight bytes, the least significant first.
fn push_count(bytes: &mut Vec<u8>, count: u64)
    ensures
        final(bytes)@ == old(bytes)@ + le_bytes(count as nat, 8),
{
    let mut rest: u64 = count;
    let mut left: usize = FIELD_BYTES;
    assert(old(bytes)@ + le_bytes(count as nat, 8) =~= bytes@ + le_bytes(rest as nat, 8));
    while left > 0
        invariant
            left <= FIELD_BYTES,
            old(bytes)@ + le_bytes(count as nat, 8) == bytes@ + le_bytes(rest as nat, left as nat),
        decreases left,
    {
        let ghost before = bytes@;
        let ghost value = rest as nat;
        bytes.push((rest % 256) as u8);
        rest = rest / 256;
        proof {
            assert(before + le_bytes(value, left as nat) =~= bytes@ + le_bytes(
                rest as nat,
                (left - 1) as nat,
            ));
        }
        left = left - 1;
    }
    assert(bytes@ + le_bytes(rest as nat, 0) =~= bytes@);
}

/// Appends the bytes of one record.
fn push_record(bytes: &mut Vec<u8>, vector: &[i16; VECTOR_DIMENSIONS], label: u8)
    requires
        label == 0 || label == 1,
    ensures
        final(bytes)@ == old(bytes)@ + record_bytes(
            Record { vector: vector@, fraud: label != 0 },
        ),
{
    let ghost record = Record { vector: vector@, fraud: label != 0 };
    let mut dimension: usize = 0;
    while dimension < VECTOR_DIMENSIONS
        invariant
            dimension <= VECTOR_DIMENSIONS,
            record.vector == vector@,
            bytes@ == old(bytes)@ + record_bytes(record).take(2 * dimension),
        decreases VECTOR_DIMENSIONS - dimension,
    {
        let value: i16 = vector[dimension];
        let unsigned: i32 = if value < 0 {
            value as i32 + 65_536
        } else {
            value as i32
        };
        bytes.push((unsigned % 256) as u8);
        bytes.push((unsigned / 256) as u8);
        proof {
            assert(value as int % 65_536 == unsigned);
            let all = record_bytes(record);
            let k = 2 * dimension as int;
            assert(all[k] == low_byte(value));
            assert((k + 1) % 2 == 1 && (k + 1) / 2 == dimension);
            assert(all[k + 1] == high_byte(value));
            assert(all.take(k + 2) =~= all.take(k).push(all[k]).push(all[k + 1]));
        }
        dimension = dimension + 1;
    }
    bytes.push(label);
    proof {
        let all = record_bytes(record);
        assert(all.take(28).push(all[28]) =~= all);
    }
}

/// Appends what comes before the records of a dataset in its file: the magic
/// number and the record count.
pub fn append_header(bytes: &mut Vec<u8>, dataset: &ReferenceDataset)
    ensures
        final(bytes)@ == old(bytes)@ + header(dataset@.len()),
{
    bytes.push(0x52);
    bytes.push(0x46);
    bytes.push(0x56);
    bytes.push(0x45);
    bytes.push(0x43);
    bytes.push(0x30);
    bytes.push(0x31);
    bytes.push(0x00);
    assert(bytes@ =~= old(bytes)@ + magic());
    push_count(bytes, dataset.len() as u64);
    assert(bytes@ =~= old(bytes)@ + header(dataset@.len()));
}

/// Appends the bytes of one record of a dataset.
pub fn append_record(bytes: &mut Vec<u8>, dataset: &ReferenceDataset, record: usize)
    requires
        dataset.well_formed(),
        record < dataset@.len(),
    ensures
        final(bytes)@ == old(bytes)@ + record_bytes(dataset@[record as int]),
{
    let labels: &Vec<u8> = dataset.labels();
    let vector: [i16; VECTOR_DIMENSIONS] = dataset.vector_at(record);
    let label: u8 = labels[record];
    push_record(bytes, &vector, label);
    assert((Record { vector: vector@, fraud: label != 0 }) =~= dataset@[record as int]);
}

/// The bytes of a file with the records of a dataset.
pub fn save_references_bin(dataset: &ReferenceDataset) -> (bytes: Vec<u8>)
    requires
        dataset.well_formed(),
    ensures
        bytes@ == encoded(dataset@),
{
    let count: usize = dataset.len();
    let mut bytes: Vec<u8> = Vec::new();
    append_header(&mut bytes, dataset);
    let mut record: usize = 0;
    proof {
        lemma_pieces_make_the_file(dataset@);
        assert(bytes@ =~= header(count as nat));
    }
    while record < count
        invariant
            record <= count,
            count == dataset@.len(),
            dataset.well_formed(),
            bytes@ == encoded_so_far(dataset@, record as int),
            forall|i: int|
                0 <= i < count ==> #[trigger] encoded_so_far(dataset@, i + 1) == encoded_so_far(
                    dataset@,
                    i,
                ) + record_bytes(dataset@[i]),
        decreases count - record,
    {
        append_record(&mut bytes, dataset, record);
        assert(encoded_so_far(dataset@, record + 1) == bytes@);
        record = record + 1;
    }
    bytes
}

/// Written one after the other, the header and the bytes of each record make
/// the file.
pub proof fn lemma_pieces_make_the_file(records: Seq<Record>)
    ensures
        encoded_so_far(records, 0) == header(records.len()),
        forall|i: int|
            0 <= i < records.len() ==> #[trigger] encoded_so_far(records, i + 1)
                == encoded_so_far(records, i) + record_bytes(records[i]),
        encoded_so_far(records, records.len() as int) == encoded(records),
{
    assert(encoded_so_far(records, 0) =~= header(records.len()));
    assert(records.take(records.len() as int) =~= records);
    assert forall|i: int| 0 <= i < records.len() implies #[trigger] encoded_so_far(records, i + 1)
        == encoded_so_far(records, i) + record_bytes(records[i]) by {
        lemma_body_grows(records, i);
        assert(encoded_so_far(records, i + 1) =~= encoded_so_far(records, i) + record_bytes(
            records[i],
        ));
    }
}

/// One more record adds its bytes to the body.
proof fn lemma_body_grows(records: Seq<Record>, count: int)
    requires
        0 <= count < records.len(),
    ensures
        body_bytes(records.take(count + 1)) == body_bytes(records.take(count)) + record_bytes(
            records[count],
        ),
{
    let shorter = records.take(count);
    let longer = records.take(count + 1);
    assert forall|k: int| 0 <= k < 29 * (count + 1) implies #[trigger] body_bytes(longer)[k] == (
    body_bytes(shorter) + record_bytes(records[count]))[k] by {
        if k < 29 * count {
            assert(0 <= k / 29 < count);
            assert(longer[k / 29] == shorter[k / 29]);
        } else {
            assert(k / 29 == count);
            assert(k % 29 == k - 29 * count);
        }
    }
    assert(body_bytes(longer) =~= body_bytes(shorter) + record_bytes(records[count]));
}

/// Bytes written for a number read back as that number.
pub(crate) proof fn lemma_count_round_trip(value: nat, width: nat)
    requires
        value < pow2(8 * width),
    ensures
        le_bytes(value, width).len() == width,
        le_value(le_bytes(value, width)) == value,
    decreases width,
{
    lemma2_to64();
    if width > 0 {
        let rest = (width - 1) as nat;
        lemma_pow2_adds(8, 8 * rest);
        assert(8 + 8 * rest == 8 * width);
        assert(value / 256 < pow2(8 * rest)) by (nonlinear_arith)
            requires
                value < 256 * pow2(8 * rest),
        ;
        lemma_count_round_trip(value / 256, rest);
        assert(le_bytes(value, width).skip(1) =~= le_bytes(value / 256, rest));
    }
}

/// Bytes read as a number are written again for that number.
proof fn lemma_bytes_round_trip(bytes: Seq<u8>)
    ensures
        le_bytes(le_value(bytes), bytes.len()) == bytes,
    decreases bytes.len(),
{
    if bytes.len() > 0 {
        let rest = bytes.skip(1);
        lemma_bytes_round_trip(rest);
        assert(le_value(bytes) % 256 == bytes[0]);
        assert(le_value(bytes) / 256 == le_value(rest));
        assert(seq![bytes[0]] + rest =~= bytes);
    }
    assert(le_bytes(le_value(bytes), bytes.len()) =~= bytes);
}

/// The layout of a file: where its parts lie.
proof fn lemma_layout(records: Seq<Record>)
    requires
        records.len() <= usize::MAX as nat / 14,
    ensures
        ({
            let bytes = encoded(records);
            &&& bytes.len() == 16 + 29 * records.len()
            &&& bytes.take(8) == magic()
            &&& bytes.subrange(8, 16) == le_bytes(records.len(), 8)
            &&& le_value(bytes.subrange(8, 16)) == records.len()
            &&& forall|i: int|
                0 <= i < records.len() ==> #[trigger] bytes.subrange(16 + 29 * i, 16 + 29 * i + 29)
                    == record_bytes(records[i])
        }),
{
    lemma2_to64();
    let bytes = encoded(records);
    lemma_count_round_trip(records.len(), 8);
    assert(bytes.take(8) =~= magic());
    assert(bytes.subrange(8, 16) =~= le_bytes(records.len(), 8));
    assert forall|i: int| 0 <= i < records.len() implies #[trigger] bytes.subrange(
        16 + 29 * i,
        16 + 29 * i + 29,
    ) == record_bytes(records[i]) by {
        assert forall|k: int| 0 <= k < 29 implies #[trigger] bytes.subrange(
            16 + 29 * i,
            16 + 29 * i + 29,
        )[k] == record_bytes(records[i])[k] by {
            assert((29 * i + k) / 29 == i);
            assert((29 * i + k) % 29 == k);
        }
        assert(bytes.subrange(16 + 29 * i, 16 + 29 * i + 29) =~= record_bytes(records[i]));
    }
}

/// The bytes of a record read back as that record.
proof fn lemma_record_round_trip(record: Record)
    requires
        whole(record),
    ensures
        record_of(record_bytes(record)) == record,
{
    let bytes = record_bytes(record);
    let back = record_of(bytes);
    assert forall|d: int| 0 <= d < 14 implies #[trigger] back.vector[d] == record.vector[d] by {
        assert((2 * d) % 2 == 0 && (2 * d) / 2 == d);
        assert((2 * d + 1) % 2 == 1 && (2 * d + 1) / 2 == d);
        assert(bytes[2 * d] == low_byte(record.vector[d]));
        assert(bytes[2 * d + 1] == high_byte(record.vector[d]));
    }
    assert(back =~= record);
}

/// A file reads back as the records that were written.
pub proof fn lemma_file_round_trip(records: Seq<Record>)
    requires
        records.len() <= usize::MAX as nat / 14,
        forall|i: int| 0 <= i < records.len() ==> whole(#[trigger] records[i]),
    ensures
        decoded(encoded(records)) == Ok::<Seq<Record>, ReferenceFileError>(records),
{
    lemma_layout(records);
    let bytes = encoded(records);
    let back = records_in(bytes, records.len());
    assert forall|i: int| 0 <= i < records.len() implies #[trigger] back[i] == records[i] by {
        assert(whole(records[i]));
        lemma_record_round_trip(records[i]);
        assert(bytes.subrange(16 + 29 * i, 16 + 29 * i + 29) == record_bytes(records[i]));
    }
    assert(back =~= records);
}

/// What is saved of a dataset loads as the same records.
pub proof fn lemma_saved_dataset_loads(dataset: &ReferenceDataset)
    requires
        dataset.well_formed(),
    ensures
        decoded(encoded(dataset@)) == Ok::<Seq<Record>, ReferenceFileError>(dataset@),
{
    dataset.lemma_records_are_whole();
    lemma_file_round_trip(dataset@);
}

/// Bytes that read as records, with no byte to spare and labels of zero and
/// one only, are the bytes written for those records.
pub proof fn lemma_records_round_trip(bytes: Seq<u8>, records: Seq<Record>)
    requires
        decoded(bytes) == Ok::<Seq<Record>, ReferenceFileError>(records),
        bytes.len() == 16 + 29 * records.len(),
        forall|i: int| 0 <= i < records.len() ==> #[trigger] bytes[16 + 29 * i + 28] <= 1,
    ensures
        encoded(records) == bytes,
{
    let count = records.len();
    lemma_layout(records);
    lemma_bytes_round_trip(bytes.subrange(8, 16));
    let again = encoded(records);
    assert forall|k: int| 0 <= k < bytes.len() implies #[trigger] again[k] == bytes[k] by {
        if k < 8 {
            assert(again.take(8)[k] == bytes.take(8)[k]);
        } else if k < 16 {
            assert(again.subrange(8, 16)[k - 8] == bytes.subrange(8, 16)[k - 8]);
        } else {
            let i = (k - 16) / 29;
            let r = (k - 16) % 29;
            assert(0 <= i < count && k == 16 + 29 * i + r);
            let piece = bytes.subrange(16 + 29 * i, 16 + 29 * i + 29);
            assert(records[i] == record_of(piece));
            assert(again.subrange(16 + 29 * i, 16 + 29 * i + 29)[r] == record_bytes(
                records[i],
            )[r]);
            if r == 28 {
                assert(bytes[16 + 29 * i + 28] <= 1);
                assert(piece[28] == bytes[k]);
            } else {
                let d = r / 2;
                assert(records[i].vector[d] == feature_of(piece[2 * d], piece[2 * d + 1]));
                assert(piece[r] == bytes[k]);
            }
        }
    }
    assert(again =~= bytes);
}

/// Bytes after the last record do not matter.
pub proof fn lemma_trailing_bytes_are_ignored(bytes: Seq<u8>, more: Seq<u8>)
    requires
        decoded(bytes) is Ok,
    ensures
        decoded(bytes + more) == decoded(bytes),
{
    let longer = bytes + more;
    assert(longer.take(8) =~= bytes.take(8));
    assert(longer.subrange(8, 16) =~= bytes.subrange(8, 16));
    let count = le_value(bytes.subrange(8, 16));
    let a = decoded(longer)->Ok_0;
    let b = decoded(bytes)->Ok_0;
    assert forall|i: int| 0 <= i < count implies #[trigger] a[i] == b[i] by {
        assert(longer.subrange(16 + 29 * i, 16 + 29 * i + 29) =~= bytes.subrange(
            16 + 29 * i,
            16 + 29 * i + 29,
        ));
    }
    assert(a =~= b);
}

/// A file that lost bytes at its end is rejected as truncated.
pub proof fn lemma_cut_file_is_truncated(records: Seq<Record>, kept: int)
    requires
        records.len() <= usize::MAX as nat / 14,
        0 <= kept < encoded(records).len(),
    ensures
        decoded(encoded(records).take(kept)) == Err::<Seq<Record>, ReferenceFileError>(
            ReferenceFileError::Truncated,
        ),
{
    lemma_layout(records);
    let bytes = encoded(records);
    let cut = bytes.take(kept);
    if kept >= 8 {
        assert(cut.take(8) =~= bytes.take(8));
        if kept >= 16 {
            assert(cut.subrange(8, 16) =~= bytes.subrange(8, 16));
        }
    }
}

} // verus!
