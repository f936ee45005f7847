//! Where each number lies in a reference file, byte by byte.
use crate::dataset::{whole, Record};
use crate::reference_file::{
    body_bytes, decoded, encoded, header, le_bytes, le_value, lemma_count_round_trip, magic,
    piece_after, piece_error, record_bytes, records_in, underway, ReferenceFileError,
};
use vstd::arithmetic::power2::lemma2_to64;
use vstd::prelude::*;

verus! {

/// Whether bytes start with the letters "RFVEC01" and a zero byte.
pub open spec fn starts_with_magic(bytes: Seq<u8>) -> bool {
    &&& bytes.len() >= 8
    &&& bytes[0] == 'R' as u8
    &&& bytes[1] == 'F' as u8
    &&& bytes[2] == 'V' as u8
    &&& bytes[3] == 'E' as u8
    &&& bytes[4] == 'C' as u8
    &&& bytes[5] == '0' as u8
    &&& bytes[6] == '1' as u8
    &&& bytes[7] == 0
}

/// The number in eight bytes from a place on, the least significant first.
pub open spec fn number_at(bytes: Seq<u8>, at: int) -> int {
    bytes[at] + 0x100 * bytes[at + 1] + 0x1_0000 * bytes[at + 2] + 0x100_0000 * bytes[at + 3]
        + 0x1_0000_0000 * bytes[at + 4] + 0x100_0000_0000 * bytes[at + 5] + 0x1_0000_0000_0000
        * bytes[at + 6] + 0x100_0000_0000_0000 * bytes[at + 7]
}

/// Whether two bytes from a place on are a feature in two's complement, the less
/// significant first.
pub open spec fn is_feature_at(bytes: Seq<u8>, at: int, value: i16) -> bool {
    bytes[at] + 256 * bytes[at + 1] == if value < 0 {
        value + 65_536
    } else {
        value as int
    }
}

/// Eight bytes stand for the sum of their values.
proof fn lemma_number_of_eight(bytes: Seq<u8>)
    requires
        bytes.len() == 8,
    ensures
        le_value(bytes) == number_at(bytes, 0),
{
    let b1 = bytes.skip(1);
    let b2 = b1.skip(1);
    let b3 = b2.skip(1);
    let b4 = b3.skip(1);
    let b5 = b4.skip(1);
    let b6 = b5.skip(1);
    let b7 = b6.skip(1);
    let b8 = b7.skip(1);
    assert(le_value(b8) == 0);
    assert(le_value(b7) == bytes[7]);
    assert(le_value(b6) == bytes[6] + 256 * le_value(b7));
    assert(le_value(b5) == bytes[5] + 256 * le_value(b6));
    assert(le_value(b4) == bytes[4] + 256 * le_value(b5));
    assert(le_value(b3) == bytes[3] + 256 * le_value(b4));
    assert(le_value(b2) == bytes[2] + 256 * le_value(b3));
    assert(le_value(b1) == bytes[1] + 256 * le_value(b2));
    assert(le_value(bytes) == bytes[0] + 256 * le_value(b1));
}

/// The header of a file: the magic number, then the record count.
pub proof fn lemma_header_layout(count: nat)
    requires
        count <= usize::MAX,
    ensures
        header(count).len() == 16,
        starts_with_magic(header(count)),
        number_at(header(count), 8) == count,
{
    lemma2_to64();
    lemma_count_round_trip(count, 8);
    let field = le_bytes(count, 8);
    lemma_number_of_eight(field);
    assert(forall|k: int| 0 <= k < 8 ==> header(count)[8 + k] == #[trigger] field[k]);
    assert(header(count)[8] == field[0] && header(count)[9] == field[1] && header(count)[10]
        == field[2] && header(count)[11] == field[3] && header(count)[12] == field[4]
        && header(count)[13] == field[5] && header(count)[14] == field[6] && header(count)[15]
        == field[7]);
}

/// A record takes 29 bytes: its features one after the other, then its label.
pub proof fn lemma_record_layout(record: Record)
    requires
        whole(record),
    ensures
        record_bytes(record).len() == 29,
        forall|d: int|
            0 <= d < 14 ==> is_feature_at(
                record_bytes(record),
                2 * d,
                #[trigger] record.vector[d],
            ),
        record_bytes(record)[28] == if record.fraud {
            1u8
        } else {
            0
        },
{
    let bytes = record_bytes(record);
    assert forall|d: int| 0 <= d < 14 implies is_feature_at(
        bytes,
        2 * d,
        #[trigger] record.vector[d],
    ) by {
        assert((2 * d) % 2 == 0 && (2 * d) / 2 == d);
        assert((2 * d + 1) % 2 == 1 && (2 * d + 1) / 2 == d);
        let unsigned = record.vector[d] as int % 65_536;
        assert(unsigned == 256 * (unsigned / 256) + unsigned % 256);
    }
}

/// A file is its header and the bytes of its records, one after the other.
pub proof fn lemma_file_layout(records: Seq<Record>)
    requires
        records.len() <= usize::MAX as nat / 14,
    ensures
        encoded(records).len() == 16 + 29 * records.len(),
        forall|k: int|
            0 <= k < 16 ==> #[trigger] encoded(records)[k] == header(records.len())[k],
        forall|i: int, k: int|
            0 <= i < records.len() && 0 <= k < 29 ==> encoded(records)[16 + 29 * i + k]
                == #[trigger] record_bytes(records[i])[k],
{
    lemma_header_layout(records.len());
    let bytes = encoded(records);
    assert forall|i: int, k: int| 0 <= i < records.len() && 0 <= k < 29 implies bytes[16 + 29 * i
        + k] == #[trigger] record_bytes(records[i])[k] by {
        let at = 29 * i + k;
        assert(at / 29 == i && at % 29 == k);
        assert(bytes[16 + at] == body_bytes(records)[at]);
    }
}

/// When bytes are a file, and what is wrong where they are not. They have to
/// start with the magic number, hold a record count that the platform can
/// address, and hold all records.
pub proof fn lemma_when_bytes_are_a_file(bytes: Seq<u8>)
    ensures
        ({
            let addressable = number_at(bytes, 8) <= usize::MAX / 14;
            &&& decoded(bytes) == Err::<Seq<Record>, ReferenceFileError>(
                ReferenceFileError::InvalidMagic,
            ) <==> bytes.len() >= 8 && !starts_with_magic(bytes)
            &&& decoded(bytes) == Err::<Seq<Record>, ReferenceFileError>(
                ReferenceFileError::TooManyRecords,
            ) <==> bytes.len() >= 16 && starts_with_magic(bytes) && !addressable
            &&& decoded(bytes) is Ok <==> bytes.len() >= 16 && starts_with_magic(bytes)
                && addressable && bytes.len() >= 16 + 29 * number_at(bytes, 8)
        }),
{
    lemma_magic_and_count(bytes);
}

/// The magic number and the record count, as they are read.
proof fn lemma_magic_and_count(bytes: Seq<u8>)
    ensures
        bytes.len() >= 8 ==> (bytes.take(8) == magic() <==> starts_with_magic(bytes)),
        bytes.len() >= 16 ==> le_value(bytes.subrange(8, 16)) == number_at(bytes, 8),
{
    if bytes.len() >= 8 {
        let head = bytes.take(8);
        assert(forall|k: int| 0 <= k < 8 ==> #[trigger] head[k] == bytes[k]);
        if head == magic() {
            assert(head[0] == bytes[0] && head[1] == bytes[1] && head[2] == bytes[2] && head[3]
                == bytes[3] && head[4] == bytes[4] && head[5] == bytes[5] && head[6] == bytes[6]
                && head[7] == bytes[7]);
        }
        if starts_with_magic(bytes) {
            assert(head =~= magic());
        }
    }
    if bytes.len() >= 16 {
        lemma_number_of_eight(bytes.subrange(8, 16));
    }
}

/// What the bytes of a file stand for: as many records as the count says, each
/// with its features and its class. Any label but zero marks fraud.
pub proof fn lemma_what_a_file_holds(bytes: Seq<u8>, i: int)
    requires
        decoded(bytes) is Ok,
        0 <= i < number_at(bytes, 8),
    ensures
        ({
            let records = decoded(bytes)->Ok_0;
            let at = 16 + 29 * i;
            &&& records.len() == number_at(bytes, 8)
            &&& records[i].vector.len() == 14
            &&& forall|d: int|
                0 <= d < 14 ==> is_feature_at(bytes, at + 2 * d, #[trigger] records[i].vector[d])
            &&& records[i].fraud <==> bytes[at + 28] != 0
        }),
{
    lemma_magic_and_count(bytes);
    let records = decoded(bytes)->Ok_0;
    let at = 16 + 29 * i;
    let piece = bytes.subrange(at, at + 29);
    assert(records[i] == records_in(bytes, records.len())[i]);
    assert forall|d: int| 0 <= d < 14 implies is_feature_at(
        bytes,
        at + 2 * d,
        #[trigger] records[i].vector[d],
    ) by {
        assert(piece[2 * d] == bytes[at + 2 * d]);
        assert(piece[2 * d + 1] == bytes[at + 2 * d + 1]);
    }
    assert(piece[28] == bytes[at + 28]);
}

/// Reading piece by piece asks for eight bytes twice, then for 29 for each record,
/// and ends just where the bytes are a whole file.
pub proof fn lemma_pieces_end_with_the_file(bytes: Seq<u8>)
    requires
        underway(bytes),
    ensures
        bytes.len() == 0 || bytes.len() == 8 ==> piece_after(bytes) == 8,
        bytes.len() >= 16 ==> piece_after(bytes) == if bytes.len() < 16 + 29 * number_at(bytes, 8) {
            29nat
        } else {
            0
        },
        piece_after(bytes) == 0 <==> decoded(bytes) is Ok,
{
    lemma_magic_and_count(bytes);
}

/// A piece is wrong just when it is not the magic number at the start of the file,
/// or a record count behind it that cannot be addressed; any other can be read on
/// from.
pub proof fn lemma_when_a_piece_is_wrong(bytes: Seq<u8>, piece: Seq<u8>)
    requires
        underway(bytes),
        piece.len() == piece_after(bytes),
        piece.len() > 0,
    ensures
        piece_error(bytes, piece) == Some(ReferenceFileError::InvalidMagic) <==> bytes.len() == 0
            && !starts_with_magic(piece),
        piece_error(bytes, piece) == Some(ReferenceFileError::TooManyRecords) <==> bytes.len() == 8
            && number_at(piece, 0) > usize::MAX / 14,
        piece_error(bytes, piece) is None ==> underway(bytes + piece),
{
    if piece.len() == 8 {
        lemma_magic_and_count(piece);
        lemma_number_of_eight(piece);
        assert(piece.take(8) =~= piece);
    }
    let after = bytes + piece;
    if piece_error(bytes, piece) is None {
        if bytes.len() == 0 {
            assert(after =~= magic());
        } else if bytes.len() == 8 {
            assert(after.take(8) =~= bytes);
            assert(after.subrange(8, 16) =~= piece);
        } else {
            assert(after.take(8) =~= bytes.take(8));
            assert(after.subrange(8, 16) =~= bytes.subrange(8, 16));
            let done = (bytes.len() - 16) / 29;
            assert(bytes.len() == 16 + 29 * done);
            assert(after.len() == 16 + 29 * (done + 1));
        }
    }
}

} // verus!
