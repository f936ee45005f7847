use rinha_fraude_vetorial::dataset::{ReferenceDataset, ReferenceLabel};
use rinha_fraude_vetorial::decision::{decision_from_fraud_count, FraudResponse};
use rinha_fraude_vetorial::float32::Float32;
use rinha_fraude_vetorial::quantize::{quantize_vector, VECTOR_DIMENSIONS};
use rinha_fraude_vetorial::reference_file::{
    append_header, append_record, check_magic, load_references_bin, push_encoded_record,
    read_count, save_references_bin, ReferenceFileError, ReferenceReader,
};
use rinha_fraude_vetorial::sampling::{partial_fisher_yates, SplitMix64};
use rinha_fraude_vetorial::search::squared_distance_i16;

fn single(value: f32) -> Float32 {
    Float32 { bits: value.to_bits() }
}

fn singles(values: [f32; VECTOR_DIMENSIONS]) -> [Float32; VECTOR_DIMENSIONS] {
    values.map(single)
}

fn small_dataset() -> ReferenceDataset {
    let mut dataset = ReferenceDataset::with_capacity(3);
    dataset.push_quantized_vector(&[1, -1, 256, -256, 32_767, -32_768, 0, 7, 8, 9, 10, 11, 12, 13], 1);
    dataset.push_quantized_vector(&[0; VECTOR_DIMENSIONS], 0);
    dataset.push_quantized_vector(&[-10_000; VECTOR_DIMENSIONS], 9);
    dataset
}

#[test]
fn stratified_subsample_balances_classes_and_is_deterministic() {
    let mut dataset = ReferenceDataset::with_capacity(1_000);
    for index in 0..600 {
        let mut vector = [0.0; VECTOR_DIMENSIONS];
        vector[0] = (index as f32) / 600.0;
        dataset.push_float_vector(&singles(vector), 1);
    }
    for index in 0..400 {
        let mut vector = [0.0; VECTOR_DIMENSIONS];
        vector[0] = (index as f32) / 400.0;
        dataset.push_float_vector(&singles(vector), 0);
    }

    let first = dataset.stratified_subsample(50, 42);
    let second = dataset.stratified_subsample(50, 42);
    let third = dataset.stratified_subsample(50, 99);

    assert_eq!(first.len(), 100);
    let fraud_count: usize =
        first.labels().iter().map(|&label| (label != 0) as usize).sum();
    assert_eq!(fraud_count, 50);
    assert_eq!(first.vectors(), second.vectors());
    assert_ne!(first.vectors(), third.vectors());
}

#[test]
fn stratified_subsample_caps_at_available_records_per_class() {
    let mut dataset = ReferenceDataset::with_capacity(20);
    for _ in 0..5 {
        dataset.push_float_vector(&singles([0.1; VECTOR_DIMENSIONS]), 1);
    }
    for _ in 0..15 {
        dataset.push_float_vector(&singles([0.2; VECTOR_DIMENSIONS]), 0);
    }

    let sampled = dataset.stratified_subsample(10, 7);
    assert_eq!(sampled.len(), 5 + 10);
}

#[test]
fn top5_neighbors_are_kept_without_full_sort() {
    let mut dataset = ReferenceDataset::with_capacity(6);
    for (value, label) in [
        (0.90, 0),
        (0.40, 1),
        (0.10, 1),
        (0.30, 0),
        (0.20, 1),
        (0.50, 0),
    ] {
        let mut vector = [0.0; VECTOR_DIMENSIONS];
        vector[0] = value;
        dataset.push_float_vector(&singles(vector), label);
    }

    let query = quantize_vector(&singles([0.0; VECTOR_DIMENSIONS]));
    let fraud_count = dataset.fraud_count_top5(&query).unwrap();

    assert_eq!(fraud_count, 3);
    assert_eq!(
        decision_from_fraud_count(fraud_count),
        FraudResponse {
            approved: false,
            fraud_score: single(0.6)
        }
    );
}

#[test]
fn fewer_than_five_records_have_no_neighbours() {
    let mut dataset = ReferenceDataset::with_capacity(0);
    let query = [0i16; VECTOR_DIMENSIONS];
    for record in 0..5 {
        assert_eq!(dataset.len(), record);
        assert_eq!(dataset.is_empty(), record == 0);
        assert_eq!(dataset.memory_bytes(), 29 * record);
        assert_eq!(dataset.top5_labels(&query), None);
        assert_eq!(dataset.fraud_count_top5(&query), None);
        dataset.push_quantized_vector(&query, 1);
    }
    assert_eq!(dataset.top5_labels(&query), Some([1; 5]));
    assert_eq!(dataset.fraud_count_top5(&query), Some(5));
}

#[test]
fn a_nearer_record_replaces_the_first_of_the_farthest() {
    let mut dataset = ReferenceDataset::with_capacity(7);
    for (value, label) in [(3, 1), (9, 0), (9, 1), (2, 0), (5, 1), (9, 1), (1, 1)] {
        let mut vector = [0i16; VECTOR_DIMENSIONS];
        vector[13] = value;
        dataset.push_quantized_vector(&vector, label);
    }
    let query = [0i16; VECTOR_DIMENSIONS];
    // The sixth record ties with the farthest and stays out; the last one takes
    // the place of the second.
    assert_eq!(dataset.top5_labels(&query), Some([1, 1, 1, 0, 1]));
    assert_eq!(dataset.fraud_count_top5(&query), Some(4));
}

#[test]
fn the_order_of_records_does_not_change_the_neighbours() {
    let mut forward = ReferenceDataset::with_capacity(40);
    let mut backward = ReferenceDataset::with_capacity(40);
    let record = |index: i16| {
        let mut vector = [0i16; VECTOR_DIMENSIONS];
        vector[2] = (index * 17) % 41;
        (vector, u8::from(index % 3 == 0))
    };
    for index in 0..40 {
        let (vector, label) = record(index);
        forward.push_quantized_vector(&vector, label);
        let (vector, label) = record(39 - index);
        backward.push_quantized_vector(&vector, label);
    }
    let query = [0i16; VECTOR_DIMENSIONS];
    assert_eq!(forward.fraud_count_top5(&query), backward.fraud_count_top5(&query));
}

#[test]
fn distances_cover_the_whole_range() {
    let low = [i16::MIN; VECTOR_DIMENSIONS];
    let high = [i16::MAX; VECTOR_DIMENSIONS];
    assert_eq!(squared_distance_i16(&low, &high), 14 * 65_535 * 65_535);
    assert_eq!(squared_distance_i16(&high, &low), 14 * 65_535 * 65_535);
    assert_eq!(squared_distance_i16(&low, &low), 0);
}

#[test]
fn any_label_but_zero_marks_fraud() {
    let dataset = small_dataset();
    assert_eq!(dataset.labels(), &vec![1, 0, 1]);
    assert_eq!(dataset.vectors().len(), 3 * VECTOR_DIMENSIONS);
    assert_eq!(dataset.vector_at(2), [-10_000; VECTOR_DIMENSIONS]);
    assert_eq!(ReferenceLabel::Fraud.as_u8(), 1);
    assert_eq!(ReferenceLabel::Legit.as_u8(), 0);
}

#[test]
fn generator_yields_the_known_sequence() {
    let mut rng = SplitMix64::new(0);
    assert_eq!(rng.next_u64(), 0xE220_A839_7B1D_CDAF);
    assert_eq!(rng.next_u64(), 0x6E78_9E6A_A1B9_65F4);
    assert_eq!(rng.next_u64(), 0x06C4_5D18_8009_454F);
}

#[test]
fn shuffling_permutes_and_draws_once_per_slot() {
    let mut indices: Vec<usize> = (0..100).collect();
    let mut rng = SplitMix64::new(5);
    partial_fisher_yates(&mut indices, 30, &mut rng);
    let mut expected = SplitMix64::new(5);
    for _ in 0..30 {
        expected.next_u64();
    }
    assert_eq!(rng.state, expected.state);
    assert_ne!(indices, (0..100).collect::<Vec<usize>>());
    indices.sort();
    assert_eq!(indices, (0..100).collect::<Vec<usize>>());
}

#[test]
fn a_sample_of_everything_holds_every_record_once() {
    let mut dataset = ReferenceDataset::with_capacity(9);
    for index in 0..9i16 {
        dataset.push_quantized_vector(&[index; VECTOR_DIMENSIONS], u8::from(index % 2 == 0));
    }
    let sample = dataset.stratified_subsample(100, 1);
    assert_eq!(sample.labels(), &vec![1, 1, 1, 1, 1, 0, 0, 0, 0]);
    let mut seen: Vec<i16> = (0..9).map(|record| sample.vector_at(record)[0]).collect();
    seen.sort();
    assert_eq!(seen, (0..9).collect::<Vec<i16>>());
    assert_eq!(dataset.stratified_subsample(0, 1).len(), 0);
}

#[test]
fn a_saved_file_loads_as_the_same_records() {
    let dataset = small_dataset();
    let bytes = save_references_bin(&dataset);
    assert_eq!(&bytes[..16], b"RFVEC01\0\x03\0\0\0\0\0\0\0");
    assert_eq!(&bytes[16..28], &[1, 0, 255, 255, 0, 1, 0, 255, 255, 127, 0, 128]);
    assert_eq!(bytes[16 + 28], 1);
    assert_eq!(bytes.len(), 16 + 3 * 29);
    let loaded = load_references_bin(&bytes).unwrap();
    assert_eq!(loaded.vectors(), dataset.vectors());
    assert_eq!(loaded.labels(), dataset.labels());
    assert_eq!(save_references_bin(&loaded), bytes);
}

#[test]
fn bytes_after_the_last_record_do_not_matter() {
    let dataset = small_dataset();
    let mut bytes = save_references_bin(&dataset);
    bytes.extend_from_slice(b"more");
    let loaded = load_references_bin(&bytes).unwrap();
    assert_eq!(loaded.vectors(), dataset.vectors());
    assert_eq!(loaded.labels(), dataset.labels());
}

#[test]
fn a_cut_file_is_truncated() {
    let bytes = save_references_bin(&small_dataset());
    for kept in 0..bytes.len() {
        assert_eq!(
            load_references_bin(&bytes[..kept]).err(),
            Some(ReferenceFileError::Truncated)
        );
    }
}

#[test]
fn a_wrong_file_is_rejected() {
    let mut bytes = save_references_bin(&small_dataset());
    bytes[7] = 1;
    assert_eq!(load_references_bin(&bytes).err(), Some(ReferenceFileError::InvalidMagic));
    assert_eq!(load_references_bin(&bytes[..8]).err(), Some(ReferenceFileError::InvalidMagic));
    bytes[7] = 0;
    bytes[15] = 255;
    assert_eq!(load_references_bin(&bytes).err(), Some(ReferenceFileError::TooManyRecords));
}

#[test]
fn a_file_can_be_read_piece_by_piece() {
    let dataset = small_dataset();
    let bytes = save_references_bin(&dataset);
    assert_eq!(check_magic(&bytes[..8]), Ok(()));
    assert_eq!(check_magic(&bytes[8..16]), Err(ReferenceFileError::InvalidMagic));
    let count = read_count(&bytes[8..16]).unwrap();
    assert_eq!(count, 3);
    assert_eq!(read_count(&[255; 8]), Err(ReferenceFileError::TooManyRecords));
    let mut loaded = ReferenceDataset::with_capacity(count);
    for record in 0..count {
        push_encoded_record(&mut loaded, &bytes[16 + 29 * record..16 + 29 * record + 29]);
    }
    assert_eq!(loaded.vectors(), dataset.vectors());
    assert_eq!(loaded.labels(), dataset.labels());
}

#[test]
fn a_label_byte_other_than_zero_loads_as_fraud() {
    let mut bytes = save_references_bin(&small_dataset());
    bytes[16 + 29 + 28] = 200;
    let loaded = load_references_bin(&bytes).unwrap();
    assert_eq!(loaded.labels(), &vec![1, 1, 1]);
}

#[test]
fn file_errors_have_words() {
    assert_eq!(ReferenceFileError::Truncated.message(), "failed to fill whole buffer");
    assert_eq!(
        ReferenceFileError::InvalidMagic.message(),
        "invalid references.bin magic header"
    );
    assert_eq!(
        ReferenceFileError::TooManyRecords.message(),
        "references.bin record count is too large for this platform"
    );
}

#[test]
fn a_reader_asks_for_one_piece_after_the_other() {
    let dataset = small_dataset();
    let bytes = save_references_bin(&dataset);
    let mut reader = ReferenceReader::new();
    let mut pieces = Vec::new();
    let mut at = 0;
    while reader.wanted() > 0 {
        let piece = &bytes[at..at + reader.wanted()];
        pieces.push(piece.len());
        at += piece.len();
        assert_eq!(reader.feed(piece), Ok(()));
    }
    assert_eq!(pieces, vec![8, 8, 29, 29, 29]);
    assert_eq!(at, bytes.len());
    let loaded = reader.finish();
    assert_eq!(loaded.vectors(), dataset.vectors());
    assert_eq!(loaded.labels(), dataset.labels());
}

#[test]
fn a_reader_rejects_a_wrong_piece() {
    let mut reader = ReferenceReader::new();
    assert_eq!(reader.feed(b"RFVEC02\0"), Err(ReferenceFileError::InvalidMagic));
    assert_eq!(reader.wanted(), 8);
    assert_eq!(reader.feed(b"RFVEC01\0"), Ok(()));
    assert_eq!(reader.feed(&[255; 8]), Err(ReferenceFileError::TooManyRecords));
    assert_eq!(reader.feed(&[0; 8]), Ok(()));
    assert_eq!(reader.wanted(), 0);
    assert!(reader.finish().is_empty());
}

#[test]
fn only_a_tie_between_classes_depends_on_the_order() {
    let line = |records: &[(i16, u8)]| {
        let mut dataset = ReferenceDataset::with_capacity(records.len());
        for &(first, label) in records {
            let mut vector = [0i16; VECTOR_DIMENSIONS];
            vector[0] = first;
            dataset.push_quantized_vector(&vector, label);
        }
        dataset.fraud_count_top5(&[0; VECTOR_DIMENSIONS])
    };
    let alike = [(1, 0), (2, 1), (3, 0), (7, 1), (7, 1), (-7, 1), (9, 0)];
    let mut reversed = alike;
    reversed.reverse();
    assert_eq!(line(&alike), Some(3));
    assert_eq!(line(&reversed), Some(3));
    let mixed = [(1, 0), (2, 1), (3, 0), (4, 0), (7, 1), (7, 0)];
    let mut exchanged = mixed;
    exchanged.swap(4, 5);
    assert_eq!(line(&mixed), Some(2));
    assert_eq!(line(&exchanged), Some(1));
}

#[test]
fn shuffling_keeps_repeated_values() {
    let mut values: Vec<usize> = vec![4, 4, 4, 1, 1, 9];
    partial_fisher_yates(&mut values, 6, &mut SplitMix64::new(3));
    values.sort();
    assert_eq!(values, vec![1, 1, 4, 4, 4, 9]);
}

#[test]
fn each_record_takes_29_bytes() {
    let mut dataset = ReferenceDataset::with_capacity(100_000);
    for _ in 0..100_000 {
        dataset.push_quantized_vector(&[1; VECTOR_DIMENSIONS], 0);
    }
    assert_eq!(dataset.memory_bytes(), 2_900_000);
}

#[test]
fn a_file_can_be_written_piece_by_piece() {
    let dataset = small_dataset();
    let mut bytes = vec![];
    append_header(&mut bytes, &dataset);
    assert_eq!(bytes, b"RFVEC01\0\x03\0\0\0\0\0\0\0");
    for record in 0..dataset.len() {
        append_record(&mut bytes, &dataset, record);
        assert_eq!(bytes.len(), 16 + 29 * (record + 1));
    }
    assert_eq!(bytes, save_references_bin(&dataset));
}
