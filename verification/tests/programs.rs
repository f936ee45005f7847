use rinha_fraude_vetorial::decision::decision_from_fraud_count;
use rinha_fraude_vetorial::paths::{ReferenceSource, ResourcePaths};
use rinha_fraude_vetorial::service::{
    flag_value, listen_port, preprocess_input, preprocess_output, response_status, DEFAULT_PORT,
    READY_STATUS,
};
use rinha_fraude_vetorial::timestamp::VectorizeError;
use std::path::{Path, PathBuf};

fn words(words: &[&str]) -> Vec<String> {
    words.iter().map(|word| word.to_string()).collect()
}

#[test]
fn data_files_lie_in_the_data_directory() {
    let paths = ResourcePaths::from_data_dir(PathBuf::from("/srv/rinha"));
    assert_eq!(paths.references_bin, Path::new("/srv/rinha/references.bin"));
    assert_eq!(paths.references_json_gz, Path::new("/srv/rinha/references.json.gz"));
    assert_eq!(paths.mcc_risk, Path::new("/srv/rinha/mcc_risk.json"));
    assert_eq!(paths.normalization, Path::new("/srv/rinha/normalization.json"));
}

#[test]
fn the_data_directory_has_a_default() {
    let paths = ResourcePaths::from_env(None);
    assert_eq!(paths.references_bin, Path::new("data/references.bin"));
    assert_eq!(paths.normalization, Path::new("data/normalization.json"));
    let paths = ResourcePaths::from_env(Some(PathBuf::from("elsewhere")));
    assert_eq!(paths.mcc_risk, Path::new("elsewhere/mcc_risk.json"));
    let paths = ResourcePaths::from_env(Some(PathBuf::new()));
    assert_eq!(paths.mcc_risk, Path::new("mcc_risk.json"));
}

#[test]
fn the_binary_references_come_first() {
    let paths = ResourcePaths::from_env(None);
    assert_eq!(paths.reference_source(true), ReferenceSource::Binary);
    assert_eq!(paths.reference_source(false), ReferenceSource::CompressedJson);
}

#[test]
fn the_port_is_the_one_that_is_set() {
    assert_eq!(DEFAULT_PORT, 8080);
    assert_eq!(listen_port(None), 8080);
    assert_eq!(listen_port(Some("9999")), 9999);
    assert_eq!(listen_port(Some("+9999")), 9999);
    assert_eq!(listen_port(Some("00080")), 80);
    assert_eq!(listen_port(Some("0")), 0);
    assert_eq!(listen_port(Some("65535")), 65_535);
    for wrong in ["65536", "", "+", "-1", "-0", " 80", "80 ", "0x50", "eighty", "99999999999999999999"] {
        assert_eq!(listen_port(Some(wrong)), 8080, "{wrong}");
    }
}

#[test]
fn every_outcome_has_its_status() {
    assert_eq!(READY_STATUS, 204);
    assert_eq!(response_status(&Some(Ok(decision_from_fraud_count(4)))), 200);
    let error = VectorizeError::invalid_timestamp("timestamp", "never");
    assert_eq!(response_status(&Some(Err(error))), 400);
    assert_eq!(response_status(&None), 500);
}

#[test]
fn a_flag_takes_the_argument_behind_it() {
    let args = words(&["preprocess", "--input", "a", "--input", "b", "--output"]);
    assert_eq!(flag_value(&args, "--input"), Some(&"a".to_owned()));
    assert_eq!(flag_value(&args, "--output"), None);
    assert_eq!(flag_value(&args, "a"), Some(&"--input".to_owned()));
    assert_eq!(flag_value(&args, "preprocess"), Some(&"--input".to_owned()));
    assert_eq!(flag_value(&args, "--in"), None);
    assert_eq!(flag_value(&[], "--input"), None);
}

#[test]
fn preparation_has_default_files() {
    let args = words(&["preprocess", "--output", "out.bin"]);
    assert_eq!(preprocess_input(&args), "data/references.json.gz");
    assert_eq!(preprocess_output(&args), "out.bin");
    let args = words(&["preprocess", "--input", "in.json.gz"]);
    assert_eq!(preprocess_input(&args), "in.json.gz");
    assert_eq!(preprocess_output(&args), "data/references.bin");
}

#[test]
fn cloned_paths_are_the_same() {
    let paths = ResourcePaths::from_data_dir(PathBuf::from("/srv/rinha"));
    let copy = paths.clone();
    assert_eq!(copy.references_bin, paths.references_bin);
    assert_eq!(copy.references_json_gz, paths.references_json_gz);
    assert_eq!(copy.mcc_risk, paths.mcc_risk);
    assert_eq!(copy.normalization, paths.normalization);
}
