use base64_etna::etna::{
    property_binhex_alphabet_matches_spec, property_decoded_len_estimate_does_not_panic,
    PropertyResult,
};

fn assert_pass(label: &str, p: PropertyResult) {
    match p {
        PropertyResult::Pass => {}
        PropertyResult::Discard => panic!("witness {}: property returned Discard", label),
        PropertyResult::Fail(msg) => panic!("witness {}: property failed: {}", label, msg),
    }
}

#[test]
fn witness_binhex_alphabet_matches_spec_case_hello_world() {
    let input = b"Hello, world!".to_vec();
    assert_pass(
        "binhex_alphabet_matches_spec_case_hello_world",
        property_binhex_alphabet_matches_spec(input),
    );
}

#[test]
fn witness_binhex_alphabet_matches_spec_case_full_range() {
    let input: Vec<u8> = (0u8..=255u8).collect();
    assert_pass(
        "binhex_alphabet_matches_spec_case_full_range",
        property_binhex_alphabet_matches_spec(input),
    );
}

#[test]
fn witness_decoded_len_estimate_does_not_panic_case_usize_max() {
    assert_pass(
        "decoded_len_estimate_does_not_panic_case_usize_max",
        property_decoded_len_estimate_does_not_panic(usize::MAX),
    );
}

#[test]
fn witness_decoded_len_estimate_does_not_panic_case_near_max() {
    assert_pass(
        "decoded_len_estimate_does_not_panic_case_near_max",
        property_decoded_len_estimate_does_not_panic(usize::MAX - 2),
    );
}
