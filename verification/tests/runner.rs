use base64_etna::etna::{
    property_binhex_alphabet_matches_spec, property_decoded_len_estimate_does_not_panic, to_err,
    to_opt, PropertyResult,
};
use base64_etna::runner::{
    canonical_binhex_sample, canonical_encoded_len_overflow, cases_budget_from,
    check_binhex_alphabet_matches_spec, check_decoded_len_estimate_does_not_panic, check_property,
    flip_bit, flip_len_bit, json_line, json_str, mutation_for, parse_u64, property_from_name,
    Metrics, Mutation, Property,
};
use base64_etna::etna::{alphabet_mismatch_message, round_trip_mismatch_message};
use base64_etna::text::decimal;

#[test]
fn binhex_property_discards_long_inputs() {
    assert!(matches!(property_binhex_alphabet_matches_spec(vec![0u8; 513]), PropertyResult::Discard));
    assert!(matches!(property_binhex_alphabet_matches_spec(vec![0u8; 512]), PropertyResult::Pass));
    assert!(matches!(property_binhex_alphabet_matches_spec(Vec::new()), PropertyResult::Pass));
}

#[test]
fn estimate_property_passes_everywhere() {
    for n in [0usize, 1, 2, 3, 4, 5, usize::MAX / 2, usize::MAX - 3, usize::MAX - 1] {
        assert!(matches!(property_decoded_len_estimate_does_not_panic(n), PropertyResult::Pass));
    }
}

#[test]
fn verdict_conversions() {
    assert_eq!(to_opt(PropertyResult::Pass), Some(true));
    assert_eq!(to_opt(PropertyResult::Fail("x".to_string())), Some(false));
    assert_eq!(to_opt(PropertyResult::Discard), None);
    assert_eq!(to_err(PropertyResult::Pass), Ok(()));
    assert_eq!(to_err(PropertyResult::Discard), Ok(()));
    assert_eq!(to_err(PropertyResult::Fail("why".to_string())), Err("why".to_string()));
}

#[test]
fn canonical_inputs_and_checks() {
    assert_eq!(canonical_binhex_sample(), b"Hello, world!".to_vec());
    assert_eq!(canonical_encoded_len_overflow(), usize::MAX);
    assert_eq!(check_binhex_alphabet_matches_spec(), Ok(()));
    assert_eq!(check_decoded_len_estimate_does_not_panic(), Ok(()));
    assert_eq!(check_property(Property::BinhexAlphabetMatchesSpec), Ok(()));
}

#[test]
fn property_names() {
    assert_eq!(property_from_name("BinhexAlphabetMatchesSpec"), Some(Property::BinhexAlphabetMatchesSpec));
    assert_eq!(
        property_from_name("DecodedLenEstimateDoesNotPanic"),
        Some(Property::DecodedLenEstimateDoesNotPanic)
    );
    assert_eq!(property_from_name("All"), None);
    assert_eq!(property_from_name("binhexalphabetmatchesspec"), None);
}

#[test]
fn metrics_combine() {
    let a = Metrics { inputs: 3, elapsed_us: 10 };
    let b = Metrics { inputs: 4, elapsed_us: 25 };
    let c = a.combine(b);
    assert_eq!((c.inputs, c.elapsed_us), (7, 35));
    let z = Metrics::default();
    assert_eq!((z.inputs, z.elapsed_us), (0, 0));
}

#[test]
fn json_str_escapes() {
    assert_eq!(json_str("plain"), "\"plain\"");
    assert_eq!(json_str("a\"b\\c"), "\"a\\\"b\\\\c\"");
    assert_eq!(json_str("l1\nl2\r\t"), "\"l1\\nl2\\r\\t\"");
    assert_eq!(json_str("\u{1}\u{1f}"), "\"\\u0001\\u001f\"");
    assert_eq!(json_str("é"), "\"é\"");
}

#[test]
fn json_line_reports_a_run() {
    let m = Metrics { inputs: 200, elapsed_us: 1234 };
    assert_eq!(
        json_line("etna", "All", "passed", m, None, None),
        "{\"status\":\"passed\",\"tests\":200,\"discards\":0,\"time\":\"1234us\",\"counterexample\":null,\"error\":null,\"tool\":\"etna\",\"property\":\"All\"}"
    );
    assert_eq!(
        json_line("crabcheck", "P", "failed", Metrics { inputs: 1, elapsed_us: 0 }, Some("(5)"), Some("e")),
        "{\"status\":\"failed\",\"tests\":1,\"discards\":0,\"time\":\"0us\",\"counterexample\":\"(5)\",\"error\":\"e\",\"tool\":\"crabcheck\",\"property\":\"P\"}"
    );
}

#[test]
fn parse_and_budget() {
    assert_eq!(parse_u64("0"), Some(0));
    assert_eq!(parse_u64("+17"), Some(17));
    assert_eq!(parse_u64("18446744073709551615"), Some(u64::MAX));
    assert_eq!(parse_u64("18446744073709551616"), None);
    assert_eq!(parse_u64(""), None);
    assert_eq!(parse_u64("+"), None);
    assert_eq!(parse_u64("-1"), None);
    assert_eq!(parse_u64("12a"), None);
    assert_eq!(cases_budget_from(None), 200);
    assert_eq!(cases_budget_from(Some("50")), 50);
    assert_eq!(cases_budget_from(Some("many")), 200);
}

#[test]
fn mutations() {
    assert_eq!(mutation_for(0, 3), Mutation::FlipBit);
    assert_eq!(mutation_for(0, 0), Mutation::Keep);
    assert_eq!(mutation_for(1, 0), Mutation::Push);
    assert_eq!(mutation_for(1, 64), Mutation::Pop);
    assert_eq!(mutation_for(2, 5), Mutation::Pop);
    assert_eq!(mutation_for(2, 0), Mutation::Keep);
    let mut v = vec![0u8, 0b1010];
    flip_bit(&mut v, 1, 1);
    assert_eq!(v, vec![0u8, 0b1000]);
    assert_eq!(flip_len_bit(usize::MAX, 0), usize::MAX - 1);
    assert_eq!(flip_len_bit(0, 62), 1usize << 62);
}

#[test]
fn text_conversions() {
    assert_eq!(decimal(0), "0");
    assert_eq!(decimal(1234567890), "1234567890");
    assert_eq!(decimal(u128::MAX), u128::MAX.to_string());
    assert_eq!(
        alphabet_mismatch_message("a\"b", "c"),
        "BIN_HEX alphabet disagrees with spec: crate=\"a\\\"b\" spec=\"c\""
    );
    assert_eq!(
        round_trip_mismatch_message(&[1, 22, 255], &[]),
        "round-trip mismatch: expected [1, 22, 255], got []"
    );
}

#[test]
fn json_line_is_one_line() {
    let line = json_line(
        "tool\n",
        "prop\r\n",
        "failed",
        Metrics { inputs: 9, elapsed_us: 77 },
        Some("(a\nb)"),
        Some("line one\nline two"),
    );
    assert!(!line.contains('\n'));
    assert!(line.contains("\"error\":\"line one\\nline two\""));
}
