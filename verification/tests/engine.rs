use base64_etna::alphabet::{bin_hex, Alphabet, ParseAlphabetError};
use base64_etna::engine::{
    decoded_len_estimate, encoded_len, DecodeError, DecodePaddingMode, GeneralPurpose,
    GeneralPurposeConfig,
};
use base64_etna::etna::binhex_config;

const STANDARD: &str = "ABCDEFGHIJKLMNOPQRSTUVWXYZabcdefghijklmnopqrstuvwxyz0123456789+/";

fn binhex_engine() -> GeneralPurpose {
    GeneralPurpose::new(&bin_hex(), binhex_config())
}

fn standard_engine(config: GeneralPurposeConfig) -> GeneralPurpose {
    GeneralPurpose::new(&Alphabet::new(STANDARD).unwrap(), config)
}

#[test]
fn binhex_encodes_hello_world() {
    assert_eq!(binhex_engine().encode(b"Hello, world!"), "5'9XE'mX)(G[FQaN)3");
}

#[test]
fn binhex_encodes_short_groups() {
    let e = binhex_engine();
    assert_eq!(e.encode(b""), "");
    assert_eq!(e.encode(b"f"), "CJ");
    assert_eq!(e.encode(b"fo"), "CQm");
    assert_eq!(e.encode(b"foo"), "CQp[");
    assert_eq!(e.encode(&[0xff]), "r`");
}

#[test]
fn binhex_encodes_full_byte_range() {
    let input: Vec<u8> = (0u8..=255u8).collect();
    let expected = "!!%#!`3&\"JF)#3S,$!d1$a!4%K-8&4BA'\"ND'a`G(KmJ)5)M*#8Q*bJT+LXX,5i[-$%b-c3e0MFi16Sl2$dq2d\"\"3N0%48C(5%P+5da06Np389*69&9@9eKC@PYFA9jIB'&LBf4PCQGSD@TVE'eZEh\"aFR0dGAChH(PkHhapIRq!JB+$K)@'KiL*LSZ-MBk2N*'5Nj59PTHBQCUER*fHRk#KSU1NTDDRU+QUUkbYVUq`XE+cY,@fYlLjZVZm[Ekr`-(#`m6&aXI)bFV,c-h1cp$4dY28eGEAf0RDfpcGhYrJiH,Mj1AQjqMTkZ[XlHl[m2(bmr6ep[IiqIVlr2hqr`";
    assert_eq!(binhex_engine().encode(&input), expected);
}

#[test]
fn standard_alphabet_pads_by_default() {
    let e = standard_engine(GeneralPurposeConfig::new());
    assert_eq!(e.encode(b"Hello, world!"), "SGVsbG8sIHdvcmxkIQ==");
    assert_eq!(e.encode(b"fo"), "Zm8=");
    assert_eq!(e.decode(b"SGVsbG8sIHdvcmxkIQ==").unwrap(), b"Hello, world!".to_vec());
}

#[test]
fn round_trip_every_length() {
    let e = binhex_engine();
    for len in 0..40usize {
        let input: Vec<u8> = (0..len).map(|i| (i * 37 + 11) as u8).collect();
        let encoded = e.encode(&input);
        assert_eq!(e.decode(encoded.as_bytes()), Ok(input));
    }
}

#[test]
fn canonical_decoding_refuses_missing_padding() {
    let e = standard_engine(GeneralPurposeConfig::new());
    assert_eq!(e.decode(b"Zm8"), Err(DecodeError::InvalidPadding));
}

#[test]
fn decode_reports_non_symbol() {
    let e = binhex_engine();
    // '7' is not a BinHex symbol.
    assert_eq!(e.decode(b"!!7!"), Err(DecodeError::InvalidByte(2, b'7')));
    assert_eq!(e.decode(b"!!!!!!7!"), Err(DecodeError::InvalidByte(6, b'7')));
}

#[test]
fn decode_reports_stray_last_byte_first() {
    let e = binhex_engine();
    assert_eq!(e.decode(b"7!!!!"), Err(DecodeError::InvalidByte(0, b'7')));
    assert_eq!(e.decode(b"!!!!7"), Err(DecodeError::InvalidByte(4, b'7')));
}

#[test]
fn decode_reports_invalid_length() {
    let e = binhex_engine();
    assert_eq!(e.decode(b"!!!!!"), Err(DecodeError::InvalidLength(5)));
    assert_eq!(e.decode(b"!"), Err(DecodeError::InvalidLength(1)));
}

#[test]
fn decode_reports_misplaced_padding() {
    let e = standard_engine(GeneralPurposeConfig::new());
    assert_eq!(e.decode(b"Z==="), Err(DecodeError::InvalidByte(1, b'=')));
    assert_eq!(e.decode(b"Zm=8"), Err(DecodeError::InvalidByte(2, b'=')));
    assert_eq!(e.decode(b"Zm8=Zm8="), Err(DecodeError::InvalidByte(3, b'=')));
}

#[test]
fn decode_reports_invalid_padding_when_none_allowed() {
    let e = standard_engine(GeneralPurposeConfig::new().with_decode_padding_mode(DecodePaddingMode::RequireNone));
    assert_eq!(e.decode(b"Zm8="), Err(DecodeError::InvalidPadding));
    assert_eq!(e.decode(b"Zm8"), Ok(b"fo".to_vec()));
}

#[test]
fn decode_reports_trailing_bits() {
    let e = standard_engine(GeneralPurposeConfig::new());
    // 'n' carries bits past the single decoded byte.
    assert_eq!(e.decode(b"Zn=="), Err(DecodeError::InvalidLastSymbol(1, b'n')));
    let lax = standard_engine(GeneralPurposeConfig::new().with_decode_allow_trailing_bits(true));
    assert_eq!(lax.decode(b"Zn=="), Ok(b"f".to_vec()));
}

#[test]
fn indifferent_mode_takes_either() {
    let e = standard_engine(
        GeneralPurposeConfig::new().with_decode_padding_mode(DecodePaddingMode::Indifferent),
    );
    assert_eq!(e.decode(b"Zm8="), Ok(b"fo".to_vec()));
    assert_eq!(e.decode(b"Zm8"), Ok(b"fo".to_vec()));
}

#[test]
fn decode_error_messages() {
    assert_eq!(DecodeError::InvalidByte(3, 55).message(), "Invalid symbol 55, offset 3.");
    assert_eq!(DecodeError::InvalidLength(5).message(), "Invalid input length: 5");
    assert_eq!(DecodeError::InvalidLastSymbol(1, 110).message(), "Invalid last symbol 110, offset 1.");
    assert_eq!(DecodeError::InvalidPadding.message(), "Invalid padding");
}

#[test]
fn alphabet_errors() {
    assert_eq!(Alphabet::new("abc").err(), Some(ParseAlphabetError::InvalidLength));
    let mut dup = STANDARD.to_string();
    dup.replace_range(1..2, "A");
    assert_eq!(Alphabet::new(&dup).err(), Some(ParseAlphabetError::DuplicatedByte(b'A')));
    let mut pad = STANDARD.to_string();
    pad.replace_range(5..6, "=");
    assert_eq!(Alphabet::new(&pad).err(), Some(ParseAlphabetError::ReservedByte(b'=')));
    let mut ctrl = STANDARD.to_string();
    ctrl.replace_range(7..8, "\n");
    assert_eq!(Alphabet::new(&ctrl).err(), Some(ParseAlphabetError::UnprintableByte(b'\n')));
    assert_eq!(ParseAlphabetError::DuplicatedByte(65).debug_text(), "DuplicatedByte(65)");
    assert_eq!(ParseAlphabetError::InvalidLength.debug_text(), "InvalidLength");
}

#[test]
fn binhex_alphabet_symbols() {
    assert_eq!(
        bin_hex().to_bytes(),
        b"!\"#$%&'()*+,-012345689@ABCDEFGHIJKLMNPQRSTUVXYZ[`abcdefhijklmpqr".to_vec()
    );
}

#[test]
fn encoded_len_values() {
    assert_eq!(encoded_len(0, true), Some(0));
    assert_eq!(encoded_len(1, true), Some(4));
    assert_eq!(encoded_len(1, false), Some(2));
    assert_eq!(encoded_len(2, false), Some(3));
    assert_eq!(encoded_len(3, false), Some(4));
    assert_eq!(encoded_len(13, false), Some(18));
    assert_eq!(encoded_len(usize::MAX, true), None);
}

#[test]
fn decoded_len_estimate_values() {
    assert_eq!(decoded_len_estimate(0), 0);
    assert_eq!(decoded_len_estimate(1), 3);
    assert_eq!(decoded_len_estimate(2), 3);
    assert_eq!(decoded_len_estimate(3), 3);
    assert_eq!(decoded_len_estimate(4), 3);
    assert_eq!(decoded_len_estimate(5), 6);
    assert_eq!(decoded_len_estimate(usize::MAX), (usize::MAX / 4 + 1) * 3);
}

#[test]
fn decoded_len_estimate_bounds_decoded_length() {
    let e = binhex_engine();
    for len in 0..30usize {
        let input: Vec<u8> = vec![7u8; len];
        let encoded = e.encode(&input);
        let estimate = decoded_len_estimate(encoded.len());
        assert!(input.len() <= estimate && estimate <= input.len() + 2);
    }
}

#[test]
fn canonical_configuration_has_one_encoding() {
    let e = standard_engine(GeneralPurposeConfig::new());
    for s in ["Zg==", "Zm8=", "Zm9v", "SGVsbG8sIHdvcmxkIQ=="] {
        let decoded = e.decode(s.as_bytes()).unwrap();
        assert_eq!(e.encode(&decoded), s);
    }
}

#[test]
fn config_defaults_and_builders() {
    let c = GeneralPurposeConfig::new();
    assert!(c.encode_padding());
    assert!(!binhex_config().encode_padding());
}
