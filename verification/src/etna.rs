//! Properties of the library, each a function from a concrete input to a
//! verdict, for property-based testing tools to call.

use vstd::prelude::*;
use vstd::string::{StringExecFns, StringSliceAdditionalSpecFns};

use crate::alphabet::{
    bin_hex, binhex_symbols, lemma_binhex_valid, lemma_parse_accepts_valid, parse_alphabet_spec,
    Alphabet,
};
use crate::codec::{decode_spec, encode_spec};
use crate::engine::{
    decoded_len_estimate, DecodePaddingMode, GeneralPurpose, GeneralPurposeConfig,
};
use crate::laws::law_decode_encode;
use crate::text::{
    ascii_chars, debug_bytes, debug_bytes_text, debug_str, debug_str_text, lemma_ascii_utf8,
};

verus! {

/// The verdict of a property on one input.
#[derive(Debug)]
pub enum PropertyResult {
    /// The property holds.
    Pass,
    /// The property fails, for the reason given.
    Fail(String),
    /// The input is outside the property's domain.
    Discard,
}

/// The BinHex 4.0 alphabet, written down from its specification: it holds
/// `f` and not `7`.
pub const BINHEX_SPEC: &'static str =
    "!\"#$%&'()*+,-012345689@ABCDEFGHIJKLMNPQRSTUVXYZ[`abcdefhijklmpqr";

/// The alphabet written in `BINHEX_SPEC` is the BinHex alphabet the library carries.
pub proof fn law_binhex_alphabet_matches_spec()
    ensures
        parse_alphabet_spec(BINHEX_SPEC.spec_bytes()) == Ok::<
            Seq<u8>,
            crate::alphabet::ParseAlphabetError,
        >(binhex_symbols()),
{
    reveal_strlit("!\"#$%&'()*+,-012345689@ABCDEFGHIJKLMNPQRSTUVXYZ[`abcdefhijklmpqr");
    let chars = BINHEX_SPEC@;
    assert(chars.len() == 64);
    assert(ascii_chars(binhex_symbols()) =~= chars);
    lemma_ascii_utf8(binhex_symbols());
    assert(BINHEX_SPEC.spec_bytes() == binhex_symbols());
    lemma_binhex_valid();
    lemma_parse_accepts_valid(binhex_symbols());
}

/// The failure reported when the two alphabets encode differently.
pub fn alphabet_mismatch_message(crate_encoded: &str, spec_encoded: &str) -> (m: String)
    ensures
        m@ == "BIN_HEX alphabet disagrees with spec: crate="@ + debug_str_text(crate_encoded@)
            + " spec="@ + debug_str_text(spec_encoded@),
{
    let message = String::from_str("BIN_HEX alphabet disagrees with spec: crate=").concat(
        debug_str(crate_encoded).as_str(),
    );
    message.concat(" spec=").concat(debug_str(spec_encoded).as_str())
}

/// The failure reported when decoding does not give the input back.
pub fn round_trip_mismatch_message(expected: &[u8], got: &[u8]) -> (m: String)
    ensures
        m@ == "round-trip mismatch: expected "@ + debug_bytes_text(expected@) + ", got "@
            + debug_bytes_text(got@),
{
    let message = String::from_str("round-trip mismatch: expected ").concat(
        debug_bytes(expected).as_str(),
    );
    message.concat(", got ").concat(debug_bytes(got).as_str())
}

/// The configuration BinHex is encoded with: no padding when encoding;
/// trailing bits accepted and padding refused when decoding.
pub fn binhex_config() -> (c: GeneralPurposeConfig)
    ensures
        !c.pads(),
        c.allows_trailing_bits(),
        c.padding_mode() == DecodePaddingMode::RequireNone,
{
    GeneralPurposeConfig::new().with_decode_allow_trailing_bits(true).with_encode_padding(
        false,
    ).with_decode_padding_mode(DecodePaddingMode::RequireNone)
}

/// What the BinHex property checks of an input: the alphabet written in
/// `BINHEX_SPEC` parses; encoding under it and under the library's BinHex
/// alphabet agree; and decoding the library's encoding gives the input back.
pub open spec fn binhex_checks_hold(x: Seq<u8>) -> bool {
    match parse_alphabet_spec(BINHEX_SPEC.spec_bytes()) {
        Ok(spec_symbols) => {
            &&& encode_spec(binhex_symbols(), x, false) == encode_spec(spec_symbols, x, false)
            &&& decode_spec(
                binhex_symbols(),
                encode_spec(binhex_symbols(), x, false),
                true,
                DecodePaddingMode::RequireNone,
            ) == Ok::<Seq<u8>, crate::engine::DecodeError>(x)
        },
        Err(_) => false,
    }
}

/// The checks hold of every input.
pub proof fn law_binhex_checks_hold(x: Seq<u8>)
    ensures
        binhex_checks_hold(x),
{
    law_binhex_alphabet_matches_spec();
    lemma_binhex_valid();
    law_decode_encode(binhex_symbols(), x, false, true, DecodePaddingMode::RequireNone);
}

/// The library's BinHex alphabet matches the BinHex 4.0 specification:
/// inputs over 512 bytes are discarded; for the others, the same input is
/// encoded under the library's alphabet and under one parsed from
/// `BINHEX_SPEC`, the two encodings must agree, and decoding must give the
/// input back. The verdict is `Pass` exactly when these checks hold, which
/// they do for every input.
pub fn property_binhex_alphabet_matches_spec(input: Vec<u8>) -> (r: PropertyResult)
    ensures
        input.len() > 512 ==> r is Discard,
        input.len() <= 512 ==> (r is Pass <==> binhex_checks_hold(input@)),
        input.len() <= 512 ==> r !is Discard,
        input.len() <= 512 ==> r is Pass,
{
    if input.len() > 512 {
        return PropertyResult::Discard;
    }
    proof {
        law_binhex_checks_hold(input@);
    }
    let cfg = binhex_config();
    let crate_alphabet = bin_hex();
    let crate_engine = GeneralPurpose::new(&crate_alphabet, cfg);
    let spec_alphabet = match Alphabet::new(BINHEX_SPEC) {
        Ok(a) => a,
        Err(e) => {
            return PropertyResult::Fail(
                String::from_str("spec alphabet rejected: ").concat(e.debug_text().as_str()),
            );
        },
    };
    let spec_engine = GeneralPurpose::new(&spec_alphabet, cfg);
    let crate_encoded = crate_engine.encode(input.as_slice());
    let spec_encoded = spec_engine.encode(input.as_slice());
    if crate_encoded != spec_encoded {
        return PropertyResult::Fail(
            alphabet_mismatch_message(crate_encoded.as_str(), spec_encoded.as_str()),
        );
    }
    let encoded_bytes = crate_encoded.as_str().as_bytes();
    proof {
        lemma_ascii_utf8(encode_spec(binhex_symbols(), input@, false));
    }
    let decoded = match crate_engine.decode(encoded_bytes) {
        Ok(v) => v,
        Err(e) => {
            return PropertyResult::Fail(
                String::from_str("round-trip decode failed: ").concat(e.message().as_str()),
            );
        },
    };
    if !(decoded == input) {
        return PropertyResult::Fail(
            round_trip_mismatch_message(input.as_slice(), decoded.as_slice()),
        );
    }
    PropertyResult::Pass
}

/// `decoded_len_estimate` is total: it returns a value for every `usize`,
/// so the verdict is always `Pass`.
pub fn property_decoded_len_estimate_does_not_panic(encoded_len: usize) -> (r: PropertyResult)
    ensures
        r is Pass,
{
    let _estimate = decoded_len_estimate(encoded_len);
    PropertyResult::Pass
}

/// A verdict as the fault-localisation runner reads it: `Some(true)` for a
/// pass, `Some(false)` for a failure, `None` for a discard.
pub fn to_opt(r: PropertyResult) -> (o: Option<bool>)
    ensures
        o == match r {
            PropertyResult::Pass => Some(true),
            PropertyResult::Fail(_) => Some(false),
            PropertyResult::Discard => None::<bool>,
        },
{
    match r {
        PropertyResult::Pass => Some(true),
        PropertyResult::Fail(_) => Some(false),
        PropertyResult::Discard => None,
    }
}

/// A verdict as the workload runner reads it: a pass or a discard is
/// `Ok`, a failure is its reason.
pub fn to_err(r: PropertyResult) -> (res: Result<(), String>)
    ensures
        match r {
            PropertyResult::Fail(m) => res == Err::<(), String>(m),
            _ => res == Ok::<(), String>(()),
        },
{
    match r {
        PropertyResult::Pass | PropertyResult::Discard => Ok(()),
        PropertyResult::Fail(m) => Err(m),
    }
}

} // verus!
