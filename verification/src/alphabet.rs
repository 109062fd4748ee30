//! Alphabets: the 64 symbols an encoding is written in.

use vstd::prelude::*;
use vstd::string::StringSliceAdditionalSpecFns;

use crate::codec::{is_printable, valid_symbols, PAD_BYTE};
use crate::text::{decimal, decimal_chars};
use vstd::string::StringExecFns;

verus! {

/// Why a string was refused as an alphabet.
#[derive(Clone, Copy, Debug, PartialEq, Eq, Structural)]
pub enum ParseAlphabetError {
    /// The string is not exactly 64 bytes long.
    InvalidLength,
    /// This byte occurs more than once.
    DuplicatedByte(u8),
    /// This byte is not printable ASCII.
    UnprintableByte(u8),
    /// This byte is `=`, kept for padding.
    ReservedByte(u8),
}

/// What is wrong, if anything, with the byte at position `i` of a candidate
/// alphabet, checked in the order: printable, not `=`, not repeated.
pub open spec fn symbol_error(b: Seq<u8>, i: int) -> Option<ParseAlphabetError> {
    if !is_printable(b[i]) {
        Some(ParseAlphabetError::UnprintableByte(b[i]))
    } else if b[i] == PAD_BYTE {
        Some(ParseAlphabetError::ReservedByte(b[i]))
    } else if exists|j: int| 0 <= j < b.len() && j != i && b[j] == b[i] {
        Some(ParseAlphabetError::DuplicatedByte(b[i]))
    } else {
        None
    }
}

/// The error at the first position from `from` on that has one.
pub open spec fn first_symbol_error(b: Seq<u8>, from: int) -> Option<ParseAlphabetError>
    decreases b.len() - from,
{
    if from < 0 || from >= b.len() {
        None
    } else {
        match symbol_error(b, from) {
            Some(e) => Some(e),
            None => first_symbol_error(b, from + 1),
        }
    }
}

/// What parsing the bytes of a string as an alphabet yields.
pub open spec fn parse_alphabet_spec(b: Seq<u8>) -> Result<Seq<u8>, ParseAlphabetError> {
    if b.len() != 64 {
        Err(ParseAlphabetError::InvalidLength)
    } else {
        match first_symbol_error(b, 0) {
            Some(e) => Err(e),
            None => Ok(b),
        }
    }
}

/// A 64-byte string is accepted exactly when it is a valid alphabet.
pub proof fn lemma_parse_accepts_valid(b: Seq<u8>)
    requires
        b.len() == 64,
    ensures
        parse_alphabet_spec(b) is Ok <==> valid_symbols(b),
{
    lemma_no_error_from(b, 0);
    lemma_no_symbol_error_iff_valid(b);
}

proof fn lemma_no_symbol_error_iff_valid(b: Seq<u8>)
    requires
        b.len() == 64,
    ensures
        (forall|i: int| 0 <= i < 64 ==> #[trigger] symbol_error(b, i) is None) <==> valid_symbols(b),
{
    if forall|i: int| 0 <= i < 64 ==> #[trigger] symbol_error(b, i) is None {
        assert forall|i: int, j: int|
            #![trigger b[i], b[j]]
            0 <= i < 64 && 0 <= j < 64 && i != j implies b[i] != b[j] by {
            assert(symbol_error(b, i) is None);
        }
        assert forall|i: int| 0 <= i < 64 implies is_printable(#[trigger] b[i]) && b[i]
            != PAD_BYTE by {
            assert(symbol_error(b, i) is None);
        }
    }
    if valid_symbols(b) {
        assert forall|i: int| 0 <= i < 64 implies #[trigger] symbol_error(b, i) is None by {
            if exists|j: int| 0 <= j < b.len() && j != i && b[j] == b[i] {
                let j = choose|j: int| 0 <= j < b.len() && j != i && b[j] == b[i];
                assert(b[i] != b[j]);
            }
        }
    }
}

proof fn lemma_no_error_from(b: Seq<u8>, from: int)
    requires
        b.len() == 64,
        0 <= from <= 64,
    ensures
        first_symbol_error(b, from) is None <==> (forall|i: int|
            from <= i < 64 ==> #[trigger] symbol_error(b, i) is None),
    decreases 64 - from,
{
    if from < 64 {
        lemma_no_error_from(b, from + 1);
    }
}

/// An alphabet: 64 printable, distinct symbols, none of them `=`.
pub struct Alphabet {
    symbols: Vec<u8>,
}

impl View for Alphabet {
    type V = Seq<u8>;

    closed spec fn view(&self) -> Seq<u8> {
        self.symbols@
    }
}

impl Alphabet {
    #[verifier::type_invariant]
    spec fn inv(self) -> bool {
        valid_symbols(self.symbols@)
    }

    /// The symbols, in order; they form a valid alphabet.
    pub fn to_bytes(&self) -> (b: Vec<u8>)
        ensures
            b@ == self@,
            valid_symbols(b@),
    {
        proof {
            use_type_invariant(self);
        }
        self.symbols.clone()
    }

    /// Parses the bytes of `alphabet` as an alphabet: it must be 64 bytes
    /// long, and each byte, in order, printable, not `=`, and not repeated.
    pub fn new(alphabet: &str) -> (res: Result<Alphabet, ParseAlphabetError>)
        ensures
            match res {
                Ok(a) => parse_alphabet_spec(alphabet.spec_bytes()) == Ok::<
                    Seq<u8>,
                    ParseAlphabetError,
                >(a@),
                Err(e) => parse_alphabet_spec(alphabet.spec_bytes()) == Err::<
                    Seq<u8>,
                    ParseAlphabetError,
                >(e),
            },
    {
        let bytes = alphabet.as_bytes();
        if bytes.len() != 64 {
            return Err(ParseAlphabetError::InvalidLength);
        }
        let mut index: usize = 0;
        while index < 64
            invariant
                0 <= index <= 64,
                bytes@ == alphabet.spec_bytes(),
                bytes@.len() == 64,
                first_symbol_error(bytes@, 0) == first_symbol_error(bytes@, index as int),
            decreases 64 - index,
        {
            let byte = bytes[index];
            if !(byte >= 32 && byte <= 126) {
                return Err(ParseAlphabetError::UnprintableByte(byte));
            }
            if byte == PAD_BYTE {
                return Err(ParseAlphabetError::ReservedByte(byte));
            }
            let mut probe: usize = 0;
            while probe < 64
                invariant
                    0 <= probe <= 64,
                    0 <= index < 64,
                    bytes@ == alphabet.spec_bytes(),
                    bytes@.len() == 64,
                    first_symbol_error(bytes@, 0) == first_symbol_error(bytes@, index as int),
                    is_printable(byte),
                    byte != PAD_BYTE,
                    byte == bytes@[index as int],
                    forall|j: int| 0 <= j < probe && j != index ==> bytes@[j] != byte,
                decreases 64 - probe,
            {
                if probe != index && bytes[probe] == byte {
                    assert(0 <= probe < bytes@.len() && probe != index && bytes@[probe as int]
                        == bytes@[index as int]);
                    return Err(ParseAlphabetError::DuplicatedByte(byte));
                }
                probe += 1;
            }
            assert(symbol_error(bytes@, index as int) is None);
            index += 1;
        }
        proof {
            lemma_parse_accepts_valid(bytes@);
        }
        let symbols = vstd::slice::slice_to_vec(bytes);
        Ok(Alphabet { symbols })
    }
}

/// The BinHex 4.0 alphabet, `!"#$%&'()*+,-012345689@ABCDEFGHIJKLMNPQRSTUVXYZ[`abcdefhijklmpqr`,
/// as bytes: it holds `f` and not `7`.
pub open spec fn binhex_symbols() -> Seq<u8> {
    seq![
        33u8, 34, 35, 36, 37, 38, 39, 40, 41, 42, 43, 44, 45, 48, 49, 50,
        51, 52, 53, 54, 56, 57, 64, 65, 66, 67, 68, 69, 70, 71, 72, 73,
        74, 75, 76, 77, 78, 80, 81, 82, 83, 84, 85, 86, 88, 89, 90, 91,
        96, 97, 98, 99, 100, 101, 102, 104, 105, 106, 107, 108, 109, 112, 113, 114,
    ]
}

/// Each symbol of a sequence is below the next.
pub open spec fn ascending(s: Seq<u8>) -> bool {
    forall|i: int| 0 <= i < s.len() - 1 ==> #[trigger] s[i] < s[i + 1]
}

proof fn lemma_ascending_strict(s: Seq<u8>, i: int, j: int)
    requires
        ascending(s),
        0 <= i < j < s.len(),
    ensures
        s[i] < s[j],
    decreases j - i,
{
    assert(s[j - 1] < s[j]);
    if i < j - 1 {
        lemma_ascending_strict(s, i, j - 1);
    }
}

/// 64 ascending printable symbols other than `=` form a valid alphabet.
pub proof fn lemma_ascending_valid(s: Seq<u8>)
    requires
        s.len() == 64,
        ascending(s),
        forall|i: int| 0 <= i < 64 ==> is_printable(#[trigger] s[i]) && s[i] != PAD_BYTE,
    ensures
        valid_symbols(s),
{
    assert forall|i: int, j: int|
        #![trigger s[i], s[j]]
        0 <= i < 64 && 0 <= j < 64 && i != j implies s[i] != s[j] by {
        if i < j {
            lemma_ascending_strict(s, i, j);
        } else {
            lemma_ascending_strict(s, j, i);
        }
    }
}

/// The BinHex 4.0 alphabet is a valid alphabet.
pub proof fn lemma_binhex_valid()
    ensures
        valid_symbols(binhex_symbols()),
{
    let s = binhex_symbols();
    assert(ascending(s));
    lemma_ascending_valid(s);
}

/// The BinHex 4.0 alphabet.
pub fn bin_hex() -> (a: Alphabet)
    ensures
        a@ == binhex_symbols(),
{
    let symbols: Vec<u8> = vec![
        33u8, 34, 35, 36, 37, 38, 39, 40, 41, 42, 43, 44, 45, 48, 49, 50,
        51, 52, 53, 54, 56, 57, 64, 65, 66, 67, 68, 69, 70, 71, 72, 73,
        74, 75, 76, 77, 78, 80, 81, 82, 83, 84, 85, 86, 88, 89, 90, 91,
        96, 97, 98, 99, 100, 101, 102, 104, 105, 106, 107, 108, 109, 112, 113, 114,
    ];
    proof {
        lemma_binhex_valid();
        assert(symbols@ =~= binhex_symbols());
    }
    Alphabet { symbols }
}

/// The text that names a parse error, as its `Debug` form writes it.
pub open spec fn parse_error_text(e: ParseAlphabetError) -> Seq<char> {
    match e {
        ParseAlphabetError::InvalidLength => "InvalidLength"@,
        ParseAlphabetError::DuplicatedByte(b) => "DuplicatedByte("@ + decimal_chars(b as nat) + ")"@,
        ParseAlphabetError::UnprintableByte(b) => "UnprintableByte("@ + decimal_chars(b as nat)
            + ")"@,
        ParseAlphabetError::ReservedByte(b) => "ReservedByte("@ + decimal_chars(b as nat) + ")"@,
    }
}

impl ParseAlphabetError {
    /// The text that names this error.
    pub fn debug_text(&self) -> (s: String)
        ensures
            s@ == parse_error_text(*self),
    {
        match *self {
            ParseAlphabetError::InvalidLength => String::from_str("InvalidLength"),
            ParseAlphabetError::DuplicatedByte(b) => String::from_str("DuplicatedByte(").concat(
                decimal(b as u128).as_str(),
            ).concat(")"),
            ParseAlphabetError::UnprintableByte(b) => String::from_str("UnprintableByte(").concat(
                decimal(b as u128).as_str(),
            ).concat(")"),
            ParseAlphabetError::ReservedByte(b) => String::from_str("ReservedByte(").concat(
                decimal(b as u128).as_str(),
            ).concat(")"),
        }
    }
}

} // verus!
