//! The general-purpose engine: configuration, errors, encoding and decoding.

use vstd::prelude::*;
use vstd::string::StringExecFns;

use crate::alphabet::Alphabet;
use crate::codec::{
    byte0, byte1, byte2, decode_groups, decode_spec, decoded_len_estimate_spec, encode_group,
    encode_groups, encode_spec, encode_tail, encoded_len_spec, first_non_symbol,
    lemma_first_non_symbol_skip, lemma_index_of_symbol, lemma_scan_tail_err_stays,
    lemma_sextets_below_64, scan_tail, sextet1, sextet2, tail_bytes, valid_symbols, value_of,
    PAD_BYTE,
};
use crate::text::{all_ascii, ascii_chars, ascii_string, decimal, decimal_chars};

verus! {

/// How decoding treats `=` padding.
#[derive(Clone, Copy, Debug, PartialEq, Eq, Structural)]
pub enum DecodePaddingMode {
    /// Padding may be there or not.
    Indifferent,
    /// Padding must be there, up to a whole group.
    RequireCanonical,
    /// Padding must not be there.
    RequireNone,
}

/// Why an input could not be decoded.
#[derive(Clone, Copy, Debug, PartialEq, Eq, Structural)]
pub enum DecodeError {
    /// A byte at this offset is neither a symbol nor well-placed padding.
    InvalidByte(usize, u8),
    /// The input ends with a group of one symbol; the offset of its end.
    InvalidLength(usize),
    /// The last symbol, at this offset, carries bits that no decoded byte takes.
    InvalidLastSymbol(usize, u8),
    /// Padding is missing, or there where it must not be.
    InvalidPadding,
}

/// Configuration of the general-purpose engine.
#[derive(Clone, Copy, Debug, PartialEq, Eq, Structural)]
pub struct GeneralPurposeConfig {
    encode_padding: bool,
    decode_allow_trailing_bits: bool,
    decode_padding_mode: DecodePaddingMode,
}

impl GeneralPurposeConfig {
    /// Whether encoding pads to a whole number of groups.
    pub closed spec fn pads(self) -> bool {
        self.encode_padding
    }

    /// Whether decoding accepts bits in the last symbol that no byte takes.
    pub closed spec fn allows_trailing_bits(self) -> bool {
        self.decode_allow_trailing_bits
    }

    /// How decoding treats padding.
    pub closed spec fn padding_mode(self) -> DecodePaddingMode {
        self.decode_padding_mode
    }

    /// The default: encoding pads, decoding requires canonical padding and
    /// refuses trailing bits.
    pub fn new() -> (c: GeneralPurposeConfig)
        ensures
            c.pads(),
            !c.allows_trailing_bits(),
            c.padding_mode() == DecodePaddingMode::RequireCanonical,
    {
        GeneralPurposeConfig {
            encode_padding: true,
            decode_allow_trailing_bits: false,
            decode_padding_mode: DecodePaddingMode::RequireCanonical,
        }
    }

    /// This configuration with encoding padding set to `padding`.
    pub fn with_encode_padding(self, padding: bool) -> (c: GeneralPurposeConfig)
        ensures
            c.pads() == padding,
            c.allows_trailing_bits() == self.allows_trailing_bits(),
            c.padding_mode() == self.padding_mode(),
    {
        GeneralPurposeConfig { encode_padding: padding, ..self }
    }

    /// This configuration with trailing bits accepted or not.
    pub fn with_decode_allow_trailing_bits(self, allow: bool) -> (c: GeneralPurposeConfig)
        ensures
            c.pads() == self.pads(),
            c.allows_trailing_bits() == allow,
            c.padding_mode() == self.padding_mode(),
    {
        GeneralPurposeConfig { decode_allow_trailing_bits: allow, ..self }
    }

    /// This configuration with the given padding mode for decoding.
    pub fn with_decode_padding_mode(self, mode: DecodePaddingMode) -> (c: GeneralPurposeConfig)
        ensures
            c.pads() == self.pads(),
            c.allows_trailing_bits() == self.allows_trailing_bits(),
            c.padding_mode() == mode,
    {
        GeneralPurposeConfig { decode_padding_mode: mode, ..self }
    }

    /// Whether encoding pads.
    pub fn encode_padding(&self) -> (p: bool)
        ensures
            p == self.pads(),
    {
        self.encode_padding
    }
}

/// A decode table for an alphabet: each symbol maps to its value, every
/// other byte to 255.
pub open spec fn decode_table_for(sym: Seq<u8>, table: Seq<u8>) -> bool {
    &&& table.len() == 256
    &&& forall|b: u8|
        #![trigger table[b as int]]
        table[b as int] == if sym.contains(b) {
            value_of(sym, b)
        } else {
            255u8
        }
}

/// The value of table entries marking non-symbols.
pub const INVALID_VALUE: u8 = 255;

/// A decoding result with the bytes taken by their view.
pub open spec fn bytes_result<E>(r: Result<Vec<u8>, E>) -> Result<Seq<u8>, E> {
    match r {
        Ok(v) => Ok(v@),
        Err(e) => Err(e),
    }
}

/// An engine that encodes and decodes over one alphabet with one configuration.
pub struct GeneralPurpose {
    encode_table: Vec<u8>,
    decode_table: Vec<u8>,
    config: GeneralPurposeConfig,
}

impl GeneralPurpose {
    #[verifier::type_invariant]
    spec fn inv(self) -> bool {
        &&& valid_symbols(self.encode_table@)
        &&& decode_table_for(self.encode_table@, self.decode_table@)
    }

    /// The alphabet the engine writes in.
    pub closed spec fn symbols(&self) -> Seq<u8> {
        self.encode_table@
    }

    /// The engine's configuration.
    pub closed spec fn spec_config(&self) -> GeneralPurposeConfig {
        self.config
    }

    /// An engine for `alphabet` and `config`.
    pub fn new(alphabet: &Alphabet, config: GeneralPurposeConfig) -> (e: GeneralPurpose)
        ensures
            e.symbols() == alphabet@,
            e.spec_config() == config,
    {
        let encode_table = alphabet.to_bytes();
        let ghost sym = encode_table@;
        let mut decode_table: Vec<u8> = Vec::new();
        while decode_table.len() < 256
            invariant
                decode_table@.len() <= 256,
                forall|b: int| 0 <= b < decode_table@.len() ==> decode_table@[b] == INVALID_VALUE,
            decreases 256 - decode_table@.len(),
        {
            decode_table.push(INVALID_VALUE);
        }
        let mut i: usize = 0;
        while i < 64
            invariant
                0 <= i <= 64,
                sym == encode_table@,
                valid_symbols(sym),
                decode_table@.len() == 256,
                forall|j: int| 0 <= j < i ==> decode_table@[#[trigger] sym[j] as int] == j,
                forall|b: int|
                    0 <= b < 256 ==> #[trigger] decode_table@[b] == INVALID_VALUE || (
                    decode_table@[b] < i && sym[decode_table@[b] as int] == b),
            decreases 64 - i,
        {
            let symbol = encode_table[i];
            decode_table.set(symbol as usize, i as u8);
            proof {
                assert forall|j: int| 0 <= j < i + 1 implies decode_table@[#[trigger] sym[j] as int]
                    == j by {
                    if j < i {
                        assert(sym[j] != sym[i as int]);
                    }
                }
            }
            i += 1;
        }
        proof {
            assert forall|b: u8| #![trigger decode_table@[b as int]]
                decode_table@[b as int] == if sym.contains(b) {
                    value_of(sym, b)
                } else {
                    255u8
                } by {
                if sym.contains(b) {
                    let j = choose|j: int| 0 <= j < sym.len() && sym[j] == b;
                    lemma_index_of_symbol(sym, j);
                    assert(decode_table@[sym[j] as int] == j);
                } else {
                    if decode_table@[b as int] != INVALID_VALUE {
                        let j = decode_table@[b as int] as int;
                        assert(0 <= j < sym.len() && sym[j] == b);
                    }
                }
            }
        }
        GeneralPurpose { encode_table, decode_table, config }
    }

    /// The symbol of value `v`.
    fn symbol(&self, v: u8) -> (b: u8)
        requires
            v < 64,
        ensures
            b == self.symbols()[v as int],
            b < 128,
    {
        proof {
            use_type_invariant(self);
        }
        self.encode_table[v as usize]
    }

    /// The encoding of `input`, as bytes.
    pub fn encode_bytes(&self, input: &[u8]) -> (out: Vec<u8>)
        ensures
            out@ == encode_spec(self.symbols(), input@, self.spec_config().pads()),
            all_ascii(out@),
    {
        proof {
            use_type_invariant(self);
        }
        let n = input.len();
        let w = n - n % 3;
        let ghost sym = self.symbols();
        let ghost x = input@.take(w as int);
        let mut out: Vec<u8> = Vec::new();
        let mut i: usize = 0;
        assert(x.skip(0) =~= x);
        while i < w
            invariant
                0 <= i <= w,
                w == n - n % 3,
                n == input@.len(),
                i % 3 == 0,
                x == input@.take(w as int),
                sym == self.symbols(),
                encode_groups(sym, x) == out@ + encode_groups(sym, x.skip(i as int)),
                all_ascii(out@),
            decreases w - i,
        {
            let b0 = input[i];
            let b1 = input[i + 1];
            let b2 = input[i + 2];
            proof {
                lemma_sextets_below_64(b0, b1, b2);
            }
            let ghost rest = x.skip(i as int);
            assert(rest[0] == b0 && rest[1] == b1 && rest[2] == b2);
            assert(rest.skip(3) =~= x.skip(i + 3));
            let ghost before = out@;
            out.push(self.symbol(b0 >> 2));
            out.push(self.symbol(((b0 & 3) << 4) | (b1 >> 4)));
            out.push(self.symbol(((b1 & 15) << 2) | (b2 >> 6)));
            out.push(self.symbol(b2 & 63));
            assert(out@ =~= before + encode_group(sym, b0, b1, b2));
            i += 3;
        }
        assert(x.skip(w as int) =~= Seq::<u8>::empty());
        assert(out@ =~= encode_groups(sym, x));
        let ghost body = out@;
        let ghost rest = input@.skip(w as int);
        if n - w == 1 {
            let b0 = input[w];
            proof {
                lemma_sextets_below_64(b0, 0, 0);
            }
            assert(sextet1(b0, 0) == (b0 & 3) << 4) by (bit_vector);
            out.push(self.symbol(b0 >> 2));
            out.push(self.symbol((b0 & 3) << 4));
            if self.config.encode_padding {
                out.push(PAD_BYTE);
                out.push(PAD_BYTE);
            }
            assert(out@ =~= body + encode_tail(sym, rest, self.config.encode_padding));
        } else if n - w == 2 {
            let b0 = input[w];
            let b1 = input[w + 1];
            proof {
                lemma_sextets_below_64(b0, b1, 0);
            }
            assert(sextet2(b1, 0) == (b1 & 15) << 2) by (bit_vector);
            out.push(self.symbol(b0 >> 2));
            out.push(self.symbol(((b0 & 3) << 4) | (b1 >> 4)));
            out.push(self.symbol((b1 & 15) << 2));
            if self.config.encode_padding {
                out.push(PAD_BYTE);
            }
            assert(out@ =~= body + encode_tail(sym, rest, self.config.encode_padding));
        } else {
            assert(out@ =~= body + encode_tail(sym, rest, self.config.encode_padding));
        }
        out
    }

    /// The value of `b` if it is a symbol of the alphabet.
    fn value(&self, b: u8) -> (r: Option<u8>)
        ensures
            match r {
                Some(v) => self.symbols().contains(b) && v == value_of(self.symbols(), b) && v < 64,
                None => !self.symbols().contains(b),
            },
    {
        proof {
            use_type_invariant(self);
            if self.symbols().contains(b) {
                let j = self.symbols().index_of(b);
                assert(0 <= j < 64);
            }
        }
        let v = self.decode_table[b as usize];
        if v == INVALID_VALUE {
            None
        } else {
            Some(v)
        }
    }

    /// Decodes the whole groups of `input` before position `q`: their bytes,
    /// or the first byte there that is no symbol.
    fn decode_body(&self, input: &[u8], q: usize) -> (res: Result<Vec<u8>, DecodeError>)
        requires
            q <= input@.len(),
            q % 4 == 0,
        ensures
            match res {
                Ok(v) => first_non_symbol(self.symbols(), input@, 0, q as int) is None && v@
                    == decode_groups(self.symbols(), input@.take(q as int)),
                Err(e) => match first_non_symbol(self.symbols(), input@, 0, q as int) {
                    Some(i) => e == DecodeError::InvalidByte(i as usize, input@[i]),
                    None => false,
                },
            },
    {
        let ghost sym = self.symbols();
        let ghost s = input@;
        let mut out: Vec<u8> = Vec::new();
        let mut i: usize = 0;
        let ghost body = s.take(q as int);
        assert(body.skip(0) =~= body);
        while i < q
            invariant
                0 <= i <= q,
                q <= s.len(),
                s == input@,
                sym == self.symbols(),
                i % 4 == 0,
                q % 4 == 0,
                body == s.take(q as int),
                forall|k: int| 0 <= k < i ==> sym.contains(#[trigger] s[k]),
                decode_groups(sym, body) == out@ + decode_groups(sym, body.skip(i as int)),
            decreases q - i,
        {
            let c0 = input[i];
            let m0 = match self.value(c0) {
                Some(v) => v,
                None => {
                    proof {
                        lemma_first_non_symbol_skip(sym, s, 0, i as int, q as int);
                    }
                    return Err(DecodeError::InvalidByte(i, c0));
                },
            };
            let c1 = input[i + 1];
            let m1 = match self.value(c1) {
                Some(v) => v,
                None => {
                    proof {
                        lemma_first_non_symbol_skip(sym, s, 0, i + 1, q as int);
                    }
                    return Err(DecodeError::InvalidByte(i + 1, c1));
                },
            };
            let c2 = input[i + 2];
            let m2 = match self.value(c2) {
                Some(v) => v,
                None => {
                    proof {
                        lemma_first_non_symbol_skip(sym, s, 0, i + 2, q as int);
                    }
                    return Err(DecodeError::InvalidByte(i + 2, c2));
                },
            };
            let c3 = input[i + 3];
            let m3 = match self.value(c3) {
                Some(v) => v,
                None => {
                    proof {
                        lemma_first_non_symbol_skip(sym, s, 0, i + 3, q as int);
                    }
                    return Err(DecodeError::InvalidByte(i + 3, c3));
                },
            };
            let ghost group = body.skip(i as int);
            assert(group[0] == c0 && group[1] == c1 && group[2] == c2 && group[3] == c3);
            assert(group.skip(4) =~= body.skip(i + 4));
            let ghost before = out@;
            out.push((m0 << 2) | (m1 >> 4));
            out.push((m1 << 4) | (m2 >> 2));
            out.push((m2 << 6) | m3);
            assert(out@ =~= before + seq![byte0(m0, m1), byte1(m1, m2), byte2(m2, m3)]);
            i += 4;
        }
        assert(body.skip(q as int) =~= Seq::<u8>::empty());
        assert(out@ =~= decode_groups(sym, body));
        proof {
            lemma_first_non_symbol_skip(sym, s, 0, q as int, q as int);
        }
        Ok(out)
    }

    /// Reads the last group of `input`, from `q` on: the number of pad
    /// bytes, the offset of the first, and the values of the symbols, or
    /// the first error.
    fn scan_last_group(&self, input: &[u8], q: usize) -> (res: Result<
        (usize, usize, Vec<u8>),
        DecodeError,
    >)
        requires
            q <= input@.len(),
            input@.len() - q <= 4,
        ensures
            match res {
                Ok((pads, first_pad, m)) => scan_tail(
                    self.symbols(),
                    input@,
                    q as int,
                    input@.len() - q,
                ) == Ok::<(nat, int, Seq<u8>), DecodeError>((pads as nat, first_pad as int, m@))
                    && pads + m@.len() <= input@.len() - q && (forall|j: int|
                    0 <= j < m@.len() ==> #[trigger] m@[j] < 64),
                Err(e) => scan_tail(self.symbols(), input@, q as int, input@.len() - q) == Err::<
                    (nat, int, Seq<u8>),
                    DecodeError,
                >(e),
            },
    {
        let ghost sym = self.symbols();
        let ghost s = input@;
        let n = input.len();
        let tail_len = n - q;
        let mut pads: usize = 0;
        let mut first_pad: usize = 0;
        let mut m: Vec<u8> = Vec::new();
        let mut k: usize = 0;
        while k < tail_len
            invariant
                0 <= k <= tail_len,
                tail_len == n - q,
                tail_len <= 4,
                n == s.len(),
                s == input@,
                sym == self.symbols(),
                pads + m@.len() <= k,
                pads > 0 ==> first_pad < k,
                forall|j: int| 0 <= j < m@.len() ==> #[trigger] m@[j] < 64,
                scan_tail(sym, s, q as int, k as int) == Ok::<(nat, int, Seq<u8>), DecodeError>(
                    (pads as nat, first_pad as int, m@),
                ),
            decreases tail_len - k,
        {
            let b = input[q + k];
            if b == PAD_BYTE {
                if k < 2 {
                    proof {
                        lemma_scan_tail_err_stays(sym, s, q as int, k + 1, tail_len as int);
                    }
                    return Err(DecodeError::InvalidByte(q + k, PAD_BYTE));
                }
                if pads == 0 {
                    first_pad = k;
                }
                pads += 1;
            } else {
                if pads > 0 {
                    proof {
                        lemma_scan_tail_err_stays(sym, s, q as int, k + 1, tail_len as int);
                    }
                    return Err(DecodeError::InvalidByte(q + first_pad, PAD_BYTE));
                }
                match self.value(b) {
                    Some(v) => {
                        m.push(v);
                    },
                    None => {
                        proof {
                            lemma_scan_tail_err_stays(sym, s, q as int, k + 1, tail_len as int);
                        }
                        return Err(DecodeError::InvalidByte(q + k, b));
                    },
                }
            }
            k += 1;
        }
        Ok((pads, first_pad, m))
    }

    /// Decodes `input`: the bytes it encodes, or the first error found.
    pub fn decode(&self, input: &[u8]) -> (res: Result<Vec<u8>, DecodeError>)
        ensures
            bytes_result(res) == decode_spec(
                self.symbols(),
                input@,
                self.spec_config().allows_trailing_bits(),
                self.spec_config().padding_mode(),
            ),
    {
        let n = input.len();
        let rem = n % 4;
        if rem == 1 {
            let last = input[n - 1];
            if last != PAD_BYTE && self.value(last).is_none() {
                return Err(DecodeError::InvalidByte(n - 1, last));
            }
        }
        let q: usize = if n == 0 {
            0
        } else if rem == 0 {
            n - 4
        } else {
            n - rem
        };
        let mut out = match self.decode_body(input, q) {
            Ok(v) => v,
            Err(e) => {
                return Err(e);
            },
        };
        let (pads, _first_pad, m) = match self.scan_last_group(input, q) {
            Ok(scan) => scan,
            Err(e) => {
                return Err(e);
            },
        };
        let count = m.len();
        if n > 0 && count < 2 {
            return Err(DecodeError::InvalidLength(q + count));
        }
        match self.config.decode_padding_mode {
            DecodePaddingMode::Indifferent => {},
            DecodePaddingMode::RequireCanonical => {
                if (pads + count) % 4 != 0 {
                    return Err(DecodeError::InvalidPadding);
                }
            },
            DecodePaddingMode::RequireNone => {
                if pads > 0 {
                    return Err(DecodeError::InvalidPadding);
                }
            },
        }
        let m0: u8 = if count > 0 {
            m[0]
        } else {
            0
        };
        let m1: u8 = if count > 1 {
            m[1]
        } else {
            0
        };
        let m2: u8 = if count > 2 {
            m[2]
        } else {
            0
        };
        let m3: u8 = if count > 3 {
            m[3]
        } else {
            0
        };
        if !self.config.decode_allow_trailing_bits && ((count == 2 && m1 & 15 != 0) || (count == 3
            && m2 & 3 != 0)) {
            return Err(DecodeError::InvalidLastSymbol(q + count - 1, input[q + count - 1]));
        }
        let ghost groups = out@;
        let produced = count * 6 / 8;
        if produced >= 1 {
            out.push((m0 << 2) | (m1 >> 4));
        }
        if produced >= 2 {
            out.push((m1 << 4) | (m2 >> 2));
        }
        if produced >= 3 {
            out.push((m2 << 6) | m3);
        }
        assert(out@ =~= groups + tail_bytes(m@));
        Ok(out)
    }

    /// The encoding of `input`, as a string.
    pub fn encode(&self, input: &[u8]) -> (s: String)
        ensures
            s@ == ascii_chars(encode_spec(self.symbols(), input@, self.spec_config().pads())),
            all_ascii(encode_spec(self.symbols(), input@, self.spec_config().pads())),
    {
        ascii_string(self.encode_bytes(input))
    }
}

/// Length of the encoding of `bytes_len` bytes, or `None` where it would not
/// fit in a `usize`.
pub fn encoded_len(bytes_len: usize, padding: bool) -> (r: Option<usize>)
    ensures
        match r {
            Some(len) => len == encoded_len_spec(bytes_len as int, padding),
            None => encoded_len_spec(bytes_len as int, padding) > usize::MAX,
        },
{
    let rem = bytes_len % 3;
    let complete_input_chunks = bytes_len / 3;
    let complete_chunk_output = match complete_input_chunks.checked_mul(4) {
        Some(len) => len,
        None => {
            return None;
        },
    };
    if rem > 0 {
        if padding {
            complete_chunk_output.checked_add(4)
        } else {
            let encoded_rem: usize = if rem == 1 {
                2
            } else {
                3
            };
            complete_chunk_output.checked_add(encoded_rem)
        }
    } else {
        Some(complete_chunk_output)
    }
}

/// A conservative estimate of the length of what `encoded_len` symbols
/// decode to: three bytes per group of four, a short group counted whole.
/// It is defined, and never panics, for every `usize`.
pub fn decoded_len_estimate(encoded_len: usize) -> (r: usize)
    ensures
        r == decoded_len_estimate_spec(encoded_len as int),
{
    let rem = encoded_len % 4;
    let groups: usize = encoded_len / 4 + if rem > 0 {
        1
    } else {
        0
    };
    groups * 3
}

/// The text that describes a decoding error.
pub open spec fn decode_error_text(e: DecodeError) -> Seq<char> {
    match e {
        DecodeError::InvalidByte(index, byte) => "Invalid symbol "@ + decimal_chars(byte as nat)
            + ", offset "@ + decimal_chars(index as nat) + "."@,
        DecodeError::InvalidLength(len) => "Invalid input length: "@ + decimal_chars(len as nat),
        DecodeError::InvalidLastSymbol(index, byte) => "Invalid last symbol "@ + decimal_chars(
            byte as nat,
        ) + ", offset "@ + decimal_chars(index as nat) + "."@,
        DecodeError::InvalidPadding => "Invalid padding"@,
    }
}

impl DecodeError {
    /// The text that describes this error.
    pub fn message(&self) -> (s: String)
        ensures
            s@ == decode_error_text(*self),
    {
        match *self {
            DecodeError::InvalidByte(index, byte) => {
                let s = String::from_str("Invalid symbol ").concat(decimal(byte as u128).as_str());
                let s = s.concat(", offset ").concat(decimal(index as u128).as_str());
                s.concat(".")
            },
            DecodeError::InvalidLength(len) => {
                String::from_str("Invalid input length: ").concat(decimal(len as u128).as_str())
            },
            DecodeError::InvalidLastSymbol(index, byte) => {
                let s = String::from_str("Invalid last symbol ").concat(
                    decimal(byte as u128).as_str(),
                );
                let s = s.concat(", offset ").concat(decimal(index as u128).as_str());
                s.concat(".")
            },
            DecodeError::InvalidPadding => String::from_str("Invalid padding"),
        }
    }
}

} // verus!
