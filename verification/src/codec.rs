//! Mathematical model of base64: what an encoding is, and what decoding
//! an arbitrary byte string yields, including which error comes first.

use vstd::prelude::*;

use crate::engine::{DecodeError, DecodePaddingMode};

verus! {

/// The byte `=`, which pads an encoding to a whole number of four-symbol groups.
pub const PAD_BYTE: u8 = 61;

/// Printable ASCII, from space to tilde.
pub open spec fn is_printable(b: u8) -> bool {
    32 <= b && b <= 126
}

/// What an alphabet must be: 64 printable, pairwise distinct symbols, none of them `=`.
pub open spec fn valid_symbols(sym: Seq<u8>) -> bool {
    &&& sym.len() == 64
    &&& forall|i: int| 0 <= i < 64 ==> is_printable(#[trigger] sym[i]) && sym[i] != PAD_BYTE
    &&& forall|i: int, j: int|
        #![trigger sym[i], sym[j]]
        0 <= i < 64 && 0 <= j < 64 && i != j ==> sym[i] != sym[j]
}

/// In a valid alphabet the position of a symbol is the one it was found at.
pub proof fn lemma_index_of_symbol(sym: Seq<u8>, i: int)
    requires
        valid_symbols(sym),
        0 <= i < 64,
    ensures
        sym.contains(sym[i]),
        sym.index_of(sym[i]) == i,
{
    assert(0 <= i < sym.len() && sym[i] == sym[i]);
    let j = sym.index_of(sym[i]);
    assert(0 <= j < sym.len() && sym[j] == sym[i]);
}

/// First sextet of a group: the high six bits of its first byte.
pub open spec fn sextet0(b0: u8) -> u8 {
    b0 >> 2
}

/// Second sextet: low two bits of the first byte, high four of the second.
pub open spec fn sextet1(b0: u8, b1: u8) -> u8 {
    ((b0 & 3) << 4) | (b1 >> 4)
}

/// Third sextet: low four bits of the second byte, high two of the third.
pub open spec fn sextet2(b1: u8, b2: u8) -> u8 {
    ((b1 & 15) << 2) | (b2 >> 6)
}

/// Fourth sextet: the low six bits of the third byte.
pub open spec fn sextet3(b2: u8) -> u8 {
    b2 & 63
}

/// The four symbols that encode three bytes.
pub open spec fn encode_group(sym: Seq<u8>, b0: u8, b1: u8, b2: u8) -> Seq<u8> {
    seq![
        sym[sextet0(b0) as int],
        sym[sextet1(b0, b1) as int],
        sym[sextet2(b1, b2) as int],
        sym[sextet3(b2) as int],
    ]
}

/// Encoding of whole three-byte groups, four symbols each.
pub open spec fn encode_groups(sym: Seq<u8>, data: Seq<u8>) -> Seq<u8>
    decreases data.len(),
{
    if data.len() < 3 {
        seq![]
    } else {
        encode_group(sym, data[0], data[1], data[2]) + encode_groups(sym, data.skip(3))
    }
}

/// Encoding of the last one or two bytes: two or three symbols, then, with
/// padding, `=` up to a whole group.
pub open spec fn encode_tail(sym: Seq<u8>, rest: Seq<u8>, pad: bool) -> Seq<u8> {
    if rest.len() == 1 {
        seq![sym[sextet0(rest[0]) as int], sym[sextet1(rest[0], 0) as int]] + if pad {
            seq![PAD_BYTE, PAD_BYTE]
        } else {
            Seq::<u8>::empty()
        }
    } else if rest.len() == 2 {
        seq![
            sym[sextet0(rest[0]) as int],
            sym[sextet1(rest[0], rest[1]) as int],
            sym[sextet2(rest[1], 0) as int],
        ] + if pad {
            seq![PAD_BYTE]
        } else {
            Seq::<u8>::empty()
        }
    } else {
        seq![]
    }
}

/// Number of input bytes that fill whole three-byte groups.
pub open spec fn whole_groups_len(n: int) -> int {
    n - n % 3
}

/// The base64 encoding of `data` over the alphabet `sym`.
pub open spec fn encode_spec(sym: Seq<u8>, data: Seq<u8>, pad: bool) -> Seq<u8> {
    let w = whole_groups_len(data.len() as int);
    encode_groups(sym, data.take(w)) + encode_tail(sym, data.skip(w), pad)
}

/// Length of the encoding of `n` bytes.
pub open spec fn encoded_len_spec(n: int, pad: bool) -> int {
    4 * (n / 3) + if n % 3 == 0 {
        0
    } else if pad {
        4
    } else {
        n % 3 + 1
    }
}

/// First byte of a decoded group.
pub open spec fn byte0(m0: u8, m1: u8) -> u8 {
    (m0 << 2) | (m1 >> 4)
}

/// Second byte of a decoded group.
pub open spec fn byte1(m1: u8, m2: u8) -> u8 {
    (m1 << 4) | (m2 >> 2)
}

/// Third byte of a decoded group.
pub open spec fn byte2(m2: u8, m3: u8) -> u8 {
    (m2 << 6) | m3
}

/// The value, 0 to 63, of a symbol of the alphabet.
pub open spec fn value_of(sym: Seq<u8>, b: u8) -> u8 {
    sym.index_of(b) as u8
}

/// Decoding of whole four-symbol groups, three bytes each.
pub open spec fn decode_groups(sym: Seq<u8>, t: Seq<u8>) -> Seq<u8>
    decreases t.len(),
{
    if t.len() < 4 {
        seq![]
    } else {
        let m0 = value_of(sym, t[0]);
        let m1 = value_of(sym, t[1]);
        let m2 = value_of(sym, t[2]);
        let m3 = value_of(sym, t[3]);
        seq![byte0(m0, m1), byte1(m1, m2), byte2(m2, m3)] + decode_groups(sym, t.skip(4))
    }
}

/// Bytes carried by the sextets of the last group: one for two, two for
/// three, three for four.
pub open spec fn tail_bytes(m: Seq<u8>) -> Seq<u8> {
    let m0: u8 = if m.len() > 0 { m[0] } else { 0 };
    let m1: u8 = if m.len() > 1 { m[1] } else { 0 };
    let m2: u8 = if m.len() > 2 { m[2] } else { 0 };
    let m3: u8 = if m.len() > 3 { m[3] } else { 0 };
    seq![byte0(m0, m1), byte1(m1, m2), byte2(m2, m3)].take((m.len() * 6 / 8) as int)
}

/// Whether the last sextet of the last group holds bits that no output byte takes.
pub open spec fn has_trailing_bits(m: Seq<u8>) -> bool {
    (m.len() == 2 && m[1] & 15 != 0) || (m.len() == 3 && m[2] & 3 != 0)
}

/// Length of the part of an input decoded group by group before its last
/// group, which may be short or padded.
pub open spec fn body_len(n: int) -> int {
    if n == 0 {
        0
    } else if n % 4 == 0 {
        n - 4
    } else {
        n - n % 4
    }
}

/// First position in `from..to` whose byte is no symbol of the alphabet.
pub open spec fn first_non_symbol(sym: Seq<u8>, s: Seq<u8>, from: int, to: int) -> Option<int>
    decreases to - from,
{
    if from >= to {
        None
    } else if !sym.contains(s[from]) {
        Some(from)
    } else {
        first_non_symbol(sym, s, from + 1, to)
    }
}

/// Scan of the first `k` bytes of the last group, starting at `start`:
/// either the first error, or the number of pad bytes, the offset of the
/// first of them, and the values of the symbols before them.
pub open spec fn scan_tail(sym: Seq<u8>, s: Seq<u8>, start: int, k: int) -> Result<
    (nat, int, Seq<u8>),
    DecodeError,
>
    decreases k,
{
    if k <= 0 {
        Ok((0nat, 0int, Seq::<u8>::empty()))
    } else {
        match scan_tail(sym, s, start, k - 1) {
            Err(e) => Err(e),
            Ok((pads, first_pad, m)) => {
                let i = k - 1;
                let b = s[start + i];
                if b == PAD_BYTE {
                    if i < 2 {
                        Err(DecodeError::InvalidByte((start + i) as usize, PAD_BYTE))
                    } else {
                        Ok(
                            (
                                (pads + 1) as nat,
                                if pads == 0 {
                                    i
                                } else {
                                    first_pad
                                },
                                m,
                            ),
                        )
                    }
                } else if pads > 0 {
                    Err(DecodeError::InvalidByte((start + first_pad) as usize, PAD_BYTE))
                } else if !sym.contains(b) {
                    Err(DecodeError::InvalidByte((start + i) as usize, b))
                } else {
                    Ok((pads, first_pad, m.push(value_of(sym, b))))
                }
            },
        }
    }
}

/// What decoding `s` over the alphabet `sym` yields: the decoded bytes, or
/// the first error, checked in this order: a stray last byte after a whole
/// number of groups; a non-symbol before the last group; the last group
/// read byte by byte (misplaced `=`, symbol after `=`, non-symbol); a last
/// group of fewer than two symbols; padding against the mode; and, unless
/// allowed, bits in the last symbol that no output byte takes.
pub open spec fn decode_spec(
    sym: Seq<u8>,
    s: Seq<u8>,
    allow_trailing_bits: bool,
    mode: DecodePaddingMode,
) -> Result<Seq<u8>, DecodeError> {
    let n = s.len() as int;
    let q = body_len(n);
    if n % 4 == 1 && s[n - 1] != PAD_BYTE && !sym.contains(s[n - 1]) {
        Err(DecodeError::InvalidByte((n - 1) as usize, s[n - 1]))
    } else {
        match first_non_symbol(sym, s, 0, q) {
            Some(i) => Err(DecodeError::InvalidByte(i as usize, s[i])),
            None => match scan_tail(sym, s, q, n - q) {
                Err(e) => Err(e),
                Ok((pads, _first_pad, m)) => {
                    if n > 0 && m.len() < 2 {
                        Err(DecodeError::InvalidLength((q + m.len()) as usize))
                    } else if mode is RequireCanonical && (pads + m.len()) % 4 != 0 {
                        Err(DecodeError::InvalidPadding)
                    } else if mode is RequireNone && pads > 0 {
                        Err(DecodeError::InvalidPadding)
                    } else if !allow_trailing_bits && has_trailing_bits(m) {
                        Err(
                            DecodeError::InvalidLastSymbol(
                                (q + m.len() - 1) as usize,
                                s[q + m.len() - 1],
                            ),
                        )
                    } else {
                        Ok(decode_groups(sym, s.take(q)) + tail_bytes(m))
                    }
                },
            },
        }
    }
}

/// Conservative length of the decoding of `n` symbols: three bytes for
/// each group of four, a short group counted whole.
pub open spec fn decoded_len_estimate_spec(n: int) -> int {
    (n / 4 + if n % 4 > 0 {
        1int
    } else {
        0int
    }) * 3
}

/// Every sextet of a group is below 64.
pub proof fn lemma_sextets_below_64(b0: u8, b1: u8, b2: u8)
    ensures
        sextet0(b0) < 64,
        sextet1(b0, b1) < 64,
        sextet2(b1, b2) < 64,
        sextet3(b2) < 64,
{
    assert(b0 >> 2 < 64) by (bit_vector);
    assert(((b0 & 3) << 4) | (b1 >> 4) < 64) by (bit_vector);
    assert(((b1 & 15) << 2) | (b2 >> 6) < 64) by (bit_vector);
    assert(b2 & 63 < 64) by (bit_vector);
}

/// Skipping a run of symbols does not change where the first non-symbol is.
pub proof fn lemma_first_non_symbol_skip(sym: Seq<u8>, s: Seq<u8>, a: int, b: int, c: int)
    requires
        0 <= a <= b <= c <= s.len(),
        forall|k: int| a <= k < b ==> sym.contains(#[trigger] s[k]),
    ensures
        first_non_symbol(sym, s, a, c) == first_non_symbol(sym, s, b, c),
    decreases b - a,
{
    if a < b {
        lemma_first_non_symbol_skip(sym, s, a + 1, b, c);
    }
}

/// Once the scan of the last group has failed, it stays failed with the same error.
pub proof fn lemma_scan_tail_err_stays(sym: Seq<u8>, s: Seq<u8>, start: int, j: int, k: int)
    requires
        0 <= j <= k,
        scan_tail(sym, s, start, j) is Err,
    ensures
        scan_tail(sym, s, start, k) == scan_tail(sym, s, start, j),
    decreases k - j,
{
    if j < k {
        lemma_scan_tail_err_stays(sym, s, start, j, k - 1);
    }
}

} // verus!
