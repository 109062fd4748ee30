//! Facts about the model used by the proofs of the laws.

use vstd::prelude::*;

use crate::codec::{
    byte0, byte1, byte2, decode_groups, encode_group, encode_groups, first_non_symbol,
    lemma_index_of_symbol, lemma_sextets_below_64, scan_tail, sextet0, sextet1, sextet2, sextet3,
    valid_symbols, value_of, PAD_BYTE,
};
use crate::engine::DecodeError;

verus! {

/// Splitting three bytes into sextets and joining them again gives the bytes back.
pub proof fn lemma_sextets_join(b0: u8, b1: u8, b2: u8)
    ensures
        byte0(sextet0(b0), sextet1(b0, b1)) == b0,
        byte1(sextet1(b0, b1), sextet2(b1, b2)) == b1,
        byte2(sextet2(b1, b2), sextet3(b2)) == b2,
        sextet1(b0, 0) & 15 == 0,
        sextet2(b1, 0) & 3 == 0,
{
    assert(((b0 >> 2) << 2) | ((((b0 & 3) << 4) | (b1 >> 4)) >> 4) == b0) by (bit_vector);
    assert(((((b0 & 3) << 4) | (b1 >> 4)) << 4) | ((((b1 & 15) << 2) | (b2 >> 6)) >> 2) == b1)
        by (bit_vector);
    assert(((((b1 & 15) << 2) | (b2 >> 6)) << 6) | (b2 & 63) == b2) by (bit_vector);
    assert((((b0 & 3) << 4) | (0u8 >> 4)) & 15 == 0) by (bit_vector);
    assert((((b1 & 15) << 2) | (0u8 >> 6)) & 3 == 0) by (bit_vector);
}

/// The symbols of a group are symbols of the alphabet, with the values of the sextets.
pub proof fn lemma_group_values(sym: Seq<u8>, b0: u8, b1: u8, b2: u8)
    requires
        valid_symbols(sym),
    ensures
        ({
            let g = encode_group(sym, b0, b1, b2);
            &&& g.len() == 4
            &&& sym.contains(g[0]) && value_of(sym, g[0]) == sextet0(b0)
            &&& sym.contains(g[1]) && value_of(sym, g[1]) == sextet1(b0, b1)
            &&& sym.contains(g[2]) && value_of(sym, g[2]) == sextet2(b1, b2)
            &&& sym.contains(g[3]) && value_of(sym, g[3]) == sextet3(b2)
        }),
{
    lemma_sextets_below_64(b0, b1, b2);
    lemma_symbol_value(sym, sextet0(b0));
    lemma_symbol_value(sym, sextet1(b0, b1));
    lemma_symbol_value(sym, sextet2(b1, b2));
    lemma_symbol_value(sym, sextet3(b2));
}

/// The symbol of value `v` is a symbol, and its value is `v`.
pub proof fn lemma_symbol_value(sym: Seq<u8>, v: u8)
    requires
        valid_symbols(sym),
        v < 64,
    ensures
        sym.contains(sym[v as int]),
        value_of(sym, sym[v as int]) == v,
{
    lemma_index_of_symbol(sym, v as int);
}

/// Whole groups encode to four symbols each.
pub proof fn lemma_encode_groups_len(sym: Seq<u8>, y: Seq<u8>)
    ensures
        encode_groups(sym, y).len() == 4 * (y.len() / 3),
    decreases y.len(),
{
    if y.len() >= 3 {
        lemma_encode_groups_len(sym, y.skip(3));
    }
}

/// Whole groups decode to three bytes each.
pub proof fn lemma_decode_groups_len(sym: Seq<u8>, t: Seq<u8>)
    ensures
        decode_groups(sym, t).len() == 3 * (t.len() / 4),
    decreases t.len(),
{
    if t.len() >= 4 {
        lemma_decode_groups_len(sym, t.skip(4));
    }
}

/// Every byte of an encoding of whole groups is a symbol.
pub proof fn lemma_encode_groups_symbols(sym: Seq<u8>, y: Seq<u8>)
    requires
        valid_symbols(sym),
    ensures
        forall|k: int|
            0 <= k < encode_groups(sym, y).len() ==> sym.contains(#[trigger] encode_groups(sym, y)[k]),
    decreases y.len(),
{
    if y.len() >= 3 {
        lemma_encode_groups_symbols(sym, y.skip(3));
        lemma_group_values(sym, y[0], y[1], y[2]);
        let g = encode_group(sym, y[0], y[1], y[2]);
        let r = encode_groups(sym, y.skip(3));
        assert forall|k: int| 0 <= k < encode_groups(sym, y).len() implies sym.contains(
            #[trigger] encode_groups(sym, y)[k],
        ) by {
            if k < 4 {
                assert(encode_groups(sym, y)[k] == g[k]);
            } else {
                assert(encode_groups(sym, y)[k] == r[k - 4]);
            }
        }
    }
}

/// Encoding whole groups distributes over concatenation at a group boundary.
pub proof fn lemma_encode_groups_append(sym: Seq<u8>, y: Seq<u8>, z: Seq<u8>)
    requires
        y.len() % 3 == 0,
    ensures
        encode_groups(sym, y + z) == encode_groups(sym, y) + encode_groups(sym, z),
    decreases y.len(),
{
    if y.len() == 0 {
        assert(y + z =~= z);
    } else {
        lemma_encode_groups_append(sym, y.skip(3), z);
        assert((y + z).skip(3) =~= y.skip(3) + z);
        assert((y + z)[0] == y[0] && (y + z)[1] == y[1] && (y + z)[2] == y[2]);
        assert(encode_groups(sym, y + z) =~= encode_groups(sym, y) + encode_groups(sym, z));
    }
}

/// Decoding the encoding of whole groups gives the bytes back.
pub proof fn lemma_decode_encode_groups(sym: Seq<u8>, y: Seq<u8>)
    requires
        valid_symbols(sym),
        y.len() % 3 == 0,
    ensures
        decode_groups(sym, encode_groups(sym, y)) == y,
    decreases y.len(),
{
    if y.len() == 0 {
        assert(encode_groups(sym, y) =~= Seq::<u8>::empty());
        assert(decode_groups(sym, encode_groups(sym, y)) =~= y);
    } else {
        let e = encode_groups(sym, y);
        let g = encode_group(sym, y[0], y[1], y[2]);
        lemma_decode_encode_groups(sym, y.skip(3));
        lemma_group_values(sym, y[0], y[1], y[2]);
        lemma_sextets_join(y[0], y[1], y[2]);
        lemma_encode_groups_len(sym, y.skip(3));
        assert(e[0] == g[0] && e[1] == g[1] && e[2] == g[2] && e[3] == g[3]);
        assert(e.skip(4) =~= encode_groups(sym, y.skip(3)));
        assert(decode_groups(sym, e) =~= y);
    }
}

/// A symbol of a valid alphabet is not the pad byte.
pub proof fn lemma_symbol_not_pad(sym: Seq<u8>, b: u8)
    requires
        valid_symbols(sym),
        sym.contains(b),
    ensures
        b != PAD_BYTE,
{
    let i = choose|i: int| 0 <= i < sym.len() && sym[i] == b;
    assert(sym[i] != PAD_BYTE);
}

/// Scanning a last group made of `c` symbols (at least two) and then `p`
/// pad bytes: after `k` bytes, the counts and values read so far.
pub proof fn lemma_scan_symbols_then_pads(sym: Seq<u8>, s: Seq<u8>, q: int, c: int, p: int, k: int)
    requires
        valid_symbols(sym),
        2 <= c,
        0 <= p,
        0 <= q,
        q + c + p <= s.len(),
        0 <= k <= c + p,
        forall|j: int| 0 <= j < c ==> sym.contains(#[trigger] s[q + j]),
        forall|j: int| c <= j < c + p ==> #[trigger] s[q + j] == PAD_BYTE,
    ensures
        scan_tail(sym, s, q, k) == Ok::<(nat, int, Seq<u8>), DecodeError>(
            (
                if k <= c {
                    0nat
                } else {
                    (k - c) as nat
                },
                if k <= c {
                    0int
                } else {
                    c
                },
                Seq::new(
                    if k <= c {
                        k as nat
                    } else {
                        c as nat
                    },
                    |j: int| value_of(sym, s[q + j]),
                ),
            ),
        ),
    decreases k,
{
    if k > 0 {
        lemma_scan_symbols_then_pads(sym, s, q, c, p, k - 1);
        let i = k - 1;
        if i < c {
            lemma_symbol_not_pad(sym, s[q + i]);
            let prev = Seq::new(i as nat, |j: int| value_of(sym, s[q + j]));
            assert(prev.push(value_of(sym, s[q + i])) =~= Seq::new(
                k as nat,
                |j: int| value_of(sym, s[q + j]),
            ));
        } else {
            assert(s[q + i] == PAD_BYTE);
            assert(Seq::new(c as nat, |j: int| value_of(sym, s[q + j])) =~= Seq::new(
                c as nat,
                |j: int| value_of(sym, s[q + j]),
            ));
        }
    } else {
        assert(Seq::new(0nat, |j: int| value_of(sym, s[q + j])) =~= Seq::<u8>::empty());
    }
}

/// A successful scan of `k` bytes counts at most `k` pads and symbols.
pub proof fn lemma_scan_tail_counts(sym: Seq<u8>, s: Seq<u8>, start: int, k: int)
    requires
        scan_tail(sym, s, start, k) is Ok,
    ensures
        ({
            let (pads, _first_pad, m) = scan_tail(sym, s, start, k)->Ok_0;
            pads + m.len() <= if k < 0 {
                0
            } else {
                k
            }
        }),
    decreases k,
{
    if k > 0 {
        if scan_tail(sym, s, start, k - 1) is Err {
            lemma_scan_err_persists(sym, s, start, k);
        } else {
            lemma_scan_tail_counts(sym, s, start, k - 1);
        }
    }
}

proof fn lemma_scan_err_persists(sym: Seq<u8>, s: Seq<u8>, start: int, k: int)
    requires
        k > 0,
        scan_tail(sym, s, start, k - 1) is Err,
    ensures
        scan_tail(sym, s, start, k) is Err,
{
}

/// Joining sextets into bytes and splitting them again gives the sextets
/// back; a sextet whose low bits no byte takes is rebuilt from a zero byte.
pub proof fn lemma_bytes_split(m0: u8, m1: u8, m2: u8, m3: u8)
    requires
        m0 < 64,
        m1 < 64,
        m2 < 64,
        m3 < 64,
    ensures
        sextet0(byte0(m0, m1)) == m0,
        sextet1(byte0(m0, m1), byte1(m1, m2)) == m1,
        sextet2(byte1(m1, m2), byte2(m2, m3)) == m2,
        sextet3(byte2(m2, m3)) == m3,
        m1 & 15 == 0 ==> sextet1(byte0(m0, m1), 0) == m1,
        m2 & 3 == 0 ==> sextet2(byte1(m1, m2), 0) == m2,
{
    assert(m0 < 64 && m1 < 64 ==> ((m0 << 2) | (m1 >> 4)) >> 2 == m0) by (bit_vector);
    assert(m0 < 64 && m1 < 64 && m2 < 64 ==> (((((m0 << 2) | (m1 >> 4)) & 3) << 4) | (((m1 << 4)
        | (m2 >> 2)) >> 4)) == m1) by (bit_vector);
    assert(m1 < 64 && m2 < 64 && m3 < 64 ==> (((((m1 << 4) | (m2 >> 2)) & 15) << 2) | (((m2 << 6)
        | m3) >> 6)) == m2) by (bit_vector);
    assert(m2 < 64 && m3 < 64 ==> ((m2 << 6) | m3) & 63 == m3) by (bit_vector);
    assert(m0 < 64 && m1 < 64 && m1 & 15 == 0 ==> (((((m0 << 2) | (m1 >> 4)) & 3) << 4) | (0u8
        >> 4)) == m1) by (bit_vector);
    assert(m1 < 64 && m2 < 64 && m2 & 3 == 0 ==> (((((m1 << 4) | (m2 >> 2)) & 15) << 2) | (0u8
        >> 6)) == m2) by (bit_vector);
}

/// A symbol's value is below 64, and the symbol of that value is the symbol.
pub proof fn lemma_value_symbol(sym: Seq<u8>, b: u8)
    requires
        valid_symbols(sym),
        sym.contains(b),
    ensures
        value_of(sym, b) < 64,
        sym[value_of(sym, b) as int] == b,
{
    let i = sym.index_of(b);
    assert(0 <= i < 64 && sym[i] == b);
}

/// What a successful scan of the last group has read: its symbols first,
/// with the values it keeps, then its pad bytes, and nothing else.
pub proof fn lemma_scan_tail_shape(sym: Seq<u8>, s: Seq<u8>, start: int, k: int)
    requires
        0 <= k,
        scan_tail(sym, s, start, k) is Ok,
    ensures
        ({
            let (pads, first_pad, m) = scan_tail(sym, s, start, k)->Ok_0;
            &&& m.len() + pads == k
            &&& forall|j: int|
                #![trigger s[start + j]]
                #![trigger m[j]]
                0 <= j < m.len() ==> sym.contains(s[start + j]) && m[j] == value_of(
                    sym,
                    s[start + j],
                )
            &&& forall|j: int| m.len() <= j < k ==> #[trigger] s[start + j] == PAD_BYTE
            &&& pads > 0 ==> first_pad == m.len() && m.len() >= 2
        }),
    decreases k,
{
    if k > 0 {
        if scan_tail(sym, s, start, k - 1) is Err {
            assert(scan_tail(sym, s, start, k) is Err);
        } else {
            lemma_scan_tail_shape(sym, s, start, k - 1);
        }
    }
}

/// A failed scan of the last group names a byte it read: `=` or a byte
/// that is no symbol, at its position in the input.
pub proof fn lemma_scan_tail_error(sym: Seq<u8>, s: Seq<u8>, start: int, k: int)
    requires
        0 <= k,
        0 <= start,
        start + k <= s.len(),
        s.len() <= usize::MAX,
        scan_tail(sym, s, start, k) is Err,
    ensures
        match scan_tail(sym, s, start, k)->Err_0 {
            DecodeError::InvalidByte(i, b) => start <= i < start + k && s[i as int] == b && (b
                == PAD_BYTE || !sym.contains(b)),
            _ => false,
        },
    decreases k,
{
    if k > 0 {
        if scan_tail(sym, s, start, k - 1) is Err {
            lemma_scan_tail_error(sym, s, start, k - 1);
        } else {
            lemma_scan_tail_shape(sym, s, start, k - 1);
        }
    }
}

/// The first non-symbol found lies in the range searched, and is no symbol.
pub proof fn lemma_first_non_symbol_some(sym: Seq<u8>, s: Seq<u8>, a: int, b: int)
    requires
        first_non_symbol(sym, s, a, b) is Some,
    ensures
        a <= first_non_symbol(sym, s, a, b)->0 < b,
        !sym.contains(s[first_non_symbol(sym, s, a, b)->0]),
    decreases b - a,
{
    if a < b && sym.contains(s[a]) {
        lemma_first_non_symbol_some(sym, s, a + 1, b);
    }
}

/// Encoding what whole groups of symbols decode to gives the symbols back.
pub proof fn lemma_encode_decode_groups(sym: Seq<u8>, t: Seq<u8>)
    requires
        valid_symbols(sym),
        t.len() % 4 == 0,
        forall|k: int| 0 <= k < t.len() ==> sym.contains(#[trigger] t[k]),
    ensures
        encode_groups(sym, decode_groups(sym, t)) == t,
    decreases t.len(),
{
    if t.len() == 0 {
        assert(decode_groups(sym, t) =~= Seq::<u8>::empty());
        assert(encode_groups(sym, decode_groups(sym, t)) =~= t);
    } else {
        let rest = t.skip(4);
        assert forall|k: int| 0 <= k < rest.len() implies sym.contains(#[trigger] rest[k]) by {
            assert(rest[k] == t[k + 4]);
        }
        lemma_encode_decode_groups(sym, rest);
        assert(sym.contains(t[0]) && sym.contains(t[1]) && sym.contains(t[2]) && sym.contains(t[3]));
        lemma_value_symbol(sym, t[0]);
        lemma_value_symbol(sym, t[1]);
        lemma_value_symbol(sym, t[2]);
        lemma_value_symbol(sym, t[3]);
        let m0 = value_of(sym, t[0]);
        let m1 = value_of(sym, t[1]);
        let m2 = value_of(sym, t[2]);
        let m3 = value_of(sym, t[3]);
        lemma_bytes_split(m0, m1, m2, m3);
        let d = decode_groups(sym, t);
        let dr = decode_groups(sym, rest);
        assert(d =~= seq![byte0(m0, m1), byte1(m1, m2), byte2(m2, m3)] + dr);
        assert(d[0] == byte0(m0, m1) && d[1] == byte1(m1, m2) && d[2] == byte2(m2, m3));
        assert(d.skip(3) =~= dr);
        assert(encode_groups(sym, d) =~= t);
    }
}

/// Where no non-symbol is found, every byte is a symbol.
pub proof fn lemma_first_non_symbol_none(sym: Seq<u8>, s: Seq<u8>, a: int, b: int)
    requires
        0 <= a,
        b <= s.len(),
        first_non_symbol(sym, s, a, b) is None,
    ensures
        forall|k: int| a <= k < b ==> sym.contains(#[trigger] s[k]),
    decreases b - a,
{
    if a < b {
        lemma_first_non_symbol_none(sym, s, a + 1, b);
    }
}

} // verus!
