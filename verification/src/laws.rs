//! The laws of the library: what holds of every input, across functions.

use vstd::prelude::*;

use crate::codec::{
    body_len, first_non_symbol, byte0, byte1, byte2, decode_groups, decode_spec, decoded_len_estimate_spec,
    encode_group, encode_groups, encode_spec, encode_tail, encoded_len_spec,
    lemma_first_non_symbol_skip, scan_tail, sextet0, sextet1, sextet2, tail_bytes, valid_symbols,
    value_of, whole_groups_len, PAD_BYTE,
};
use crate::engine::{DecodeError, DecodePaddingMode};
use crate::lemmas::{
    lemma_bytes_split, lemma_decode_encode_groups, lemma_decode_groups_len,
    lemma_encode_decode_groups, lemma_encode_groups_append, lemma_encode_groups_len,
    lemma_encode_groups_symbols, lemma_first_non_symbol_none, lemma_first_non_symbol_some, lemma_group_values,
    lemma_scan_symbols_then_pads, lemma_scan_tail_counts, lemma_scan_tail_error, lemma_scan_tail_shape,
    lemma_sextets_join, lemma_symbol_value, lemma_value_symbol,
};

verus! {

/// Whether the padding an encoder writes for `n` bytes is what a decoder
/// in `mode` accepts: nothing to pad, or padding written and not refused,
/// or none written and none required.
pub open spec fn padding_agrees(pad: bool, mode: DecodePaddingMode, n: int) -> bool {
    n % 3 == 0 || if pad {
        !(mode is RequireNone)
    } else {
        !(mode is RequireCanonical)
    }
}

/// Round trip: decoding an encoding gives back the encoded bytes, over any
/// valid alphabet, whether or not trailing bits are allowed, whenever the
/// decoder accepts the padding the encoder writes.
pub proof fn law_decode_encode(
    sym: Seq<u8>,
    x: Seq<u8>,
    pad: bool,
    allow_trailing_bits: bool,
    mode: DecodePaddingMode,
)
    requires
        valid_symbols(sym),
        padding_agrees(pad, mode, x.len() as int),
    ensures
        decode_spec(sym, encode_spec(sym, x, pad), allow_trailing_bits, mode) == Ok::<
            Seq<u8>,
            DecodeError,
        >(x),
{
    let len = x.len() as int;
    if len == 0 {
        let e = encode_spec(sym, x, pad);
        assert(x.take(0) =~= Seq::<u8>::empty());
        assert(e =~= Seq::<u8>::empty());
        assert(e.take(0) =~= Seq::<u8>::empty());
        assert(tail_bytes(Seq::<u8>::empty()) =~= Seq::<u8>::empty());
        assert(decode_groups(sym, Seq::<u8>::empty()) + tail_bytes(Seq::<u8>::empty()) =~= x);
    } else if len % 3 == 0 {
        lemma_round_trip_whole(sym, x, pad, allow_trailing_bits, mode);
    } else {
        lemma_round_trip_partial(sym, x, pad, allow_trailing_bits, mode);
    }
}

/// Decoding an input made of whole groups, `c` symbols and `p` pads.
proof fn lemma_decode_shape(
    sym: Seq<u8>,
    e: Seq<u8>,
    y: Seq<u8>,
    c: int,
    p: int,
    allow_trailing_bits: bool,
    mode: DecodePaddingMode,
)
    requires
        valid_symbols(sym),
        y.len() % 3 == 0,
        2 <= c <= 4,
        0 <= p,
        c + p == 4 || (p == 0 && c < 4),
        e.len() == encode_groups(sym, y).len() + c + p,
        e.take(encode_groups(sym, y).len() as int) == encode_groups(sym, y),
        forall|j: int|
            0 <= j < c ==> sym.contains(#[trigger] e[encode_groups(sym, y).len() + j]),
        forall|j: int| c <= j < c + p ==> #[trigger] e[encode_groups(sym, y).len() + j] == PAD_BYTE,
        !(mode is RequireNone && p > 0),
        !(mode is RequireCanonical && (p + c) % 4 != 0),
        !allow_trailing_bits ==> !crate::codec::has_trailing_bits(
            Seq::new(c as nat, |j: int| value_of(sym, e[encode_groups(sym, y).len() + j])),
        ),
    ensures
        decode_spec(sym, e, allow_trailing_bits, mode) == Ok::<Seq<u8>, DecodeError>(
            y + tail_bytes(
                Seq::new(c as nat, |j: int| value_of(sym, e[encode_groups(sym, y).len() + j])),
            ),
        ),
{
    let eg = encode_groups(sym, y);
    let q = eg.len() as int;
    let n = e.len() as int;
    lemma_encode_groups_len(sym, y);
    assert(q % 4 == 0);
    assert(body_len(n) == q);
    lemma_encode_groups_symbols(sym, y);
    assert forall|k: int| 0 <= k < q implies sym.contains(#[trigger] e[k]) by {
        assert(e[k] == e.take(q)[k]);
    }
    lemma_first_non_symbol_skip(sym, e, 0, q, q);
    lemma_scan_symbols_then_pads(sym, e, q, c, p, c + p);
    lemma_decode_encode_groups(sym, y);
}

/// Round trip for inputs of whole groups.
proof fn lemma_round_trip_whole(
    sym: Seq<u8>,
    x: Seq<u8>,
    pad: bool,
    allow_trailing_bits: bool,
    mode: DecodePaddingMode,
)
    requires
        valid_symbols(sym),
        x.len() > 0,
        x.len() % 3 == 0,
    ensures
        decode_spec(sym, encode_spec(sym, x, pad), allow_trailing_bits, mode) == Ok::<
            Seq<u8>,
            DecodeError,
        >(x),
{
    let len = x.len() as int;
    let y = x.take(len - 3);
    let z = x.skip(len - 3);
    assert(x =~= y + z);
    assert(x.take(whole_groups_len(len)) =~= x);
    assert(encode_tail(sym, x.skip(len), pad) =~= Seq::<u8>::empty());
    let e = encode_spec(sym, x, pad);
    assert(e =~= encode_groups(sym, x));
    lemma_encode_groups_append(sym, y, z);
    let g = encode_group(sym, z[0], z[1], z[2]);
    assert(z.skip(3) =~= Seq::<u8>::empty());
    assert(encode_groups(sym, z.skip(3)) =~= Seq::<u8>::empty());
    assert(encode_groups(sym, z) =~= g);
    let eg = encode_groups(sym, y);
    lemma_encode_groups_len(sym, y);
    let q = eg.len() as int;
    assert(e =~= eg + g);
    assert(e.take(q) =~= eg);
    lemma_group_values(sym, z[0], z[1], z[2]);
    assert(e[q] == g[0] && e[q + 1] == g[1] && e[q + 2] == g[2] && e[q + 3] == g[3]);
    let m = Seq::new(4nat, |j: int| value_of(sym, e[q + j]));
    lemma_decode_shape(sym, e, y, 4, 0, allow_trailing_bits, mode);
    lemma_sextets_join(z[0], z[1], z[2]);
    assert(tail_bytes(m) =~= z);
}

/// Round trip for inputs that end in a short group.
proof fn lemma_round_trip_partial(
    sym: Seq<u8>,
    x: Seq<u8>,
    pad: bool,
    allow_trailing_bits: bool,
    mode: DecodePaddingMode,
)
    requires
        valid_symbols(sym),
        x.len() % 3 != 0,
        padding_agrees(pad, mode, x.len() as int),
    ensures
        decode_spec(sym, encode_spec(sym, x, pad), allow_trailing_bits, mode) == Ok::<
            Seq<u8>,
            DecodeError,
        >(x),
{
    let len = x.len() as int;
    let w = whole_groups_len(len);
    let y = x.take(w);
    let t = x.skip(w);
    assert(x =~= y + t);
    let eg = encode_groups(sym, y);
    let et = encode_tail(sym, t, pad);
    let e = encode_spec(sym, x, pad);
    lemma_encode_groups_len(sym, y);
    let q = eg.len() as int;
    assert(e.take(q) =~= eg);
    let b0 = t[0];
    let b1: u8 = if t.len() > 1 {
        t[1]
    } else {
        0
    };
    lemma_sextets_join(b0, b1, 0);
    lemma_group_values(sym, b0, b1, 0);
    let c: int = t.len() as int + 1;
    let p: int = if pad {
        3 - t.len()
    } else {
        0
    };
    assert(e.len() == q + c + p);
    assert forall|j: int| c <= j < c + p implies #[trigger] e[q + j] == PAD_BYTE by {
        assert(e[q + j] == et[j]);
    }
    if t.len() == 1 {
        assert(e[q] == sym[sextet0(b0) as int]);
        assert(e[q + 1] == sym[sextet1(b0, 0) as int]);
        lemma_symbol_value(sym, sextet0(b0));
        lemma_symbol_value(sym, sextet1(b0, 0));
        assert forall|j: int| 0 <= j < c implies sym.contains(#[trigger] e[q + j]) by {}
        let m = Seq::new(c as nat, |j: int| value_of(sym, e[q + j]));
        assert(m[1] == sextet1(b0, 0));
        lemma_decode_shape(sym, e, y, c, p, allow_trailing_bits, mode);
        assert(tail_bytes(m) =~= t);
    } else {
        assert(e[q] == sym[sextet0(b0) as int]);
        assert(e[q + 1] == sym[sextet1(b0, b1) as int]);
        assert(e[q + 2] == sym[sextet2(b1, 0) as int]);
        lemma_symbol_value(sym, sextet0(b0));
        lemma_symbol_value(sym, sextet1(b0, b1));
        lemma_symbol_value(sym, sextet2(b1, 0));
        assert forall|j: int| 0 <= j < c implies sym.contains(#[trigger] e[q + j]) by {}
        let m = Seq::new(c as nat, |j: int| value_of(sym, e[q + j]));
        assert(m[2] == sextet2(b1, 0));
        lemma_decode_shape(sym, e, y, c, p, allow_trailing_bits, mode);
        assert(tail_bytes(m) =~= t);
    }
}

/// The encoding of `n` bytes is `encoded_len_spec(n)` long: four symbols per
/// whole group, and for a short group two or three, or four with padding.
pub proof fn law_encoded_len(sym: Seq<u8>, x: Seq<u8>, pad: bool)
    ensures
        encode_spec(sym, x, pad).len() == encoded_len_spec(x.len() as int, pad),
{
    let w = whole_groups_len(x.len() as int);
    lemma_encode_groups_len(sym, x.take(w));
}

/// The decoding estimate is safe and tight: whatever an input of length
/// `n` decodes to is at most `decoded_len_estimate_spec(n)` long, and at most
/// two bytes shorter.
pub proof fn law_decoded_len_estimate(
    sym: Seq<u8>,
    s: Seq<u8>,
    allow_trailing_bits: bool,
    mode: DecodePaddingMode,
)
    requires
        decode_spec(sym, s, allow_trailing_bits, mode) is Ok,
    ensures
        ({
            let v = decode_spec(sym, s, allow_trailing_bits, mode)->Ok_0;
            &&& v.len() <= decoded_len_estimate_spec(s.len() as int)
            &&& decoded_len_estimate_spec(s.len() as int) <= v.len() + 2
        }),
{
    let n = s.len() as int;
    let q = body_len(n);
    let scan = scan_tail(sym, s, q, n - q);
    lemma_scan_tail_counts(sym, s, q, n - q);
    lemma_decode_groups_len(sym, s.take(q));
    let m = scan->Ok_0.2;
    assert(tail_bytes(m).len() == m.len() * 6 / 8);
}

/// Whether a decoder in `mode` takes exactly the padding an encoder with
/// padding `pad` writes: required where it writes it, refused where not.
pub open spec fn strict_padding(pad: bool, mode: DecodePaddingMode) -> bool {
    if pad {
        mode is RequireCanonical
    } else {
        mode is RequireNone
    }
}

/// Canonical decoding: a decoder that refuses trailing bits and takes
/// exactly the encoder's padding accepts only encodings; whatever it
/// decodes, encoding that gives back the input. So over such a
/// configuration, every byte string has at most one encoding.
pub proof fn law_encode_decode(sym: Seq<u8>, s: Seq<u8>, pad: bool, mode: DecodePaddingMode)
    requires
        valid_symbols(sym),
        strict_padding(pad, mode),
        decode_spec(sym, s, false, mode) is Ok,
    ensures
        encode_spec(sym, decode_spec(sym, s, false, mode)->Ok_0, pad) == s,
{
    let n = s.len() as int;
    let q = body_len(n);
    let body = s.take(q);
    let v = decode_spec(sym, s, false, mode)->Ok_0;
    lemma_first_non_symbol_none(sym, s, 0, q);
    lemma_scan_tail_shape(sym, s, q, n - q);
    let (pads, _first_pad, m) = scan_tail(sym, s, q, n - q)->Ok_0;
    assert forall|k: int| 0 <= k < body.len() implies sym.contains(#[trigger] body[k]) by {
        assert(body[k] == s[k]);
    }
    lemma_encode_decode_groups(sym, body);
    lemma_decode_groups_len(sym, body);
    let d = decode_groups(sym, body);
    let t = tail_bytes(m);
    assert(v == d + t);
    if n == 0 {
        assert(v =~= Seq::<u8>::empty());
        assert(v.take(0) =~= Seq::<u8>::empty());
        assert(encode_spec(sym, v, pad) =~= s);
    } else {
        let m0 = m[0];
        let m1 = m[1];
        assert(sym.contains(s[q + 0]) && m0 == value_of(sym, s[q + 0]));
        assert(sym.contains(s[q + 1]) && m1 == value_of(sym, s[q + 1]));
        assert(s[q + 0] == s[q]);
        lemma_value_symbol(sym, s[q]);
        lemma_value_symbol(sym, s[q + 1]);
        let m2: u8 = if m.len() > 2 {
            m[2]
        } else {
            0
        };
        let m3: u8 = if m.len() > 3 {
            m[3]
        } else {
            0
        };
        if m.len() > 2 {
            assert(sym.contains(s[q + 2]) && m2 == value_of(sym, s[q + 2]));
            lemma_value_symbol(sym, s[q + 2]);
        }
        if m.len() > 3 {
            assert(sym.contains(s[q + 3]) && m3 == value_of(sym, s[q + 3]));
            lemma_value_symbol(sym, s[q + 3]);
        }
        lemma_bytes_split(m0, m1, m2, m3);
        let e = encode_spec(sym, v, pad);
        if m.len() == 4 {
            assert(t =~= seq![byte0(m0, m1), byte1(m1, m2), byte2(m2, m3)]);
            assert(v.take(v.len() as int) =~= v);
            assert(v.skip(v.len() as int) =~= Seq::<u8>::empty());
            lemma_encode_groups_append(sym, d, t);
            assert(t.skip(3) =~= Seq::<u8>::empty());
            assert(encode_groups(sym, t.skip(3)) =~= Seq::<u8>::empty());
            assert(encode_groups(sym, t) =~= encode_group(sym, t[0], t[1], t[2]));
            assert(e =~= body + encode_group(sym, t[0], t[1], t[2]));
            assert(e =~= s);
        } else {
            let w = whole_groups_len(v.len() as int);
            assert(w == d.len());
            assert(v.take(w) =~= d);
            assert(v.skip(w) =~= t);
            assert(e =~= body + encode_tail(sym, t, pad));
            if m.len() == 2 {
                assert(t =~= seq![byte0(m0, m1)]);
                assert(m1 & 15 == 0);
            } else {
                assert(t =~= seq![byte0(m0, m1), byte1(m1, m2)]);
                assert(m2 & 3 == 0);
            }
            assert(e =~= s);
        }
    }
}

/// Every decoding error points into the input: an invalid byte is named by
/// its position and value, and is `=` or no symbol; an invalid length is
/// the length of the input; an invalid last symbol is named by its
/// position and value, is a symbol, and only `=` follows it.
pub proof fn law_decode_errors_point_into_input(
    sym: Seq<u8>,
    s: Seq<u8>,
    allow_trailing_bits: bool,
    mode: DecodePaddingMode,
)
    requires
        valid_symbols(sym),
        s.len() <= usize::MAX,
    ensures
        match decode_spec(sym, s, allow_trailing_bits, mode) {
            Err(DecodeError::InvalidByte(i, b)) => i < s.len() && s[i as int] == b && (b
                == PAD_BYTE || !sym.contains(b)),
            Err(DecodeError::InvalidLength(len)) => len == s.len(),
            Err(DecodeError::InvalidLastSymbol(i, b)) => {
                &&& i < s.len()
                &&& s[i as int] == b
                &&& sym.contains(b)
                &&& forall|j: int| i < j < s.len() ==> #[trigger] s[j] == PAD_BYTE
            },
            _ => true,
        },
{
    let n = s.len() as int;
    let q = body_len(n);
    if n % 4 == 1 && s[n - 1] != PAD_BYTE && !sym.contains(s[n - 1]) {
    } else if first_non_symbol(sym, s, 0, q) is Some {
        lemma_first_non_symbol_some(sym, s, 0, q);
    } else if scan_tail(sym, s, q, n - q) is Err {
        lemma_scan_tail_error(sym, s, q, n - q);
    } else {
        lemma_scan_tail_shape(sym, s, q, n - q);
        let (pads, first_pad, m) = scan_tail(sym, s, q, n - q)->Ok_0;
        if m.len() > 0 {
            assert(sym.contains(s[q + (m.len() - 1)]));
        }
        assert forall|j: int| q + m.len() - 1 < j < n implies #[trigger] s[j] == PAD_BYTE by {
            assert(s[q + (j - q)] == PAD_BYTE);
        }
    }
}

} // verus!
