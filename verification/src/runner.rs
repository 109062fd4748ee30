//! What the property runner computes: metrics, the canonical inputs, the
//! property names it knows, and the JSON line it reports.

use vstd::prelude::*;
use vstd::string::{StringExecFns, StringSliceAdditionalSpecFns};

use crate::etna::{
    property_binhex_alphabet_matches_spec, property_decoded_len_estimate_does_not_panic, to_err,
};
use crate::text::{decimal, decimal_bytes, decimal_chars, string_from_chars};

verus! {

/// A hexadecimal digit, lower case.
pub open spec fn hex_digit(d: u32) -> char {
    if d < 10 {
        (48 + d) as char
    } else {
        (87 + d) as char
    }
}

/// How JSON writes one character inside a string.
pub open spec fn json_escape_char(c: char) -> Seq<char> {
    if c == '"' {
        seq!['\\', '"']
    } else if c == '\\' {
        seq!['\\', '\\']
    } else if c == '\n' {
        seq!['\\', 'n']
    } else if c == '\r' {
        seq!['\\', 'r']
    } else if c == '\t' {
        seq!['\\', 't']
    } else if (c as u32) < 0x20 {
        seq!['\\', 'u', '0', '0', hex_digit((c as u32) / 16), hex_digit((c as u32) % 16)]
    } else {
        seq![c]
    }
}

/// How JSON writes a sequence of characters inside a string.
pub open spec fn json_escape(s: Seq<char>) -> Seq<char>
    decreases s.len(),
{
    if s.len() == 0 {
        seq![]
    } else {
        json_escape(s.drop_last()) + json_escape_char(s.last())
    }
}

/// `s` as a JSON string literal.
pub open spec fn json_str_spec(s: Seq<char>) -> Seq<char> {
    seq!['"'] + json_escape(s) + seq!['"']
}

fn push_escaped(out: &mut Vec<char>, c: char)
    ensures
        final(out)@ == old(out)@ + json_escape_char(c),
{
    if c == '"' {
        out.push('\\');
        out.push('"');
    } else if c == '\\' {
        out.push('\\');
        out.push('\\');
    } else if c == '\n' {
        out.push('\\');
        out.push('n');
    } else if c == '\r' {
        out.push('\\');
        out.push('r');
    } else if c == '\t' {
        out.push('\\');
        out.push('t');
    } else if (c as u32) < 0x20 {
        let code = c as u32;
        let high = code / 16;
        let low = code % 16;
        out.push('\\');
        out.push('u');
        out.push('0');
        out.push('0');
        out.push(if high < 10 { (48 + high) as u8 as char } else { (87 + high) as u8 as char });
        out.push(if low < 10 { (48 + low) as u8 as char } else { (87 + low) as u8 as char });
    } else {
        out.push(c);
    }
}

/// `s` as a JSON string literal: quoted, with `"`, `\`, newline, carriage
/// return and tab escaped by a backslash, other control characters as
/// `\u00XX`, and everything else as it is.
pub fn json_str(s: &str) -> (r: String)
    ensures
        r@ == json_str_spec(s@),
{
    let mut out: Vec<char> = Vec::new();
    out.push('"');
    for c in it: s.chars()
        invariant
            it.seq() == s@,
            out@ == seq!['"'] + json_escape(s@.take(it.index())),
    {
        let ghost before = it.index();
        push_escaped(&mut out, c);
        assert(s@.take(before + 1).drop_last() =~= s@.take(before));
    }
    out.push('"');
    assert(s@.take(s@.len() as int) =~= s@);
    string_from_chars(&out)
}

/// What a run of a property tool measured.
#[derive(Clone, Copy, Debug)]
pub struct Metrics {
    /// Number of inputs tried.
    pub inputs: u64,
    /// Time taken, in microseconds.
    pub elapsed_us: u128,
}

impl Default for Metrics {
    fn default() -> (m: Metrics)
        ensures
            m.inputs == 0,
            m.elapsed_us == 0,
    {
        Metrics { inputs: 0, elapsed_us: 0 }
    }
}

impl Metrics {
    /// The metrics of two runs taken together.
    pub fn combine(self, other: Metrics) -> (m: Metrics)
        requires
            self.inputs + other.inputs <= u64::MAX,
            self.elapsed_us + other.elapsed_us <= u128::MAX,
        ensures
            m.inputs == self.inputs + other.inputs,
            m.elapsed_us == self.elapsed_us + other.elapsed_us,
    {
        Metrics {
            inputs: self.inputs + other.inputs,
            elapsed_us: self.elapsed_us + other.elapsed_us,
        }
    }
}

/// The input the BinHex property is replayed on: `Hello, world!`.
pub fn canonical_binhex_sample() -> (v: Vec<u8>)
    ensures
        v@ == seq![72u8, 101, 108, 108, 111, 44, 32, 119, 111, 114, 108, 100, 33],
{
    let v = vec![72u8, 101, 108, 108, 111, 44, 32, 119, 111, 114, 108, 100, 33];
    assert(v@ =~= seq![72u8, 101, 108, 108, 111, 44, 32, 119, 111, 114, 108, 100, 33]);
    v
}

/// The length the estimate property is replayed on: the largest `usize`.
pub fn canonical_encoded_len_overflow() -> (n: usize)
    ensures
        n == usize::MAX,
{
    usize::MAX
}

/// The BinHex property on its canonical input; it passes.
pub fn check_binhex_alphabet_matches_spec() -> (r: Result<(), String>)
    ensures
        r is Ok,
{
    to_err(property_binhex_alphabet_matches_spec(canonical_binhex_sample()))
}

/// The estimate property on its canonical input; it passes.
pub fn check_decoded_len_estimate_does_not_panic() -> (r: Result<(), String>)
    ensures
        r is Ok,
{
    to_err(property_decoded_len_estimate_does_not_panic(canonical_encoded_len_overflow()))
}

/// The properties the runner knows.
#[derive(Clone, Copy, Debug, PartialEq, Eq, Structural)]
pub enum Property {
    /// `property_binhex_alphabet_matches_spec`.
    BinhexAlphabetMatchesSpec,
    /// `property_decoded_len_estimate_does_not_panic`.
    DecodedLenEstimateDoesNotPanic,
}

/// The byte strings of two string slices are equal exactly when the slices are.
proof fn lemma_same_bytes_same_str(a: &str, b: &str)
    ensures
        (a.spec_bytes() == b.spec_bytes()) <==> (a@ == b@),
{
    vstd::utf8::encode_utf8_decode_utf8(a@);
    vstd::utf8::encode_utf8_decode_utf8(b@);
}

/// Whether two byte slices are equal.
pub fn bytes_equal(a: &[u8], b: &[u8]) -> (r: bool)
    ensures
        r == (a@ == b@),
{
    if a.len() != b.len() {
        return false;
    }
    let mut i: usize = 0;
    while i < a.len()
        invariant
            0 <= i <= a@.len(),
            a@.len() == b@.len(),
            forall|j: int| 0 <= j < i ==> a@[j] == b@[j],
        decreases a@.len() - i,
    {
        if a[i] != b[i] {
            return false;
        }
        i += 1;
    }
    assert(a@ =~= b@);
    true
}

/// The property of the given name, if the runner knows it.
pub fn property_from_name(name: &str) -> (p: Option<Property>)
    ensures
        p == if name@ == "BinhexAlphabetMatchesSpec"@ {
            Some(Property::BinhexAlphabetMatchesSpec)
        } else if name@ == "DecodedLenEstimateDoesNotPanic"@ {
            Some(Property::DecodedLenEstimateDoesNotPanic)
        } else {
            None::<Property>
        },
{
    let binhex = "BinhexAlphabetMatchesSpec";
    let estimate = "DecodedLenEstimateDoesNotPanic";
    proof {
        lemma_same_bytes_same_str(name, binhex);
        lemma_same_bytes_same_str(name, estimate);
    }
    if bytes_equal(name.as_bytes(), binhex.as_bytes()) {
        Some(Property::BinhexAlphabetMatchesSpec)
    } else if bytes_equal(name.as_bytes(), estimate.as_bytes()) {
        Some(Property::DecodedLenEstimateDoesNotPanic)
    } else {
        None
    }
}

/// Replays a property on its canonical input; every property passes.
pub fn check_property(p: Property) -> (r: Result<(), String>)
    ensures
        r is Ok,
{
    match p {
        Property::BinhexAlphabetMatchesSpec => check_binhex_alphabet_matches_spec(),
        Property::DecodedLenEstimateDoesNotPanic => check_decoded_len_estimate_does_not_panic(),
    }
}

/// A JSON value that is a string or `null`.
pub open spec fn json_opt_spec(s: Option<&str>) -> Seq<char> {
    match s {
        Some(t) => json_str_spec(t@),
        None => "null"@,
    }
}

/// The one-line JSON report of a run.
pub open spec fn json_line_spec(
    tool: Seq<char>,
    property: Seq<char>,
    status: Seq<char>,
    metrics: Metrics,
    counterexample: Option<&str>,
    error: Option<&str>,
) -> Seq<char> {
    "{\"status\":"@ + json_str_spec(status) + ",\"tests\":"@ + decimal_chars(metrics.inputs as nat)
        + ",\"discards\":0,\"time\":"@ + json_str_spec(
        decimal_chars(metrics.elapsed_us as nat) + "us"@,
    ) + ",\"counterexample\":"@ + json_opt_spec(counterexample) + ",\"error\":"@ + json_opt_spec(
        error,
    ) + ",\"tool\":"@ + json_str_spec(tool) + ",\"property\":"@ + json_str_spec(property) + "}"@
}

fn json_opt(s: Option<&str>) -> (r: String)
    ensures
        r@ == json_opt_spec(s),
{
    match s {
        Some(t) => json_str(t),
        None => String::from_str("null"),
    }
}

/// The one-line JSON report of a run: status, number of inputs, time in
/// microseconds, counterexample and error (or `null`), tool and property.
pub fn json_line(
    tool: &str,
    property: &str,
    status: &str,
    metrics: Metrics,
    counterexample: Option<&str>,
    error: Option<&str>,
) -> (r: String)
    ensures
        r@ == json_line_spec(tool@, property@, status@, metrics, counterexample, error),
{
    let time = decimal(metrics.elapsed_us).concat("us");
    let line = String::from_str("{\"status\":").concat(json_str(status).as_str());
    let line = line.concat(",\"tests\":").concat(decimal(metrics.inputs as u128).as_str());
    let line = line.concat(",\"discards\":0,\"time\":").concat(json_str(time.as_str()).as_str());
    let line = line.concat(",\"counterexample\":").concat(json_opt(counterexample).as_str());
    let line = line.concat(",\"error\":").concat(json_opt(error).as_str());
    let line = line.concat(",\"tool\":").concat(json_str(tool).as_str());
    let line = line.concat(",\"property\":").concat(json_str(property).as_str());
    line.concat("}")
}

/// Whether a byte is an ASCII decimal digit.
pub open spec fn is_digit(b: u8) -> bool {
    48 <= b && b <= 57
}

/// The number written by a string of decimal digits.
pub open spec fn digits_value(d: Seq<u8>) -> nat
    decreases d.len(),
{
    if d.len() == 0 {
        0
    } else {
        digits_value(d.drop_last()) * 10 + (d.last() - 48) as nat
    }
}

/// The part of a number after an optional leading `+`.
pub open spec fn digits_part(b: Seq<u8>) -> Seq<u8> {
    if b.len() > 1 && b[0] == 43 {
        b.skip(1)
    } else {
        b
    }
}

/// Every byte is a decimal digit.
pub open spec fn all_digits(d: Seq<u8>) -> bool {
    forall|i: int| 0 <= i < d.len() ==> #[trigger] is_digit(d[i])
}

/// What parsing a string as a `u64` gives: an optional `+` followed by at
/// least one decimal digit, of value at most `u64::MAX`; nothing else.
pub open spec fn parse_u64_spec(b: Seq<u8>) -> Option<u64> {
    let d = digits_part(b);
    if d.len() > 0 && all_digits(d) && digits_value(d) <= u64::MAX {
        Some(digits_value(d) as u64)
    } else {
        None
    }
}

/// Number of cases a run tries when none is set.
pub const DEFAULT_CASES: u64 = 200;

/// Parses a decimal `u64` as `str::parse` does.
pub fn parse_u64(s: &str) -> (r: Option<u64>)
    ensures
        r == parse_u64_spec(s.spec_bytes()),
{
    let b = s.as_bytes();
    let start: usize = if b.len() > 1 && b[0] == 43 {
        1
    } else {
        0
    };
    let ghost d = digits_part(b@);
    assert(d =~= b@.skip(start as int));
    if start == b.len() {
        return None;
    }
    let mut value: u64 = 0;
    let mut i: usize = start;
    while i < b.len()
        invariant
            start <= i <= b@.len(),
            b@ == s.spec_bytes(),
            d == b@.skip(start as int),
            d == digits_part(b@),
            d.len() > 0,
            forall|k: int| 0 <= k < i - start ==> #[trigger] is_digit(d[k]),
            value == digits_value(d.take(i - start)),
        decreases b@.len() - i,
    {
        let c = b[i];
        assert(d[i - start] == c);
        if !(c >= 48 && c <= 57) {
            assert(!is_digit(d[i - start]));
            assert(!all_digits(d));
            return None;
        }
        let ghost prefix = d.take(i - start + 1);
        assert(prefix.drop_last() =~= d.take(i - start));
        let next = match value.checked_mul(10) {
            Some(v) => match v.checked_add((c - 48) as u64) {
                Some(w) => w,
                None => {
                    proof {
                        if all_digits(d) {
                            lemma_digits_value_prefix(d, i - start + 1);
                        }
                    }
                    return None;
                },
            },
            None => {
                proof {
                    if all_digits(d) {
                        lemma_digits_value_prefix(d, i - start + 1);
                    }
                }
                return None;
            },
        };
        value = next;
        i += 1;
    }
    assert(d.take(d.len() as int) =~= d);
    Some(value)
}

/// A longer string of digits is worth at least as much as its prefix.
proof fn lemma_digits_value_prefix(d: Seq<u8>, k: int)
    requires
        0 <= k <= d.len(),
        all_digits(d),
    ensures
        digits_value(d.take(k)) <= digits_value(d),
    decreases d.len() - k,
{
    if k < d.len() {
        lemma_digits_value_prefix(d, k + 1);
        assert(d.take(k + 1).drop_last() =~= d.take(k));
        assert(d.take(k + 1).last() == d[k]);
        assert(is_digit(d[k]));
    } else {
        assert(d.take(k) =~= d);
    }
}

/// The number of cases to run: the setting parsed as a `u64`, or 200 where
/// there is none or it does not parse.
pub fn cases_budget_from(setting: Option<&str>) -> (n: u64)
    ensures
        n == match setting {
            Some(s) => match parse_u64_spec(s.spec_bytes()) {
                Some(v) => v,
                None => DEFAULT_CASES,
            },
            None => DEFAULT_CASES,
        },
{
    match setting {
        Some(s) => match parse_u64(s) {
            Some(v) => v,
            None => DEFAULT_CASES,
        },
        None => DEFAULT_CASES,
    }
}

/// Longest byte string the mutator grows.
pub const MAX_MUTATED_LEN: usize = 64;

/// How the mutator changes a byte string.
#[derive(Clone, Copy, Debug, PartialEq, Eq, Structural)]
pub enum Mutation {
    /// Flip one bit of one byte.
    FlipBit,
    /// Append a byte.
    Push,
    /// Drop the last byte.
    Pop,
    /// Leave it as it is.
    Keep,
}

/// The mutation a drawn choice `op` selects for a string of `len` bytes:
/// choice 0 flips a bit of a non-empty string, choice 1 grows a string
/// shorter than `MAX_MUTATED_LEN`; otherwise a non-empty string shrinks,
/// and an empty one is kept.
pub fn mutation_for(op: u8, len: usize) -> (m: Mutation)
    ensures
        m == if op == 0 && len > 0 {
            Mutation::FlipBit
        } else if op == 1 && len < MAX_MUTATED_LEN {
            Mutation::Push
        } else if len > 0 {
            Mutation::Pop
        } else {
            Mutation::Keep
        },
{
    if op == 0 && len > 0 {
        Mutation::FlipBit
    } else if op == 1 && len < MAX_MUTATED_LEN {
        Mutation::Push
    } else if len > 0 {
        Mutation::Pop
    } else {
        Mutation::Keep
    }
}

/// Flips bit `bit` of byte `index`.
pub fn flip_bit(bytes: &mut Vec<u8>, index: usize, bit: u32)
    requires
        index < old(bytes)@.len(),
        bit < 8,
    ensures
        final(bytes)@ == old(bytes)@.update(index as int, old(bytes)@[index as int] ^ (1u8 << bit)),
{
    let b = bytes[index] ^ (1u8 << bit);
    bytes.set(index, b);
}

/// Flips bit `bit` of a length.
pub fn flip_len_bit(n: usize, bit: u32) -> (r: usize)
    requires
        bit < usize::BITS,
    ensures
        r == n ^ (1usize << bit),
{
    n ^ (1usize << bit)
}

/// A sequence of characters holds no line break.
pub open spec fn no_newline(s: Seq<char>) -> bool {
    forall|i: int| 0 <= i < s.len() ==> #[trigger] s[i] != '\n'
}

proof fn lemma_json_escape_no_newline(s: Seq<char>)
    ensures
        no_newline(json_escape(s)),
    decreases s.len(),
{
    if s.len() > 0 {
        lemma_json_escape_no_newline(s.drop_last());
        let c = s.last();
        let e = json_escape_char(c);
        if (c as u32) < 0x20 && c != '"' && c != '\\' && c != '\n' && c != '\r' && c != '\t' {
            assert(hex_digit((c as u32) / 16) != '\n');
            assert(hex_digit((c as u32) % 16) != '\n');
        }
        assert(no_newline(e));
        let a = json_escape(s.drop_last());
        assert forall|i: int| 0 <= i < (a + e).len() implies #[trigger] (a + e)[i] != '\n' by {
            if i < a.len() {
                assert((a + e)[i] == a[i]);
            } else {
                assert((a + e)[i] == e[i - a.len()]);
            }
        }
    }
}

proof fn lemma_decimal_digits(n: nat)
    ensures
        forall|i: int|
            0 <= i < decimal_bytes(n).len() ==> is_digit(#[trigger] decimal_bytes(n)[i]),
    decreases n,
{
    if n >= 10 {
        lemma_decimal_digits(n / 10);
        let prev = decimal_bytes(n / 10);
        assert forall|i: int| 0 <= i < decimal_bytes(n).len() implies is_digit(
            #[trigger] decimal_bytes(n)[i],
        ) by {
            if i < prev.len() {
                assert(decimal_bytes(n)[i] == prev[i]);
            }
        }
    }
}

proof fn lemma_decimal_no_newline(n: nat)
    ensures
        no_newline(decimal_chars(n)),
{
    lemma_decimal_digits(n);
    assert forall|i: int| 0 <= i < decimal_chars(n).len() implies #[trigger] decimal_chars(n)[i]
        != '\n' by {
        let b = decimal_bytes(n)[i];
        assert(is_digit(b));
        assert(decimal_chars(n)[i] == b as char);
        assert((b as char) as u32 == b as u32);
    }
}

proof fn lemma_concat_no_newline(a: Seq<char>, b: Seq<char>)
    requires
        no_newline(a),
        no_newline(b),
    ensures
        no_newline(a + b),
{
    assert forall|i: int| 0 <= i < (a + b).len() implies #[trigger] (a + b)[i] != '\n' by {
        if i < a.len() {
            assert((a + b)[i] == a[i]);
        } else {
            assert((a + b)[i] == b[i - a.len()]);
        }
    }
}

proof fn lemma_json_str_no_newline(s: Seq<char>)
    ensures
        no_newline(json_str_spec(s)),
{
    lemma_json_escape_no_newline(s);
    lemma_concat_no_newline(seq!['"'], json_escape(s));
    lemma_concat_no_newline(seq!['"'] + json_escape(s), seq!['"']);
}

/// The report of a run is one line: whatever the tool, property, status,
/// counterexample and error, the JSON it is written as holds no line break.
pub proof fn law_json_line_is_one_line(
    tool: Seq<char>,
    property: Seq<char>,
    status: Seq<char>,
    metrics: Metrics,
    counterexample: Option<&str>,
    error: Option<&str>,
)
    ensures
        no_newline(json_line_spec(tool, property, status, metrics, counterexample, error)),
{
    reveal_strlit("{\"status\":");
    reveal_strlit(",\"tests\":");
    reveal_strlit(",\"discards\":0,\"time\":");
    reveal_strlit("us");
    reveal_strlit(",\"counterexample\":");
    reveal_strlit(",\"error\":");
    reveal_strlit(",\"tool\":");
    reveal_strlit(",\"property\":");
    reveal_strlit("}");
    reveal_strlit("null");
    lemma_json_str_no_newline(status);
    lemma_json_str_no_newline(tool);
    lemma_json_str_no_newline(property);
    lemma_decimal_no_newline(metrics.inputs as nat);
    lemma_decimal_no_newline(metrics.elapsed_us as nat);
    lemma_concat_no_newline(decimal_chars(metrics.elapsed_us as nat), "us"@);
    lemma_json_str_no_newline(decimal_chars(metrics.elapsed_us as nat) + "us"@);
    match counterexample {
        Some(t) => lemma_json_str_no_newline(t@),
        None => {},
    }
    match error {
        Some(t) => lemma_json_str_no_newline(t@),
        None => {},
    }
    assert(no_newline("{\"status\":"@));
    assert(no_newline(json_str_spec(status)));
    assert(no_newline(",\"tests\":"@));
    assert(no_newline(decimal_chars(metrics.inputs as nat)));
    assert(no_newline(",\"discards\":0,\"time\":"@));
    assert(no_newline(json_str_spec(decimal_chars(metrics.elapsed_us as nat) + "us"@)));
    assert(no_newline(",\"counterexample\":"@));
    assert(no_newline(json_opt_spec(counterexample)));
    assert(no_newline(",\"error\":"@));
    assert(no_newline(json_opt_spec(error)));
    assert(no_newline(",\"tool\":"@));
    assert(no_newline(json_str_spec(tool)));
    assert(no_newline(",\"property\":"@));
    assert(no_newline(json_str_spec(property)));
    assert(no_newline("}"@));
    let acc = "{\"status\":"@;
    lemma_concat_no_newline(acc, json_str_spec(status));
    let acc = acc + json_str_spec(status);
    lemma_concat_no_newline(acc, ",\"tests\":"@);
    let acc = acc + ",\"tests\":"@;
    lemma_concat_no_newline(acc, decimal_chars(metrics.inputs as nat));
    let acc = acc + decimal_chars(metrics.inputs as nat);
    lemma_concat_no_newline(acc, ",\"discards\":0,\"time\":"@);
    let acc = acc + ",\"discards\":0,\"time\":"@;
    lemma_concat_no_newline(acc, json_str_spec(decimal_chars(metrics.elapsed_us as nat) + "us"@));
    let acc = acc + json_str_spec(decimal_chars(metrics.elapsed_us as nat) + "us"@);
    lemma_concat_no_newline(acc, ",\"counterexample\":"@);
    let acc = acc + ",\"counterexample\":"@;
    lemma_concat_no_newline(acc, json_opt_spec(counterexample));
    let acc = acc + json_opt_spec(counterexample);
    lemma_concat_no_newline(acc, ",\"error\":"@);
    let acc = acc + ",\"error\":"@;
    lemma_concat_no_newline(acc, json_opt_spec(error));
    let acc = acc + json_opt_spec(error);
    lemma_concat_no_newline(acc, ",\"tool\":"@);
    let acc = acc + ",\"tool\":"@;
    lemma_concat_no_newline(acc, json_str_spec(tool));
    let acc = acc + json_str_spec(tool);
    lemma_concat_no_newline(acc, ",\"property\":"@);
    let acc = acc + ",\"property\":"@;
    lemma_concat_no_newline(acc, json_str_spec(property));
    let acc = acc + json_str_spec(property);
    lemma_concat_no_newline(acc, "}"@);
    let acc = acc + "}"@;
    assert(acc == json_line_spec(tool, property, status, metrics, counterexample, error));
}

/// JSON escaping writes every character other than `"`, `\\` and the
/// control characters below 0x20 as itself, and each of those as an escape
/// that starts with a backslash.
pub proof fn law_json_escape_char(c: char)
    ensures
        (c != '"' && c != '\\' && (c as u32) >= 0x20) ==> json_escape_char(c) == seq![c],
        (c == '"' || c == '\\' || (c as u32) < 0x20) ==> json_escape_char(c).len() >= 2
            && json_escape_char(c)[0] == '\\',
{
}

/// A string with no `"`, `\\` or control character is written as itself
/// between quotes.
pub proof fn law_json_str_plain(s: Seq<char>)
    requires
        forall|i: int|
            0 <= i < s.len() ==> #[trigger] s[i] != '"' && s[i] != '\\' && (s[i] as u32) >= 0x20,
    ensures
        json_escape(s) == s,
        json_str_spec(s) == seq!['"'] + s + seq!['"'],
    decreases s.len(),
{
    if s.len() > 0 {
        let init = s.drop_last();
        assert forall|i: int| 0 <= i < init.len() implies #[trigger] init[i] != '"' && init[i]
            != '\\' && (init[i] as u32) >= 0x20 by {
            assert(init[i] == s[i]);
        }
        law_json_str_plain(init);
        law_json_escape_char(s.last());
        assert(json_escape(s) =~= s);
    }
}

/// Decimal notation is standard: every digit is a decimal digit, the first
/// is `0` only for zero, and the digits read back as the number.
pub proof fn law_decimal_reads_back(n: nat)
    ensures
        decimal_bytes(n).len() >= 1,
        all_digits(decimal_bytes(n)),
        digits_value(decimal_bytes(n)) == n,
        decimal_bytes(n)[0] == 48 ==> n == 0,
    decreases n,
{
    lemma_decimal_digits(n);
    if n >= 10 {
        law_decimal_reads_back(n / 10);
        let d = decimal_bytes(n);
        assert(d.drop_last() =~= decimal_bytes(n / 10));
        assert(d[0] == decimal_bytes(n / 10)[0]);
        assert(d.last() == (48 + n % 10) as u8);
        assert((d.last() - 48) as nat == n % 10);
        assert((n / 10) * 10 + n % 10 == n);
        assert(digits_value(d) == digits_value(d.drop_last()) * 10 + (d.last() - 48) as nat);
    } else {
        let d = decimal_bytes(n);
        assert(d.drop_last() =~= Seq::<u8>::empty());
        assert(digits_value(d.drop_last()) == 0);
        assert(d.last() == (48 + n) as u8);
        assert(digits_value(d) == digits_value(d.drop_last()) * 10 + (d.last() - 48) as nat);
    }
}

/// Parsing the decimal notation of a `u64` gives the number back.
pub proof fn law_parse_decimal(n: u64)
    ensures
        parse_u64_spec(decimal_bytes(n as nat)) == Some(n),
{
    law_decimal_reads_back(n as nat);
    let d = decimal_bytes(n as nat);
    assert(is_digit(d[0]));
    assert(digits_part(d) == d);
}

/// The value of a lower-case hexadecimal digit.
pub open spec fn lower_hex_value(ch: char) -> Option<nat> {
    if '0' <= ch && ch <= '9' {
        Some((ch as u32 - 48) as nat)
    } else if 'a' <= ch && ch <= 'f' {
        Some((ch as u32 - 87) as nat)
    } else {
        None
    }
}

/// A control character without a short escape is written `\\u` and four
/// lower-case hexadecimal digits that denote its code.
pub proof fn law_json_escape_control(c: char)
    requires
        (c as u32) < 0x20,
        c != '\n',
        c != '\r',
        c != '\t',
    ensures
        ({
            let e = json_escape_char(c);
            &&& e.len() == 6
            &&& e[0] == '\\' && e[1] == 'u'
            &&& lower_hex_value(e[2]) is Some && lower_hex_value(e[3]) is Some
            &&& lower_hex_value(e[4]) is Some && lower_hex_value(e[5]) is Some
            &&& 4096 * lower_hex_value(e[2])->0 + 256 * lower_hex_value(e[3])->0 + 16
                * lower_hex_value(e[4])->0 + lower_hex_value(e[5])->0 == c as u32
        }),
{
    let code = c as u32;
    let e = json_escape_char(c);
    assert(c != '"' && c != '\\');
    assert(e[4] == hex_digit(code / 16));
    assert(e[5] == hex_digit(code % 16));
}

} // verus!
