//! The EVM genesis document and the hex encoding of its byte fields.
use vstd::prelude::*;
use vstd::string::StringSliceAdditionalSpecFns;
use vstd::utf8::{encode_utf8, is_ascii_chars, is_ascii_chars_encode_utf8};
use crate::primitives::Address;
use crate::uint::U256;

verus! {

/// Genesis account allocation.
#[derive(Debug, Clone)]
pub struct GenesisAlloc {
    pub balance: U256,
    pub nonce: u64,
    pub code: Vec<u8>,
    /// Storage slots, ascending by slot, each slot at most once.
    pub storage: Vec<(U256, U256)>,
}

/// EVM genesis document (loaded from JSON).
#[derive(Debug, Clone)]
pub struct EvmGenesis {
    pub chain_id: u64,
    /// Allocations, ascending by address, each address at most once.
    pub alloc: Vec<(Address, GenesisAlloc)>,
    pub gas_limit: u64,
    pub base_fee_per_gas: u64,
    pub coinbase: Address,
    pub timestamp: u64,
}

/// Default block gas limit of a genesis document.
pub fn default_gas_limit() -> (r: u64)
    ensures
        r == 30_000_000,
{
    30_000_000
}

/// Default base fee of a genesis document: 1 gwei.
pub fn default_base_fee() -> (r: u64)
    ensures
        r == 1_000_000_000,
{
    1_000_000_000
}

// ---------------------------------------------------------------------------
// Hex encoding
// ---------------------------------------------------------------------------

/// The lowercase hex digit for `n < 16`.
pub open spec fn hex_char(n: nat) -> char {
    if n < 10 {
        (48 + n) as char
    } else {
        (87 + n) as char
    }
}

/// Lowercase hex of `b`, two digits per byte, without prefix.
pub open spec fn hex_encode_spec(b: Seq<u8>) -> Seq<char>
    decreases b.len(),
{
    if b.len() == 0 {
        Seq::empty()
    } else {
        hex_encode_spec(b.drop_last()) + seq![
            hex_char((b.last() / 16) as nat),
            hex_char((b.last() % 16) as nat),
        ]
    }
}

/// The value of an ASCII hex digit (either case).
pub open spec fn hex_digit_value(c: u8) -> Option<nat> {
    if 48 <= c <= 57 {
        Some((c - 48) as nat)
    } else if 97 <= c <= 102 {
        Some((c - 87) as nat)
    } else if 65 <= c <= 70 {
        Some((c - 55) as nat)
    } else {
        None
    }
}

/// How a two-byte string parses as a base-16 `u8` (a leading `+` is
/// accepted).
pub open spec fn parse_hex_pair(c0: u8, c1: u8) -> Option<u8> {
    if c0 == 43 {
        match hex_digit_value(c1) {
            Some(v) => Some(v as u8),
            None => None,
        }
    } else {
        match (hex_digit_value(c0), hex_digit_value(c1)) {
            (Some(a), Some(b)) => Some((a * 16 + b) as u8),
            _ => None,
        }
    }
}

/// The bytes of consecutive two-byte pairs, or `None` when one does not
/// parse.
pub open spec fn hex_pairs(b: Seq<u8>) -> Option<Seq<u8>>
    decreases b.len(),
{
    if b.len() < 2 {
        Some(Seq::empty())
    } else {
        match (hex_pairs(b.subrange(0, b.len() - 2)), parse_hex_pair(b[b.len() - 2], b[b.len() - 1])) {
            (Some(prefix), Some(v)) => Some(prefix.push(v)),
            _ => None,
        }
    }
}

/// The error for an odd-length input.
pub open spec fn odd_length_message() -> Seq<char> {
    "odd length hex string"@
}

/// The error for an unparsable pair.
pub open spec fn invalid_hex_message() -> Seq<char> {
    "invalid hex: invalid digit found in string"@
}

/// The outcome of decoding hex digits (no prefix).
pub open spec fn hex_decode_spec(b: Seq<u8>) -> Result<Seq<u8>, Seq<char>> {
    if b.len() % 2 != 0 {
        Err(odd_length_message())
    } else {
        match hex_pairs(b) {
            Some(v) => Ok(v),
            None => Err(invalid_hex_message()),
        }
    }
}

/// Whether byte `i` of a UTF-8 string starts a character (or is its end).
pub open spec fn is_boundary(b: Seq<u8>, i: int) -> bool {
    i == b.len() || (0 <= i < b.len() && (b[i] < 0x80 || b[i] >= 0xC0))
}

/// Every even byte offset is a character boundary, so that the string can
/// be cut into two-byte pieces.
pub open spec fn even_offsets_are_boundaries(b: Seq<u8>) -> bool {
    forall|i: int| 0 <= i <= b.len() && i % 2 == 0 ==> is_boundary(b, i)
}

/// The hex digit string for `n < 16`.
pub(crate) fn hex_digit_str(n: u8) -> (r: &'static str)
    requires
        n < 16,
    ensures
        r@ == seq![hex_char(n as nat)],
{
    proof {
        reveal_strlit("0");
        reveal_strlit("1");
        reveal_strlit("2");
        reveal_strlit("3");
        reveal_strlit("4");
        reveal_strlit("5");
        reveal_strlit("6");
        reveal_strlit("7");
        reveal_strlit("8");
        reveal_strlit("9");
        reveal_strlit("a");
        reveal_strlit("b");
        reveal_strlit("c");
        reveal_strlit("d");
        reveal_strlit("e");
        reveal_strlit("f");
    }
    let r = match n {
        0 => "0",
        1 => "1",
        2 => "2",
        3 => "3",
        4 => "4",
        5 => "5",
        6 => "6",
        7 => "7",
        8 => "8",
        9 => "9",
        10 => "a",
        11 => "b",
        12 => "c",
        13 => "d",
        14 => "e",
        _ => "f",
    };
    assert(r@ =~= seq![hex_char(n as nat)]);
    r
}

/// Appends the lowercase hex of `bytes` to `out`.
pub fn append_hex(out: &mut String, bytes: &[u8])
    ensures
        final(out)@ == old(out)@ + hex_encode_spec(bytes@),
{
    let mut i: usize = 0;
    while i < bytes.len()
        invariant
            i <= bytes@.len(),
            out@ == old(out)@ + hex_encode_spec(bytes@.subrange(0, i as int)),
        decreases bytes@.len() - i,
    {
        let b = bytes[i];
        proof {
            assert(bytes@.subrange(0, i + 1).drop_last() =~= bytes@.subrange(0, i as int));
            assert(bytes@.subrange(0, i + 1).last() == b);
        }
        out.append(hex_digit_str(b / 16));
        out.append(hex_digit_str(b % 16));
        assert(out@ =~= old(out)@ + hex_encode_spec(bytes@.subrange(0, i + 1)));
        i = i + 1;
    }
    proof {
        assert(bytes@.subrange(0, bytes@.len() as int) =~= bytes@);
    }
}

/// Lowercase hex of `bytes`, two digits per byte.
pub fn encode(bytes: &[u8]) -> (r: String)
    ensures
        r@ == hex_encode_spec(bytes@),
{
    let mut s = String::new();
    append_hex(&mut s, bytes);
    assert(s@ =~= hex_encode_spec(bytes@));
    s
}

/// The value of an ASCII hex digit.
pub(crate) fn hex_digit_value_exec(c: u8) -> (r: Option<u8>)
    ensures
        match hex_digit_value(c) {
            Some(v) => r == Some(v as u8),
            None => r is None,
        },
{
    if 48 <= c && c <= 57 {
        Some(c - 48)
    } else if 97 <= c && c <= 102 {
        Some(c - 87)
    } else if 65 <= c && c <= 70 {
        Some(c - 55)
    } else {
        None
    }
}

/// Parses a two-byte string as a base-16 `u8`.
fn parse_hex_pair_exec(c0: u8, c1: u8) -> (r: Option<u8>)
    ensures
        r == parse_hex_pair(c0, c1),
{
    if c0 == 43 {
        hex_digit_value_exec(c1)
    } else {
        match (hex_digit_value_exec(c0), hex_digit_value_exec(c1)) {
            (Some(a), Some(b)) => Some(a * 16 + b),
            _ => None,
        }
    }
}

/// Decodes the hex digits of `b` from byte offset `start`.
fn decode_bytes_from(b: &[u8], start: usize) -> (r: Result<Vec<u8>, String>)
    requires
        start <= b@.len(),
    ensures
        match hex_decode_spec(b@.subrange(start as int, b@.len() as int)) {
            Ok(v) => r matches Ok(x) && x@ == v,
            Err(m) => r matches Err(x) && x@ == m,
        },
{
    let ghost s = b@.subrange(start as int, b@.len() as int);
    let n = b.len() - start;
    if n % 2 != 0 {
        return Err(String::from_str("odd length hex string"));
    }
    let mut out: Vec<u8> = Vec::new();
    let mut i: usize = 0;
    while i < n
        invariant
            n == s.len(),
            s == b@.subrange(start as int, b@.len() as int),
            start + n == b@.len(),
            n % 2 == 0,
            i % 2 == 0,
            i <= n,
            hex_pairs(s.subrange(0, i as int)) == Some(out@),
        decreases n - i,
    {
        assert(i + 2 <= n) by (nonlinear_arith)
            requires
                i % 2 == 0,
                n % 2 == 0,
                i < n,
        ;
        let c0 = b[start + i];
        let c1 = b[start + i + 1];
        proof {
            let t = s.subrange(0, i + 2);
            assert(t.subrange(0, t.len() - 2) =~= s.subrange(0, i as int));
            assert(t[t.len() - 2] == c0 && t[t.len() - 1] == c1);
        }
        match parse_hex_pair_exec(c0, c1) {
            Some(v) => {
                out.push(v);
            },
            None => {
                proof {
                    lemma_hex_pairs_prefix_fails(s, (i + 2) as nat);
                }
                return Err(String::from_str("invalid hex: invalid digit found in string"));
            },
        }
        i = i + 2;
    }
    proof {
        assert(s.subrange(0, n as int) =~= s);
    }
    Ok(out)
}

/// Once a prefix of pairs fails to parse, the whole fails.
pub proof fn lemma_hex_pairs_prefix_fails(s: Seq<u8>, k: nat)
    requires
        k <= s.len(),
        k % 2 == 0,
        s.len() % 2 == 0,
        hex_pairs(s.subrange(0, k as int)) is None,
    ensures
        hex_pairs(s) is None,
    decreases s.len() - k,
{
    if k < s.len() {
        let t = s.subrange(0, (k + 2) as int);
        assert(t.subrange(0, t.len() - 2) =~= s.subrange(0, k as int));
        lemma_hex_pairs_prefix_fails(s, k + 2);
    } else {
        assert(s.subrange(0, k as int) =~= s);
    }
}

/// Decodes a hex string (no prefix) into bytes.
pub fn decode(s: &str) -> (r: Result<Vec<u8>, String>)
    requires
        s.spec_bytes().len() % 2 == 0 ==> even_offsets_are_boundaries(s.spec_bytes()),
    ensures
        match hex_decode_spec(s.spec_bytes()) {
            Ok(v) => r matches Ok(x) && x@ == v,
            Err(m) => r matches Err(x) && x@ == m,
        },
{
    let b = s.as_bytes();
    assert(b@.subrange(0, b@.len() as int) =~= b@);
    decode_bytes_from(b, 0)
}

/// The bytes after an optional `0x` prefix.
pub open spec fn strip_0x(b: Seq<u8>) -> Seq<u8> {
    if b.len() >= 2 && b[0] == 48 && b[1] == 120 {
        b.subrange(2, b.len() as int)
    } else {
        b
    }
}

/// Renders bytes as `0x`-prefixed lowercase hex.
pub fn serialize(bytes: &[u8]) -> (r: String)
    ensures
        r@ == "0x"@ + hex_encode_spec(bytes@),
{
    let mut s = String::from_str("0x");
    append_hex(&mut s, bytes);
    s
}

/// Parses hex with an optional `0x` prefix into bytes.
pub fn deserialize(s: &str) -> (r: Result<Vec<u8>, String>)
    requires
        strip_0x(s.spec_bytes()).len() % 2 == 0 ==> even_offsets_are_boundaries(
            strip_0x(s.spec_bytes()),
        ),
    ensures
        match hex_decode_spec(strip_0x(s.spec_bytes())) {
            Ok(v) => r matches Ok(x) && x@ == v,
            Err(m) => r matches Err(x) && x@ == m,
        },
{
    let b = s.as_bytes();
    if b.len() >= 2 && b[0] == 48 && b[1] == 120 {
        decode_bytes_from(b, 2)
    } else {
        assert(b@.subrange(0, b@.len() as int) =~= b@);
        decode_bytes_from(b, 0)
    }
}

// ---------------------------------------------------------------------------
// Round trip
// ---------------------------------------------------------------------------

/// The ASCII codes of a character sequence.
pub open spec fn ascii_codes(c: Seq<char>) -> Seq<u8> {
    Seq::new(c.len(), |i: int| c[i] as u8)
}

pub proof fn lemma_hex_char_parses(hi: nat, lo: nat)
    requires
        hi < 16,
        lo < 16,
    ensures
        parse_hex_pair(hex_char(hi) as u8, hex_char(lo) as u8) == Some((hi * 16 + lo) as u8),
{
}

/// Decoding the hex encoding of a byte string gives back the byte string.
pub proof fn law_hex_round_trip(b: Seq<u8>)
    ensures
        hex_decode_spec(ascii_codes(hex_encode_spec(b))) == Ok::<Seq<u8>, Seq<char>>(b),
        ascii_codes(hex_encode_spec(b)).len() == 2 * b.len(),
    decreases b.len(),
{
    let e = ascii_codes(hex_encode_spec(b));
    if b.len() == 0 {
        assert(e =~= Seq::<u8>::empty());
        assert(hex_pairs(e) == Some(Seq::<u8>::empty()));
        assert(b =~= Seq::<u8>::empty());
    } else {
        let b0 = b.drop_last();
        law_hex_round_trip(b0);
        let e0 = ascii_codes(hex_encode_spec(b0));
        let x = b.last();
        let hi = (x / 16) as nat;
        let lo = (x % 16) as nat;
        assert(e =~= e0 + seq![hex_char(hi) as u8, hex_char(lo) as u8]);
        assert(e.subrange(0, e.len() - 2) =~= e0);
        lemma_hex_char_parses(hi, lo);
        assert(hi * 16 + lo == x);
        assert(hex_pairs(e0) == Some(b0));
        assert(e[e.len() - 2] == hex_char(hi) as u8);
        assert(e[e.len() - 1] == hex_char(lo) as u8);
        assert(parse_hex_pair(e[e.len() - 2], e[e.len() - 1]) == Some(x));
        assert(hex_pairs(e) == Some(b0.push(x)));
        assert(b0.push(x) =~= b);
        assert(e.len() % 2 == 0);
    }
}


/// The lowercase form of ASCII bytes.
pub open spec fn ascii_lowercase(s: Seq<u8>) -> Seq<u8> {
    Seq::new(s.len(), |i: int| if 65 <= s[i] <= 90 { (s[i] + 32) as u8 } else { s[i] })
}

/// Whether every byte is an ASCII hex digit (either case).
pub open spec fn all_hex_digits(s: Seq<u8>) -> bool {
    forall|i: int| 0 <= i < s.len() ==> hex_digit_value(#[trigger] s[i]) is Some
}

proof fn lemma_hex_char_of_digit(c: u8)
    requires
        hex_digit_value(c) is Some,
    ensures
        hex_digit_value(c).unwrap() < 16,
        hex_char(hex_digit_value(c).unwrap()) as u8 == if 65 <= c <= 90 {
            (c + 32) as u8
        } else {
            c
        },
{
}

/// Every even-length string of hex digits decodes, to half as many bytes,
/// and encoding those bytes gives the string back in lowercase.
pub proof fn law_hex_decode_reencode(s: Seq<u8>)
    requires
        s.len() % 2 == 0,
        all_hex_digits(s),
    ensures
        hex_decode_spec(s) matches Ok(v) && v.len() == s.len() / 2 && ascii_codes(
            hex_encode_spec(v),
        ) == ascii_lowercase(s),
    decreases s.len(),
{
    if s.len() == 0 {
        assert(ascii_codes(hex_encode_spec(Seq::<u8>::empty())) =~= ascii_lowercase(s));
    } else {
        let p = s.subrange(0, s.len() - 2);
        assert forall|i: int| 0 <= i < p.len() implies hex_digit_value(#[trigger] p[i]) is Some by {
            assert(p[i] == s[i]);
        }
        law_hex_decode_reencode(p);
        let v0 = hex_decode_spec(p)->Ok_0;
        let c0 = s[s.len() - 2];
        let c1 = s[s.len() - 1];
        assert(hex_digit_value(c0) is Some);
        assert(hex_digit_value(c1) is Some);
        lemma_hex_char_of_digit(c0);
        lemma_hex_char_of_digit(c1);
        let a = hex_digit_value(c0).unwrap();
        let b = hex_digit_value(c1).unwrap();
        let x = (a * 16 + b) as u8;
        assert(c0 != 43);
        assert(parse_hex_pair(c0, c1) == Some(x));
        let v = v0.push(x);
        assert(hex_pairs(s) == Some(v));
        assert(x / 16 == a && x % 16 == b) by (nonlinear_arith)
            requires
                a < 16,
                b < 16,
                x == a * 16 + b,
        ;
        assert(v.drop_last() =~= v0);
        assert(hex_encode_spec(v) == hex_encode_spec(v0) + seq![hex_char(a), hex_char(b)]);
        assert(ascii_codes(hex_encode_spec(v)) =~= ascii_codes(hex_encode_spec(v0)) + seq![
            hex_char(a) as u8,
            hex_char(b) as u8,
        ]);
        assert(ascii_lowercase(s) =~= ascii_lowercase(p) + seq![
            ascii_lowercase(s)[s.len() - 2],
            ascii_lowercase(s)[s.len() - 1],
        ]);
    }
}

proof fn lemma_hex_encode_ascii(b: Seq<u8>)
    ensures
        is_ascii_chars(hex_encode_spec(b)),
        hex_encode_spec(b).len() == 2 * b.len(),
    decreases b.len(),
{
    if b.len() > 0 {
        lemma_hex_encode_ascii(b.drop_last());
        let x = b.last();
        let e0 = hex_encode_spec(b.drop_last());
        let e = hex_encode_spec(b);
        assert forall|i: int| 0 <= i < e.len() implies '\0' <= #[trigger] e[i] <= '\u{7f}' by {
            if i < e0.len() {
                assert(e[i] == e0[i]);
            }
        }
    }
}

/// Parsing what `serialize` renders gives the bytes back: the rendered
/// text is ASCII (so it can be cut into two-byte pieces), its `0x` prefix
/// is stripped, and its digits decode to `b`.
pub proof fn law_serialize_deserialize(b: Seq<u8>)
    ensures
        ({
            let text = encode_utf8("0x"@ + hex_encode_spec(b));
            &&& strip_0x(text) == ascii_codes(hex_encode_spec(b))
            &&& even_offsets_are_boundaries(strip_0x(text))
            &&& hex_decode_spec(strip_0x(text)) == Ok::<Seq<u8>, Seq<char>>(b)
        }),
{
    reveal_strlit("0x");
    let h = hex_encode_spec(b);
    let c = "0x"@ + h;
    lemma_hex_encode_ascii(b);
    assert(is_ascii_chars(c)) by {
        assert forall|i: int| 0 <= i < c.len() implies '\0' <= #[trigger] c[i] <= '\u{7f}' by {
            if i >= 2 {
                assert(c[i] == h[i - 2]);
            }
        }
    }
    is_ascii_chars_encode_utf8(c);
    let text = encode_utf8(c);
    assert(text[0] == 48u8 && text[1] == 120u8);
    assert(strip_0x(text) =~= ascii_codes(h)) by {
        assert forall|i: int| 0 <= i < h.len() implies strip_0x(text)[i] == ascii_codes(h)[i] by {
            assert(c[i + 2] == h[i]);
        }
    }
    law_hex_round_trip(b);
    assert forall|i: int| 0 <= i <= strip_0x(text).len() && i % 2 == 0 implies is_boundary(
        strip_0x(text),
        i,
    ) by {
        if i < strip_0x(text).len() {
            assert(strip_0x(text)[i] == h[i] as u8);
            assert('\0' <= h[i] <= '\u{7f}');
        }
    }
}

} // verus!
