//! Transaction receipts and the hex form of their logs bloom.
use vstd::prelude::*;
use vstd::string::StringSliceAdditionalSpecFns;
use crate::primitives::{Address, B256};
use crate::uint::U256;
use vstd::utf8::encode_utf8;
use crate::genesis::{
    append_hex, hex_char, hex_encode_spec, parse_hex_pair, strip_0x, ascii_codes,
    law_serialize_deserialize, lemma_hex_char_parses,
};

verus! {

/// An EVM execution log entry.
#[derive(Debug, Clone)]
pub struct EvmLog {
    pub address: Address,
    pub topics: Vec<B256>,
    pub data: Vec<u8>,
}

/// An EVM transaction receipt.
#[derive(Debug, Clone)]
pub struct EvmReceipt {
    /// Transaction hash.
    pub tx_hash: B256,
    /// Index of the transaction within the block.
    pub tx_index: u64,
    /// Block hash (populated after block finalization).
    pub block_hash: B256,
    /// Block number.
    pub block_number: u64,
    /// Sender address.
    pub from: Address,
    /// Recipient address (None for contract creation).
    pub to: Option<Address>,
    /// Cumulative gas used up to and including this transaction.
    pub cumulative_gas_used: u64,
    /// Gas used by this individual transaction.
    pub gas_used: u64,
    /// Contract address created, if any.
    pub contract_address: Option<Address>,
    /// Logs emitted by this transaction.
    pub logs: Vec<EvmLog>,
    /// Logs bloom filter (2048 bits = 256 bytes).
    pub logs_bloom: [u8; 256],
    /// Status: 1 = success, 0 = revert.
    pub status: u8,
    /// Effective gas price paid.
    pub effective_gas_price: U256,
}

/// What UTF-8 validation of the bytes reports: `None` when they are valid
/// UTF-8, else the error's message.
pub uninterp spec fn spec_utf8_error(b: Seq<u8>) -> Option<Seq<char>>;

/// Checks that two bytes form valid UTF-8.
///
/// Trusted: calls `core::str::from_utf8` and renders its error with
/// `to_string`. The contract claims that the outcome is a function of the
/// bytes (`spec_utf8_error`) and, as the function's documentation states,
/// that ASCII bytes are valid UTF-8.
#[verifier::external_body]
fn utf8_error(pair: &[u8]) -> (r: Option<String>)
    ensures
        match r {
            Some(m) => spec_utf8_error(pair@) == Some(m@),
            None => spec_utf8_error(pair@) is None,
        },
        (forall|i: int| 0 <= i < pair@.len() ==> pair@[i] < 128) ==> r is None,
{
    core::str::from_utf8(pair).err().map(|e| e.to_string())
}

/// What UTF-8 validation reports for the two bytes `c0`, `c1`: nothing
/// for ASCII bytes, which are valid UTF-8.
pub open spec fn pair_utf8_error(c0: u8, c1: u8) -> Option<Seq<char>> {
    if c0 < 128 && c1 < 128 {
        None
    } else {
        spec_utf8_error(seq![c0, c1])
    }
}

/// The error for a bloom of the wrong length.
pub open spec fn bloom_length_message() -> Seq<char> {
    "bloom must be 256 bytes hex"@
}

/// The error for a two-byte chunk that is not a base-16 number.
pub open spec fn invalid_digit_message() -> Seq<char> {
    "invalid digit found in string"@
}

/// The outcome of decoding the first `k` two-byte chunks of `b`: the first
/// failing chunk determines the error.
pub open spec fn bloom_chunks(b: Seq<u8>, k: nat) -> Result<Seq<u8>, Seq<char>>
    decreases k,
{
    if k == 0 {
        Ok(Seq::empty())
    } else {
        match bloom_chunks(b, (k - 1) as nat) {
            Err(m) => Err(m),
            Ok(v) => {
                let c0 = b[2 * (k - 1)];
                let c1 = b[2 * (k - 1) + 1];
                match pair_utf8_error(c0, c1) {
                    Some(m) => Err(m),
                    None => match parse_hex_pair(c0, c1) {
                        Some(x) => Ok(v.push(x)),
                        None => Err(invalid_digit_message()),
                    },
                }
            },
        }
    }
}

/// The outcome of parsing a bloom from hex with an optional `0x` prefix.
pub open spec fn bloom_decode_spec(b: Seq<u8>) -> Result<Seq<u8>, Seq<char>> {
    let h = strip_0x(b);
    if h.len() != 512 {
        Err(bloom_length_message())
    } else {
        bloom_chunks(h, 256)
    }
}

/// Renders a bloom as `0x`-prefixed lowercase hex.
pub fn serialize(bloom: &[u8; 256]) -> (r: String)
    ensures
        r@ == "0x"@ + hex_encode_spec(bloom@),
{
    let mut s = String::from_str("0x");
    append_hex(&mut s, bloom.as_slice());
    s
}

/// Parses a bloom from hex with an optional `0x` prefix.
pub fn deserialize(s: &str) -> (r: Result<[u8; 256], String>)
    ensures
        match bloom_decode_spec(s.spec_bytes()) {
            Ok(v) => r matches Ok(x) && x@ == v,
            Err(m) => r matches Err(x) && x@ == m,
        },
{
    let b = s.as_bytes();
    let start: usize = if b.len() >= 2 && b[0] == 48 && b[1] == 120 {
        2
    } else {
        0
    };
    let ghost h = strip_0x(b@);
    assert(h =~= b@.subrange(start as int, b@.len() as int));
    if b.len() - start != 512 {
        return Err(String::from_str("bloom must be 256 bytes hex"));
    }
    let mut arr = [0u8; 256];
    let mut i: usize = 0;
    while i < 256
        invariant
            h == strip_0x(s.spec_bytes()),
            h =~= b@.subrange(start as int, b@.len() as int),
            h.len() == 512,
            start + 512 == b@.len(),
            b@.len() == b.len(),
            i <= 256,
            bloom_chunks(h, i as nat) matches Ok(v) && v == arr@.subrange(0, i as int),
        decreases 256 - i,
    {
        let c0 = b[start + 2 * i];
        let c1 = b[start + 2 * i + 1];
        assert(h[2 * i as int] == c0 && h[2 * i + 1] == c1);
        let pair = [c0, c1];
        assert(pair@ =~= seq![c0, c1]);
        match utf8_error(pair.as_slice()) {
            Some(m) => {
                proof {
                    assert(bloom_chunks(h, (i + 1) as nat) == Err::<Seq<u8>, Seq<char>>(m@));
                    lemma_bloom_chunks_fail(h, (i + 1) as nat, 256);
                }
                return Err(m);
            },
            None => {},
        }
        let ghost before = arr@;
        if c0 == 43 {
            if 48 <= c1 && c1 <= 57 {
                arr[i] = c1 - 48;
            } else if 97 <= c1 && c1 <= 102 {
                arr[i] = c1 - 87;
            } else if 65 <= c1 && c1 <= 70 {
                arr[i] = c1 - 55;
            } else {
                proof {
                    lemma_bloom_chunks_fail(h, (i + 1) as nat, 256);
                }
                return Err(String::from_str("invalid digit found in string"));
            }
        } else {
            let hi: u8 = if 48 <= c0 && c0 <= 57 {
                c0 - 48
            } else if 97 <= c0 && c0 <= 102 {
                c0 - 87
            } else if 65 <= c0 && c0 <= 70 {
                c0 - 55
            } else {
                proof {
                    lemma_bloom_chunks_fail(h, (i + 1) as nat, 256);
                }
                return Err(String::from_str("invalid digit found in string"));
            };
            let lo: u8 = if 48 <= c1 && c1 <= 57 {
                c1 - 48
            } else if 97 <= c1 && c1 <= 102 {
                c1 - 87
            } else if 65 <= c1 && c1 <= 70 {
                c1 - 55
            } else {
                proof {
                    lemma_bloom_chunks_fail(h, (i + 1) as nat, 256);
                }
                return Err(String::from_str("invalid digit found in string"));
            };
            arr[i] = hi * 16 + lo;
        }
        assert(arr@.subrange(0, i + 1) =~= before.subrange(0, i as int).push(arr@[i as int]));
        i = i + 1;
    }
    assert(arr@.subrange(0, 256) =~= arr@);
    Ok(arr)
}

/// Once a chunk fails, so does every longer prefix, with the same error.
pub proof fn lemma_bloom_chunks_fail(b: Seq<u8>, k: nat, n: nat)
    requires
        k <= n,
        bloom_chunks(b, k) is Err,
    ensures
        bloom_chunks(b, n) == bloom_chunks(b, k),
    decreases n - k,
{
    if k < n {
        lemma_bloom_chunks_fail(b, k, (n - 1) as nat);
    }
}


/// The two hex digits of byte `i` of a hex encoding.
proof fn lemma_hex_encode_at(b: Seq<u8>, i: int)
    requires
        0 <= i < b.len(),
    ensures
        hex_encode_spec(b).len() == 2 * b.len(),
        hex_encode_spec(b)[2 * i] == hex_char((b[i] / 16) as nat),
        hex_encode_spec(b)[2 * i + 1] == hex_char((b[i] % 16) as nat),
    decreases b.len(),
{
    let b0 = b.drop_last();
    if b0.len() > 0 {
        lemma_hex_encode_at(b0, if i < b0.len() { i } else { 0 });
    } else {
        assert(hex_encode_spec(b0) =~= Seq::<char>::empty());
    }
    if i < b0.len() {
        assert(b0[i] == b[i]);
    }
}

/// The first `k` chunks of a hex encoding decode to the first `k` bytes.
proof fn lemma_bloom_chunks_of_encoding(b: Seq<u8>, k: nat)
    requires
        k <= b.len(),
    ensures
        bloom_chunks(ascii_codes(hex_encode_spec(b)), k) == Ok::<Seq<u8>, Seq<char>>(
            b.subrange(0, k as int),
        ),
    decreases k,
{
    let h = ascii_codes(hex_encode_spec(b));
    if k == 0 {
        assert(b.subrange(0, 0) =~= Seq::<u8>::empty());
    } else {
        lemma_bloom_chunks_of_encoding(b, (k - 1) as nat);
        let i = k - 1;
        lemma_hex_encode_at(b, i);
        let hi = (b[i] / 16) as nat;
        let lo = (b[i] % 16) as nat;
        lemma_hex_char_parses(hi, lo);
        assert(h[2 * i] == hex_char(hi) as u8);
        assert(h[2 * i + 1] == hex_char(lo) as u8);
        assert(hi * 16 + lo == b[i]);
        assert(b.subrange(0, k as int) =~= b.subrange(0, i).push(b[i]));
    }
}

/// Parsing what `serialize` renders gives the bloom back.
pub proof fn law_bloom_round_trip(bloom: Seq<u8>)
    requires
        bloom.len() == 256,
    ensures
        bloom_decode_spec(encode_utf8("0x"@ + hex_encode_spec(bloom))) == Ok::<
            Seq<u8>,
            Seq<char>,
        >(bloom),
{
    law_serialize_deserialize(bloom);
    lemma_hex_encode_at(bloom, 0);
    lemma_bloom_chunks_of_encoding(bloom, 256);
    assert(bloom.subrange(0, 256) =~= bloom);
}

} // verus!
