//! The decisions a node makes around consensus: its role, the ranges it
//! syncs, the view it resumes at, the development genesis, and the reading
//! of RPC quantities.
use vstd::prelude::*;
use vstd::string::StringSliceAdditionalSpecFns;
use crate::primitives::Address;
use crate::uint::U256;
use crate::genesis::{EvmGenesis, GenesisAlloc, hex_digit_value, hex_digit_value_exec};

verus! {

/// The id a node takes when it is not a genesis validator.
pub const FULLNODE_SENTINEL: u64 = u64::MAX;

/// The index of the first validator whose public key is `key`.
pub open spec fn validator_index(validators: Seq<(u64, String)>, key: Seq<char>) -> Option<int> {
    if exists|i: int| 0 <= i < validators.len() && (#[trigger] validators[i]).1@ == key {
        Some(
            choose|i: int|
                0 <= i < validators.len() && (#[trigger] validators[i]).1@ == key && forall|j: int|
                    0 <= j < i ==> validators[j].1@ != key,
        )
    } else {
        None
    }
}

/// How a node runs: as the genesis validator holding its key (a fullnode
/// only when configured so), or else as a fullnode under the sentinel id.
/// The sentinel must not be a genesis validator's id.
pub fn node_role(our_key: &str, validators: &Vec<(u64, String)>, configured_fullnode: bool) -> (r: (
    u64,
    bool,
))
    requires
        (exists|i: int| 0 <= i < validators@.len() && (#[trigger] validators@[i]).1@ == our_key@)
            || (forall|i: int| 0 <= i < validators@.len() ==> (#[trigger] validators@[i]).0 != u64::MAX),
    ensures
        (exists|i: int| 0 <= i < validators@.len() && (#[trigger] validators@[i]).1@ == our_key@) ==> (
        exists|i: int|
            0 <= i < validators@.len() && (#[trigger] validators@[i]).1@ == our_key@ && (forall|j: int|
                0 <= j < i ==> validators@[j].1@ != our_key@) && r == (validators@[i].0, configured_fullnode)),
        !(exists|i: int| 0 <= i < validators@.len() && (#[trigger] validators@[i]).1@ == our_key@) ==> r == (
        FULLNODE_SENTINEL, true),
{
    let key = String::from_str(our_key);
    let mut i: usize = 0;
    while i < validators.len()
        invariant
            i <= validators@.len(),
            key@ == our_key@,
            forall|j: int| 0 <= j < i ==> validators@[j].1@ != our_key@,
        decreases validators@.len() - i,
    {
        if validators[i].1 == key {
            return (validators[i].0, configured_fullnode);
        }
        i = i + 1;
    }
    (FULLNODE_SENTINEL, true)
}

/// The last height asked for in one sync batch: `to`, but at most
/// `max_batch` heights from `from`.
pub fn sync_batch_end(from: u64, to: u64, max_batch: u64) -> (r: u64)
    requires
        max_batch >= 1,
        from + max_batch - 1 <= u64::MAX,
    ensures
        r == (if to <= from + max_batch - 1 {
            to
        } else {
            (from + max_batch - 1) as u64
        }),
{
    let last = from + (max_batch - 1);
    if to <= last {
        to
    } else {
        last
    }
}

/// The view a node resumes at after syncing: past the view of the synced
/// tip block when that is ahead of the current view (the tip is only looked
/// at once some height is committed; unknown tips count as the current
/// view).
pub fn resume_view(last_committed_height: u64, tip_view: Option<u64>, current_view: u64) -> (r: u64)
    requires
        match tip_view {
            Some(t) => t < u64::MAX,
            None => true,
        },
    ensures
        r == (if last_committed_height > 0 {
            match tip_view {
                Some(t) => if t > current_view {
                    (t + 1) as u64
                } else {
                    current_view
                },
                None => current_view,
            }
        } else {
            current_view
        }),
{
    if last_committed_height > 0 {
        let tip = match tip_view {
            Some(t) => t,
            None => current_view,
        };
        if tip > current_view {
            return tip + 1;
        }
    }
    current_view
}

/// One ether in wei.
pub open spec fn ether() -> nat {
    1_000_000_000_000_000_000
}

/// An allocation with `balance`, nonce zero, no code and no storage.
pub open spec fn plain_alloc(a: GenesisAlloc, balance: nat) -> bool {
    &&& a.balance@ == balance
    &&& a.nonce == 0
    &&& a.code@.len() == 0
    &&& a.storage@.len() == 0
}

fn plain(balance: U256) -> (r: GenesisAlloc)
    ensures
        plain_alloc(r, balance@),
{
    GenesisAlloc { balance, nonce: 0, code: Vec::new(), storage: Vec::new() }
}

/// Default dev genesis with funded test accounts: chain 1337, accounts
/// 0xaa…aa and 0xbb…bb holding 10 000 ether each, gas limit 30 000 000,
/// base fee 1 gwei, zero coinbase and timestamp.
pub fn default_dev_genesis() -> (r: EvmGenesis)
    ensures
        r.chain_id == 1337,
        r.gas_limit == 30_000_000,
        r.base_fee_per_gas == 1_000_000_000,
        r.coinbase@ == Seq::new(20, |i: int| 0u8),
        r.timestamp == 0,
        r.alloc@.len() == 2,
        r.alloc@[0].0@ == Seq::new(20, |i: int| 0xAAu8),
        r.alloc@[1].0@ == Seq::new(20, |i: int| 0xBBu8),
        plain_alloc(r.alloc@[0].1, 10_000 * ether()),
        plain_alloc(r.alloc@[1].1, 10_000 * ether()),
{
    let amount = U256::from_u128(10_000_000_000_000_000_000_000u128);
    let mut alloc: Vec<(Address, GenesisAlloc)> = Vec::new();
    alloc.push((Address::repeat_byte(0xAA), plain(amount)));
    alloc.push((Address::repeat_byte(0xBB), plain(amount)));
    EvmGenesis {
        chain_id: 1337,
        alloc,
        gas_limit: 30_000_000,
        base_fee_per_gas: 1_000_000_000,
        coinbase: Address::zero(),
        timestamp: 0,
    }
}

/// `a` sorts before `b` byte by byte.
pub open spec fn bytes_before(a: Seq<u8>, b: Seq<u8>) -> bool {
    exists|k: int|
        0 <= k < a.len() && k < b.len() && a[k] < b[k] && forall|j: int|
            0 <= j < k ==> #[trigger] a[j] == b[j]
}

fn address_before(a: &Address, b: &Address) -> (r: bool)
    ensures
        r == bytes_before(a@, b@),
{
    let mut k: usize = 0;
    while k < 20
        invariant
            k <= 20,
            a@.len() == 20,
            b@.len() == 20,
            forall|j: int| 0 <= j < k ==> #[trigger] a@[j] == b@[j],
        decreases 20 - k,
    {
        if a.bytes[k] != b.bytes[k] {
            if a.bytes[k] < b.bytes[k] {
                assert(0 <= k < a@.len() && a@[k as int] < b@[k as int]);
                return true;
            } else {
                proof {
                    assert forall|m: int|
                        0 <= m < a@.len() && m < b@.len() && a@[m] < b@[m] implies !(forall|j: int|
                        0 <= j < m ==> #[trigger] a@[j] == b@[j]) by {
                        if m < k {
                        } else if m > k {
                            assert(a@[k as int] != b@[k as int]);
                        }
                    }
                }
                return false;
            }
        }
        k = k + 1;
    }
    proof {
        assert forall|m: int| 0 <= m < a@.len() && m < b@.len() && a@[m] < b@[m] implies false by {
            assert(a@[m] == b@[m]);
        }
    }
    false
}

/// The benchmark genesis: the sender holds one million ether, the
/// recipient nothing, in ascending address order; when they are the same
/// account it holds nothing (the recipient's entry replaces the sender's).
pub fn bench_evm_genesis(sender: Address, recipient: Address) -> (r: EvmGenesis)
    ensures
        r.chain_id == 1337,
        r.gas_limit == 30_000_000,
        r.base_fee_per_gas == 1_000_000_000,
        r.coinbase@ == Seq::new(20, |i: int| 0u8),
        r.timestamp == 0,
        sender@ == recipient@ ==> r.alloc@.len() == 1 && r.alloc@[0].0 == recipient
            && plain_alloc(r.alloc@[0].1, 0),
        bytes_before(sender@, recipient@) ==> r.alloc@.len() == 2 && r.alloc@[0].0 == sender
            && plain_alloc(r.alloc@[0].1, 1_000_000 * ether()) && r.alloc@[1].0 == recipient
            && plain_alloc(r.alloc@[1].1, 0),
        sender@ != recipient@ && !bytes_before(sender@, recipient@) ==> r.alloc@.len() == 2
            && r.alloc@[0].0 == recipient && plain_alloc(r.alloc@[0].1, 0) && r.alloc@[1].0
            == sender && plain_alloc(r.alloc@[1].1, 1_000_000 * ether()),
{
    let funded = U256::from_u128(1_000_000_000_000_000_000_000_000u128);
    let mut alloc: Vec<(Address, GenesisAlloc)> = Vec::new();
    if sender.equals(&recipient) {
        alloc.push((recipient, plain(U256::zero())));
    } else if address_before(&sender, &recipient) {
        alloc.push((sender, plain(funded)));
        alloc.push((recipient, plain(U256::zero())));
    } else {
        alloc.push((recipient, plain(U256::zero())));
        alloc.push((sender, plain(funded)));
    }
    EvmGenesis {
        chain_id: 1337,
        alloc,
        gas_limit: 30_000_000,
        base_fee_per_gas: 1_000_000_000,
        coinbase: Address::zero(),
        timestamp: 0,
    }
}

/// The base-16 value of a digit string, or `None` when one byte is not a
/// hex digit.
pub open spec fn hex_digits_value(d: Seq<u8>) -> Option<nat>
    decreases d.len(),
{
    if d.len() == 0 {
        Some(0)
    } else {
        match (hex_digits_value(d.drop_last()), hex_digit_value(d.last())) {
            (Some(v), Some(x)) => Some(v * 16 + x),
            _ => None,
        }
    }
}

/// The digits of an RPC quantity: what follows `0x` and an optional `+`.
pub open spec fn quantity_digits(b: Seq<u8>) -> Seq<u8> {
    let rest = b.subrange(2, b.len() as int);
    if rest.len() >= 1 && rest[0] == 43u8 {
        rest.subrange(1, rest.len() as int)
    } else {
        rest
    }
}

/// How an RPC quantity reads as a `u64`: it must start with `0x`, and its
/// digits (after an optional `+`) must be one or more hex digits whose value
/// fits in 64 bits.
pub open spec fn hex_quantity(b: Seq<u8>) -> Option<u64> {
    if b.len() >= 2 && b[0] == 48u8 && b[1] == 120u8 {
        let d = quantity_digits(b);
        if d.len() == 0 {
            None
        } else {
            match hex_digits_value(d) {
                Some(v) => if v <= u64::MAX {
                    Some(v as u64)
                } else {
                    None
                },
                None => None,
            }
        }
    } else {
        None
    }
}

/// A prefix of valid digits is valid, with no larger a value.
proof fn lemma_hex_prefix(d: Seq<u8>, k: int)
    requires
        0 <= k <= d.len(),
        hex_digits_value(d) is Some,
    ensures
        hex_digits_value(d.subrange(0, k)) is Some,
        hex_digits_value(d.subrange(0, k))->0 <= hex_digits_value(d)->0,
    decreases d.len(),
{
    if k == d.len() {
        assert(d.subrange(0, k) =~= d);
    } else {
        lemma_hex_prefix(d.drop_last(), k);
        assert(d.drop_last().subrange(0, k) =~= d.subrange(0, k));
    }
}

/// Reads an RPC quantity such as `0x1f` (see `hex_quantity`).
pub fn parse_hex_quantity(s: &str) -> (r: Option<u64>)
    ensures
        r == hex_quantity(s.spec_bytes()),
{
    let b = s.as_bytes();
    if !(b.len() >= 2 && b[0] == 48 && b[1] == 120) {
        return None;
    }
    let mut start: usize = 2;
    if b.len() >= 3 && b[2] == 43 {
        start = 3;
    }
    let ghost d = quantity_digits(b@);
    assert(d =~= b@.subrange(start as int, b@.len() as int));
    if start == b.len() {
        return None;
    }
    let mut acc: u64 = 0;
    let mut i: usize = start;
    while i < b.len()
        invariant
            2 <= start <= i <= b@.len(),
            d == b@.subrange(start as int, b@.len() as int),
            d == quantity_digits(b@),
            d.len() > 0,
            b@ == s.spec_bytes(),
            b@.len() >= 2 && b@[0] == 48u8 && b@[1] == 120u8,
            hex_digits_value(d.subrange(0, i - start)) == Some(acc as nat),
        decreases b@.len() - i,
    {
        let ghost p = d.subrange(0, i + 1 - start);
        assert(p.drop_last() =~= d.subrange(0, i - start));
        assert(p.last() == b@[i as int]);
        let x = match hex_digit_value_exec(b[i]) {
            Some(x) => x,
            None => {
                proof {
                    assert(hex_digits_value(p) is None);
                    if hex_digits_value(d) is Some {
                        lemma_hex_prefix(d, i + 1 - start);
                        assert(d.subrange(0, i + 1 - start) =~= p);
                        assert(false);
                    }
                }
                return None;
            },
        };
        if acc > 0x0fff_ffff_ffff_ffff {
            proof {
                assert(hex_digits_value(p) == Some((acc * 16 + x) as nat));
                assert(acc * 16 + x > u64::MAX) by (nonlinear_arith)
                    requires
                        acc > 0x0fff_ffff_ffff_ffff,
                ;
                if hex_digits_value(d) is Some {
                    lemma_hex_prefix(d, i + 1 - start);
                    assert(d.subrange(0, i + 1 - start) =~= p);
                }
            }
            return None;
        }
        acc = acc * 16 + x as u64;
        i = i + 1;
    }
    assert(d.subrange(0, i - start) =~= d);
    Some(acc)
}

} // verus!
