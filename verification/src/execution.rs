//! The decisions of block execution: which transactions run, what each
//! receipt records, and the answers to state queries. The EVM itself runs
//! outside; its outcome for each transaction comes back as a `TxOutcome`.
use vstd::prelude::*;
use crate::primitives::{Address, B256, be8};
use crate::uint::U256;
use crate::tx::{VerifiedTx, decode_and_recover, spec_decode_2718, spec_recover_signer};
use crate::receipt::{EvmLog, EvmReceipt};
use crate::config::EvmChainConfig;
use crate::genesis::{append_hex, hex_encode_spec};

verus! {

/// The largest payload a block proposal collects from the pool: 4 MB.
pub const MAX_PAYLOAD_BYTES: usize = 4 * 1024 * 1024;

/// The address of the contract that `sender` creates with nonce `nonce`.
pub uninterp spec fn spec_create_address(sender: Seq<u8>, nonce: u64) -> Seq<u8>;

/// `alloy_primitives::Address::create`: the address of the contract that
/// `sender` deploys with `nonce` (the last 20 bytes of the Keccak-256 hash
/// of the RLP list of sender and nonce); the hash is left to alloy.
#[verifier::external_body]
fn create_address(sender: &Address, nonce: u64) -> (r: Address)
    ensures
        r@ == spec_create_address(sender@, nonce),
{
    let a = alloy_primitives::Address::from(sender.bytes).create(nonce);
    Address::from_bytes(a.0.0)
}

/// The coinbase of a block: the proposer's validator id, big-endian, in
/// the last 8 bytes of an otherwise zero address.
pub fn coinbase_from_proposer(proposer: u64) -> (r: Address)
    ensures
        r@ == Seq::new(12, |i: int| 0u8) + be8(proposer),
{
    let mut bytes = [0u8; 20];
    bytes[12] = (proposer >> 56u64) as u8;
    bytes[13] = (proposer >> 48u64) as u8;
    bytes[14] = (proposer >> 40u64) as u8;
    bytes[15] = (proposer >> 32u64) as u8;
    bytes[16] = (proposer >> 24u64) as u8;
    bytes[17] = (proposer >> 16u64) as u8;
    bytes[18] = (proposer >> 8u64) as u8;
    bytes[19] = proposer as u8;
    let r = Address::from_bytes(bytes);
    assert(r@ =~= Seq::new(12, |i: int| 0u8) + be8(proposer));
    r
}

/// The number of the block whose hash is recorded when block `height`
/// starts: its parent's, when it has one.
pub fn parent_block_number(height: u64) -> (r: Option<u64>)
    ensures
        r == (if height > 0 {
            Some((height - 1) as u64)
        } else {
            None
        }),
{
    if height > 0 {
        Some(height - 1)
    } else {
        None
    }
}

/// The price per gas a transaction pays under `base_fee`: the base fee
/// plus the tip, which is what the max fee leaves above the base fee,
/// capped by the max priority fee (zero when absent).
pub open spec fn effective_gas_price_spec(
    base_fee: u64,
    max_fee: u128,
    max_priority: Option<u128>,
) -> nat {
    let prio: nat = match max_priority {
        Some(p) => p as nat,
        None => 0,
    };
    let room: nat = if max_fee >= base_fee {
        (max_fee - base_fee) as nat
    } else {
        0
    };
    let tip: nat = if room <= prio {
        room
    } else {
        prio
    };
    (base_fee + tip) as nat
}

/// Compute the effective gas price of a transaction.
pub fn effective_gas_price(base_fee: u64, max_fee: u128, max_priority: Option<u128>) -> (r: U256)
    ensures
        r@ == effective_gas_price_spec(base_fee, max_fee, max_priority),
{
    let base = base_fee as u128;
    let prio = match max_priority {
        Some(p) => p,
        None => 0,
    };
    let room = max_fee.saturating_sub(base);
    let tip = if room <= prio {
        room
    } else {
        prio
    };
    U256::from_u128(base.saturating_add(tip))
}

/// What happens to the next transaction of a block.
#[derive(Debug, Clone, Copy, PartialEq, Eq, Structural)]
pub enum TxDecision {
    /// Run it.
    Execute,
    /// Its nonce is not the sender's next one: leave it out and go on.
    Skip,
    /// It would take the block past its gas limit: stop the block here.
    Stop,
}

/// What the EVM reports of an executed transaction.
#[derive(Debug, Clone)]
pub struct TxOutcome {
    pub gas_used: u64,
    pub success: bool,
    pub logs: Vec<EvmLog>,
}

/// `a + b`, capped at `u64::MAX`.
pub open spec fn sat_add(a: u64, b: u64) -> u64 {
    if a + b <= u64::MAX {
        (a + b) as u64
    } else {
        u64::MAX
    }
}

/// A block being executed: its number, gas limit and base fee, the gas
/// used so far and the receipts of the transactions executed so far.
pub struct BlockExecution {
    pub block_number: u64,
    pub block_gas_limit: u64,
    pub base_fee: u64,
    pub cumulative_gas_used: u64,
    pub receipts: Vec<EvmReceipt>,
}

impl BlockExecution {
    /// The receipts' cumulative gas never decreases, and the last one's is
    /// the gas used so far.
    pub open spec fn receipts_consistent(&self) -> bool {
        &&& forall|i: int, j: int|
            0 <= i < j < self.receipts@.len() ==> (#[trigger] self.receipts@[i]).cumulative_gas_used
                <= (#[trigger] self.receipts@[j]).cumulative_gas_used
        &&& forall|i: int|
            0 <= i < self.receipts@.len() ==> (#[trigger] self.receipts@[i]).cumulative_gas_used
                <= self.cumulative_gas_used
        &&& self.receipts@.len() > 0 ==> self.receipts@.last().cumulative_gas_used
            == self.cumulative_gas_used
    }

    /// A block at `block_number` under `config`, with nothing executed.
    pub fn new(block_number: u64, config: &EvmChainConfig) -> (r: Self)
        ensures
            r.receipts_consistent(),
            r.block_number == block_number,
            r.block_gas_limit == config.block_gas_limit,
            r.base_fee == config.base_fee_per_gas,
            r.cumulative_gas_used == 0,
            r.receipts@.len() == 0,
    {
        BlockExecution {
            block_number,
            block_gas_limit: config.block_gas_limit,
            base_fee: config.base_fee_per_gas,
            cumulative_gas_used: 0,
            receipts: Vec::new(),
        }
    }

    /// Decides on `tx`, given the sender's next nonce in the current state:
    /// a nonce other than that one is skipped; a transaction whose gas
    /// limit would take the gas used so far past the block's limit stops
    /// the block; any other runs.
    pub fn decide(&self, tx: &VerifiedTx, expected_nonce: u64) -> (r: TxDecision)
        ensures
            r == (if tx.envelope.nonce != expected_nonce {
                TxDecision::Skip
            } else if sat_add(self.cumulative_gas_used, tx.envelope.gas_limit)
                > self.block_gas_limit {
                TxDecision::Stop
            } else {
                TxDecision::Execute
            }),
    {
        if tx.envelope.nonce != expected_nonce {
            TxDecision::Skip
        } else if self.cumulative_gas_used.saturating_add(tx.envelope.gas_limit)
            > self.block_gas_limit {
            TxDecision::Stop
        } else {
            TxDecision::Execute
        }
    }

    /// Records an executed transaction: the gas used so far grows by what
    /// it used (capped at `u64::MAX`) and its receipt is appended.
    pub fn record(&mut self, tx: &VerifiedTx, tx_index: u64, outcome: TxOutcome)
        requires
            old(self).receipts_consistent(),
        ensures
            final(self).receipts_consistent(),
            final(self).block_number == old(self).block_number,
            final(self).block_gas_limit == old(self).block_gas_limit,
            final(self).base_fee == old(self).base_fee,
            final(self).cumulative_gas_used == sat_add(
                old(self).cumulative_gas_used,
                outcome.gas_used,
            ),
            final(self).receipts@.len() == old(self).receipts@.len() + 1,
            forall|i: int|
                0 <= i < old(self).receipts@.len() ==> final(self).receipts@[i] == old(
                    self,
                ).receipts@[i],
            ({
                let rc = final(self).receipts@.last();
                &&& rc.tx_hash == tx.tx_hash
                &&& rc.tx_index == tx_index
                &&& rc.block_hash@ == Seq::new(32, |i: int| 0u8)
                &&& rc.block_number == old(self).block_number
                &&& rc.from == tx.sender
                &&& rc.to == tx.envelope.to
                &&& rc.cumulative_gas_used == final(self).cumulative_gas_used
                &&& rc.gas_used == outcome.gas_used
                &&& rc.effective_gas_price@ == effective_gas_price_spec(
                    old(self).base_fee,
                    tx.envelope.max_fee_per_gas,
                    tx.envelope.max_priority_fee_per_gas,
                )
                &&& rc.status == (if outcome.success {
                    1u8
                } else {
                    0u8
                })
                &&& rc.logs == outcome.logs
                &&& rc.logs_bloom@ == Seq::new(256, |i: int| 0u8)
                &&& tx.envelope.to is Some ==> rc.contract_address is None
                &&& tx.envelope.to is None ==> (rc.contract_address matches Some(a) && a@
                    == spec_create_address(tx.sender@, tx.envelope.nonce))
            }),
    {
        let cumulative = self.cumulative_gas_used.saturating_add(outcome.gas_used);
        self.cumulative_gas_used = cumulative;
        let contract_address = match tx.envelope.to {
            Some(_) => None,
            None => Some(create_address(&tx.sender, tx.envelope.nonce)),
        };
        let logs_bloom = [0u8; 256];
        assert(logs_bloom@ =~= Seq::new(256, |i: int| 0u8));
        let receipt = EvmReceipt {
            tx_hash: tx.tx_hash,
            tx_index,
            block_hash: B256::zero(),
            block_number: self.block_number,
            from: tx.sender,
            to: tx.envelope.to,
            cumulative_gas_used: cumulative,
            gas_used: outcome.gas_used,
            effective_gas_price: effective_gas_price(
                self.base_fee,
                tx.envelope.max_fee_per_gas,
                tx.envelope.max_priority_fee_per_gas,
            ),
            status: if outcome.success {
                1
            } else {
                0
            },
            logs: outcome.logs,
            logs_bloom,
            contract_address,
        };
        self.receipts.push(receipt);
    }
}

/// Finds the receipt of `tx_hash` in the blocks' receipts, searching the
/// latest block first and each block from its first receipt on: returns
/// the block's index and the receipt's index in it.
pub fn find_receipt(blocks: &Vec<Vec<EvmReceipt>>, tx_hash: &B256) -> (r: Option<(usize, usize)>)
    ensures
        match r {
            Some((b, i)) => {
                &&& b < blocks@.len()
                &&& i < blocks@[b as int]@.len()
                &&& blocks@[b as int]@[i as int].tx_hash@ == tx_hash@
                &&& forall|c: int, j: int|
                    b < c < blocks@.len() && 0 <= j < blocks@[c]@.len() ==> (
                    #[trigger] blocks@[c]@[j]).tx_hash@ != tx_hash@
                &&& forall|j: int|
                    0 <= j < i ==> (#[trigger] blocks@[b as int]@[j]).tx_hash@ != tx_hash@
            },
            None => forall|c: int, j: int|
                0 <= c < blocks@.len() && 0 <= j < blocks@[c]@.len() ==> (
                #[trigger] blocks@[c]@[j]).tx_hash@ != tx_hash@,
        },
{
    let mut b: usize = blocks.len();
    while b > 0
        invariant
            b <= blocks@.len(),
            forall|c: int, j: int|
                b <= c < blocks@.len() && 0 <= j < blocks@[c]@.len() ==> (
                #[trigger] blocks@[c]@[j]).tx_hash@ != tx_hash@,
        decreases b,
    {
        b = b - 1;
        let block = &blocks[b];
        let mut i: usize = 0;
        while i < block.len()
            invariant
                b < blocks@.len(),
                block == &blocks@[b as int],
                forall|c: int, j: int|
                    b < c < blocks@.len() && 0 <= j < blocks@[c]@.len() ==> (
                    #[trigger] blocks@[c]@[j]).tx_hash@ != tx_hash@,
                i <= block@.len(),
                forall|j: int| 0 <= j < i ==> (#[trigger] block@[j]).tx_hash@ != tx_hash@,
            decreases block@.len() - i,
        {
            if block[i].tx_hash.equals(tx_hash) {
                return Some((b, i));
            }
            i = i + 1;
        }
    }
    None
}

// ---------------------------------------------------------------------------
// State queries
// ---------------------------------------------------------------------------

/// A query on the committed state.
#[derive(Debug, Clone, Copy)]
pub enum StateQuery {
    Balance { address: Address },
    TransactionCount { address: Address },
    Code { address: Address },
    StorageAt { address: Address, slot: U256 },
    BlockNumber,
    Unsupported,
}

fn str_is(a: &str, b: &str) -> (r: bool)
    ensures
        r == (a@ == b@),
{
    let x = String::from_str(a);
    let y = String::from_str(b);
    x == y
}

/// Reads a state query: `eth_getBalance`, `eth_getTransactionCount` and
/// `eth_getCode` take a 20-byte address, `eth_getStorageAt` an address and
/// a 32-byte slot, `eth_blockNumber` anything; every other path, or data of
/// another length, is unsupported.
pub fn parse_query(path: &str, data: &[u8]) -> (r: StateQuery)
    ensures
        path@ == "eth_getBalance"@ && data@.len() == 20 ==> (r matches StateQuery::Balance {
            address,
        } && address@ == data@),
        path@ == "eth_getTransactionCount"@ && data@.len() == 20 ==> (
        r matches StateQuery::TransactionCount { address } && address@ == data@),
        path@ == "eth_getCode"@ && data@.len() == 20 ==> (r matches StateQuery::Code { address }
            && address@ == data@),
        path@ == "eth_getStorageAt"@ && data@.len() == 52 ==> (
        r matches StateQuery::StorageAt { address, slot } && address@ == data@.subrange(0, 20)
            && slot@ == crate::primitives::be_value(data@.subrange(20, 52))),
        path@ == "eth_blockNumber"@ ==> r is BlockNumber,
        !(path@ == "eth_getBalance"@ && data@.len() == 20) && !(path@
            == "eth_getTransactionCount"@ && data@.len() == 20) && !(path@ == "eth_getCode"@
            && data@.len() == 20) && !(path@ == "eth_getStorageAt"@ && data@.len() == 52) && path@
            != "eth_blockNumber"@ ==> r is Unsupported,
{
    proof {
        reveal_strlit("eth_getBalance");
        reveal_strlit("eth_getTransactionCount");
        reveal_strlit("eth_getCode");
        reveal_strlit("eth_getStorageAt");
        reveal_strlit("eth_blockNumber");
        assert("eth_getBalance"@.len() == 14);
        assert("eth_getTransactionCount"@.len() == 23);
        assert("eth_getCode"@.len() == 11);
        assert("eth_getStorageAt"@.len() == 16);
        assert("eth_blockNumber"@.len() == 15);
    }
    if str_is(path, "eth_getBalance") && data.len() == 20 {
        StateQuery::Balance { address: Address::from_slice(data) }
    } else if str_is(path, "eth_getTransactionCount") && data.len() == 20 {
        StateQuery::TransactionCount { address: Address::from_slice(data) }
    } else if str_is(path, "eth_getCode") && data.len() == 20 {
        StateQuery::Code { address: Address::from_slice(data) }
    } else if str_is(path, "eth_getStorageAt") && data.len() == 52 {
        let a = crate::primitives::copy_range(data, 0, 20);
        let s = crate::primitives::copy_range(data, 20, 52);
        StateQuery::StorageAt {
            address: Address::from_slice(a.as_slice()),
            slot: U256::from_be_slice(s.as_slice()),
        }
    } else if str_is(path, "eth_blockNumber") {
        StateQuery::BlockNumber
    } else {
        StateQuery::Unsupported
    }
}

/// How a read-only call ended.
pub enum CallEnd {
    /// It returned this output (a call's return data or a created
    /// contract's code).
    Returned(Vec<u8>),
    /// It reverted with this output.
    Reverted(Vec<u8>),
    /// It halted, for this reason (as revm renders it).
    Halted(String),
    /// revm could not run it, with this error (as revm renders it).
    Failed(String),
}

/// The reply to a read-only call (`eth_call`): its output, or the message
/// that says why there is none.
pub fn call_reply(end: CallEnd) -> (r: Result<Vec<u8>, String>)
    ensures
        match end {
            CallEnd::Returned(d) => r matches Ok(x) && x@ == d@,
            CallEnd::Reverted(d) => r matches Err(m) && m@ == "execution reverted: 0x"@
                + hex_encode_spec(d@),
            CallEnd::Halted(why) => r matches Err(m) && m@ == "execution halted: "@ + why@,
            CallEnd::Failed(e) => r matches Err(m) && m@ == "EVM error: "@ + e@,
        },
{
    match end {
        CallEnd::Returned(d) => Ok(d),
        CallEnd::Reverted(d) => {
            let mut m = String::from_str("execution reverted: 0x");
            append_hex(&mut m, d.as_slice());
            Err(m)
        },
        CallEnd::Halted(why) => {
            let mut m = String::from_str("execution halted: ");
            m.append(why.as_str());
            Err(m)
        },
        CallEnd::Failed(e) => {
            let mut m = String::from_str("EVM error: ");
            m.append(e.as_str());
            Err(m)
        },
    }
}

/// Whether raw transaction bytes decode and their signer is recovered.
pub open spec fn tx_decodes(raw: Seq<u8>) -> bool {
    spec_decode_2718(raw) is Ok && spec_recover_signer(raw) is Ok
}

/// The positions within the block of the transactions that decode, in
/// block order.
pub open spec fn decoded_positions(txs: Seq<Seq<u8>>) -> Seq<int>
    decreases txs.len(),
{
    if txs.len() == 0 {
        Seq::empty()
    } else {
        let prev = decoded_positions(txs.drop_last());
        if tx_decodes(txs.last()) {
            prev.push(txs.len() - 1)
        } else {
            prev
        }
    }
}

/// The raw bytes of each transaction of a block.
pub open spec fn raw_txs(txs: Seq<Vec<u8>>) -> Seq<Seq<u8>> {
    Seq::new(txs.len(), |i: int| txs[i]@)
}

/// Decodes a block's transactions, skipping those that do not decode, and
/// gives each decoded one with its position within the block.
pub fn decode_block(txs: &Vec<Vec<u8>>) -> (r: Vec<(u64, VerifiedTx)>)
    requires
        txs@.len() <= u64::MAX,
    ensures
        r@.len() == decoded_positions(raw_txs(txs@)).len(),
        forall|i: int|
            0 <= i < r@.len() ==> {
                let k = (#[trigger] r@[i]).0 as int;
                let raw = raw_txs(txs@)[k];
                &&& k == decoded_positions(raw_txs(txs@))[i]
                &&& r@[i].1.raw@ == raw
                &&& spec_decode_2718(raw) == Ok::<_, Seq<char>>(r@[i].1.envelope@)
                &&& spec_recover_signer(raw) == Ok::<_, Seq<char>>(r@[i].1.sender@)
                &&& r@[i].1.tx_hash == r@[i].1.envelope.tx_hash
            },
{
    let ghost raws = raw_txs(txs@);
    let mut r: Vec<(u64, VerifiedTx)> = Vec::new();
    let mut j: usize = 0;
    while j < txs.len()
        invariant
            raws == raw_txs(txs@),
            txs@.len() <= u64::MAX,
            j <= txs@.len(),
            r@.len() == decoded_positions(raws.subrange(0, j as int)).len(),
            forall|i: int|
                0 <= i < r@.len() ==> {
                    let k = (#[trigger] r@[i]).0 as int;
                    let raw = raws[k];
                    &&& k == decoded_positions(raws.subrange(0, j as int))[i]
                    &&& r@[i].1.raw@ == raw
                    &&& spec_decode_2718(raw) == Ok::<_, Seq<char>>(r@[i].1.envelope@)
                    &&& spec_recover_signer(raw) == Ok::<_, Seq<char>>(r@[i].1.sender@)
                    &&& r@[i].1.tx_hash == r@[i].1.envelope.tx_hash
                },
        decreases txs@.len() - j,
    {
        let ghost before = r@;
        proof {
            assert(raws.subrange(0, j + 1).drop_last() =~= raws.subrange(0, j as int));
            assert(raws.subrange(0, j + 1).last() == raws[j as int]);
            assert(raws[j as int] == txs@[j as int]@);
        }
        match decode_and_recover(txs[j].as_slice()) {
            Ok(v) => {
                r.push((j as u64, v));
                assert forall|i: int| 0 <= i < r@.len() implies (#[trigger] r@[i]).0 as int
                    == decoded_positions(raws.subrange(0, j + 1))[i] by {
                    if i < before.len() {
                        assert(r@[i] == before[i]);
                    }
                }
            },
            Err(_) => {},
        }
        j = j + 1;
    }
    assert(raws.subrange(0, txs@.len() as int) =~= raws);
    r
}

} // verus!
