//! Ethereum transaction decoding, sender recovery and validation against
//! chain state.
use vstd::prelude::*;
use alloy_consensus::Transaction;
use alloy_consensus::transaction::SignerRecoverable;
use alloy_eips::Decodable2718;
use crate::primitives::{Address, B256, bytes_to_vec};
use crate::uint::U256;
use crate::primitives::p256;
use crate::text::{decimal, u64_decimal, u256_decimal};

verus! {

/// The fields of a decoded transaction envelope that the chain reads.
#[derive(Clone, Debug)]
pub struct TxFields {
    /// The EIP-2718 transaction type (0 for legacy).
    pub tx_type: u8,
    /// Chain id (absent for pre-EIP-155 legacy transactions).
    pub chain_id: Option<u64>,
    pub nonce: u64,
    pub gas_limit: u64,
    /// Max fee per gas (the gas price for legacy transactions).
    pub max_fee_per_gas: u128,
    /// Max priority fee per gas (absent for legacy transactions).
    pub max_priority_fee_per_gas: Option<u128>,
    /// Recipient; absent for contract creation.
    pub to: Option<Address>,
    pub value: U256,
    pub input: Vec<u8>,
    /// Transaction hash.
    pub tx_hash: B256,
}

/// Mathematical view of [`TxFields`].
pub struct TxFieldsView {
    pub tx_type: u8,
    pub chain_id: Option<u64>,
    pub nonce: u64,
    pub gas_limit: u64,
    pub max_fee_per_gas: u128,
    pub max_priority_fee_per_gas: Option<u128>,
    pub to: Option<Seq<u8>>,
    pub value: nat,
    pub input: Seq<u8>,
    pub tx_hash: Seq<u8>,
}

impl View for TxFields {
    type V = TxFieldsView;

    open spec fn view(&self) -> TxFieldsView {
        TxFieldsView {
            tx_type: self.tx_type,
            chain_id: self.chain_id,
            nonce: self.nonce,
            gas_limit: self.gas_limit,
            max_fee_per_gas: self.max_fee_per_gas,
            max_priority_fee_per_gas: self.max_priority_fee_per_gas,
            to: match self.to {
                Some(a) => Some(a@),
                None => None,
            },
            value: self.value@,
            input: self.input@,
            tx_hash: self.tx_hash@,
        }
    }
}

impl TxFields {
    pub fn chain_id(&self) -> (r: Option<u64>)
        ensures
            r == self.chain_id,
    {
        self.chain_id
    }

    pub fn nonce(&self) -> (r: u64)
        ensures
            r == self.nonce,
    {
        self.nonce
    }

    pub fn gas_limit(&self) -> (r: u64)
        ensures
            r == self.gas_limit,
    {
        self.gas_limit
    }

    pub fn max_fee_per_gas(&self) -> (r: u128)
        ensures
            r == self.max_fee_per_gas,
    {
        self.max_fee_per_gas
    }

    pub fn max_priority_fee_per_gas(&self) -> (r: Option<u128>)
        ensures
            r == self.max_priority_fee_per_gas,
    {
        self.max_priority_fee_per_gas
    }

    pub fn to(&self) -> (r: Option<Address>)
        ensures
            r == self.to,
    {
        self.to
    }

    pub fn value(&self) -> (r: U256)
        ensures
            r == self.value,
    {
        self.value
    }
}

/// A decoded and sender-recovered Ethereum transaction.
#[derive(Clone, Debug)]
pub struct VerifiedTx {
    /// The raw RLP-encoded transaction bytes (as received from the network).
    pub raw: Vec<u8>,
    /// The decoded transaction fields.
    pub envelope: TxFields,
    /// Recovered sender address.
    pub sender: Address,
    /// Transaction hash.
    pub tx_hash: B256,
}

/// Mathematical view of [`VerifiedTx`].
pub struct VerifiedTxView {
    pub raw: Seq<u8>,
    pub fields: TxFieldsView,
    pub sender: Seq<u8>,
    pub hash: Seq<u8>,
}

impl View for VerifiedTx {
    type V = VerifiedTxView;

    open spec fn view(&self) -> VerifiedTxView {
        VerifiedTxView {
            raw: self.raw@,
            fields: self.envelope@,
            sender: self.sender@,
            hash: self.tx_hash@,
        }
    }
}

/// Error returned when transaction decoding or verification fails.
#[derive(Debug)]
pub enum TxError {
    RlpDecode(String),
    SignatureRecovery(String),
    ChainIdMismatch { expected: u64, got: Option<u64> },
    NonceTooLow { expected: u64, got: u64 },
    InsufficientBalance { required: U256, available: U256 },
    IntrinsicGasTooLow { required: u64, got: u64 },
    GasLimitExceedsBlock { tx_gas: u64, block_limit: u64 },
}

/// Mathematical view of [`TxError`].
pub enum TxErrorView {
    RlpDecode(Seq<char>),
    SignatureRecovery(Seq<char>),
    ChainIdMismatch { expected: u64, got: Option<u64> },
    NonceTooLow { expected: u64, got: u64 },
    InsufficientBalance { required: nat, available: nat },
    IntrinsicGasTooLow { required: u64, got: u64 },
    GasLimitExceedsBlock { tx_gas: u64, block_limit: u64 },
}

impl View for TxError {
    type V = TxErrorView;

    open spec fn view(&self) -> TxErrorView {
        match self {
            TxError::RlpDecode(e) => TxErrorView::RlpDecode(e@),
            TxError::SignatureRecovery(e) => TxErrorView::SignatureRecovery(e@),
            TxError::ChainIdMismatch { expected, got } => TxErrorView::ChainIdMismatch {
                expected: *expected,
                got: *got,
            },
            TxError::NonceTooLow { expected, got } => TxErrorView::NonceTooLow {
                expected: *expected,
                got: *got,
            },
            TxError::InsufficientBalance { required, available } =>
                TxErrorView::InsufficientBalance { required: required@, available: available@ },
            TxError::IntrinsicGasTooLow { required, got } => TxErrorView::IntrinsicGasTooLow {
                required: *required,
                got: *got,
            },
            TxError::GasLimitExceedsBlock { tx_gas, block_limit } =>
                TxErrorView::GasLimitExceedsBlock { tx_gas: *tx_gas, block_limit: *block_limit },
        }
    }
}

/// How an optional integer prints with `{:?}`.
pub open spec fn option_u64_debug(o: Option<u64>) -> Seq<char> {
    match o {
        Some(x) => "Some("@ + decimal(x as nat) + ")"@,
        None => "None"@,
    }
}

/// The human-readable message of a transaction error.
pub open spec fn tx_error_message(e: TxErrorView) -> Seq<char> {
    match e {
        TxErrorView::RlpDecode(m) => "RLP decode: "@ + m,
        TxErrorView::SignatureRecovery(m) => "signature recovery: "@ + m,
        TxErrorView::ChainIdMismatch { expected, got } => "chain_id mismatch: expected "@ + decimal(
            expected as nat,
        ) + ", got "@ + option_u64_debug(got),
        TxErrorView::NonceTooLow { expected, got } => "nonce too low: expected >= "@ + decimal(
            expected as nat,
        ) + ", got "@ + decimal(got as nat),
        TxErrorView::InsufficientBalance { required, available } => "insufficient balance: need "@
            + decimal(required) + ", have "@ + decimal(available),
        TxErrorView::IntrinsicGasTooLow { required, got } => "intrinsic gas too low: need "@
            + decimal(required as nat) + ", got "@ + decimal(got as nat),
        TxErrorView::GasLimitExceedsBlock { tx_gas, block_limit } => "gas limit "@ + decimal(
            tx_gas as nat,
        ) + " exceeds block limit "@ + decimal(block_limit as nat),
    }
}

fn render_option_u64(o: Option<u64>) -> (r: String)
    ensures
        r@ == option_u64_debug(o),
{
    match o {
        Some(x) => {
            let mut s = String::from_str("Some(");
            s.append(u64_decimal(x).as_str());
            s.append(")");
            s
        },
        None => String::from_str("None"),
    }
}

impl TxError {
    /// The human-readable message of the error.
    pub fn to_string(&self) -> (r: String)
        ensures
            r@ == tx_error_message(self@),
    {
        match self {
            TxError::RlpDecode(m) => {
                let mut s = String::from_str("RLP decode: ");
                s.append(m.as_str());
                s
            },
            TxError::SignatureRecovery(m) => {
                let mut s = String::from_str("signature recovery: ");
                s.append(m.as_str());
                s
            },
            TxError::ChainIdMismatch { expected, got } => {
                let mut s = String::from_str("chain_id mismatch: expected ");
                s.append(u64_decimal(*expected).as_str());
                s.append(", got ");
                s.append(render_option_u64(*got).as_str());
                s
            },
            TxError::NonceTooLow { expected, got } => {
                let mut s = String::from_str("nonce too low: expected >= ");
                s.append(u64_decimal(*expected).as_str());
                s.append(", got ");
                s.append(u64_decimal(*got).as_str());
                s
            },
            TxError::InsufficientBalance { required, available } => {
                let mut s = String::from_str("insufficient balance: need ");
                s.append(u256_decimal(required).as_str());
                s.append(", have ");
                s.append(u256_decimal(available).as_str());
                s
            },
            TxError::IntrinsicGasTooLow { required, got } => {
                let mut s = String::from_str("intrinsic gas too low: need ");
                s.append(u64_decimal(*required).as_str());
                s.append(", got ");
                s.append(u64_decimal(*got).as_str());
                s
            },
            TxError::GasLimitExceedsBlock { tx_gas, block_limit } => {
                let mut s = String::from_str("gas limit ");
                s.append(u64_decimal(*tx_gas).as_str());
                s.append(" exceeds block limit ");
                s.append(u64_decimal(*block_limit).as_str());
                s
            },
        }
    }
}

// ---------------------------------------------------------------------------
// Decoding (alloy)
// ---------------------------------------------------------------------------

/// What EIP-2718 decoding of the raw bytes yields: the envelope's fields, or
/// the decoder's error message.
pub uninterp spec fn spec_decode_2718(raw: Seq<u8>) -> Result<TxFieldsView, Seq<char>>;

/// The signer recovered from the envelope that the raw bytes decode to, or the
/// recovery error rendered with `{:?}`.
pub uninterp spec fn spec_recover_signer(raw: Seq<u8>) -> Result<Seq<u8>, Seq<char>>;

/// Decodes an EIP-2718 envelope (typed or legacy) and reads its fields.
///
/// Trusted: calls `<TxEnvelope as Decodable2718>::decode_2718` from
/// alloy-eips/alloy-consensus and, on success, the envelope's `Transaction`
/// accessors and `tx_hash`. The contract claims only that the outcome is a
/// function of the raw bytes (named by `spec_decode_2718`).
#[verifier::external_body]
fn decode_tx_fields(raw: &[u8]) -> (r: Result<TxFields, String>)
    ensures
        match r {
            Ok(f) => spec_decode_2718(raw@) == Ok::<TxFieldsView, Seq<char>>(f@),
            Err(e) => spec_decode_2718(raw@) == Err::<TxFieldsView, Seq<char>>(e@),
        },
{
    let e = alloy_consensus::TxEnvelope::decode_2718(&mut &raw[..]).map_err(|e| e.to_string())?;
    let v = e.value().into_limbs();
    Ok(TxFields {
        tx_type: e.tx_type() as u8,
        chain_id: e.chain_id(),
        nonce: e.nonce(),
        gas_limit: e.gas_limit(),
        max_fee_per_gas: e.max_fee_per_gas(),
        max_priority_fee_per_gas: e.max_priority_fee_per_gas(),
        to: e.to().map(|a| Address { bytes: a.into_array() }),
        value: U256 { l0: v[0], l1: v[1], l2: v[2], l3: v[3] },
        input: e.input().to_vec(),
        tx_hash: B256 { bytes: e.tx_hash().0 },
    })
}

/// Recovers the signer of the envelope that the raw bytes decode to.
///
/// Trusted: decodes with `<TxEnvelope as Decodable2718>::decode_2718` (which
/// `requires` says succeeds) and calls `SignerRecoverable::recover_signer`
/// (ECDSA public-key recovery) from alloy-consensus. The contract claims only
/// that the outcome is a function of the raw bytes (`spec_recover_signer`).
#[verifier::external_body]
fn recover_sender(raw: &[u8]) -> (r: Result<Address, String>)
    requires
        spec_decode_2718(raw@) is Ok,
    ensures
        match r {
            Ok(a) => spec_recover_signer(raw@) == Ok::<Seq<u8>, Seq<char>>(a@),
            Err(e) => spec_recover_signer(raw@) == Err::<Seq<u8>, Seq<char>>(e@),
        },
{
    let e = alloy_consensus::TxEnvelope::decode_2718(&mut &raw[..]).map_err(|e| e.to_string())?;
    let a = e.recover_signer().map_err(|x| format!("{x:?}"))?;
    Ok(Address { bytes: a.into_array() })
}

/// Decode raw Ethereum transaction bytes and recover the sender.
///
/// Accepts EIP-2718 typed transaction envelopes and legacy (untyped)
/// RLP-encoded transactions.
pub fn decode_and_recover(raw: &[u8]) -> (r: Result<VerifiedTx, TxError>)
    ensures
        match spec_decode_2718(raw@) {
            Err(m) => r matches Err(TxError::RlpDecode(e)) && e@ == m,
            Ok(fields) => match spec_recover_signer(raw@) {
                Err(m) => r matches Err(TxError::SignatureRecovery(e)) && e@ == m,
                Ok(sender) => r matches Ok(v) && v.raw@ == raw@ && v.envelope@ == fields
                    && v.sender@ == sender && v.tx_hash == v.envelope.tx_hash,
            },
        },
{
    let envelope = match decode_tx_fields(raw) {
        Ok(f) => f,
        Err(e) => return Err(TxError::RlpDecode(e)),
    };
    let sender = match recover_sender(raw) {
        Ok(a) => a,
        Err(e) => return Err(TxError::SignatureRecovery(e)),
    };
    let tx_hash = envelope.tx_hash;
    Ok(VerifiedTx { raw: bytes_to_vec(raw), envelope, sender, tx_hash })
}

// ---------------------------------------------------------------------------
// Validation
// ---------------------------------------------------------------------------

/// Gas charged per calldata byte.
pub open spec fn calldata_byte_gas(b: u8) -> nat {
    if b == 0 {
        4
    } else {
        16
    }
}

/// Total calldata gas of `input`.
pub open spec fn calldata_gas(input: Seq<u8>) -> nat
    decreases input.len(),
{
    if input.len() == 0 {
        0
    } else {
        calldata_gas(input.drop_last()) + calldata_byte_gas(input.last())
    }
}

/// `min(x, u64::MAX)`.
pub open spec fn cap_u64(x: nat) -> nat {
    if x <= u64::MAX {
        x
    } else {
        u64::MAX as nat
    }
}

/// The intrinsic gas of a transaction: 21000 for a call or 53000 for a
/// creation, plus its calldata gas, capped at `u64::MAX`.
pub open spec fn intrinsic_gas_spec(f: TxFieldsView) -> nat {
    cap_u64((if f.to is Some { 21_000nat } else { 53_000nat }) + calldata_gas(f.input))
}

/// Calculate the intrinsic gas cost of a transaction.
pub fn intrinsic_gas(tx: &TxFields) -> (r: u64)
    ensures
        r == intrinsic_gas_spec(tx@),
{
    let base_cost: u64 = if tx.to.is_some() {
        21_000
    } else {
        53_000
    };
    let mut data_cost: u64 = 0;
    let mut i: usize = 0;
    while i < tx.input.len()
        invariant
            i <= tx.input@.len(),
            data_cost == cap_u64(calldata_gas(tx.input@.subrange(0, i as int))),
        decreases tx.input@.len() - i,
    {
        let c: u64 = if tx.input[i] == 0 {
            4
        } else {
            16
        };
        proof {
            assert(tx.input@.subrange(0, i + 1).drop_last() =~= tx.input@.subrange(0, i as int));
        }
        data_cost = data_cost.saturating_add(c);
        i = i + 1;
    }
    proof {
        assert(tx.input@.subrange(0, tx.input@.len() as int) =~= tx.input@);
    }
    base_cost.saturating_add(data_cost)
}

/// Compute the effective gas tip for a transaction given a base fee: the
/// max fee (truncated to 64 bits) above the base fee, capped at the max
/// priority fee (truncated to 64 bits; zero when absent).
pub open spec fn effective_gas_tip_spec(f: TxFieldsView, base_fee: u64) -> u64 {
    let max_fee = f.max_fee_per_gas as u64;
    let max_priority = (match f.max_priority_fee_per_gas {
        Some(p) => p,
        None => 0,
    }) as u64;
    let tip = if max_fee >= base_fee {
        (max_fee - base_fee) as u64
    } else {
        0
    };
    if tip <= max_priority {
        tip
    } else {
        max_priority
    }
}

/// Compute the effective gas tip for a transaction given a base fee.
pub fn effective_gas_tip(tx: &TxFields, base_fee: u64) -> (r: u64)
    ensures
        r == effective_gas_tip_spec(tx@, base_fee),
{
    let max_fee = tx.max_fee_per_gas as u64;
    let max_priority = match tx.max_priority_fee_per_gas {
        Some(p) => p,
        None => 0,
    } as u64;
    let tip = max_fee.saturating_sub(base_fee);
    if tip <= max_priority {
        tip
    } else {
        max_priority
    }
}

/// The up-front cost `gas_limit * max(max_fee, base_fee) + value`, wrapping
/// at 2^256.
pub open spec fn upfront_cost_spec(f: TxFieldsView, base_fee: u64) -> nat {
    let max_fee: nat = if f.max_fee_per_gas >= base_fee {
        f.max_fee_per_gas as nat
    } else {
        base_fee as nat
    };
    ((f.gas_limit * max_fee + f.value) % p256()) as nat
}

/// The outcome of validating a transaction against chain state.
pub open spec fn validate_tx_spec(
    f: TxFieldsView,
    chain_id: u64,
    account_nonce: u64,
    account_balance: nat,
    block_gas_limit: u64,
    base_fee: u64,
) -> Result<(), TxErrorView> {
    if f.chain_id is Some && f.chain_id->0 != chain_id {
        Err(TxErrorView::ChainIdMismatch { expected: chain_id, got: f.chain_id })
    } else if f.nonce < account_nonce {
        Err(TxErrorView::NonceTooLow { expected: account_nonce, got: f.nonce })
    } else if f.gas_limit > block_gas_limit {
        Err(TxErrorView::GasLimitExceedsBlock { tx_gas: f.gas_limit, block_limit: block_gas_limit })
    } else if f.gas_limit < intrinsic_gas_spec(f) {
        Err(
            TxErrorView::IntrinsicGasTooLow {
                required: intrinsic_gas_spec(f) as u64,
                got: f.gas_limit,
            },
        )
    } else if upfront_cost_spec(f, base_fee) > account_balance {
        Err(
            TxErrorView::InsufficientBalance {
                required: upfront_cost_spec(f, base_fee),
                available: account_balance,
            },
        )
    } else {
        Ok(())
    }
}

/// Validate a decoded transaction against chain state.
pub fn validate_tx(
    tx: &VerifiedTx,
    chain_id: u64,
    account_nonce: u64,
    account_balance: U256,
    block_gas_limit: u64,
    base_fee: u64,
) -> (r: Result<(), TxError>)
    ensures
        match validate_tx_spec(
            tx.envelope@,
            chain_id,
            account_nonce,
            account_balance@,
            block_gas_limit,
            base_fee,
        ) {
            Ok(_) => r is Ok,
            Err(ev) => r matches Err(e) && e@ == ev,
        },
{
    let f = &tx.envelope;
    // Chain ID check.
    if let Some(id) = f.chain_id {
        if id != chain_id {
            return Err(TxError::ChainIdMismatch { expected: chain_id, got: Some(id) });
        }
    }
    // Nonce check.
    if f.nonce < account_nonce {
        return Err(TxError::NonceTooLow { expected: account_nonce, got: f.nonce });
    }
    // Gas limit vs block limit.
    let tx_gas = f.gas_limit;
    if tx_gas > block_gas_limit {
        return Err(TxError::GasLimitExceedsBlock { tx_gas, block_limit: block_gas_limit });
    }
    // Intrinsic gas check.
    let intrinsic = intrinsic_gas(f);
    if tx_gas < intrinsic {
        return Err(TxError::IntrinsicGasTooLow { required: intrinsic, got: tx_gas });
    }
    // Upfront cost check.
    let max_fee: u128 = if f.max_fee_per_gas >= base_fee as u128 {
        f.max_fee_per_gas
    } else {
        base_fee as u128
    };
    let upfront = U256::mul_u64_u128(tx_gas, max_fee).wrapping_add(&f.value);
    if account_balance.lt(&upfront) {
        return Err(TxError::InsufficientBalance { required: upfront, available: account_balance });
    }
    Ok(())
}

/// The effective tip is the max fee above the base fee (zero when the max
/// fee is below it), capped at the max priority fee, which counts as zero
/// when the transaction has none (a legacy transaction's tip is zero). Fees
/// are taken in 64 bits.
pub proof fn law_effective_tip(f: TxFieldsView, base_fee: u64)
    ensures
        ({
            let max_fee = f.max_fee_per_gas as u64;
            let priority: u64 = match f.max_priority_fee_per_gas {
                Some(p) => p as u64,
                None => 0u64,
            };
            let above: u64 = if max_fee >= base_fee {
                (max_fee - base_fee) as u64
            } else {
                0u64
            };
            let tip = effective_gas_tip_spec(f, base_fee);
            &&& tip <= priority
            &&& tip <= above
            &&& (tip == priority || tip == above)
            &&& (f.max_priority_fee_per_gas is None ==> tip == 0)
            &&& (max_fee <= base_fee ==> tip == 0)
        }),
{
}

/// The up-front check charges the gas limit at the higher of the max fee
/// and the base fee, plus the value (in 256-bit arithmetic, which wraps): a
/// transaction that passes the earlier checks is refused as
/// `InsufficientBalance`, reporting that amount, exactly when the balance
/// is below it. Short of wrapping, that amount is at least
/// `gas_limit * max_fee_per_gas + value` and `gas_limit * base_fee + value`.
pub proof fn law_validate_upfront_cost(
    f: TxFieldsView,
    chain_id: u64,
    account_nonce: u64,
    balance: nat,
    block_gas_limit: u64,
    base_fee: u64,
)
    requires
        f.chain_id is None || f.chain_id->0 == chain_id,
        f.nonce >= account_nonce,
        f.gas_limit <= block_gas_limit,
        f.gas_limit >= intrinsic_gas_spec(f),
    ensures
        ({
            let price: nat = if f.max_fee_per_gas >= base_fee {
                f.max_fee_per_gas as nat
            } else {
                base_fee as nat
            };
            let required = ((f.gas_limit * price + f.value) % p256()) as nat;
            let r = validate_tx_spec(f, chain_id, account_nonce, balance, block_gas_limit, base_fee);
            &&& (balance < required ==> r == Err::<(), TxErrorView>(
                TxErrorView::InsufficientBalance { required, available: balance },
            ))
            &&& (balance >= required ==> r == Ok::<(), TxErrorView>(()))
            &&& (f.gas_limit * price + f.value < p256() ==> required >= f.gas_limit
                * f.max_fee_per_gas + f.value && required >= f.gas_limit * base_fee + f.value)
        }),
{
    let price: nat = if f.max_fee_per_gas >= base_fee {
        f.max_fee_per_gas as nat
    } else {
        base_fee as nat
    };
    assert(f.gas_limit * price >= f.gas_limit * f.max_fee_per_gas) by (nonlinear_arith)
        requires
            price >= f.max_fee_per_gas,
    ;
    assert(f.gas_limit * price >= f.gas_limit * base_fee) by (nonlinear_arith)
        requires
            price >= base_fee,
    ;
}

/// A transaction that validates has a matching (or no) chain id, a nonce
/// at least the account's, a gas limit within the block's and at least its
/// intrinsic gas, and a balance that covers the gas limit at the higher of
/// the max fee and the base fee, plus the value (in 256-bit arithmetic).
pub proof fn law_validated_tx_is_affordable(
    f: TxFieldsView,
    chain_id: u64,
    account_nonce: u64,
    balance: nat,
    block_gas_limit: u64,
    base_fee: u64,
)
    requires
        validate_tx_spec(f, chain_id, account_nonce, balance, block_gas_limit, base_fee) is Ok,
    ensures
        f.chain_id is None || f.chain_id->0 == chain_id,
        f.nonce >= account_nonce,
        f.gas_limit <= block_gas_limit,
        f.gas_limit >= intrinsic_gas_spec(f),
        balance >= (f.gas_limit * (if f.max_fee_per_gas >= base_fee {
            f.max_fee_per_gas as nat
        } else {
            base_fee as nat
        }) + f.value) % p256(),
{
}

/// Calldata gas is 4 per zero byte and 16 per other byte.
pub proof fn law_calldata_gas(input: Seq<u8>)
    ensures
        calldata_gas(input) == 4 * input.filter(|b: u8| b == 0).len() + 16 * (input.len()
            - input.filter(|b: u8| b == 0).len()),
    decreases input.len(),
{
    reveal(Seq::filter);
    if input.len() > 0 {
        law_calldata_gas(input.drop_last());
        let z0 = input.drop_last().filter(|b: u8| b == 0).len();
        assert(z0 <= input.drop_last().len()) by {
            input.drop_last().lemma_filter_len(|b: u8| b == 0);
        }
    }
}

/// The intrinsic gas is 21000 for a call and 53000 for a contract creation,
/// plus 4 per zero calldata byte and 16 per other byte, capped at
/// `u64::MAX`.
pub proof fn law_intrinsic_gas(f: TxFieldsView)
    ensures
        ({
            let zeros = f.input.filter(|b: u8| b == 0).len();
            let base: nat = if f.to is Some {
                21_000
            } else {
                53_000
            };
            let total = base + 4 * zeros + 16 * (f.input.len() - zeros);
            intrinsic_gas_spec(f) == if total <= u64::MAX {
                total
            } else {
                u64::MAX as int
            }
        }),
{
    law_calldata_gas(f.input);
}

/// Validation checks, in order, the chain id, the nonce, the gas limit
/// against the block's, and the gas limit against the intrinsic gas; the
/// first that fails gives the error, with the values it compared.
pub proof fn law_validate_check_order(
    f: TxFieldsView,
    chain_id: u64,
    account_nonce: u64,
    balance: nat,
    block_gas_limit: u64,
    base_fee: u64,
)
    ensures
        ({
            let r = validate_tx_spec(f, chain_id, account_nonce, balance, block_gas_limit, base_fee);
            let chain_ok = f.chain_id is None || f.chain_id->0 == chain_id;
            &&& (!chain_ok ==> r == Err::<(), TxErrorView>(
                TxErrorView::ChainIdMismatch { expected: chain_id, got: f.chain_id },
            ))
            &&& (chain_ok && f.nonce < account_nonce ==> r == Err::<(), TxErrorView>(
                TxErrorView::NonceTooLow { expected: account_nonce, got: f.nonce },
            ))
            &&& (chain_ok && f.nonce >= account_nonce && f.gas_limit > block_gas_limit ==> r
                == Err::<(), TxErrorView>(
                TxErrorView::GasLimitExceedsBlock {
                    tx_gas: f.gas_limit,
                    block_limit: block_gas_limit,
                },
            ))
            &&& (chain_ok && f.nonce >= account_nonce && f.gas_limit <= block_gas_limit
                && f.gas_limit < intrinsic_gas_spec(f) ==> r == Err::<(), TxErrorView>(
                TxErrorView::IntrinsicGasTooLow {
                    required: intrinsic_gas_spec(f) as u64,
                    got: f.gas_limit,
                },
            ))
        }),
{
}

} // verus!
