//! The Balances (0x…0800) and Staking (0x…0801) precompiles.
//!
//! A call is handled in steps: the call data is decoded and gas is charged
//! (`decode_balances_call`, `decode_staking_call`); the caller then performs
//! the journal work that the decoded call asks for (a balance lookup or a
//! transfer) and hands its outcome to the reply functions below, which
//! produce the precompile's result.
use vstd::prelude::*;
use crate::primitives::{Address, be_value, copy_range, bytes_to_vec};
use crate::uint::{U256, u256_be_bytes};
use crate::staking::{
    StakingState, DelegationView, stake_of, total_of, upsert, cap256, keys_unique, law_upsert_stake,
    law_upsert_twice,
};

verus! {

/// `balanceOf(address)`.
pub const SEL_BALANCE_OF: u32 = 0x70a08231;

/// `transfer(address,uint256)`.
pub const SEL_TRANSFER: u32 = 0xa9059cbb;

/// `delegate(address,uint256)`.
pub const SEL_DELEGATE: u32 = 0x026e402b;

/// `unbond(address,uint256)`.
pub const SEL_UNBOND: u32 = 0xa5d059ca;

/// `getStake(address,address)`.
pub const SEL_GET_STAKE: u32 = 0x82dda22d;

/// `totalStake(address)`.
pub const SEL_TOTAL_STAKE: u32 = 0xb273fc9a;

/// Gas cost for simple precompile queries.
pub const PRECOMPILE_BASE_GAS: u64 = 150;

/// Gas cost for state-modifying precompile operations.
pub const PRECOMPILE_WRITE_GAS: u64 = 500;

/// The address whose bytes are zero but for `0x08` at index 18 and `last`
/// at index 19.
pub open spec fn precompile_address(last: u8) -> Seq<u8> {
    Seq::new(20, |i: int| if i == 18 { 8u8 } else if i == 19 { last } else { 0u8 })
}

fn precompile_addr(last: u8) -> (r: Address)
    ensures
        r@ == precompile_address(last),
{
    let mut bytes = [0u8; 20];
    bytes[18] = 8;
    bytes[19] = last;
    let r = Address::from_bytes(bytes);
    assert(r@ =~= precompile_address(last));
    r
}

/// Address of the Balances precompile.
pub fn balances_addr() -> (r: Address)
    ensures
        r@ == precompile_address(0),
{
    precompile_addr(0)
}

/// Address of the Staking precompile.
pub fn staking_addr() -> (r: Address)
    ensures
        r@ == precompile_address(1),
{
    precompile_addr(1)
}

/// Which handler a call to `target` goes to.
#[derive(Debug, Clone, Copy, PartialEq, Eq, Structural)]
pub enum PrecompileRoute {
    Balances,
    Staking,
    Standard,
}

/// Routes a call: the two custom addresses to their handlers, every other
/// address to the standard Ethereum precompiles.
pub fn route(target: &Address) -> (r: PrecompileRoute)
    ensures
        r == (if target@ == precompile_address(0) {
            PrecompileRoute::Balances
        } else if target@ == precompile_address(1) {
            PrecompileRoute::Staking
        } else {
            PrecompileRoute::Standard
        }),
{
    if target.equals(&balances_addr()) {
        PrecompileRoute::Balances
    } else if target.equals(&staking_addr()) {
        PrecompileRoute::Staking
    } else {
        PrecompileRoute::Standard
    }
}

/// Whether `address` is one of the two custom precompiles.
pub fn is_custom_precompile(address: &Address) -> (r: bool)
    ensures
        r == (address@ == precompile_address(0) || address@ == precompile_address(1)),
{
    address.equals(&balances_addr()) || address.equals(&staking_addr())
}

// ---------------------------------------------------------------------------
// Results
// ---------------------------------------------------------------------------

/// How a precompile call ended.
#[derive(Debug, Clone, Copy, PartialEq, Eq, Structural)]
pub enum PrecompileStatus {
    Return,
    Revert,
    PrecompileError,
    PrecompileOOG,
}

/// The result of a precompile call: its status, the gas it was given and
/// spent, and its output bytes.
#[derive(Debug, Clone)]
pub struct PrecompileOutcome {
    pub status: PrecompileStatus,
    pub gas_limit: u64,
    pub gas_used: u64,
    pub output: Vec<u8>,
}

pub struct PrecompileOutcomeView {
    pub status: PrecompileStatus,
    pub gas_limit: u64,
    pub gas_used: u64,
    pub output: Seq<u8>,
}

impl View for PrecompileOutcome {
    type V = PrecompileOutcomeView;

    open spec fn view(&self) -> PrecompileOutcomeView {
        PrecompileOutcomeView {
            status: self.status,
            gas_limit: self.gas_limit,
            gas_used: self.gas_used,
            output: self.output@,
        }
    }
}

/// An outcome that spent no gas and has no output.
pub open spec fn failed(status: PrecompileStatus, gas_limit: u64) -> PrecompileOutcomeView {
    PrecompileOutcomeView { status, gas_limit, gas_used: 0, output: Seq::empty() }
}

/// An outcome that spent `gas_used` and outputs `output`.
pub open spec fn ended(
    status: PrecompileStatus,
    gas_limit: u64,
    gas_used: u64,
    output: Seq<u8>,
) -> PrecompileOutcomeView {
    PrecompileOutcomeView { status, gas_limit, gas_used, output }
}

/// The ABI word `1` (true).
pub open spec fn true_word() -> Seq<u8> {
    u256_be_bytes(1, 0, 0, 0)
}

/// The ABI word `0` (false).
pub open spec fn false_word() -> Seq<u8> {
    u256_be_bytes(0, 0, 0, 0)
}

fn failed_outcome(status: PrecompileStatus, gas_limit: u64) -> (r: PrecompileOutcome)
    ensures
        r@ == failed(status, gas_limit),
{
    PrecompileOutcome { status, gas_limit, gas_used: 0, output: Vec::new() }
}

fn word_outcome(status: PrecompileStatus, gas_limit: u64, gas_used: u64, value: U256) -> (r:
    PrecompileOutcome)
    ensures
        r@ == ended(status, gas_limit, gas_used, value.to_be_bytes_spec()),
{
    let bytes = value.to_be_bytes();
    PrecompileOutcome { status, gas_limit, gas_used, output: bytes_to_vec(bytes.as_slice()) }
}

// ---------------------------------------------------------------------------
// Call decoding
// ---------------------------------------------------------------------------

/// The first four bytes of the call data, read big-endian.
pub open spec fn selector_value(input: Seq<u8>) -> nat {
    be_value(input.subrange(0, 4))
}

/// The address held in the first ABI argument word.
pub open spec fn arg_address(input: Seq<u8>) -> Seq<u8> {
    input.subrange(16, 36)
}

/// The address held in the second ABI argument word.
pub open spec fn second_arg_address(input: Seq<u8>) -> Seq<u8> {
    input.subrange(48, 68)
}

/// The 256-bit integer held in the second ABI argument word.
pub open spec fn arg_amount(input: Seq<u8>) -> nat {
    be_value(input.subrange(36, 68))
}

fn selector_of(input: &[u8]) -> (r: u32)
    requires
        input@.len() >= 4,
    ensures
        r == selector_value(input@),
{
    let b0 = input[0] as u32;
    let b1 = input[1] as u32;
    let b2 = input[2] as u32;
    let b3 = input[3] as u32;
    proof {
        let s = input@.subrange(0, 4);
        reveal_with_fuel(be_value, 5);
        assert(s.drop_last().drop_last().drop_last().drop_last() =~= Seq::<u8>::empty());
        assert(s.drop_last().drop_last().drop_last() =~= seq![input@[0]]);
        assert(s.drop_last().drop_last() =~= seq![input@[0], input@[1]]);
        assert(s.drop_last() =~= seq![input@[0], input@[1], input@[2]]);
    }
    ((b0 * 256 + b1) * 256 + b2) * 256 + b3
}

fn address_arg(input: &[u8], start: usize) -> (r: Address)
    requires
        start <= 48,
        start + 20 <= input@.len(),
    ensures
        r@ == input@.subrange(start as int, start + 20),
{
    let v = copy_range(input, start, start + 20);
    Address::from_slice(v.as_slice())
}

fn amount_arg(input: &[u8]) -> (r: U256)
    requires
        input@.len() >= 68,
    ensures
        r@ == arg_amount(input@),
{
    let v = copy_range(input, 36, 68);
    U256::from_be_slice(v.as_slice())
}

/// What a decoded call asks for next.
pub enum Decoded<C> {
    /// The call is over: this is its result.
    Finished(PrecompileOutcome),
    /// The call goes on with `call`, having spent `gas_used`.
    Proceed { call: C, gas_used: u64 },
}

pub enum DecodedView<C> {
    Finished(PrecompileOutcomeView),
    Proceed { call: C, gas_used: u64 },
}

impl<C: View> View for Decoded<C> {
    type V = DecodedView<C::V>;

    open spec fn view(&self) -> DecodedView<C::V> {
        match self {
            Decoded::Finished(o) => DecodedView::Finished(o@),
            Decoded::Proceed { call, gas_used } => DecodedView::Proceed {
                call: call@,
                gas_used: *gas_used,
            },
        }
    }
}

/// A call to the Balances precompile.
#[derive(Debug, Clone, Copy)]
pub enum BalancesCall {
    BalanceOf { account: Address },
    Transfer { to: Address, amount: U256 },
}

pub enum BalancesCallView {
    BalanceOf { account: Seq<u8> },
    Transfer { to: Seq<u8>, amount: nat },
}

impl View for BalancesCall {
    type V = BalancesCallView;

    open spec fn view(&self) -> BalancesCallView {
        match self {
            BalancesCall::BalanceOf { account } => BalancesCallView::BalanceOf { account: account@ },
            BalancesCall::Transfer { to, amount } => BalancesCallView::Transfer {
                to: to@,
                amount: amount@,
            },
        }
    }
}

/// What the Balances precompile makes of `input` under `gas_limit`: a call
/// shorter than its selector, with an unknown selector or shorter than its
/// arguments is a precompile error; one whose cost exceeds the gas limit
/// runs out of gas; otherwise the cost is charged and the call proceeds.
pub open spec fn balances_decision(input: Seq<u8>, gas_limit: u64) -> DecodedView<
    BalancesCallView,
> {
    if input.len() < 4 {
        DecodedView::Finished(failed(PrecompileStatus::PrecompileError, gas_limit))
    } else if selector_value(input) == SEL_BALANCE_OF {
        if input.len() < 36 {
            DecodedView::Finished(failed(PrecompileStatus::PrecompileError, gas_limit))
        } else if gas_limit < PRECOMPILE_BASE_GAS {
            DecodedView::Finished(failed(PrecompileStatus::PrecompileOOG, gas_limit))
        } else {
            DecodedView::Proceed {
                call: BalancesCallView::BalanceOf { account: arg_address(input) },
                gas_used: PRECOMPILE_BASE_GAS,
            }
        }
    } else if selector_value(input) == SEL_TRANSFER {
        if input.len() < 68 {
            DecodedView::Finished(failed(PrecompileStatus::PrecompileError, gas_limit))
        } else if gas_limit < PRECOMPILE_WRITE_GAS {
            DecodedView::Finished(failed(PrecompileStatus::PrecompileOOG, gas_limit))
        } else {
            DecodedView::Proceed {
                call: BalancesCallView::Transfer {
                    to: arg_address(input),
                    amount: arg_amount(input),
                },
                gas_used: PRECOMPILE_WRITE_GAS,
            }
        }
    } else {
        DecodedView::Finished(failed(PrecompileStatus::PrecompileError, gas_limit))
    }
}

/// Decodes a call to the Balances precompile and charges its gas.
pub fn decode_balances_call(input: &[u8], gas_limit: u64) -> (r: Decoded<BalancesCall>)
    ensures
        r@ == balances_decision(input@, gas_limit),
{
    if input.len() < 4 {
        return Decoded::Finished(failed_outcome(PrecompileStatus::PrecompileError, gas_limit));
    }
    let selector = selector_of(input);
    if selector == SEL_BALANCE_OF {
        if input.len() < 36 {
            return Decoded::Finished(failed_outcome(PrecompileStatus::PrecompileError, gas_limit));
        }
        if gas_limit < PRECOMPILE_BASE_GAS {
            return Decoded::Finished(failed_outcome(PrecompileStatus::PrecompileOOG, gas_limit));
        }
        let account = address_arg(input, 16);
        Decoded::Proceed { call: BalancesCall::BalanceOf { account }, gas_used: PRECOMPILE_BASE_GAS }
    } else if selector == SEL_TRANSFER {
        if input.len() < 68 {
            return Decoded::Finished(failed_outcome(PrecompileStatus::PrecompileError, gas_limit));
        }
        if gas_limit < PRECOMPILE_WRITE_GAS {
            return Decoded::Finished(failed_outcome(PrecompileStatus::PrecompileOOG, gas_limit));
        }
        let to = address_arg(input, 16);
        let amount = amount_arg(input);
        Decoded::Proceed { call: BalancesCall::Transfer { to, amount }, gas_used: PRECOMPILE_WRITE_GAS }
    } else {
        Decoded::Finished(failed_outcome(PrecompileStatus::PrecompileError, gas_limit))
    }
}

/// A call to the Staking precompile.
#[derive(Debug, Clone, Copy)]
pub enum StakingCall {
    Delegate { validator: Address, amount: U256 },
    Unbond { validator: Address, amount: U256 },
    GetStake { delegator: Address, validator: Address },
    TotalStake { validator: Address },
}

pub enum StakingCallView {
    Delegate { validator: Seq<u8>, amount: nat },
    Unbond { validator: Seq<u8>, amount: nat },
    GetStake { delegator: Seq<u8>, validator: Seq<u8> },
    TotalStake { validator: Seq<u8> },
}

impl View for StakingCall {
    type V = StakingCallView;

    open spec fn view(&self) -> StakingCallView {
        match self {
            StakingCall::Delegate { validator, amount } => StakingCallView::Delegate {
                validator: validator@,
                amount: amount@,
            },
            StakingCall::Unbond { validator, amount } => StakingCallView::Unbond {
                validator: validator@,
                amount: amount@,
            },
            StakingCall::GetStake { delegator, validator } => StakingCallView::GetStake {
                delegator: delegator@,
                validator: validator@,
            },
            StakingCall::TotalStake { validator } => StakingCallView::TotalStake {
                validator: validator@,
            },
        }
    }
}

/// The decision for a selector that needs `min_len` bytes and costs `cost`.
pub open spec fn charged(
    input: Seq<u8>,
    gas_limit: u64,
    min_len: nat,
    cost: u64,
    call: StakingCallView,
) -> DecodedView<StakingCallView> {
    if input.len() < min_len {
        DecodedView::Finished(failed(PrecompileStatus::PrecompileError, gas_limit))
    } else if gas_limit < cost {
        DecodedView::Finished(failed(PrecompileStatus::PrecompileOOG, gas_limit))
    } else {
        DecodedView::Proceed { call, gas_used: cost }
    }
}

/// What the Staking precompile makes of `input` under `gas_limit`, with the
/// same rules as the Balances precompile: `delegate` and `unbond` need 68
/// bytes and cost the write gas, `getStake` needs 68 bytes and `totalStake`
/// 36, both at the base gas.
pub open spec fn staking_decision(input: Seq<u8>, gas_limit: u64) -> DecodedView<
    StakingCallView,
> {
    if input.len() < 4 {
        DecodedView::Finished(failed(PrecompileStatus::PrecompileError, gas_limit))
    } else {
        let sel = selector_value(input);
        if sel == SEL_DELEGATE {
            charged(
                input,
                gas_limit,
                68,
                PRECOMPILE_WRITE_GAS,
                StakingCallView::Delegate {
                    validator: arg_address(input),
                    amount: arg_amount(input),
                },
            )
        } else if sel == SEL_UNBOND {
            charged(
                input,
                gas_limit,
                68,
                PRECOMPILE_WRITE_GAS,
                StakingCallView::Unbond { validator: arg_address(input), amount: arg_amount(input) },
            )
        } else if sel == SEL_GET_STAKE {
            charged(
                input,
                gas_limit,
                68,
                PRECOMPILE_BASE_GAS,
                StakingCallView::GetStake {
                    delegator: arg_address(input),
                    validator: second_arg_address(input),
                },
            )
        } else if sel == SEL_TOTAL_STAKE {
            charged(
                input,
                gas_limit,
                36,
                PRECOMPILE_BASE_GAS,
                StakingCallView::TotalStake { validator: arg_address(input) },
            )
        } else {
            DecodedView::Finished(failed(PrecompileStatus::PrecompileError, gas_limit))
        }
    }
}

/// Decodes a call to the Staking precompile and charges its gas.
pub fn decode_staking_call(input: &[u8], gas_limit: u64) -> (r: Decoded<StakingCall>)
    ensures
        r@ == staking_decision(input@, gas_limit),
{
    if input.len() < 4 {
        return Decoded::Finished(failed_outcome(PrecompileStatus::PrecompileError, gas_limit));
    }
    let selector = selector_of(input);
    let (min_len, cost): (usize, u64) = if selector == SEL_DELEGATE || selector == SEL_UNBOND {
        (68, PRECOMPILE_WRITE_GAS)
    } else if selector == SEL_GET_STAKE {
        (68, PRECOMPILE_BASE_GAS)
    } else if selector == SEL_TOTAL_STAKE {
        (36, PRECOMPILE_BASE_GAS)
    } else {
        return Decoded::Finished(failed_outcome(PrecompileStatus::PrecompileError, gas_limit));
    };
    if input.len() < min_len {
        return Decoded::Finished(failed_outcome(PrecompileStatus::PrecompileError, gas_limit));
    }
    if gas_limit < cost {
        return Decoded::Finished(failed_outcome(PrecompileStatus::PrecompileOOG, gas_limit));
    }
    let first = address_arg(input, 16);
    let call = if selector == SEL_DELEGATE {
        StakingCall::Delegate { validator: first, amount: amount_arg(input) }
    } else if selector == SEL_UNBOND {
        StakingCall::Unbond { validator: first, amount: amount_arg(input) }
    } else if selector == SEL_GET_STAKE {
        StakingCall::GetStake { delegator: first, validator: address_arg(input, 48) }
    } else {
        StakingCall::TotalStake { validator: first }
    };
    Decoded::Proceed { call, gas_used: cost }
}

// ---------------------------------------------------------------------------
// Replies
// ---------------------------------------------------------------------------

/// The reply to `balanceOf`: the account's balance as one word, or zero
/// when the balance could not be loaded (`None`).
pub fn balance_of_reply(gas_limit: u64, gas_used: u64, balance: Option<U256>) -> (r:
    PrecompileOutcome)
    ensures
        r@ == ended(
            PrecompileStatus::Return,
            gas_limit,
            gas_used,
            match balance {
                Some(b) => b.to_be_bytes_spec(),
                None => false_word(),
            },
        ),
{
    let value = match balance {
        Some(b) => b,
        None => U256::zero(),
    };
    word_outcome(PrecompileStatus::Return, gas_limit, gas_used, value)
}

/// The reply to a call whose last step was a transfer: `true` when it went
/// through, a revert with `false` when it did not.
pub fn transfer_reply(gas_limit: u64, gas_used: u64, transferred: bool) -> (r: PrecompileOutcome)
    ensures
        r@ == (if transferred {
            ended(PrecompileStatus::Return, gas_limit, gas_used, true_word())
        } else {
            ended(PrecompileStatus::Revert, gas_limit, gas_used, false_word())
        }),
{
    if transferred {
        word_outcome(PrecompileStatus::Return, gas_limit, gas_used, U256::from_u64(1))
    } else {
        word_outcome(PrecompileStatus::Revert, gas_limit, gas_used, U256::zero())
    }
}

/// Finishes `delegate` once the delegator's tokens have been moved to the
/// staking address (`transferred`): the delegation is recorded and the
/// call returns `true`. When the transfer failed the state is unchanged and
/// the call reverts with `false`.
pub fn finish_delegate(
    staking: &mut StakingState,
    delegator: Address,
    validator: Address,
    amount: U256,
    transferred: bool,
    gas_limit: u64,
    gas_used: u64,
) -> (r: PrecompileOutcome)
    requires
        old(staking).wf(),
    ensures
        final(staking).wf(),
        transferred ==> final(staking).records() == upsert(
            old(staking).records(),
            delegator@,
            validator@,
            cap256(stake_of(old(staking).records(), delegator@, validator@) + amount@),
        ),
        !transferred ==> final(staking).records() == old(staking).records(),
        r@ == (if transferred {
            ended(PrecompileStatus::Return, gas_limit, gas_used, true_word())
        } else {
            ended(PrecompileStatus::Revert, gas_limit, gas_used, false_word())
        }),
{
    if transferred {
        staking.delegate(delegator, validator, amount);
    }
    transfer_reply(gas_limit, gas_used, transferred)
}

/// Starts `unbond`: the delegation is reduced first. When it is smaller
/// than `amount` the call reverts with `false` (`Some`); otherwise it goes
/// on (`None`) with the transfer of `amount` from the staking address back
/// to the delegator, whose outcome `finish_unbond` turns into the result.
pub fn begin_unbond(
    staking: &mut StakingState,
    delegator: Address,
    validator: Address,
    amount: U256,
    gas_limit: u64,
    gas_used: u64,
) -> (r: Option<PrecompileOutcome>)
    requires
        old(staking).wf(),
    ensures
        final(staking).wf(),
        ({
            let cur = stake_of(old(staking).records(), delegator@, validator@);
            if cur < amount@ {
                &&& r matches Some(o) && o@ == ended(
                    PrecompileStatus::Revert,
                    gas_limit,
                    gas_used,
                    false_word(),
                )
                &&& final(staking).records() == upsert(
                    old(staking).records(),
                    delegator@,
                    validator@,
                    cur,
                )
            } else {
                &&& r is None
                &&& final(staking).records() == upsert(
                    old(staking).records(),
                    delegator@,
                    validator@,
                    (cur - amount@) as nat,
                )
            }
        }),
{
    match staking.unbond(delegator, validator, amount) {
        Ok(()) => None,
        Err(_) => Some(transfer_reply(gas_limit, gas_used, false)),
    }
}

/// Finishes `unbond` once the transfer of `amount` from the staking address
/// back to the delegator was tried (`transferred`): the call returns `true`
/// when it went through. When it failed, the call reverts with `false` and
/// the `amount` taken off the delegation by `begin_unbond` is put back, so
/// that a reverted call leaves the stake as it was.
pub fn finish_unbond(
    staking: &mut StakingState,
    delegator: Address,
    validator: Address,
    amount: U256,
    transferred: bool,
    gas_limit: u64,
    gas_used: u64,
) -> (r: PrecompileOutcome)
    requires
        old(staking).wf(),
    ensures
        final(staking).wf(),
        transferred ==> final(staking).records() == old(staking).records(),
        !transferred ==> final(staking).records() == upsert(
            old(staking).records(),
            delegator@,
            validator@,
            cap256(stake_of(old(staking).records(), delegator@, validator@) + amount@),
        ),
        r@ == (if transferred {
            ended(PrecompileStatus::Return, gas_limit, gas_used, true_word())
        } else {
            ended(PrecompileStatus::Revert, gas_limit, gas_used, false_word())
        }),
{
    if !transferred {
        staking.delegate(delegator, validator, amount);
    }
    transfer_reply(gas_limit, gas_used, transferred)
}

/// An unbond whose transfer fails leaves the stake as it was: what
/// `begin_unbond` takes off, `finish_unbond` puts back, and the records
/// differ from the ones before the call only in holding the key.
pub proof fn law_failed_unbond_restores_stake(
    s: Seq<DelegationView>,
    d: Seq<u8>,
    v: Seq<u8>,
    amount: nat,
)
    requires
        keys_unique(s),
        amount <= stake_of(s, d, v) <= crate::uint::u256_max(),
    ensures
        ({
            let s1 = upsert(s, d, v, (stake_of(s, d, v) - amount) as nat);
            let s2 = upsert(s1, d, v, cap256(stake_of(s1, d, v) + amount));
            &&& s2 == upsert(s, d, v, stake_of(s, d, v))
            &&& stake_of(s2, d, v) == stake_of(s, d, v)
            &&& forall|d2: Seq<u8>, v2: Seq<u8>| stake_of(s2, d2, v2) == stake_of(s, d2, v2)
        }),
{
    let cur = stake_of(s, d, v);
    let s1 = upsert(s, d, v, (cur - amount) as nat);
    law_upsert_stake(s, d, v, (cur - amount) as nat, d, v);
    assert(cap256(stake_of(s1, d, v) + amount) == cur);
    law_upsert_twice(s, d, v, (cur - amount) as nat, cur);
    let s2 = upsert(s, d, v, cur);
    assert forall|d2: Seq<u8>, v2: Seq<u8>| stake_of(s2, d2, v2) == stake_of(s, d2, v2) by {
        law_upsert_stake(s, d, v, cur, d2, v2);
    }
}

/// The reply to `getStake(delegator, validator)`.
pub fn get_stake_reply(
    staking: &StakingState,
    delegator: &Address,
    validator: &Address,
    gas_limit: u64,
    gas_used: u64,
) -> (r: PrecompileOutcome)
    ensures
        r.status == PrecompileStatus::Return,
        r.gas_limit == gas_limit,
        r.gas_used == gas_used,
        r@.output.len() == 32,
        be_value(r@.output) == stake_of(staking.records(), delegator@, validator@),
{
    let stake = staking.get_stake(delegator, validator);
    proof {
        crate::uint::lemma_be_bytes_of_value(stake);
    }
    word_outcome(PrecompileStatus::Return, gas_limit, gas_used, stake)
}

/// The reply to `totalStake(validator)`.
pub fn total_stake_reply(
    staking: &StakingState,
    validator: &Address,
    gas_limit: u64,
    gas_used: u64,
) -> (r: PrecompileOutcome)
    ensures
        r.status == PrecompileStatus::Return,
        r.gas_limit == gas_limit,
        r.gas_used == gas_used,
        r@.output.len() == 32,
        be_value(r@.output) == cap256(total_of(staking.records(), validator@)),
{
    let total = staking.total_stake(validator);
    proof {
        crate::uint::lemma_be_bytes_of_value(total);
    }
    word_outcome(PrecompileStatus::Return, gas_limit, gas_used, total)
}

/// Decoding never charges more gas than the call was given, and a call
/// that ends at decoding charges nothing and outputs nothing.
pub proof fn law_decoding_gas_within_limit(input: Seq<u8>, gas_limit: u64)
    ensures
        match balances_decision(input, gas_limit) {
            DecodedView::Proceed { gas_used, .. } => gas_used <= gas_limit,
            DecodedView::Finished(o) => o.gas_used == 0 && o.gas_limit == gas_limit
                && o.output.len() == 0,
        },
        match staking_decision(input, gas_limit) {
            DecodedView::Proceed { gas_used, .. } => gas_used <= gas_limit,
            DecodedView::Finished(o) => o.gas_used == 0 && o.gas_limit == gas_limit
                && o.output.len() == 0,
        },
{
}

} // verus!
