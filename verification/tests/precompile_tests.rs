use nbnet::precompile::{
    balance_of_reply, balances_addr, begin_unbond, decode_balances_call, decode_staking_call,
    finish_delegate, finish_unbond, get_stake_reply, is_custom_precompile, route, staking_addr,
    total_stake_reply, transfer_reply, BalancesCall, Decoded, PrecompileRoute, PrecompileStatus,
    StakingCall, PRECOMPILE_BASE_GAS, PRECOMPILE_WRITE_GAS, SEL_BALANCE_OF, SEL_DELEGATE,
    SEL_GET_STAKE, SEL_TOTAL_STAKE, SEL_TRANSFER, SEL_UNBOND,
};
use alloy_primitives::keccak256;
use nbnet::primitives::Address;
use nbnet::staking::StakingState;
use nbnet::uint::U256;

#[test]
fn test_staking_state() {
    let mut state = StakingState::new();
    let delegator = Address::repeat_byte(0xAA);
    let validator = Address::repeat_byte(0x11);
    let amount = U256::from_u64(1000);

    state.delegate(delegator, validator, amount);
    assert_eq!(state.get_stake(&delegator, &validator), amount);
    assert_eq!(state.total_stake(&validator), amount);

    state.delegate(delegator, validator, amount);
    assert_eq!(state.get_stake(&delegator, &validator), U256::from_u64(2000));

    assert!(state.unbond(delegator, validator, U256::from_u64(500)).is_ok());
    assert_eq!(state.get_stake(&delegator, &validator), U256::from_u64(1500));

    assert!(state
        .unbond(delegator, validator, U256::from_u64(2000))
        .is_err());

    let delegator2 = Address::repeat_byte(0xBB);
    state.delegate(delegator2, validator, U256::from_u64(300));
    assert_eq!(state.total_stake(&validator), U256::from_u64(1800));
}

#[test]
fn test_precompile_addresses() {
    assert_eq!(
        balances_addr(),
        Address::from_slice(&{
            let mut a = [0u8; 20];
            a[18] = 0x08;
            a
        })
    );
    assert_eq!(
        staking_addr(),
        Address::from_slice(&{
            let mut a = [0u8; 20];
            a[18] = 0x08;
            a[19] = 0x01;
            a
        })
    );
}

#[test]
fn test_function_selectors() {
    assert_eq!(&keccak256(b"balanceOf(address)")[..4], &SEL_BALANCE_OF.to_be_bytes());
    assert_eq!(&keccak256(b"transfer(address,uint256)")[..4], &SEL_TRANSFER.to_be_bytes());
    assert_eq!(&keccak256(b"delegate(address,uint256)")[..4], &SEL_DELEGATE.to_be_bytes());
    assert_eq!(&keccak256(b"unbond(address,uint256)")[..4], &SEL_UNBOND.to_be_bytes());
    assert_eq!(
        &keccak256(b"getStake(address,address)")[..4],
        &SEL_GET_STAKE.to_be_bytes()
    );
    assert_eq!(&keccak256(b"totalStake(address)")[..4], &SEL_TOTAL_STAKE.to_be_bytes());
}

// ----- further cases -----

fn word(x: u64) -> Vec<u8> {
    let mut w = vec![0u8; 32];
    w[24..].copy_from_slice(&x.to_be_bytes());
    w
}

fn call(sel: u32, args: &[Vec<u8>]) -> Vec<u8> {
    let mut v = sel.to_be_bytes().to_vec();
    for a in args {
        v.extend_from_slice(a);
    }
    v
}

fn addr_word(a: &Address) -> Vec<u8> {
    let mut w = vec![0u8; 12];
    w.extend_from_slice(&a.bytes);
    w
}

#[test]
fn routing_and_membership() {
    assert_eq!(route(&balances_addr()), PrecompileRoute::Balances);
    assert_eq!(route(&staking_addr()), PrecompileRoute::Staking);
    let ecrecover = Address::from_slice(&{
        let mut a = [0u8; 20];
        a[19] = 1;
        a
    });
    assert_eq!(route(&ecrecover), PrecompileRoute::Standard);
    assert!(is_custom_precompile(&balances_addr()));
    assert!(is_custom_precompile(&staking_addr()));
    assert!(!is_custom_precompile(&ecrecover));
}

#[test]
fn balances_decoding() {
    let who = Address::repeat_byte(0x42);
    let input = call(SEL_BALANCE_OF, &[addr_word(&who)]);
    match decode_balances_call(&input, 1_000) {
        Decoded::Proceed { call: BalancesCall::BalanceOf { account }, gas_used } => {
            assert_eq!(account, who);
            assert_eq!(gas_used, PRECOMPILE_BASE_GAS);
        }
        _ => panic!("balanceOf should proceed"),
    }
    // Too little gas.
    match decode_balances_call(&input, 149) {
        Decoded::Finished(o) => {
            assert_eq!(o.status, PrecompileStatus::PrecompileOOG);
            assert_eq!(o.gas_used, 0);
            assert!(o.output.is_empty());
        }
        _ => panic!("should run out of gas"),
    }
    // Too short.
    match decode_balances_call(&input[..35], 1_000) {
        Decoded::Finished(o) => assert_eq!(o.status, PrecompileStatus::PrecompileError),
        _ => panic!("should fail"),
    }
    match decode_balances_call(&[0x70, 0xa0, 0x82], 1_000) {
        Decoded::Finished(o) => assert_eq!(o.status, PrecompileStatus::PrecompileError),
        _ => panic!("should fail"),
    }
    // Unknown selector.
    match decode_balances_call(&call(0xdeadbeef, &[word(1), word(2)]), 1_000) {
        Decoded::Finished(o) => assert_eq!(o.status, PrecompileStatus::PrecompileError),
        _ => panic!("should fail"),
    }
    // Transfer.
    let input = call(SEL_TRANSFER, &[addr_word(&who), word(77)]);
    match decode_balances_call(&input, 500) {
        Decoded::Proceed { call: BalancesCall::Transfer { to, amount }, gas_used } => {
            assert_eq!(to, who);
            assert_eq!(amount, U256::from_u64(77));
            assert_eq!(gas_used, PRECOMPILE_WRITE_GAS);
        }
        _ => panic!("transfer should proceed"),
    }
    match decode_balances_call(&input, 499) {
        Decoded::Finished(o) => assert_eq!(o.status, PrecompileStatus::PrecompileOOG),
        _ => panic!("should run out of gas"),
    }
}

#[test]
fn staking_decoding() {
    let v = Address::repeat_byte(0x11);
    let d = Address::repeat_byte(0xAA);
    match decode_staking_call(&call(SEL_DELEGATE, &[addr_word(&v), word(5)]), 10_000) {
        Decoded::Proceed { call: StakingCall::Delegate { validator, amount }, gas_used } => {
            assert_eq!(validator, v);
            assert_eq!(amount, U256::from_u64(5));
            assert_eq!(gas_used, 500);
        }
        _ => panic!("delegate should proceed"),
    }
    match decode_staking_call(&call(SEL_UNBOND, &[addr_word(&v), word(6)]), 10_000) {
        Decoded::Proceed { call: StakingCall::Unbond { validator, amount }, gas_used } => {
            assert_eq!(validator, v);
            assert_eq!(amount, U256::from_u64(6));
            assert_eq!(gas_used, 500);
        }
        _ => panic!("unbond should proceed"),
    }
    match decode_staking_call(&call(SEL_GET_STAKE, &[addr_word(&d), addr_word(&v)]), 150) {
        Decoded::Proceed { call: StakingCall::GetStake { delegator, validator }, gas_used } => {
            assert_eq!(delegator, d);
            assert_eq!(validator, v);
            assert_eq!(gas_used, 150);
        }
        _ => panic!("getStake should proceed"),
    }
    match decode_staking_call(&call(SEL_TOTAL_STAKE, &[addr_word(&v)]), 150) {
        Decoded::Proceed { call: StakingCall::TotalStake { validator }, gas_used } => {
            assert_eq!(validator, v);
            assert_eq!(gas_used, 150);
        }
        _ => panic!("totalStake should proceed"),
    }
    match decode_staking_call(&call(SEL_GET_STAKE, &[addr_word(&d)]), 150) {
        Decoded::Finished(o) => assert_eq!(o.status, PrecompileStatus::PrecompileError),
        _ => panic!("getStake needs two words"),
    }
    match decode_staking_call(&call(SEL_DELEGATE, &[addr_word(&v), word(5)]), 499) {
        Decoded::Finished(o) => assert_eq!(o.status, PrecompileStatus::PrecompileOOG),
        _ => panic!("should run out of gas"),
    }
    match decode_staking_call(&call(SEL_BALANCE_OF, &[addr_word(&v)]), 10_000) {
        Decoded::Finished(o) => assert_eq!(o.status, PrecompileStatus::PrecompileError),
        _ => panic!("balanceOf is not a staking call"),
    }
}

#[test]
fn replies_encode_words() {
    let o = balance_of_reply(1_000, 150, Some(U256::from_u64(0x1234)));
    assert_eq!(o.status, PrecompileStatus::Return);
    assert_eq!((o.gas_limit, o.gas_used), (1_000, 150));
    assert_eq!(o.output, word(0x1234));
    assert_eq!(balance_of_reply(1_000, 150, None).output, word(0));

    let ok = transfer_reply(1_000, 500, true);
    assert_eq!(ok.status, PrecompileStatus::Return);
    assert_eq!(ok.output, word(1));
    let bad = transfer_reply(1_000, 500, false);
    assert_eq!(bad.status, PrecompileStatus::Revert);
    assert_eq!(bad.output, word(0));
}

#[test]
fn delegate_and_unbond_steps() {
    let mut staking = StakingState::new();
    let d = Address::repeat_byte(0xAA);
    let v = Address::repeat_byte(0x11);
    // A failed lock leaves the state unchanged.
    let o = finish_delegate(&mut staking, d, v, U256::from_u64(100), false, 10_000, 500);
    assert_eq!(o.status, PrecompileStatus::Revert);
    assert_eq!(staking.get_stake(&d, &v), U256::zero());
    let o = finish_delegate(&mut staking, d, v, U256::from_u64(100), true, 10_000, 500);
    assert_eq!(o.status, PrecompileStatus::Return);
    assert_eq!(o.output, word(1));
    assert_eq!(staking.get_stake(&d, &v), U256::from_u64(100));

    let q = get_stake_reply(&staking, &d, &v, 10_000, 150);
    assert_eq!(q.output, word(100));
    let t = total_stake_reply(&staking, &v, 10_000, 150);
    assert_eq!(t.output, word(100));

    // Unbonding more than delegated reverts.
    let r = begin_unbond(&mut staking, d, v, U256::from_u64(101), 10_000, 500);
    let r = r.expect("refused");
    assert_eq!(r.status, PrecompileStatus::Revert);
    assert_eq!(r.output, word(0));
    assert_eq!(staking.get_stake(&d, &v), U256::from_u64(100));
    // Within the delegation it goes on to the transfer.
    assert!(begin_unbond(&mut staking, d, v, U256::from_u64(40), 10_000, 500).is_none());
    assert_eq!(staking.get_stake(&d, &v), U256::from_u64(60));
}

#[test]
fn stake_saturates() {
    let mut staking = StakingState::new();
    let d = Address::repeat_byte(1);
    let v = Address::repeat_byte(2);
    staking.delegate(d, v, U256::max_value());
    staking.delegate(d, v, U256::from_u64(5));
    assert_eq!(staking.get_stake(&d, &v), U256::max_value());
    staking.delegate(Address::repeat_byte(3), v, U256::from_u64(5));
    assert_eq!(staking.total_stake(&v), U256::max_value());
    assert_eq!(staking.total_stake(&d), U256::zero());
}

#[test]
fn unbond_error_message() {
    let mut staking = StakingState::new();
    let d = Address::repeat_byte(1);
    let v = Address::repeat_byte(2);
    assert_eq!(staking.unbond(d, v, U256::from_u64(1)), Err("insufficient delegation"));
    assert_eq!(staking.unbond(d, v, U256::zero()), Ok(()));
}

#[test]
fn unbond_undoes_delegate() {
    let mut staking = StakingState::new();
    let d = Address::repeat_byte(0x0A);
    let v = Address::repeat_byte(0x0B);
    staking.delegate(d, v, U256::from_u64(25));
    let before = staking.get_stake(&d, &v);
    let total_before = staking.total_stake(&v);
    staking.delegate(d, v, U256::from_u64(70));
    assert!(staking.unbond(d, v, U256::from_u64(70)).is_ok());
    assert_eq!(staking.get_stake(&d, &v), before);
    assert_eq!(staking.total_stake(&v), total_before);
}

#[test]
fn failed_unbond_transfer_restores_stake() {
    let mut staking = StakingState::new();
    let d = Address::repeat_byte(0xAA);
    let v = Address::repeat_byte(0x11);
    staking.delegate(d, v, U256::from_u64(100));
    assert!(begin_unbond(&mut staking, d, v, U256::from_u64(40), 10_000, 500).is_none());
    assert_eq!(staking.get_stake(&d, &v), U256::from_u64(60));
    let r = finish_unbond(&mut staking, d, v, U256::from_u64(40), false, 10_000, 500);
    assert_eq!(r.status, PrecompileStatus::Revert);
    assert_eq!(r.output, vec![0u8; 32]);
    assert_eq!(staking.get_stake(&d, &v), U256::from_u64(100));
    assert_eq!(staking.total_stake(&v), U256::from_u64(100));
    // A transfer that goes through keeps the reduction.
    assert!(begin_unbond(&mut staking, d, v, U256::from_u64(40), 10_000, 500).is_none());
    let r = finish_unbond(&mut staking, d, v, U256::from_u64(40), true, 10_000, 500);
    assert_eq!(r.status, PrecompileStatus::Return);
    assert_eq!(staking.get_stake(&d, &v), U256::from_u64(60));
}
