use alloy_consensus::{SignableTransaction, TxEip1559, TxEnvelope};
use alloy_eips::Encodable2718;
use alloy_primitives::{Bytes, Signature, TxKind};
use nbnet::config::EvmChainConfig;
use nbnet::execution::{
    call_reply, decode_block, CallEnd, coinbase_from_proposer, effective_gas_price, find_receipt, parent_block_number, parse_query,
    BlockExecution, StateQuery, TxDecision, TxOutcome, MAX_PAYLOAD_BYTES,
};
use nbnet::primitives::{Address, B256};
use nbnet::receipt::EvmLog;
use nbnet::tx::{decode_and_recover, VerifiedTx};
use nbnet::uint::U256;

fn signed_tx(nonce: u64, gas_limit: u64, to: Option<[u8; 20]>) -> (VerifiedTx, alloy_primitives::Address) {
    let key = k256::ecdsa::SigningKey::random(&mut rand::thread_rng());
    let sender = alloy_primitives::Address::from_private_key(&key);
    let tx = TxEip1559 {
        chain_id: 1337,
        nonce,
        max_fee_per_gas: 3_000_000_000,
        max_priority_fee_per_gas: 1_500_000_000,
        gas_limit,
        to: match to {
            Some(a) => TxKind::Call(alloy_primitives::Address::from(a)),
            None => TxKind::Create,
        },
        value: alloy_primitives::U256::from(0u64),
        input: Bytes::new(),
        access_list: Default::default(),
    };
    let sig_hash = tx.signature_hash();
    let (sig, recid) = key.sign_prehash_recoverable(sig_hash.as_slice()).expect("sign");
    let signature = Signature::from_signature_and_parity(sig, recid.is_y_odd());
    let envelope = TxEnvelope::Eip1559(tx.into_signed(signature));
    let mut buf = Vec::new();
    envelope.encode_2718(&mut buf);
    (decode_and_recover(&buf).expect("decode"), sender)
}

#[test]
fn coinbase_holds_proposer_id() {
    let c = coinbase_from_proposer(0x0102030405060708);
    let mut expected = [0u8; 20];
    expected[12..].copy_from_slice(&0x0102030405060708u64.to_be_bytes());
    assert_eq!(c.bytes, expected);
    assert_eq!(coinbase_from_proposer(0), Address::zero());
}

#[test]
fn parent_number() {
    assert_eq!(parent_block_number(0), None);
    assert_eq!(parent_block_number(1), Some(0));
    assert_eq!(parent_block_number(u64::MAX), Some(u64::MAX - 1));
}

#[test]
fn gas_price_is_base_plus_capped_tip() {
    // Tip capped by the priority fee.
    assert_eq!(effective_gas_price(1_000_000_000, 3_000_000_000, Some(500_000_000)), U256::from_u64(1_500_000_000));
    // Tip capped by what the max fee leaves.
    assert_eq!(effective_gas_price(1_000_000_000, 1_200_000_000, Some(500_000_000)), U256::from_u64(1_200_000_000));
    // Legacy: no priority fee, no tip.
    assert_eq!(effective_gas_price(1_000_000_000, 5_000_000_000, None), U256::from_u64(1_000_000_000));
    // Max fee below the base fee: the base fee.
    assert_eq!(effective_gas_price(1_000_000_000, 10, Some(10)), U256::from_u64(1_000_000_000));
}

#[test]
fn block_decisions_and_receipts() {
    let config = EvmChainConfig { block_gas_limit: 50_000, base_fee_per_gas: 1_000_000_000, ..EvmChainConfig::default() };
    let mut block = BlockExecution::new(7, &config);
    let (tx0, sender0) = signed_tx(0, 21_000, Some([0xBB; 20]));
    assert_eq!(block.decide(&tx0, 1), TxDecision::Skip);
    assert_eq!(block.decide(&tx0, 0), TxDecision::Execute);
    let log = EvmLog { address: Address::repeat_byte(0xBB), topics: vec![B256::repeat_byte(1)], data: vec![9] };
    block.record(&tx0, 0, TxOutcome { gas_used: 21_000, success: true, logs: vec![log] });
    assert_eq!(block.cumulative_gas_used, 21_000);

    let (tx1, sender1) = signed_tx(0, 21_000, None);
    assert_eq!(block.decide(&tx1, 0), TxDecision::Execute);
    block.record(&tx1, 1, TxOutcome { gas_used: 25_000, success: false, logs: vec![] });
    assert_eq!(block.cumulative_gas_used, 46_000);

    // 46000 + 21000 > 50000: the block stops.
    let (tx2, _) = signed_tx(0, 21_000, Some([0xCC; 20]));
    assert_eq!(block.decide(&tx2, 0), TxDecision::Stop);

    let r0 = &block.receipts[0];
    assert_eq!(r0.tx_hash, tx0.tx_hash);
    assert_eq!(r0.tx_index, 0);
    assert_eq!(r0.block_number, 7);
    assert_eq!(r0.block_hash, B256::zero());
    assert_eq!(r0.from.bytes, sender0.0 .0);
    assert_eq!(r0.to, Some(Address::repeat_byte(0xBB)));
    assert_eq!(r0.cumulative_gas_used, 21_000);
    assert_eq!(r0.gas_used, 21_000);
    assert_eq!(r0.status, 1);
    assert_eq!(r0.effective_gas_price, U256::from_u64(2_500_000_000));
    assert_eq!(r0.logs.len(), 1);
    assert_eq!(r0.logs[0].data, vec![9]);
    assert!(r0.logs_bloom.iter().all(|b| *b == 0));
    assert_eq!(r0.contract_address, None);

    let r1 = &block.receipts[1];
    assert_eq!(r1.status, 0);
    assert_eq!(r1.cumulative_gas_used, 46_000);
    assert_eq!(r1.to, None);
    let created = sender1.create(0);
    assert_eq!(r1.contract_address.map(|a| a.bytes), Some(created.0 .0));
}

#[test]
fn receipts_found_latest_block_first() {
    let config = EvmChainConfig::default();
    let (tx, _) = signed_tx(0, 21_000, Some([1; 20]));
    let mut b0 = BlockExecution::new(1, &config);
    b0.record(&tx, 0, TxOutcome { gas_used: 1, success: true, logs: vec![] });
    let mut b1 = BlockExecution::new(2, &config);
    b1.record(&tx, 3, TxOutcome { gas_used: 2, success: true, logs: vec![] });
    b1.record(&tx, 4, TxOutcome { gas_used: 3, success: true, logs: vec![] });
    let blocks = vec![b0.receipts, b1.receipts];
    assert_eq!(find_receipt(&blocks, &tx.tx_hash), Some((1, 0)));
    assert_eq!(find_receipt(&blocks, &B256::repeat_byte(7)), None);
    assert_eq!(find_receipt(&vec![], &tx.tx_hash), None);
}

#[test]
fn queries_are_parsed_by_path_and_length() {
    let a = [0x11u8; 20];
    match parse_query("eth_getBalance", &a) {
        StateQuery::Balance { address } => assert_eq!(address.bytes, a),
        q => panic!("unexpected {:?}", q),
    }
    match parse_query("eth_getTransactionCount", &a) {
        StateQuery::TransactionCount { address } => assert_eq!(address.bytes, a),
        q => panic!("unexpected {:?}", q),
    }
    match parse_query("eth_getCode", &a) {
        StateQuery::Code { address } => assert_eq!(address.bytes, a),
        q => panic!("unexpected {:?}", q),
    }
    let mut data = a.to_vec();
    let mut slot = [0u8; 32];
    slot[31] = 5;
    data.extend_from_slice(&slot);
    match parse_query("eth_getStorageAt", &data) {
        StateQuery::StorageAt { address, slot } => {
            assert_eq!(address.bytes, a);
            assert_eq!(slot, U256::from_u64(5));
        }
        q => panic!("unexpected {:?}", q),
    }
    assert!(matches!(parse_query("eth_blockNumber", &[]), StateQuery::BlockNumber));
    assert!(matches!(parse_query("eth_getBalance", &[1, 2]), StateQuery::Unsupported));
    assert!(matches!(parse_query("eth_getStorageAt", &a), StateQuery::Unsupported));
    assert!(matches!(parse_query("eth_chainId", &a), StateQuery::Unsupported));
}

#[test]
fn payload_limit_is_four_megabytes() {
    assert_eq!(MAX_PAYLOAD_BYTES, 4_194_304);
}

#[test]
fn call_reply_per_outcome() {
    assert_eq!(call_reply(CallEnd::Returned(vec![1, 2])), Ok(vec![1, 2]));
    assert_eq!(
        call_reply(CallEnd::Reverted(vec![0xde, 0xad])),
        Err("execution reverted: 0xdead".to_string())
    );
    assert_eq!(
        call_reply(CallEnd::Reverted(vec![])),
        Err("execution reverted: 0x".to_string())
    );
    assert_eq!(
        call_reply(CallEnd::Halted("OutOfGas(Basic)".to_string())),
        Err("execution halted: OutOfGas(Basic)".to_string())
    );
    assert_eq!(
        call_reply(CallEnd::Failed("Header(GasLimit)".to_string())),
        Err("EVM error: Header(GasLimit)".to_string())
    );
}

#[test]
fn decoded_transactions_keep_their_block_position() {
    let (a, _) = signed_tx(0, 21_000, Some([1; 20]));
    let (b, _) = signed_tx(0, 21_000, Some([2; 20]));
    let txs = vec![vec![0xff, 0x00], a.raw.clone(), vec![], b.raw.clone()];
    let decoded = decode_block(&txs);
    assert_eq!(decoded.len(), 2);
    assert_eq!(decoded[0].0, 1);
    assert_eq!(decoded[0].1.tx_hash, a.tx_hash);
    assert_eq!(decoded[1].0, 3);
    assert_eq!(decoded[1].1.tx_hash, b.tx_hash);
}
