use alloy_consensus::TxEnvelope;
use alloy_consensus::{SignableTransaction, TxEip1559};
use alloy_eips::Encodable2718;
use alloy_primitives::{Bytes, Signature, TxKind, U256};
use nbnet::primitives::Address;
use nbnet::txpool::{EvmTxPool, EvmTxPoolConfig};

fn make_eip1559_tx(key: &k256::ecdsa::SigningKey, nonce: u64, tip: u128) -> Vec<u8> {
    let tx = TxEip1559 {
        chain_id: 1337,
        nonce,
        max_fee_per_gas: 30_000_000_000,
        max_priority_fee_per_gas: tip,
        gas_limit: 21_000,
        to: TxKind::Call(alloy_primitives::Address::repeat_byte(0xBB)),
        value: U256::from(1_000_000u64),
        input: Bytes::new(),
        access_list: Default::default(),
    };

    let sig_hash = tx.signature_hash();
    let (sig, recid) = key
        .sign_prehash_recoverable(sig_hash.as_slice())
        .expect("sign");
    let signature = Signature::from_signature_and_parity(sig, recid.is_y_odd());
    let signed = tx.into_signed(signature);
    let envelope = TxEnvelope::Eip1559(signed);
    let mut buf = Vec::new();
    envelope.encode_2718(&mut buf);
    buf
}

fn new_key() -> k256::ecdsa::SigningKey {
    k256::ecdsa::SigningKey::random(&mut rand::thread_rng())
}

#[test]
fn test_submit_and_count() {
    let mut pool = EvmTxPool::new(EvmTxPoolConfig::default());
    pool.set_nonce_fn(|_: &Address| 0);

    let key = new_key();
    let raw = make_eip1559_tx(&key, 0, 1_000_000_000);

    let hash = pool.submit_tx(&raw).expect("submit should succeed");
    assert!(pool.contains(&hash));
    assert_eq!(pool.pending_count(), 1);
    assert_eq!(pool.queued_count(), 0);
}

#[test]
fn test_nonce_gap_goes_to_queued() {
    let mut pool = EvmTxPool::new(EvmTxPoolConfig::default());
    pool.set_nonce_fn(|_: &Address| 0);

    let key = new_key();

    // Submit nonce 2 (gap: 0 and 1 missing).
    let raw = make_eip1559_tx(&key, 2, 1_000_000_000);
    pool.submit_tx(&raw).expect("submit");
    assert_eq!(pool.pending_count(), 0);
    assert_eq!(pool.queued_count(), 1);

    // Fill nonce 0 → goes to pending.
    let raw0 = make_eip1559_tx(&key, 0, 1_000_000_000);
    pool.submit_tx(&raw0).expect("submit");
    assert_eq!(pool.pending_count(), 1);
    assert_eq!(pool.queued_count(), 1);

    // Fill nonce 1 → promotes nonce 2 from queued to pending.
    let raw1 = make_eip1559_tx(&key, 1, 1_000_000_000);
    pool.submit_tx(&raw1).expect("submit");
    assert_eq!(pool.pending_count(), 3);
    assert_eq!(pool.queued_count(), 0);
}

#[test]
fn test_replacement_by_fee() {
    let mut pool = EvmTxPool::new(EvmTxPoolConfig::default());
    pool.set_nonce_fn(|_: &Address| 0);

    let key = new_key();

    let raw1 = make_eip1559_tx(&key, 0, 1_000_000_000);
    pool.submit_tx(&raw1).expect("submit 1");

    // Same nonce, higher tip → should replace.
    let raw2 = make_eip1559_tx(&key, 0, 2_000_000_000);
    pool.submit_tx(&raw2).expect("submit 2 (replacement)");
    assert_eq!(pool.pending_count(), 1);

    // Same nonce, lower tip → should fail.
    let raw3 = make_eip1559_tx(&key, 0, 500_000_000);
    let err = pool
        .submit_tx(&raw3)
        .expect_err("should reject underpriced");
    assert!(err.contains("replacement underpriced"));
}

#[test]
fn test_nonce_too_low_rejected() {
    let mut pool = EvmTxPool::new(EvmTxPoolConfig::default());
    pool.set_nonce_fn(|_: &Address| 5);

    let key = new_key();
    let raw = make_eip1559_tx(&key, 3, 1_000_000_000);
    let err = pool.submit_tx(&raw).expect_err("should reject low nonce");
    assert!(err.contains("nonce too low"));
}

#[test]
fn test_collect_payload() {
    let mut pool = EvmTxPool::new(EvmTxPoolConfig::default());
    pool.set_nonce_fn(|_: &Address| 0);

    let key = new_key();
    let raw = make_eip1559_tx(&key, 0, 1_000_000_000);
    pool.submit_tx(&raw).expect("submit");

    let payload = pool.collect_payload(1_000_000, 30_000_000);
    assert!(!payload.is_empty());
    assert_eq!(pool.pending_count(), 0); // collected txs are removed
}

#[test]
fn test_on_commit_removes_stale() {
    let mut pool = EvmTxPool::new(EvmTxPoolConfig::default());
    pool.set_nonce_fn(|_: &Address| 0);

    let key = new_key();
    let raw0 = make_eip1559_tx(&key, 0, 1_000_000_000);
    let raw1 = make_eip1559_tx(&key, 1, 1_000_000_000);
    pool.submit_tx(&raw0).expect("submit 0");
    pool.submit_tx(&raw1).expect("submit 1");
    assert_eq!(pool.pending_count(), 2);

    // Simulate commit: nonce is now 1 (tx 0 committed).
    pool.on_commit(&|_: &Address| 1);
    assert_eq!(pool.pending_count(), 1); // only nonce 1 remains
}

#[test]
fn test_duplicate_rejected() {
    let mut pool = EvmTxPool::new(EvmTxPoolConfig::default());
    pool.set_nonce_fn(|_: &Address| 0);

    let key = new_key();
    let raw = make_eip1559_tx(&key, 0, 1_000_000_000);
    pool.submit_tx(&raw).expect("submit 1");
    let err = pool.submit_tx(&raw).expect_err("should reject duplicate");
    assert!(err.contains("already known"));
}

// ----- further cases -----

#[test]
fn pool_error_messages_are_exact() {
    let mut pool = EvmTxPool::new(EvmTxPoolConfig::default());
    pool.set_nonce_fn(|_: &Address| 5);
    let key = new_key();
    let err = pool.submit_tx(&make_eip1559_tx(&key, 3, 1_000_000_000)).unwrap_err();
    assert_eq!(err, "nonce too low: tx nonce 3 < current 5");

    let mut pool = EvmTxPool::new(EvmTxPoolConfig::default());
    pool.set_nonce_fn(|_: &Address| 0);
    pool.submit_tx(&make_eip1559_tx(&key, 0, 1_000_000_000)).unwrap();
    let err = pool.submit_tx(&make_eip1559_tx(&key, 0, 1_050_000_000)).unwrap_err();
    // 10% bump over a 1 gwei tip.
    assert_eq!(err, "replacement underpriced: need tip >= 1100000000, got 1050000000");
    pool.submit_tx(&make_eip1559_tx(&key, 0, 1_100_000_000)).expect("exactly the bump");
    let raw = make_eip1559_tx(&key, 1, 1_000_000_000);
    pool.submit_tx(&raw).unwrap();
    assert_eq!(pool.submit_tx(&raw).unwrap_err(), "transaction already known");
}

#[test]
fn pool_rejects_garbage_with_decode_error() {
    let mut pool = EvmTxPool::new(EvmTxPoolConfig::default());
    pool.set_nonce_fn(|_: &Address| 0);
    let err = pool.submit_tx(&[0xFF, 0x01, 0x02]).unwrap_err();
    assert!(err.starts_with("RLP decode: "));
    assert_eq!(pool.pending_count(), 0);
    assert_eq!(pool.queued_count(), 0);
}

#[test]
fn pool_queue_full_is_refused() {
    let config = EvmTxPoolConfig {
        max_pending_per_sender: 2,
        max_queued_per_sender: 1,
        replacement_bump_pct: 10,
        base_fee: 1_000_000_000,
    };
    let mut pool = EvmTxPool::new(config);
    pool.set_nonce_fn(|_: &Address| 0);
    let key = new_key();
    pool.submit_tx(&make_eip1559_tx(&key, 0, 1_000_000_000)).unwrap();
    pool.submit_tx(&make_eip1559_tx(&key, 1, 1_000_000_000)).unwrap();
    assert_eq!(pool.pending_count(), 2);
    // Nonce 2 follows a pending nonce, so it is pending too: that side is full.
    let err = pool.submit_tx(&make_eip1559_tx(&key, 2, 1_000_000_000)).unwrap_err();
    assert_eq!(err, "sender queue full");
    // Nonce 5 leaves a gap and is queued; the queued side then holds its one entry.
    pool.submit_tx(&make_eip1559_tx(&key, 5, 1_000_000_000)).unwrap();
    assert_eq!(pool.queued_count(), 1);
    let err = pool.submit_tx(&make_eip1559_tx(&key, 6, 1_000_000_000)).unwrap_err();
    assert_eq!(err, "sender queue full");
    assert_eq!(pool.pending_count(), 2);
    assert_eq!(pool.queued_count(), 1);
}

#[test]
fn payload_orders_by_tip_and_respects_gas() {
    let mut pool = EvmTxPool::new(EvmTxPoolConfig::default());
    pool.set_nonce_fn(|_: &Address| 0);
    let low = new_key();
    let high = new_key();
    let raw_low = make_eip1559_tx(&low, 0, 1_000_000_000);
    let raw_high = make_eip1559_tx(&high, 0, 3_000_000_000);
    pool.submit_tx(&raw_low).unwrap();
    pool.submit_tx(&raw_high).unwrap();
    // Room for one 21000-gas transaction only: the higher tip goes first.
    let payload = pool.collect_payload(1_000_000, 30_000);
    let len = u32::from_le_bytes([payload[0], payload[1], payload[2], payload[3]]) as usize;
    assert_eq!(len, raw_high.len());
    assert_eq!(&payload[4..4 + len], raw_high.as_slice());
    assert_eq!(payload.len(), 4 + len);
    assert_eq!(pool.pending_count(), 1);
    // A payload too small for any transaction takes nothing.
    assert!(pool.collect_payload(10, 30_000_000).is_empty());
    assert_eq!(pool.pending_count(), 1);
}

#[test]
fn commit_promotes_queued_after_gap_closes() {
    let mut pool = EvmTxPool::new(EvmTxPoolConfig::default());
    pool.set_nonce_fn(|_: &Address| 0);
    let key = new_key();
    pool.submit_tx(&make_eip1559_tx(&key, 2, 1_000_000_000)).unwrap();
    assert_eq!(pool.queued_count(), 1);
    // The chain moved to nonce 2 elsewhere: the queued tx becomes pending.
    pool.on_commit(&|_: &Address| 2);
    assert_eq!(pool.pending_count(), 1);
    assert_eq!(pool.queued_count(), 0);
    pool.update_base_fee(2_000_000_000);
    assert_eq!(pool.pending_count(), 1);
}

#[test]
fn pending_limit_holds_after_promotion() {
    let mut pool = EvmTxPool::new(EvmTxPoolConfig { max_pending_per_sender: 1, ..Default::default() });
    pool.set_nonce_fn(|_: &Address| 0);
    let key = new_key();
    pool.submit_tx(&make_eip1559_tx(&key, 1, 1_000_000_000)).expect("queued");
    assert_eq!(pool.queued_count(), 1);
    pool.submit_tx(&make_eip1559_tx(&key, 0, 1_000_000_000)).expect("pending");
    assert!(pool.pending_count() <= 1);
    assert_eq!(pool.pending_count(), 1);
    assert_eq!(pool.queued_count(), 1);
}

#[test]
fn updated_base_fee_applies_to_new_submissions() {
    let mut pool = EvmTxPool::new(EvmTxPoolConfig::default());
    pool.update_base_fee(29_500_000_000);
    pool.set_nonce_fn(|_: &Address| 0);
    let key = new_key();
    pool.submit_tx(&make_eip1559_tx(&key, 0, 1_000_000_000)).expect("first");
    let e = pool.submit_tx(&make_eip1559_tx(&key, 0, 2_000_000_000)).unwrap_err();
    assert!(e.contains("replacement underpriced"));
    assert_eq!(e, "replacement underpriced: need tip >= 550000000, got 500000000");
}

#[test]
fn collected_hashes_leave_the_pool() {
    let mut pool = EvmTxPool::new(EvmTxPoolConfig::default());
    pool.set_nonce_fn(|_: &Address| 0);
    let k1 = new_key();
    let k2 = new_key();
    let h1 = pool.submit_tx(&make_eip1559_tx(&k1, 0, 2_000_000_000)).unwrap();
    let h1b = pool.submit_tx(&make_eip1559_tx(&k1, 1, 2_000_000_000)).unwrap();
    let h2 = pool.submit_tx(&make_eip1559_tx(&k2, 5, 1_000_000_000)).unwrap();
    let payload = pool.collect_payload(1_000_000, 30_000_000);
    assert!(!payload.is_empty());
    // Only the first pending tx of each sender is a candidate.
    assert!(!pool.contains(&h1));
    assert!(pool.contains(&h1b));
    assert!(pool.contains(&h2));
    assert_eq!(pool.pending_count(), 1);
    assert_eq!(pool.queued_count(), 1);
}

#[test]
fn pending_stays_consecutive_and_commit_keeps_current() {
    let mut pool = EvmTxPool::new(EvmTxPoolConfig::default());
    pool.set_nonce_fn(|_: &Address| 0);
    let key = new_key();
    let h0 = pool.submit_tx(&make_eip1559_tx(&key, 0, 1_000_000_000)).unwrap();
    let h2 = pool.submit_tx(&make_eip1559_tx(&key, 2, 1_000_000_000)).unwrap();
    assert_eq!((pool.pending_count(), pool.queued_count()), (1, 1));
    let h1 = pool.submit_tx(&make_eip1559_tx(&key, 1, 1_000_000_000)).unwrap();
    assert_eq!((pool.pending_count(), pool.queued_count()), (3, 0));
    pool.on_commit(&|_: &Address| 1);
    assert!(!pool.contains(&h0));
    assert!(pool.contains(&h1));
    assert!(pool.contains(&h2));
    assert_eq!(pool.pending_count(), 2);
}
