use alloy_consensus::{SignableTransaction, TxEip1559, TxEnvelope, TxLegacy};
use alloy_eips::Encodable2718;
use alloy_primitives::{Bytes, Signature, TxKind};
use nbnet::primitives::Address;
use nbnet::tx::{decode_and_recover, effective_gas_tip, intrinsic_gas, validate_tx, TxError};
use nbnet::uint::U256;

fn lib_address(a: alloy_primitives::Address) -> Address {
    Address::from_bytes(a.0 .0)
}

fn make_signed_legacy_tx() -> (Vec<u8>, Address) {
    let signing_key = k256::ecdsa::SigningKey::random(&mut rand::thread_rng());
    let address = alloy_primitives::Address::from_private_key(&signing_key);

    let tx = TxLegacy {
        chain_id: Some(1337),
        nonce: 0,
        gas_price: 1_000_000_000,
        gas_limit: 21_000,
        to: TxKind::Call(alloy_primitives::Address::repeat_byte(0xBB)),
        value: alloy_primitives::U256::from(1_000_000_000_000_000_000u128),
        input: Bytes::new(),
    };

    let sig_hash = tx.signature_hash();
    let (sig, recid) = signing_key
        .sign_prehash_recoverable(sig_hash.as_slice())
        .expect("sign");
    let signature = Signature::from_signature_and_parity(sig, recid.is_y_odd());

    let signed = tx.into_signed(signature);
    let envelope = TxEnvelope::Legacy(signed);
    let mut buf = Vec::new();
    envelope.encode_2718(&mut buf);

    (buf, lib_address(address))
}

#[test]
fn test_decode_and_recover_legacy() {
    let (raw, expected_sender) = make_signed_legacy_tx();
    let verified = decode_and_recover(&raw).expect("decode should succeed");
    assert_eq!(verified.sender, expected_sender);
    assert_eq!(verified.envelope.chain_id(), Some(1337));
    assert_eq!(verified.envelope.nonce(), 0);
}

#[test]
fn test_validate_tx_ok() {
    let (raw, _) = make_signed_legacy_tx();
    let verified = decode_and_recover(&raw).unwrap();
    let result = validate_tx(
        &verified,
        1337,
        0,
        U256::from_u128(100_000_000_000_000_000_000u128),
        30_000_000,
        1_000_000_000,
    );
    assert!(result.is_ok());
}

#[test]
fn test_validate_tx_wrong_chain_id() {
    let (raw, _) = make_signed_legacy_tx();
    let verified = decode_and_recover(&raw).unwrap();
    let result = validate_tx(
        &verified,
        9999,
        0,
        U256::from_u128(100_000_000_000_000_000_000u128),
        30_000_000,
        1_000_000_000,
    );
    assert!(matches!(result, Err(TxError::ChainIdMismatch { .. })));
}

#[test]
fn test_validate_tx_nonce_too_low() {
    let (raw, _) = make_signed_legacy_tx();
    let verified = decode_and_recover(&raw).unwrap();
    let result = validate_tx(
        &verified,
        1337,
        5, // account nonce is 5, tx nonce is 0
        U256::from_u128(100_000_000_000_000_000_000u128),
        30_000_000,
        1_000_000_000,
    );
    assert!(matches!(result, Err(TxError::NonceTooLow { .. })));
}

#[test]
fn test_validate_tx_insufficient_balance() {
    let (raw, _) = make_signed_legacy_tx();
    let verified = decode_and_recover(&raw).unwrap();
    let result = validate_tx(
        &verified,
        1337,
        0,
        U256::from_u64(1u64), // almost no balance
        30_000_000,
        1_000_000_000,
    );
    assert!(matches!(result, Err(TxError::InsufficientBalance { .. })));
}

#[test]
fn test_decode_garbage() {
    let result = decode_and_recover(&[0xFF, 0x01, 0x02]);
    assert!(matches!(result, Err(TxError::RlpDecode(_))));
}

#[test]
fn test_decode_eip1559_tx() {
    let signing_key = k256::ecdsa::SigningKey::random(&mut rand::thread_rng());
    let expected = alloy_primitives::Address::from_private_key(&signing_key);

    let tx = TxEip1559 {
        chain_id: 1337,
        nonce: 42,
        max_fee_per_gas: 30_000_000_000,
        max_priority_fee_per_gas: 1_000_000_000,
        gas_limit: 21_000,
        to: TxKind::Call(alloy_primitives::Address::repeat_byte(0xCC)),
        value: alloy_primitives::U256::from(500_000_000_000_000_000u128),
        input: Bytes::new(),
        access_list: Default::default(),
    };

    let sig_hash = tx.signature_hash();
    let (sig, recid) = signing_key
        .sign_prehash_recoverable(sig_hash.as_slice())
        .expect("sign");
    let signature = Signature::from_signature_and_parity(sig, recid.is_y_odd());

    let signed = tx.into_signed(signature);
    let envelope = TxEnvelope::Eip1559(signed);
    let mut buf = Vec::new();
    envelope.encode_2718(&mut buf);

    let verified = decode_and_recover(&buf).expect("decode");
    assert_eq!(verified.sender, lib_address(expected));
    assert_eq!(verified.envelope.chain_id(), Some(1337));
    assert_eq!(verified.envelope.nonce(), 42);
    assert_eq!(verified.envelope.tx_type, 2);
    assert_eq!(verified.envelope.max_fee_per_gas(), 30_000_000_000);
    assert_eq!(
        verified.envelope.max_priority_fee_per_gas(),
        Some(1_000_000_000)
    );

    // Effective tip with base_fee = 10 gwei
    let tip = effective_gas_tip(&verified.envelope, 10_000_000_000);
    assert_eq!(tip, 1_000_000_000);
}

// ----- further cases -----

#[test]
fn decoded_fields_match_the_signed_transaction() {
    let (raw, _) = make_signed_legacy_tx();
    let verified = decode_and_recover(&raw).unwrap();
    let f = &verified.envelope;
    assert_eq!(f.tx_type, 0);
    assert_eq!(f.gas_limit(), 21_000);
    assert_eq!(f.max_fee_per_gas(), 1_000_000_000);
    assert_eq!(f.max_priority_fee_per_gas(), None);
    assert_eq!(f.to(), Some(Address::repeat_byte(0xBB)));
    assert_eq!(f.value(), U256::from_u128(1_000_000_000_000_000_000u128));
    assert_eq!(verified.raw, raw);
    assert_eq!(verified.tx_hash, f.tx_hash);
    // The hash is the Keccak-256 of the raw bytes, not the bytes themselves.
    let h = alloy_primitives::keccak256(&raw);
    assert_eq!(verified.tx_hash.bytes, h.0);
}

#[test]
fn intrinsic_gas_counts_calldata() {
    let (raw, _) = make_signed_legacy_tx();
    let mut verified = decode_and_recover(&raw).unwrap();
    assert_eq!(intrinsic_gas(&verified.envelope), 21_000);
    verified.envelope.input = vec![0, 1, 0, 2];
    assert_eq!(intrinsic_gas(&verified.envelope), 21_000 + 4 + 16 + 4 + 16);
    verified.envelope.to = None;
    assert_eq!(intrinsic_gas(&verified.envelope), 53_000 + 40);
}

#[test]
fn validate_reports_each_error() {
    let (raw, _) = make_signed_legacy_tx();
    let verified = decode_and_recover(&raw).unwrap();
    let big = U256::from_u128(100_000_000_000_000_000_000u128);
    let e = validate_tx(&verified, 1337, 0, big, 20_000, 1_000_000_000).unwrap_err();
    assert!(matches!(e, TxError::GasLimitExceedsBlock { tx_gas: 21_000, block_limit: 20_000 }));
    assert_eq!(e.to_string(), "gas limit 21000 exceeds block limit 20000");

    let mut low = verified.clone();
    low.envelope.gas_limit = 20_000;
    let e = validate_tx(&low, 1337, 0, big, 30_000_000, 1_000_000_000).unwrap_err();
    assert!(matches!(e, TxError::IntrinsicGasTooLow { required: 21_000, got: 20_000 }));

    let e = validate_tx(&verified, 9999, 0, big, 30_000_000, 1_000_000_000).unwrap_err();
    assert_eq!(e.to_string(), "chain_id mismatch: expected 9999, got Some(1337)");
    let e = validate_tx(&verified, 1337, 5, big, 30_000_000, 1_000_000_000).unwrap_err();
    assert_eq!(e.to_string(), "nonce too low: expected >= 5, got 0");

    // Cost: 21000 gas at 1 gwei plus 1 ether of value.
    let need = 21_000u128 * 1_000_000_000 + 1_000_000_000_000_000_000u128;
    assert!(validate_tx(&verified, 1337, 0, U256::from_u128(need), 30_000_000, 1_000_000_000).is_ok());
    let e = validate_tx(&verified, 1337, 0, U256::from_u128(need - 1), 30_000_000, 1_000_000_000)
        .unwrap_err();
    assert_eq!(
        e.to_string(),
        format!("insufficient balance: need {}, have {}", need, need - 1)
    );
}

#[test]
fn garbage_error_message() {
    let e = decode_and_recover(&[0xFF, 0x01, 0x02]).unwrap_err();
    assert!(e.to_string().starts_with("RLP decode: "));
}
