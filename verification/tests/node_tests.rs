use nbnet::node::{
    bench_evm_genesis, default_dev_genesis, node_role, parse_hex_quantity, resume_view,
    sync_batch_end, FULLNODE_SENTINEL,
};
use nbnet::primitives::Address;
use nbnet::uint::U256;

const ETH: u128 = 1_000_000_000_000_000_000;

#[test]
fn dev_genesis_funds_two_accounts() {
    let g = default_dev_genesis();
    assert_eq!(g.chain_id, 1337);
    assert_eq!(g.gas_limit, 30_000_000);
    assert_eq!(g.base_fee_per_gas, 1_000_000_000);
    assert_eq!(g.alloc.len(), 2);
    assert_eq!(g.alloc[0].0, Address::repeat_byte(0xAA));
    assert_eq!(g.alloc[1].0, Address::repeat_byte(0xBB));
    for (_, a) in &g.alloc {
        assert_eq!(a.balance, U256::from_u128(10_000 * ETH));
        assert_eq!(a.nonce, 0);
        assert!(a.code.is_empty() && a.storage.is_empty());
    }
}

#[test]
fn bench_genesis_orders_accounts() {
    let low = Address::repeat_byte(0x10);
    let high = Address::repeat_byte(0x42);
    let g = bench_evm_genesis(low, high);
    assert_eq!(g.alloc.len(), 2);
    assert_eq!(g.alloc[0].0, low);
    assert_eq!(g.alloc[0].1.balance, U256::from_u128(1_000_000 * ETH));
    assert_eq!(g.alloc[1].1.balance, U256::zero());
    let g = bench_evm_genesis(high, low);
    assert_eq!(g.alloc[0].0, low);
    assert_eq!(g.alloc[0].1.balance, U256::zero());
    assert_eq!(g.alloc[1].0, high);
    let g = bench_evm_genesis(low, low);
    assert_eq!(g.alloc.len(), 1);
    assert_eq!(g.alloc[0].1.balance, U256::zero());
}

#[test]
fn role_from_genesis_validators() {
    let vals = vec![(3u64, "aa".to_string()), (7u64, "bb".to_string()), (9u64, "bb".to_string())];
    assert_eq!(node_role("bb", &vals, false), (7, false));
    assert_eq!(node_role("bb", &vals, true), (7, true));
    assert_eq!(node_role("cc", &vals, false), (FULLNODE_SENTINEL, true));
}

#[test]
fn sync_ranges_and_views() {
    assert_eq!(sync_batch_end(10, 12, 100), 12);
    assert_eq!(sync_batch_end(10, 500, 100), 109);
    assert_eq!(resume_view(0, Some(50), 3), 3);
    assert_eq!(resume_view(4, Some(50), 3), 51);
    assert_eq!(resume_view(4, Some(2), 3), 3);
    assert_eq!(resume_view(4, None, 3), 3);
}

#[test]
fn rpc_quantities() {
    assert_eq!(parse_hex_quantity("0x0"), Some(0));
    assert_eq!(parse_hex_quantity("0x1f"), Some(31));
    assert_eq!(parse_hex_quantity("0xFF"), Some(255));
    assert_eq!(parse_hex_quantity("0x+10"), Some(16));
    assert_eq!(parse_hex_quantity("0xffffffffffffffff"), Some(u64::MAX));
    assert_eq!(parse_hex_quantity("0x10000000000000000"), None);
    assert_eq!(parse_hex_quantity("0x"), None);
    assert_eq!(parse_hex_quantity("0x+"), None);
    assert_eq!(parse_hex_quantity("0xg"), None);
    assert_eq!(parse_hex_quantity("1f"), None);
    // The same answers as the standard library's parser.
    for s in ["0x00ff", "0x-1", "0x 1", "0x+ff", "0xabcdef0123456789"] {
        let std = s.strip_prefix("0x").and_then(|h| u64::from_str_radix(h, 16).ok());
        assert_eq!(parse_hex_quantity(s), std, "{s}");
    }
}
