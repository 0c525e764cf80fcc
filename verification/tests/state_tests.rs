use nbnet::config::CompatProfile;
use nbnet::genesis::{EvmGenesis, GenesisAlloc};
use nbnet::primitives::{Address, B256};
use nbnet::state::{
    encode_account_leaf, genesis_chain_config, state_root_bytes, AccountInfo, StateTrie,
    BlockHashWindow, VsdbError, VsdbStateDb,
};
use nbnet::uint::U256;

fn genesis_with(alloc: Vec<(Address, GenesisAlloc)>) -> EvmGenesis {
    EvmGenesis {
        chain_id: 1337,
        alloc,
        gas_limit: 30_000_000,
        base_fee_per_gas: 1_000_000_000,
        coinbase: Address::zero(),
        timestamp: 0,
    }
}

fn keccak_empty() -> B256 {
    B256::from_bytes(revm::primitives::KECCAK_EMPTY.0)
}

fn info(balance: u64, nonce: u64) -> AccountInfo {
    AccountInfo { balance: U256::from_u64(balance), nonce, code_hash: keccak_empty(), code: None }
}

#[test]
fn test_from_genesis_empty() {
    let genesis = genesis_with(vec![]);
    let config = genesis_chain_config(&genesis);
    assert_eq!(config.chain_id, 1337);
    let mut db = VsdbStateDb::new();
    assert!(db.load_genesis(&genesis).is_empty());
}

#[test]
fn test_from_genesis_with_alloc() {
    let addr = Address::repeat_byte(0xAA);
    let alloc = vec![(
        addr,
        GenesisAlloc {
            balance: U256::from_u128(1_000_000_000_000_000_000u128),
            nonce: 0,
            code: vec![],
            storage: vec![],
        },
    )];
    let genesis = genesis_with(alloc);
    let mut db = VsdbStateDb::new();
    let leaves = db.load_genesis(&genesis);
    assert_eq!(leaves.len(), 1);
    assert_eq!(db.get_balance(&addr), U256::from_u128(1_000_000_000_000_000_000u128));
    assert_eq!(genesis_chain_config(&genesis).chain_id, 1337);
}

#[test]
fn test_vsdb_database_basic() {
    let mut db = VsdbStateDb::new();
    let addr = Address::repeat_byte(0x11);
    db.insert_account(&addr, &info(42, 7));

    let loaded = db.basic(&addr).unwrap().unwrap();
    assert_eq!(loaded.balance, U256::from_u64(42u64));
    assert_eq!(loaded.nonce, 7);
}

#[test]
fn test_vsdb_database_storage() {
    let mut db = VsdbStateDb::new();
    let addr = Address::repeat_byte(0x22);
    let slot = U256::from_u64(5u64);
    let value = U256::from_u64(999u64);
    db.insert_storage(&addr, &slot, &value);

    let loaded = db.storage(&addr, &slot);
    assert_eq!(loaded, value);

    let empty = db.storage(&addr, &U256::from_u64(99u64));
    assert_eq!(empty, U256::zero());
}

#[test]
fn test_vsdb_database_block_hash() {
    let mut db = VsdbStateDb::new();
    let hash = B256::repeat_byte(0xCC);
    db.insert_block_hash(42, &hash);

    let loaded = db.block_hash(42);
    assert_eq!(loaded, hash);

    let missing = db.block_hash(99);
    assert_eq!(missing, B256::zero());
}

#[test]
fn test_set_balance_and_nonce() {
    let genesis = genesis_with(vec![]);
    let mut db = VsdbStateDb::new();
    db.load_genesis(&genesis);
    let addr = Address::repeat_byte(0x33);

    db.set_balance(&addr, U256::from_u64(100u64));
    assert_eq!(db.get_balance(&addr), U256::from_u64(100u64));

    db.set_nonce(&addr, 5);
    assert_eq!(db.get_nonce(&addr), 5);

    // Both writes landed in the same stored account.
    assert_eq!(db.get_balance(&addr), U256::from_u64(100u64));
    assert_eq!(db.get_nonce(&addr), 5);
}

fn trie_root(leaves: &[(Address, Vec<u8>)]) -> [u8; 32] {
    let mut trie = StateTrie::new();
    for (addr, leaf) in leaves {
        assert!(trie.put_leaf(addr, leaf));
    }
    trie.state_root()
}

#[test]
fn test_state_root_determinism() {
    let addr = Address::repeat_byte(0xAA);
    let alloc = vec![(
        addr,
        GenesisAlloc { balance: U256::from_u64(1000u64), nonce: 0, code: vec![], storage: vec![] },
    )];
    let genesis = genesis_with(alloc);

    let mut db1 = VsdbStateDb::new();
    let mut db2 = VsdbStateDb::new();
    let root1 = trie_root(&db1.load_genesis(&genesis));
    let root2 = trie_root(&db2.load_genesis(&genesis));
    assert_eq!(root1, root2, "same genesis must produce same state root");
    assert_ne!(root1, [0u8; 32], "state root should not be all zeros");
}

// ----- further cases -----

#[test]
fn genesis_code_is_readable() {
    let addr = Address::repeat_byte(0xC0);
    let code = vec![0x60, 0x01, 0x60, 0x02];
    let alloc = vec![(
        addr,
        GenesisAlloc { balance: U256::from_u64(1), nonce: 0, code: code.clone(), storage: vec![] },
    )];
    let mut db = VsdbStateDb::new();
    let leaves = db.load_genesis(&genesis_with(alloc));
    let hash = alloy_primitives::keccak256(&code).0;
    // The account names the code's hash, and the code is kept under it.
    assert_eq!(db.get_code(&addr), code);
    assert_eq!(db.code_by_hash(&B256::from_bytes(hash)), Some(code.clone()));
    let loaded = db.basic(&addr).unwrap().unwrap();
    assert_eq!(loaded.code_hash.bytes, hash);
    assert_eq!(loaded.code, Some(code.clone()));
    assert_eq!(&leaves[0].1[40..], &hash);
    // An allocation without code keeps the empty code hash.
    let plain = Address::repeat_byte(0xC1);
    let mut db2 = VsdbStateDb::new();
    db2.load_genesis(&genesis_with(vec![(
        plain,
        GenesisAlloc { balance: U256::from_u64(1), nonce: 0, code: vec![], storage: vec![] },
    )]));
    assert!(db2.get_code(&plain).is_empty());
    assert_eq!(db2.basic(&plain).unwrap().unwrap().code_hash, keccak_empty());
}

#[test]
fn account_leaf_layout() {
    let i = info(0x0102, 0x0304);
    let leaf = encode_account_leaf(&i);
    assert_eq!(leaf.len(), 72);
    assert_eq!(&leaf[..8], &0x0304u64.to_be_bytes());
    assert_eq!(&leaf[38..40], &[0x01, 0x02]);
    assert_eq!(&leaf[40..], &keccak_empty().bytes);
}

#[test]
fn state_root_is_the_trie_root() {
    let mut trie = StateTrie::new();
    let mut raw = vsdb::MptCalc::new();
    let i = info(7, 1);
    assert!(trie.put_account(&Address::repeat_byte(1), &i));
    raw.insert(&[1u8; 20], &encode_account_leaf(&i)).unwrap();
    let expected = raw.root_hash().unwrap();
    assert_eq!(expected.len(), 32);
    assert_eq!(trie.state_root().to_vec(), expected);
    // Adding an account changes the root.
    let before = trie.state_root();
    assert!(trie.put_account(&Address::repeat_byte(2), &info(1, 0)));
    assert_ne!(trie.state_root(), before);
}

#[test]
fn state_root_pads_and_truncates() {
    let short = state_root_bytes(&[1, 2, 3]);
    assert_eq!(&short[..3], &[1, 2, 3]);
    assert!(short[3..].iter().all(|b| *b == 0));
    let long: Vec<u8> = (0u8..40).collect();
    let r = state_root_bytes(&long);
    assert_eq!(&r[..], &long[..32]);
}

#[test]
fn code_is_found_by_hash_unless_empty_hash() {
    let mut db = VsdbStateDb::new();
    let addr = Address::repeat_byte(0x44);
    let code_hash = B256::repeat_byte(0x99);
    let account = AccountInfo {
        balance: U256::from_u64(1),
        nonce: 1,
        code_hash,
        code: Some(vec![0x60, 0x00]),
    };
    db.insert_account(&addr, &account);
    assert_eq!(db.get_code(&addr), vec![0x60, 0x00]);
    assert_eq!(db.code_by_hash(&code_hash), Some(vec![0x60, 0x00]));
    let loaded = db.basic(&addr).unwrap().unwrap();
    assert_eq!(loaded.code, Some(vec![0x60, 0x00]));
    assert_eq!(loaded.code_hash, code_hash);
    // An account with the empty code hash has no code.
    let plain = Address::repeat_byte(0x45);
    db.insert_account(&plain, &info(1, 0));
    assert!(db.get_code(&plain).is_empty());
    assert_eq!(db.basic(&plain).unwrap().unwrap().code, Some(vec![0u8]));
    assert!(db.get_account(&Address::repeat_byte(0x46)).is_none());
    assert!(db.basic(&Address::repeat_byte(0x46)).unwrap().is_none());
    assert_eq!(db.get_balance(&Address::repeat_byte(0x46)), U256::zero());
    assert_eq!(db.get_nonce(&Address::repeat_byte(0x46)), 0);
}

#[test]
fn genesis_storage_and_config() {
    let addr = Address::repeat_byte(0xAB);
    let alloc = vec![(
        addr,
        GenesisAlloc {
            balance: U256::from_u64(5),
            nonce: 3,
            code: vec![],
            storage: vec![(U256::from_u64(1), U256::from_u64(10)), (U256::from_u64(2), U256::from_u64(20))],
        },
    )];
    let mut genesis = genesis_with(alloc);
    genesis.chain_id = 9;
    genesis.gas_limit = 1234;
    genesis.base_fee_per_gas = 7;
    let mut db = VsdbStateDb::new();
    let leaves = db.load_genesis(&genesis);
    assert_eq!(db.get_storage(&addr, &U256::from_u64(2)), U256::from_u64(20));
    assert_eq!(db.get_storage(&addr, &U256::from_u64(1)), U256::from_u64(10));
    assert_eq!(db.get_nonce(&addr), 3);
    assert_eq!(leaves[0].0, addr);
    assert_eq!(leaves[0].1.len(), 72);
    let c = genesis_chain_config(&genesis);
    assert_eq!((c.chain_id, c.block_gas_limit, c.base_fee_per_gas), (9, 1234, 7));
    assert_eq!(c.compat_profile, CompatProfile::Modern);
    assert_eq!(c.min_base_fee, 1_000_000_000);
}

#[test]
fn block_hash_window_keeps_latest_256() {
    let mut w = BlockHashWindow::new();
    for n in 0..300u64 {
        w.record(n, B256::repeat_byte((n % 251) as u8));
        assert!(w.len() <= 256);
    }
    assert_eq!(w.len(), 256);
    assert!(w.get(43).is_none());
    assert_eq!(w.get(44), Some(B256::repeat_byte(44)));
    assert_eq!(w.get(299), Some(B256::repeat_byte((299 % 251) as u8)));
    // Re-recording a kept block replaces its hash in place.
    w.record(100, B256::repeat_byte(0xEE));
    assert_eq!(w.len(), 256);
    assert_eq!(w.get(100), Some(B256::repeat_byte(0xEE)));
    // An older block than all kept ones falls out at once when full.
    w.record(1, B256::repeat_byte(0x01));
    assert!(w.get(1).is_none());
    assert_eq!(w.len(), 256);
}

#[test]
fn vsdb_error_message() {
    let e = VsdbError("disk".to_string());
    assert_eq!(e.to_string(), "vsdb: disk");
}

#[test]
fn block_hash_window_many_calls() {
    let h = |n: u64| B256::from_bytes(U256::from_u64(n + 1).to_be_bytes());
    let mut w = BlockHashWindow::new();
    for n in 0..=256u64 {
        w.record(n, h(n));
    }
    assert_eq!(w.len(), 256);
    assert_eq!(w.get(0), None);
    assert_eq!(w.get(256), Some(h(256)));
    assert_eq!(w.get(1), Some(h(1)));
    // An older block does not push out newer ones.
    w.record(0, h(0));
    assert_eq!(w.get(0), None);
    assert_eq!(w.get(1), Some(h(1)));
}
