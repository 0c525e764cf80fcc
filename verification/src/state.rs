//! Persistent EVM world state on vsdb: accounts, contract code, storage
//! slots and block hashes, each in a map keyed by raw bytes.
use vstd::prelude::*;
use vsdb::{MapxOrdRawKey, MptCalc};
use revm::bytecode::Bytecode;
use crate::primitives::{Address, B256, be8, be_value, copy_range, u64_from_be, push_be8, lemma_be8};
use crate::uint::{U256, u256_be_bytes, lemma_be_bytes_of_value};
use crate::genesis::{EvmGenesis, GenesisAlloc};
use crate::config::{CompatProfile, EvmChainConfig};

verus! {

// ---------------------------------------------------------------------------
// Trusted items: the vsdb map and revm constants
// ---------------------------------------------------------------------------

#[verifier::external_type_specification]
#[verifier::external_body]
#[verifier::reject_recursive_types(V)]
pub struct ExMapxOrdRawKey<V>(MapxOrdRawKey<V>);

/// A table with no entries.
pub open spec fn empty_table() -> Map<Seq<u8>, Seq<u8>> {
    Map::empty()
}

/// What a raw-keyed vsdb map holds: each raw key with its stored bytes.
pub uninterp spec fn raw_map_contents(m: MapxOrdRawKey<Vec<u8>>) -> Map<Seq<u8>, Seq<u8>>;

/// `MapxOrdRawKey::new`, documented as creating a new, empty map.
/// Not stated: it panics when vsdb runs read-only, a process-wide setting
/// that no argument carries.
#[verifier::external_body]
fn raw_map_new() -> (m: MapxOrdRawKey<Vec<u8>>)
    ensures
        raw_map_contents(m) == empty_table(),
{
    MapxOrdRawKey::new()
}

/// `MapxOrdRawKey::get`: the bytes last stored under `key`, if any.
#[verifier::external_body]
fn raw_map_get(m: &MapxOrdRawKey<Vec<u8>>, key: &[u8]) -> (r: Option<Vec<u8>>)
    ensures
        match r {
            Some(v) => raw_map_contents(*m).contains_key(key@) && raw_map_contents(*m)[key@]
                == v@,
            None => !raw_map_contents(*m).contains_key(key@),
        },
{
    m.get(key)
}

/// The longest key the maps here are given. vsdb's storage engine refuses
/// keys above 8 MiB (the key it stores carries an 8-byte map prefix).
pub const MAX_RAW_KEY: usize = 0x7f_f000;

/// The longest key and value together that the maps here are given. The
/// engine refuses entries above 64 MiB less 72 bytes; the stored value is
/// the encoded byte vector (a length of at most 10 bytes, then the bytes).
pub const MAX_RAW_ENTRY: usize = 0x3ff_f000;

/// `MapxOrdRawKey::insert`: stores `value` under `key`, replacing what was
/// there and leaving every other key as it was. vsdb panics when its
/// engine refuses the write, which the sizes required here rule out.
/// Not stated: it also panics in vsdb's process-wide read-only mode, or
/// when the disk write itself fails.
#[verifier::external_body]
fn raw_map_insert(m: &mut MapxOrdRawKey<Vec<u8>>, key: &[u8], value: &Vec<u8>)
    requires
        key@.len() <= MAX_RAW_KEY,
        key@.len() + value@.len() <= MAX_RAW_ENTRY,
    ensures
        raw_map_contents(*final(m)) == raw_map_contents(*old(m)).insert(key@, value@),
{
    m.insert(key, value)
}

/// The Keccak-256 hash of the empty byte string.
pub open spec fn keccak_empty_bytes() -> Seq<u8> {
    seq![
        0xc5u8, 0xd2u8, 0x46u8, 0x01u8, 0x86u8, 0xf7u8, 0x23u8, 0x3cu8,
        0x92u8, 0x7eu8, 0x7du8, 0xb2u8, 0xdcu8, 0xc7u8, 0x03u8, 0xc0u8,
        0xe5u8, 0x00u8, 0xb6u8, 0x53u8, 0xcau8, 0x82u8, 0x27u8, 0x3bu8,
        0x7bu8, 0xfau8, 0xd8u8, 0x04u8, 0x5du8, 0x85u8, 0xa4u8, 0x70u8,
    ]
}

/// `revm::primitives::KECCAK_EMPTY`, the code hash of an account without
/// code; revm's source defines it as the 32 bytes of `keccak_empty_bytes`.
#[verifier::external_body]
fn keccak_empty() -> (r: B256)
    ensures
        r@ == keccak_empty_bytes(),
{
    B256::from_bytes(revm::primitives::KECCAK_EMPTY.0)
}

/// The bytes of `Bytecode::default()`: revm's source builds it from the
/// single opcode STOP (0x00).
#[verifier::external_body]
fn default_code() -> (r: Vec<u8>)
    ensures
        r@ == seq![0u8],
{
    Bytecode::default().bytes_slice().to_vec()
}

// ---------------------------------------------------------------------------
// Accounts
// ---------------------------------------------------------------------------

/// The longest code the code table stores, so that its entry (a 32-byte
/// code hash, then the code) fits the map.
pub const MAX_STORED_CODE: usize = 0x3ff_0000;

/// Account information: balance, nonce, code hash and, where loaded, the
/// bytes of the account's code.
#[derive(Debug, Clone)]
pub struct AccountInfo {
    pub balance: U256,
    pub nonce: u64,
    pub code_hash: B256,
    pub code: Option<Vec<u8>>,
}

pub struct AccountInfoView {
    pub balance: nat,
    pub nonce: u64,
    pub code_hash: Seq<u8>,
    pub code: Option<Seq<u8>>,
}

impl View for AccountInfo {
    type V = AccountInfoView;

    open spec fn view(&self) -> AccountInfoView {
        AccountInfoView {
            balance: self.balance@,
            nonce: self.nonce,
            code_hash: self.code_hash@,
            code: match self.code {
                Some(c) => Some(c@),
                None => None,
            },
        }
    }
}

/// The 72 bytes an account is stored as: balance (32, big-endian), nonce
/// (8, big-endian), code hash (32).
pub open spec fn stored_account(balance: Seq<u8>, nonce: u64, code_hash: Seq<u8>) -> Seq<u8> {
    balance + be8(nonce) + code_hash
}

/// The stored form of `info`.
pub open spec fn stored_info(info: AccountInfo) -> Seq<u8> {
    stored_account(info.balance.to_be_bytes_spec(), info.nonce, info.code_hash@)
}

/// The stored form of an account that was never written: zero balance,
/// zero nonce and the empty code hash.
pub open spec fn blank_account() -> Seq<u8> {
    stored_account(u256_be_bytes(0, 0, 0, 0), 0, keccak_empty_bytes())
}

/// The balance in a stored account.
pub open spec fn stored_balance(v: Seq<u8>) -> nat {
    be_value(v.subrange(0, 32))
}

/// The nonce in a stored account.
pub open spec fn stored_nonce(v: Seq<u8>) -> nat {
    be_value(v.subrange(32, 40))
}

/// The code hash in a stored account.
pub open spec fn stored_code_hash(v: Seq<u8>) -> Seq<u8> {
    v.subrange(40, 72)
}

/// The account information a stored account reads back as (its code is
/// the default code, as for a fresh account).
pub open spec fn info_of_stored(v: Seq<u8>) -> AccountInfoView {
    AccountInfoView {
        balance: stored_balance(v),
        nonce: stored_nonce(v) as u64,
        code_hash: stored_code_hash(v),
        code: Some(seq![0u8]),
    }
}

/// The code table after storing `info`: its code is kept under its code
/// hash when it has non-empty code.
pub open spec fn contracts_after(m: Map<Seq<u8>, Seq<u8>>, info: AccountInfo) -> Map<
    Seq<u8>,
    Seq<u8>,
> {
    match info.code {
        Some(c) => if c@.len() > 0 {
            m.insert(info.code_hash@, c@)
        } else {
            m
        },
        None => m,
    }
}

/// The code of `addr` in an account table and a code table: what the code
/// table holds under the account's code hash, unless that hash is the empty
/// one; empty otherwise.
pub open spec fn table_code(
    accounts: Map<Seq<u8>, Seq<u8>>,
    contracts: Map<Seq<u8>, Seq<u8>>,
    addr: Seq<u8>,
) -> Seq<u8> {
    if accounts.contains_key(addr) {
        let h = stored_code_hash(accounts[addr]);
        if h != keccak_empty_bytes() && contracts.contains_key(h) {
            contracts[h]
        } else {
            Seq::empty()
        }
    } else {
        Seq::empty()
    }
}

/// The key of a storage slot: the address's 20 bytes, then the slot's 32
/// big-endian bytes.
pub open spec fn storage_key_of(addr: Seq<u8>, slot: U256) -> Seq<u8> {
    addr + slot.to_be_bytes_spec()
}

/// The key of a block number: its 8 big-endian bytes.
pub open spec fn block_key(number: u64) -> Seq<u8> {
    be8(number)
}

/// Encodes account state for the state trie:
/// `nonce(8) || balance(32) || code_hash(32)`.
pub open spec fn account_leaf(info: AccountInfo) -> Seq<u8> {
    be8(info.nonce) + info.balance.to_be_bytes_spec() + info.code_hash@
}

fn push_u256(out: &mut Vec<u8>, x: &U256)
    ensures
        final(out)@ == old(out)@ + x.to_be_bytes_spec(),
{
    let b = x.to_be_bytes();
    out.extend_from_slice(b.as_slice());
}

fn push_b256(out: &mut Vec<u8>, x: &B256)
    ensures
        final(out)@ == old(out)@ + x@,
{
    out.extend_from_slice(x.bytes.as_slice());
}

/// Encodes account state for the state trie:
/// `nonce(8) || balance(32) || code_hash(32)`.
pub fn encode_account_leaf(info: &AccountInfo) -> (r: Vec<u8>)
    ensures
        r@ == account_leaf(*info),
        r@.len() == 72,
{
    let mut buf: Vec<u8> = Vec::with_capacity(72);
    push_be8(&mut buf, info.nonce);
    push_u256(&mut buf, &info.balance);
    push_b256(&mut buf, &info.code_hash);
    proof {
        lemma_be_bytes_of_value(info.balance);
        lemma_be8(info.nonce);
    }
    buf
}

fn encode_stored(balance: &U256, nonce: u64, code_hash: &B256) -> (r: Vec<u8>)
    ensures
        r@ == stored_account(balance.to_be_bytes_spec(), nonce, code_hash@),
        r@.len() == 72,
{
    let mut buf: Vec<u8> = Vec::with_capacity(72);
    push_u256(&mut buf, balance);
    push_be8(&mut buf, nonce);
    push_b256(&mut buf, code_hash);
    proof {
        lemma_be_bytes_of_value(*balance);
        lemma_be8(nonce);
    }
    buf
}

/// Reads back a stored account.
fn decode_stored(v: &Vec<u8>) -> (r: (U256, u64, B256))
    requires
        v@.len() == 72,
    ensures
        r.0@ == stored_balance(v@),
        r.0.to_be_bytes_spec() == v@.subrange(0, 32),
        r.1 == stored_nonce(v@),
        be8(r.1) == v@.subrange(32, 40),
        r.2@ == stored_code_hash(v@),
{
    let bal = copy_range(v.as_slice(), 0, 32);
    let balance = U256::from_be_slice(bal.as_slice());
    let nonce = u64_from_be(v.as_slice(), 32);
    let h = copy_range(v.as_slice(), 40, 72);
    let mut bytes = [0u8; 32];
    let mut i: usize = 0;
    while i < 32
        invariant
            h@.len() == 32,
            0 <= i <= 32,
            forall|j: int| 0 <= j < i ==> bytes@[j] == h@[j],
        decreases 32 - i,
    {
        bytes[i] = h[i];
        i = i + 1;
    }
    assert(bytes@ =~= h@);
    proof {
        lemma_be_bytes_of_value(balance);
        lemma_be_value_inj32(balance.to_be_bytes_spec(), v@.subrange(0, 32));
    }
    (balance, nonce, B256::from_bytes(bytes))
}

/// Two 32-byte strings with the same big-endian value are equal.
proof fn lemma_be_value_inj32(a: Seq<u8>, b: Seq<u8>)
    requires
        a.len() == 32,
        b.len() == 32,
        be_value(a) == be_value(b),
    ensures
        a == b,
{
    lemma_be_value_inj(a, b);
}

/// Byte strings of one length with the same big-endian value are equal.
pub proof fn lemma_be_value_inj(a: Seq<u8>, b: Seq<u8>)
    requires
        a.len() == b.len(),
        be_value(a) == be_value(b),
    ensures
        a == b,
    decreases a.len(),
{
    if a.len() > 0 {
        let x = be_value(a.drop_last());
        let y = be_value(b.drop_last());
        let p = a.last() as nat;
        let q = b.last() as nat;
        assert(x * 256 + p == y * 256 + q);
        assert(p == q && x == y) by (nonlinear_arith)
            requires
                x * 256 + p == y * 256 + q,
                p < 256,
                q < 256,
        ;
        lemma_be_value_inj(a.drop_last(), b.drop_last());
        assert(a =~= a.drop_last().push(a.last()));
        assert(b =~= b.drop_last().push(b.last()));
    } else {
        assert(a =~= b);
    }
}

/// Database error for vsdb operations.
#[derive(Debug)]
pub struct VsdbError(pub String);

impl VsdbError {
    /// The error's message: `vsdb: ` and the detail.
    pub fn to_string(&self) -> (r: String)
        ensures
            r@ == "vsdb: "@ + self.0@,
    {
        let mut s = String::from_str("vsdb: ");
        proof {
            reveal_strlit("vsdb: ");
        }
        s.append(self.0.as_str());
        s
    }
}


// ---------------------------------------------------------------------------
// VsdbStateDb
// ---------------------------------------------------------------------------

/// Persistent EVM world state in four vsdb maps with raw keys: accounts by
/// address (20 bytes), contract code by code hash (32 bytes), storage
/// values by address and slot (52 bytes), block hashes by block number
/// (8 bytes, big-endian).
pub struct VsdbStateDb {
    accounts: MapxOrdRawKey<Vec<u8>>,
    contracts: MapxOrdRawKey<Vec<u8>>,
    storage: MapxOrdRawKey<Vec<u8>>,
    block_hashes: MapxOrdRawKey<Vec<u8>>,
}

impl VsdbStateDb {
    /// Stored accounts by address.
    pub closed spec fn accounts_map(&self) -> Map<Seq<u8>, Seq<u8>> {
        raw_map_contents(self.accounts)
    }

    /// Contract code by code hash.
    pub closed spec fn contracts_map(&self) -> Map<Seq<u8>, Seq<u8>> {
        raw_map_contents(self.contracts)
    }

    /// Storage values (32 bytes, big-endian) by `storage_key_of`.
    pub closed spec fn storage_map(&self) -> Map<Seq<u8>, Seq<u8>> {
        raw_map_contents(self.storage)
    }

    /// Block hashes by `block_key`.
    pub closed spec fn block_hash_map(&self) -> Map<Seq<u8>, Seq<u8>> {
        raw_map_contents(self.block_hashes)
    }

    /// Every stored account is 72 bytes; every storage value and block
    /// hash is 32.
    pub open spec fn wf(&self) -> bool {
        &&& forall|k: Seq<u8>| #[trigger]
            self.accounts_map().contains_key(k) ==> self.accounts_map()[k].len() == 72
        &&& forall|k: Seq<u8>| #[trigger]
            self.storage_map().contains_key(k) ==> self.storage_map()[k].len() == 32
        &&& forall|k: Seq<u8>| #[trigger]
            self.block_hash_map().contains_key(k) ==> self.block_hash_map()[k].len() == 32
    }

    /// The stored account of `addr`, or the blank account.
    pub open spec fn stored_or_blank(&self, addr: Seq<u8>) -> Seq<u8> {
        if self.accounts_map().contains_key(addr) {
            self.accounts_map()[addr]
        } else {
            blank_account()
        }
    }

    /// The balance of `addr` (zero when it has no account).
    pub open spec fn balance_of(&self, addr: Seq<u8>) -> nat {
        if self.accounts_map().contains_key(addr) {
            stored_balance(self.accounts_map()[addr])
        } else {
            0
        }
    }

    /// The nonce of `addr` (zero when it has no account).
    pub open spec fn nonce_of(&self, addr: Seq<u8>) -> nat {
        if self.accounts_map().contains_key(addr) {
            stored_nonce(self.accounts_map()[addr])
        } else {
            0
        }
    }

    /// The code of `addr`: what the code table holds under its code hash,
    /// unless that hash is the empty one; empty otherwise.
    pub open spec fn code_of(&self, addr: Seq<u8>) -> Seq<u8> {
        table_code(self.accounts_map(), self.contracts_map(), addr)
    }

    /// The value of slot `slot` of `addr` (zero when never written).
    pub open spec fn storage_of(&self, addr: Seq<u8>, slot: U256) -> nat {
        let k = storage_key_of(addr, slot);
        if self.storage_map().contains_key(k) {
            be_value(self.storage_map()[k])
        } else {
            0
        }
    }

    /// Create a new empty vsdb state database.
    pub fn new() -> (r: Self)
        ensures
            r.wf(),
            r.accounts_map() == empty_table(),
            r.contracts_map() == empty_table(),
            r.storage_map() == empty_table(),
            r.block_hash_map() == empty_table(),
    {
        VsdbStateDb {
            accounts: raw_map_new(),
            contracts: raw_map_new(),
            storage: raw_map_new(),
            block_hashes: raw_map_new(),
        }
    }

    /// Insert an account; its code, when it has non-empty code, goes into
    /// the code table under its code hash.
    pub fn insert_account(&mut self, addr: &Address, info: &AccountInfo)
        requires
            old(self).wf(),
            info.code matches Some(c) ==> c@.len() <= MAX_STORED_CODE,
        ensures
            final(self).wf(),
            final(self).accounts_map() == old(self).accounts_map().insert(addr@, stored_info(*info)),
            final(self).contracts_map() == contracts_after(old(self).contracts_map(), *info),
            final(self).storage_map() == old(self).storage_map(),
            final(self).block_hash_map() == old(self).block_hash_map(),
    {
        let ghost before = *self;
        let stored = encode_stored(&info.balance, info.nonce, &info.code_hash);
        raw_map_insert(&mut self.accounts, addr.bytes.as_slice(), &stored);
        match &info.code {
            Some(code) => {
                if code.len() > 0 {
                    raw_map_insert(&mut self.contracts, info.code_hash.bytes.as_slice(), code);
                }
            },
            None => {},
        }
        proof {
            assert forall|k: Seq<u8>| #[trigger]
                self.accounts_map().contains_key(k) implies self.accounts_map()[k].len() == 72 by {
                if k != addr@ {
                    assert(before.accounts_map().contains_key(k));
                }
            }
            assert forall|k: Seq<u8>| #[trigger]
                self.storage_map().contains_key(k) implies self.storage_map()[k].len() == 32 by {
                assert(before.storage_map().contains_key(k));
            }
            assert forall|k: Seq<u8>| #[trigger]
                self.block_hash_map().contains_key(k) implies self.block_hash_map()[k].len()
                == 32 by {
                assert(before.block_hash_map().contains_key(k));
            }
        }
    }

    /// Insert a storage slot.
    pub fn insert_storage(&mut self, addr: &Address, slot: &U256, value: &U256)
        requires
            old(self).wf(),
        ensures
            final(self).wf(),
            final(self).storage_map() == old(self).storage_map().insert(
                storage_key_of(addr@, *slot),
                value.to_be_bytes_spec(),
            ),
            final(self).accounts_map() == old(self).accounts_map(),
            final(self).contracts_map() == old(self).contracts_map(),
            final(self).block_hash_map() == old(self).block_hash_map(),
    {
        let ghost before = *self;
        let key = storage_key(addr, slot);
        let mut v: Vec<u8> = Vec::with_capacity(32);
        push_u256(&mut v, value);
        proof {
            lemma_be_bytes_of_value(*value);
        }
        raw_map_insert(&mut self.storage, key.as_slice(), &v);
        proof {
            assert forall|k: Seq<u8>| #[trigger]
                self.accounts_map().contains_key(k) implies self.accounts_map()[k].len() == 72 by {
                assert(before.accounts_map().contains_key(k));
            }
            assert forall|k: Seq<u8>| #[trigger]
                self.storage_map().contains_key(k) implies self.storage_map()[k].len() == 32 by {
                if k != key@ {
                    assert(before.storage_map().contains_key(k));
                }
            }
            assert forall|k: Seq<u8>| #[trigger]
                self.block_hash_map().contains_key(k) implies self.block_hash_map()[k].len()
                == 32 by {
                assert(before.block_hash_map().contains_key(k));
            }
        }
    }

    /// Insert a block hash.
    pub fn insert_block_hash(&mut self, number: u64, hash: &B256)
        requires
            old(self).wf(),
        ensures
            final(self).wf(),
            final(self).block_hash_map() == old(self).block_hash_map().insert(
                block_key(number),
                hash@,
            ),
            final(self).accounts_map() == old(self).accounts_map(),
            final(self).contracts_map() == old(self).contracts_map(),
            final(self).storage_map() == old(self).storage_map(),
    {
        let mut key: Vec<u8> = Vec::with_capacity(8);
        push_be8(&mut key, number);
        assert(key@ =~= be8(number));
        let ghost before = *self;
        let mut v: Vec<u8> = Vec::with_capacity(32);
        push_b256(&mut v, hash);
        assert(v@ =~= hash@);
        raw_map_insert(&mut self.block_hashes, key.as_slice(), &v);
        proof {
            assert forall|k: Seq<u8>| #[trigger]
                self.accounts_map().contains_key(k) implies self.accounts_map()[k].len() == 72 by {
                assert(before.accounts_map().contains_key(k));
            }
            assert forall|k: Seq<u8>| #[trigger]
                self.storage_map().contains_key(k) implies self.storage_map()[k].len() == 32 by {
                assert(before.storage_map().contains_key(k));
            }
            assert forall|k: Seq<u8>| #[trigger]
                self.block_hash_map().contains_key(k) implies self.block_hash_map()[k].len()
                == 32 by {
                if k != key@ {
                    assert(before.block_hash_map().contains_key(k));
                }
            }
        }
    }

    /// Get account info (with the default code).
    pub fn get_account(&self, addr: &Address) -> (r: Option<AccountInfo>)
        requires
            self.wf(),
        ensures
            match r {
                Some(info) => self.accounts_map().contains_key(addr@) && info@ == info_of_stored(
                    self.accounts_map()[addr@],
                ) && info.nonce == stored_nonce(self.accounts_map()[addr@]),
                None => !self.accounts_map().contains_key(addr@),
            },
    {
        match raw_map_get(&self.accounts, addr.bytes.as_slice()) {
            Some(v) => {
                assert(self.accounts_map().contains_key(addr@));
                let (balance, nonce, code_hash) = decode_stored(&v);
                Some(AccountInfo { balance, nonce, code_hash, code: Some(default_code()) })
            },
            None => None,
        }
    }

    /// Get account balance.
    pub fn get_balance(&self, addr: &Address) -> (r: U256)
        requires
            self.wf(),
        ensures
            r@ == self.balance_of(addr@),
    {
        match raw_map_get(&self.accounts, addr.bytes.as_slice()) {
            Some(v) => {
                assert(self.accounts_map().contains_key(addr@));
                decode_stored(&v).0
            },
            None => U256::zero(),
        }
    }

    /// Get account nonce.
    pub fn get_nonce(&self, addr: &Address) -> (r: u64)
        requires
            self.wf(),
        ensures
            r == self.nonce_of(addr@),
    {
        match raw_map_get(&self.accounts, addr.bytes.as_slice()) {
            Some(v) => {
                assert(self.accounts_map().contains_key(addr@));
                decode_stored(&v).1
            },
            None => 0,
        }
    }

    /// The code stored under `code_hash` unless it is the empty hash.
    fn code_for_hash(&self, code_hash: &B256) -> (r: Option<Vec<u8>>)
        ensures
            match r {
                Some(c) => code_hash@ != keccak_empty_bytes() && self.contracts_map().contains_key(
                    code_hash@,
                ) && c@ == self.contracts_map()[code_hash@],
                None => code_hash@ == keccak_empty_bytes() || !self.contracts_map().contains_key(
                    code_hash@,
                ),
            },
    {
        if code_hash.equals(&keccak_empty()) {
            None
        } else {
            raw_map_get(&self.contracts, code_hash.bytes.as_slice())
        }
    }

    /// Get account code bytes.
    pub fn get_code(&self, addr: &Address) -> (r: Vec<u8>)
        requires
            self.wf(),
        ensures
            r@ == self.code_of(addr@),
    {
        match raw_map_get(&self.accounts, addr.bytes.as_slice()) {
            Some(v) => {
                assert(self.accounts_map().contains_key(addr@));
                let (_, _, code_hash) = decode_stored(&v);
                match self.code_for_hash(&code_hash) {
                    Some(c) => c,
                    None => Vec::new(),
                }
            },
            None => Vec::new(),
        }
    }

    /// Get storage value at (address, slot).
    pub fn get_storage(&self, addr: &Address, slot: &U256) -> (r: U256)
        requires
            self.wf(),
        ensures
            r@ == self.storage_of(addr@, *slot),
    {
        let key = storage_key(addr, slot);
        match raw_map_get(&self.storage, key.as_slice()) {
            Some(v) => {
                assert(self.storage_map().contains_key(key@));
                U256::from_be_slice(v.as_slice())
            },
            None => U256::zero(),
        }
    }

    /// The stored account of `addr`, or the blank account.
    fn stored_or_default(&self, addr: &Address) -> (r: (U256, u64, B256))
        requires
            self.wf(),
        ensures
            stored_account(r.0.to_be_bytes_spec(), r.1, r.2@) == self.stored_or_blank(addr@),
    {
        match raw_map_get(&self.accounts, addr.bytes.as_slice()) {
            Some(v) => {
                assert(self.accounts_map().contains_key(addr@));
                let r = decode_stored(&v);
                assert(stored_account(r.0.to_be_bytes_spec(), r.1, r.2@) =~= v@);
                r
            },
            None => {
                let z = U256::zero();
                assert(z.to_be_bytes_spec() == u256_be_bytes(0, 0, 0, 0));
                (z, 0, keccak_empty())
            },
        }
    }

    /// Set account balance (creating a blank account when there is none).
    pub fn set_balance(&mut self, addr: &Address, balance: U256)
        requires
            old(self).wf(),
        ensures
            final(self).wf(),
            final(self).accounts_map() == old(self).accounts_map().insert(
                addr@,
                balance.to_be_bytes_spec() + old(self).stored_or_blank(addr@).subrange(32, 72),
            ),
            final(self).contracts_map() == old(self).contracts_map(),
            final(self).storage_map() == old(self).storage_map(),
            final(self).block_hash_map() == old(self).block_hash_map(),
    {
        let (old_balance, nonce, code_hash) = self.stored_or_default(addr);
        let stored = encode_stored(&balance, nonce, &code_hash);
        proof {
            lemma_be_bytes_of_value(old_balance);
            lemma_be_bytes_of_value(balance);
            let prev = stored_account(old_balance.to_be_bytes_spec(), nonce, code_hash@);
            assert(prev.subrange(32, 72) =~= be8(nonce) + code_hash@);
            assert(stored@ =~= balance.to_be_bytes_spec() + prev.subrange(32, 72));
        }
        let ghost before = *self;
        raw_map_insert(&mut self.accounts, addr.bytes.as_slice(), &stored);
        proof {
            assert forall|k: Seq<u8>| #[trigger]
                self.accounts_map().contains_key(k) implies self.accounts_map()[k].len() == 72 by {
                if k != addr@ {
                    assert(before.accounts_map().contains_key(k));
                }
            }
            assert forall|k: Seq<u8>| #[trigger]
                self.storage_map().contains_key(k) implies self.storage_map()[k].len() == 32 by {
                assert(before.storage_map().contains_key(k));
            }
            assert forall|k: Seq<u8>| #[trigger]
                self.block_hash_map().contains_key(k) implies self.block_hash_map()[k].len()
                == 32 by {
                assert(before.block_hash_map().contains_key(k));
            }
        }
    }

    /// Set account nonce (creating a blank account when there is none).
    pub fn set_nonce(&mut self, addr: &Address, nonce: u64)
        requires
            old(self).wf(),
        ensures
            final(self).wf(),
            final(self).accounts_map() == old(self).accounts_map().insert(
                addr@,
                old(self).stored_or_blank(addr@).subrange(0, 32) + be8(nonce) + old(
                    self,
                ).stored_or_blank(addr@).subrange(40, 72),
            ),
            final(self).contracts_map() == old(self).contracts_map(),
            final(self).storage_map() == old(self).storage_map(),
            final(self).block_hash_map() == old(self).block_hash_map(),
    {
        let (balance, old_nonce, code_hash) = self.stored_or_default(addr);
        let stored = encode_stored(&balance, nonce, &code_hash);
        proof {
            lemma_be_bytes_of_value(balance);
            lemma_be8(old_nonce);
            let prev = stored_account(balance.to_be_bytes_spec(), old_nonce, code_hash@);
            assert(prev.subrange(0, 32) =~= balance.to_be_bytes_spec());
            assert(prev.subrange(40, 72) =~= code_hash@);
            assert(stored@ =~= prev.subrange(0, 32) + be8(nonce) + prev.subrange(40, 72));
        }
        let ghost before = *self;
        raw_map_insert(&mut self.accounts, addr.bytes.as_slice(), &stored);
        proof {
            assert forall|k: Seq<u8>| #[trigger]
                self.accounts_map().contains_key(k) implies self.accounts_map()[k].len() == 72 by {
                if k != addr@ {
                    assert(before.accounts_map().contains_key(k));
                }
            }
            assert forall|k: Seq<u8>| #[trigger]
                self.storage_map().contains_key(k) implies self.storage_map()[k].len() == 32 by {
                assert(before.storage_map().contains_key(k));
            }
            assert forall|k: Seq<u8>| #[trigger]
                self.block_hash_map().contains_key(k) implies self.block_hash_map()[k].len()
                == 32 by {
                assert(before.block_hash_map().contains_key(k));
            }
        }
    }

    /// Account information as the EVM loads it: the stored account, with
    /// its code attached when the code table holds code for its (non-empty)
    /// code hash. Never fails.
    pub fn basic(&self, address: &Address) -> (r: Result<Option<AccountInfo>, VsdbError>)
        requires
            self.wf(),
        ensures
            match r {
                Ok(Some(info)) => self.accounts_map().contains_key(address@) && {
                    let v = self.accounts_map()[address@];
                    let h = stored_code_hash(v);
                    &&& info.balance@ == stored_balance(v)
                    &&& info.nonce == stored_nonce(v)
                    &&& info.code_hash@ == h
                    &&& info@.code == if h != keccak_empty_bytes()
                        && self.contracts_map().contains_key(h) {
                        Some(self.contracts_map()[h])
                    } else {
                        Some(seq![0u8])
                    }
                },
                Ok(None) => !self.accounts_map().contains_key(address@),
                Err(_) => false,
            },
    {
        match self.get_account(address) {
            Some(mut info) => {
                match self.code_for_hash(&info.code_hash) {
                    Some(c) => {
                        info.code = Some(c);
                    },
                    None => {},
                }
                Ok(Some(info))
            },
            None => Ok(None),
        }
    }

    /// The code stored under `code_hash`; `None` when there is none.
    pub fn code_by_hash(&self, code_hash: &B256) -> (r: Option<Vec<u8>>)
        ensures
            match r {
                Some(c) => self.contracts_map().contains_key(code_hash@) && c@
                    == self.contracts_map()[code_hash@],
                None => !self.contracts_map().contains_key(code_hash@),
            },
    {
        raw_map_get(&self.contracts, code_hash.bytes.as_slice())
    }

    /// The value of slot `index` of `address`, zero when never written.
    pub fn storage(&self, address: &Address, index: &U256) -> (r: U256)
        requires
            self.wf(),
        ensures
            r@ == self.storage_of(address@, *index),
    {
        self.get_storage(address, index)
    }

    /// The hash of block `number`, all zeros when unknown.
    pub fn block_hash(&self, number: u64) -> (r: B256)
        requires
            self.wf(),
        ensures
            r@ == (if self.block_hash_map().contains_key(block_key(number)) {
                self.block_hash_map()[block_key(number)]
            } else {
                Seq::new(32, |i: int| 0u8)
            }),
    {
        let mut key: Vec<u8> = Vec::with_capacity(8);
        push_be8(&mut key, number);
        assert(key@ =~= be8(number));
        match raw_map_get(&self.block_hashes, key.as_slice()) {
            Some(v) => {
                assert(self.block_hash_map().contains_key(key@));
                let mut bytes = [0u8; 32];
                let mut i: usize = 0;
                while i < 32
                    invariant
                        v@.len() == 32,
                        0 <= i <= 32,
                        forall|j: int| 0 <= j < i ==> bytes@[j] == v@[j],
                    decreases 32 - i,
                {
                    bytes[i] = v[i];
                    i = i + 1;
                }
                assert(bytes@ =~= v@);
                B256::from_bytes(bytes)
            },
            None => B256::zero(),
        }
    }
}

/// Build composite storage key: address(20) || slot(32) = 52 bytes.
fn storage_key(addr: &Address, slot: &U256) -> (r: Vec<u8>)
    ensures
        r@ == storage_key_of(addr@, *slot),
{
    let mut key: Vec<u8> = Vec::with_capacity(52);
    key.extend_from_slice(addr.bytes.as_slice());
    push_u256(&mut key, slot);
    key
}

// ---------------------------------------------------------------------------
// Genesis
// ---------------------------------------------------------------------------

/// What `alloy_primitives::keccak256` gives for `b`: its Keccak-256 digest.
pub uninterp spec fn spec_keccak256(b: Seq<u8>) -> Seq<u8>;

/// `alloy_primitives::keccak256`: the 32-byte Keccak-256 digest of `b`, a
/// function of the bytes alone.
#[verifier::external_body]
fn keccak256_of(b: &[u8]) -> (r: B256)
    ensures
        r@ == spec_keccak256(b@),
{
    B256::from_bytes(alloy_primitives::keccak256(b).0)
}

/// Code that revm can load: anything but a malformed EIP-7702 delegation
/// (bytes that start with 0xEF 0x01 but are not 23 bytes long with
/// version 0). revm panics when it is asked to run such code.
pub open spec fn loadable_code(raw: Seq<u8>) -> bool {
    !(raw.len() >= 2 && raw[0] == 0xefu8 && raw[1] == 0x01u8) || (raw.len() == 23 && raw[2]
        == 0u8)
}

/// The code genesis gives an allocation: the default code (a single STOP)
/// when it has none, else its code.
pub open spec fn genesis_code(code: Seq<u8>) -> Seq<u8> {
    if code.len() == 0 {
        seq![0u8]
    } else {
        code
    }
}

/// The code hash genesis gives an allocation: the empty code hash when it
/// has no code, else the Keccak-256 hash of its code.
pub open spec fn genesis_code_hash(code: Seq<u8>) -> Seq<u8> {
    if code.len() == 0 {
        keccak_empty_bytes()
    } else {
        spec_keccak256(code)
    }
}

/// The account genesis creates for `alloc`: its balance and nonce, its
/// code and that code's hash.
pub open spec fn genesis_info(alloc: GenesisAlloc) -> AccountInfoView {
    AccountInfoView {
        balance: alloc.balance@,
        nonce: alloc.nonce,
        code_hash: genesis_code_hash(alloc.code@),
        code: Some(genesis_code(alloc.code@)),
    }
}

/// The account information genesis creates for an allocation.
pub fn genesis_account_info(alloc: &GenesisAlloc) -> (r: AccountInfo)
    ensures
        r@ == genesis_info(*alloc),
{
    if alloc.code.len() == 0 {
        AccountInfo {
            balance: alloc.balance,
            nonce: alloc.nonce,
            code_hash: keccak_empty(),
            code: Some(default_code()),
        }
    } else {
        AccountInfo {
            balance: alloc.balance,
            nonce: alloc.nonce,
            code_hash: keccak256_of(alloc.code.as_slice()),
            code: Some(alloc.code.clone()),
        }
    }
}

/// Code that a genesis allocation may carry: revm can load it, and it fits
/// the code table.
pub open spec fn alloc_code_ok(code: Seq<u8>) -> bool {
    loadable_code(code) && code.len() <= MAX_STORED_CODE
}

/// Every allocation's code can be loaded and stored.
pub open spec fn genesis_loadable(allocs: Seq<(Address, GenesisAlloc)>) -> bool {
    forall|i: int| 0 <= i < allocs.len() ==> alloc_code_ok(#[trigger] allocs[i].1.code@)
}

/// The account table after writing the allocations in order.
pub open spec fn genesis_accounts(m: Map<Seq<u8>, Seq<u8>>, allocs: Seq<(Address, GenesisAlloc)>) -> Map<
    Seq<u8>,
    Seq<u8>,
>
    decreases allocs.len(),
{
    if allocs.len() == 0 {
        m
    } else {
        let (addr, alloc) = allocs.last();
        genesis_accounts(m, allocs.drop_last()).insert(
            addr@,
            stored_account(
                alloc.balance.to_be_bytes_spec(),
                alloc.nonce,
                genesis_code_hash(alloc.code@),
            ),
        )
    }
}

/// The code table after writing the allocations in order: each one's code
/// goes under its code hash.
pub open spec fn genesis_contracts(
    m: Map<Seq<u8>, Seq<u8>>,
    allocs: Seq<(Address, GenesisAlloc)>,
) -> Map<Seq<u8>, Seq<u8>>
    decreases allocs.len(),
{
    if allocs.len() == 0 {
        m
    } else {
        let code = allocs.last().1.code@;
        genesis_contracts(m, allocs.drop_last()).insert(
            genesis_code_hash(code),
            genesis_code(code),
        )
    }
}

/// The storage table after writing one account's slots in order.
pub open spec fn slots_written(
    m: Map<Seq<u8>, Seq<u8>>,
    addr: Seq<u8>,
    slots: Seq<(U256, U256)>,
) -> Map<Seq<u8>, Seq<u8>>
    decreases slots.len(),
{
    if slots.len() == 0 {
        m
    } else {
        slots_written(m, addr, slots.drop_last()).insert(
            storage_key_of(addr, slots.last().0),
            slots.last().1.to_be_bytes_spec(),
        )
    }
}

/// The storage table after writing the allocations' slots in order.
pub open spec fn genesis_storage(m: Map<Seq<u8>, Seq<u8>>, allocs: Seq<(Address, GenesisAlloc)>) -> Map<
    Seq<u8>,
    Seq<u8>,
>
    decreases allocs.len(),
{
    if allocs.len() == 0 {
        m
    } else {
        slots_written(
            genesis_storage(m, allocs.drop_last()),
            allocs.last().0@,
            allocs.last().1.storage@,
        )
    }
}

/// After genesis, an allocation with code reads back that code: its
/// account names the code's hash and the code table holds the code under
/// it. `requires` leaves out a later allocation at the same address, a
/// later allocation with other code under the same hash, and code whose
/// hash is the empty code hash (the last two take a Keccak-256 collision).
pub proof fn law_genesis_code_readable(
    accounts: Map<Seq<u8>, Seq<u8>>,
    contracts: Map<Seq<u8>, Seq<u8>>,
    allocs: Seq<(Address, GenesisAlloc)>,
    i: int,
)
    requires
        0 <= i < allocs.len(),
        allocs[i].1.code@.len() > 0,
        spec_keccak256(allocs[i].1.code@).len() == 32,
        spec_keccak256(allocs[i].1.code@) != keccak_empty_bytes(),
        forall|j: int| i < j < allocs.len() ==> (#[trigger] allocs[j]).0@ != allocs[i].0@,
        forall|j: int|
            i < j < allocs.len() && genesis_code_hash((#[trigger] allocs[j]).1.code@)
                == spec_keccak256(allocs[i].1.code@) ==> allocs[j].1.code@ == allocs[i].1.code@,
    ensures
        table_code(
            genesis_accounts(accounts, allocs),
            genesis_contracts(contracts, allocs),
            allocs[i].0@,
        ) == allocs[i].1.code@,
        genesis_accounts(accounts, allocs).contains_key(allocs[i].0@),
        stored_code_hash(genesis_accounts(accounts, allocs)[allocs[i].0@]) == spec_keccak256(
            allocs[i].1.code@,
        ),
        genesis_contracts(contracts, allocs).contains_key(spec_keccak256(allocs[i].1.code@)),
        genesis_contracts(contracts, allocs)[spec_keccak256(allocs[i].1.code@)] == allocs[i].1.code@,
    decreases allocs.len(),
{
    let code = allocs[i].1.code@;
    let h = spec_keccak256(code);
    let a = genesis_accounts(accounts, allocs);
    let c = genesis_contracts(contracts, allocs);
    let last = allocs.last();
    if i == allocs.len() - 1 {
        let st = stored_account(last.1.balance.to_be_bytes_spec(), last.1.nonce, h);
        assert(a[allocs[i].0@] == st);
        assert(stored_code_hash(st) =~= h);
        assert(c[h] == code);
    } else {
        let p = allocs.drop_last();
        assert(p[i] == allocs[i]);
        assert forall|j: int| i < j < p.len() implies (#[trigger] p[j]).0@ != p[i].0@ by {
            assert(p[j] == allocs[j]);
        }
        assert forall|j: int|
            i < j < p.len() && genesis_code_hash((#[trigger] p[j]).1.code@) == spec_keccak256(
                p[i].1.code@,
            ) implies p[j].1.code@ == p[i].1.code@ by {
            assert(p[j] == allocs[j]);
        }
        law_genesis_code_readable(accounts, contracts, p, i);
        let pa = genesis_accounts(accounts, p);
        let pc = genesis_contracts(contracts, p);
        assert(allocs[allocs.len() - 1] == last);
        assert(last.0@ != allocs[i].0@);
        assert(a[allocs[i].0@] == pa[allocs[i].0@]);
        if genesis_code_hash(last.1.code@) == h {
            assert(last.1.code@ == code);
        }
    }
}

/// The state-trie leaf of a genesis allocation.
pub open spec fn genesis_leaf(alloc: GenesisAlloc) -> Seq<u8> {
    be8(alloc.nonce) + alloc.balance.to_be_bytes_spec() + genesis_code_hash(alloc.code@)
}

impl VsdbStateDb {
    /// Writes one account's storage slots in order.
    fn write_slots(&mut self, addr: &Address, slots: &Vec<(U256, U256)>)
        requires
            old(self).wf(),
        ensures
            final(self).wf(),
            final(self).storage_map() == slots_written(old(self).storage_map(), addr@, slots@),
            final(self).accounts_map() == old(self).accounts_map(),
            final(self).contracts_map() == old(self).contracts_map(),
            final(self).block_hash_map() == old(self).block_hash_map(),
    {
        let ghost start = *self;
        let mut j: usize = 0;
        while j < slots.len()
            invariant
                j <= slots@.len(),
                self.wf(),
                self.storage_map() == slots_written(
                    start.storage_map(),
                    addr@,
                    slots@.subrange(0, j as int),
                ),
                self.accounts_map() == start.accounts_map(),
                self.contracts_map() == start.contracts_map(),
                self.block_hash_map() == start.block_hash_map(),
            decreases slots@.len() - j,
        {
            let (slot, value) = slots[j];
            self.insert_storage(addr, &slot, &value);
            proof {
                let sub = slots@.subrange(0, j + 1);
                assert(sub.drop_last() =~= slots@.subrange(0, j as int));
                assert(sub.last() == slots@[j as int]);
            }
            j = j + 1;
        }
        assert(slots@.subrange(0, slots@.len() as int) =~= slots@);
    }

    /// Writes one genesis allocation: its account, then its slots.
    /// Returns its state-trie leaf.
    #[verifier::spinoff_prover]
    #[verifier::rlimit(30)]
    fn load_alloc(&mut self, addr: &Address, alloc: &GenesisAlloc) -> (leaf: Vec<u8>)
        requires
            old(self).wf(),
            alloc_code_ok(alloc.code@),
        ensures
            final(self).wf(),
            final(self).accounts_map() == old(self).accounts_map().insert(
                addr@,
                stored_account(
                    alloc.balance.to_be_bytes_spec(),
                    alloc.nonce,
                    genesis_code_hash(alloc.code@),
                ),
            ),
            final(self).contracts_map() == old(self).contracts_map().insert(
                genesis_code_hash(alloc.code@),
                genesis_code(alloc.code@),
            ),
            final(self).storage_map() == slots_written(old(self).storage_map(), addr@, alloc.storage@),
            final(self).block_hash_map() == old(self).block_hash_map(),
            leaf@ == genesis_leaf(*alloc),
    {
        let info = genesis_account_info(alloc);
        let ghost before = *self;
        assert(stored_info(info) == stored_account(
            alloc.balance.to_be_bytes_spec(),
            alloc.nonce,
            genesis_code_hash(alloc.code@),
        ));
        assert(genesis_code(alloc.code@).len() > 0);
        assert(contracts_after(before.contracts_map(), info) == before.contracts_map().insert(
            genesis_code_hash(alloc.code@),
            genesis_code(alloc.code@),
        ));
        self.insert_account(addr, &info);
        self.write_slots(addr, &alloc.storage);
        let leaf = encode_account_leaf(&info);
        assert(leaf@ =~= genesis_leaf(*alloc));
        leaf
    }

    /// Writes the genesis allocations in order: each account, then its
    /// storage slots. Returns each allocation's address with its state-trie
    /// leaf, in the same order.
    pub fn load_genesis(&mut self, genesis: &EvmGenesis) -> (leaves: Vec<(Address, Vec<u8>)>)
        requires
            old(self).wf(),
            genesis_loadable(genesis.alloc@),
        ensures
            final(self).wf(),
            final(self).accounts_map() == genesis_accounts(
                old(self).accounts_map(),
                genesis.alloc@,
            ),
            final(self).contracts_map() == genesis_contracts(
                old(self).contracts_map(),
                genesis.alloc@,
            ),
            final(self).storage_map() == genesis_storage(old(self).storage_map(), genesis.alloc@),
            final(self).block_hash_map() == old(self).block_hash_map(),
            leaves@.len() == genesis.alloc@.len(),
            forall|i: int|
                0 <= i < leaves@.len() ==> (#[trigger] leaves@[i]).0 == genesis.alloc@[i].0
                    && leaves@[i].1@ == genesis_leaf(genesis.alloc@[i].1),
    {
        let ghost start = *self;
        let ghost allocs = genesis.alloc@;
        let mut leaves: Vec<(Address, Vec<u8>)> = Vec::new();
        let mut i: usize = 0;
        while i < genesis.alloc.len()
            invariant
                allocs == genesis.alloc@,
                genesis_loadable(allocs),
                i <= allocs.len(),
                self.wf(),
                self.accounts_map() == genesis_accounts(
                    start.accounts_map(),
                    allocs.subrange(0, i as int),
                ),
                self.contracts_map() == genesis_contracts(
                    start.contracts_map(),
                    allocs.subrange(0, i as int),
                ),
                self.storage_map() == genesis_storage(
                    start.storage_map(),
                    allocs.subrange(0, i as int),
                ),
                self.block_hash_map() == start.block_hash_map(),
                leaves@.len() == i,
                forall|k: int|
                    0 <= k < i ==> (#[trigger] leaves@[k]).0 == allocs[k].0 && leaves@[k].1@
                        == genesis_leaf(allocs[k].1),
            decreases allocs.len() - i,
        {
            let addr = genesis.alloc[i].0;
            assert(alloc_code_ok(allocs[i as int].1.code@));
            let leaf = self.load_alloc(&addr, &genesis.alloc[i].1);
            leaves.push((addr, leaf));
            proof {
                let sub = allocs.subrange(0, i + 1);
                assert(sub.drop_last() =~= allocs.subrange(0, i as int));
                assert(sub.last() == allocs[i as int]);
            }
            i = i + 1;
        }
        assert(allocs.subrange(0, allocs.len() as int) =~= allocs);
        leaves
    }
}

/// The chain configuration a genesis document sets: its chain id, gas
/// limit and base fee, with the defaults for the rest.
pub fn genesis_chain_config(genesis: &EvmGenesis) -> (r: EvmChainConfig)
    ensures
        r.chain_id == genesis.chain_id,
        r.block_gas_limit == genesis.gas_limit,
        r.base_fee_per_gas == genesis.base_fee_per_gas,
        r.compat_profile == CompatProfile::Modern,
        r.min_base_fee == 1_000_000_000,
        r.base_fee_change_denominator == 8,
        r.elasticity_multiplier == 2,
{
    let d = EvmChainConfig::default();
    EvmChainConfig {
        chain_id: genesis.chain_id,
        block_gas_limit: genesis.gas_limit,
        base_fee_per_gas: genesis.base_fee_per_gas,
        ..d
    }
}

/// The 32-byte state root made of a trie root hash: its first 32 bytes,
/// padded with zeros when it is shorter.
pub fn state_root_bytes(root: &[u8]) -> (r: [u8; 32])
    ensures
        forall|i: int| 0 <= i < 32 ==> #[trigger] r@[i] == if i < root@.len() {
            root@[i]
        } else {
            0u8
        },
{
    let mut arr = [0u8; 32];
    let len = if root.len() < 32 {
        root.len()
    } else {
        32
    };
    let mut i: usize = 0;
    while i < len
        invariant
            len <= 32,
            len <= root@.len(),
            len == root@.len() || len == 32,
            i <= len,
            forall|j: int| 0 <= j < i ==> arr@[j] == root@[j],
            forall|j: int| i <= j < 32 ==> arr@[j] == 0u8,
        decreases len - i,
    {
        arr[i] = root[i];
        i = i + 1;
    }
    arr
}

// ---------------------------------------------------------------------------
// Recent block hashes
// ---------------------------------------------------------------------------

/// How many recent block hashes are kept in memory.
pub const BLOCK_HASH_WINDOW: usize = 256;

/// Keys strictly ascending.
pub open spec fn keys_ascending(s: Seq<(u64, Seq<u8>)>) -> bool {
    forall|i: int, j: int| 0 <= i < j < s.len() ==> (#[trigger] s[i]).0 < (#[trigger] s[j]).0
}

/// How many entries have a key below `n`.
pub open spec fn count_below(s: Seq<(u64, Seq<u8>)>, n: u64) -> nat
    decreases s.len(),
{
    if s.len() == 0 {
        0
    } else {
        count_below(s.drop_last(), n) + if s.last().0 < n {
            1nat
        } else {
            0nat
        }
    }
}

/// The entries after recording `hash` for block `n`: an entry for `n` is
/// replaced in place; otherwise the new entry goes in key order and, when
/// that makes more than 256 entries, the oldest one (lowest number) is
/// dropped.
pub open spec fn window_after(s: Seq<(u64, Seq<u8>)>, n: u64, hash: Seq<u8>) -> Seq<
    (u64, Seq<u8>),
> {
    let p = count_below(s, n) as int;
    if p < s.len() && s[p].0 == n {
        s.update(p, (n, hash))
    } else {
        let t = s.insert(p, (n, hash));
        if t.len() > BLOCK_HASH_WINDOW {
            t.drop_first()
        } else {
            t
        }
    }
}

/// The hash kept for block `n`, if any.
pub open spec fn window_lookup(s: Seq<(u64, Seq<u8>)>, n: u64) -> Option<Seq<u8>> {
    if exists|i: int| 0 <= i < s.len() && (#[trigger] s[i]).0 == n {
        Some(s[choose|i: int| 0 <= i < s.len() && (#[trigger] s[i]).0 == n].1)
    } else {
        None
    }
}

proof fn lemma_count_below(s: Seq<(u64, Seq<u8>)>, n: u64)
    requires
        keys_ascending(s),
    ensures
        count_below(s, n) <= s.len(),
        forall|i: int| 0 <= i < count_below(s, n) ==> (#[trigger] s[i]).0 < n,
        forall|i: int| count_below(s, n) <= i < s.len() ==> (#[trigger] s[i]).0 >= n,
    decreases s.len(),
{
    if s.len() > 0 {
        let t = s.drop_last();
        assert(keys_ascending(t)) by {
            assert forall|i: int, j: int| 0 <= i < j < t.len() implies (#[trigger] t[i]).0 < (
            #[trigger] t[j]).0 by {
                assert(t[i] == s[i] && t[j] == s[j]);
            }
        }
        lemma_count_below(t, n);
        if s.last().0 < n {
            assert forall|i: int| 0 <= i < count_below(s, n) implies (#[trigger] s[i]).0 < n by {
                if i < s.len() - 1 {
                    assert(s[i] == t[i]);
                }
            }
            assert(count_below(t, n) == t.len()) by {
                if count_below(t, n) < t.len() {
                    let k = count_below(t, n) as int;
                    assert(t[k].0 >= n);
                    assert(s[k].0 < s[s.len() - 1].0);
                }
            }
        } else {
            assert forall|i: int| 0 <= i < count_below(s, n) implies (#[trigger] s[i]).0 < n by {
                assert(s[i] == t[i]);
            }
            assert forall|i: int| count_below(s, n) <= i < s.len() implies (#[trigger] s[i]).0
                >= n by {
                if i < s.len() - 1 {
                    assert(s[i] == t[i]);
                }
            }
        }
    }
}

/// The hashes of recent blocks, oldest first, at most 256 of them.
#[derive(Debug)]
pub struct BlockHashWindow {
    entries: Vec<(u64, B256)>,
}

impl BlockHashWindow {
    /// The kept (block number, hash) pairs in ascending block order.
    pub closed spec fn entries_seq(&self) -> Seq<(u64, Seq<u8>)> {
        Seq::new(self.entries@.len(), |i: int| (self.entries@[i].0, self.entries@[i].1@))
    }

    /// Ascending block numbers, at most 256 entries.
    pub open spec fn wf(&self) -> bool {
        &&& keys_ascending(self.entries_seq())
        &&& self.entries_seq().len() <= BLOCK_HASH_WINDOW
    }

    /// An empty window.
    pub fn new() -> (r: Self)
        ensures
            r.wf(),
            r.entries_seq().len() == 0,
    {
        let r = BlockHashWindow { entries: Vec::new() };
        assert(r.entries_seq() =~= Seq::<(u64, Seq<u8>)>::empty());
        r
    }

    /// How many hashes are kept.
    pub fn len(&self) -> (r: usize)
        ensures
            r == self.entries_seq().len(),
    {
        self.entries.len()
    }

    /// The hash kept for block `number`.
    pub fn get(&self, number: u64) -> (r: Option<B256>)
        requires
            self.wf(),
        ensures
            match r {
                Some(h) => window_lookup(self.entries_seq(), number) == Some(h@),
                None => window_lookup(self.entries_seq(), number) is None,
            },
    {
        let ghost s = self.entries_seq();
        let mut i: usize = 0;
        while i < self.entries.len()
            invariant
                s == self.entries_seq(),
                keys_ascending(s),
                i <= s.len(),
                forall|j: int| 0 <= j < i ==> (#[trigger] s[j]).0 != number,
            decreases s.len() - i,
        {
            if self.entries[i].0 == number {
                assert(s[i as int].0 == number);
                proof {
                    let c = choose|j: int| 0 <= j < s.len() && (#[trigger] s[j]).0 == number;
                    if c != i {
                        if c < i {
                            assert(s[c].0 < s[i as int].0);
                        } else {
                            assert(s[i as int].0 < s[c].0);
                        }
                    }
                }
                return Some(self.entries[i].1);
            }
            i = i + 1;
        }
        None
    }

    /// Record the hash of block `number` (see `window_after`).
    pub fn record(&mut self, number: u64, hash: B256)
        requires
            old(self).wf(),
        ensures
            final(self).wf(),
            final(self).entries_seq() == window_after(old(self).entries_seq(), number, hash@),
    {
        let ghost s = self.entries_seq();
        proof {
            lemma_count_below(s, number);
        }
        let mut p: usize = 0;
        while p < self.entries.len() && self.entries[p].0 < number
            invariant
                s == self.entries_seq(),
                keys_ascending(s),
                count_below(s, number) <= s.len(),
                forall|i: int| 0 <= i < count_below(s, number) ==> (#[trigger] s[i]).0 < number,
                forall|i: int| count_below(s, number) <= i < s.len() ==> (#[trigger] s[i]).0
                    >= number,
                p <= count_below(s, number),
            decreases s.len() - p,
        {
            assert(s[p as int].0 < number);
            p = p + 1;
        }
        assert(p == count_below(s, number)) by {
            if p < count_below(s, number) {
                assert(s[p as int].0 < number);
            }
        }
        if p < self.entries.len() && self.entries[p].0 == number {
            self.entries.set(p, (number, hash));
            assert(self.entries_seq() =~= s.update(p as int, (number, hash@)));
            assert(keys_ascending(self.entries_seq())) by {
                let t = self.entries_seq();
                assert forall|i: int, j: int| 0 <= i < j < t.len() implies (#[trigger] t[i]).0 < (
                #[trigger] t[j]).0 by {
                    assert(s[i].0 < s[j].0);
                }
            }
        } else {
            self.entries.insert(p, (number, hash));
            let ghost t = s.insert(p as int, (number, hash@));
            assert(self.entries_seq() =~= t);
            assert(keys_ascending(t)) by {
                assert forall|i: int, j: int| 0 <= i < j < t.len() implies (#[trigger] t[i]).0 < (
                #[trigger] t[j]).0 by {
                    if j < p {
                        assert(s[i].0 < s[j].0);
                    } else if j == p {
                        assert(s[i].0 < number);
                    } else if i < p {
                        assert(s[i].0 < number);
                        assert(s[j - 1].0 >= number);
                        assert(s[j - 1].0 != number || j - 1 != p);
                        if j - 1 > p {
                            assert(s[p as int].0 < s[j - 1].0);
                            assert(s[p as int].0 >= number);
                        } else {
                            assert(s[p as int].0 != number);
                        }
                    } else if i == p {
                        assert(s[j - 1].0 >= number);
                        if j - 1 > p {
                            assert(s[p as int].0 < s[j - 1].0);
                        } else {
                            assert(s[p as int].0 != number);
                        }
                    } else {
                        assert(s[i - 1].0 < s[j - 1].0);
                    }
                }
            }
            if self.entries.len() > BLOCK_HASH_WINDOW {
                self.entries.remove(0);
                assert(self.entries_seq() =~= t.drop_first());
                assert(keys_ascending(t.drop_first())) by {
                    let u = t.drop_first();
                    assert forall|i: int, j: int| 0 <= i < j < u.len() implies (#[trigger] u[i]).0
                        < (#[trigger] u[j]).0 by {
                        assert(t[i + 1].0 < t[j + 1].0);
                    }
                }
            }
        }
    }
}

/// Recording a block hash never makes the window hold more than 256
/// hashes, and the recorded hash is kept unless the window was full and
/// every kept block is newer than the recorded one.
pub proof fn law_window_keeps_recent(s: Seq<(u64, Seq<u8>)>, n: u64, hash: Seq<u8>)
    requires
        keys_ascending(s),
        s.len() <= BLOCK_HASH_WINDOW,
    ensures
        window_after(s, n, hash).len() <= BLOCK_HASH_WINDOW,
        keys_ascending(window_after(s, n, hash)),
        window_lookup(window_after(s, n, hash), n) == Some(hash) || (s.len() == BLOCK_HASH_WINDOW
            && forall|i: int| 0 <= i < s.len() ==> n < (#[trigger] s[i]).0),
{
    lemma_count_below(s, n);
    let p = count_below(s, n) as int;
    let w = window_after(s, n, hash);
    if p < s.len() && s[p].0 == n {
        assert(w[p].0 == n);
        assert(keys_ascending(w)) by {
            assert forall|i: int, j: int| 0 <= i < j < w.len() implies (#[trigger] w[i]).0 < (
            #[trigger] w[j]).0 by {
                assert(s[i].0 < s[j].0);
            }
        }
        lemma_lookup_unique(w, n, p);
    } else {
        let t = s.insert(p, (n, hash));
        assert(keys_ascending(t)) by {
            assert forall|i: int, j: int| 0 <= i < j < t.len() implies (#[trigger] t[i]).0 < (
            #[trigger] t[j]).0 by {
                if j < p {
                    assert(s[i].0 < s[j].0);
                } else if j == p {
                    assert(s[i].0 < n);
                } else if i < p {
                    assert(s[i].0 < n);
                    if j - 1 > p {
                        assert(s[p].0 < s[j - 1].0);
                    }
                } else if i == p {
                    if j - 1 > p {
                        assert(s[p].0 < s[j - 1].0);
                    }
                } else {
                    assert(s[i - 1].0 < s[j - 1].0);
                }
            }
        }
        if t.len() > BLOCK_HASH_WINDOW {
            let u = t.drop_first();
            assert(keys_ascending(u)) by {
                assert forall|i: int, j: int| 0 <= i < j < u.len() implies (#[trigger] u[i]).0 < (
                #[trigger] u[j]).0 by {
                    assert(t[i + 1].0 < t[j + 1].0);
                }
            }
            if p > 0 {
                assert(u[p - 1].0 == n);
                lemma_lookup_unique(u, n, p - 1);
            } else {
                assert forall|i: int| 0 <= i < s.len() implies n < (#[trigger] s[i]).0 by {
                    assert(s[i].0 >= n);
                    if s[i].0 == n {
                        if i > 0 {
                            assert(s[0].0 < s[i].0);
                            assert(s[0].0 >= n);
                        }
                    }
                }
            }
        } else {
            assert(t[p].0 == n);
            lemma_lookup_unique(t, n, p);
        }
    }
}

/// Whether block `m` was recorded in `rs`.
pub open spec fn recorded(rs: Seq<(u64, Seq<u8>)>, m: u64) -> bool {
    exists|i: int| 0 <= i < rs.len() && (#[trigger] rs[i]).0 == m
}

/// The hash last recorded for block `m` in `rs`.
pub open spec fn last_hash(rs: Seq<(u64, Seq<u8>)>, m: u64) -> Seq<u8>
    decreases rs.len(),
{
    if rs.len() == 0 {
        Seq::empty()
    } else if rs.last().0 == m {
        rs.last().1
    } else {
        last_hash(rs.drop_last(), m)
    }
}

/// The window after recording `rs` in order, starting empty.
pub open spec fn window_of(rs: Seq<(u64, Seq<u8>)>) -> Seq<(u64, Seq<u8>)>
    decreases rs.len(),
{
    if rs.len() == 0 {
        Seq::empty()
    } else {
        window_after(window_of(rs.drop_last()), rs.last().0, rs.last().1)
    }
}

/// Whether the window keeps block `m`.
pub open spec fn in_window(w: Seq<(u64, Seq<u8>)>, m: u64) -> bool {
    exists|i: int| 0 <= i < w.len() && (#[trigger] w[i]).0 == m
}

/// `w` holds the latest of the blocks recorded in `rs`: each kept block was
/// recorded, with its last recorded hash, and a recorded block is missing
/// only when 256 are kept, all of them newer.
pub open spec fn holds_latest(rs: Seq<(u64, Seq<u8>)>, w: Seq<(u64, Seq<u8>)>) -> bool {
    &&& keys_ascending(w)
    &&& w.len() <= BLOCK_HASH_WINDOW
    &&& forall|i: int|
        0 <= i < w.len() ==> recorded(rs, (#[trigger] w[i]).0) && w[i].1 == last_hash(rs, w[i].0)
    &&& forall|m: u64|
        #[trigger] recorded(rs, m) && !in_window(w, m) ==> w.len() == BLOCK_HASH_WINDOW && forall|
            i: int,
        | 0 <= i < w.len() ==> m < (#[trigger] w[i]).0
}

proof fn lemma_recorded_push(rs: Seq<(u64, Seq<u8>)>, n: u64, h: Seq<u8>, m: u64)
    ensures
        recorded(rs.push((n, h)), m) <==> (recorded(rs, m) || m == n),
        last_hash(rs.push((n, h)), m) == if m == n {
            h
        } else {
            last_hash(rs, m)
        },
{
    let r2 = rs.push((n, h));
    assert(r2.drop_last() =~= rs);
    if recorded(rs, m) {
        let i = choose|i: int| 0 <= i < rs.len() && (#[trigger] rs[i]).0 == m;
        assert(r2[i] == rs[i]);
    }
    if m == n {
        assert(r2[rs.len() as int].0 == m);
    }
    if recorded(r2, m) && m != n {
        let i = choose|i: int| 0 <= i < r2.len() && (#[trigger] r2[i]).0 == m;
        assert(rs[i] == r2[i]);
    }
}

proof fn lemma_window_step(rs: Seq<(u64, Seq<u8>)>, w: Seq<(u64, Seq<u8>)>, n: u64, h: Seq<u8>)
    requires
        holds_latest(rs, w),
    ensures
        holds_latest(rs.push((n, h)), window_after(w, n, h)),
{
    let r2 = rs.push((n, h));
    let w2 = window_after(w, n, h);
    law_window_keeps_recent(w, n, h);
    lemma_count_below(w, n);
    let p = count_below(w, n) as int;
    assert forall|m: u64| #![trigger recorded(r2, m)] #![trigger last_hash(r2, m)]
        true implies (recorded(r2, m) <==> (recorded(rs, m) || m == n)) && last_hash(r2, m) == if m
        == n {
        h
    } else {
        last_hash(rs, m)
    } by {
        lemma_recorded_push(rs, n, h, m);
    }
    if p < w.len() && w[p].0 == n {
        assert(w2 == w.update(p, (n, h)));
        assert forall|i: int| 0 <= i < w2.len() implies recorded(r2, (#[trigger] w2[i]).0) && w2[i].1
            == last_hash(r2, w2[i].0) by {
            if i != p {
                assert(w2[i] == w[i]);
                assert(w[i].0 != n) by {
                    if i < p {
                        assert(w[i].0 < w[p].0);
                    } else {
                        assert(w[p].0 < w[i].0);
                    }
                }
            }
        }
        assert forall|m: u64| #[trigger] recorded(r2, m) && !in_window(w2, m) implies w2.len()
            == BLOCK_HASH_WINDOW && forall|i: int| 0 <= i < w2.len() ==> m < (#[trigger] w2[i]).0 by {
            assert(w2[p].0 == n);
            assert(m != n);
            assert(!in_window(w, m)) by {
                if in_window(w, m) {
                    let i = choose|i: int| 0 <= i < w.len() && (#[trigger] w[i]).0 == m;
                    assert(w2[i].0 == m);
                }
            }
            assert(recorded(rs, m));
            assert forall|i: int| 0 <= i < w2.len() implies m < (#[trigger] w2[i]).0 by {
                assert(w2[i].0 == w[i].0);
            }
        }
    } else {
        let tt = w.insert(p, (n, h));
        assert(!in_window(w, n)) by {
            if in_window(w, n) {
                let i = choose|i: int| 0 <= i < w.len() && (#[trigger] w[i]).0 == n;
                if i < p {
                    assert(w[i].0 < n);
                } else if i > p {
                    assert(w[p].0 < w[i].0);
                    assert(w[p].0 >= n);
                }
            }
        }
        assert forall|i: int| 0 <= i < tt.len() implies recorded(r2, (#[trigger] tt[i]).0) && tt[i].1
            == last_hash(r2, tt[i].0) by {
            if i < p {
                assert(tt[i] == w[i]);
                assert(w[i].0 != n) by {
                    assert(in_window(w, w[i].0));
                }
            } else if i > p {
                assert(tt[i] == w[i - 1]);
                assert(w[i - 1].0 != n) by {
                    assert(in_window(w, w[i - 1].0));
                }
            }
        }
        if tt.len() > BLOCK_HASH_WINDOW {
            assert(w2 == tt.drop_first());
            assert forall|i: int| 0 <= i < w2.len() implies recorded(r2, (#[trigger] w2[i]).0)
                && w2[i].1 == last_hash(r2, w2[i].0) by {
                assert(w2[i] == tt[i + 1]);
            }
            assert forall|m: u64| #[trigger] recorded(r2, m) && !in_window(w2, m) implies w2.len()
                == BLOCK_HASH_WINDOW && forall|i: int| 0 <= i < w2.len() ==> m < (#[trigger] w2[i]).0 by {
                assert(w.len() == BLOCK_HASH_WINDOW);
                assert forall|i: int| 0 <= i < w2.len() implies m < (#[trigger] w2[i]).0 by {
                    assert(w2[i] == tt[i + 1]);
                    if m == tt[0].0 {
                        assert(tt[0].0 < tt[i + 1].0);
                    } else if m == n {
                        assert(in_window(w2, m)) by {
                            if p > 0 {
                                assert(w2[p - 1].0 == n);
                            } else {
                                assert(tt[0].0 == n);
                            }
                        }
                    } else {
                        assert(recorded(rs, m));
                        assert(!in_window(w, m)) by {
                            if in_window(w, m) {
                                let j = choose|j: int| 0 <= j < w.len() && (#[trigger] w[j]).0 == m;
                                if j < p {
                                    if j == 0 && p > 0 {
                                        assert(tt[0] == w[0]);
                                    } else if p > 0 {
                                        assert(w2[j - 1] == tt[j]);
                                    } else {
                                        assert(w2[j] == tt[j + 1]);
                                    }
                                } else {
                                    assert(tt[j + 1] == w[j]);
                                    assert(w2[j] == tt[j + 1]);
                                }
                            }
                        }
                        assert(forall|j: int| 0 <= j < w.len() ==> m < (#[trigger] w[j]).0);
                        if i + 1 < p {
                            assert(tt[i + 1] == w[i + 1]);
                        } else if i + 1 == p {
                            assert(tt[0] == w[0]);
                            assert(m < w[0].0);
                            assert(w[0].0 < n);
                        } else {
                            assert(tt[i + 1] == w[i]);
                        }
                    }
                }
            }
        } else {
            assert(w2 == tt);
            assert forall|m: u64| #[trigger] recorded(r2, m) && !in_window(w2, m) implies w2.len()
                == BLOCK_HASH_WINDOW && forall|i: int| 0 <= i < w2.len() ==> m < (#[trigger] w2[i]).0 by {
                assert(tt[p].0 == n);
                assert(m != n);
                assert(recorded(rs, m));
                assert(!in_window(w, m)) by {
                    if in_window(w, m) {
                        let j = choose|j: int| 0 <= j < w.len() && (#[trigger] w[j]).0 == m;
                        if j < p {
                            assert(tt[j] == w[j]);
                        } else {
                            assert(tt[j + 1] == w[j]);
                        }
                    }
                }
                assert(w.len() == BLOCK_HASH_WINDOW);
            }
        }
    }
}

/// Over any number of calls, the window holds the latest recorded blocks:
/// at most 256 of them, each with the hash last recorded for it, and a
/// recorded block is missing only when 256 newer ones are kept.
pub proof fn law_window_holds_latest(rs: Seq<(u64, Seq<u8>)>)
    ensures
        holds_latest(rs, window_of(rs)),
    decreases rs.len(),
{
    if rs.len() == 0 {
        assert forall|m: u64| !#[trigger] recorded(rs, m) by {}
    } else {
        let r0 = rs.drop_last();
        law_window_holds_latest(r0);
        lemma_window_step(r0, window_of(r0), rs.last().0, rs.last().1);
        assert(r0.push((rs.last().0, rs.last().1)) =~= rs);
    }
}

/// In ascending entries, the entry at `p` with key `n` is the one found.
proof fn lemma_lookup_unique(s: Seq<(u64, Seq<u8>)>, n: u64, p: int)
    requires
        keys_ascending(s),
        0 <= p < s.len(),
        s[p].0 == n,
    ensures
        window_lookup(s, n) == Some(s[p].1),
{
    assert(s[p].0 == n);
    let c = choose|i: int| 0 <= i < s.len() && (#[trigger] s[i]).0 == n;
    if c != p {
        if c < p {
            assert(s[c].0 < s[p].0);
        } else {
            assert(s[p].0 < s[c].0);
        }
    }
}

// ---------------------------------------------------------------------------
// Laws of the state tables
// ---------------------------------------------------------------------------

/// Storage keys of 20-byte addresses determine their address and slot.
proof fn lemma_storage_key_injective(a1: Seq<u8>, s1: U256, a2: Seq<u8>, s2: U256)
    requires
        a1.len() == 20,
        a2.len() == 20,
        storage_key_of(a1, s1) == storage_key_of(a2, s2),
    ensures
        a1 == a2,
        s1@ == s2@,
{
    lemma_be_bytes_of_value(s1);
    lemma_be_bytes_of_value(s2);
    let k = storage_key_of(a1, s1);
    assert(k.subrange(0, 20) =~= a1);
    assert(storage_key_of(a2, s2).subrange(0, 20) =~= a2);
    assert(k.subrange(20, 52) =~= s1.to_be_bytes_spec());
    assert(storage_key_of(a2, s2).subrange(20, 52) =~= s2.to_be_bytes_spec());
}

/// A storage read gives back the last value written to that slot, and a
/// write leaves every other slot of every 20-byte address as it was.
pub proof fn law_storage_read_after_write(
    before: VsdbStateDb,
    after: VsdbStateDb,
    addr: Seq<u8>,
    slot: U256,
    value: U256,
    other_addr: Seq<u8>,
    other_slot: U256,
)
    requires
        addr.len() == 20,
        other_addr.len() == 20,
        after.storage_map() == before.storage_map().insert(
            storage_key_of(addr, slot),
            value.to_be_bytes_spec(),
        ),
    ensures
        after.storage_of(addr, slot) == value@,
        !(other_addr == addr && other_slot@ == slot@) ==> after.storage_of(other_addr, other_slot)
            == before.storage_of(other_addr, other_slot),
{
    lemma_be_bytes_of_value(value);
    if storage_key_of(other_addr, other_slot) == storage_key_of(addr, slot) {
        lemma_storage_key_injective(other_addr, other_slot, addr, slot);
    }
}

/// Setting a balance: the account reads back that balance, and keeps its
/// nonce and code hash.
pub proof fn law_balance_read_after_write(before: VsdbStateDb, after: VsdbStateDb, addr: Seq<u8>, balance: U256)
    requires
        before.wf(),
        after.accounts_map() == before.accounts_map().insert(
            addr,
            balance.to_be_bytes_spec() + before.stored_or_blank(addr).subrange(32, 72),
        ),
    ensures
        after.balance_of(addr) == balance@,
        after.nonce_of(addr) == before.nonce_of(addr),
        stored_code_hash(after.accounts_map()[addr]) == stored_code_hash(before.stored_or_blank(addr)),
{
    lemma_be_bytes_of_value(balance);
    let old_v = before.stored_or_blank(addr);
    if !before.accounts_map().contains_key(addr) {
        lemma_be_bytes_of_value(U256 { l0: 0, l1: 0, l2: 0, l3: 0 });
        lemma_be8(0);
        assert(old_v.subrange(32, 40) =~= be8(0));
    }
    assert(old_v.len() == 72);
    let v = balance.to_be_bytes_spec() + old_v.subrange(32, 72);
    assert(v.subrange(0, 32) =~= balance.to_be_bytes_spec());
    assert(v.subrange(32, 40) =~= old_v.subrange(32, 40));
    assert(v.subrange(40, 72) =~= old_v.subrange(40, 72));
}

/// Setting a nonce: the account reads back that nonce, and keeps its
/// balance and code hash.
pub proof fn law_nonce_read_after_write(before: VsdbStateDb, after: VsdbStateDb, addr: Seq<u8>, nonce: u64)
    requires
        before.wf(),
        after.accounts_map() == before.accounts_map().insert(
            addr,
            before.stored_or_blank(addr).subrange(0, 32) + be8(nonce) + before.stored_or_blank(
                addr,
            ).subrange(40, 72),
        ),
    ensures
        after.nonce_of(addr) == nonce,
        after.balance_of(addr) == before.balance_of(addr),
        stored_code_hash(after.accounts_map()[addr]) == stored_code_hash(before.stored_or_blank(addr)),
{
    lemma_be8(nonce);
    let old_v = before.stored_or_blank(addr);
    if !before.accounts_map().contains_key(addr) {
        lemma_be_bytes_of_value(U256 { l0: 0, l1: 0, l2: 0, l3: 0 });
        assert(old_v.subrange(0, 32) =~= u256_be_bytes(0, 0, 0, 0));
    }
    assert(old_v.len() == 72);
    let v = old_v.subrange(0, 32) + be8(nonce) + old_v.subrange(40, 72);
    assert(v.subrange(0, 32) =~= old_v.subrange(0, 32));
    assert(v.subrange(32, 40) =~= be8(nonce));
    assert(v.subrange(40, 72) =~= old_v.subrange(40, 72));
}

/// Writing an account: it reads back the written balance and nonce.
pub proof fn law_account_read_after_write(before: VsdbStateDb, after: VsdbStateDb, addr: Seq<u8>, info: AccountInfo)
    requires
        after.accounts_map() == before.accounts_map().insert(addr, stored_info(info)),
    ensures
        after.balance_of(addr) == info.balance@,
        after.nonce_of(addr) == info.nonce,
        stored_code_hash(after.accounts_map()[addr]) == info.code_hash@,
{
    lemma_be_bytes_of_value(info.balance);
    lemma_be8(info.nonce);
    let v = stored_info(info);
    assert(v.subrange(0, 32) =~= info.balance.to_be_bytes_spec());
    assert(v.subrange(32, 40) =~= be8(info.nonce));
    assert(v.subrange(40, 72) =~= info.code_hash@);
}

/// A block-hash read gives back the hash last recorded for that number.
pub proof fn law_block_hash_read_after_write(before: VsdbStateDb, after: VsdbStateDb, number: u64, hash: B256, other: u64)
    requires
        after.block_hash_map() == before.block_hash_map().insert(block_key(number), hash@),
    ensures
        after.block_hash_map()[block_key(number)] == hash@,
        other != number ==> after.block_hash_map().contains_key(block_key(other))
            == before.block_hash_map().contains_key(block_key(other)),
{
    if other != number {
        lemma_be8(other);
        lemma_be8(number);
        if block_key(other) == block_key(number) {
            assert(be_value(be8(other)) == be_value(be8(number)));
        }
    }
}

// ---------------------------------------------------------------------------
// The state trie
// ---------------------------------------------------------------------------

#[verifier::external_type_specification]
#[verifier::external_body]
pub struct ExMptCalc(MptCalc);

/// What a Merkle Patricia trie holds: each key with its value.
pub uninterp spec fn trie_contents(t: MptCalc) -> Map<Seq<u8>, Seq<u8>>;

/// The root hash of a Merkle Patricia trie holding `contents`.
pub uninterp spec fn spec_trie_root(contents: Map<Seq<u8>, Seq<u8>>) -> Seq<u8>;

/// `MptCalc::new`: an empty trie.
#[verifier::external_body]
fn trie_new() -> (t: MptCalc)
    ensures
        trie_contents(t) == empty_table(),
{
    MptCalc::new()
}

/// `MptCalc::insert`: its source refuses only a key longer than
/// `MAX_MPT_KEY_LEN` (1024 bytes), before touching the trie; any other key
/// is inserted, mapping `key` to `value` and keeping every other entry.
#[verifier::external_body]
fn trie_insert(t: &mut MptCalc, key: &[u8], value: &[u8]) -> (ok: bool)
    ensures
        ok == (key@.len() <= 1024),
        ok ==> trie_contents(*final(t)) == trie_contents(*old(t)).insert(key@, value@),
        !ok ==> trie_contents(*final(t)) == trie_contents(*old(t)),
{
    t.insert(key, value).is_ok()
}

/// `MptCalc::root_hash`: the 32-byte root hash of the contents, which it
/// leaves as they were. Its source has no failing path: an empty root
/// hashes to 32 zero bytes, any other to the Keccak-256 digest of the
/// committed root node.
#[verifier::external_body]
fn trie_root_hash(t: &mut MptCalc) -> (r: Option<Vec<u8>>)
    ensures
        trie_contents(*final(t)) == trie_contents(*old(t)),
        r is Some,
        r matches Some(h) ==> h@ == spec_trie_root(trie_contents(*old(t))) && h@.len() == 32,
{
    t.root_hash().ok()
}

/// The 32 bytes a root hash is kept as: its first 32 bytes, zero-padded.
pub open spec fn root_bytes(h: Seq<u8>) -> Seq<u8> {
    Seq::new(32, |i: int| if i < h.len() { h[i] } else { 0u8 })
}

/// The state trie: each account's address mapped to its leaf encoding.
pub struct StateTrie {
    trie: MptCalc,
}

impl StateTrie {
    /// The leaves, by address.
    pub closed spec fn contents(&self) -> Map<Seq<u8>, Seq<u8>> {
        trie_contents(self.trie)
    }

    /// An empty trie.
    pub fn new() -> (r: Self)
        ensures
            r.contents() == empty_table(),
    {
        StateTrie { trie: trie_new() }
    }

    /// Puts a leaf under `addr`; returns whether the trie took it, which it
    /// always does for a 20-byte key.
    pub fn put_leaf(&mut self, addr: &Address, leaf: &[u8]) -> (inserted: bool)
        ensures
            inserted,
            final(self).contents() == old(self).contents().insert(addr@, leaf@),
    {
        trie_insert(&mut self.trie, addr.bytes.as_slice(), leaf)
    }

    /// Puts the leaf of an account's state under its address.
    pub fn put_account(&mut self, addr: &Address, info: &AccountInfo) -> (inserted: bool)
        ensures
            inserted,
            final(self).contents() == old(self).contents().insert(addr@, account_leaf(*info)),
    {
        let leaf = encode_account_leaf(info);
        self.put_leaf(addr, leaf.as_slice())
    }

    /// Compute the current state root hash: the trie's root hash, which
    /// depends on the leaves alone.
    pub fn state_root(&mut self) -> (r: [u8; 32])
        ensures
            final(self).contents() == old(self).contents(),
            r@ == spec_trie_root(old(self).contents()),
            r@ == root_bytes(spec_trie_root(old(self).contents())),
    {
        let h = match trie_root_hash(&mut self.trie) {
            Some(h) => h,
            None => Vec::new(),
        };
        let r = state_root_bytes(h.as_slice());
        assert(r@ =~= root_bytes(h@));
        assert(r@ =~= h@);
        r
    }
}

} // verus!
