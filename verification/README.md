# nbnet

The verified core of an EVM-compatible chain node. Every function in `src/`
carries a contract that Verus proves; the few calls into outside crates
(alloy for transaction decoding, signer recovery, contract addresses and
Keccak-256, revm for its constants and default code, vsdb for persistent maps and the state
trie) go through small trusted wrappers whose contracts say what the
outside code does.

- `src/primitives.rs`, `src/uint.rs`, `src/text.rs` — addresses, hashes,
  256-bit integers and their byte and decimal forms.
- `src/tx.rs` — decoding, signer recovery, intrinsic gas, validation.
- `src/txpool.rs`, `src/pool_laws.rs` — the (sender, nonce) pool with
  replacement by fee, promotion, payload selection and commit, and the
  properties that hold across its operations.
- `src/staking.rs`, `src/precompile.rs` — delegation bookkeeping and the
  Balances/Staking precompiles (call decoding, gas, replies).
- `src/state.rs` — the vsdb-backed account, code, storage and block-hash
  tables, genesis loading, the state trie and its root, the
  recent-block-hash window.
- `src/execution.rs` — per-transaction decisions and receipts of a block,
  receipt lookup, state queries.
- `src/node.rs` — node role, sync ranges, resume view, development and
  benchmark genesis documents, RPC quantities.
- `src/config.rs`, `src/genesis.rs`, `src/receipt.rs` — chain parameters,
  the genesis document and the hex forms of its byte fields and of blooms.

`app/` holds what Verus does not see: conversions to alloy/revm types, the
revm database and precompile provider, the JSON documents, and the block
executor that runs revm and hands each outcome back to the library.
