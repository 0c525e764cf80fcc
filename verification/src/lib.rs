//! Verified core of an EVM-compatible chain node: transaction decoding and
//! validation, the transaction pool, the staking and balances precompiles,
//! the persistent world state on vsdb, the decisions of block execution,
//! and the genesis and receipt encodings.
pub mod primitives;
pub mod uint;
pub mod text;
pub mod tx;
pub mod txpool;
pub mod pool_laws;
pub mod staking;
pub mod config;
pub mod genesis;
pub mod receipt;
pub mod precompile;
pub mod state;
pub mod execution;
pub mod node;
