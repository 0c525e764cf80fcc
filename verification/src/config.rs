//! Runtime chain parameters.
use vstd::prelude::*;

verus! {

/// Compatibility profile for EVM chain behavior.
///
/// `Modern` (default): Only supports modern Ethereum semantics.
/// `Legacy`: Enables additional compatibility for historical behaviors.
#[derive(Debug, Clone, Copy, PartialEq, Eq, Structural)]
pub enum CompatProfile {
    Modern,
    Legacy,
}

impl Default for CompatProfile {
    fn default() -> (r: Self)
        ensures
            r == CompatProfile::Modern,
    {
        CompatProfile::Modern
    }
}

/// EVM chain runtime configuration.
#[derive(Debug, Clone, Copy)]
pub struct EvmChainConfig {
    pub chain_id: u64,
    pub block_gas_limit: u64,
    pub base_fee_per_gas: u64,
    pub compat_profile: CompatProfile,
    pub min_base_fee: u64,
    pub base_fee_change_denominator: u64,
    pub elasticity_multiplier: u64,
}

/// Default minimum base fee: 1 gwei.
pub fn default_min_base_fee() -> (r: u64)
    ensures
        r == 1_000_000_000,
{
    1_000_000_000
}

/// Default base fee change denominator.
pub fn default_base_fee_change_denom() -> (r: u64)
    ensures
        r == 8,
{
    8
}

/// Default elasticity multiplier.
pub fn default_elasticity_multiplier() -> (r: u64)
    ensures
        r == 2,
{
    2
}

impl Default for EvmChainConfig {
    fn default() -> (r: Self)
        ensures
            r.chain_id == 1337,
            r.block_gas_limit == 30_000_000,
            r.base_fee_per_gas == 1_000_000_000,
            r.compat_profile == CompatProfile::Modern,
            r.min_base_fee == 1_000_000_000,
            r.base_fee_change_denominator == 8,
            r.elasticity_multiplier == 2,
    {
        EvmChainConfig {
            chain_id: 1337,
            block_gas_limit: 30_000_000,
            base_fee_per_gas: 1_000_000_000,
            compat_profile: CompatProfile::Modern,
            min_base_fee: default_min_base_fee(),
            base_fee_change_denominator: default_base_fee_change_denom(),
            elasticity_multiplier: default_elasticity_multiplier(),
        }
    }
}

} // verus!
