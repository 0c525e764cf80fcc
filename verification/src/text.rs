//! Decimal rendering of numbers for error messages.
use vstd::prelude::*;
use crate::uint::U256;
use crate::genesis::hex_digit_str;

verus! {

/// The ASCII digit for `d < 10`.
pub open spec fn digit_char(d: nat) -> char {
    (48 + d) as char
}

/// The decimal digits of `n`, most significant first, without leading zeros.
pub open spec fn decimal(n: nat) -> Seq<char>
    decreases n,
{
    if n < 10 {
        seq![digit_char(n)]
    } else {
        decimal(n / 10).push(digit_char(n % 10))
    }
}

/// Renders a 64-bit integer in decimal, as its `Display` does.
pub(crate) fn u64_decimal(x: u64) -> (r: String)
    ensures
        r@ == decimal(x as nat),
    decreases x,
{
    if x < 10 {
        let r = String::from_str(hex_digit_str(x as u8));
        assert(r@ =~= decimal(x as nat));
        r
    } else {
        let mut r = u64_decimal(x / 10);
        r.append(hex_digit_str((x % 10) as u8));
        assert(r@ =~= decimal(x as nat));
        r
    }
}

/// Renders a 256-bit integer in decimal.
///
/// Trusted: converts the limbs into `alloy_primitives::U256` with
/// `Uint::from_limbs` and calls its `Display` (through `to_string`), which
/// prints the decimal digits of the value without sign, padding or leading
/// zeros; the contract claims exactly that.
#[verifier::external_body]
pub(crate) fn u256_decimal(x: &U256) -> (r: String)
    ensures
        r@ == decimal(x@),
{
    alloy_primitives::U256::from_limbs([x.l0, x.l1, x.l2, x.l3]).to_string()
}

} // verus!
