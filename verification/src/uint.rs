//! 256-bit unsigned integers held as four little-endian 64-bit limbs.
use vstd::prelude::*;
use vstd::arithmetic::power::pow;
use crate::primitives::{be8, be_value, lemma_be8, lemma_be_value_append, lemma_pow256_8, p64, p128, p192, p256};

verus! {

/// The value of four little-endian 64-bit limbs.
pub open spec fn limbs_value(l0: u64, l1: u64, l2: u64, l3: u64) -> nat {
    (l0 + l1 * p64() + l2 * p128() + l3 * p192()) as nat
}

/// The largest 256-bit value.
pub open spec fn u256_max() -> nat {
    (p256() - 1) as nat
}

/// A 256-bit unsigned integer (limbs in little-endian order).
#[derive(Clone, Copy, Debug, PartialEq, Eq, Hash, Default)]
pub struct U256 {
    pub l0: u64,
    pub l1: u64,
    pub l2: u64,
    pub l3: u64,
}

impl View for U256 {
    type V = nat;

    open spec fn view(&self) -> nat {
        limbs_value(self.l0, self.l1, self.l2, self.l3)
    }
}

pub proof fn lemma_limbs_bound(l0: u64, l1: u64, l2: u64, l3: u64)
    ensures
        limbs_value(l0, l1, l2, l3) <= u256_max(),
        l0 + l1 * p64() < p128(),
        l0 + l1 * p64() + l2 * p128() < p192(),
{
}

/// The 32 big-endian bytes of a value below 2^256.
pub open spec fn u256_be_bytes(l0: u64, l1: u64, l2: u64, l3: u64) -> Seq<u8> {
    be8(l3) + be8(l2) + be8(l1) + be8(l0)
}

proof fn lemma_u256_be_bytes(l0: u64, l1: u64, l2: u64, l3: u64)
    ensures
        be_value(u256_be_bytes(l0, l1, l2, l3)) == limbs_value(l0, l1, l2, l3),
        u256_be_bytes(l0, l1, l2, l3).len() == 32,
{
    lemma_be8(l0);
    lemma_be8(l1);
    lemma_be8(l2);
    lemma_be8(l3);
    lemma_pow256_8();
    lemma_be_value_append(be8(l3), be8(l2));
    lemma_be_value_append(be8(l3) + be8(l2), be8(l1));
    lemma_be_value_append(be8(l3) + be8(l2) + be8(l1), be8(l0));
}

/// Reads 8 big-endian bytes at `pos`.
fn read_be8(b: &[u8; 32], pos: usize) -> (r: u64)
    requires
        pos + 8 <= 32,
    ensures
        be8(r) == b@.subrange(pos as int, pos + 8),
{
    let b0 = b[pos];
    let b1 = b[pos + 1];
    let b2 = b[pos + 2];
    let b3 = b[pos + 3];
    let b4 = b[pos + 4];
    let b5 = b[pos + 5];
    let b6 = b[pos + 6];
    let b7 = b[pos + 7];
    let r: u64 = ((b0 as u64) << 56u64) | ((b1 as u64) << 48u64) | ((b2 as u64) << 40u64) | ((b3
        as u64) << 32u64) | ((b4 as u64) << 24u64) | ((b5 as u64) << 16u64) | ((b6 as u64) << 8u64)
        | (b7 as u64);
    assert((r >> 56u64) as u8 == b0 && (r >> 48u64) as u8 == b1 && (r >> 40u64) as u8 == b2 && (r
        >> 32u64) as u8 == b3 && (r >> 24u64) as u8 == b4 && (r >> 16u64) as u8 == b5 && (r
        >> 8u64) as u8 == b6 && r as u8 == b7) by (bit_vector)
        requires
            r == ((b0 as u64) << 56u64) | ((b1 as u64) << 48u64) | ((b2 as u64) << 40u64) | ((b3
                as u64) << 32u64) | ((b4 as u64) << 24u64) | ((b5 as u64) << 16u64) | ((b6 as u64)
                << 8u64) | (b7 as u64),
    ;
    assert(be8(r) =~= b@.subrange(pos as int, pos + 8));
    r
}

/// Writes the 8 big-endian bytes of `x` at `pos`.
fn write_be8(out: &mut [u8; 32], pos: usize, x: u64)
    requires
        pos + 8 <= 32,
    ensures
        final(out)@ == old(out)@.subrange(0, pos as int) + be8(x) + old(out)@.subrange(
            pos + 8,
            32,
        ),
{
    out[pos] = (x >> 56u64) as u8;
    out[pos + 1] = (x >> 48u64) as u8;
    out[pos + 2] = (x >> 40u64) as u8;
    out[pos + 3] = (x >> 32u64) as u8;
    out[pos + 4] = (x >> 24u64) as u8;
    out[pos + 5] = (x >> 16u64) as u8;
    out[pos + 6] = (x >> 8u64) as u8;
    out[pos + 7] = x as u8;
    assert(out@ =~= old(out)@.subrange(0, pos as int) + be8(x) + old(out)@.subrange(pos + 8, 32));
}

/// Splits a sum below 2^65 into its low word and carry.
fn split_u128(t: u128) -> (r: (u64, u64))
    ensures
        r.0 + r.1 * p64() == t,
        t < 2 * p64() ==> r.1 <= 1,
        r.1 < p64(),
{
    let lo = t as u64;
    let hi = (t >> 64u128) as u64;
    assert(t == lo as u128 + (hi as u128) * 0x1_0000_0000_0000_0000u128 && (hi as u128) == (t
        >> 64u128)) by (bit_vector)
        requires
            lo == t as u64,
            hi == (t >> 64u128) as u64,
    ;
    assert(t < 0x2_0000_0000_0000_0000u128 ==> (t >> 64u128) <= 1) by (bit_vector);
    (lo, hi)
}

/// `a + b + c` for limbs with a carry-in of at most one.
fn add_limb(a: u64, b: u64, c: u64) -> (r: (u64, u64))
    requires
        c <= 1,
    ensures
        r.0 + r.1 * p64() == a + b + c,
        r.1 <= 1,
{
    let t: u128 = a as u128 + b as u128 + c as u128;
    split_u128(t)
}

/// `a - b - borrow` for limbs, with the borrow-out.
fn sub_limb(a: u64, b: u64, borrow: u64) -> (r: (u64, u64))
    requires
        borrow <= 1,
    ensures
        r.0 - r.1 * p64() == a - b - borrow,
        r.1 <= 1,
{
    if a as u128 >= b as u128 + borrow as u128 {
        ((a - b - borrow) as u64, 0)
    } else {
        ((a as u128 + 0x1_0000_0000_0000_0000u128 - b as u128 - borrow as u128) as u64, 1)
    }
}

impl U256 {
    /// Zero.
    pub fn zero() -> (r: U256)
        ensures
            r@ == 0,
    {
        U256 { l0: 0, l1: 0, l2: 0, l3: 0 }
    }

    /// The largest value, 2^256 - 1.
    pub fn max_value() -> (r: U256)
        ensures
            r@ == u256_max(),
    {
        U256 { l0: u64::MAX, l1: u64::MAX, l2: u64::MAX, l3: u64::MAX }
    }

    /// The value of a 64-bit integer.
    pub fn from_u64(x: u64) -> (r: U256)
        ensures
            r@ == x,
    {
        U256 { l0: x, l1: 0, l2: 0, l3: 0 }
    }

    /// The value of a 128-bit integer.
    pub fn from_u128(x: u128) -> (r: U256)
        ensures
            r@ == x,
    {
        let (lo, hi) = split_u128(x);
        U256 { l0: lo, l1: hi, l2: 0, l3: 0 }
    }

    /// Whether the value is zero.
    pub fn is_zero(&self) -> (r: bool)
        ensures
            r == (self@ == 0),
    {
        self.l0 == 0 && self.l1 == 0 && self.l2 == 0 && self.l3 == 0
    }

    /// Numeric equality.
    pub fn same_value(&self, other: &U256) -> (r: bool)
        ensures
            r == (self@ == other@),
    {
        let r = self.l0 == other.l0 && self.l1 == other.l1
            && self.l2 == other.l2 && self.l3 == other.l3;
        proof {
            if !r && self@ == other@ {
                U256::lemma_limbs_unique(*self, *other);
            }
        }
        r
    }

    proof fn lemma_limbs_unique(a: U256, b: U256)
        requires
            a@ == b@,
        ensures
            a.l0 == b.l0,
            a.l1 == b.l1,
            a.l2 == b.l2,
            a.l3 == b.l3,
    {
        let a0 = a.l0 as int;
        let a1 = a.l1 as int;
        let a2 = a.l2 as int;
        let a3 = a.l3 as int;
        let b0 = b.l0 as int;
        let b1 = b.l1 as int;
        let b2 = b.l2 as int;
        let b3 = b.l3 as int;
        if a3 < b3 {
            U256::lemma_top_decides(a3, a0 + a1 * p64() + a2 * p128(), b3, b0 + b1 * p64() + b2 * p128(), p192());
        } else if b3 < a3 {
            U256::lemma_top_decides(b3, b0 + b1 * p64() + b2 * p128(), a3, a0 + a1 * p64() + a2 * p128(), p192());
        } else if a2 < b2 {
            U256::lemma_top_decides(a2, a0 + a1 * p64(), b2, b0 + b1 * p64(), p128());
        } else if b2 < a2 {
            U256::lemma_top_decides(b2, b0 + b1 * p64(), a2, a0 + a1 * p64(), p128());
        } else if a1 < b1 {
            U256::lemma_top_decides(a1, a0, b1, b0, p64());
        } else if b1 < a1 {
            U256::lemma_top_decides(b1, b0, a1, a0, p64());
        }
    }

    /// When the top digit differs, it decides the order.
    proof fn lemma_top_decides(x: int, rx: int, y: int, ry: int, p: int)
        requires
            x < y,
            0 <= rx < p,
            0 <= ry,
        ensures
            x * p + rx < y * p + ry,
    {
        assert(x * p + rx < y * p + ry) by (nonlinear_arith)
            requires
                x < y,
                0 <= rx < p,
                0 <= ry,
        ;
    }

    /// Numeric `<`.
    pub fn lt(&self, other: &U256) -> (r: bool)
        ensures
            r == (self@ < other@),
    {
        let a = [self.l0, self.l1, self.l2, self.l3];
        let b = [other.l0, other.l1, other.l2, other.l3];
        let ghost ra3: int = a[0] + a[1] * p64() + a[2] * p128();
        let ghost rb3: int = b[0] + b[1] * p64() + b[2] * p128();
        let ghost ra2: int = a[0] + a[1] * p64();
        let ghost rb2: int = b[0] + b[1] * p64();
        if a[3] != b[3] {
            proof {
                if a[3] < b[3] {
                    U256::lemma_top_decides(a[3] as int, ra3, b[3] as int, rb3, p192());
                } else {
                    U256::lemma_top_decides(b[3] as int, rb3, a[3] as int, ra3, p192());
                }
            }
            a[3] < b[3]
        } else if a[2] != b[2] {
            proof {
                if a[2] < b[2] {
                    U256::lemma_top_decides(a[2] as int, ra2, b[2] as int, rb2, p128());
                } else {
                    U256::lemma_top_decides(b[2] as int, rb2, a[2] as int, ra2, p128());
                }
            }
            a[2] < b[2]
        } else if a[1] != b[1] {
            proof {
                if a[1] < b[1] {
                    U256::lemma_top_decides(a[1] as int, a[0] as int, b[1] as int, b[0] as int, p64());
                } else {
                    U256::lemma_top_decides(b[1] as int, b[0] as int, a[1] as int, a[0] as int, p64());
                }
            }
            a[1] < b[1]
        } else {
            a[0] < b[0]
        }
    }

    /// Numeric `<=`.
    pub fn le(&self, other: &U256) -> (r: bool)
        ensures
            r == (self@ <= other@),
    {
        !other.lt(self)
    }

    /// `self + other`, with the carry out of the top limb.
    fn add_with_carry(&self, other: &U256) -> (r: (U256, u64))
        ensures
            r.0@ + r.1 * p256() == self@ + other@,
            r.1 <= 1,
    {
        let (s0, c0) = add_limb(self.l0, other.l0, 0);
        let (s1, c1) = add_limb(self.l1, other.l1, c0);
        let (s2, c2) = add_limb(self.l2, other.l2, c1);
        let (s3, c3) = add_limb(self.l3, other.l3, c2);
        (U256 { l0: s0, l1: s1, l2: s2, l3: s3 }, c3)
    }

    /// `self + other`, or 2^256 - 1 when the sum does not fit.
    pub fn saturating_add(&self, other: &U256) -> (r: U256)
        ensures
            r@ == if self@ + other@ <= u256_max() {
                self@ + other@
            } else {
                u256_max()
            },
    {
        let (s, c) = self.add_with_carry(other);
        proof {
            lemma_limbs_bound(s.l0, s.l1, s.l2, s.l3);
        }
        if c == 0 {
            s
        } else {
            U256::max_value()
        }
    }

    /// `(self + other) mod 2^256`.
    pub fn wrapping_add(&self, other: &U256) -> (r: U256)
        ensures
            r@ == (self@ + other@) as int % p256(),
    {
        let (s, c) = self.add_with_carry(other);
        proof {
            lemma_limbs_bound(s.l0, s.l1, s.l2, s.l3);
            assert((s@ + c * p256()) % p256() == s@ as int) by (nonlinear_arith)
                requires
                    s@ < p256(),
                    c <= 1,
            ;
        }
        s
    }

    /// `self - other` when `other <= self`.
    pub fn checked_sub(&self, other: &U256) -> (r: Option<U256>)
        ensures
            r matches Some(d) ==> d@ == self@ - other@,
            r is Some <==> other@ <= self@,
    {
        if self.lt(other) {
            return None;
        }
        let (d0, b0) = sub_limb(self.l0, other.l0, 0);
        let (d1, b1) = sub_limb(self.l1, other.l1, b0);
        let (d2, b2) = sub_limb(self.l2, other.l2, b1);
        let (d3, b3) = sub_limb(self.l3, other.l3, b2);
        let d = U256 { l0: d0, l1: d1, l2: d2, l3: d3 };
        proof {
            assert(d@ - b3 * p256() == self@ - other@);
            lemma_limbs_bound(d0, d1, d2, d3);
        }
        Some(d)
    }

    /// `self - other`, or zero when `other > self`.
    pub fn saturating_sub(&self, other: &U256) -> (r: U256)
        ensures
            r@ == if other@ <= self@ {
                self@ - other@
            } else {
                0
            },
    {
        match self.checked_sub(other) {
            Some(d) => d,
            None => U256::zero(),
        }
    }

    /// The exact product of a 64-bit and a 128-bit integer.
    pub fn mul_u64_u128(a: u64, b: u128) -> (r: U256)
        ensures
            r@ == a * b,
    {
        let (b_lo, b_hi) = split_u128(b);
        assert((a as u128) * (b_lo as u128) <= 0xffff_ffff_ffff_fffe_0000_0000_0000_0001u128)
            by (nonlinear_arith)
            requires
                a < p64(),
                b_lo < p64(),
        ;
        let p0: u128 = (a as u128) * (b_lo as u128);
        assert((a as u128) * (b_hi as u128) <= 0xffff_ffff_ffff_fffe_0000_0000_0000_0001u128)
            by (nonlinear_arith)
            requires
                a < p64(),
                b_hi < p64(),
        ;
        let p1: u128 = (a as u128) * (b_hi as u128);
        let (p0_lo, p0_hi) = split_u128(p0);
        let (p1_lo, p1_hi) = split_u128(p1);
        assert(p1_hi < 0xffff_ffff_ffff_ffffu64);
        let t: u128 = p0_hi as u128 + p1_lo as u128;
        let (r1, carry) = split_u128(t);
        let r2: u64 = p1_hi + carry;
        let r = U256 { l0: p0_lo, l1: r1, l2: r2, l3: 0 };
        proof {
            assert(a * b == a * b_lo + a * b_hi * p64()) by (nonlinear_arith)
                requires
                    b == b_lo + b_hi * p64(),
            ;
            assert(a * b_hi * p64() == p1 * p64()) by (nonlinear_arith)
                requires
                    p1 == a * b_hi,
            ;
            assert(p1 * p64() == p1_lo * p64() + p1_hi * p128()) by (nonlinear_arith)
                requires
                    p1 == p1_lo + p1_hi * p64(),
            ;
        }
        r
    }

    /// The 32 big-endian bytes of the value.
    pub fn to_be_bytes(&self) -> (r: [u8; 32])
        ensures
            r@ == u256_be_bytes(self.l0, self.l1, self.l2, self.l3),
            be_value(r@) == self@,
            r@.len() == 32,
    {
        let mut out = [0u8; 32];
        write_be8(&mut out, 0, self.l3);
        write_be8(&mut out, 8, self.l2);
        write_be8(&mut out, 16, self.l1);
        write_be8(&mut out, 24, self.l0);
        proof {
            lemma_u256_be_bytes(self.l0, self.l1, self.l2, self.l3);
            assert(out@ =~= u256_be_bytes(
                self.l0,
                self.l1,
                self.l2,
                self.l3,
            ));
        }
        out
    }

    /// The value of 32 big-endian bytes.
    pub fn from_be_bytes(b: [u8; 32]) -> (r: U256)
        ensures
            r@ == be_value(b@),
            r.to_be_bytes_spec() == b@,
    {
        let l3 = read_be8(&b, 0);
        let l2 = read_be8(&b, 8);
        let l1 = read_be8(&b, 16);
        let l0 = read_be8(&b, 24);
        proof {
            assert(b@ =~= u256_be_bytes(l0, l1, l2, l3));
            lemma_u256_be_bytes(l0, l1, l2, l3);
        }
        U256 { l0: l0, l1: l1, l2: l2, l3: l3 }
    }

    /// The 32 big-endian bytes of the value.
    pub open spec fn to_be_bytes_spec(self) -> Seq<u8> {
        u256_be_bytes(self.l0, self.l1, self.l2, self.l3)
    }

    /// The value of the first 32 bytes of a slice read big-endian.
    pub fn from_be_slice(s: &[u8]) -> (r: U256)
        requires
            s@.len() == 32,
        ensures
            r@ == be_value(s@),
    {
        let mut b = [0u8; 32];
        let mut i: usize = 0;
        while i < 32
            invariant
                s@.len() == 32,
                0 <= i <= 32,
                forall|j: int| 0 <= j < i ==> b@[j] == s@[j],
            decreases 32 - i,
        {
            b[i] = s[i];
            i = i + 1;
        }
        assert(b@ =~= s@);
        U256::from_be_bytes(b)
    }
}

/// The big-endian byte string of a value is determined by the value.
pub proof fn lemma_be_bytes_of_value(x: U256)
    ensures
        be_value(x.to_be_bytes_spec()) == x@,
        x.to_be_bytes_spec().len() == 32,
{
    lemma_u256_be_bytes(x.l0, x.l1, x.l2, x.l3);
}

} // verus!
