//! Fixed-size Ethereum values: 20-byte addresses, 32-byte hashes and
//! 256-bit unsigned integers, each with a mathematical view.
use vstd::prelude::*;
use vstd::arithmetic::power::pow;

verus! {

// ---------------------------------------------------------------------------
// Big-endian byte strings
// ---------------------------------------------------------------------------

/// The natural number that a big-endian byte string denotes.
pub open spec fn be_value(s: Seq<u8>) -> nat
    decreases s.len(),
{
    if s.len() == 0 {
        0
    } else {
        be_value(s.drop_last()) * 256 + s.last() as nat
    }
}

/// The 8 big-endian bytes of a 64-bit word.
pub open spec fn be8(x: u64) -> Seq<u8> {
    seq![
        (x >> 56u64) as u8,
        (x >> 48u64) as u8,
        (x >> 40u64) as u8,
        (x >> 32u64) as u8,
        (x >> 24u64) as u8,
        (x >> 16u64) as u8,
        (x >> 8u64) as u8,
        x as u8,
    ]
}

pub proof fn lemma_be8(x: u64)
    ensures
        be_value(be8(x)) == x,
        be8(x).len() == 8,
{
    let s = be8(x);
    reveal_with_fuel(be_value, 9);
    let b0 = (x >> 56u64) as u8;
    let b1 = (x >> 48u64) as u8;
    let b2 = (x >> 40u64) as u8;
    let b3 = (x >> 32u64) as u8;
    let b4 = (x >> 24u64) as u8;
    let b5 = (x >> 16u64) as u8;
    let b6 = (x >> 8u64) as u8;
    let b7 = x as u8;
    assert(s.drop_last().drop_last().drop_last().drop_last().drop_last().drop_last().drop_last().drop_last()
        =~= Seq::<u8>::empty());
    assert(s.drop_last().drop_last().drop_last().drop_last().drop_last().drop_last().drop_last()
        =~= seq![b0]);
    assert(s.drop_last().drop_last().drop_last().drop_last().drop_last().drop_last() =~= seq![b0, b1]);
    assert(s.drop_last().drop_last().drop_last().drop_last().drop_last() =~= seq![b0, b1, b2]);
    assert(s.drop_last().drop_last().drop_last().drop_last() =~= seq![b0, b1, b2, b3]);
    assert(s.drop_last().drop_last().drop_last() =~= seq![b0, b1, b2, b3, b4]);
    assert(s.drop_last().drop_last() =~= seq![b0, b1, b2, b3, b4, b5]);
    assert(s.drop_last() =~= seq![b0, b1, b2, b3, b4, b5, b6]);
    assert(x == ((((((b0 as u64 * 256 + b1 as u64) * 256 + b2 as u64) * 256 + b3 as u64) * 256
        + b4 as u64) * 256 + b5 as u64) * 256 + b6 as u64) * 256 + b7 as u64) by (bit_vector)
        requires
            b0 == (x >> 56u64) as u8,
            b1 == (x >> 48u64) as u8,
            b2 == (x >> 40u64) as u8,
            b3 == (x >> 32u64) as u8,
            b4 == (x >> 24u64) as u8,
            b5 == (x >> 16u64) as u8,
            b6 == (x >> 8u64) as u8,
            b7 == x as u8,
    ;
}

/// `be_value` of a concatenation.
pub proof fn lemma_be_value_append(a: Seq<u8>, b: Seq<u8>)
    ensures
        be_value(a + b) == be_value(a) * pow(256, b.len()) + be_value(b),
    decreases b.len(),
{
    reveal(pow);
    if b.len() == 0 {
        assert(a + b =~= a);
    } else {
        let b2 = b.drop_last();
        assert((a + b).drop_last() =~= a + b2);
        assert((a + b).last() == b.last());
        lemma_be_value_append(a, b2);
        let va = be_value(a);
        let p = pow(256, b2.len());
        assert(pow(256, b.len()) == 256 * p);
        assert((va * p + be_value(b2)) * 256 + b.last() as nat == va * (256 * p) + (be_value(b2)
            * 256 + b.last() as nat)) by (nonlinear_arith);
    }
}

/// The big-endian value of a byte string is below `256^len`.
pub proof fn lemma_be_value_bound(s: Seq<u8>)
    ensures
        be_value(s) < pow(256, s.len()),
    decreases s.len(),
{
    reveal(pow);
    if s.len() > 0 {
        lemma_be_value_bound(s.drop_last());
        let p = pow(256, (s.len() - 1) as nat);
        let v = be_value(s.drop_last());
        assert(v * 256 + (s.last() as nat) < 256 * p) by (nonlinear_arith)
            requires
                v < p,
                s.last() < 256,
        ;
    }
}

#[verifier::inline]
pub open spec fn p64() -> int {
    0x1_0000_0000_0000_0000int
}

#[verifier::inline]
pub open spec fn p128() -> int {
    0x1_0000_0000_0000_0000_0000_0000_0000_0000int
}

#[verifier::inline]
pub open spec fn p192() -> int {
    0x1_0000_0000_0000_0000_0000_0000_0000_0000_0000_0000_0000_0000int
}

#[verifier::inline]
pub open spec fn p256() -> int {
    0x1_0000_0000_0000_0000_0000_0000_0000_0000_0000_0000_0000_0000_0000_0000_0000_0000int
}

pub proof fn lemma_pow256_8()
    ensures
        pow(256, 8) == p64(),
        pow(256, 16) == p128(),
        pow(256, 24) == p192(),
        pow(256, 32) == p256(),
{
    reveal_with_fuel(pow, 33);
}

/// A vector holding a copy of the slice.
pub fn bytes_to_vec(s: &[u8]) -> (r: Vec<u8>)
    ensures
        r@ == s@,
{
    let mut v: Vec<u8> = Vec::with_capacity(s.len());
    let mut i: usize = 0;
    while i < s.len()
        invariant
            i <= s@.len(),
            v@ == s@.subrange(0, i as int),
        decreases s@.len() - i,
    {
        v.push(s[i]);
        i = i + 1;
        assert(v@ =~= s@.subrange(0, i as int));
    }
    assert(v@ =~= s@);
    v
}

/// The 64-bit word held big-endian in `s[pos..pos + 8]`.
pub fn u64_from_be(s: &[u8], pos: usize) -> (r: u64)
    requires
        pos <= 64,
        pos + 8 <= s@.len(),
    ensures
        be8(r) == s@.subrange(pos as int, pos + 8),
        r == be_value(s@.subrange(pos as int, pos + 8)),
{
    let b0 = s[pos];
    let b1 = s[pos + 1];
    let b2 = s[pos + 2];
    let b3 = s[pos + 3];
    let b4 = s[pos + 4];
    let b5 = s[pos + 5];
    let b6 = s[pos + 6];
    let b7 = s[pos + 7];
    let r: u64 = ((b0 as u64) << 56u64) | ((b1 as u64) << 48u64) | ((b2 as u64) << 40u64) | ((b3
        as u64) << 32u64) | ((b4 as u64) << 24u64) | ((b5 as u64) << 16u64) | ((b6 as u64) << 8u64)
        | (b7 as u64);
    assert((r >> 56u64) as u8 == b0 && (r >> 48u64) as u8 == b1 && (r >> 40u64) as u8 == b2 && (r
        >> 32u64) as u8 == b3 && (r >> 24u64) as u8 == b4 && (r >> 16u64) as u8 == b5 && (r
        >> 8u64) as u8 == b6 && r as u8 == b7) by (bit_vector)
        requires
            r == ((b0 as u64) << 56u64) | ((b1 as u64) << 48u64) | ((b2 as u64) << 40u64) | ((b3
                as u64) << 32u64) | ((b4 as u64) << 24u64) | ((b5 as u64) << 16u64) | ((b6 as u64)
                << 8u64) | (b7 as u64),
    ;
    assert(be8(r) =~= s@.subrange(pos as int, pos + 8));
    proof {
        lemma_be8(r);
    }
    r
}

/// Appends the 8 big-endian bytes of `x`.
pub fn push_be8(out: &mut Vec<u8>, x: u64)
    ensures
        final(out)@ == old(out)@ + be8(x),
{
    out.push((x >> 56u64) as u8);
    out.push((x >> 48u64) as u8);
    out.push((x >> 40u64) as u8);
    out.push((x >> 32u64) as u8);
    out.push((x >> 24u64) as u8);
    out.push((x >> 16u64) as u8);
    out.push((x >> 8u64) as u8);
    out.push(x as u8);
    assert(out@ =~= old(out)@ + be8(x));
}

/// A vector holding a copy of `s[start..end]`.
pub fn copy_range(s: &[u8], start: usize, end: usize) -> (r: Vec<u8>)
    requires
        start <= end <= s@.len(),
    ensures
        r@ == s@.subrange(start as int, end as int),
{
    let mut v: Vec<u8> = Vec::with_capacity(end - start);
    let mut i: usize = start;
    while i < end
        invariant
            start <= i <= end <= s@.len(),
            v@ == s@.subrange(start as int, i as int),
        decreases end - i,
    {
        v.push(s[i]);
        i = i + 1;
        assert(v@ =~= s@.subrange(start as int, i as int));
    }
    v
}

/// Bytewise equality of two slices.
pub fn bytes_equal(a: &[u8], b: &[u8]) -> (r: bool)
    ensures
        r == (a@ == b@),
{
    if a.len() != b.len() {
        return false;
    }
    let mut i: usize = 0;
    while i < a.len()
        invariant
            a@.len() == b@.len(),
            i <= a@.len(),
            forall|j: int| 0 <= j < i ==> a@[j] == b@[j],
        decreases a@.len() - i,
    {
        if a[i] != b[i] {
            return false;
        }
        i = i + 1;
    }
    assert(a@ =~= b@);
    true
}

// ---------------------------------------------------------------------------
// Address and B256
// ---------------------------------------------------------------------------

/// A 20-byte Ethereum account address.
#[derive(Clone, Copy, Debug, PartialEq, Eq, PartialOrd, Ord, Hash, Default)]
pub struct Address {
    pub bytes: [u8; 20],
}

impl View for Address {
    type V = Seq<u8>;

    open spec fn view(&self) -> Seq<u8> {
        self.bytes@
    }
}

impl Address {
    /// The address whose 20 bytes are all `b`.
    pub fn repeat_byte(b: u8) -> (r: Address)
        ensures
            r@ == Seq::new(20, |i: int| b),
    {
        let r = Address { bytes: [b; 20] };
        assert(r@ =~= Seq::new(20, |i: int| b));
        r
    }

    /// The all-zero address.
    pub fn zero() -> (r: Address)
        ensures
            r@ == Seq::new(20, |i: int| 0u8),
    {
        Address::repeat_byte(0)
    }

    /// The address with the given bytes.
    pub fn from_bytes(bytes: [u8; 20]) -> (r: Address)
        ensures
            r@ == bytes@,
    {
        Address { bytes }
    }

    /// The address read from a 20-byte slice.
    pub fn from_slice(s: &[u8]) -> (r: Address)
        requires
            s@.len() == 20,
        ensures
            r@ == s@,
    {
        let mut bytes = [0u8; 20];
        let mut i: usize = 0;
        while i < 20
            invariant
                s@.len() == 20,
                0 <= i <= 20,
                forall|j: int| 0 <= j < i ==> bytes@[j] == s@[j],
            decreases 20 - i,
        {
            bytes[i] = s[i];
            i = i + 1;
        }
        let r = Address { bytes };
        assert(r@ =~= s@);
        r
    }

    /// Bytewise equality.
    pub fn equals(&self, other: &Address) -> (r: bool)
        ensures
            r == (self@ == other@),
    {
        bytes_equal(self.bytes.as_slice(), other.bytes.as_slice())
    }
}

/// A 32-byte hash.
#[derive(Clone, Copy, Debug, PartialEq, Eq, PartialOrd, Ord, Hash, Default)]
pub struct B256 {
    pub bytes: [u8; 32],
}

impl View for B256 {
    type V = Seq<u8>;

    open spec fn view(&self) -> Seq<u8> {
        self.bytes@
    }
}

impl B256 {
    /// The hash whose 32 bytes are all `b`.
    pub fn repeat_byte(b: u8) -> (r: B256)
        ensures
            r@ == Seq::new(32, |i: int| b),
    {
        let r = B256 { bytes: [b; 32] };
        assert(r@ =~= Seq::new(32, |i: int| b));
        r
    }

    /// The all-zero hash.
    pub fn zero() -> (r: B256)
        ensures
            r@ == Seq::new(32, |i: int| 0u8),
    {
        B256::repeat_byte(0)
    }

    /// The hash with the given bytes.
    pub fn from_bytes(bytes: [u8; 32]) -> (r: B256)
        ensures
            r@ == bytes@,
    {
        B256 { bytes }
    }

    /// Bytewise equality.
    pub fn equals(&self, other: &B256) -> (r: bool)
        ensures
            r == (self@ == other@),
    {
        bytes_equal(self.bytes.as_slice(), other.bytes.as_slice())
    }
}

} // verus!
