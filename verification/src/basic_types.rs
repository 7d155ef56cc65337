//! Fixed-width hashes, addresses and the two block counters.

use crate::byte_order::{
    be_value, byte_of, lemma_be_value_injective, lemma_low_u64_value, low_u64_be_bytes,
    repeated_byte, slice_precedes, slices_equal, zero_bytes,
};
use vstd::prelude::*;

verus! {

/// A 256-bit hash: 32 bytes, ordered byte by byte from the first.
#[derive(Clone, Copy, Debug, Eq, PartialOrd, Ord, Hash)]
pub struct H256(pub [u8; 32]);

/// A 160-bit hash: 20 bytes.
#[derive(Clone, Copy, Debug, Eq, PartialOrd, Ord, Hash)]
pub struct H160(pub [u8; 20]);

/// The address of an account.
pub type Address = H160;

/// The sequence number of a miniblock.
#[derive(Clone, Copy, Debug, PartialEq, Eq, Structural, PartialOrd, Ord, Hash)]
pub struct MiniblockNumber(pub u32);

/// The sequence number of an L1 batch.
#[derive(Clone, Copy, Debug, PartialEq, Eq, Structural, PartialOrd, Ord, Hash)]
pub struct L1BatchNumber(pub u32);

impl View for H256 {
    type V = Seq<u8>;

    open spec fn view(&self) -> Seq<u8> {
        self.0@
    }
}

impl View for H160 {
    type V = Seq<u8>;

    open spec fn view(&self) -> Seq<u8> {
        self.0@
    }
}

impl PartialEq for H256 {
    fn eq(&self, other: &H256) -> (r: bool) {
        let r = slices_equal(self.0.as_slice(), other.0.as_slice());
        proof {
            if r {
                assert(self.0 =~= other.0);
            }
        }
        r
    }
}

impl vstd::std_specs::cmp::PartialEqSpecImpl for H256 {
    open spec fn obeys_eq_spec() -> bool {
        true
    }

    open spec fn eq_spec(&self, other: &H256) -> bool {
        *self == *other
    }
}

impl PartialEq for H160 {
    fn eq(&self, other: &H160) -> (r: bool) {
        let r = slices_equal(self.0.as_slice(), other.0.as_slice());
        proof {
            if r {
                assert(self.0 =~= other.0);
            }
        }
        r
    }
}

impl vstd::std_specs::cmp::PartialEqSpecImpl for H160 {
    open spec fn obeys_eq_spec() -> bool {
        true
    }

    open spec fn eq_spec(&self, other: &H160) -> bool {
        *self == *other
    }
}

impl H256 {
    /// The hash read as a number, most significant byte first. Hashes are
    /// ordered by it.
    pub open spec fn as_nat(&self) -> nat {
        be_value(self@)
    }

    /// Two hashes with the same bytes are the same hash.
    pub proof fn lemma_view_injective(a: H256, b: H256)
        requires
            a@ == b@,
        ensures
            a == b,
    {
        assert(forall|i: int| 0 <= i < 32 ==> a.0[i] == a@[i]);
        assert(a.0 =~= b.0);
    }

    /// The hash that holds the 32 bytes `bytes`.
    pub open spec fn of_bytes(bytes: Seq<u8>) -> H256 {
        choose|hash: H256| hash@ == bytes
    }

    /// A hash is the hash that holds its bytes.
    pub proof fn lemma_of_bytes(hash: H256)
        ensures
            H256::of_bytes(hash@) == hash,
    {
        Self::lemma_view_injective(H256::of_bytes(hash@), hash);
    }

    /// The array whose first `n` bytes are those of `bytes` and whose other
    /// bytes are zero.
    spec fn filled(bytes: Seq<u8>, n: nat) -> [u8; 32]
        decreases n,
    {
        if n == 0 {
            vstd::array::spec_array_fill_for_copy_type::<u8, 32>(0u8)
        } else {
            vstd::array::spec_array_update(Self::filled(bytes, (n - 1) as nat), n - 1, bytes[n - 1])
        }
    }

    /// The first `n` bytes of the array are those of `bytes`.
    proof fn lemma_filled(bytes: Seq<u8>, n: nat)
        requires
            n <= 32,
            bytes.len() == 32,
        ensures
            forall|i: int| 0 <= i < n ==> Self::filled(bytes, n)@[i] == bytes[i],
        decreases n,
    {
        if n > 0 {
            Self::lemma_filled(bytes, (n - 1) as nat);
        }
    }

    /// Every 32 bytes are the bytes of a hash.
    pub proof fn lemma_of_bytes_view(bytes: Seq<u8>)
        requires
            bytes.len() == 32,
        ensures
            H256::of_bytes(bytes)@ == bytes,
    {
        Self::lemma_filled(bytes, 32);
        let hash = H256(Self::filled(bytes, 32));
        assert(hash@ =~= bytes);
    }

    /// A hash made from a 64-bit number reads as that number: such hashes are
    /// ordered like the numbers that they are made from.
    pub proof fn lemma_low_u64_as_nat(lo: u64)
        ensures
            H256::of_bytes(low_u64_be_bytes(lo, 32)).as_nat() == lo,
    {
        Self::lemma_of_bytes_view(low_u64_be_bytes(lo, 32));
        lemma_low_u64_value(lo, 32);
    }

    /// Two hashes that read as the same number are the same hash.
    pub proof fn lemma_as_nat_injective(a: H256, b: H256)
        requires
            a.as_nat() == b.as_nat(),
        ensures
            a == b,
    {
        lemma_be_value_injective(a@, b@);
        Self::lemma_view_injective(a, b);
    }

    /// The hash of 32 zero bytes.
    pub fn zero() -> (r: H256)
        ensures
            r@ == zero_bytes(32),
            r == H256::of_bytes(zero_bytes(32)),
    {
        let r = H256([0u8; 32]);
        assert(r@ =~= zero_bytes(32));
        proof {
            Self::lemma_of_bytes(r);
        }
        r
    }

    /// The hash whose 32 bytes all equal `byte`.
    pub fn repeat_byte(byte: u8) -> (r: H256)
        ensures
            r@ == repeated_byte(byte, 32),
            r == H256::of_bytes(repeated_byte(byte, 32)),
    {
        let r = H256([byte; 32]);
        assert(r@ =~= repeated_byte(byte, 32));
        proof {
            Self::lemma_of_bytes(r);
        }
        r
    }

    /// The hash whose last eight bytes spell `lo`, most significant byte
    /// first, and whose other bytes are zero.
    pub fn from_low_u64_be(lo: u64) -> (r: H256)
        ensures
            r@ == low_u64_be_bytes(lo, 32),
            r == H256::of_bytes(low_u64_be_bytes(lo, 32)),
    {
        let mut bytes = [0u8; 32];
        let mut k: usize = 0;
        while k < 8
            invariant
                k <= 8,
                forall|i: int| 0 <= i < 32 - k ==> bytes@[i] == 0u8,
                forall|i: int| 32 - k <= i < 32 ==> bytes@[i] == byte_of(lo, (31 - i) as nat),
            decreases 8 - k,
        {
            let shift: u64 = 8 * (k as u64);
            let low: u64 = (lo >> shift) & 0xff;
            assert(low <= 0xff) by (bit_vector)
                requires
                    low == (lo >> shift) & 0xff,
            ;
            bytes[31 - k] = low as u8;
            k += 1;
        }
        let r = H256(bytes);
        assert(r@ =~= low_u64_be_bytes(lo, 32));
        proof {
            Self::lemma_of_bytes(r);
        }
        r
    }

    /// The hash that holds the 32 bytes of `src`.
    pub fn from_slice(src: &[u8]) -> (r: H256)
        requires
            src@.len() == 32,
        ensures
            r@ == src@,
            r == H256::of_bytes(src@),
    {
        let mut bytes = [0u8; 32];
        let mut i: usize = 0;
        while i < 32
            invariant
                i <= 32,
                src@.len() == 32,
                forall|j: int| 0 <= j < i ==> bytes@[j] == src@[j],
            decreases 32 - i,
        {
            bytes[i] = src[i];
            i += 1;
        }
        let r = H256(bytes);
        assert(r@ =~= src@);
        proof {
            Self::lemma_of_bytes(r);
        }
        r
    }

    /// The 32 bytes of the hash.
    pub fn as_bytes(&self) -> (r: &[u8])
        ensures
            r@ == self@,
    {
        self.0.as_slice()
    }

    /// The 32 bytes of the hash, as an array.
    pub fn to_fixed_bytes(self) -> (r: [u8; 32])
        ensures
            r@ == self@,
    {
        self.0
    }

    /// Whether all 32 bytes are zero.
    pub fn is_zero(&self) -> (r: bool)
        ensures
            r == (self@ == zero_bytes(32)),
            r == (*self == H256::of_bytes(zero_bytes(32))),
    {
        let mut i: usize = 0;
        while i < 32
            invariant
                i <= 32,
                forall|j: int| 0 <= j < i ==> self@[j] == 0u8,
            decreases 32 - i,
        {
            if self.0[i] != 0 {
                proof {
                    Self::lemma_of_bytes_view(zero_bytes(32));
                }
                return false;
            }
            i += 1;
        }
        assert(self@ =~= zero_bytes(32));
        proof {
            Self::lemma_of_bytes(*self);
        }
        true
    }

    /// Whether this hash comes strictly before `other`.
    pub fn lt(&self, other: &H256) -> (r: bool)
        ensures
            r == (self.as_nat() < other.as_nat()),
    {
        slice_precedes(self.0.as_slice(), other.0.as_slice())
    }

    /// Whether this hash comes before `other` or equals it.
    pub fn le(&self, other: &H256) -> (r: bool)
        ensures
            r == (self.as_nat() <= other.as_nat()),
    {
        !slice_precedes(other.0.as_slice(), self.0.as_slice())
    }
}

impl H160 {
    /// Two addresses with the same bytes are the same address.
    pub proof fn lemma_view_injective(a: H160, b: H160)
        requires
            a@ == b@,
        ensures
            a == b,
    {
        assert(forall|i: int| 0 <= i < 20 ==> a.0[i] == a@[i]);
        assert(a.0 =~= b.0);
    }

    /// The address that holds the 20 bytes `bytes`.
    pub open spec fn of_bytes(bytes: Seq<u8>) -> H160 {
        choose|address: H160| address@ == bytes
    }

    /// An address is the address that holds its bytes.
    pub proof fn lemma_of_bytes(address: H160)
        ensures
            H160::of_bytes(address@) == address,
    {
        Self::lemma_view_injective(H160::of_bytes(address@), address);
    }

    /// The address of 20 zero bytes.
    pub fn zero() -> (r: H160)
        ensures
            r@ == zero_bytes(20),
            r == H160::of_bytes(zero_bytes(20)),
    {
        let r = H160([0u8; 20]);
        assert(r@ =~= zero_bytes(20));
        proof {
            Self::lemma_of_bytes(r);
        }
        r
    }

    /// The address whose 20 bytes all equal `byte`.
    pub fn repeat_byte(byte: u8) -> (r: H160)
        ensures
            r@ == repeated_byte(byte, 20),
            r == H160::of_bytes(repeated_byte(byte, 20)),
    {
        let r = H160([byte; 20]);
        assert(r@ =~= repeated_byte(byte, 20));
        proof {
            Self::lemma_of_bytes(r);
        }
        r
    }

    /// The address whose last eight bytes spell `lo`, most significant byte
    /// first, and whose other bytes are zero.
    pub fn from_low_u64_be(lo: u64) -> (r: H160)
        ensures
            r@ == low_u64_be_bytes(lo, 20),
            r == H160::of_bytes(low_u64_be_bytes(lo, 20)),
    {
        let mut bytes = [0u8; 20];
        let mut k: usize = 0;
        while k < 8
            invariant
                k <= 8,
                forall|i: int| 0 <= i < 20 - k ==> bytes@[i] == 0u8,
                forall|i: int| 20 - k <= i < 20 ==> bytes@[i] == byte_of(lo, (19 - i) as nat),
            decreases 8 - k,
        {
            let shift: u64 = 8 * (k as u64);
            let low: u64 = (lo >> shift) & 0xff;
            assert(low <= 0xff) by (bit_vector)
                requires
                    low == (lo >> shift) & 0xff,
            ;
            bytes[19 - k] = low as u8;
            k += 1;
        }
        let r = H160(bytes);
        assert(r@ =~= low_u64_be_bytes(lo, 20));
        proof {
            Self::lemma_of_bytes(r);
        }
        r
    }

    /// The address that holds the 20 bytes of `src`.
    pub fn from_slice(src: &[u8]) -> (r: H160)
        requires
            src@.len() == 20,
        ensures
            r@ == src@,
            r == H160::of_bytes(src@),
    {
        let mut bytes = [0u8; 20];
        let mut i: usize = 0;
        while i < 20
            invariant
                i <= 20,
                src@.len() == 20,
                forall|j: int| 0 <= j < i ==> bytes@[j] == src@[j],
            decreases 20 - i,
        {
            bytes[i] = src[i];
            i += 1;
        }
        let r = H160(bytes);
        assert(r@ =~= src@);
        proof {
            Self::lemma_of_bytes(r);
        }
        r
    }

    /// The 20 bytes of the address.
    pub fn as_bytes(&self) -> (r: &[u8])
        ensures
            r@ == self@,
    {
        self.0.as_slice()
    }

    /// The 20 bytes of the address, as an array.
    pub fn to_fixed_bytes(self) -> (r: [u8; 20])
        ensures
            r@ == self@,
    {
        self.0
    }
}

} // verus!
