//! Storage keys, their hashed form, and the writes made to them.

use crate::basic_types::{Address, H160, H256};
use crate::byte_order::zero_bytes;
use crate::hashing::{blake2s256, blake2s256_digest};
use vstd::prelude::*;

verus! {

/// The account that owns a storage slot.
#[derive(Clone, Copy, Debug, Eq, PartialOrd, Ord, Hash)]
pub struct AccountTreeId {
    pub address: Address,
}

/// A storage slot: the account that owns it and the slot's key in that
/// account.
#[derive(Clone, Copy, Debug, Eq, PartialOrd, Ord, Hash)]
pub struct StorageKey {
    pub account: AccountTreeId,
    pub key: H256,
}

/// Whether a storage access read the slot or wrote it.
#[derive(Clone, Copy, Debug, PartialEq, Eq, Structural)]
pub enum StorageLogKind {
    Read,
    Write,
}

/// One access to a storage slot, with the value read or written.
#[derive(Clone, Copy, Debug, PartialEq, Eq)]
pub struct StorageLog {
    pub kind: StorageLogKind,
    pub key: StorageKey,
    pub value: H256,
}

impl PartialEq for AccountTreeId {
    fn eq(&self, other: &AccountTreeId) -> (r: bool) {
        self.address == other.address
    }
}

impl vstd::std_specs::cmp::PartialEqSpecImpl for AccountTreeId {
    open spec fn obeys_eq_spec() -> bool {
        true
    }

    open spec fn eq_spec(&self, other: &AccountTreeId) -> bool {
        *self == *other
    }
}

impl PartialEq for StorageKey {
    fn eq(&self, other: &StorageKey) -> (r: bool) {
        self.account == other.account && self.key == other.key
    }
}

impl vstd::std_specs::cmp::PartialEqSpecImpl for StorageKey {
    open spec fn obeys_eq_spec() -> bool {
        true
    }

    open spec fn eq_spec(&self, other: &StorageKey) -> bool {
        *self == *other
    }
}

impl AccountTreeId {
    /// The account at `address`.
    pub fn new(address: Address) -> (r: AccountTreeId)
        ensures
            r == (AccountTreeId { address }),
    {
        AccountTreeId { address }
    }

    /// The owner's address.
    pub fn address(&self) -> (r: &Address)
        ensures
            *r == self.address,
    {
        &self.address
    }
}

/// The 64 bytes that are hashed for a slot: twelve zero bytes, the 20 bytes of
/// the owner's address, the 32 bytes of the slot's key.
pub open spec fn hashed_key_preimage(address: Seq<u8>, key: Seq<u8>) -> Seq<u8> {
    zero_bytes(12) + address + key
}

/// The digest under which the slot `key` of the account at `address` is
/// filed: the BLAKE2s-256 digest of the slot's preimage.
pub open spec fn spec_raw_hashed_key(address: Address, key: H256) -> Seq<u8> {
    blake2s256(hashed_key_preimage(address@, key@))
}

/// The bytes of the address of the system contract that records, for each
/// account, the hash of the code deployed there: 18 zero bytes, then `0x80`,
/// `0x02`.
pub open spec fn account_code_storage_address_bytes() -> Seq<u8> {
    zero_bytes(18) + seq![0x80u8, 0x02u8]
}

/// `address`, padded on the left with twelve zero bytes to the width of a
/// slot key.
pub open spec fn spec_address_to_h256(address: Address) -> H256 {
    H256::of_bytes(zero_bytes(12) + address@)
}

/// The slot that holds the hash of the code deployed at `address`: the slot
/// of the code-storage system contract whose key is the padded address.
pub open spec fn spec_get_code_key(address: Address) -> StorageKey {
    StorageKey {
        account: AccountTreeId { address: H160::of_bytes(account_code_storage_address_bytes()) },
        key: spec_address_to_h256(address),
    }
}

/// The address of the system contract that records, for each account, the
/// hash of the code deployed there.
pub fn account_code_storage_address() -> (r: Address)
    ensures
        r@ == account_code_storage_address_bytes(),
        r == H160::of_bytes(account_code_storage_address_bytes()),
{
    let mut bytes = [0u8; 20];
    bytes[18] = 0x80;
    bytes[19] = 0x02;
    let r = H160(bytes);
    assert(r@ =~= account_code_storage_address_bytes());
    proof {
        H160::lemma_of_bytes(r);
    }
    r
}

/// The value that the code slot of an account holds after a deployment there
/// has failed: the zero hash.
pub fn failed_contract_deployment_bytecode_hash() -> (r: H256)
    ensures
        r@ == zero_bytes(32),
        r == H256::of_bytes(zero_bytes(32)),
{
    H256::zero()
}

/// `address`, padded on the left with twelve zero bytes to the width of a
/// slot key.
pub fn address_to_h256(address: &Address) -> (r: H256)
    ensures
        r@ == zero_bytes(12) + address@,
        r == spec_address_to_h256(*address),
{
    let mut bytes = [0u8; 32];
    let mut i: usize = 0;
    while i < 20
        invariant
            i <= 20,
            forall|j: int| 0 <= j < 12 ==> bytes@[j] == 0u8,
            forall|j: int| 0 <= j < i ==> bytes@[12 + j] == address@[j],
        decreases 20 - i,
    {
        bytes[12 + i] = address.0[i];
        i += 1;
    }
    let r = H256(bytes);
    assert(r@ =~= zero_bytes(12) + address@);
    proof {
        H256::lemma_of_bytes(r);
    }
    r
}

/// The slot that holds the hash of the code deployed at `address`: the slot
/// of the code-storage system contract whose key is the padded address.
pub fn get_code_key(address: &Address) -> (r: StorageKey)
    ensures
        r == spec_get_code_key(*address),
{
    StorageKey::new(
        AccountTreeId::new(account_code_storage_address()),
        address_to_h256(address),
    )
}

impl StorageKey {
    /// The address of the account that owns the slot.
    pub open spec fn spec_address(&self) -> Address {
        self.account.address
    }

    /// The slot's hashed key: the hash that holds the digest under which the
    /// slot is filed.
    pub open spec fn spec_hashed_key(&self) -> H256 {
        H256::of_bytes(spec_raw_hashed_key(self.account.address, self.key))
    }

    /// The slot `key` of `account`.
    pub fn new(account: AccountTreeId, key: H256) -> (r: StorageKey)
        ensures
            r == (StorageKey { account, key }),
    {
        StorageKey { account, key }
    }

    /// The account that owns the slot.
    pub fn account(&self) -> (r: &AccountTreeId)
        ensures
            *r == self.account,
    {
        &self.account
    }

    /// The slot's key within its account.
    pub fn key(&self) -> (r: &H256)
        ensures
            *r == self.key,
    {
        &self.key
    }

    /// The address of the account that owns the slot.
    pub fn address(&self) -> (r: &Address)
        ensures
            *r == self.spec_address(),
    {
        self.account.address()
    }

    /// The digest under which the slot `key` of the account at `address` is
    /// filed.
    pub fn raw_hashed_key(address: &H160, key: &H256) -> (r: [u8; 32])
        ensures
            r@ == spec_raw_hashed_key(*address, *key),
    {
        let mut bytes = [0u8; 64];
        let mut i: usize = 0;
        while i < 20
            invariant
                i <= 20,
                forall|j: int| 0 <= j < 12 ==> bytes@[j] == 0u8,
                forall|j: int| 0 <= j < i ==> bytes@[12 + j] == address@[j],
            decreases 20 - i,
        {
            bytes[12 + i] = address.0[i];
            i += 1;
        }
        let mut i: usize = 0;
        while i < 32
            invariant
                i <= 32,
                forall|j: int| 0 <= j < 12 ==> bytes@[j] == 0u8,
                forall|j: int| 0 <= j < 20 ==> bytes@[12 + j] == address@[j],
                forall|j: int| 0 <= j < i ==> bytes@[32 + j] == key@[j],
            decreases 32 - i,
        {
            bytes[32 + i] = key.0[i];
            i += 1;
        }
        assert(bytes@ =~= hashed_key_preimage(address@, key@));
        blake2s256_digest(bytes.as_slice())
    }

    /// The slot's hashed key: the key under which the slot's writes are
    /// logged.
    pub fn hashed_key(&self) -> (r: H256)
        ensures
            r == self.spec_hashed_key(),
            r@ == spec_raw_hashed_key(self.account.address, self.key),
    {
        let r = H256(Self::raw_hashed_key(self.address(), self.key()));
        proof {
            H256::lemma_of_bytes(r);
        }
        r
    }
}

impl StorageLog {
    /// A read of `key` that saw `value`.
    pub fn new_read_log(key: StorageKey, value: H256) -> (r: StorageLog)
        ensures
            r == (StorageLog { kind: StorageLogKind::Read, key, value }),
    {
        StorageLog { kind: StorageLogKind::Read, key, value }
    }

    /// A write of `value` to `key`.
    pub fn new_write_log(key: StorageKey, value: H256) -> (r: StorageLog)
        ensures
            r == (StorageLog { kind: StorageLogKind::Write, key, value }),
    {
        StorageLog { kind: StorageLogKind::Write, key, value }
    }
}

} // verus!
