//! The plain values that run through consensus: account addresses (which
//! double as the authors of blocks), hash values, and rounds.

use vstd::prelude::*;

verus! {

/// A round of consensus.
pub type Round = u64;

/// The address of an account, 32 bytes.
#[derive(Clone, Copy, Debug)]
pub struct AccountAddress(pub [u8; 32]);

/// The author of a block or a vote is the account address of a validator.
pub type Author = AccountAddress;

impl AccountAddress {
    /// The number of bytes in an address.
    pub const LENGTH: usize = 32;

    /// The address with the given bytes.
    pub fn new(address: [u8; 32]) -> (r: AccountAddress)
        ensures
            r.0 == address,
    {
        AccountAddress(address)
    }

    /// The bytes of the address.
    pub fn to_bytes(&self) -> (r: [u8; 32])
        ensures
            r == self.0,
    {
        self.0
    }
}

impl PartialEq for AccountAddress {
    fn eq(&self, other: &Self) -> (r: bool) {
        let mut i: usize = 0;
        while i < 32
            invariant
                i <= 32,
                forall|j: int| 0 <= j < i ==> self.0@[j] == other.0@[j],
            decreases 32 - i,
        {
            if self.0[i] != other.0[i] {
                return false;
            }
            i = i + 1;
        }
        assert(self.0 =~= other.0);
        true
    }
}

impl Eq for AccountAddress {}

impl vstd::std_specs::cmp::PartialEqSpecImpl for AccountAddress {
    open spec fn obeys_eq_spec() -> bool {
        true
    }

    open spec fn eq_spec(&self, other: &Self) -> bool {
        self.0 == other.0
    }
}

/// A 32-byte hash value.
#[derive(Clone, Copy, Debug)]
pub struct HashValue {
    pub hash: [u8; 32],
}

/// The hash value whose bytes are all zero.
pub open spec fn zero_hash() -> HashValue {
    HashValue { hash: vstd::array::spec_array_fill_for_copy_type::<u8, 32>(0u8) }
}

impl HashValue {
    /// The number of bytes in a hash value.
    pub const LENGTH: usize = 32;

    /// The hash value with the given bytes.
    pub fn new(hash: [u8; 32]) -> (r: HashValue)
        ensures
            r.hash == hash,
    {
        HashValue { hash }
    }

    /// The hash value whose bytes are all zero, which marks a missing entry.
    pub fn zero() -> (r: HashValue)
        ensures
            r == zero_hash(),
    {
        HashValue { hash: [0u8; 32] }
    }

    /// The bytes of the hash value.
    pub fn to_bytes(&self) -> (r: [u8; 32])
        ensures
            r == self.hash,
    {
        self.hash
    }
}

impl PartialEq for HashValue {
    fn eq(&self, other: &Self) -> (r: bool) {
        let mut i: usize = 0;
        while i < 32
            invariant
                i <= 32,
                forall|j: int| 0 <= j < i ==> self.hash@[j] == other.hash@[j],
            decreases 32 - i,
        {
            if self.hash[i] != other.hash[i] {
                return false;
            }
            i = i + 1;
        }
        assert(self.hash =~= other.hash);
        true
    }
}

impl Eq for HashValue {}

impl vstd::std_specs::cmp::PartialEqSpecImpl for HashValue {
    open spec fn obeys_eq_spec() -> bool {
        true
    }

    open spec fn eq_spec(&self, other: &Self) -> bool {
        self.hash == other.hash
    }
}

} // verus!
