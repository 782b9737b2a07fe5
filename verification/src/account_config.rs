//! Well-known account addresses, and the keys that name event streams.

use vstd::prelude::*;
use vstd::bytes::{spec_u64_to_le_bytes, u64_to_le_bytes};
use crate::types::AccountAddress;

verus! {

/// The address `0x0...0` followed by the two given trailing bytes.
pub open spec fn address_ending_in(hi: u8, lo: u8) -> Seq<u8> {
    Seq::new(32, |i: int| if i == 30 { hi } else if i == 31 { lo } else { 0u8 })
}

fn address_ending_with(hi: u8, lo: u8) -> (r: AccountAddress)
    ensures
        r.0@ == address_ending_in(hi, lo),
{
    let mut bytes = [0u8; 32];
    bytes[30] = hi;
    bytes[31] = lo;
    assert(bytes@ =~= address_ending_in(hi, lo));
    AccountAddress(bytes)
}

/// The address that holds the core code modules: `0x1`.
pub fn core_code_address() -> (r: AccountAddress)
    ensures
        r.0@ == address_ending_in(0, 1),
{
    address_ending_with(0, 1)
}

/// The address of the account that holds the validator set: `0x1d8`.
pub fn validator_set_address() -> (r: AccountAddress)
    ensures
        r.0@ == address_ending_in(1, 0xd8),
{
    address_ending_with(1, 0xd8)
}

/// The key of an event stream: an 8-byte salt followed by the address of
/// the account that emits the events.
#[derive(Clone, Copy, Debug, PartialEq, Eq)]
pub struct EventKey(pub [u8; 40]);

/// The bytes of the key of the stream that account `address` emits under
/// `salt`: the salt in little-endian order, then the address.
pub open spec fn event_key_bytes(address: AccountAddress, salt: u64) -> Seq<u8> {
    spec_u64_to_le_bytes(salt) + address.0@
}

impl EventKey {
    /// The number of bytes in a key.
    pub const LENGTH: usize = 40;

    /// The key of the stream that `address` emits under `salt`.
    pub fn new_from_address(address: &AccountAddress, salt: u64) -> (r: EventKey)
        ensures
            r.0@ == event_key_bytes(*address, salt),
    {
        let salt_bytes = u64_to_le_bytes(salt);
        let mut output_bytes = [0u8; 40];
        let mut i: usize = 0;
        while i < 8
            invariant
                i <= 8,
                salt_bytes@.len() == 8,
                forall|j: int| 0 <= j < i ==> output_bytes@[j] == salt_bytes@[j],
            decreases 8 - i,
        {
            output_bytes[i] = salt_bytes[i];
            i = i + 1;
        }
        let mut i: usize = 0;
        while i < 32
            invariant
                i <= 32,
                salt_bytes@.len() == 8,
                forall|j: int| 0 <= j < 8 ==> output_bytes@[j] == salt_bytes@[j],
                forall|j: int| 0 <= j < i ==> output_bytes@[8 + j] == address.0@[j],
            decreases 32 - i,
        {
            output_bytes[8 + i] = address.0[i];
            i = i + 1;
        }
        assert(output_bytes@ =~= event_key_bytes(*address, salt));
        EventKey(output_bytes)
    }
}

} // verus!
