//! The validator set: the public keys and voting power of each validator,
//! and, in Twins testing, how many of the validators are twins.

use vstd::prelude::*;
use vstd::bytes::spec_u64_to_le_bytes;
use crate::account_config::{core_code_address, validator_set_address, EventKey, address_ending_in};
use crate::types::AccountAddress;

verus! {

/// The name of the module that defines the validator set.
pub fn validator_set_module_name() -> (r: &'static str)
    ensures
        r@ == "LibraSystem"@,
{
    "LibraSystem"
}

/// The name of the struct that holds the validator set.
pub fn validator_set_struct_name() -> (r: &'static str)
    ensures
        r@ == "ValidatorSet"@,
{
    "ValidatorSet"
}

/// The type of a value stored on chain.
pub enum TypeTag {
    Bool,
    U8,
    U64,
    U128,
    Address,
    Vector(Box<TypeTag>),
    Struct(Box<StructTag>),
}

/// A struct type: the address and module that define it, its name, and its
/// type arguments.
pub struct StructTag {
    pub address: AccountAddress,
    pub module: String,
    pub name: String,
    pub type_params: Vec<TypeTag>,
}

/// The type of the validator set: struct `ValidatorSet` of module
/// `LibraSystem` at the core code address, with no type arguments.
pub fn validator_set_tag() -> (r: StructTag)
    ensures
        r.address.0@ == address_ending_in(0, 1),
        r.module@ == "LibraSystem"@,
        r.name@ == "ValidatorSet"@,
        r.type_params@.len() == 0,
{
    StructTag {
        name: validator_set_struct_name().to_owned(),
        address: core_code_address(),
        module: validator_set_module_name().to_owned(),
        type_params: Vec::new(),
    }
}

/// The public keys and voting power of one validator.
#[derive(Clone, Debug, PartialEq, Eq)]
pub struct ValidatorPublicKeys<PublicKey> {
    /// The account address of the validator.
    pub account_address: AccountAddress,
    /// The key that checks the validator's consensus signatures.
    pub consensus_public_key: PublicKey,
    /// The weight of the validator's votes.
    pub consensus_voting_power: u64,
    /// The key that checks the validator's network signatures.
    pub network_signing_public_key: [u8; 32],
    /// The key that identifies the validator on the network.
    pub network_identity_public_key: [u8; 32],
}

impl<PublicKey> ValidatorPublicKeys<PublicKey> {
    /// The keys and voting power of a validator.
    pub fn new(
        account_address: AccountAddress,
        consensus_public_key: PublicKey,
        consensus_voting_power: u64,
        network_signing_public_key: [u8; 32],
        network_identity_public_key: [u8; 32],
    ) -> (r: Self)
        ensures
            r.account_address == account_address,
            r.consensus_public_key == consensus_public_key,
            r.consensus_voting_power == consensus_voting_power,
            r.network_signing_public_key == network_signing_public_key,
            r.network_identity_public_key == network_identity_public_key,
    {
        ValidatorPublicKeys {
            account_address,
            consensus_public_key,
            consensus_voting_power,
            network_signing_public_key,
            network_identity_public_key,
        }
    }

    /// The account address of the validator.
    pub fn account_address(&self) -> (r: &AccountAddress)
        ensures
            *r == self.account_address,
    {
        &self.account_address
    }
}

/// The validators, and, when set, how many of them are twins (so that twins
/// can be left out of quorum voting power).
#[derive(Clone, Debug, PartialEq, Eq)]
pub struct ValidatorSet<PublicKey>(Vec<ValidatorPublicKeys<PublicKey>>, Option<usize>);

impl<PublicKey> ValidatorSet<PublicKey> {
    /// The validators, in order.
    pub closed spec fn payload(&self) -> Seq<ValidatorPublicKeys<PublicKey>> {
        self.0@
    }

    /// The number of twins, if it was set.
    pub closed spec fn num_twins(&self) -> Option<usize> {
        self.1
    }

    /// A validator set of the given validators, with no number of twins set.
    pub fn new(payload: Vec<ValidatorPublicKeys<PublicKey>>) -> (r: Self)
        ensures
            r.payload() == payload@,
            r.num_twins() is None,
    {
        ValidatorSet(payload, None)
    }

    /// The validator set with no validators.
    pub fn empty() -> (r: Self)
        ensures
            r.payload().len() == 0,
            r.num_twins() is None,
    {
        ValidatorSet::new(Vec::new())
    }

    /// The key of the stream of events that announce changes of the
    /// validator set: salt 2 under the validator set's address.
    pub fn change_event_key() -> (r: EventKey)
        ensures
            r.0@ == spec_u64_to_le_bytes(2) + address_ending_in(1, 0xd8),
    {
        let address = validator_set_address();
        EventKey::new_from_address(&address, 2)
    }

    /// Sets the number of twins; the validators stay as they are.
    pub fn set_num_twins(&mut self, num_twins: usize)
        ensures
            final(self).payload() == old(self).payload(),
            final(self).num_twins() == Some(num_twins),
    {
        self.1 = Some(num_twins);
    }

    /// The number of twins, if it was set.
    pub fn get_num_twins(&self) -> (r: Option<usize>)
        ensures
            r == self.num_twins(),
    {
        self.1
    }

    /// The validators, as a slice.
    pub fn deref(&self) -> (r: &[ValidatorPublicKeys<PublicKey>])
        ensures
            r@ == self.payload(),
    {
        self.0.as_slice()
    }

    /// The validators, taken out of the set.
    pub fn into_validators(self) -> (r: Vec<ValidatorPublicKeys<PublicKey>>)
        ensures
            r@ == self.payload(),
    {
        self.0
    }
}

} // verus!
