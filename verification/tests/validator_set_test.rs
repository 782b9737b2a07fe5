use libra_twins::account_config::{core_code_address, validator_set_address, EventKey};
use libra_twins::types::AccountAddress;
use libra_twins::validator_set::{
    validator_set_module_name, validator_set_struct_name, validator_set_tag, ValidatorPublicKeys,
    ValidatorSet,
};

fn keys(b: u8) -> ValidatorPublicKeys<u64> {
    ValidatorPublicKeys::new(AccountAddress::new([b; 32]), b as u64, 1, [b; 32], [b; 32])
}

#[test]
fn names_and_tag_of_the_validator_set() {
    assert_eq!(validator_set_module_name(), "LibraSystem");
    assert_eq!(validator_set_struct_name(), "ValidatorSet");
    let tag = validator_set_tag();
    assert_eq!(tag.module, "LibraSystem");
    assert_eq!(tag.name, "ValidatorSet");
    assert!(tag.type_params.is_empty());
    let mut one = [0u8; 32];
    one[31] = 1;
    assert_eq!(tag.address.to_bytes(), one);
    assert_eq!(core_code_address().to_bytes(), one);
}

#[test]
fn new_and_empty_sets() {
    let set = ValidatorSet::new(vec![keys(1), keys(2)]);
    assert_eq!(set.deref().len(), 2);
    assert_eq!(set.deref()[1], keys(2));
    assert_eq!(set.get_num_twins(), None);
    let empty: ValidatorSet<u64> = ValidatorSet::empty();
    assert!(empty.deref().is_empty());
    assert_eq!(empty.get_num_twins(), None);
    assert_eq!(set.into_validators(), vec![keys(1), keys(2)]);
}

#[test]
fn the_number_of_twins_reads_back_as_set() {
    let mut set = ValidatorSet::new(vec![keys(1), keys(2), keys(3)]);
    set.set_num_twins(2);
    assert_eq!(set.get_num_twins(), Some(2));
    set.set_num_twins(0);
    assert_eq!(set.get_num_twins(), Some(0));
    assert_eq!(set.deref().len(), 3);
}

#[test]
fn change_event_key_is_salt_two_under_the_validator_set_address() {
    let key = ValidatorSet::<u64>::change_event_key();
    let mut expected = [0u8; 40];
    expected[0] = 2;
    expected[38] = 0x01;
    expected[39] = 0xd8;
    assert_eq!(key.0, expected);
    assert_eq!(key, EventKey::new_from_address(&validator_set_address(), 2));
}

#[test]
fn event_keys_put_the_salt_before_the_address() {
    let address = AccountAddress::new([9u8; 32]);
    let key = EventKey::new_from_address(&address, 0x0102);
    assert_eq!(key.0[0], 0x02);
    assert_eq!(key.0[1], 0x01);
    assert!(key.0[2..8].iter().all(|&b| b == 0));
    assert!(key.0[8..].iter().all(|&b| b == 9));
}
