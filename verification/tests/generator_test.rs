use libra_twins::generator::{account_address_lt, sort_by_account_address, twin_account_address, twin_accounts};
use libra_twins::types::AccountAddress;
use libra_twins::validator_set::ValidatorPublicKeys;

fn addr(first: u8, last: u8) -> AccountAddress {
    let mut b = [0u8; 32];
    b[0] = first;
    b[31] = last;
    AccountAddress::new(b)
}

fn keys(a: AccountAddress, tag: u64) -> ValidatorPublicKeys<u64> {
    ValidatorPublicKeys::new(a, tag, 1, [0u8; 32], [0u8; 32])
}

#[test]
fn addresses_compare_byte_by_byte() {
    assert!(account_address_lt(&addr(1, 9), &addr(2, 0)));
    assert!(!account_address_lt(&addr(2, 0), &addr(1, 9)));
    assert!(account_address_lt(&addr(1, 1), &addr(1, 2)));
    assert!(!account_address_lt(&addr(1, 1), &addr(1, 1)));
}

#[test]
fn validator_keys_are_sorted_by_address_stably() {
    let input = vec![
        keys(addr(3, 0), 0),
        keys(addr(1, 0), 1),
        keys(addr(2, 0), 2),
        keys(addr(1, 0), 3),
        keys(addr(0xf0, 0), 4),
    ];
    let sorted = sort_by_account_address(input);
    let tags: Vec<u64> = sorted.iter().map(|k| k.consensus_public_key).collect();
    assert_eq!(tags, vec![1, 3, 2, 0, 4]);
    assert!(sort_by_account_address::<ValidatorPublicKeys<u64>>(vec![]).is_empty());
}

#[test]
fn twins_get_readable_addresses() {
    assert_eq!(twin_account_address(240), addr(240, 0));
    let twins = twin_accounts(4, &vec![3, 1]);
    assert_eq!(twins, vec![(1, addr(240, 0)), (3, addr(241, 0))]);
    assert!(twin_accounts(4, &vec![7]).is_empty());
}

use libra_twins::consensus_config::{SafetyRulesBackend, SafetyRulesConfig, SafetyRulesService};
use libra_twins::generator::{assemble_validator_swarm, assemble_validator_swarm_twins, SwarmNode};

fn on_disk_by_default(backend: &SafetyRulesBackend) -> bool {
    match backend {
        SafetyRulesBackend::OnDiskStorage(c) => c.default,
        SafetyRulesBackend::InMemoryStorage => false,
    }
}

fn node(first: u8, key: u64, listen: &str) -> SwarmNode<u64> {
    SwarmNode {
        peer_id: addr(first, 0),
        consensus_public_key: key,
        network_signing_public_key: [first; 32],
        network_identity_public_key: [first; 32],
        listen_address: listen.to_string(),
        advertised_address: String::new(),
        seed_peers: vec![],
        safety_rules: SafetyRulesConfig::default(),
    }
}

#[test]
fn a_swarm_is_seeded_with_its_first_node_and_keys_are_sorted() {
    let swarm = assemble_validator_swarm(vec![
        node(3, 30, "/ip4/127.0.0.1/tcp/7003"),
        node(1, 10, "/ip4/127.0.0.1/tcp/7001"),
        node(2, 20, "/ip4/127.0.0.1/tcp/7002"),
    ]);
    let peers: Vec<AccountAddress> = swarm.nodes.iter().map(|n| n.peer_id).collect();
    assert_eq!(peers, vec![addr(3, 0), addr(1, 0), addr(2, 0)]);
    for n in &swarm.nodes {
        assert_eq!(n.advertised_address, n.listen_address);
        assert_eq!(n.seed_peers, vec![(addr(3, 0), vec!["/ip4/127.0.0.1/tcp/7003".to_string()])]);
        assert_eq!(n.safety_rules.service, SafetyRulesService::Thread);
        assert!(on_disk_by_default(&n.safety_rules.backend));
    }
    let keys: Vec<u64> = swarm.validator_set.deref().iter().map(|k| k.consensus_public_key).collect();
    assert_eq!(keys, vec![10, 20, 30]);
    assert!(swarm.validator_set.deref().iter().all(|k| k.consensus_voting_power == 1));
    assert_eq!(swarm.validator_set.get_num_twins(), None);
}

#[test]
fn a_twins_swarm_puts_twins_last_and_keeps_their_keys() {
    let originals = vec![
        node(3, 30, "a3"),
        node(0xf8, 80, "a8"),
        node(1, 10, "a1"),
        node(2, 20, "a2"),
    ];
    // Targets in any order, repeated, or out of range: nodes 0 and 2 get twins.
    let generated_twins = vec![node(0x77, 999, "t0"), node(0x78, 998, "t1")];
    let swarm = assemble_validator_swarm_twins(originals, generated_twins, &vec![2, 9, 0, 2]);
    assert_eq!(swarm.nodes.len(), 6);
    let peers: Vec<AccountAddress> = swarm.nodes.iter().map(|n| n.peer_id).collect();
    assert_eq!(
        peers,
        vec![addr(1, 0), addr(2, 0), addr(3, 0), addr(0xf8, 0), addr(240, 0), addr(241, 0)]
    );
    let node_keys: Vec<u64> = swarm.nodes.iter().map(|n| n.consensus_public_key).collect();
    assert_eq!(node_keys, vec![10, 20, 30, 80, 30, 10]);
    assert_eq!(swarm.nodes[4].network_signing_public_key, [0x77; 32]);
    assert_eq!(swarm.nodes[5].listen_address, "t1");
    for n in &swarm.nodes {
        assert_eq!(n.seed_peers, vec![(addr(1, 0), vec!["a1".to_string()])]);
        assert_eq!(n.safety_rules.service, SafetyRulesService::Local);
        assert!(on_disk_by_default(&n.safety_rules.backend));
    }
    let set = swarm.validator_set.deref();
    assert_eq!(set.len(), 6);
    let keys: Vec<u64> = set.iter().map(|k| k.consensus_public_key).collect();
    assert_eq!(keys, vec![10, 20, 30, 80, 30, 10]);
    let addresses: Vec<AccountAddress> = set.iter().map(|k| k.account_address).collect();
    assert_eq!(
        addresses,
        vec![addr(1, 0), addr(2, 0), addr(3, 0), addr(0xf8, 0), addr(240, 0), addr(241, 0)]
    );
    assert_eq!(set[5].network_identity_public_key, [0x78; 32]);
    assert!(set.iter().all(|k| k.consensus_voting_power == 1));
}

#[test]
fn four_nodes_with_two_targets_make_six_validators() {
    let originals = vec![
        node(5, 50, "a5"),
        node(6, 60, "a6"),
        node(7, 70, "a7"),
        node(8, 80, "a8"),
    ];
    let generated_twins = vec![node(0x11, 0, "t0"), node(0x12, 0, "t1")];
    let swarm = assemble_validator_swarm_twins(originals, generated_twins, &vec![0, 1]);
    assert_eq!(swarm.nodes.len(), 6);
    assert_eq!(swarm.validator_set.deref().len(), 6);
    let set = swarm.validator_set.deref();
    assert_eq!(set.iter().filter(|k| k.account_address == addr(0xf0, 0)).count(), 1);
    assert_eq!(set.iter().filter(|k| k.account_address == addr(0xf1, 0)).count(), 1);
    assert_eq!(swarm.nodes[4].peer_id, addr(0xf0, 0));
    assert_eq!(swarm.nodes[5].peer_id, addr(0xf1, 0));
    assert_eq!(swarm.nodes[4].consensus_public_key, swarm.nodes[0].consensus_public_key);
    assert_eq!(swarm.nodes[5].consensus_public_key, swarm.nodes[1].consensus_public_key);
}

#[test]
fn a_twins_swarm_without_targets_has_no_twins() {
    let swarm = assemble_validator_swarm_twins(vec![node(2, 20, "a2"), node(1, 10, "a1")], vec![], &vec![]);
    let peers: Vec<AccountAddress> = swarm.nodes.iter().map(|n| n.peer_id).collect();
    assert_eq!(peers, vec![addr(1, 0), addr(2, 0)]);
    assert_eq!(swarm.validator_set.deref().len(), 2);
}

#[test]
fn keys_in_any_order_give_one_validator_order() {
    let first = sort_by_account_address(vec![
        keys(addr(3, 0), 0),
        keys(addr(1, 0), 1),
        keys(addr(2, 0), 2),
        keys(addr(1, 0), 3),
    ]);
    let second = sort_by_account_address(vec![
        keys(addr(1, 0), 1),
        keys(addr(2, 0), 2),
        keys(addr(1, 0), 3),
        keys(addr(3, 0), 0),
    ]);
    assert_eq!(first, second);
}
