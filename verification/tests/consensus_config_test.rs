use libra_twins::consensus_config::{
    num_messages_to_send, ConsensusConfig, ConsensusProposerType, OnDiskStorageConfig,
    SafetyRulesBackend, SafetyRulesConfig, SafetyRulesService,
};
use libra_twins::types::AccountAddress;
use std::collections::HashMap;
use std::path::PathBuf;

#[test]
fn default_configuration() {
    let config = ConsensusConfig::default();
    assert_eq!(config.max_block_size, 1000);
    assert_eq!(config.proposer_type, ConsensusProposerType::MultipleOrderedProposers);
    assert_eq!(config.contiguous_rounds, 2);
    assert_eq!(config.max_pruned_blocks_in_mem, 10000);
    assert_eq!(config.pacemaker_initial_timeout_ms, 100);
    assert_eq!(config.safety_rules.backend, SafetyRulesBackend::InMemoryStorage);
    assert_eq!(config.safety_rules.service, SafetyRulesService::Local);
    assert!(config.round_to_proposers.is_none());
}

#[test]
fn round_to_proposers_can_be_set() {
    let mut config = ConsensusConfig::default();
    let mut map: HashMap<u64, Vec<AccountAddress>> = HashMap::new();
    map.insert(3, vec![AccountAddress::new([1u8; 32])]);
    config.set_round_to_proposers(map.clone());
    assert_eq!(config.round_to_proposers, Some(map));
    assert_eq!(config.max_block_size, 1000);
}

#[test]
fn data_dir_goes_to_on_disk_storage_only() {
    let mut config = ConsensusConfig::default();
    config.set_data_dir(PathBuf::from("/tmp/a"));
    assert_eq!(config.safety_rules.backend, SafetyRulesBackend::InMemoryStorage);

    config.safety_rules.backend = SafetyRulesBackend::OnDiskStorage(OnDiskStorageConfig {
        default: true,
        path: PathBuf::from("safety_rules.toml"),
        data_dir: PathBuf::from("/old"),
    });
    config.set_data_dir(PathBuf::from("/new"));
    assert_eq!(
        config.safety_rules.backend,
        SafetyRulesBackend::OnDiskStorage(OnDiskStorageConfig {
            default: true,
            path: PathBuf::from("safety_rules.toml"),
            data_dir: PathBuf::from("/new"),
        })
    );
}

#[test]
fn multiple_proposers_double_the_messages() {
    assert_eq!(num_messages_to_send(2, ConsensusProposerType::MultipleOrderedProposers), 2);
    assert_eq!(num_messages_to_send(2, ConsensusProposerType::FixedProposer), 1);
    assert_eq!(num_messages_to_send(4, ConsensusProposerType::RoundProposers), 3);
    assert_eq!(num_messages_to_send(4, ConsensusProposerType::MultipleOrderedProposers), 6);
    assert_eq!(num_messages_to_send(1, ConsensusProposerType::RotatingProposer), 0);
}

#[test]
fn default_on_disk_storage() {
    let storage = OnDiskStorageConfig::default();
    assert!(!storage.default);
    assert_eq!(storage.path, PathBuf::from("safety_rules.toml"));
    assert_eq!(storage.data_dir, PathBuf::from("/opt/libra/data/common"));
}

#[test]
fn generated_nodes_keep_safety_data_on_disk_by_default() {
    let mut rules = SafetyRulesConfig::default();
    rules.use_default_on_disk_storage();
    assert_eq!(rules.service, SafetyRulesService::Local);
    assert_eq!(
        rules.backend,
        SafetyRulesBackend::OnDiskStorage(OnDiskStorageConfig {
            default: true,
            path: PathBuf::from("safety_rules.toml"),
            data_dir: PathBuf::from("/opt/libra/data/common"),
        })
    );

    let mut rules = SafetyRulesConfig::default();
    rules.service = SafetyRulesService::Serializer;
    rules.use_thread_and_default_on_disk_storage();
    assert_eq!(rules.service, SafetyRulesService::Thread);
    assert!(matches!(rules.backend, SafetyRulesBackend::OnDiskStorage(ref c) if c.default));
}

#[test]
fn test_nodes_use_default_safety_rules() {
    let mut config = ConsensusConfig::default();
    config.safety_rules.service = SafetyRulesService::Thread;
    config.set_up_test_node(ConsensusProposerType::RotatingProposer);
    assert_eq!(config.proposer_type, ConsensusProposerType::RotatingProposer);
    assert_eq!(config.safety_rules, SafetyRulesConfig::default());
    assert_eq!(config.pacemaker_initial_timeout_ms, 5000);
    assert_eq!(config.max_block_size, 1000);

    let mut config = ConsensusConfig::default();
    let mut map: HashMap<u64, Vec<AccountAddress>> = HashMap::new();
    map.insert(1, vec![AccountAddress::new([2u8; 32])]);
    config.set_round_to_proposers(map.clone());
    config.safety_rules.use_thread_and_default_on_disk_storage();
    config.set_up_twins_test_node(ConsensusProposerType::RoundProposers);
    assert_eq!(config.proposer_type, ConsensusProposerType::RoundProposers);
    assert_eq!(config.safety_rules, SafetyRulesConfig::default());
    assert_eq!(config.pacemaker_initial_timeout_ms, 100);
    assert_eq!(config.round_to_proposers, Some(map));
}
