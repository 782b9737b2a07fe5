//! The configuration of consensus: block size, leader election strategy,
//! timeouts, safety rules storage, and the optional map from rounds to their
//! proposers.

use vstd::prelude::*;
use std::collections::HashMap;
use std::path::PathBuf;
use crate::types::AccountAddress;

verus! {

/// A path in the file system.
#[verifier::external_type_specification]
#[verifier::external_body]
pub struct ExPathBuf(PathBuf);

/// `Clone::clone` on a path returns a copy of it; nothing is claimed of the
/// copy here, as no contract reads paths.
pub assume_specification[ <PathBuf as Clone>::clone ](p: &PathBuf) -> PathBuf;

/// `PathBuf::from` on a string slice returns the path that the string
/// names; nothing is claimed of the path here, as no contract reads paths.
#[verifier::external_body]
fn path_from(s: &str) -> (r: PathBuf) {
    PathBuf::from(s)
}

/// How the leader of a round is chosen.
#[derive(Clone, Copy, Debug, PartialEq, Eq, Structural)]
pub enum ConsensusProposerType {
    /// Choose the smallest PeerId as the proposer.
    FixedProposer,
    /// Round robin rotation of proposers.
    RotatingProposer,
    /// Multiple ordered proposers per round (primary, secondary, etc.).
    MultipleOrderedProposers,
    /// Pre-specified mapping between rounds and proposers (defaults to the
    /// first validator if there's no proposer for a round).
    RoundProposers,
}

/// Where safety rules keep their data on disk.
#[derive(Clone, Debug, PartialEq)]
pub struct OnDiskStorageConfig {
    /// Whether this is the default storage of the node.
    pub default: bool,
    /// The file that holds the data, relative to the data directory.
    pub path: PathBuf,
    /// The directory that holds the data.
    pub data_dir: PathBuf,
}

impl Default for OnDiskStorageConfig {
    /// Not the default storage of the node; the data in `safety_rules.toml`
    /// under `/opt/libra/data/common`.
    fn default() -> (r: Self)
        ensures
            r.default == false,
    {
        OnDiskStorageConfig {
            default: false,
            path: path_from("safety_rules.toml"),
            data_dir: path_from("/opt/libra/data/common"),
        }
    }
}

/// Safety rules keep their data on disk, in storage marked as the node's
/// default storage.
pub open spec fn on_disk_by_default(backend: SafetyRulesBackend) -> bool {
    backend matches SafetyRulesBackend::OnDiskStorage(c) && c.default
}

impl OnDiskStorageConfig {
    /// Sets the directory that holds the data.
    pub fn set_data_dir(&mut self, data_dir: PathBuf)
        ensures
            final(self).data_dir == data_dir,
            final(self).default == old(self).default,
            final(self).path == old(self).path,
    {
        self.data_dir = data_dir;
    }
}

/// Where safety rules keep their data.
#[derive(Clone, Debug, PartialEq)]
pub enum SafetyRulesBackend {
    InMemoryStorage,
    OnDiskStorage(OnDiskStorageConfig),
}

/// How safety rules run with respect to consensus.
#[derive(Clone, Copy, Debug, PartialEq, Eq, Structural)]
pub enum SafetyRulesService {
    /// In the consensus thread.
    Local,
    /// In the consensus thread, its messages serialized.
    Serializer,
    /// In a thread of its own.
    Thread,
}

/// The configuration of safety rules.
#[derive(Clone, Debug, PartialEq)]
pub struct SafetyRulesConfig {
    pub backend: SafetyRulesBackend,
    pub service: SafetyRulesService,
}

impl Default for SafetyRulesConfig {
    fn default() -> (r: Self)
        ensures
            r.backend == SafetyRulesBackend::InMemoryStorage,
            r.service == SafetyRulesService::Local,
    {
        SafetyRulesConfig { backend: SafetyRulesBackend::InMemoryStorage, service: SafetyRulesService::Local }
    }
}

impl SafetyRulesConfig {
    /// Keeps the data on disk, in the default on-disk storage marked as the
    /// node's default storage; the service stays as it is.
    pub fn use_default_on_disk_storage(&mut self)
        ensures
            on_disk_by_default(final(self).backend),
            final(self).service == old(self).service,
    {
        let mut storage_config = OnDiskStorageConfig::default();
        storage_config.default = true;
        self.backend = SafetyRulesBackend::OnDiskStorage(storage_config);
    }

    /// Runs safety rules in a thread of their own, keeping the data on
    /// disk as `use_default_on_disk_storage` does.
    pub fn use_thread_and_default_on_disk_storage(&mut self)
        ensures
            on_disk_by_default(final(self).backend),
            final(self).service == SafetyRulesService::Thread,
    {
        self.use_default_on_disk_storage();
        self.service = SafetyRulesService::Thread;
    }

    /// Points on-disk storage at `data_dir`; in-memory storage has no
    /// directory and stays as it is.
    pub fn set_data_dir(&mut self, data_dir: PathBuf)
        ensures
            final(self).service == old(self).service,
            final(self).backend == (match old(self).backend {
                SafetyRulesBackend::OnDiskStorage(c) => SafetyRulesBackend::OnDiskStorage(
                    OnDiskStorageConfig { data_dir, ..c },
                ),
                SafetyRulesBackend::InMemoryStorage => SafetyRulesBackend::InMemoryStorage,
            }),
    {
        if let SafetyRulesBackend::OnDiskStorage(backend) = &mut self.backend {
            backend.set_data_dir(data_dir);
        }
    }
}

/// The configuration of consensus.
#[derive(Clone, Debug, PartialEq)]
pub struct ConsensusConfig {
    pub max_block_size: u64,
    pub proposer_type: ConsensusProposerType,
    pub contiguous_rounds: u32,
    pub max_pruned_blocks_in_mem: usize,
    pub pacemaker_initial_timeout_ms: u64,
    pub safety_rules: SafetyRulesConfig,
    /// The leader(s) of each round, where given; motivated by Twins, but
    /// usable generally.
    pub round_to_proposers: Option<HashMap<u64, Vec<AccountAddress>>>,
}

impl Default for ConsensusConfig {
    fn default() -> (r: ConsensusConfig)
        ensures
            r.max_block_size == 1000,
            r.proposer_type == ConsensusProposerType::MultipleOrderedProposers,
            r.contiguous_rounds == 2,
            r.max_pruned_blocks_in_mem == 10000,
            r.pacemaker_initial_timeout_ms == 100,
            r.safety_rules.backend == SafetyRulesBackend::InMemoryStorage,
            r.safety_rules.service == SafetyRulesService::Local,
            r.round_to_proposers is None,
    {
        ConsensusConfig {
            max_block_size: 1000,
            proposer_type: ConsensusProposerType::MultipleOrderedProposers,
            contiguous_rounds: 2,
            max_pruned_blocks_in_mem: 10000,
            pacemaker_initial_timeout_ms: 100,
            safety_rules: SafetyRulesConfig::default(),
            round_to_proposers: None,
        }
    }
}

impl ConsensusConfig {
    /// Points the safety rules' storage at `data_dir`.
    pub fn set_data_dir(&mut self, data_dir: PathBuf)
        ensures
            final(self).safety_rules.service == old(self).safety_rules.service,
            final(self).safety_rules.backend == (match old(self).safety_rules.backend {
                SafetyRulesBackend::OnDiskStorage(c) => SafetyRulesBackend::OnDiskStorage(
                    OnDiskStorageConfig { data_dir, ..c },
                ),
                SafetyRulesBackend::InMemoryStorage => SafetyRulesBackend::InMemoryStorage,
            }),
            final(self).max_block_size == old(self).max_block_size,
            final(self).proposer_type == old(self).proposer_type,
            final(self).contiguous_rounds == old(self).contiguous_rounds,
            final(self).max_pruned_blocks_in_mem == old(self).max_pruned_blocks_in_mem,
            final(self).pacemaker_initial_timeout_ms == old(self).pacemaker_initial_timeout_ms,
            final(self).round_to_proposers == old(self).round_to_proposers,
    {
        self.safety_rules.set_data_dir(data_dir);
    }

    /// Sets a node of a test network up: `proposer_type` chooses the
    /// leaders, safety rules take their default settings (in the consensus
    /// thread, data in memory), and the first round waits 5000 ms before it
    /// times out; the rest of the configuration stays as it is.
    pub fn set_up_test_node(&mut self, proposer_type: ConsensusProposerType)
        ensures
            final(self).proposer_type == proposer_type,
            final(self).safety_rules.backend == SafetyRulesBackend::InMemoryStorage,
            final(self).safety_rules.service == SafetyRulesService::Local,
            final(self).pacemaker_initial_timeout_ms == 5000,
            final(self).max_block_size == old(self).max_block_size,
            final(self).contiguous_rounds == old(self).contiguous_rounds,
            final(self).max_pruned_blocks_in_mem == old(self).max_pruned_blocks_in_mem,
            final(self).round_to_proposers == old(self).round_to_proposers,
    {
        self.set_up_twins_test_node(proposer_type);
        self.pacemaker_initial_timeout_ms = 5000;
    }

    /// Sets a node of a test network with twins up: `proposer_type`
    /// chooses the leaders and safety rules take their default settings
    /// (in the consensus thread, data in memory); the rest of the
    /// configuration, its timeout and leaders per round included, stays as
    /// it is.
    pub fn set_up_twins_test_node(&mut self, proposer_type: ConsensusProposerType)
        ensures
            final(self).proposer_type == proposer_type,
            final(self).safety_rules.backend == SafetyRulesBackend::InMemoryStorage,
            final(self).safety_rules.service == SafetyRulesService::Local,
            final(self).pacemaker_initial_timeout_ms == old(self).pacemaker_initial_timeout_ms,
            final(self).max_block_size == old(self).max_block_size,
            final(self).contiguous_rounds == old(self).contiguous_rounds,
            final(self).max_pruned_blocks_in_mem == old(self).max_pruned_blocks_in_mem,
            final(self).round_to_proposers == old(self).round_to_proposers,
    {
        self.proposer_type = proposer_type;
        self.safety_rules = SafetyRulesConfig::default();
    }

    /// Sets the map from rounds to their leader(s); the rest of the
    /// configuration stays as it is.
    pub fn set_round_to_proposers(&mut self, round_to_proposers_map: HashMap<u64, Vec<AccountAddress>>)
        ensures
            final(self).round_to_proposers == Some(round_to_proposers_map),
            final(self).max_block_size == old(self).max_block_size,
            final(self).proposer_type == old(self).proposer_type,
            final(self).contiguous_rounds == old(self).contiguous_rounds,
            final(self).max_pruned_blocks_in_mem == old(self).max_pruned_blocks_in_mem,
            final(self).pacemaker_initial_timeout_ms == old(self).pacemaker_initial_timeout_ms,
            final(self).safety_rules == old(self).safety_rules,
    {
        self.round_to_proposers = Some(round_to_proposers_map);
    }
}

/// How many copies of each proposal, and of each vote, a round of
/// `num_nodes` nodes sends: one to each other node, or two when multiple
/// ordered proposers are in use.
pub fn num_messages_to_send(num_nodes: usize, proposer_type: ConsensusProposerType) -> (r: usize)
    requires
        num_nodes >= 1,
        2 * (num_nodes - 1) <= usize::MAX,
    ensures
        r == if proposer_type == ConsensusProposerType::MultipleOrderedProposers {
            2 * (num_nodes - 1)
        } else {
            num_nodes - 1
        },
{
    if proposer_type == ConsensusProposerType::MultipleOrderedProposers {
        2 * (num_nodes - 1)
    } else {
        num_nodes - 1
    }
}

} // verus!
