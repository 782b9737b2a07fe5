# libra_twins

Leader election by round, validator sets, consensus configuration, and the
scenario machinery of Twins testing for a BFT consensus protocol, written in
Verus with their contracts proved.

- `src/round_proposers.rs`: election by a map from rounds to their proposers,
  falling back to a default proposer.
- `src/validator_set.rs`, `src/account_config.rs`, `src/types.rs`: the
  validator set, well-known addresses, event keys, addresses and hashes.
- `src/consensus_config.rs`: the consensus configuration and its defaults.
- `src/generator.rs`: ordering validator keys by address, twin addresses,
  and assembling a network of generated nodes (with or without twins).
- `src/twins/`: set partitions of the nodes (`partitions.rs`), cutting
  lists of scenarios down (`sampling.rs`), building and scheduling test cases
  (`scenarios.rs`), turning node indices into addresses (`addresses.rs`), and
  the commit-log safety check (`safety.rs`).
- `app/`: serializable copies of library types, and a dry run of the test
  generator that prints its plan.
