//! Turning the node indices of a Twins scenario into the account addresses
//! of the nodes: the leaders of each round, and the partitions of each
//! round.

use vstd::prelude::*;
use std::collections::HashMap;
use crate::twins::partitions::groups_of;
use crate::types::{AccountAddress, Round};

verus! {

broadcast use vstd::std_specs::hash::group_hash_axioms;

/// The addresses of the nodes at the given indices, in the same order.
pub open spec fn authors_at(indices: Seq<usize>, authors: Seq<AccountAddress>) -> Seq<AccountAddress> {
    indices.map_values(|i: usize| authors[i as int])
}

/// The groups of a partition written with addresses.
pub open spec fn address_groups_of(p: Vec<Vec<AccountAddress>>) -> Seq<Seq<AccountAddress>> {
    p@.map_values(|g: Vec<AccountAddress>| g@)
}

fn authors_of(indices: &Vec<usize>, authors: &Vec<AccountAddress>) -> (r: Vec<AccountAddress>)
    requires
        forall|j: int| 0 <= j < indices@.len() ==> #[trigger] indices@[j] < authors@.len(),
    ensures
        r@ == authors_at(indices@, authors@),
{
    let mut r: Vec<AccountAddress> = Vec::new();
    let mut j: usize = 0;
    while j < indices.len()
        invariant
            j <= indices@.len(),
            forall|j: int| 0 <= j < indices@.len() ==> #[trigger] indices@[j] < authors@.len(),
            r@ == authors_at(indices@.take(j as int), authors@),
        decreases indices@.len() - j,
    {
        r.push(authors[indices[j]]);
        j = j + 1;
        assert(r@ =~= authors_at(indices@.take(j as int), authors@));
    }
    assert(indices@.take(indices@.len() as int) =~= indices@);
    r
}

/// The leaders of each round, given by node index, as the account
/// addresses of those nodes (`authors[i]` is the address of node `i`).
pub fn proposers_by_author(
    twins_round_proposers_idx: &HashMap<Round, Vec<usize>>,
    authors: &Vec<AccountAddress>,
) -> (r: HashMap<Round, Vec<AccountAddress>>)
    requires
        forall|q: Round, j: int|
            twins_round_proposers_idx@.contains_key(q) && 0 <= j < twins_round_proposers_idx@[q]@.len()
                ==> #[trigger] twins_round_proposers_idx@[q]@[j] < authors@.len(),
    ensures
        forall|q: Round| #[trigger] r@.contains_key(q) <==> twins_round_proposers_idx@.contains_key(q),
        forall|q: Round|
            #[trigger] r@.contains_key(q) ==> r@[q]@ == authors_at(twins_round_proposers_idx@[q]@, authors@),
{
    let ghost m = twins_round_proposers_idx@;
    let mut out: HashMap<Round, Vec<AccountAddress>> = HashMap::new();
    for (round, vec_idx) in it: twins_round_proposers_idx.iter()
        invariant
            m == twins_round_proposers_idx@,
            forall|q: Round, j: int|
                m.contains_key(q) && 0 <= j < m[q]@.len() ==> #[trigger] m[q]@[j] < authors@.len(),
            it.seq().len() == m.dom().len(),
            forall|j: int| 0 <= j < it.seq().len() ==> m.contains_key(*it.seq()[j].0) && m[*it.seq()[j].0] == *it.seq()[j].1,
            forall|q: Round| m.contains_key(q) ==> it.seq().contains((&q, &m[q])),
            forall|q: Round| #[trigger] out@.contains_key(q) <==> exists|j: int| 0 <= j < it.index() && *it.seq()[j].0 == q,
            forall|q: Round| #[trigger] out@.contains_key(q) ==> out@[q]@ == authors_at(m[q]@, authors@),
    {
        let idx_to_authors = authors_of(vec_idx, authors);
        out.insert(*round, idx_to_authors);
    }
    out
}

fn address_partition(p: &Vec<Vec<usize>>, authors: &Vec<AccountAddress>) -> (r: Vec<Vec<AccountAddress>>)
    requires
        forall|b: int, j: int| 0 <= b < p@.len() && 0 <= j < p@[b]@.len() ==> #[trigger] p@[b]@[j] < authors@.len(),
    ensures
        address_groups_of(r) == groups_of(*p).map_values(|g: Seq<usize>| authors_at(g, authors@)),
{
    let mut r: Vec<Vec<AccountAddress>> = Vec::new();
    let mut b: usize = 0;
    while b < p.len()
        invariant
            b <= p@.len(),
            forall|b: int, j: int| 0 <= b < p@.len() && 0 <= j < p@[b]@.len() ==> #[trigger] p@[b]@[j] < authors@.len(),
            r@.len() == b,
            forall|c: int| 0 <= c < b ==> (#[trigger] r@[c])@ == authors_at(p@[c]@, authors@),
        decreases p@.len() - b,
    {
        let g = authors_of(&p[b], authors);
        let ghost old_r = r@;
        r.push(g);
        assert(forall|c: int| 0 <= c < old_r.len() ==> r@[c] == old_r[c]);
        b = b + 1;
    }
    assert(address_groups_of(r) =~= groups_of(*p).map_values(|g: Seq<usize>| authors_at(g, authors@)));
    r
}

/// The partitions of each round, given by node index, as the account
/// addresses of those nodes (`authors[i]` is the address of node `i`).
pub fn partitions_by_author(
    round_partitions_idx: &HashMap<u64, Vec<Vec<usize>>>,
    authors: &Vec<AccountAddress>,
) -> (r: HashMap<u64, Vec<Vec<AccountAddress>>>)
    requires
        forall|q: u64, b: int, j: int|
            round_partitions_idx@.contains_key(q) && 0 <= b < round_partitions_idx@[q]@.len() && 0 <= j
                < round_partitions_idx@[q]@[b]@.len() ==> #[trigger] round_partitions_idx@[q]@[b]@[j] < authors@.len(),
    ensures
        forall|q: u64| #[trigger] r@.contains_key(q) <==> round_partitions_idx@.contains_key(q),
        forall|q: u64|
            #[trigger] r@.contains_key(q) ==> address_groups_of(r@[q]) == groups_of(round_partitions_idx@[q]).map_values(
                |g: Seq<usize>| authors_at(g, authors@),
            ),
{
    let ghost m = round_partitions_idx@;
    let mut out: HashMap<u64, Vec<Vec<AccountAddress>>> = HashMap::new();
    for (round, partitions) in it: round_partitions_idx.iter()
        invariant
            m == round_partitions_idx@,
            forall|q: u64, b: int, j: int|
                m.contains_key(q) && 0 <= b < m[q]@.len() && 0 <= j < m[q]@[b]@.len() ==> #[trigger] m[q]@[b]@[j] < authors@.len(),
            it.seq().len() == m.dom().len(),
            forall|j: int| 0 <= j < it.seq().len() ==> m.contains_key(*it.seq()[j].0) && m[*it.seq()[j].0] == *it.seq()[j].1,
            forall|q: u64| m.contains_key(q) ==> it.seq().contains((&q, &m[q])),
            forall|q: u64| #[trigger] out@.contains_key(q) <==> exists|j: int| 0 <= j < it.index() && *it.seq()[j].0 == q,
            forall|q: u64|
                #[trigger] out@.contains_key(q) ==> address_groups_of(out@[q]) == groups_of(m[q]).map_values(
                    |g: Seq<usize>| authors_at(g, authors@),
                ),
    {
        let round_account_addrs = address_partition(partitions, authors);
        out.insert(*round, round_account_addrs);
    }
    out
}

} // verus!
