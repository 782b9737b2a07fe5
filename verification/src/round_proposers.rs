//! Leader election by a map from rounds to their proposers: a round named
//! in the map has the proposers listed there; any other round, or every
//! round when there is no map, has the default proposer alone.

use vstd::prelude::*;
use std::collections::HashMap;
use crate::block::Block;
use crate::types::{Author, Round};

verus! {

broadcast use vstd::std_specs::hash::group_hash_axioms;

/// The round proposer maps a round to its author(s).
pub struct RoundProposers {
    /// The proposers of the rounds it names.
    proposers: Option<HashMap<Round, Vec<Author>>>,
    /// The proposer of every other round.
    default_proposer: Author,
}

/// The proposers of `round` under the map `proposers` and the default
/// proposer `default_proposer`.
pub open spec fn proposers_of_round(
    proposers: Option<Map<Round, Vec<Author>>>,
    default_proposer: Author,
    round: Round,
) -> Seq<Author> {
    match proposers {
        None => seq![default_proposer],
        Some(m) => if m.contains_key(round) {
            m[round]@
        } else {
            seq![default_proposer]
        },
    }
}

/// What `is_valid_proposer` answers: the author when it is among the
/// proposers of the round, and nothing otherwise.
pub open spec fn valid_proposer(proposers: Seq<Author>, author: Author) -> Option<Author> {
    if proposers.contains(author) {
        Some(author)
    } else {
        None
    }
}

/// What `process_proposal` answers: the proposal when it has an author and
/// that author is among the proposers of its round, and nothing otherwise.
pub open spec fn accepted_proposal<T>(proposers: Seq<Author>, proposal: Block<T>) -> Option<Block<T>> {
    match proposal.spec_author() {
        Some(author) => if proposers.contains(author) {
            Some(proposal)
        } else {
            None
        },
        None => None,
    }
}

fn authors_contain(authors: &Vec<Author>, author: Author) -> (r: bool)
    ensures
        r == authors@.contains(author),
{
    let mut i: usize = 0;
    while i < authors.len()
        invariant
            i <= authors@.len(),
            forall|j: int| 0 <= j < i ==> authors@[j] != author,
        decreases authors@.len() - i,
    {
        if authors[i] == author {
            assert(authors@[i as int] == author);
            return true;
        }
        i = i + 1;
    }
    false
}

fn copy_authors(authors: &Vec<Author>) -> (r: Vec<Author>)
    ensures
        r@ == authors@,
{
    let mut r: Vec<Author> = Vec::new();
    let mut i: usize = 0;
    while i < authors.len()
        invariant
            i <= authors@.len(),
            r@ == authors@.take(i as int),
        decreases authors@.len() - i,
    {
        r.push(authors[i]);
        i = i + 1;
        assert(r@ =~= authors@.take(i as int));
    }
    assert(authors@.take(authors@.len() as int) =~= authors@);
    r
}

impl RoundProposers {
    /// The map from rounds to their proposers, if there is one.
    pub closed spec fn proposer_map(&self) -> Option<Map<Round, Vec<Author>>> {
        match self.proposers {
            None => None,
            Some(m) => Some(m@),
        }
    }

    /// The proposer of the rounds the map does not name.
    pub closed spec fn default_author(&self) -> Author {
        self.default_proposer
    }

    /// The proposers of `round`.
    pub open spec fn proposers_for(&self, round: Round) -> Seq<Author> {
        proposers_of_round(self.proposer_map(), self.default_author(), round)
    }

    /// Election by the given map from rounds to proposers, falling back to
    /// `default_proposer`. With no map, or with a single proposer listed for
    /// each round, it behaves as a fixed proposer strategy.
    pub fn new(proposers: Option<HashMap<Round, Vec<Author>>>, default_proposer: Author) -> (r: Self)
        ensures
            r.proposer_map() == (match proposers {
                None => None,
                Some(m) => Some(m@),
            }),
            r.default_author() == default_proposer,
    {
        Self { proposers, default_proposer }
    }

    /// The proposers of `round`: those the map lists for it, or the default
    /// proposer alone when there is no map or the map does not name the
    /// round.
    fn get_proposers(&self, round: Round) -> (r: Vec<Author>)
        ensures
            r@ == self.proposers_for(round),
    {
        match &self.proposers {
            None => {
                let mut r: Vec<Author> = Vec::new();
                r.push(self.default_proposer);
                assert(r@ =~= seq![self.default_proposer]);
                r
            },
            Some(map) => {
                match map.get(&round) {
                    None => {
                        let mut r: Vec<Author> = Vec::new();
                        r.push(self.default_proposer);
                        assert(r@ =~= seq![self.default_proposer]);
                        r
                    },
                    Some(round_proposers) => copy_authors(round_proposers),
                }
            },
        }
    }

    /// The author, if it is one of the proposers of `round`; nothing
    /// otherwise.
    pub fn is_valid_proposer(&self, author: Author, round: Round) -> (r: Option<Author>)
        ensures
            r == valid_proposer(self.proposers_for(round), author),
    {
        if authors_contain(&self.get_proposers(round), author) {
            Some(author)
        } else {
            None
        }
    }

    /// The proposers of `round`, in the order the map lists them.
    pub fn get_valid_proposers(&self, round: Round) -> (r: Vec<Author>)
        ensures
            r@ == self.proposers_for(round),
    {
        self.get_proposers(round)
    }

    /// Hands the proposal back when its author is one of the proposers of
    /// its round, and drops it otherwise (a block without an author is
    /// dropped too).
    pub fn process_proposal<T>(&mut self, proposal: Block<T>) -> (r: Option<Block<T>>)
        ensures
            *final(self) == *old(self),
            r == accepted_proposal(old(self).proposers_for(proposal.round), proposal),
    {
        let author = match proposal.author() {
            Some(a) => a,
            None => return None,
        };
        let round = proposal.round();
        let proposers = self.get_proposers(round);
        let mut i: usize = 0;
        while i < proposers.len()
            invariant
                i <= proposers@.len(),
                proposers@ == self.proposers_for(proposal.round),
                proposal.spec_author() == Some(author),
                forall|j: int| 0 <= j < i ==> proposers@[j] != author,
            decreases proposers@.len() - i,
        {
            if author == proposers[i] {
                assert(proposers@[i as int] == author);
                return Some(proposal);
            }
            i = i + 1;
        }
        None
    }

    /// This election keeps no backup proposals: there is never one to take.
    pub fn take_backup_proposal<T>(&mut self, round: Round) -> (r: Option<Block<T>>)
        ensures
            *final(self) == *old(self),
            r.is_none(),
    {
        None
    }
}

/// An author is reported valid for a round exactly when it is among the
/// proposers `get_valid_proposers` lists for that round.
pub proof fn lemma_valid_iff_listed(rp: RoundProposers, author: Author, round: Round)
    ensures
        valid_proposer(rp.proposers_for(round), author) == Some(author) <==> rp.proposers_for(round).contains(author),
        valid_proposer(rp.proposers_for(round), author) is None <==> !rp.proposers_for(round).contains(author),
{
}

/// A proposal is accepted exactly when it has an author and that author is
/// reported valid for the proposal's round; an accepted proposal comes back
/// unchanged.
pub proof fn lemma_accepted_iff_valid_author<T>(rp: RoundProposers, proposal: Block<T>)
    ensures
        accepted_proposal(rp.proposers_for(proposal.round), proposal) is Some <==> (
        proposal.spec_author() is Some && valid_proposer(
            rp.proposers_for(proposal.round),
            proposal.spec_author().unwrap(),
        ) == proposal.spec_author()),
        accepted_proposal(rp.proposers_for(proposal.round), proposal) is Some ==> accepted_proposal(
            rp.proposers_for(proposal.round),
            proposal,
        ) == Some(proposal),
{
}

/// Without a map, or for a round the map does not name, the default
/// proposer is the one and only proposer, as with a fixed proposer.
pub proof fn lemma_default_proposer_alone(rp: RoundProposers, round: Round)
    requires
        rp.proposer_map() is None || !rp.proposer_map().unwrap().contains_key(round),
    ensures
        rp.proposers_for(round) == seq![rp.default_author()],
{
}

/// A round the map names has exactly the proposers listed for it.
pub proof fn lemma_mapped_round_proposers(rp: RoundProposers, round: Round)
    requires
        rp.proposer_map() is Some,
        rp.proposer_map().unwrap().contains_key(round),
    ensures
        rp.proposers_for(round) == rp.proposer_map().unwrap()[round]@,
{
}

} // verus!
