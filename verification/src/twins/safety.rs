//! The safety check of a Twins run: each node's committed blocks laid out by
//! round, and the comparison of those branches round by round.

use vstd::prelude::*;
use crate::types::{HashValue, zero_hash};

verus! {

/// The entries of a list of branches, as sequences.
pub open spec fn branches_of(vecs: Seq<Vec<HashValue>>) -> Seq<Seq<HashValue>> {
    vecs.map_values(|v: Vec<HashValue>| v@)
}

/// The branches agree at position `i`: any two of them that hold a non-zero
/// entry there hold the same one.
pub open spec fn agree_at(vecs: Seq<Seq<HashValue>>, i: int) -> bool {
    forall|a: int, b: int|
        0 <= a < vecs.len() && 0 <= b < vecs.len() && 0 <= i < vecs[a].len() && 0 <= i < vecs[b].len()
            && vecs[a][i] != zero_hash() && vecs[b][i] != zero_hash() ==> #[trigger] vecs[a][i]
            == #[trigger] vecs[b][i]
}

/// No two branches disagree at any position.
pub open spec fn branches_agree(vecs: Seq<Seq<HashValue>>) -> bool {
    forall|i: int| 0 <= i ==> #[trigger] agree_at(vecs, i)
}

/// The position of the first longest branch and its length: the length is
/// the largest length among the branches (0 when there are none), and the
/// position is that of the first branch of that length, or 0 when the length
/// is 0.
pub fn longest_vector(vecs: &Vec<Vec<HashValue>>) -> (r: (usize, usize))
    ensures
        forall|i: int| 0 <= i < vecs@.len() ==> (#[trigger] vecs@[i]).len() <= r.1,
        r.1 > 0 ==> r.0 < vecs@.len() && vecs@[r.0 as int].len() == r.1 && forall|i: int|
            0 <= i < r.0 ==> (#[trigger] vecs@[i]).len() < r.1,
        r.1 == 0 ==> r.0 == 0,
{
    let mut max_len: usize = 0;
    let mut idx: usize = 0;
    let mut i: usize = 0;
    while i < vecs.len()
        invariant
            i <= vecs.len(),
            forall|j: int| 0 <= j < i ==> (#[trigger] vecs@[j]).len() <= max_len,
            max_len > 0 ==> idx < i && vecs@[idx as int].len() == max_len && forall|j: int|
                0 <= j < idx ==> (#[trigger] vecs@[j]).len() < max_len,
            max_len == 0 ==> idx == 0,
        decreases vecs.len() - i,
    {
        let vec_len = vecs[i].len();
        if vec_len > max_len {
            max_len = vec_len;
            idx = i;
        }
        i = i + 1;
    }
    (idx, max_len)
}

/// Compares the branches position by position, ignoring the zero entries
/// (rounds a node has no commit for) and the positions past the end of a
/// branch: true exactly when no two branches hold different non-zero
/// entries at the same position.
pub fn compare_vectors(vecs: &Vec<Vec<HashValue>>) -> (r: bool)
    ensures
        r == branches_agree(branches_of(vecs@)),
{
    let ghost bs = branches_of(vecs@);
    let (_longest_idx, longest_len) = longest_vector(vecs);
    let zero = HashValue::zero();
    let mut is_conflict = false;
    let mut i: usize = 0;
    while i < longest_len
        invariant
            bs == branches_of(vecs@),
            zero == zero_hash(),
            forall|j: int| 0 <= j < vecs@.len() ==> (#[trigger] vecs@[j]).len() <= longest_len,
            i <= longest_len,
            is_conflict == exists|i2: int| 0 <= i2 < i && !#[trigger] agree_at(bs, i2),
        decreases longest_len - i,
    {
        let mut val = HashValue::zero();
        let mut first_time = true;
        let mut conflict_here = false;
        let mut j: usize = 0;
        while j < vecs.len()
            invariant_except_break
                bs == branches_of(vecs@),
                zero == zero_hash(),
                j <= vecs.len(),
                !conflict_here,
                first_time ==> forall|a: int|
                    0 <= a < j && i < bs[a].len() ==> #[trigger] bs[a][i as int] == zero_hash(),
                !first_time ==> val != zero_hash() && exists|a: int|
                    0 <= a < j && i < bs[a].len() && #[trigger] bs[a][i as int] == val,
                !first_time ==> forall|a: int|
                    0 <= a < j && i < bs[a].len() && #[trigger] bs[a][i as int] != zero_hash()
                        ==> bs[a][i as int] == val,
            ensures
                conflict_here <==> !agree_at(bs, i as int),
            decreases vecs.len() - j,
        {
            assert(bs[j as int] == vecs@[j as int]@);
            if i < vecs[j].len() {
                let entry = vecs[j][i];
                if !(entry == zero) {
                    if first_time {
                        val = entry;
                        first_time = false;
                    }
                    if !(val == entry) {
                        conflict_here = true;
                        proof {
                            let w = choose|a: int| 0 <= a < j && i < bs[a].len() && #[trigger] bs[a][i as int] == val;
                            assert(bs[w][i as int] != bs[j as int][i as int]);
                        }
                        break;
                    }
                }
            }
            j = j + 1;
        }
        if conflict_here {
            is_conflict = true;
        }
        proof {
            if exists|i2: int| 0 <= i2 < i + 1 && !#[trigger] agree_at(bs, i2) {
                let w = choose|i2: int| 0 <= i2 < i + 1 && !#[trigger] agree_at(bs, i2);
                if w < i {
                    assert(exists|i2: int| 0 <= i2 < i && !#[trigger] agree_at(bs, i2));
                }
            }
        }
        i = i + 1;
    }
    proof {
        assert forall|i2: int| 0 <= i2 implies #[trigger] agree_at(bs, i2) || i2 < longest_len by {
            if i2 >= longest_len {
                assert forall|a: int, b: int|
                    0 <= a < bs.len() && 0 <= b < bs.len() && 0 <= i2 < bs[a].len() && 0 <= i2 < bs[b].len()
                        && bs[a][i2] != zero_hash() && bs[b][i2] != zero_hash() implies #[trigger] bs[a][i2]
                        == #[trigger] bs[b][i2] by {
                    assert(bs[a] == vecs@[a]@);
                }
            }
        }
        if is_conflict {
            let w = choose|i2: int| 0 <= i2 < i && !#[trigger] agree_at(bs, i2);
            assert(!branches_agree(bs));
        }
    }
    !is_conflict
}

/// The commit logs of the nodes do not conflict: no two nodes committed
/// different blocks at the same round.
pub fn is_safe(branches: Vec<Vec<HashValue>>) -> (r: bool)
    ensures
        r == branches_agree(branches_of(branches@)),
{
    compare_vectors(&branches)
}

/// The highest round among the commits, 0 when there are none.
pub open spec fn highest_round(commits: Seq<(u64, HashValue)>) -> nat
    decreases commits.len(),
{
    if commits.len() == 0 {
        0
    } else {
        let rest = highest_round(commits.drop_last());
        if commits.last().0 > rest {
            commits.last().0 as nat
        } else {
            rest
        }
    }
}

/// The block committed at round `r` by the last commit of that round, or the
/// zero hash when no commit is of round `r`.
pub open spec fn committed_at(commits: Seq<(u64, HashValue)>, r: nat) -> HashValue
    decreases commits.len(),
{
    if commits.len() == 0 {
        zero_hash()
    } else if commits.last().0 == r {
        commits.last().1
    } else {
        committed_at(commits.drop_last(), r)
    }
}

/// A node's branch: position `r - 1` holds the block it committed at round
/// `r`, for every round up to the highest it committed.
pub open spec fn branch_of_commits(commits: Seq<(u64, HashValue)>) -> Seq<HashValue> {
    Seq::new(highest_round(commits), |i: int| committed_at(commits, (i + 1) as nat))
}

/// Lays out a node's commits by round: the result has one entry per round
/// from 1 to the highest round committed, and entry `r - 1` is the block of
/// the last commit of round `r`, or the zero hash when round `r` has none
/// (a later commit of a round replaces an earlier one).
pub fn commits_by_round(commits: &Vec<(u64, HashValue)>) -> (r: Vec<HashValue>)
    requires
        forall|i: int| 0 <= i < commits@.len() ==> 1 <= (#[trigger] commits@[i]).0 <= usize::MAX,
    ensures
        r@ == branch_of_commits(commits@),
{
    let mut highest: u64 = 0;
    let mut j: usize = 0;
    while j < commits.len()
        invariant
            j <= commits@.len(),
            forall|i: int| 0 <= i < commits@.len() ==> 1 <= (#[trigger] commits@[i]).0 <= usize::MAX,
            highest == highest_round(commits@.take(j as int)),
            highest <= usize::MAX,
        decreases commits.len() - j,
    {
        assert(commits@.take(j + 1).drop_last() =~= commits@.take(j as int));
        if commits[j].0 > highest {
            highest = commits[j].0;
        }
        j = j + 1;
    }
    assert(commits@.take(commits@.len() as int) =~= commits@);
    let len: usize = highest as usize;
    let mut node_commits: Vec<HashValue> = Vec::new();
    let mut i: usize = 0;
    while i < len
        invariant
            i <= len,
            node_commits@.len() == i,
            forall|k: int| 0 <= k < i ==> #[trigger] node_commits@[k] == zero_hash(),
        decreases len - i,
    {
        node_commits.push(HashValue::zero());
        i = i + 1;
    }
    let mut j: usize = 0;
    while j < commits.len()
        invariant
            j <= commits@.len(),
            len == highest_round(commits@),
            node_commits@.len() == len,
            forall|i: int| 0 <= i < commits@.len() ==> 1 <= (#[trigger] commits@[i]).0 <= usize::MAX,
            forall|k: int|
                0 <= k < len ==> #[trigger] node_commits@[k] == committed_at(commits@.take(j as int), (k + 1) as nat),
        decreases commits.len() - j,
    {
        proof {
            assert(commits@.take(j + 1).drop_last() =~= commits@.take(j as int));
            lemma_highest_round_bounds(commits@, j as int);
        }
        let (round, id) = commits[j];
        let idx: usize = round as usize;
        node_commits.set(idx - 1, id);
        j = j + 1;
    }
    assert(commits@.take(commits@.len() as int) =~= commits@);
    assert(node_commits@ =~= branch_of_commits(commits@));
    node_commits
}

proof fn lemma_highest_round_bounds(commits: Seq<(u64, HashValue)>, j: int)
    requires
        0 <= j < commits.len(),
    ensures
        commits[j].0 <= highest_round(commits),
    decreases commits.len(),
{
    if j < commits.len() - 1 {
        lemma_highest_round_bounds(commits.drop_last(), j);
    }
}

/// Branches that each run along one common chain of commits (each entry is
/// either the chain's entry at that position or zero) never conflict.
pub proof fn lemma_branches_along_one_chain_agree(vecs: Seq<Seq<HashValue>>, chain: Seq<HashValue>)
    requires
        forall|a: int, i: int|
            0 <= a < vecs.len() && 0 <= i < vecs[a].len() && vecs[a][i] != zero_hash() ==> i < chain.len()
                && #[trigger] vecs[a][i] == chain[i],
    ensures
        branches_agree(vecs),
{
    assert forall|i: int| 0 <= i implies #[trigger] agree_at(vecs, i) by {
        assert forall|a: int, b: int|
            0 <= a < vecs.len() && 0 <= b < vecs.len() && 0 <= i < vecs[a].len() && 0 <= i < vecs[b].len()
                && vecs[a][i] != zero_hash() && vecs[b][i] != zero_hash() implies #[trigger] vecs[a][i]
                == #[trigger] vecs[b][i] by {
            assert(vecs[a][i] == chain[i]);
            assert(vecs[b][i] == chain[i]);
        }
    }
}

/// Receiving a commit again, when it is still the latest commit of its
/// round, leaves the node's branch as it was: repeated commits in the log
/// are harmless.
pub proof fn lemma_repeated_commit_keeps_branch(commits: Seq<(u64, HashValue)>, e: (u64, HashValue))
    requires
        commits.contains(e),
        committed_at(commits, e.0 as nat) == e.1,
    ensures
        branch_of_commits(commits.push(e)) == branch_of_commits(commits),
{
    let s = commits.push(e);
    assert(s.drop_last() =~= commits);
    let j = choose|j: int| 0 <= j < commits.len() && commits[j] == e;
    lemma_highest_round_bounds(commits, j);
    assert(highest_round(s) == highest_round(commits));
    assert(branch_of_commits(s) =~= branch_of_commits(commits));
}

} // verus!
