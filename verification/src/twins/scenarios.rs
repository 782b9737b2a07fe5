//! Building Twins test cases: which nodes are faulty, honest, or twins;
//! which twin stands for which node; the pairing of leaders with partition
//! scenarios; the spreading of those pairs over rounds; and the per-round
//! schedule of partitions and leaders that a test case hands to the
//! executor.

use vstd::prelude::*;
use std::collections::HashMap;
use crate::twins::partitions::{
    groups_of, fault_bound, lemma_fault_bound, copy_partition, group_contains, stirling_args, stirling_partitions,
    is_partition_of, lemma_stirling2_lists_partitions,
};
use crate::twins::sampling::{thread_rng, random_below};
use itertools::Itertools;

verus! {

broadcast use vstd::std_specs::hash::group_hash_axioms;

/// The nodes `lo..hi`, in order.
pub open spec fn index_range(lo: nat, hi: nat) -> Seq<usize> {
    Seq::new((hi - lo) as nat, |i: int| (lo + i) as usize)
}

/// The roles of the nodes of a Twins network of `num_of_nodes` nodes with
/// `f = (num_of_nodes - 1) / 3` twins: faulty (target) nodes `0..f`, honest
/// nodes `f..num_of_nodes`, twins `num_of_nodes..num_of_nodes + f`.
pub struct NodeLayout {
    pub nodes: Vec<usize>,
    pub target_nodes: Vec<usize>,
    pub honest_nodes: Vec<usize>,
    pub twin_nodes: Vec<usize>,
}

fn range_vec(lo: usize, hi: usize) -> (r: Vec<usize>)
    requires
        lo <= hi,
    ensures
        r@ == index_range(lo as nat, hi as nat),
{
    let mut r: Vec<usize> = Vec::new();
    let mut i: usize = lo;
    while i < hi
        invariant
            lo <= i <= hi,
            r@ == index_range(lo as nat, i as nat),
        decreases hi - i,
    {
        r.push(i);
        i = i + 1;
        assert(r@ =~= index_range(lo as nat, i as nat));
    }
    r
}

/// Lays out the nodes of a Twins network: the faulty nodes first, then the
/// honest ones, then the twins of the faulty nodes, in that order.
pub fn node_layout(num_of_nodes: usize) -> (r: NodeLayout)
    requires
        num_of_nodes >= 1,
        num_of_nodes + fault_bound(num_of_nodes as nat) <= usize::MAX,
    ensures
        r.target_nodes@ == index_range(0, fault_bound(num_of_nodes as nat)),
        r.honest_nodes@ == index_range(fault_bound(num_of_nodes as nat), num_of_nodes as nat),
        r.twin_nodes@ == index_range(num_of_nodes as nat, (num_of_nodes + fault_bound(num_of_nodes as nat)) as nat),
        r.nodes@ == r.target_nodes@ + r.honest_nodes@ + r.twin_nodes@,
        r.nodes@ == index_range(0, (num_of_nodes + fault_bound(num_of_nodes as nat)) as nat),
        3 * r.target_nodes@.len() + 1 <= num_of_nodes,
        num_of_nodes <= 3 * r.target_nodes@.len() + 3,
        forall|e: int| 0 <= e < r.target_nodes@.len() ==> #[trigger] r.target_nodes@[e] == e,
        forall|e: int| 0 <= e < r.twin_nodes@.len() ==> #[trigger] r.twin_nodes@[e] == num_of_nodes + e,
        r.twin_nodes@.len() == r.target_nodes@.len(),
        r.honest_nodes@.len() + r.target_nodes@.len() == num_of_nodes,
        forall|e: int| 0 <= e < r.honest_nodes@.len() ==> #[trigger] r.honest_nodes@[e] == r.target_nodes@.len() + e,
{
    proof {
        lemma_fault_bound(num_of_nodes as nat);
    }
    let f: usize = (num_of_nodes - 1) / 3;
    let target_nodes = range_vec(0, f);
    let honest_nodes = range_vec(f, num_of_nodes);
    let twin_nodes = range_vec(num_of_nodes, num_of_nodes + f);
    let mut nodes: Vec<usize> = Vec::new();
    let mut i: usize = 0;
    while i < target_nodes.len()
        invariant
            i <= target_nodes@.len(),
            nodes@ == target_nodes@.take(i as int),
        decreases target_nodes@.len() - i,
    {
        nodes.push(target_nodes[i]);
        i = i + 1;
        assert(nodes@ =~= target_nodes@.take(i as int));
    }
    assert(target_nodes@.take(target_nodes@.len() as int) =~= target_nodes@);
    let mut i: usize = 0;
    while i < honest_nodes.len()
        invariant
            i <= honest_nodes@.len(),
            nodes@ == target_nodes@ + honest_nodes@.take(i as int),
        decreases honest_nodes@.len() - i,
    {
        nodes.push(honest_nodes[i]);
        i = i + 1;
        assert(nodes@ =~= target_nodes@ + honest_nodes@.take(i as int));
    }
    assert(honest_nodes@.take(honest_nodes@.len() as int) =~= honest_nodes@);
    let mut i: usize = 0;
    while i < twin_nodes.len()
        invariant
            i <= twin_nodes@.len(),
            nodes@ == target_nodes@ + honest_nodes@ + twin_nodes@.take(i as int),
        decreases twin_nodes@.len() - i,
    {
        nodes.push(twin_nodes[i]);
        i = i + 1;
        assert(nodes@ =~= target_nodes@ + honest_nodes@ + twin_nodes@.take(i as int));
    }
    assert(twin_nodes@.take(twin_nodes@.len() as int) =~= twin_nodes@);
    assert(nodes@ =~= index_range(0, (num_of_nodes + fault_bound(num_of_nodes as nat)) as nat));
    NodeLayout { nodes, target_nodes, honest_nodes, twin_nodes }
}

/// The map from each target node to the index of its twin: the `e`-th
/// target node maps to `num_nodes + e` (a later entry for the same node
/// replaces an earlier one).
pub open spec fn twin_map(num_nodes: nat, target_nodes: Seq<usize>) -> Map<usize, usize>
    decreases target_nodes.len(),
{
    if target_nodes.len() == 0 {
        Map::empty()
    } else {
        twin_map(num_nodes, target_nodes.drop_last()).insert(
            target_nodes.last(),
            (num_nodes + target_nodes.len() - 1) as usize,
        )
    }
}

proof fn lemma_twin_map_entries(num_nodes: nat, target_nodes: Seq<usize>)
    requires
        num_nodes + target_nodes.len() <= usize::MAX + 1,
    ensures
        forall|k: usize| #[trigger] twin_map(num_nodes, target_nodes).dom().contains(k) <==> target_nodes.contains(k),
        forall|e: int|
            0 <= e < target_nodes.len() && (forall|e2: int| e < e2 < target_nodes.len() ==> #[trigger] target_nodes[e2] != target_nodes[e])
                ==> twin_map(num_nodes, target_nodes)[#[trigger] target_nodes[e]] == num_nodes + e,
    decreases target_nodes.len(),
{
    if target_nodes.len() > 0 {
        let rest = target_nodes.drop_last();
        let x = target_nodes.last();
        lemma_twin_map_entries(num_nodes, rest);
        let m = twin_map(num_nodes, target_nodes);
        let mr = twin_map(num_nodes, rest);
        assert(m == mr.insert(x, (num_nodes + target_nodes.len() - 1) as usize));
        assert forall|k: usize| #[trigger] m.dom().contains(k) <==> target_nodes.contains(k) by {
            assert(mr.dom().contains(k) <==> rest.contains(k));
            if rest.contains(k) {
                let i = choose|i: int| 0 <= i < rest.len() && rest[i] == k;
                assert(target_nodes[i] == k);
            }
            if target_nodes.contains(k) && k != x {
                let i = choose|i: int| 0 <= i < target_nodes.len() && target_nodes[i] == k;
                assert(rest[i] == k);
            }
            if k == x {
                assert(target_nodes[target_nodes.len() - 1] == k);
            }
        }
        assert forall|e: int|
            0 <= e < target_nodes.len() && (forall|e2: int| e < e2 < target_nodes.len() ==> #[trigger] target_nodes[e2] != target_nodes[e])
                implies m[#[trigger] target_nodes[e]] == num_nodes + e by {
            if e < target_nodes.len() - 1 {
                assert(target_nodes[target_nodes.len() - 1] != target_nodes[e]);
                assert(mr[rest[e]] == num_nodes + e);
                assert(rest[e] == target_nodes[e]);
                assert forall|e2: int| e < e2 < rest.len() implies #[trigger] rest[e2] != rest[e] by {
                    assert(rest[e2] == target_nodes[e2]);
                }
            }
        }
    }
}

/// Maps the target nodes to the indices of their twins, which follow the
/// `num_nodes` nodes they stand for in the order of the targets.
pub fn twin_index_map(num_nodes: usize, target_nodes: &Vec<usize>) -> (r: HashMap<usize, usize>)
    requires
        num_nodes + target_nodes@.len() <= usize::MAX,
    ensures
        r@ == twin_map(num_nodes as nat, target_nodes@),
        forall|k: usize| #[trigger] r@.dom().contains(k) <==> target_nodes@.contains(k),
        forall|e: int|
            0 <= e < target_nodes@.len() && (forall|e2: int| e < e2 < target_nodes@.len() ==> #[trigger] target_nodes@[e2] != target_nodes@[e])
                ==> r@[#[trigger] target_nodes@[e]] == num_nodes + e,
{
    proof {
        lemma_twin_map_entries(num_nodes as nat, target_nodes@);
    }
    let mut node_to_twin: HashMap<usize, usize> = HashMap::new();
    let mut each: usize = 0;
    while each < target_nodes.len()
        invariant
            each <= target_nodes@.len(),
            num_nodes + target_nodes@.len() <= usize::MAX,
            node_to_twin@ == twin_map(num_nodes as nat, target_nodes@.take(each as int)),
        decreases target_nodes@.len() - each,
    {
        let twin_index = num_nodes + each;
        node_to_twin.insert(target_nodes[each], twin_index);
        proof {
            assert(target_nodes@.take(each + 1).drop_last() =~= target_nodes@.take(each as int));
        }
        each = each + 1;
    }
    assert(target_nodes@.take(target_nodes@.len() as int) =~= target_nodes@);
    node_to_twin
}

/// A list of leader and partition-scenario pairs, as plain values.
pub open spec fn combinations_of(v: Seq<(usize, Vec<Vec<usize>>)>) -> Seq<(usize, Seq<Seq<usize>>)> {
    v.map_values(|c: (usize, Vec<Vec<usize>>)| (c.0, groups_of(c.1)))
}

/// Every target node paired with every partition scenario: for each
/// leader in turn, all the scenarios in their order.
pub open spec fn leader_scenario_pairs(
    target_nodes: Seq<usize>,
    scenarios: Seq<Seq<Seq<usize>>>,
) -> Seq<(usize, Seq<Seq<usize>>)> {
    Seq::new(
        target_nodes.len() * scenarios.len(),
        |m: int| (target_nodes[m / (scenarios.len() as int)], scenarios[m % (scenarios.len() as int)]),
    )
}

/// Pairs each target node, as the leader of a round, with each partition
/// scenario: the pairs for the first target node come first, each in the
/// order of the scenarios.
pub fn scenarios_with_leaders(
    target_nodes: &Vec<usize>,
    partition_scenarios: &Vec<Vec<Vec<usize>>>,
) -> (r: Vec<(usize, Vec<Vec<usize>>)>)
    ensures
        combinations_of(r@) == leader_scenario_pairs(
            target_nodes@,
            partition_scenarios@.map_values(|p: Vec<Vec<usize>>| groups_of(p)),
        ),
{
    let ghost sc = partition_scenarios@.map_values(|p: Vec<Vec<usize>>| groups_of(p));
    let ghost want = leader_scenario_pairs(target_nodes@, sc);
    let sl: usize = partition_scenarios.len();
    let mut r: Vec<(usize, Vec<Vec<usize>>)> = Vec::new();
    let mut l: usize = 0;
    while l < target_nodes.len()
        invariant
            sc == partition_scenarios@.map_values(|p: Vec<Vec<usize>>| groups_of(p)),
            want == leader_scenario_pairs(target_nodes@, sc),
            sl == partition_scenarios@.len(),
            l <= target_nodes@.len(),
            r@.len() == l * sl,
            forall|m: int| 0 <= m < r@.len() ==> #[trigger] combinations_of(r@)[m] == want[m],
        decreases target_nodes@.len() - l,
    {
        let mut q: usize = 0;
        while q < sl
            invariant
                sc == partition_scenarios@.map_values(|p: Vec<Vec<usize>>| groups_of(p)),
                want == leader_scenario_pairs(target_nodes@, sc),
                sl == partition_scenarios@.len(),
                l < target_nodes@.len(),
                q <= sl,
                r@.len() == l * sl + q,
                forall|m: int| 0 <= m < r@.len() ==> #[trigger] combinations_of(r@)[m] == want[m],
            decreases sl - q,
        {
            let p = copy_partition(&partition_scenarios[q]);
            let ghost old_r = r@;
            let ghost gp = groups_of(p);
            r.push((target_nodes[l], p));
            proof {
                let m: int = l * sl + q;
                vstd::arithmetic::div_mod::lemma_fundamental_div_mod_converse(m, sl as int, l as int, q as int);
                assert(m < target_nodes@.len() * sl) by (nonlinear_arith)
                    requires
                        l < target_nodes@.len(),
                        q < sl,
                        m == l * sl + q,
                ;
                assert(want[m] == (target_nodes@[l as int], sc[q as int]));
                assert(combinations_of(r@)[m] == (target_nodes@[l as int], gp));
                assert forall|m2: int| 0 <= m2 < r@.len() implies #[trigger] combinations_of(r@)[m2] == want[m2] by {
                    if m2 < old_r.len() {
                        assert(r@[m2] == old_r[m2]);
                        assert(combinations_of(old_r)[m2] == want[m2]);
                    }
                }
            }
            q = q + 1;
        }
        l = l + 1;
        assert(l * sl == (l - 1) * sl + sl) by (nonlinear_arith);
    }
    proof {
        assert(r@.len() == target_nodes@.len() * sl);
        assert(combinations_of(r@) =~= want);
    }
    r
}

/// A list of index lists, as sequences.
pub open spec fn index_rows(v: Vec<Vec<usize>>) -> Seq<Seq<usize>> {
    v@.map_values(|row: Vec<usize>| row@)
}

/// All ways to pick, with replacement, one of `num` entries for each of
/// `rounds` rounds, in lexicographic order (the choice for the first round
/// changes slowest).
pub open spec fn index_tuples(num: nat, rounds: nat) -> Seq<Seq<usize>>
    decreases rounds,
{
    if rounds == 0 {
        seq![Seq::empty()]
    } else {
        let prev = index_tuples(num, (rounds - 1) as nat);
        Seq::new(prev.len() * num, |m: int| prev[m / (num as int)].push((m % (num as int)) as usize))
    }
}

/// There are `num` to the power `rounds` ways to pick one of `num` entries
/// for each of `rounds` rounds, and every one of them has one entry per
/// round, each below `num`.
pub proof fn lemma_index_tuples_count(num: nat, rounds: nat)
    ensures
        index_tuples(num, rounds).len() == vstd::arithmetic::power::pow(num as int, rounds),
        forall|c: int| 0 <= c < index_tuples(num, rounds).len() ==> (#[trigger] index_tuples(num, rounds)[c]).len() == rounds,
        forall|c: int, r: int|
            0 <= c < index_tuples(num, rounds).len() && 0 <= r < rounds ==> #[trigger] index_tuples(num, rounds)[c][r] < num,
    decreases rounds,
{
    vstd::arithmetic::power::lemma_pow0(num as int);
    if rounds > 0 {
        let prev = index_tuples(num, (rounds - 1) as nat);
        lemma_index_tuples_count(num, (rounds - 1) as nat);
        vstd::arithmetic::power::lemma_pow_adds(num as int, (rounds - 1) as nat, 1);
        vstd::arithmetic::power::lemma_pow1(num as int);
        let cur = index_tuples(num, rounds);
        assert(cur.len() == prev.len() * num);
        assert forall|c: int| 0 <= c < cur.len() implies (#[trigger] cur[c]).len() == rounds && forall|r: int| 0 <= r < rounds ==> cur[c][r] < num by {
            assert(num > 0) by (nonlinear_arith)
                requires
                    0 <= c < prev.len() * num,
            ;
            assert(0 <= c / (num as int) < prev.len()) by (nonlinear_arith)
                requires
                    0 <= c < prev.len() * num,
                    num > 0,
            ;
            assert(0 <= c % (num as int) < num) by (nonlinear_arith)
                requires
                    num > 0,
            ;
        }
    }
}

/// No way of picking one of `num` entries per round is listed twice.
pub proof fn lemma_index_tuples_distinct(num: nat, rounds: nat)
    requires
        num <= usize::MAX,
    ensures
        index_tuples(num, rounds).no_duplicates(),
    decreases rounds,
{
    if rounds > 0 {
        let prev = index_tuples(num, (rounds - 1) as nat);
        let cur = index_tuples(num, rounds);
        lemma_index_tuples_distinct(num, (rounds - 1) as nat);
        assert forall|m1: int, m2: int| 0 <= m1 < cur.len() && 0 <= m2 < cur.len() && m1 != m2 implies cur[m1] != cur[m2] by {
            let k = num as int;
            assert(k > 0) by (nonlinear_arith)
                requires
                    0 <= m1 < prev.len() * k,
            ;
            assert(0 <= m1 / k < prev.len() && 0 <= m2 / k < prev.len()) by (nonlinear_arith)
                requires
                    0 <= m1 < prev.len() * k,
                    0 <= m2 < prev.len() * k,
                    k > 0,
            ;
            vstd::arithmetic::div_mod::lemma_fundamental_div_mod(m1, k);
            vstd::arithmetic::div_mod::lemma_fundamental_div_mod(m2, k);
            assert(0 <= m1 % k < k && 0 <= m2 % k < k) by (nonlinear_arith)
                requires
                    k > 0,
            ;
            if cur[m1] == cur[m2] {
                assert(cur[m1].drop_last() =~= prev[m1 / k]);
                assert(cur[m2].drop_last() =~= prev[m2 / k]);
                assert(m1 / k == m2 / k);
                assert(cur[m1].last() == (m1 % k) as usize);
                assert(cur[m2].last() == (m2 % k) as usize);
                assert(m1 % k == m2 % k) by {
                    assert(m1 % k <= usize::MAX && m2 % k <= usize::MAX);
                }
            }
        }
    }
}

/// The ways of picking one of `num` entries per round come in strictly
/// increasing lexicographic order (the pick for the first round changes
/// slowest).
pub proof fn lemma_index_tuples_increasing(num: nat, rounds: nat)
    requires
        num <= usize::MAX,
    ensures
        forall|c: int, d: int|
            0 <= c < d < index_tuples(num, rounds).len() ==> positions_lt(
                #[trigger] index_tuples(num, rounds)[c],
                #[trigger] index_tuples(num, rounds)[d],
            ),
    decreases rounds,
{
    if rounds > 0 {
        let prev = index_tuples(num, (rounds - 1) as nat);
        let cur = index_tuples(num, rounds);
        lemma_index_tuples_increasing(num, (rounds - 1) as nat);
        lemma_index_tuples_count(num, (rounds - 1) as nat);
        assert forall|m1: int, m2: int| 0 <= m1 < m2 < cur.len() implies positions_lt(#[trigger] cur[m1], #[trigger] cur[m2]) by {
            let k = num as int;
            assert(k > 0) by (nonlinear_arith)
                requires
                    0 <= m2 < prev.len() * k,
            ;
            assert(0 <= m1 / k < prev.len() && 0 <= m2 / k < prev.len()) by (nonlinear_arith)
                requires
                    0 <= m1 < prev.len() * k,
                    0 <= m2 < prev.len() * k,
                    k > 0,
            ;
            vstd::arithmetic::div_mod::lemma_fundamental_div_mod(m1, k);
            vstd::arithmetic::div_mod::lemma_fundamental_div_mod(m2, k);
            assert(0 <= m1 % k < k && 0 <= m2 % k < k) by (nonlinear_arith)
                requires
                    k > 0,
            ;
            vstd::arithmetic::div_mod::lemma_div_is_ordered(m1, m2, k);
            let q1 = m1 / k;
            let q2 = m2 / k;
            let a = cur[m1];
            let b = cur[m2];
            assert(a == prev[q1].push((m1 % k) as usize));
            assert(b == prev[q2].push((m2 % k) as usize));
            let last = (rounds - 1) as int;
            assert(prev[q1].len() == last && prev[q2].len() == last);
            if q1 < q2 {
                assert(positions_lt(prev[q1], prev[q2]));
                let i = choose|i: int|
                    0 <= i < prev[q1].len() && i < prev[q2].len() && #[trigger] prev[q1][i] < prev[q2][i]
                        && forall|j: int| 0 <= j < i ==> prev[q1][j] == prev[q2][j];
                assert(a[i] == prev[q1][i] && b[i] == prev[q2][i]);
                assert(forall|j: int| 0 <= j < i ==> a[j] == prev[q1][j] && b[j] == prev[q2][j]);
                assert(a[i] < b[i]);
            } else {
                assert(q1 == q2);
                assert(m1 % k < m2 % k);
                assert(a[last] == (m1 % k) as usize && b[last] == (m2 % k) as usize);
                assert(a[last] < b[last]);
                assert(forall|j: int| 0 <= j < last ==> a[j] == prev[q1][j] && b[j] == prev[q2][j]);
            }
        }
    }
}

/// Every way to pick one of `num_combinations` leader-scenario pairs for
/// each of `num_of_rounds` rounds, with replacement, in lexicographic order
/// (the pick for the first round changes slowest).
pub fn test_cases_with_replacement(num_combinations: usize, num_of_rounds: usize) -> (r: Vec<Vec<usize>>)
    ensures
        index_rows(r) == index_tuples(num_combinations as nat, num_of_rounds as nat),
        r@.len() == vstd::arithmetic::power::pow(num_combinations as int, num_of_rounds as nat),
        forall|c: int| 0 <= c < r@.len() ==> (#[trigger] r@[c])@.len() == num_of_rounds,
        forall|c: int, j: int| 0 <= c < r@.len() && 0 <= j < num_of_rounds ==> #[trigger] r@[c]@[j] < num_combinations,
        index_rows(r).no_duplicates(),
        forall|c: int, d: int|
            0 <= c < d < r@.len() ==> positions_lt(#[trigger] index_rows(r)[c], #[trigger] index_rows(r)[d]),
{
    let mut cur: Vec<Vec<usize>> = Vec::new();
    cur.push(Vec::new());
    assert(index_rows(cur) =~= index_tuples(num_combinations as nat, 0));
    let mut round: usize = 0;
    while round < num_of_rounds
        invariant
            round <= num_of_rounds,
            index_rows(cur) == index_tuples(num_combinations as nat, round as nat),
        decreases num_of_rounds - round,
    {
        let ghost prev = index_tuples(num_combinations as nat, round as nat);
        let mut next: Vec<Vec<usize>> = Vec::new();
        let mut a: usize = 0;
        while a < cur.len()
            invariant
                prev == index_tuples(num_combinations as nat, round as nat),
                index_rows(cur) == prev,
                a <= cur@.len(),
                next@.len() == a * num_combinations,
                forall|m: int| 0 <= m < next@.len() ==> (#[trigger] next@[m])@ == prev[m / (num_combinations as int)].push((m % (num_combinations as int)) as usize),
            decreases cur@.len() - a,
        {
            let mut i: usize = 0;
            while i < num_combinations
                invariant
                    prev == index_tuples(num_combinations as nat, round as nat),
                    index_rows(cur) == prev,
                    a < cur@.len(),
                    i <= num_combinations,
                    next@.len() == a * num_combinations + i,
                    forall|m: int| 0 <= m < next@.len() ==> (#[trigger] next@[m])@ == prev[m / (num_combinations as int)].push((m % (num_combinations as int)) as usize),
                decreases num_combinations - i,
            {
                let mut row: Vec<usize> = Vec::new();
                let mut k: usize = 0;
                while k < cur[a].len()
                    invariant
                        a < cur@.len(),
                        k <= cur@[a as int]@.len(),
                        row@ == cur@[a as int]@.take(k as int),
                    decreases cur@[a as int]@.len() - k,
                {
                    row.push(cur[a][k]);
                    k = k + 1;
                    assert(row@ =~= cur@[a as int]@.take(k as int));
                }
                assert(cur@[a as int]@.take(cur@[a as int]@.len() as int) =~= cur@[a as int]@);
                row.push(i);
                let ghost old_next = next@;
                let ghost rv = row@;
                next.push(row);
                proof {
                    let m: int = a * num_combinations + i;
                    vstd::arithmetic::div_mod::lemma_fundamental_div_mod_converse(m, num_combinations as int, a as int, i as int);
                    assert(index_rows(cur)[a as int] == cur@[a as int]@);
                    assert(next@[m]@ == rv);
                    assert forall|m2: int| 0 <= m2 < next@.len() implies (#[trigger] next@[m2])@ == prev[m2 / (num_combinations as int)].push((m2 % (num_combinations as int)) as usize) by {
                        if m2 < old_next.len() {
                            assert(next@[m2] == old_next[m2]);
                        }
                    }
                }
                i = i + 1;
            }
            a = a + 1;
            assert(a * num_combinations == (a - 1) * num_combinations + num_combinations) by (nonlinear_arith);
        }
        proof {
            assert(next@.len() == prev.len() * num_combinations);
            assert(index_rows(next) =~= index_tuples(num_combinations as nat, (round + 1) as nat));
        }
        cur = next;
        round = round + 1;
    }
    proof {
        lemma_index_tuples_count(num_combinations as nat, num_of_rounds as nat);
        lemma_index_tuples_distinct(num_combinations as nat, num_of_rounds as nat);
        lemma_index_tuples_increasing(num_combinations as nat, num_of_rounds as nat);
        assert forall|c: int| 0 <= c < cur@.len() implies (#[trigger] cur@[c])@.len() == num_of_rounds by {
            assert(index_rows(cur)[c] == cur@[c]@);
        }
        assert forall|c: int, j: int| 0 <= c < cur@.len() && 0 <= j < num_of_rounds implies #[trigger] cur@[c]@[j] < num_combinations by {
            assert(index_rows(cur)[c] == cur@[c]@);
        }
    }
    cur
}

/// `p` is a `k`-permutation of the positions `0..len`: `k` distinct
/// positions, each below `len`.
pub open spec fn is_k_permutation(p: Seq<usize>, len: nat, k: nat) -> bool {
    &&& p.len() == k
    &&& p.no_duplicates()
    &&& forall|j: int| 0 <= j < p.len() ==> #[trigger] p[j] < len
}

/// `a` comes before `b` in lexicographic order.
pub open spec fn positions_lt(a: Seq<usize>, b: Seq<usize>) -> bool {
    exists|i: int| 0 <= i < a.len() && i < b.len() && #[trigger] a[i] < b[i] && forall|j: int| 0 <= j < i ==> a[j] == b[j]
}

/// `rows` lists every `k`-permutation of the positions `0..len` and nothing
/// else, in increasing lexicographic order (so each exactly once).
pub open spec fn lists_k_permutations(rows: Seq<Seq<usize>>, len: nat, k: nat) -> bool {
    &&& forall|c: int| 0 <= c < rows.len() ==> is_k_permutation(#[trigger] rows[c], len, k)
    &&& forall|p: Seq<usize>| #[trigger] is_k_permutation(p, len, k) ==> rows.contains(p)
    &&& forall|c: int, d: int| 0 <= c < d < rows.len() ==> positions_lt(#[trigger] rows[c], #[trigger] rows[d])
}

/// Calls `Itertools::permutations(0..len, k)` and collects what it yields.
/// Its documentation promises every `k`-permutation of the elements, each
/// as a vector of length `k`, and none when `k` exceeds the number of
/// elements; its source lists them in lexicographic order of the positions
/// they take (which, for `0..len`, are the values), one empty vector for
/// `k == 0`.
#[verifier::external_body]
fn position_permutations(len: usize, k: usize) -> (r: Vec<Vec<usize>>)
    ensures
        lists_k_permutations(index_rows(r), len as nat, k as nat),
        k > len ==> r@.len() == 0,
{
    (0..len).permutations(k).collect()
}

/// Every way to spread `num_of_rounds` distinct leader-scenario pairs out
/// of `num_combinations` over the rounds, without replacement: every
/// arrangement of distinct positions, in increasing lexicographic order.
pub fn test_cases_without_replacement(num_combinations: usize, num_of_rounds: usize) -> (r: Vec<Vec<usize>>)
    requires
        num_combinations >= num_of_rounds,
    ensures
        lists_k_permutations(index_rows(r), num_combinations as nat, num_of_rounds as nat),
        forall|c: int| 0 <= c < r@.len() ==> (#[trigger] r@[c])@.len() == num_of_rounds,
        forall|c: int| 0 <= c < r@.len() ==> (#[trigger] r@[c])@.no_duplicates(),
        forall|c: int, j: int| 0 <= c < r@.len() && 0 <= j < num_of_rounds ==> #[trigger] r@[c]@[j] < num_combinations,
{
    let r = position_permutations(num_combinations, num_of_rounds);
    proof {
        assert forall|c: int| 0 <= c < r@.len() implies is_k_permutation(
            #[trigger] r@[c]@,
            num_combinations as nat,
            num_of_rounds as nat,
        ) by {
            assert(index_rows(r)[c] == r@[c]@);
        }
    }
    r
}

/// `count` test cases, each picking at random, with replacement, one of the
/// `num_combinations` leader-scenario pairs for each of `num_of_rounds`
/// rounds.
pub fn random_test_cases(num_combinations: usize, num_of_rounds: usize, count: usize) -> (r: Vec<Vec<usize>>)
    requires
        count > 0 && num_of_rounds > 0 ==> num_combinations > 0,
    ensures
        r@.len() == count,
        forall|c: int| 0 <= c < r@.len() ==> (#[trigger] r@[c])@.len() == num_of_rounds,
        forall|c: int, j: int| 0 <= c < r@.len() && 0 <= j < num_of_rounds ==> #[trigger] r@[c]@[j] < num_combinations,
{
    let mut rng = thread_rng();
    let mut test_cases: Vec<Vec<usize>> = Vec::new();
    let mut i: usize = 0;
    while i < count
        invariant
            count > 0 && num_of_rounds > 0 ==> num_combinations > 0,
            i <= count,
            test_cases@.len() == i,
            forall|c: int| 0 <= c < test_cases@.len() ==> (#[trigger] test_cases@[c])@.len() == num_of_rounds,
            forall|c: int, j: int| 0 <= c < test_cases@.len() && 0 <= j < num_of_rounds ==> #[trigger] test_cases@[c]@[j] < num_combinations,
        decreases count - i,
    {
        let mut each_test: Vec<usize> = Vec::new();
        let mut j: usize = 0;
        while j < num_of_rounds
            invariant
                i < count,
                count > 0 && num_of_rounds > 0 ==> num_combinations > 0,
                j <= num_of_rounds,
                each_test@.len() == j,
                forall|k: int| 0 <= k < j ==> #[trigger] each_test@[k] < num_combinations,
            decreases num_of_rounds - j,
        {
            let dice = random_below(&mut rng, num_combinations);
            each_test.push(dice);
            j = j + 1;
        }
        let ghost old_cases = test_cases@;
        test_cases.push(each_test);
        assert(forall|c: int| 0 <= c < old_cases.len() ==> test_cases@[c] == old_cases[c]);
        i = i + 1;
    }
    test_cases
}

/// The number of random test cases that option 2 of `generate_test_cases`
/// draws.
pub const MAX_TESTCASES: usize = 1000;

/// Spreads leader-scenario pairs over the rounds of the test cases, by
/// `option`: 0 lists every arrangement of distinct pairs, in increasing
/// lexicographic order (which needs at least as many pairs as rounds); 1
/// lists every arrangement with replacement, there being
/// `num_combinations` to the power `num_of_rounds` of them; 2 draws
/// `MAX_TESTCASES` arrangements at random with replacement. A test case is a
/// list of positions in the list of pairs, one per round.
pub fn generate_test_cases(num_combinations: usize, num_of_rounds: usize, option: usize) -> (r: Vec<Vec<usize>>)
    requires
        option <= 2,
        option == 0 ==> num_combinations >= num_of_rounds,
        option == 1 ==> num_combinations > 0,
        option == 2 && num_of_rounds > 0 ==> num_combinations > 0,
    ensures
        option == 0 ==> lists_k_permutations(index_rows(r), num_combinations as nat, num_of_rounds as nat),
        option == 1 ==> index_rows(r) == index_tuples(num_combinations as nat, num_of_rounds as nat),
        option == 1 ==> r@.len() == vstd::arithmetic::power::pow(num_combinations as int, num_of_rounds as nat),
        option == 1 ==> index_rows(r).no_duplicates(),
        option == 1 ==> forall|c: int, d: int|
            0 <= c < d < r@.len() ==> positions_lt(#[trigger] index_rows(r)[c], #[trigger] index_rows(r)[d]),
        option == 2 ==> r@.len() == MAX_TESTCASES,
        forall|c: int| 0 <= c < r@.len() ==> (#[trigger] r@[c])@.len() == num_of_rounds,
        forall|c: int, j: int| 0 <= c < r@.len() && 0 <= j < num_of_rounds ==> #[trigger] r@[c]@[j] < num_combinations,
{
    if option == 0 {
        test_cases_without_replacement(num_combinations, num_of_rounds)
    } else if option == 1 {
        let r = test_cases_with_replacement(num_combinations, num_of_rounds);
        proof {
            lemma_index_tuples_count(num_combinations as nat, num_of_rounds as nat);
            assert forall|c: int| 0 <= c < r@.len() implies (#[trigger] r@[c])@.len() == num_of_rounds by {
                assert(index_rows(r)[c] == r@[c]@);
            }
            assert forall|c: int, j: int| 0 <= c < r@.len() && 0 <= j < num_of_rounds implies #[trigger] r@[c]@[j] < num_combinations by {
                assert(index_rows(r)[c] == r@[c]@);
            }
        }
        r
    } else {
        random_test_cases(num_combinations, num_of_rounds, MAX_TESTCASES)
    }
}

/// The leaders of a round whose leader is `leader`: the leader, followed
/// by its twin when the leader is a target node.
pub open spec fn round_leaders(leader: usize, target_nodes: Seq<usize>, node_to_twin: Map<usize, usize>) -> Seq<usize> {
    if target_nodes.contains(leader) {
        seq![leader, node_to_twin[leader]]
    } else {
        seq![leader]
    }
}

/// The per-round schedule of one test case, as handed to the executor.
pub struct RoundSchedule {
    /// The partition scenario of each round.
    pub round_partitions_idx: HashMap<u64, Vec<Vec<usize>>>,
    /// The leaders of each round.
    pub twins_round_proposers_idx: HashMap<u64, Vec<usize>>,
    /// The round after the last one scheduled.
    pub next_round: u64,
}

/// Schedules one test case: its `j`-th leader-scenario pair (the pair at
/// position `test_case[j]` of `combinations`) goes to round
/// `first_round + j`, whose leaders are that leader and, when the leader is
/// a target node, its twin.
pub fn round_schedule(
    test_case: &Vec<usize>,
    combinations: &Vec<(usize, Vec<Vec<usize>>)>,
    first_round: u64,
    target_nodes: &Vec<usize>,
    node_to_twin: &HashMap<usize, usize>,
) -> (r: RoundSchedule)
    requires
        first_round + test_case@.len() <= u64::MAX,
        forall|j: int| 0 <= j < test_case@.len() ==> #[trigger] test_case@[j] < combinations@.len(),
        forall|c: int|
            0 <= c < combinations@.len() && target_nodes@.contains((#[trigger] combinations@[c]).0)
                ==> node_to_twin@.contains_key(combinations@[c].0),
    ensures
        r.next_round == first_round + test_case@.len(),
        forall|k: u64|
            #[trigger] r.round_partitions_idx@.contains_key(k) <==> first_round <= k < first_round + test_case@.len(),
        forall|k: u64|
            #[trigger] r.twins_round_proposers_idx@.contains_key(k) <==> first_round <= k < first_round + test_case@.len(),
        forall|j: int|
            0 <= j < test_case@.len() ==> groups_of(
                #[trigger] r.round_partitions_idx@[(first_round + j) as u64],
            ) == groups_of(combinations@[test_case@[j] as int].1),
        forall|j: int|
            0 <= j < test_case@.len() ==> (#[trigger] r.twins_round_proposers_idx@[(first_round + j) as u64])@
                == round_leaders(combinations@[test_case@[j] as int].0, target_nodes@, node_to_twin@),
        forall|j: int|
            0 <= j < test_case@.len() ==> (target_nodes@.contains(combinations@[test_case@[j] as int].0) ==> (
            #[trigger] r.twins_round_proposers_idx@[(first_round + j) as u64])@ == seq![
                combinations@[test_case@[j] as int].0,
                node_to_twin@[combinations@[test_case@[j] as int].0],
            ]) && (!target_nodes@.contains(combinations@[test_case@[j] as int].0)
                ==> r.twins_round_proposers_idx@[(first_round + j) as u64]@ == seq![
                combinations@[test_case@[j] as int].0,
            ]),
{
    let mut round_partitions_idx: HashMap<u64, Vec<Vec<usize>>> = HashMap::new();
    let mut twins_round_proposers_idx: HashMap<u64, Vec<usize>> = HashMap::new();
    let mut round: u64 = first_round;
    let mut j: usize = 0;
    while j < test_case.len()
        invariant
            j <= test_case@.len(),
            round == first_round + j,
            first_round + test_case@.len() <= u64::MAX,
            forall|j: int| 0 <= j < test_case@.len() ==> #[trigger] test_case@[j] < combinations@.len(),
            forall|c: int|
                0 <= c < combinations@.len() && target_nodes@.contains((#[trigger] combinations@[c]).0)
                    ==> node_to_twin@.contains_key(combinations@[c].0),
            forall|k: u64| #[trigger] round_partitions_idx@.contains_key(k) <==> first_round <= k < round,
            forall|k: u64| #[trigger] twins_round_proposers_idx@.contains_key(k) <==> first_round <= k < round,
            forall|i: int|
                0 <= i < j ==> groups_of(#[trigger] round_partitions_idx@[(first_round + i) as u64])
                    == groups_of(combinations@[test_case@[i] as int].1),
            forall|i: int|
                0 <= i < j ==> (#[trigger] twins_round_proposers_idx@[(first_round + i) as u64])@
                    == round_leaders(combinations@[test_case@[i] as int].0, target_nodes@, node_to_twin@),
        decreases test_case@.len() - j,
    {
        let c: usize = test_case[j];
        let leader: usize = combinations[c].0;
        let scenario = copy_partition(&combinations[c].1);
        let mut leaders: Vec<usize> = Vec::new();
        leaders.push(leader);
        if group_contains(target_nodes, leader) {
            let twin_node: usize = *node_to_twin.get(&leader).unwrap();
            leaders.push(twin_node);
        }
        assert(leaders@ =~= round_leaders(leader, target_nodes@, node_to_twin@));
        let ghost old_parts = round_partitions_idx@;
        let ghost old_leaders = twins_round_proposers_idx@;
        let ghost gs = groups_of(scenario);
        let ghost lv = leaders@;
        twins_round_proposers_idx.insert(round, leaders);
        round_partitions_idx.insert(round, scenario);
        proof {
            assert forall|i: int| 0 <= i < j + 1 implies groups_of(#[trigger] round_partitions_idx@[(first_round + i) as u64])
                == groups_of(combinations@[test_case@[i] as int].1) by {
                if i < j {
                    assert(((first_round + i) as u64) != round);
                    assert(round_partitions_idx@[(first_round + i) as u64] == old_parts[(first_round + i) as u64]);
                } else {
                    assert(((first_round + i) as u64) == round);
                }
            }
            assert forall|i: int| 0 <= i < j + 1 implies (#[trigger] twins_round_proposers_idx@[(first_round + i) as u64])@
                == round_leaders(combinations@[test_case@[i] as int].0, target_nodes@, node_to_twin@) by {
                if i < j {
                    assert(((first_round + i) as u64) != round);
                    assert(twins_round_proposers_idx@[(first_round + i) as u64] == old_leaders[(first_round + i) as u64]);
                } else {
                    assert(((first_round + i) as u64) == round);
                }
            }
        }
        round = round + 1;
        j = j + 1;
    }
    RoundSchedule { round_partitions_idx, twins_round_proposers_idx, next_round: round }
}

/// Schedules the test cases one after the other, each of
/// `num_of_rounds` rounds: test case `c` takes rounds
/// `first_round + c * num_of_rounds` up to (not including)
/// `first_round + (c + 1) * num_of_rounds`, laid out as `round_schedule`
/// lays out one test case.
pub fn schedule_test_cases(
    test_cases: &Vec<Vec<usize>>,
    num_of_rounds: usize,
    combinations: &Vec<(usize, Vec<Vec<usize>>)>,
    first_round: u64,
    target_nodes: &Vec<usize>,
    node_to_twin: &HashMap<usize, usize>,
) -> (r: Vec<RoundSchedule>)
    requires
        first_round + test_cases@.len() * num_of_rounds <= u64::MAX,
        forall|c: int| 0 <= c < test_cases@.len() ==> (#[trigger] test_cases@[c])@.len() == num_of_rounds,
        forall|c: int, j: int|
            0 <= c < test_cases@.len() && 0 <= j < num_of_rounds ==> #[trigger] test_cases@[c]@[j]
                < combinations@.len(),
        forall|c: int|
            0 <= c < combinations@.len() && target_nodes@.contains((#[trigger] combinations@[c]).0)
                ==> node_to_twin@.contains_key(combinations@[c].0),
    ensures
        r@.len() == test_cases@.len(),
        forall|c: int| 0 <= c < r@.len() ==> (#[trigger] r@[c]).next_round == first_round + (c + 1) * num_of_rounds,
        forall|c: int, k: u64|
            0 <= c < r@.len() ==> (#[trigger] r@[c].round_partitions_idx@.contains_key(k) <==> first_round + c
                * num_of_rounds <= k < first_round + (c + 1) * num_of_rounds),
        forall|c: int, k: u64|
            0 <= c < r@.len() ==> (#[trigger] r@[c].twins_round_proposers_idx@.contains_key(k) <==> first_round
                + c * num_of_rounds <= k < first_round + (c + 1) * num_of_rounds),
        forall|c: int, j: int|
            #![trigger r@[c], test_cases@[c]@[j]]
            0 <= c < r@.len() && 0 <= j < num_of_rounds ==> groups_of(
                r@[c].round_partitions_idx@[(first_round + c * num_of_rounds + j) as u64],
            ) == groups_of(combinations@[test_cases@[c]@[j] as int].1),
        forall|c: int, j: int|
            #![trigger r@[c], test_cases@[c]@[j]]
            0 <= c < r@.len() && 0 <= j < num_of_rounds ==> r@[c].twins_round_proposers_idx@[(
            first_round + c * num_of_rounds + j) as u64]@ == round_leaders(
                combinations@[test_cases@[c]@[j] as int].0,
                target_nodes@,
                node_to_twin@,
            ),
{
    let mut schedules: Vec<RoundSchedule> = Vec::new();
    let mut round: u64 = first_round;
    let mut c: usize = 0;
    while c < test_cases.len()
        invariant
            c <= test_cases@.len(),
            schedules@.len() == c,
            round == first_round + c * num_of_rounds,
            first_round + test_cases@.len() * num_of_rounds <= u64::MAX,
            forall|c: int| 0 <= c < test_cases@.len() ==> (#[trigger] test_cases@[c])@.len() == num_of_rounds,
            forall|c: int, j: int|
                0 <= c < test_cases@.len() && 0 <= j < num_of_rounds ==> #[trigger] test_cases@[c]@[j]
                    < combinations@.len(),
            forall|c: int|
                0 <= c < combinations@.len() && target_nodes@.contains((#[trigger] combinations@[c]).0)
                    ==> node_to_twin@.contains_key(combinations@[c].0),
            forall|d: int| 0 <= d < c ==> (#[trigger] schedules@[d]).next_round == first_round + (d + 1) * num_of_rounds,
            forall|d: int, k: u64|
                0 <= d < c ==> (#[trigger] schedules@[d].round_partitions_idx@.contains_key(k) <==> first_round + d
                    * num_of_rounds <= k < first_round + (d + 1) * num_of_rounds),
            forall|d: int, k: u64|
                0 <= d < c ==> (#[trigger] schedules@[d].twins_round_proposers_idx@.contains_key(k) <==> first_round
                    + d * num_of_rounds <= k < first_round + (d + 1) * num_of_rounds),
            forall|d: int, j: int|
                #![trigger schedules@[d], test_cases@[d]@[j]]
                0 <= d < c && 0 <= j < num_of_rounds ==> groups_of(
                    schedules@[d].round_partitions_idx@[(first_round + d * num_of_rounds + j) as u64],
                ) == groups_of(combinations@[test_cases@[d]@[j] as int].1),
            forall|d: int, j: int|
                #![trigger schedules@[d], test_cases@[d]@[j]]
                0 <= d < c && 0 <= j < num_of_rounds ==> schedules@[d].twins_round_proposers_idx@[(
                first_round + d * num_of_rounds + j) as u64]@ == round_leaders(
                    combinations@[test_cases@[d]@[j] as int].0,
                    target_nodes@,
                    node_to_twin@,
                ),
        decreases test_cases@.len() - c,
    {
        proof {
            assert(c * num_of_rounds + num_of_rounds == (c + 1) * num_of_rounds) by (nonlinear_arith);
            assert((c + 1) * num_of_rounds <= test_cases@.len() * num_of_rounds) by (nonlinear_arith)
                requires
                    c < test_cases@.len(),
            ;
        }
        let schedule = round_schedule(&test_cases[c], combinations, round, target_nodes, node_to_twin);
        let ghost old_schedules = schedules@;
        round = schedule.next_round;
        schedules.push(schedule);
        proof {
            assert forall|d: int| 0 <= d < c ==> schedules@[d] == old_schedules[d] by {}
        }
        c = c + 1;
    }
    schedules
}

/// Pairing the target nodes `0..f` with the partitions that `stirling2(n, k)`
/// lists gives `f * S(n, k)` pairs, each led by a target node and splitting
/// all `n` nodes into `k` non-empty groups.
pub proof fn lemma_leader_pairs_split_all_nodes(f: nat, n: nat, k: nat)
    requires
        stirling_args(n, k),
        !(n == 0 && k == 1),
        n <= usize::MAX,
        f <= usize::MAX,
    ensures
        ({
            let pairs = leader_scenario_pairs(index_range(0, f), stirling_partitions(n, k));
            &&& pairs.len() == f * stirling_partitions(n, k).len()
            &&& forall|m: int|
                0 <= m < pairs.len() ==> (#[trigger] pairs[m]).0 < f && is_partition_of(pairs[m].1, n, k)
        }),
{
    let sc = stirling_partitions(n, k);
    let pairs = leader_scenario_pairs(index_range(0, f), sc);
    lemma_stirling2_lists_partitions(n, k);
    assert forall|m: int| 0 <= m < pairs.len() implies (#[trigger] pairs[m]).0 < f && is_partition_of(pairs[m].1, n, k) by {
        let sl = sc.len() as int;
        assert(sl > 0) by (nonlinear_arith)
            requires
                0 <= m < f * sl,
        ;
        assert(0 <= m / sl < f && 0 <= m % sl < sl) by (nonlinear_arith)
            requires
                0 <= m < f * sl,
                sl > 0,
        ;
    }
}

} // verus!
