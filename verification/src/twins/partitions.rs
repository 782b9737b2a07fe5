//! Set partitions of the nodes of a Twins network: every way to split the
//! nodes `0..n` into `k` non-empty groups (the solutions counted by the
//! Stirling number of the second kind), and the filter that drops the
//! scenarios in which a node shares a group with its twin.

use vstd::prelude::*;

verus! {

/// The Stirling number of the second kind, by the recurrence that
/// `stirling2` follows.
pub open spec fn stirling_number(n: nat, k: nat) -> nat
    decreases n,
{
    if k == 1 {
        1
    } else if n == k {
        1
    } else if n == 0 || k == 0 {
        0
    } else {
        stirling_number((n - 1) as nat, (k - 1) as nat) + k * stirling_number((n - 1) as nat, k)
    }
}

/// The arguments on which `stirling2` is defined: a single group (of all
/// the nodes, possibly none), at least one group and no more groups than
/// nodes, or no nodes and no groups.
pub open spec fn stirling_args(n: nat, k: nat) -> bool {
    k == 1 || (1 <= k && k <= n) || (n == 0 && k == 0)
}

/// The nodes `0..n`, in order.
pub open spec fn node_range(n: nat) -> Seq<usize> {
    Seq::new(n, |i: int| i as usize)
}

/// The partition of `0..n` into `n` singleton groups.
pub open spec fn singleton_groups(n: nat) -> Seq<Seq<usize>> {
    Seq::new(n, |i: int| seq![i as usize])
}

/// Adds node `x` at the end of group `j`.
pub open spec fn add_to_group(p: Seq<Seq<usize>>, j: int, x: usize) -> Seq<Seq<usize>> {
    p.update(j, p[j].push(x))
}

/// Adds node `x` as a new group of its own, after the others.
pub open spec fn add_new_group(p: Seq<Seq<usize>>, x: usize) -> Seq<Seq<usize>> {
    p.push(seq![x])
}

/// Entry `m` of `k` copies of `t` laid end to end, where copy `j` has
/// node `x` added to group `j`.
pub open spec fn spread_entry(t: Seq<Seq<Seq<usize>>>, m: int, x: usize) -> Seq<Seq<usize>> {
    add_to_group(t[m % (t.len() as int)], m / (t.len() as int), x)
}

/// The partitions that the recurrence lists, in its order: those of
/// `0..n-1` into `k-1` groups with `{n-1}` as a new group, then, for each
/// group index `j` in turn, those of `0..n-1` into `k` groups with `n-1`
/// added to group `j`.
pub open spec fn stirling_partitions(n: nat, k: nat) -> Seq<Seq<Seq<usize>>>
    decreases n,
{
    if k == 1 {
        seq![seq![node_range(n)]]
    } else if n == k {
        seq![singleton_groups(n)]
    } else if n == 0 || k == 0 {
        Seq::empty()
    } else {
        let x = (n - 1) as usize;
        let a = stirling_partitions((n - 1) as nat, (k - 1) as nat);
        let t = stirling_partitions((n - 1) as nat, k);
        a.map_values(|p: Seq<Seq<usize>>| add_new_group(p, x)) + Seq::new(
            k * t.len(),
            |m: int| spread_entry(t, m, x),
        )
    }
}

/// Node `x` occurs in some group of `p`.
pub open spec fn occurs_in(p: Seq<Seq<usize>>, x: usize) -> bool {
    exists|b: int, i: int| 0 <= b < p.len() && 0 <= i < p[b].len() && #[trigger] p[b][i] == x
}

/// `p` splits the nodes `0..n` into exactly `k` non-empty groups: every
/// node occurs in the groups exactly once, and nothing else occurs.
pub open spec fn is_partition_of(p: Seq<Seq<usize>>, n: nat, k: nat) -> bool {
    &&& p.len() == k
    &&& forall|b: int| 0 <= b < p.len() ==> #[trigger] p[b].len() > 0
    &&& forall|b: int, i: int| 0 <= b < p.len() && 0 <= i < p[b].len() ==> #[trigger] p[b][i] < n
    &&& forall|x: usize| x < n ==> #[trigger] occurs_in(p, x)
    &&& forall|b1: int, i1: int, b2: int, i2: int|
        0 <= b1 < p.len() && 0 <= i1 < p[b1].len() && 0 <= b2 < p.len() && 0 <= i2 < p[b2].len()
            && #[trigger] p[b1][i1] == #[trigger] p[b2][i2] ==> b1 == b2 && i1 == i2
}

proof fn lemma_stirling_number_monotone(n: nat, k: nat)
    requires
        stirling_args(n, k),
        n > k,
        k > 1,
    ensures
        stirling_number((n - 1) as nat, (k - 1) as nat) <= stirling_number(n, k),
        k * stirling_number((n - 1) as nat, k) <= stirling_number(n, k),
        stirling_number((n - 1) as nat, k) <= stirling_number(n, k),
{
    assert(stirling_number((n - 1) as nat, k) <= k * stirling_number((n - 1) as nat, k)) by (nonlinear_arith)
        requires
            k > 1,
    ;
}

/// Every partition that the recurrence lists has exactly `k` groups.
proof fn lemma_stirling_partitions_groups(n: nat, k: nat)
    requires
        stirling_args(n, k),
    ensures
        stirling_partitions(n, k).len() == stirling_number(n, k),
        forall|i: int|
            0 <= i < stirling_partitions(n, k).len() ==> (#[trigger] stirling_partitions(n, k)[i]).len() == k,
    decreases n,
{
    if k == 1 || n == k {
    } else {
        let x = (n - 1) as usize;
        let a = stirling_partitions((n - 1) as nat, (k - 1) as nat);
        let t = stirling_partitions((n - 1) as nat, k);
        lemma_stirling_partitions_groups((n - 1) as nat, (k - 1) as nat);
        lemma_stirling_partitions_groups((n - 1) as nat, k);
        let s = stirling_partitions(n, k);
        assert(t.len() > 0) by {
            lemma_stirling_number_positive((n - 1) as nat, k);
        }
        assert forall|i: int| 0 <= i < s.len() implies (#[trigger] s[i]).len() == k by {
            if i < a.len() {
            } else {
                let m = i - a.len();
                assert(0 <= m < k * t.len());
                lemma_div_mod_bounds(m, k as int, t.len() as int);
            }
        }
    }
}

proof fn lemma_stirling_number_positive(n: nat, k: nat)
    requires
        stirling_args(n, k),
    ensures
        stirling_number(n, k) > 0,
    decreases n,
{
    if k == 1 || n == k {
    } else {
        lemma_stirling_number_positive((n - 1) as nat, (k - 1) as nat);
    }
}

proof fn lemma_div_mod_bounds(m: int, k: int, t: int)
    requires
        t > 0,
        k > 0,
        0 <= m < k * t,
    ensures
        0 <= m % t < t,
        0 <= m / t < k,
{
    assert(0 <= m % t < t) by (nonlinear_arith)
        requires
            t > 0,
    ;
    assert(0 <= m / t < k) by (nonlinear_arith)
        requires
            t > 0,
            k > 0,
            0 <= m < k * t,
    ;
}

/// The groups of a partition held in vectors, as sequences.
pub open spec fn groups_of(p: Vec<Vec<usize>>) -> Seq<Seq<usize>> {
    p@.map_values(|g: Vec<usize>| g@)
}

/// A list of partitions held in vectors, as sequences.
pub open spec fn partitions_of(v: Vec<Vec<Vec<usize>>>) -> Seq<Seq<Seq<usize>>> {
    v@.map_values(|p: Vec<Vec<usize>>| groups_of(p))
}

proof fn lemma_add_new_group_partition(p: Seq<Seq<usize>>, n: nat, k: nat)
    requires
        is_partition_of(p, n, k),
        n <= usize::MAX,
    ensures
        is_partition_of(add_new_group(p, n as usize), n + 1, k + 1),
{
    let x = n as usize;
    let q = add_new_group(p, x);
    assert forall|b: int| 0 <= b < q.len() implies #[trigger] q[b].len() > 0 by {
        if b < p.len() {
            assert(q[b] == p[b]);
        }
    }
    assert forall|b: int, i: int| 0 <= b < q.len() && 0 <= i < q[b].len() implies #[trigger] q[b][i] < n + 1 by {
        if b < p.len() {
            assert(q[b] == p[b]);
        }
    }
    assert forall|y: usize| y < n + 1 implies #[trigger] occurs_in(q, y) by {
        if y < n {
            assert(occurs_in(p, y));
            let (b, i) = choose|b: int, i: int| 0 <= b < p.len() && 0 <= i < p[b].len() && #[trigger] p[b][i] == y;
            assert(q[b] == p[b]);
            assert(q[b][i] == y);
        } else {
            assert(q[p.len() as int][0] == y);
        }
    }
    assert forall|b1: int, i1: int, b2: int, i2: int|
        0 <= b1 < q.len() && 0 <= i1 < q[b1].len() && 0 <= b2 < q.len() && 0 <= i2 < q[b2].len()
            && #[trigger] q[b1][i1] == #[trigger] q[b2][i2] implies b1 == b2 && i1 == i2 by {
        if b1 < p.len() {
            assert(q[b1] == p[b1]);
        }
        if b2 < p.len() {
            assert(q[b2] == p[b2]);
        }
        if b1 < p.len() && b2 < p.len() {
            assert(p[b1][i1] == p[b2][i2]);
        }
    }
}

proof fn lemma_add_to_group_partition(p: Seq<Seq<usize>>, n: nat, k: nat, j: int)
    requires
        is_partition_of(p, n, k),
        n <= usize::MAX,
        0 <= j < k,
    ensures
        is_partition_of(add_to_group(p, j, n as usize), n + 1, k),
{
    let x = n as usize;
    let q = add_to_group(p, j, x);
    assert forall|b: int| 0 <= b < q.len() implies #[trigger] q[b].len() > 0 by {
        if b != j {
            assert(q[b] == p[b]);
        }
    }
    assert forall|b: int, i: int| 0 <= b < q.len() && 0 <= i < q[b].len() implies #[trigger] q[b][i] < n + 1 by {
        if b != j {
            assert(q[b] == p[b]);
        } else if i < p[b].len() {
            assert(q[b][i] == p[b][i]);
        }
    }
    assert forall|y: usize| y < n + 1 implies #[trigger] occurs_in(q, y) by {
        if y < n {
            assert(occurs_in(p, y));
            let (b, i) = choose|b: int, i: int| 0 <= b < p.len() && 0 <= i < p[b].len() && #[trigger] p[b][i] == y;
            assert(q[b][i] == p[b][i]);
        } else {
            assert(q[j][p[j].len() as int] == y);
        }
    }
    assert forall|b1: int, i1: int, b2: int, i2: int|
        0 <= b1 < q.len() && 0 <= i1 < q[b1].len() && 0 <= b2 < q.len() && 0 <= i2 < q[b2].len()
            && #[trigger] q[b1][i1] == #[trigger] q[b2][i2] implies b1 == b2 && i1 == i2 by {
        let old1 = b1 != j || i1 < p[b1].len();
        let old2 = b2 != j || i2 < p[b2].len();
        if old1 {
            assert(q[b1][i1] == p[b1][i1]);
        }
        if old2 {
            assert(q[b2][i2] == p[b2][i2]);
        }
        if old1 && old2 {
            assert(p[b1][i1] == p[b2][i2]);
        }
    }
}

/// Every entry that `stirling2(n, k)` lists splits the nodes `0..n` into
/// exactly `k` non-empty groups, each node in exactly one group, and the
/// list holds `S(n, k)` entries. (With no nodes and one group, the one
/// entry is a single empty group, which is no such split.)
pub proof fn lemma_stirling2_lists_partitions(n: nat, k: nat)
    requires
        stirling_args(n, k),
        !(n == 0 && k == 1),
        n <= usize::MAX,
    ensures
        stirling_partitions(n, k).len() == stirling_number(n, k),
        forall|i: int|
            0 <= i < stirling_partitions(n, k).len() ==> is_partition_of(
                #[trigger] stirling_partitions(n, k)[i],
                n,
                k,
            ),
    decreases n,
{
    lemma_stirling_partitions_groups(n, k);
    let s = stirling_partitions(n, k);
    if k == 1 {
        let p = s[0];
        assert(p == seq![node_range(n)]);
        assert forall|y: usize| y < n implies #[trigger] occurs_in(p, y) by {
            assert(p[0][y as int] == y);
        }
        assert(is_partition_of(p, n, k));
    } else if n == k {
        let p = s[0];
        assert(p == singleton_groups(n));
        assert forall|y: usize| y < n implies #[trigger] occurs_in(p, y) by {
            assert(p[y as int][0] == y);
        }
        assert(is_partition_of(p, n, k));
    } else {
        let m = (n - 1) as nat;
        let x = m as usize;
        let a = stirling_partitions(m, (k - 1) as nat);
        let t = stirling_partitions(m, k);
        lemma_stirling2_lists_partitions(m, (k - 1) as nat);
        lemma_stirling2_lists_partitions(m, k);
        lemma_stirling_number_positive(m, k);
        assert forall|i: int| 0 <= i < s.len() implies is_partition_of(#[trigger] s[i], n, k) by {
            if i < a.len() {
                assert(s[i] == add_new_group(a[i], x));
                lemma_add_new_group_partition(a[i], m, (k - 1) as nat);
            } else {
                let r = i - a.len();
                lemma_div_mod_bounds(r, k as int, t.len() as int);
                assert(s[i] == spread_entry(t, r, x));
                lemma_add_to_group_partition(t[r % (t.len() as int)], m, k, r / (t.len() as int));
            }
        }
    }
}

/// The groups of `p` each list their nodes in increasing order, and the
/// groups come in increasing order of their first node.
pub open spec fn groups_in_order(p: Seq<Seq<usize>>) -> bool {
    &&& forall|b: int, i: int, j: int| 0 <= b < p.len() && 0 <= i < j < p[b].len() ==> #[trigger] p[b][i] < #[trigger] p[b][j]
    &&& forall|b1: int, b2: int| 0 <= b1 < b2 < p.len() ==> #[trigger] p[b1][0] < #[trigger] p[b2][0]
}

proof fn lemma_add_new_group_in_order(p: Seq<Seq<usize>>, n: nat, k: nat)
    requires
        is_partition_of(p, n, k),
        groups_in_order(p),
        n <= usize::MAX,
    ensures
        groups_in_order(add_new_group(p, n as usize)),
{
    let q = add_new_group(p, n as usize);
    assert forall|b: int, i: int, j: int| 0 <= b < q.len() && 0 <= i < j < q[b].len() implies #[trigger] q[b][i] < #[trigger] q[b][j] by {
        if b < p.len() {
            assert(q[b] == p[b]);
        }
    }
    assert forall|b1: int, b2: int| 0 <= b1 < b2 < q.len() implies #[trigger] q[b1][0] < #[trigger] q[b2][0] by {
        assert(q[b1] == p[b1]);
        assert(p[b1].len() > 0 && p[b1][0] < n);
        if b2 < p.len() {
            assert(q[b2] == p[b2]);
        }
    }
}

proof fn lemma_add_to_group_in_order(p: Seq<Seq<usize>>, n: nat, k: nat, g: int)
    requires
        is_partition_of(p, n, k),
        groups_in_order(p),
        n <= usize::MAX,
        0 <= g < k,
    ensures
        groups_in_order(add_to_group(p, g, n as usize)),
{
    let q = add_to_group(p, g, n as usize);
    assert forall|b: int, i: int, j: int| 0 <= b < q.len() && 0 <= i < j < q[b].len() implies #[trigger] q[b][i] < #[trigger] q[b][j] by {
        if b != g {
            assert(q[b] == p[b]);
        } else if j < p[b].len() {
            assert(q[b][i] == p[b][i] && q[b][j] == p[b][j]);
        } else {
            assert(q[b][i] == p[b][i] && p[b][i] < n);
        }
    }
    assert forall|b1: int, b2: int| 0 <= b1 < b2 < q.len() implies #[trigger] q[b1][0] < #[trigger] q[b2][0] by {
        assert(p[b1].len() > 0 && p[b2].len() > 0);
        assert(q[b1][0] == p[b1][0]);
        assert(q[b2][0] == p[b2][0]);
    }
}

/// Every entry that `stirling2(n, k)` lists keeps each group in increasing
/// order and orders its groups by their first node.
pub proof fn lemma_stirling2_groups_in_order(n: nat, k: nat)
    requires
        stirling_args(n, k),
        n <= usize::MAX,
    ensures
        forall|i: int| 0 <= i < stirling_partitions(n, k).len() ==> groups_in_order(#[trigger] stirling_partitions(n, k)[i]),
    decreases n,
{
    let s = stirling_partitions(n, k);
    if k == 1 {
        assert(s.len() == 1);
        assert(groups_in_order(s[0]));
    } else if n == k {
        assert(s.len() == 1);
        assert(groups_in_order(s[0]));
    } else {
        let m = (n - 1) as nat;
        let x = m as usize;
        let a = stirling_partitions(m, (k - 1) as nat);
        let t = stirling_partitions(m, k);
        lemma_stirling_partitions_groups(n, k);
        lemma_stirling2_lists_partitions(m, (k - 1) as nat);
        lemma_stirling2_lists_partitions(m, k);
        lemma_stirling2_groups_in_order(m, (k - 1) as nat);
        lemma_stirling2_groups_in_order(m, k);
        lemma_stirling_number_positive(m, k);
        assert forall|i: int| 0 <= i < s.len() implies groups_in_order(#[trigger] s[i]) by {
            if i < a.len() {
                assert(s[i] == add_new_group(a[i], x));
                lemma_add_new_group_in_order(a[i], m, (k - 1) as nat);
            } else {
                let r = i - a.len();
                lemma_div_mod_bounds(r, k as int, t.len() as int);
                assert(s[i] == spread_entry(t, r, x));
                lemma_add_to_group_in_order(t[r % (t.len() as int)], m, k, r / (t.len() as int));
            }
        }
    }
}

proof fn lemma_add_to_group_injective(p: Seq<Seq<usize>>, q: Seq<Seq<usize>>, j: int, x: usize)
    requires
        p.len() == q.len(),
        0 <= j < p.len(),
        add_to_group(p, j, x) == add_to_group(q, j, x),
    ensures
        p == q,
{
    let rp = add_to_group(p, j, x);
    let rq = add_to_group(q, j, x);
    assert(rp[j].drop_last() =~= p[j]);
    assert(rq[j].drop_last() =~= q[j]);
    assert forall|b: int| 0 <= b < p.len() implies p[b] == q[b] by {
        if b != j {
            assert(rp[b] == p[b]);
            assert(rq[b] == q[b]);
        }
    }
    assert(p =~= q);
}

/// `stirling2(n, k)` lists no partition twice.
pub proof fn lemma_stirling2_no_duplicates(n: nat, k: nat)
    requires
        stirling_args(n, k),
        n <= usize::MAX,
    ensures
        stirling_partitions(n, k).no_duplicates(),
    decreases n,
{
    let s = stirling_partitions(n, k);
    if k == 1 || n == k {
    } else {
        lemma_stirling2_lists_partitions(n, k);
        let m = (n - 1) as nat;
        let x = m as usize;
        let a = stirling_partitions(m, (k - 1) as nat);
        let t = stirling_partitions(m, k);
        let tl = t.len() as int;
        lemma_stirling2_lists_partitions(m, (k - 1) as nat);
        lemma_stirling2_lists_partitions(m, k);
        lemma_stirling2_no_duplicates(m, (k - 1) as nat);
        lemma_stirling2_no_duplicates(m, k);
        lemma_stirling_number_positive(m, k);
        assert forall|i1: int, i2: int| 0 <= i1 < s.len() && 0 <= i2 < s.len() && i1 != i2 implies s[i1] != s[i2] by {
            if s[i1] == s[i2] {
                if i1 < a.len() && i2 < a.len() {
                    assert(s[i1] == add_new_group(a[i1], x));
                    assert(s[i2] == add_new_group(a[i2], x));
                    assert(s[i1].drop_last() =~= a[i1]);
                    assert(s[i2].drop_last() =~= a[i2]);
                } else if i1 >= a.len() && i2 >= a.len() {
                    let r1 = i1 - a.len();
                    let r2 = i2 - a.len();
                    lemma_div_mod_bounds(r1, k as int, tl);
                    lemma_div_mod_bounds(r2, k as int, tl);
                    let (q1, j1) = (r1 % tl, r1 / tl);
                    let (q2, j2) = (r2 % tl, r2 / tl);
                    assert(s[i1] == add_to_group(t[q1], j1, x));
                    assert(s[i2] == add_to_group(t[q2], j2, x));
                    assert(is_partition_of(t[q1], m, k));
                    assert(is_partition_of(t[q2], m, k));
                    if j1 == j2 {
                        lemma_add_to_group_injective(t[q1], t[q2], j1, x);
                        assert(q1 != q2) by {
                            vstd::arithmetic::div_mod::lemma_fundamental_div_mod(r1, tl);
                            vstd::arithmetic::div_mod::lemma_fundamental_div_mod(r2, tl);
                        }
                    } else {
                        let last = t[q1][j1].len() as int;
                        assert(s[i1][j1][last] == x);
                        assert(s[i2][j1] == t[q2][j1]);
                        assert(t[q2][j1][last] < m);
                    }
                } else {
                    let (ia, ib) = if i1 < a.len() { (i1, i2) } else { (i2, i1) };
                    let r = ib - a.len();
                    lemma_div_mod_bounds(r, k as int, tl);
                    let (q, j) = (r % tl, r / tl);
                    assert(s[ia] == add_new_group(a[ia], x));
                    assert(s[ib] == add_to_group(t[q], j, x));
                    assert(is_partition_of(a[ia], m, (k - 1) as nat));
                    assert(is_partition_of(t[q], m, k));
                    let g = (k - 1) as int;
                    assert(s[ia][g] == seq![x]);
                    if j == g {
                        assert(t[q][j].len() > 0);
                        assert(s[ib][j].len() == t[q][j].len() + 1);
                    } else {
                        assert(s[ib][g] == t[q][g]);
                        assert(t[q][g].len() > 0);
                        assert(t[q][g][0] < m);
                    }
                }
            }
        }
    }
}

fn copy_group(g: &Vec<usize>) -> (r: Vec<usize>)
    ensures
        r@ == g@,
{
    let mut r: Vec<usize> = Vec::new();
    let mut i: usize = 0;
    while i < g.len()
        invariant
            i <= g.len(),
            r@ == g@.take(i as int),
        decreases g.len() - i,
    {
        r.push(g[i]);
        i = i + 1;
        assert(r@ =~= g@.take(i as int));
    }
    assert(g@.take(g.len() as int) =~= g@);
    r
}

/// A copy of a partition, group by group.
pub fn copy_partition(p: &Vec<Vec<usize>>) -> (r: Vec<Vec<usize>>)
    ensures
        groups_of(r) == groups_of(*p),
{
    let mut r: Vec<Vec<usize>> = Vec::new();
    let mut i: usize = 0;
    while i < p.len()
        invariant
            i <= p.len(),
            r@.len() == i,
            groups_of(r) == groups_of(*p).take(i as int),
        decreases p.len() - i,
    {
        let g = copy_group(&p[i]);
        let ghost old_r = r@;
        r.push(g);
        assert(forall|j: int| 0 <= j < i ==> r@[j] == old_r[j]);
        i = i + 1;
        assert(groups_of(r) =~= groups_of(*p).take(i as int));
    }
    assert(groups_of(*p).take(p.len() as int) =~= groups_of(*p));
    r
}

/// The number of partitions that `stirling2(n, k)` lists, `S(n, k)` by the
/// same recurrence, or `None` where it does not fit in a `usize`.
pub fn stirling_count(n: usize, k: usize) -> (r: Option<usize>)
    ensures
        match r {
            Some(c) => c == stirling_number(n as nat, k as nat),
            None => stirling_number(n as nat, k as nat) > usize::MAX,
        },
    decreases n,
{
    if k == 1 || n == k {
        Some(1)
    } else if n == 0 || k == 0 {
        Some(0)
    } else {
        let ghost a = stirling_number((n - 1) as nat, (k - 1) as nat);
        let ghost b = stirling_number((n - 1) as nat, k as nat);
        assert(stirling_number(n as nat, k as nat) == a + k * b);
        assert(b <= k * b) by (nonlinear_arith)
            requires
                k >= 2,
        ;
        match stirling_count(n - 1, k - 1) {
            None => None,
            Some(with_new_group) => match stirling_count(n - 1, k) {
                None => None,
                Some(per_group) => match k.checked_mul(per_group) {
                    None => None,
                    Some(joined) => with_new_group.checked_add(joined),
                },
            },
        }
    }
}

/// All partitions of the nodes `0..n` into `k` non-empty groups, in the
/// order of the recurrence `S(n, k) = S(n-1, k-1) + k * S(n-1, k)`: first
/// those of `0..n-1` into `k-1` groups with `{n-1}` added as the last group,
/// then, for `j` in `0..k`, those of `0..n-1` into `k` groups with `n-1`
/// added to group `j`.
pub fn stirling2(n: usize, k: usize) -> (res: Vec<Vec<Vec<usize>>>)
    requires
        stirling_args(n as nat, k as nat),
        stirling_number(n as nat, k as nat) <= usize::MAX,
    ensures
        partitions_of(res) == stirling_partitions(n as nat, k as nat),
    decreases n,
{
    if k == 1 {
        let mut all: Vec<usize> = Vec::new();
        let mut i: usize = 0;
        while i < n
            invariant
                i <= n,
                all@ == node_range(i as nat),
            decreases n - i,
        {
            all.push(i);
            i = i + 1;
            assert(all@ =~= node_range(i as nat));
        }
        let mut p: Vec<Vec<usize>> = Vec::new();
        p.push(all);
        assert(groups_of(p) =~= seq![node_range(n as nat)]);
        let mut ret: Vec<Vec<Vec<usize>>> = Vec::new();
        ret.push(p);
        assert(partitions_of(ret) =~= seq![groups_of(p)]);
        ret
    } else if n == k {
        let mut p: Vec<Vec<usize>> = Vec::new();
        let mut i: usize = 0;
        while i < n
            invariant
                i <= n,
                p@.len() == i,
                forall|j: int| 0 <= j < i ==> (#[trigger] p@[j])@ == seq![j as usize],
            decreases n - i,
        {
            let mut g: Vec<usize> = Vec::new();
            g.push(i);
            assert(g@ =~= seq![i]);
            p.push(g);
            i = i + 1;
        }
        assert(groups_of(p) =~= singleton_groups(n as nat));
        let mut ret: Vec<Vec<Vec<usize>>> = Vec::new();
        ret.push(p);
        assert(partitions_of(ret) =~= seq![groups_of(p)]);
        ret
    } else {
        proof {
            lemma_stirling_number_monotone(n as nat, k as nat);
            lemma_stirling_partitions_groups((n - 1) as nat, k as nat);
            lemma_stirling_number_positive((n - 1) as nat, k as nat);
        }
        let x: usize = n - 1;
        let ghost a = stirling_partitions((n - 1) as nat, (k - 1) as nat);
        let ghost t = stirling_partitions((n - 1) as nat, k as nat);
        let ghost h = a.map_values(|p: Seq<Seq<usize>>| add_new_group(p, x));
        assert(h.len() == a.len());
        let mut s = stirling2(n - 1, k - 1);
        assert(forall|j: int| 0 <= j < s@.len() ==> groups_of(#[trigger] s@[j]) == partitions_of(s)[j]);
        let mut i: usize = 0;
        while i < s.len()
            invariant
                s@.len() == a.len(),
                i <= s.len(),
                forall|j: int| 0 <= j < i ==> groups_of(#[trigger] s@[j]) == add_new_group(a[j], x),
                forall|j: int| i <= j < s@.len() ==> groups_of(#[trigger] s@[j]) == a[j],
            decreases s.len() - i,
        {
            let mut g: Vec<usize> = Vec::new();
            g.push(x);
            assert(g@ =~= seq![x]);
            let ghost old_s = s@;
            s[i].push(g);
            assert(s@[i as int]@ == old_s[i as int]@.push(g));
            assert(groups_of(s@[i as int]) =~= add_new_group(a[i as int], x));
            assert(forall|j: int| 0 <= j < s@.len() && j != i ==> s@[j] == old_s[j]);
            i = i + 1;
        }
        let ghost hl: int = a.len() as int;
        let tmp = stirling2(n - 1, k);
        let tl: usize = tmp.len();
        assert(forall|q: int| 0 <= q < tmp@.len() ==> groups_of(#[trigger] tmp@[q]) == t[q]);
        let mut j: usize = 0;
        while j < k
            invariant
                j <= k,
                tl == t.len(),
                tl == tmp@.len(),
                tl > 0,
                forall|q: int| 0 <= q < tmp@.len() ==> groups_of(#[trigger] tmp@[q]) == t[q],
                forall|q: int| 0 <= q < t.len() ==> (#[trigger] t[q]).len() == k,
                hl == a.len(),
                s@.len() == hl + j * tl,
                forall|m: int| 0 <= m < hl ==> groups_of(#[trigger] s@[m]) == add_new_group(a[m], x),
                forall|m: int| hl <= m < s@.len() ==> groups_of(#[trigger] s@[m]) == spread_entry(t, m - hl, x),
            decreases k - j,
        {
            let mut q: usize = 0;
            while q < tl
                invariant
                    j < k,
                    q <= tl,
                    tl == t.len(),
                    tl == tmp@.len(),
                    tl > 0,
                    forall|q: int| 0 <= q < tmp@.len() ==> groups_of(#[trigger] tmp@[q]) == t[q],
                    forall|q: int| 0 <= q < t.len() ==> (#[trigger] t[q]).len() == k,
                    hl == a.len(),
                    s@.len() == hl + j * tl + q,
                    forall|m: int| 0 <= m < hl ==> groups_of(#[trigger] s@[m]) == add_new_group(a[m], x),
                    forall|m: int| hl <= m < s@.len() ==> groups_of(#[trigger] s@[m]) == spread_entry(t, m - hl, x),
                decreases tl - q,
            {
                let mut p = copy_partition(&tmp[q]);
                assert(groups_of(p) == t[q as int]);
                assert(p@.len() == k);
                let ghost old_p = p@;
                p[j].push(x);
                proof {
                    let m: int = j * tl + q;
                    vstd::arithmetic::div_mod::lemma_fundamental_div_mod_converse(
                        m,
                        tl as int,
                        j as int,
                        q as int,
                    );
                    assert(forall|b: int| 0 <= b < p@.len() && b != j ==> p@[b] == old_p[b]);
                    assert(p@[j as int]@ == old_p[j as int]@.push(x));
                    assert(spread_entry(t, m, x) == add_to_group(t[q as int], j as int, x));
                    assert(groups_of(p) =~= spread_entry(t, m, x));
                }
                let ghost old_s = s@;
                let ghost gp = groups_of(p);
                assert(gp == spread_entry(t, j * tl + q, x));
                s.push(p);
                proof {
                    assert(s@.len() - 1 - hl == j * tl + q);
                    assert(groups_of(s@[s@.len() - 1]) == gp);
                    assert(forall|m: int| 0 <= m < old_s.len() ==> s@[m] == old_s[m]);
                }
                q = q + 1;
            }
            j = j + 1;
            assert(j * tl == (j - 1) * tl + tl) by (nonlinear_arith);
        }
        proof {
            assert(k * tl == j * tl);
            assert(partitions_of(s) =~= h + Seq::new((k * t.len()) as nat, |m: int| spread_entry(t, m, x)));
        }
        s
    }
}

} // verus!

verus! {

/// The number of faulty nodes a network of `num_nodes` tolerates:
/// `f = (num_nodes - 1) / 3`.
pub open spec fn fault_bound(num_nodes: nat) -> nat {
    ((num_nodes - 1) / 3) as nat
}

/// Some group of `p` holds both a faulty node `i < f` and its twin
/// `num_nodes + i`.
pub open spec fn twin_shares_group(p: Seq<Seq<usize>>, num_nodes: nat) -> bool {
    exists|b: int, i: int|
        0 <= b < p.len() && 0 <= i < fault_bound(num_nodes) && #[trigger] p[b].contains(i as usize)
            && p[b].contains((num_nodes + i) as usize)
}

/// The scenarios that `filter_partitions` keeps.
pub open spec fn keeps_twins_apart(num_nodes: nat) -> spec_fn(Seq<Seq<usize>>) -> bool {
    |p: Seq<Seq<usize>>| !twin_shares_group(p, num_nodes)
}

/// With `n >= 1` nodes, `f = fault_bound(n)` is the largest number of
/// faulty nodes that `n` nodes tolerate: `3 * f + 1 <= n <= 3 * f + 3`.
pub proof fn lemma_fault_bound(n: nat)
    requires
        n >= 1,
    ensures
        3 * fault_bound(n) + 1 <= n,
        n <= 3 * fault_bound(n) + 3,
{
    let m = (n - 1) as int;
    vstd::arithmetic::div_mod::lemma_fundamental_div_mod(m, 3);
    assert(0 <= m % 3 < 3) by (nonlinear_arith);
}

/// Node `i` is faulty in a network of `n` nodes (`i < (n - 1) / 3`)
/// exactly when `3 * i + 4 <= n`.
pub proof fn lemma_faulty_node(n: nat, i: int)
    requires
        n >= 1,
        0 <= i,
    ensures
        i < fault_bound(n) <==> 3 * i + 4 <= n,
{
    lemma_fault_bound(n);
}

/// A scenario has a faulty node sharing a group with its twin exactly when
/// some group, at any position, holds a node `i` with `3 * i + 4 <= n`
/// (that is, `i < (n - 1) / 3`) together with node `n + i`.
pub proof fn lemma_twin_shares_group_iff(p: Seq<Seq<usize>>, n: nat)
    requires
        n >= 1,
    ensures
        twin_shares_group(p, n) <==> exists|b: int, i: int|
            0 <= b < p.len() && 0 <= i && 3 * i + 4 <= n && #[trigger] p[b].contains(i as usize)
                && p[b].contains((n + i) as usize),
{
    lemma_fault_bound(n);
    if twin_shares_group(p, n) {
        let (b, i) = choose|b: int, i: int|
            0 <= b < p.len() && 0 <= i < fault_bound(n) && #[trigger] p[b].contains(i as usize)
                && p[b].contains((n + i) as usize);
        assert(3 * i + 4 <= n);
    }
    if exists|b: int, i: int|
        0 <= b < p.len() && 0 <= i && 3 * i + 4 <= n && #[trigger] p[b].contains(i as usize)
            && p[b].contains((n + i) as usize) {
        let (b, i) = choose|b: int, i: int|
            0 <= b < p.len() && 0 <= i && 3 * i + 4 <= n && #[trigger] p[b].contains(i as usize)
                && p[b].contains((n + i) as usize);
        assert(i < fault_bound(n));
    }
}

pub(crate) fn group_contains(g: &Vec<usize>, v: usize) -> (r: bool)
    ensures
        r == g@.contains(v),
{
    let mut i: usize = 0;
    while i < g.len()
        invariant
            i <= g.len(),
            forall|j: int| 0 <= j < i ==> g@[j] != v,
        decreases g.len() - i,
    {
        if g[i] == v {
            assert(g@[i as int] == v);
            return true;
        }
        i = i + 1;
    }
    false
}

/// Group `g` holds some node `i < upto` together with `num_nodes + i`.
pub open spec fn group_holds_twin_pair(g: Seq<usize>, num_nodes: nat, upto: int) -> bool {
    exists|i: int| 0 <= i < upto && #[trigger] g.contains(i as usize) && g.contains((num_nodes + i) as usize)
}

/// One of the first `upto` groups of `p` holds a node `i < f` together
/// with `num_nodes + i`.
pub open spec fn some_group_holds_twin_pair(p: Seq<Seq<usize>>, num_nodes: nat, f: int, upto: int) -> bool {
    exists|b: int| 0 <= b < upto && #[trigger] group_holds_twin_pair(p[b], num_nodes, f)
}

fn separates_twins(p: &Vec<Vec<usize>>, num_nodes: usize, f: usize) -> (r: bool)
    requires
        f == fault_bound(num_nodes as nat),
        num_nodes >= 1,
        num_nodes + f <= usize::MAX,
    ensures
        r == !twin_shares_group(groups_of(*p), num_nodes as nat),
{
    let ghost gp = groups_of(*p);
    let mut to_remove = false;
    let mut b: usize = 0;
    while b < p.len()
        invariant
            gp == groups_of(*p),
            f == fault_bound(num_nodes as nat),
            num_nodes + f <= usize::MAX,
            b <= p.len(),
            to_remove == some_group_holds_twin_pair(gp, num_nodes as nat, f as int, b as int),
        decreases p.len() - b,
    {
        let ghost before = to_remove;
        let mut i: usize = 0;
        while i < f
            invariant
                gp == groups_of(*p),
                b < p.len(),
                f == fault_bound(num_nodes as nat),
                num_nodes + f <= usize::MAX,
                i <= f,
                to_remove == (before || group_holds_twin_pair(gp[b as int], num_nodes as nat, i as int)),
            decreases f - i,
        {
            let has_node = group_contains(&p[b], i);
            let has_twin = group_contains(&p[b], num_nodes + i);
            if has_node && has_twin {
                to_remove = true;
            }
            proof {
                assert(gp[b as int] == p@[b as int]@);
                let g = gp[b as int];
                if group_holds_twin_pair(g, num_nodes as nat, i + 1) {
                    let w = choose|w: int| 0 <= w < i + 1 && #[trigger] g.contains(w as usize) && g.contains((num_nodes + w) as usize);
                    if w < i {
                        assert(group_holds_twin_pair(g, num_nodes as nat, i as int));
                    }
                }
                if has_node && has_twin {
                    assert(g.contains(i as usize) && g.contains((num_nodes + i) as usize));
                }
            }
            i = i + 1;
        }
        proof {
            let n = num_nodes as nat;
            if some_group_holds_twin_pair(gp, n, f as int, b + 1) {
                let w = choose|w: int| 0 <= w < b + 1 && #[trigger] group_holds_twin_pair(gp[w], n, f as int);
                if w < b {
                    assert(some_group_holds_twin_pair(gp, n, f as int, b as int));
                }
            }
        }
        b = b + 1;
    }
    proof {
        let n = num_nodes as nat;
        if twin_shares_group(gp, n) {
            let (b2, i2) = choose|b2: int, i2: int|
                0 <= b2 < gp.len() && 0 <= i2 < fault_bound(n) && #[trigger] gp[b2].contains(i2 as usize)
                    && gp[b2].contains((n + i2) as usize);
            assert(group_holds_twin_pair(gp[b2], n, f as int));
        }
        if some_group_holds_twin_pair(gp, n, f as int, gp.len() as int) {
            let b2 = choose|b2: int| 0 <= b2 < gp.len() && #[trigger] group_holds_twin_pair(gp[b2], n, f as int);
            let i2 = choose|i2: int| 0 <= i2 < f && #[trigger] gp[b2].contains(i2 as usize) && gp[b2].contains((n + i2) as usize);
            assert(twin_shares_group(gp, n));
        }
    }
    !to_remove
}

/// Drops the partition scenarios in which a faulty node and its twin share
/// a group. With `f = (num_nodes - 1) / 3`, the faulty nodes are `0..f` and
/// the twin of node `i` is `num_nodes + i`; the scenarios kept stay in their
/// order.
pub fn filter_partitions(list_of_partitions: Vec<Vec<Vec<usize>>>, num_of_nodes: usize) -> (res: Vec<
    Vec<Vec<usize>>,
>)
    requires
        num_of_nodes >= 1,
        num_of_nodes + fault_bound(num_of_nodes as nat) <= usize::MAX,
    ensures
        partitions_of(res) == partitions_of(list_of_partitions).filter(keeps_twins_apart(num_of_nodes as nat)),
        forall|c: int, b: int, i: int|
            0 <= c < partitions_of(res).len() && 0 <= b < partitions_of(res)[c].len() && 0 <= i && 3 * i + 4
                <= num_of_nodes && #[trigger] partitions_of(res)[c][b].contains(i as usize)
                ==> !partitions_of(res)[c][b].contains((num_of_nodes + i) as usize),
        forall|c: int|
            0 <= c < list_of_partitions@.len() ==> (partitions_of(res).contains(
                #[trigger] partitions_of(list_of_partitions)[c],
            ) <==> !exists|b: int, i: int|
                0 <= b < partitions_of(list_of_partitions)[c].len() && 0 <= i && 3 * i + 4 <= num_of_nodes
                    && #[trigger] partitions_of(list_of_partitions)[c][b].contains(i as usize)
                    && partitions_of(list_of_partitions)[c][b].contains((num_of_nodes + i) as usize)),
{
    let f: usize = (num_of_nodes - 1) / 3;
    let ghost all = partitions_of(list_of_partitions);
    let ghost keep = keeps_twins_apart(num_of_nodes as nat);
    let mut filtered: Vec<Vec<Vec<usize>>> = Vec::new();
    let mut i: usize = 0;
    while i < list_of_partitions.len()
        invariant
            all == partitions_of(list_of_partitions),
            keep == keeps_twins_apart(num_of_nodes as nat),
            f == fault_bound(num_of_nodes as nat),
            num_of_nodes >= 1,
            num_of_nodes + f <= usize::MAX,
            i <= list_of_partitions.len(),
            partitions_of(filtered) == all.take(i as int).filter(keep),
        decreases list_of_partitions.len() - i,
    {
        let apart = separates_twins(&list_of_partitions[i], num_of_nodes, f);
        proof {
            assert(all.take(i + 1) == all.take(i as int).push(all[i as int]));
            assert(all[i as int] == groups_of(list_of_partitions@[i as int]));
        }
        proof {
            all.take(i as int).lemma_filter_push(all[i as int], keep);
        }
        if apart {
            let p = copy_partition(&list_of_partitions[i]);
            filtered.push(p);
            assert(partitions_of(filtered) =~= all.take(i as int).filter(keep).push(all[i as int]));
        }
        i = i + 1;
    }
    assert(all.take(list_of_partitions.len() as int) =~= all);
    proof {
        lemma_filter_partitions_drops_shared_groups(all, num_of_nodes as nat);
    }
    filtered
}

/// Every scenario that `filter_partitions` keeps separates each faulty
/// node from its twin, and filtering the kept scenarios again keeps all of
/// them.
pub proof fn lemma_filter_partitions_keeps_twins_apart(list: Seq<Seq<Seq<usize>>>, num_nodes: nat)
    ensures
        forall|i: int|
            0 <= i < list.filter(keeps_twins_apart(num_nodes)).len() ==> !twin_shares_group(
                #[trigger] list.filter(keeps_twins_apart(num_nodes))[i],
                num_nodes,
            ),
        list.filter(keeps_twins_apart(num_nodes)).filter(keeps_twins_apart(num_nodes)) == list.filter(
            keeps_twins_apart(num_nodes),
        ),
    decreases list.len(),
{
    let keep = keeps_twins_apart(num_nodes);
    assert forall|i: int| 0 <= i < list.filter(keep).len() implies !twin_shares_group(
        #[trigger] list.filter(keep)[i],
        num_nodes,
    ) by {
        list.lemma_filter_pred(keep, i);
    }
    if list.len() > 0 {
        let rest = list.drop_last();
        let x = list.last();
        lemma_filter_partitions_keeps_twins_apart(rest, num_nodes);
        assert(rest.push(x) =~= list);
        rest.lemma_filter_push(x, keep);
        if keep(x) {
            rest.filter(keep).lemma_filter_push(x, keep);
        }
    } else {
        assert(list.filter(keep) =~= list) by {
            reveal(Seq::filter);
        }
        assert(list.filter(keep).filter(keep) =~= list.filter(keep)) by {
            reveal(Seq::filter);
        }
    }
}


/// What filtering keeps, over every group of every scenario: no scenario
/// kept has a group, at any position, that holds a node `i` with
/// `3 * i + 4 <= n` (a faulty node) together with its twin `n + i`; a
/// scenario of the list is kept exactly when it has no such group.
pub proof fn lemma_filter_partitions_drops_shared_groups(list: Seq<Seq<Seq<usize>>>, n: nat)
    requires
        n >= 1,
    ensures
        forall|c: int, b: int, i: int|
            0 <= c < list.filter(keeps_twins_apart(n)).len() && 0 <= b < list.filter(keeps_twins_apart(n))[c].len()
                && 0 <= i && 3 * i + 4 <= n && #[trigger] list.filter(keeps_twins_apart(n))[c][b].contains(i as usize)
                ==> !list.filter(keeps_twins_apart(n))[c][b].contains((n + i) as usize),
        forall|c: int|
            0 <= c < list.len() ==> (#[trigger] list.filter(keeps_twins_apart(n)).contains(list[c]) <==> !exists|b: int, i: int|
                0 <= b < list[c].len() && 0 <= i && 3 * i + 4 <= n && #[trigger] list[c][b].contains(i as usize)
                    && list[c][b].contains((n + i) as usize)),
{
    let keep = keeps_twins_apart(n);
    let kept = list.filter(keep);
    assert forall|c: int, b: int, i: int|
        0 <= c < kept.len() && 0 <= b < kept[c].len() && 0 <= i && 3 * i + 4 <= n
            && #[trigger] kept[c][b].contains(i as usize) implies !kept[c][b].contains((n + i) as usize) by {
        list.lemma_filter_pred(keep, c);
        lemma_twin_shares_group_iff(kept[c], n);
    }
    assert forall|c: int| 0 <= c < list.len() implies (#[trigger] kept.contains(list[c]) <==> !exists|b: int, i: int|
        0 <= b < list[c].len() && 0 <= i && 3 * i + 4 <= n && #[trigger] list[c][b].contains(i as usize)
            && list[c][b].contains((n + i) as usize)) by {
        lemma_twin_shares_group_iff(list[c], n);
        if keep(list[c]) {
            list.lemma_filter_contains(keep, c);
        }
        if kept.contains(list[c]) {
            let d = choose|d: int| 0 <= d < kept.len() && kept[d] == list[c];
            list.lemma_filter_pred(keep, d);
        }
    }
}

} // verus!
