//! The bookkeeping of generating a network of validators: ordering the
//! validator keys by account address, and the readable account addresses
//! given to twins.

use vstd::prelude::*;
use crate::types::AccountAddress;
use crate::validator_set::{ValidatorPublicKeys, ValidatorSet};
use crate::consensus_config::{on_disk_by_default, SafetyRulesConfig, SafetyRulesService};

verus! {

/// `a` comes before `b` in lexicographic order of bytes.
pub open spec fn bytes_lt(a: Seq<u8>, b: Seq<u8>) -> bool {
    exists|i: int| 0 <= i < a.len() && i < b.len() && #[trigger] a[i] < b[i] && forall|j: int| 0 <= j < i ==> a[j] == b[j]
}

/// Address `a` comes before address `b`, comparing their bytes in order.
pub open spec fn address_lt(a: AccountAddress, b: AccountAddress) -> bool {
    bytes_lt(a.0@, b.0@)
}

proof fn lemma_bytes_lt_transitive(a: Seq<u8>, b: Seq<u8>, c: Seq<u8>)
    requires
        a.len() == b.len() && b.len() == c.len(),
        bytes_lt(a, b),
        bytes_lt(b, c),
    ensures
        bytes_lt(a, c),
{
    let i = choose|i: int| 0 <= i < a.len() && i < b.len() && #[trigger] a[i] < b[i] && forall|j: int| 0 <= j < i ==> a[j] == b[j];
    let k = choose|k: int| 0 <= k < b.len() && k < c.len() && #[trigger] b[k] < c[k] && forall|j: int| 0 <= j < k ==> b[j] == c[j];
    if i <= k {
        assert(a[i] < c[i]);
    } else {
        assert(a[k] < c[k]);
    }
}

proof fn lemma_bytes_lt_asymmetric(a: Seq<u8>, b: Seq<u8>)
    requires
        a.len() == b.len(),
        bytes_lt(a, b),
    ensures
        !bytes_lt(b, a),
{
    let i = choose|i: int| 0 <= i < a.len() && i < b.len() && #[trigger] a[i] < b[i] && forall|j: int| 0 <= j < i ==> a[j] == b[j];
    if bytes_lt(b, a) {
        let k = choose|k: int| 0 <= k < b.len() && k < a.len() && #[trigger] b[k] < a[k] && forall|j: int| 0 <= j < k ==> b[j] == a[j];
        if i < k {
        } else if k < i {
        } else {
        }
    }
}

/// Where two sequences of equal length first differ, if they differ at or
/// after position `from` and agree before it.
proof fn lemma_bytes_total_from(a: Seq<u8>, b: Seq<u8>, from: int)
    requires
        a.len() == b.len(),
        0 <= from <= a.len(),
        forall|j: int| 0 <= j < from ==> a[j] == b[j],
    ensures
        a =~= b || bytes_lt(a, b) || bytes_lt(b, a),
    decreases a.len() - from,
{
    if from < a.len() {
        if a[from] == b[from] {
            lemma_bytes_total_from(a, b, from + 1);
        } else if a[from] < b[from] {
            assert(a[from] < b[from]);
        } else {
            assert(b[from] < a[from]);
        }
    }
}

proof fn lemma_address_total(a: AccountAddress, b: AccountAddress)
    ensures
        a == b || address_lt(a, b) || address_lt(b, a),
{
    lemma_bytes_total_from(a.0@, b.0@, 0);
    if a.0@ =~= b.0@ {
        assert(a.0 =~= b.0);
    }
}

/// Whether address `a` comes before address `b`.
pub fn account_address_lt(a: &AccountAddress, b: &AccountAddress) -> (r: bool)
    ensures
        r == address_lt(*a, *b),
{
    let mut i: usize = 0;
    while i < 32
        invariant
            i <= 32,
            forall|j: int| 0 <= j < i ==> a.0@[j] == b.0@[j],
        decreases 32 - i,
    {
        if a.0[i] != b.0[i] {
            if a.0[i] < b.0[i] {
                assert(a.0@[i as int] < b.0@[i as int]);
                return true;
            } else {
                proof {
                    assert(b.0@[i as int] < a.0@[i as int]);
                    lemma_bytes_lt_asymmetric(b.0@, a.0@);
                }
                return false;
            }
        }
        i = i + 1;
    }
    proof {
        if bytes_lt(a.0@, b.0@) {
            let k = choose|k: int| 0 <= k < a.0@.len() && k < b.0@.len() && #[trigger] a.0@[k] < b.0@[k] && forall|j: int| 0 <= j < k ==> a.0@[j] == b.0@[j];
            assert(a.0@[k] == b.0@[k]);
        }
    }
    false
}

/// Something that belongs to an account: validator keys, or a node.
pub trait HasAccountAddress {
    /// The account address it belongs to.
    spec fn account(&self) -> AccountAddress;

    /// The account address it belongs to.
    fn get_account_address(&self) -> (r: AccountAddress)
        ensures
            r == self.account(),
    ;
}

impl<PublicKey> HasAccountAddress for ValidatorPublicKeys<PublicKey> {
    open spec fn account(&self) -> AccountAddress {
        self.account_address
    }

    fn get_account_address(&self) -> (r: AccountAddress) {
        self.account_address
    }
}

/// The entries are in order of account address: none comes after one whose
/// address is smaller.
pub open spec fn sorted_by_address<T: HasAccountAddress>(s: Seq<T>) -> bool {
    forall|i: int, j: int| 0 <= i < j < s.len() ==> !address_lt(#[trigger] s[j].account(), #[trigger] s[i].account())
}

/// The entries that belong to address `a`.
pub open spec fn has_address<T: HasAccountAddress>(a: AccountAddress) -> spec_fn(T) -> bool {
    |v: T| v.account() == a
}

proof fn lemma_filter_insert<T: HasAccountAddress>(s: Seq<T>, p: int, x: T, a: AccountAddress)
    requires
        0 <= p <= s.len(),
        forall|q: int| p <= q < s.len() ==> address_lt(x.account(), #[trigger] s[q].account()),
    ensures
        x.account() == a ==> s.insert(p, x).filter(has_address(a)) == s.filter(has_address(a)).push(x),
        x.account() != a ==> s.insert(p, x).filter(has_address(a)) == s.filter(has_address(a)),
{
    broadcast use vstd::seq::Seq::lemma_filter_push;

    let pred = has_address::<T>(a);
    let front = s.subrange(0, p);
    let back = s.subrange(p, s.len() as int);
    assert(s =~= front + back);
    assert(s.insert(p, x) =~= front.push(x) + back);
    vstd::seq::Seq::filter_distributes_over_add(front, back, pred);
    vstd::seq::Seq::filter_distributes_over_add(front.push(x), back, pred);
    if x.account() == a {
        assert forall|q: int| 0 <= q < back.len() implies !pred(#[trigger] back[q]) by {
            assert(back[q] == s[p + q]);
            assert(address_lt(x.account(), s[p + q].account()));
            assert(!bytes_lt(x.account().0@, x.account().0@));
        }
        assert(back.all(|y: T| !pred(y)));
        back.lemma_all_neg_filter_empty(pred);
        assert(back.filter(pred) =~= Seq::<T>::empty());
        assert(front.push(x).filter(pred) == front.filter(pred).push(x));
        assert(s.insert(p, x).filter(pred) =~= s.filter(pred).push(x));
    } else {
        assert(front.push(x).filter(pred) == front.filter(pred));
    }
}

/// Orders the entries by account address, keeping entries of the same
/// address in the order they came in (a stable sort).
pub fn sort_by_account_address<T: HasAccountAddress>(keys: Vec<T>) -> (r: Vec<T>)
    ensures
        r@.len() == keys@.len(),
        sorted_by_address(r@),
        forall|a: AccountAddress| #[trigger] r@.filter(has_address(a)) == keys@.filter(has_address(a)),
{
    broadcast use vstd::seq::Seq::lemma_filter_push;

    let ghost orig = keys@;
    let mut input = keys;
    let mut sorted: Vec<T> = Vec::new();
    let ghost mut i: int = 0;
    assert(orig.skip(0) =~= orig);
    while input.len() > 0
        invariant
            0 <= i <= orig.len(),
            input@ == orig.skip(i),
            sorted@.len() == i,
            sorted_by_address(sorted@),
            forall|a: AccountAddress| #[trigger] sorted@.filter(has_address(a)) == orig.take(i).filter(has_address(a)),
        decreases input@.len(),
    {
        let x = input.remove(0);
        let xa = x.get_account_address();
        let mut p: usize = 0;
        while p < sorted.len() && !account_address_lt(&xa, &sorted[p].get_account_address())
            invariant
                p <= sorted@.len(),
                xa == x.account(),
                forall|q: int| 0 <= q < p ==> !address_lt(x.account(), #[trigger] sorted@[q].account()),
            decreases sorted@.len() - p,
        {
            p = p + 1;
        }
        let ghost old_sorted = sorted@;
        proof {
            assert(x == orig[i]);
            assert forall|q: int| p <= q < old_sorted.len() implies address_lt(x.account(), #[trigger] old_sorted[q].account()) by {
                assert(address_lt(x.account(), old_sorted[p as int].account()));
                if q > p {
                    assert(!address_lt(old_sorted[q].account(), old_sorted[p as int].account()));
                    lemma_address_total(old_sorted[q].account(), old_sorted[p as int].account());
                    if address_lt(old_sorted[p as int].account(), old_sorted[q].account()) {
                        lemma_bytes_lt_transitive(x.account().0@, old_sorted[p as int].account().0@, old_sorted[q].account().0@);
                    }
                }
            }
        }
        sorted.insert(p, x);
        proof {
            old_sorted.insert_ensures(p as int, x);
            assert(sorted@ == old_sorted.insert(p as int, x));
            assert(orig.take(i + 1) =~= orig.take(i).push(x));
            assert forall|a: AccountAddress| #[trigger] sorted@.filter(has_address(a)) == orig.take(i + 1).filter(has_address(a)) by {
                lemma_filter_insert(old_sorted, p as int, x, a);
                orig.take(i).lemma_filter_push(x, has_address(a));
            }
            assert forall|u: int, v: int| 0 <= u < v < sorted@.len() implies !address_lt(#[trigger] sorted@[v].account(), #[trigger] sorted@[u].account()) by {
                if u < p && v < p {
                    assert(sorted@[u] == old_sorted[u] && sorted@[v] == old_sorted[v]);
                } else if u < p && v == p {
                    assert(sorted@[u] == old_sorted[u]);
                    assert(!address_lt(x.account(), old_sorted[u].account()));
                } else if u < p {
                    assert(sorted@[u] == old_sorted[u] && sorted@[v] == old_sorted[v - 1]);
                } else if u == p {
                    assert(sorted@[v] == old_sorted[v - 1]);
                    assert(address_lt(x.account(), old_sorted[v - 1].account()));
                    lemma_bytes_lt_asymmetric(x.account().0@, old_sorted[v - 1].account().0@);
                } else {
                    assert(sorted@[u] == old_sorted[u - 1] && sorted@[v] == old_sorted[v - 1]);
                }
            }
            assert(input@ =~= orig.skip(i + 1));
            i = i + 1;
        }
    }
    proof {
        assert(orig.take(i) =~= orig);
    }
    sorted
}

proof fn lemma_filter_first<T>(s: Seq<T>, pred: spec_fn(T) -> bool)
    requires
        s.len() > 0,
    ensures
        pred(s[0]) ==> s.filter(pred) == seq![s[0]] + s.drop_first().filter(pred),
        !pred(s[0]) ==> s.filter(pred) == s.drop_first().filter(pred),
{
    let head = seq![s[0]];
    assert(s =~= head + s.drop_first());
    vstd::seq::Seq::filter_distributes_over_add(head, s.drop_first(), pred);
    assert(head.drop_last() =~= Seq::<T>::empty());
    reveal_with_fuel(vstd::seq::Seq::filter, 2);
    if pred(s[0]) {
        assert(head.filter(pred) =~= head);
    } else {
        assert(head.filter(pred) =~= Seq::<T>::empty());
    }
}

/// In a sequence ordered by address, an address that some entry has is no
/// smaller than the address of the first entry.
proof fn lemma_first_not_after<T: HasAccountAddress>(s: Seq<T>, b: AccountAddress)
    requires
        s.len() > 0,
        sorted_by_address(s),
        s.filter(has_address(b)).len() > 0,
    ensures
        !address_lt(b, s[0].account()),
{
    broadcast use vstd::seq_lib::group_seq_properties;

    let e = s.filter(has_address(b))[0];
    s.lemma_filter_pred(has_address(b), 0);
    assert(s.filter(has_address(b)).contains(e));
    s.lemma_filter_contains_rev(has_address(b), e);
    let j = choose|j: int| 0 <= j < s.len() && s[j] == e;
    if j > 0 {
        assert(!address_lt(s[j].account(), s[0].account()));
    } else {
        assert(!bytes_lt(b.0@, b.0@));
    }
}

proof fn lemma_first_entries_equal<T: HasAccountAddress>(s: Seq<T>, t: Seq<T>)
    requires
        s.len() > 0,
        sorted_by_address(s),
        sorted_by_address(t),
        same_per_address(s, t),
    ensures
        t.len() > 0,
        s[0] == t[0],
{
    let a = s[0].account();
    lemma_filter_first(s, has_address(a));
    assert(s.filter(has_address::<T>(a)) == t.filter(has_address::<T>(a)));
    if t.len() == 0 {
        assert(t =~= Seq::<T>::empty());
        reveal_with_fuel(vstd::seq::Seq::filter, 1);
        assert(t.filter(has_address::<T>(a)).len() == 0);
    }
    let b = t[0].account();
    lemma_filter_first(t, has_address(b));
    assert(s.filter(has_address::<T>(b)) == t.filter(has_address::<T>(b)));
    lemma_first_not_after(s, b);
    lemma_first_not_after(t, a);
    lemma_address_total(a, b);
    lemma_filter_first(t, has_address(a));
    assert(s[0] == s.filter(has_address::<T>(a))[0]);
    assert(t[0] == t.filter(has_address::<T>(a))[0]);
}

proof fn lemma_rest_same_per_address<T: HasAccountAddress>(s: Seq<T>, t: Seq<T>)
    requires
        s.len() > 0,
        t.len() > 0,
        s[0] == t[0],
        same_per_address(s, t),
    ensures
        same_per_address(s.drop_first(), t.drop_first()),
{
    let s1 = s.drop_first();
    let t1 = t.drop_first();
    assert forall|c: AccountAddress| #[trigger] s1.filter(has_address(c)) == t1.filter(has_address(c)) by {
        lemma_filter_first(s, has_address(c));
        lemma_filter_first(t, has_address(c));
        assert(s.filter(has_address::<T>(c)) == t.filter(has_address::<T>(c)));
        if s[0].account() == c {
            assert(s1.filter(has_address::<T>(c)) =~= s.filter(has_address::<T>(c)).drop_first());
            assert(t1.filter(has_address::<T>(c)) =~= t.filter(has_address::<T>(c)).drop_first());
        }
    }
}

proof fn lemma_sorted_rest<T: HasAccountAddress>(s: Seq<T>)
    requires
        s.len() > 0,
        sorted_by_address(s),
    ensures
        sorted_by_address(s.drop_first()),
{
    let s1 = s.drop_first();
    assert forall|i: int, j: int| 0 <= i < j < s1.len() implies !address_lt(#[trigger] s1[j].account(), #[trigger] s1[i].account()) by {
        assert(s1[j] == s[j + 1] && s1[i] == s[i + 1]);
    }
}

/// Ordering by account address leaves no choice: two sequences, each in
/// order of account address, that hold the same entries for every address
/// in the same order are equal. So the validator set of a network is fixed
/// by the validator keys it is made from, whatever order they came in.
pub proof fn lemma_address_order_unique<T: HasAccountAddress>(s: Seq<T>, t: Seq<T>)
    requires
        sorted_by_address(s),
        sorted_by_address(t),
        same_per_address(s, t),
    ensures
        s == t,
    decreases s.len(),
{
    if s.len() > 0 {
        lemma_first_entries_equal(s, t);
        lemma_rest_same_per_address(s, t);
        lemma_sorted_rest(s);
        lemma_sorted_rest(t);
        lemma_address_order_unique(s.drop_first(), t.drop_first());
        assert(s =~= seq![s[0]] + s.drop_first());
        assert(t =~= seq![t[0]] + t.drop_first());
    } else if t.len() > 0 {
        assert forall|c: AccountAddress| #[trigger] t.filter(has_address(c)) == s.filter(has_address(c)) by {
            assert(s.filter(has_address::<T>(c)) == t.filter(has_address::<T>(c)));
        }
        lemma_first_entries_equal(t, s);
    } else {
        assert(s =~= t);
    }
}

/// The first byte of the address of the first twin; the addresses of twins
/// read `f0`, `f1`, ... in logs.
pub const FIRST_TWIN_ACCOUNT_INDEX: u8 = 240;

/// A readable account address for a twin: `twin_account_index` as its first
/// byte, zero elsewhere.
pub fn twin_account_address(twin_account_index: u8) -> (r: AccountAddress)
    ensures
        r.0@ == twin_address_bytes(twin_account_index),
{
    let mut twin_address = [0u8; 32];
    twin_address[0] = twin_account_index;
    assert(twin_address@ =~= twin_address_bytes(twin_account_index));
    AccountAddress(twin_address)
}

/// The bytes of the address of the twin whose account index is `index`.
pub open spec fn twin_address_bytes(index: u8) -> Seq<u8> {
    Seq::new(32, |i: int| if i == 0 { index } else { 0u8 })
}

/// The nodes among `0..count` that get a twin, in increasing order, each
/// with the account address of its twin: the first such node's twin has
/// first byte 240, the next 241, and so on.
pub fn twin_accounts(count: usize, target_nodes: &Vec<usize>) -> (r: Vec<(usize, AccountAddress)>)
    requires
        index_range_targets(count as nat, target_nodes@).len() <= 15,
    ensures
        r@.len() == index_range_targets(count as nat, target_nodes@).len(),
        forall|k: int|
            0 <= k < r@.len() ==> (#[trigger] r@[k]).0 == index_range_targets(count as nat, target_nodes@)[k]
                && r@[k].1.0@ == twin_address_bytes((240 + k) as u8),
{
    let mut result: Vec<(usize, AccountAddress)> = Vec::new();
    let mut twin_account_index: u8 = FIRST_TWIN_ACCOUNT_INDEX;
    let mut index: usize = 0;
    while index < count
        invariant
            index <= count,
            index_range_targets(count as nat, target_nodes@).len() <= 15,
            result@.len() == index_range_targets(index as nat, target_nodes@).len(),
            forall|k: int|
                0 <= k < result@.len() ==> (#[trigger] result@[k]).0 == index_range_targets(index as nat, target_nodes@)[k]
                    && result@[k].1.0@ == twin_address_bytes((240 + k) as u8),
            twin_account_index == 240 + result@.len(),
        decreases count - index,
    {
        proof {
            lemma_targets_prefix(count as nat, (index + 1) as nat, target_nodes@);
        }
        if crate::twins::partitions::group_contains(target_nodes, index) {
            let twin = twin_account_address(twin_account_index);
            let ghost old_result = result@;
            result.push((index, twin));
            proof {
                assert forall|k: int| 0 <= k < result@.len() implies (#[trigger] result@[k]).0
                    == index_range_targets((index + 1) as nat, target_nodes@)[k]
                    && result@[k].1.0@ == twin_address_bytes((240 + k) as u8) by {
                    if k < old_result.len() {
                        assert(result@[k] == old_result[k]);
                    }
                }
            }
            twin_account_index = twin_account_index + 1;
        }
        index = index + 1;
    }
    result
}

/// The nodes among `0..count` that `target_nodes` names, in increasing
/// order.
pub open spec fn index_range_targets(count: nat, target_nodes: Seq<usize>) -> Seq<usize>
    decreases count,
{
    if count == 0 {
        Seq::empty()
    } else {
        let before = index_range_targets((count - 1) as nat, target_nodes);
        if target_nodes.contains((count - 1) as usize) {
            before.push((count - 1) as usize)
        } else {
            before
        }
    }
}

proof fn lemma_targets_prefix(count: nat, upto: nat, target_nodes: Seq<usize>)
    requires
        upto <= count,
    ensures
        index_range_targets(upto, target_nodes).len() <= index_range_targets(count, target_nodes).len(),
    decreases count,
{
    if upto < count {
        lemma_targets_prefix((count - 1) as nat, upto, target_nodes);
    }
}

/// What generating a validator node settles about it: its peer id (the
/// account address of the validator), its keys, its network addresses and
/// seed peers, and how it runs safety rules.
pub struct SwarmNode<PublicKey> {
    pub peer_id: AccountAddress,
    pub consensus_public_key: PublicKey,
    pub network_signing_public_key: [u8; 32],
    pub network_identity_public_key: [u8; 32],
    pub listen_address: String,
    pub advertised_address: String,
    /// The seed peers: peer ids, each with the addresses it listens on.
    pub seed_peers: Vec<(AccountAddress, Vec<String>)>,
    pub safety_rules: SafetyRulesConfig,
}

impl<PublicKey> HasAccountAddress for SwarmNode<PublicKey> {
    open spec fn account(&self) -> AccountAddress {
        self.peer_id
    }

    fn get_account_address(&self) -> (r: AccountAddress) {
        self.peer_id
    }
}

/// A network of validator nodes and the validator set they form.
pub struct ValidatorSwarm<PublicKey> {
    pub nodes: Vec<SwarmNode<PublicKey>>,
    pub validator_set: ValidatorSet<PublicKey>,
}

/// `keys` are the validator keys of `node`: its peer id, a clone of its
/// consensus key, voting power 1, and its network keys.
pub open spec fn keys_of_node<PublicKey: Clone>(node: SwarmNode<PublicKey>, keys: ValidatorPublicKeys<PublicKey>) -> bool {
    &&& keys.account_address == node.peer_id
    &&& cloned::<PublicKey>(node.consensus_public_key, keys.consensus_public_key)
    &&& keys.consensus_voting_power == 1
    &&& keys.network_signing_public_key == node.network_signing_public_key
    &&& keys.network_identity_public_key == node.network_identity_public_key
}

/// `ks` holds the validator keys of the nodes, one per node, in node order.
pub open spec fn keys_of_nodes<PublicKey: Clone>(nodes: Seq<SwarmNode<PublicKey>>, ks: Seq<ValidatorPublicKeys<PublicKey>>) -> bool {
    &&& ks.len() == nodes.len()
    &&& forall|i: int| 0 <= i < ks.len() ==> keys_of_node(nodes[i], #[trigger] ks[i])
}

/// `s` and `t` hold the same entries for every address, in the same order.
pub open spec fn same_per_address<T: HasAccountAddress>(s: Seq<T>, t: Seq<T>) -> bool {
    forall|a: AccountAddress| #[trigger] s.filter(has_address(a)) == t.filter(has_address(a))
}

/// The validator keys of a node, with voting power 1.
pub fn validator_keys_of<PublicKey: Clone>(node: &SwarmNode<PublicKey>) -> (r: ValidatorPublicKeys<PublicKey>)
    ensures
        keys_of_node(*node, r),
{
    ValidatorPublicKeys::new(
        node.peer_id,
        node.consensus_public_key.clone(),
        1,
        node.network_signing_public_key,
        node.network_identity_public_key,
    )
}

/// `n` is `m` once its advertised address is its listen address, its seed
/// peers are `seed`, and its safety rules keep their data on disk in storage
/// marked as its default, running in a thread of their own if `own_thread`
/// (else as before): the rest of the node is unchanged.
pub open spec fn node_with_seed<PublicKey>(
    m: SwarmNode<PublicKey>,
    n: SwarmNode<PublicKey>,
    seed: (AccountAddress, Seq<char>),
    own_thread: bool,
) -> bool {
    &&& n.peer_id == m.peer_id
    &&& n.consensus_public_key == m.consensus_public_key
    &&& n.network_signing_public_key == m.network_signing_public_key
    &&& n.network_identity_public_key == m.network_identity_public_key
    &&& n.listen_address@ == m.listen_address@
    &&& n.advertised_address@ == m.listen_address@
    &&& n.seed_peers@.len() == 1
    &&& n.seed_peers@[0].0 == seed.0
    &&& n.seed_peers@[0].1@.len() == 1
    &&& n.seed_peers@[0].1@[0]@ == seed.1
    &&& on_disk_by_default(n.safety_rules.backend)
    &&& n.safety_rules.service == if own_thread { SafetyRulesService::Thread } else { m.safety_rules.service }
}

fn with_seed<PublicKey>(
    node: SwarmNode<PublicKey>,
    seed_peer: AccountAddress,
    seed_address: &String,
    own_thread: bool,
) -> (r: SwarmNode<PublicKey>)
    ensures
        node_with_seed(node, r, (seed_peer, seed_address@), own_thread),
{
    let mut safety_rules = node.safety_rules;
    if own_thread {
        safety_rules.use_thread_and_default_on_disk_storage();
    } else {
        safety_rules.use_default_on_disk_storage();
    }
    let mut addresses: Vec<String> = Vec::new();
    addresses.push(seed_address.clone());
    let mut seed_peers: Vec<(AccountAddress, Vec<String>)> = Vec::new();
    seed_peers.push((seed_peer, addresses));
    let advertised_address = node.listen_address.clone();
    SwarmNode {
        peer_id: node.peer_id,
        consensus_public_key: node.consensus_public_key,
        network_signing_public_key: node.network_signing_public_key,
        network_identity_public_key: node.network_identity_public_key,
        listen_address: node.listen_address,
        advertised_address,
        seed_peers,
        safety_rules,
    }
}

/// The nodes in the given order, each advertising its listen address,
/// seeded with the first node (its peer id and listen address), and with
/// its safety rules set up as `node_with_seed` says.
fn seed_all<PublicKey>(nodes: Vec<SwarmNode<PublicKey>>, own_thread: bool) -> (r: Vec<SwarmNode<PublicKey>>)
    requires
        nodes@.len() > 0,
    ensures
        r@.len() == nodes@.len(),
        forall|i: int|
            0 <= i < r@.len() ==> node_with_seed(
                nodes@[i],
                #[trigger] r@[i],
                (nodes@[0].peer_id, nodes@[0].listen_address@),
                own_thread,
            ),
{
    let seed_peer = nodes[0].peer_id;
    let seed_address = nodes[0].listen_address.clone();
    let ghost orig = nodes@;
    let mut input = nodes;
    let mut out: Vec<SwarmNode<PublicKey>> = Vec::new();
    let ghost mut i: int = 0;
    assert(orig.skip(0) =~= orig);
    while input.len() > 0
        invariant
            0 <= i <= orig.len(),
            orig.len() > 0,
            input@ == orig.skip(i),
            out@.len() == i,
            seed_peer == orig[0].peer_id,
            seed_address@ == orig[0].listen_address@,
            forall|k: int| 0 <= k < i ==> node_with_seed(orig[k], #[trigger] out@[k], (seed_peer, seed_address@), own_thread),
        decreases input@.len(),
    {
        let node = input.remove(0);
        proof {
            assert(node == orig[i]);
        }
        let ghost old_out = out@;
        out.push(with_seed(node, seed_peer, &seed_address, own_thread));
        proof {
            assert(forall|k: int| 0 <= k < i ==> out@[k] == old_out[k]);
            assert(input@ =~= orig.skip(i + 1));
            i = i + 1;
        }
    }
    out
}

/// The validator keys of the nodes, one per node, in node order.
fn keys_of_all<PublicKey: Clone>(nodes: &Vec<SwarmNode<PublicKey>>) -> (r: Vec<ValidatorPublicKeys<PublicKey>>)
    ensures
        keys_of_nodes(nodes@, r@),
{
    let mut validator_keys: Vec<ValidatorPublicKeys<PublicKey>> = Vec::new();
    let mut i: usize = 0;
    while i < nodes.len()
        invariant
            i <= nodes@.len(),
            validator_keys@.len() == i,
            forall|k: int| 0 <= k < i ==> keys_of_node(nodes@[k], #[trigger] validator_keys@[k]),
        decreases nodes@.len() - i,
    {
        let keys = validator_keys_of(&nodes[i]);
        let ghost old_keys = validator_keys@;
        validator_keys.push(keys);
        assert(forall|k: int| 0 <= k < i ==> validator_keys@[k] == old_keys[k]);
        i = i + 1;
    }
    validator_keys
}

/// Assembles a network from its generated nodes: every node advertises its
/// listen address, is seeded with the first node, and runs safety rules in
/// a thread of their own with their data on disk in storage marked as its
/// default; the validator set holds the keys of the nodes (voting power 1
/// each) ordered by account address, keys of one address in node order.
pub fn assemble_validator_swarm<PublicKey: Clone>(nodes: Vec<SwarmNode<PublicKey>>) -> (r: ValidatorSwarm<PublicKey>)
    requires
        nodes@.len() > 0,
    ensures
        r.nodes@.len() == nodes@.len(),
        forall|i: int|
            0 <= i < r.nodes@.len() ==> node_with_seed(
                nodes@[i],
                #[trigger] r.nodes@[i],
                (nodes@[0].peer_id, nodes@[0].listen_address@),
                true,
            ),
        r.validator_set.num_twins() is None,
        r.validator_set.payload().len() == nodes@.len(),
        sorted_by_address(r.validator_set.payload()),
        exists|ks: Seq<ValidatorPublicKeys<PublicKey>>|
            #[trigger] keys_of_nodes(nodes@, ks) && same_per_address(r.validator_set.payload(), ks),
{
    let validator_keys = keys_of_all(&nodes);
    let ghost ks = validator_keys@;
    let ghost nodes_in = nodes@;
    let sorted = sort_by_account_address(validator_keys);
    let nodes = seed_all(nodes, true);
    let validator_set = ValidatorSet::new(sorted);
    assert(keys_of_nodes(nodes_in, ks));
    ValidatorSwarm { nodes, validator_set }
}

proof fn lemma_targets_below(count: nat, target_nodes: Seq<usize>)
    ensures
        forall|k: int|
            0 <= k < index_range_targets(count, target_nodes).len() ==> #[trigger] index_range_targets(count, target_nodes)[k] < count,
    decreases count,
{
    if count > 0 {
        let before = index_range_targets((count - 1) as nat, target_nodes);
        let now = index_range_targets(count, target_nodes);
        lemma_targets_below((count - 1) as nat, target_nodes);
        assert forall|k: int| 0 <= k < now.len() implies #[trigger] now[k] < count by {
            if k < before.len() {
                assert(now[k] == before[k]);
            }
        }
    }
}

/// `t` is twin `j`, made from the node `g` generated for it and standing
/// for the node `target`: its peer id is the readable twin address whose
/// first byte is 240 + j, its consensus key a clone of the target's, and the
/// rest (network keys and addresses, seed peers, safety rules) is `g`'s.
pub open spec fn twin_node_of<PublicKey: Clone>(
    t: SwarmNode<PublicKey>,
    g: SwarmNode<PublicKey>,
    target: SwarmNode<PublicKey>,
    j: int,
) -> bool {
    &&& t.peer_id.0@ == twin_address_bytes((240 + j) as u8)
    &&& cloned::<PublicKey>(target.consensus_public_key, t.consensus_public_key)
    &&& t.network_signing_public_key == g.network_signing_public_key
    &&& t.network_identity_public_key == g.network_identity_public_key
    &&& t.listen_address == g.listen_address
    &&& t.advertised_address == g.advertised_address
    &&& t.seed_peers == g.seed_peers
    &&& t.safety_rules == g.safety_rules
}

/// `keys` are the validator keys of twin `j`, made from the node `g`
/// generated for it and standing for the node `target`: the twin's readable
/// address (first byte 240 + j), a clone of the target's consensus key,
/// voting power 1, and the network keys of `g`.
pub open spec fn twin_keys_of<PublicKey: Clone>(
    keys: ValidatorPublicKeys<PublicKey>,
    g: SwarmNode<PublicKey>,
    target: SwarmNode<PublicKey>,
    j: int,
) -> bool {
    &&& keys.account_address.0@ == twin_address_bytes((240 + j) as u8)
    &&& cloned::<PublicKey>(target.consensus_public_key, keys.consensus_public_key)
    &&& keys.consensus_voting_power == 1
    &&& keys.network_signing_public_key == g.network_signing_public_key
    &&& keys.network_identity_public_key == g.network_identity_public_key
}

/// How a network with twins orders its nodes: the original nodes first,
/// ordered by peer id (nodes of one peer id in creation order), then twin
/// `j` for each `j`, made from `generated_twins[j]` for the original node
/// `targets[j]`.
pub open spec fn twins_node_order<PublicKey: Clone>(
    ordered: Seq<SwarmNode<PublicKey>>,
    originals: Seq<SwarmNode<PublicKey>>,
    generated_twins: Seq<SwarmNode<PublicKey>>,
    targets: Seq<usize>,
) -> bool {
    let count = originals.len() as int;
    let twins = ordered.skip(count);
    &&& ordered.len() == count + targets.len()
    &&& sorted_by_address(ordered.take(count))
    &&& same_per_address(ordered.take(count), originals)
    &&& forall|j: int|
        0 <= j < targets.len() ==> twin_node_of(#[trigger] twins[j], generated_twins[j], originals[targets[j] as int], j)
}

/// Assembles a network with twins. `originals` are the generated nodes in
/// the order they were created (node `i` of `0..count`); the nodes of
/// `0..count` that `target_nodes` names get a twin each, in increasing order
/// (see `index_range_targets`), and `generated_twins[j]` is the node
/// generated for twin `j`. Twin `j` takes the readable address whose first
/// byte is 240 + j, as its peer id and in its validator keys, and the
/// consensus key of the node it stands for; the rest it takes from its
/// generated node. The original nodes come first, ordered by peer id, then
/// the twins in order; every node advertises its listen address, is seeded
/// with the first node of that order, and keeps its safety data on disk in
/// storage marked as its default. The validator set holds the keys of the
/// original nodes ordered by account address (keys of one address in
/// creation order), then the keys of the twins in order.
pub fn assemble_validator_swarm_twins<PublicKey: Clone>(
    originals: Vec<SwarmNode<PublicKey>>,
    generated_twins: Vec<SwarmNode<PublicKey>>,
    target_nodes: &Vec<usize>,
) -> (r: ValidatorSwarm<PublicKey>)
    requires
        originals@.len() > 0,
        index_range_targets(originals@.len() as nat, target_nodes@).len() <= 15,
        generated_twins@.len() == index_range_targets(originals@.len() as nat, target_nodes@).len(),
    ensures
        r.nodes@.len() == originals@.len() + generated_twins@.len(),
        exists|ordered: Seq<SwarmNode<PublicKey>>|
            #[trigger] twins_node_order(
                ordered,
                originals@,
                generated_twins@,
                index_range_targets(originals@.len() as nat, target_nodes@),
            ) && forall|i: int|
                0 <= i < r.nodes@.len() ==> node_with_seed(
                    ordered[i],
                    #[trigger] r.nodes@[i],
                    (ordered[0].peer_id, ordered[0].listen_address@),
                    false,
                ),
        r.validator_set.num_twins() is None,
        r.validator_set.payload().len() == originals@.len() + generated_twins@.len(),
        sorted_by_address(r.validator_set.payload().take(originals@.len() as int)),
        exists|ks: Seq<ValidatorPublicKeys<PublicKey>>|
            #[trigger] keys_of_nodes(originals@, ks) && same_per_address(
                r.validator_set.payload().take(originals@.len() as int),
                ks,
            ),
        forall|j: int|
            0 <= j < generated_twins@.len() ==> twin_keys_of(
                #[trigger] r.validator_set.payload().skip(originals@.len() as int)[j],
                generated_twins@[j],
                originals@[index_range_targets(originals@.len() as nat, target_nodes@)[j] as int],
                j,
            ),
{
    let count = originals.len();
    let ghost targets = index_range_targets(count as nat, target_nodes@);
    let ghost orig = originals@;
    let ghost gen = generated_twins@;
    proof {
        lemma_targets_below(count as nat, target_nodes@);
    }
    let accounts = twin_accounts(count, target_nodes);
    let mut twins: Vec<SwarmNode<PublicKey>> = Vec::new();
    let mut twin_keys: Vec<ValidatorPublicKeys<PublicKey>> = Vec::new();
    let mut input = generated_twins;
    let mut j: usize = 0;
    assert(gen.skip(0) =~= gen);
    assert(gen.len() == input.len());
    while input.len() > 0
        invariant
            j <= gen.len(),
            gen.len() <= usize::MAX,
            input@ == gen.skip(j as int),
            accounts@.len() == targets.len(),
            targets.len() == gen.len(),
            forall|k: int|
                0 <= k < accounts@.len() ==> (#[trigger] accounts@[k]).0 == targets[k]
                    && accounts@[k].1.0@ == twin_address_bytes((240 + k) as u8),
            forall|k: int| 0 <= k < targets.len() ==> #[trigger] targets[k] < count,
            originals@ == orig,
            orig.len() == count,
            twins@.len() == j,
            twin_keys@.len() == j,
            forall|k: int| 0 <= k < j ==> twin_node_of(#[trigger] twins@[k], gen[k], orig[targets[k] as int], k),
            forall|k: int| 0 <= k < j ==> twin_keys_of(#[trigger] twin_keys@[k], gen[k], orig[targets[k] as int], k),
        decreases input@.len(),
    {
        let g = input.remove(0);
        proof {
            assert(g == gen[j as int]);
            assert(targets[j as int] < count);
        }
        let target = accounts[j].0;
        let address = accounts[j].1;
        let keys = ValidatorPublicKeys::new(
            address,
            originals[target].consensus_public_key.clone(),
            1,
            g.network_signing_public_key,
            g.network_identity_public_key,
        );
        let twin = SwarmNode {
            peer_id: address,
            consensus_public_key: originals[target].consensus_public_key.clone(),
            network_signing_public_key: g.network_signing_public_key,
            network_identity_public_key: g.network_identity_public_key,
            listen_address: g.listen_address,
            advertised_address: g.advertised_address,
            seed_peers: g.seed_peers,
            safety_rules: g.safety_rules,
        };
        let ghost old_twins = twins@;
        let ghost old_keys = twin_keys@;
        twins.push(twin);
        twin_keys.push(keys);
        proof {
            assert(forall|k: int| 0 <= k < j ==> twins@[k] == old_twins[k] && twin_keys@[k] == old_keys[k]);
            assert(input@ =~= gen.skip(j + 1));
        }
        j = j + 1;
    }
    let original_keys = keys_of_all(&originals);
    let ghost ks = original_keys@;
    let mut validator_keys = sort_by_account_address(original_keys);
    let ghost sk = validator_keys@;
    let ghost tk = twin_keys@;
    validator_keys.append(&mut twin_keys);
    let mut ordered = sort_by_account_address(originals);
    let ghost so = ordered@;
    let ghost tw = twins@;
    ordered.append(&mut twins);
    let ghost ord = ordered@;
    let nodes = seed_all(ordered, false);
    let validator_set = ValidatorSet::new(validator_keys);
    proof {
        let n0 = count as int;
        assert(ord.take(n0) =~= so);
        assert(ord.skip(n0) =~= tw);
        assert(twins_node_order(ord, orig, gen, targets));
        assert(validator_set.payload().take(n0) =~= sk);
        assert(validator_set.payload().skip(n0) =~= tk);
        assert(keys_of_nodes(orig, ks));
    }
    ValidatorSwarm { nodes, validator_set }
}

} // verus!
