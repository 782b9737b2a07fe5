//! Cutting a list of scenarios down to `n` of them: the first `n`, or `n`
//! drawn at random without or with replacement.

use vstd::prelude::*;
use rand::Rng;
use rand::rngs::ThreadRng;

verus! {

/// The generator of random numbers local to the current thread.
#[verifier::external_type_specification]
#[verifier::external_body]
pub struct ExThreadRng(ThreadRng);

/// Calls `rand::thread_rng`, which hands out the random number generator of
/// the current thread; nothing is claimed of its state.
#[verifier::external_body]
pub(crate) fn thread_rng() -> (rng: ThreadRng) {
    rand::thread_rng()
}

/// Calls `Rng::gen_range(rng, 0, high)` on `usize`, which documents that it
/// returns a value in the range `0..high` and panics when `high` is 0; the
/// value is random, so no more is claimed of it.
#[verifier::external_body]
pub(crate) fn random_below(rng: &mut ThreadRng, high: usize) -> (r: usize)
    requires
        0 < high,
    ensures
        r < high,
{
    rng.gen_range(0, high)
}

/// The positions that the draws pick without replacement: each draw is a
/// rank among the positions that are still left, and the picked position
/// leaves the pool.
pub open spec fn picked_positions(remaining: Seq<usize>, draws: Seq<usize>) -> Seq<usize>
    decreases draws.len(),
{
    if draws.len() == 0 || draws[0] >= remaining.len() {
        Seq::empty()
    } else {
        seq![remaining[draws[0] as int]] + picked_positions(
            remaining.remove(draws[0] as int),
            draws.drop_first(),
        )
    }
}

/// The draws are usable for picking without replacement from `len`
/// positions: draw `i` is below the `len - i` positions left at that point.
pub open spec fn draws_fit(len: nat, draws: Seq<usize>) -> bool {
    &&& draws.len() <= len
    &&& forall|i: int| 0 <= i < draws.len() ==> #[trigger] draws[i] < len - i
}

/// Picks, without replacement, one position of `0..len` per draw: draw `i`
/// selects, by its rank, one of the positions not picked by the draws
/// before it.
pub fn positions_without_replacement(len: usize, draws: &Vec<usize>) -> (r: Vec<usize>)
    requires
        draws_fit(len as nat, draws@),
    ensures
        r@ == picked_positions(Seq::new(len as nat, |i: int| i as usize), draws@),
        r@.len() == draws@.len(),
        r@.no_duplicates(),
        forall|i: int| 0 <= i < r@.len() ==> #[trigger] r@[i] < len,
{
    let mut remaining: Vec<usize> = Vec::new();
    let mut i: usize = 0;
    while i < len
        invariant
            i <= len,
            remaining@ == Seq::new(i as nat, |k: int| k as usize),
        decreases len - i,
    {
        remaining.push(i);
        i = i + 1;
        assert(remaining@ =~= Seq::new(i as nat, |k: int| k as usize));
    }
    let ghost start = remaining@;
    let mut picked: Vec<usize> = Vec::new();
    assert(draws@.skip(0) =~= draws@);
    assert(picked@ + picked_positions(remaining@, draws@.skip(0)) =~= picked_positions(start, draws@));
    let mut j: usize = 0;
    while j < draws.len()
        invariant
            draws_fit(len as nat, draws@),
            j <= draws@.len(),
            picked@.len() == j,
            remaining@.len() == len - j,
            remaining@.no_duplicates(),
            picked@.no_duplicates(),
            forall|a: int| 0 <= a < remaining@.len() ==> #[trigger] remaining@[a] < len,
            forall|a: int| 0 <= a < picked@.len() ==> #[trigger] picked@[a] < len,
            forall|a: int, b: int|
                0 <= a < picked@.len() && 0 <= b < remaining@.len() ==> #[trigger] picked@[a]
                    != #[trigger] remaining@[b],
            picked@ + picked_positions(remaining@, draws@.skip(j as int)) == picked_positions(
                start,
                draws@,
            ),
        decreases draws@.len() - j,
    {
        let d = draws[j];
        let ghost old_remaining = remaining@;
        let ghost old_picked = picked@;
        assert(draws@.skip(j as int)[0] == d);
        assert(draws@.skip(j as int).drop_first() =~= draws@.skip(j + 1));
        let pos = remaining.remove(d);
        picked.push(pos);
        proof {
            assert(remaining@ == old_remaining.remove(d as int));
            assert(old_remaining[d as int] == pos);
            assert(picked_positions(old_remaining, draws@.skip(j as int)) == seq![pos]
                + picked_positions(remaining@, draws@.skip(j + 1)));
            assert(picked@ + picked_positions(remaining@, draws@.skip(j + 1)) =~= old_picked + (
            seq![pos] + picked_positions(remaining@, draws@.skip(j + 1))));
            assert forall|a: int, b: int| 0 <= a < remaining@.len() && 0 <= b < remaining@.len() && a != b implies
                remaining@[a] != remaining@[b] by {
                let a0 = if a < d { a } else { a + 1 };
                let b0 = if b < d { b } else { b + 1 };
                assert(remaining@[a] == old_remaining[a0]);
                assert(remaining@[b] == old_remaining[b0]);
            }
            assert forall|a: int, b: int| 0 <= a < picked@.len() && 0 <= b < picked@.len() && a != b implies
                picked@[a] != picked@[b] by {
                if a < j && b < j {
                    assert(picked@[a] == old_picked[a]);
                    assert(picked@[b] == old_picked[b]);
                } else if a == j {
                    assert(picked@[b] == old_picked[b]);
                    assert(old_picked[b] != old_remaining[d as int]);
                } else {
                    assert(picked@[a] == old_picked[a]);
                    assert(old_picked[a] != old_remaining[d as int]);
                }
            }
            assert forall|a: int, b: int| 0 <= a < picked@.len() && 0 <= b < remaining@.len() implies
                #[trigger] picked@[a] != #[trigger] remaining@[b] by {
                let b0 = if b < d { b } else { b + 1 };
                assert(remaining@[b] == old_remaining[b0]);
                if a < j {
                    assert(picked@[a] == old_picked[a]);
                } else {
                    assert(b0 != d);
                }
            }
            assert forall|a: int| 0 <= a < remaining@.len() implies #[trigger] remaining@[a] < len by {
                let a0 = if a < d { a } else { a + 1 };
                assert(remaining@[a] == old_remaining[a0]);
            }
        }
        j = j + 1;
    }
    proof {
        assert(draws@.skip(draws@.len() as int) =~= Seq::<usize>::empty());
        assert(picked@ =~= picked_positions(start, draws@));
    }
    picked
}

/// The entries of `source` at the given positions, in the order of the
/// positions, each a clone of the entry it stands for.
pub fn entries_at<T: Clone>(source: &Vec<T>, positions: &Vec<usize>) -> (r: Vec<T>)
    requires
        forall|i: int| 0 <= i < positions@.len() ==> #[trigger] positions@[i] < source@.len(),
    ensures
        r@.len() == positions@.len(),
        forall|i: int| 0 <= i < r@.len() ==> cloned::<T>(source@[positions@[i] as int], #[trigger] r@[i]),
{
    let mut r: Vec<T> = Vec::new();
    let mut i: usize = 0;
    while i < positions.len()
        invariant
            i <= positions@.len(),
            r@.len() == i,
            forall|k: int| 0 <= k < positions@.len() ==> #[trigger] positions@[k] < source@.len(),
            forall|k: int| 0 <= k < i ==> cloned::<T>(source@[positions@[k] as int], #[trigger] r@[k]),
        decreases positions@.len() - i,
    {
        let e = source[positions[i]].clone();
        r.push(e);
        i = i + 1;
    }
    r
}

/// `y` is a clone of some entry of `xs`.
pub open spec fn is_clone_of_entry<T: Clone>(xs: Seq<T>, y: T) -> bool {
    exists|p: int| 0 <= p < xs.len() && cloned::<T>(#[trigger] xs[p], y)
}

/// What `filter_n_elements` leaves when it takes the first `n` entries.
pub open spec fn first_n<T>(list: Seq<T>, n: nat) -> Seq<T> {
    if n < list.len() {
        list.take(n as int)
    } else {
        list
    }
}

/// Filters `list` down to `n` entries, chosen by `parameter`:
/// 0 keeps the first `n` (all of them when there are no more than `n`);
/// 1 keeps `n` entries picked at random without repetition, in the order
/// picked (the list is left as it is when it has no more than `n`);
/// 2 keeps `n` entries picked at random with repetition, in the order picked,
/// growing the list when `n` exceeds its length.
pub fn filter_n_elements<T: Clone>(list: &mut Vec<T>, n: usize, parameter: usize)
    requires
        parameter <= 2,
        parameter == 2 ==> old(list)@.len() > 0,
    ensures
        parameter == 0 ==> final(list)@ == first_n(old(list)@, n as nat),
        parameter == 1 && n >= old(list)@.len() ==> final(list)@ == old(list)@,
        parameter == 1 && n < old(list)@.len() ==> exists|positions: Seq<usize>|
            {
                &&& positions.len() == n
                &&& positions.no_duplicates()
                &&& forall|i: int| 0 <= i < n ==> #[trigger] positions[i] < old(list)@.len()
                &&& final(list)@.len() == n
                &&& forall|i: int|
                    0 <= i < n ==> cloned::<T>(old(list)@[positions[i] as int], #[trigger] final(list)@[i])
            },
        parameter == 2 ==> final(list)@.len() == n && forall|i: int|
            0 <= i < n ==> is_clone_of_entry(old(list)@, #[trigger] final(list)@[i]),
{
    if parameter == 0 {
        if n < list.len() {
            list.truncate(n);
        }
    } else if parameter == 1 {
        if n >= list.len() {
            return;
        }
        let len = list.len();
        let mut rng = thread_rng();
        let mut draws: Vec<usize> = Vec::new();
        let mut i: usize = 0;
        while i < n
            invariant
                n < len,
                i <= n,
                draws@.len() == i,
                forall|k: int| 0 <= k < i ==> #[trigger] draws@[k] < len - k,
            decreases n - i,
        {
            let d = random_below(&mut rng, len - i);
            draws.push(d);
            i = i + 1;
        }
        let positions = positions_without_replacement(len, &draws);
        let picked = entries_at(list, &positions);
        *list = picked;
    } else {
        let len = list.len();
        let mut rng = thread_rng();
        let mut positions: Vec<usize> = Vec::new();
        let mut i: usize = 0;
        while i < n
            invariant
                len > 0,
                i <= n,
                positions@.len() == i,
                forall|k: int| 0 <= k < i ==> #[trigger] positions@[k] < len,
            decreases n - i,
        {
            let d = random_below(&mut rng, len);
            positions.push(d);
            i = i + 1;
        }
        let ghost before = list@;
        let picked = entries_at(list, &positions);
        proof {
            assert forall|i: int| 0 <= i < n implies is_clone_of_entry(before, #[trigger] picked@[i]) by {
                assert(cloned::<T>(before[positions@[i] as int], picked@[i]));
            }
        }
        *list = picked;
    }
}

} // verus!
