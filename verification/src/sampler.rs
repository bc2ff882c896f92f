//! Drawing a sample: a seeded shuffle of the positions, then a prefix of it.

use vstd::prelude::*;
use crate::record::Individual;

verus! {

/// The order in which the shuffle of the `rand` crate, run on a generator
/// that was seeded with `seed`, leaves `items`. The generator is that of the
/// version of the crate that the library is built with: another version may
/// give another order.
pub uninterp spec fn shuffled(seed: u64, items: Seq<usize>) -> Seq<usize>;

/// Seeds a `rand::rngs::StdRng` with `SeedableRng::seed_from_u64` and runs
/// `SliceRandom::shuffle` of the `rand` crate on the items. The contract names
/// the order that comes out, which the seed and the items decide, and claims
/// what the source of the shuffle shows: it only swaps items, so the items
/// after it are those before it, each as often. Nothing of this is proved here.
#[verifier::external_body]
fn shuffle_seeded(items: &mut Vec<usize>, seed: u64)
    ensures
        final(items)@ == shuffled(seed, old(items)@),
        final(items)@.to_multiset() == old(items)@.to_multiset(),
{
    let mut generator = <rand::rngs::StdRng as rand::SeedableRng>::seed_from_u64(seed);
    rand::seq::SliceRandom::shuffle(items.as_mut_slice(), &mut generator);
}

/// The positions `0, 1, ..` below `n`, in rising order.
pub open spec fn positions(n: nat) -> Seq<usize> {
    Seq::new(n, |i: int| i as usize)
}

/// How many items a draw of `k` from `n` gives: `k`, or all of them where
/// there are fewer.
pub open spec fn drawn_len(n: nat, k: nat) -> nat {
    if k <= n {
        k
    } else {
        n
    }
}

/// The positions that a draw of `k` from `n` items takes under `seed`: the
/// first of the shuffled positions.
pub open spec fn drawn_positions(seed: u64, n: nat, k: nat) -> Seq<usize> {
    shuffled(seed, positions(n)).take(drawn_len(n, k) as int)
}

/// Whether `picks` are positions below `n` of which none occurs twice.
pub open spec fn distinct_positions(picks: Seq<usize>, n: nat) -> bool {
    &&& picks.no_duplicates()
    &&& forall|i: int| 0 <= i < picks.len() ==> (#[trigger] picks[i]) < n
}

/// A rearrangement of the positions below `n` holds each of them once.
proof fn lemma_rearranged_positions(order: Seq<usize>, n: usize)
    requires
        order.to_multiset() == positions(n as nat).to_multiset(),
    ensures
        order.len() == n,
        distinct_positions(order, n as nat),
{
    broadcast use vstd::seq_lib::group_to_multiset_ensures;

    let base = positions(n as nat);
    assert(base.no_duplicates());
    base.lemma_multiset_has_no_duplicates();
    order.lemma_multiset_has_no_duplicates_conv();
    assert(order.len() == order.to_multiset().len());
    assert(base.len() == base.to_multiset().len());
    assert forall|i: int| 0 <= i < order.len() implies (#[trigger] order[i]) < n by {
        assert(order.contains(order[i]));
        assert(order.to_multiset().count(order[i]) > 0);
        assert(base.contains(order[i]));
        let j = choose|j: int| 0 <= j < base.len() && base[j] == order[i];
        assert(base[j] == j as usize);
    }
}

/// Draws `k` of the positions below `n`, or all of them where `k` is more
/// than `n`: the positions are shuffled under `seed` and the first are taken,
/// in the order that the shuffle left them in. No position is drawn twice.
pub fn sample_indices(n: usize, k: usize, seed: u64) -> (picks: Vec<usize>)
    ensures
        picks@ == drawn_positions(seed, n as nat, k as nat),
        picks@.len() == drawn_len(n as nat, k as nat),
        distinct_positions(picks@, n as nat),
{
    let mut order: Vec<usize> = Vec::new();
    let mut i: usize = 0;
    while i < n
        invariant
            i <= n,
            order@ == positions(i as nat),
        decreases n - i,
    {
        order.push(i);
        assert(order@ =~= positions((i + 1) as nat));
        i += 1;
    }
    shuffle_seeded(&mut order, seed);
    proof {
        lemma_rearranged_positions(order@, n);
    }
    order.truncate(k);
    assert(order@ =~= drawn_positions(seed, n as nat, k as nat));
    order
}

/// The records at the drawn positions, in the order of the draw.
pub open spec fn drawn_records(records: Seq<Individual>, seed: u64, k: nat) -> Seq<Individual> {
    drawn_positions(seed, records.len(), k).map_values(|p: usize| records[p as int])
}

/// Draws a sample of `k` records without replacement, or the whole set where
/// `k` is more than it holds. The sample is in the order of the shuffle, not
/// in that of the records, and holds no record of the set twice: its items
/// stand at positions of the set that differ one from another.
pub fn sample(records: &Vec<Individual>, k: usize, seed: u64) -> (drawn: Vec<Individual>)
    ensures
        drawn@ == drawn_records(records@, seed, k as nat),
        drawn@.len() == drawn_len(records@.len(), k as nat),
        distinct_positions(drawn_positions(seed, records@.len(), k as nat), records@.len()),
        forall|i: int|
            0 <= i < drawn@.len() ==> (#[trigger] drawn@[i]) == records@[drawn_positions(
                seed,
                records@.len(),
                k as nat,
            )[i] as int],
{
    let picks = sample_indices(records.len(), k, seed);
    let mut drawn: Vec<Individual> = Vec::new();
    let mut i: usize = 0;
    while i < picks.len()
        invariant
            i <= picks.len(),
            distinct_positions(picks@, records@.len()),
            drawn@.len() == i,
            forall|j: int| 0 <= j < i ==> (#[trigger] drawn@[j]) == records@[picks@[j] as int],
        decreases picks.len() - i,
    {
        let p: usize = picks[i];
        drawn.push(records[p].clone());
        i += 1;
    }
    assert(drawn@ =~= drawn_records(records@, seed, k as nat));
    drawn
}

/// A draw is decided by the records, the size asked for and the seed: two
/// samples drawn from the same records under the same seed are the same.
pub proof fn lemma_same_seed_same_sample(
    records: Seq<Individual>,
    k: nat,
    seed: u64,
    first: Seq<Individual>,
    second: Seq<Individual>,
)
    requires
        first == drawn_records(records, seed, k),
        second == drawn_records(records, seed, k),
    ensures
        first == second,
        first.len() == second.len(),
        forall|i: int| 0 <= i < first.len() ==> first[i]@ == second[i]@,
{
}

} // verus!
