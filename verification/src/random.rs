//! Pseudorandom numbers and permutations.
use vstd::prelude::*;

verus! {

/// SplitMix64, used only to pair up the sampled pixels.
///
/// A fixed generator keeps the output reproducible across platforms and
/// releases.
pub struct SplitMix64(pub u64);

impl SplitMix64 {
    /// The state after one step.
    pub open spec fn advanced(state: u64) -> u64 {
        state.wrapping_add(0x9E37_79B9_7F4A_7C15)
    }

    /// The number that belongs to a state.
    pub open spec fn mixed(state: u64) -> u64 {
        let a = (state ^ (state >> 30)).wrapping_mul(0xBF58_476D_1CE4_E5B9);
        let b = (a ^ (a >> 27)).wrapping_mul(0x94D0_49BB_1331_11EB);
        b ^ (b >> 31)
    }

    /// The next number.
    pub fn next(&mut self) -> (r: u64)
        ensures
            final(self).0 == Self::advanced(old(self).0),
            r == Self::mixed(final(self).0),
    {
        self.0 = self.0.wrapping_add(0x9E37_79B9_7F4A_7C15);
        let mut z: u64 = self.0;
        z = (z ^ (z >> 30)).wrapping_mul(0xBF58_476D_1CE4_E5B9);
        z = (z ^ (z >> 27)).wrapping_mul(0x94D0_49BB_1331_11EB);
        z ^ (z >> 31)
    }

    /// The next number, reduced below a bound.
    pub fn below(&mut self, bound: usize) -> (r: usize)
        requires
            bound > 0,
        ensures
            final(self).0 == Self::advanced(old(self).0),
            r == Self::mixed(final(self).0) % bound as u64,
            r < bound,
    {
        (self.next() % bound as u64) as usize
    }

    /// A sequence with two items exchanged.
    pub open spec fn swapped<A>(items: Seq<A>, i: int, j: int) -> Seq<A> {
        items.update(i, items[j]).update(j, items[i])
    }

    /// The sequence after the steps `last, last - 1, ..., 1` of a Fisher-Yates
    /// shuffle: step `i` exchanges item `i` with one of the items up to `i`.
    pub open spec fn shuffled<A>(items: Seq<A>, state: u64, last: int) -> Seq<A>
        decreases last,
    {
        if last < 1 {
            items
        } else {
            let next = Self::advanced(state);
            let pick = Self::mixed(next) as int % (last + 1);
            Self::shuffled(Self::swapped(items, last, pick), next, last - 1)
        }
    }
}

/// Fisher-Yates: puts the items in an order that the seed determines.
pub fn shuffle<A: Copy>(items: &mut Vec<A>, seed: u64)
    ensures
        final(items)@ == SplitMix64::shuffled(old(items)@, seed, old(items)@.len() - 1),
{
    let count = items.len();
    if count == 0 {
        return;
    }
    let mut rng = SplitMix64(seed);
    let mut i: usize = count - 1;
    while i > 0
        invariant
            i < count == items@.len(),
            SplitMix64::shuffled(old(items)@, seed, count - 1) == SplitMix64::shuffled(
                items@,
                rng.0,
                i as int,
            ),
        decreases i,
    {
        let ghost before = items@;
        let ghost state = rng.0;
        let j = rng.below(i + 1);
        let (a, b) = (items[i], items[j]);
        items[i] = b;
        items[j] = a;
        assert(items@ =~= SplitMix64::swapped(before, i as int, j as int));
        i = i - 1;
    }
}

/// Exchanging two items keeps every item as often as it was there.
proof fn lemma_swapped_multiset<A>(items: Seq<A>, i: int, j: int)
    requires
        0 <= i < items.len(),
        0 <= j < items.len(),
    ensures
        SplitMix64::swapped(items, i, j).to_multiset() == items.to_multiset(),
{
    broadcast use vstd::seq_lib::group_to_multiset_ensures;

    let once = items.update(i, items[j]);
    assert(once.to_multiset() =~= items.to_multiset().insert(items[j]).remove(items[i]));
    assert(once.update(j, items[i]).to_multiset() =~= once.to_multiset().insert(items[i]).remove(
        once[j],
    ));
    assert(items.to_multiset().count(items[i]) > 0) by {
        assert(items.contains(items[i]));
    }
    assert(SplitMix64::swapped(items, i, j).to_multiset() =~= items.to_multiset());
}

/// A shuffle keeps the number of items and how often each occurs, whatever the
/// seed.
pub proof fn law_shuffle_is_a_permutation<A>(items: Seq<A>, seed: u64, last: int)
    requires
        last < items.len(),
    ensures
        SplitMix64::shuffled(items, seed, last).len() == items.len(),
        SplitMix64::shuffled(items, seed, last).to_multiset() == items.to_multiset(),
    decreases last,
{
    if last >= 1 {
        let next = SplitMix64::advanced(seed);
        let pick = SplitMix64::mixed(next) as int % (last + 1);
        lemma_swapped_multiset(items, last, pick);
        law_shuffle_is_a_permutation(SplitMix64::swapped(items, last, pick), next, last - 1);
    }
}

/// Every item of a shuffled sequence was there before.
pub proof fn lemma_shuffled_items<A>(items: Seq<A>, seed: u64, last: int)
    requires
        last < items.len(),
    ensures
        SplitMix64::shuffled(items, seed, last).len() == items.len(),
        forall|k: int|
            0 <= k < items.len() ==> items.contains(
                #[trigger] SplitMix64::shuffled(items, seed, last)[k],
            ),
    decreases last,
{
    if last >= 1 {
        let next = SplitMix64::advanced(seed);
        let pick = SplitMix64::mixed(next) as int % (last + 1);
        let swapped = SplitMix64::swapped(items, last, pick);
        lemma_shuffled_items(swapped, next, last - 1);
        assert forall|k: int| 0 <= k < items.len() implies items.contains(
            #[trigger] SplitMix64::shuffled(items, seed, last)[k],
        ) by {
            let item = SplitMix64::shuffled(swapped, next, last - 1)[k];
            let at = choose|at: int| 0 <= at < swapped.len() && swapped[at] == item;
            assert(swapped[at] == if at == pick {
                items[last]
            } else if at == last {
                items[pick]
            } else {
                items[at]
            });
        }
    } else {
        assert(forall|k: int| 0 <= k < items.len() ==> items.contains(#[trigger] items[k]));
    }
}

/// A shuffle draws one item after the other: the last place gets the item that the
/// first number of the generator picks among all of them, the places before it
/// are a shuffle of the rest that goes on with the generator, and the places after
/// the last are left alone.
pub proof fn law_a_shuffle_draws_item_by_item<A>(items: Seq<A>, seed: u64, last: int)
    requires
        1 <= last < items.len(),
    ensures
        ({
            let next = SplitMix64::advanced(seed);
            let pick = SplitMix64::mixed(next) as int % (last + 1);
            let result = SplitMix64::shuffled(items, seed, last);
            let rest = items.update(pick, items[last]).take(last);
            &&& 0 <= pick <= last
            &&& result.len() == items.len()
            &&& result[last] == items[pick]
            &&& forall|k: int| last < k < items.len() ==> #[trigger] result[k] == items[k]
            &&& result.take(last) == SplitMix64::shuffled(rest, next, last - 1)
        }),
{
    let next = SplitMix64::advanced(seed);
    let pick = SplitMix64::mixed(next) as int % (last + 1);
    let swapped = SplitMix64::swapped(items, last, pick);
    lemma_beyond_the_last(swapped, next, last - 1);
    lemma_prefix(swapped, next, last - 1, last);
    assert(swapped.take(last) =~= items.update(pick, items[last]).take(last));
}

/// A shuffle leaves the places after the last alone.
proof fn lemma_beyond_the_last<A>(items: Seq<A>, seed: u64, last: int)
    requires
        last < items.len(),
    ensures
        SplitMix64::shuffled(items, seed, last).len() == items.len(),
        forall|k: int|
            0 <= k && last < k < items.len() ==> #[trigger] SplitMix64::shuffled(
                items,
                seed,
                last,
            )[k] == items[k],
    decreases last,
{
    if last >= 1 {
        let next = SplitMix64::advanced(seed);
        let pick = SplitMix64::mixed(next) as int % (last + 1);
        lemma_beyond_the_last(SplitMix64::swapped(items, last, pick), next, last - 1);
    }
}

/// A shuffle of the first places is a shuffle of their items.
proof fn lemma_prefix<A>(items: Seq<A>, seed: u64, last: int, count: int)
    requires
        last < count <= items.len(),
        0 <= count,
    ensures
        SplitMix64::shuffled(items, seed, last).take(count) == SplitMix64::shuffled(
            items.take(count),
            seed,
            last,
        ),
    decreases last,
{
    if last >= 1 {
        let next = SplitMix64::advanced(seed);
        let pick = SplitMix64::mixed(next) as int % (last + 1);
        let swapped = SplitMix64::swapped(items, last, pick);
        lemma_prefix(swapped, next, last - 1, count);
        assert(swapped.take(count) =~= SplitMix64::swapped(items.take(count), last, pick));
    }
}

} // verus!
