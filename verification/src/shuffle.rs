use rand::seq::SliceRandom;
use rand::SeedableRng;
use rand_chacha::ChaCha12Rng;
use vstd::prelude::*;

verus! {

/// The order in which a shuffle driven by `seed` leaves `items`.
///
/// The shuffle is the Fisher-Yates pass of `rand` over the positions of the
/// slice, fed by a ChaCha generator of twelve rounds whose key is expanded
/// from `seed`. Generator and pass compute from their arguments alone, and
/// the pass draws its indices as 32-bit numbers wherever the length allows,
/// so that every machine arrives at the same order. Which order that is, is
/// not stated here.
pub uninterp spec fn seeded_shuffle(seed: u64, items: Seq<usize>) -> Seq<usize>;

/// Makes a generator with `ChaCha12Rng::seed_from_u64` (of `rand_chacha`,
/// through `rand::SeedableRng`) and shuffles `items` with
/// `rand::seq::SliceRandom::shuffle`.
///
/// Taken on trust: the outcome is the one that [`seeded_shuffle`] names for
/// this seed and these items, and it holds the same items as before, each as
/// often as before, since the shuffle does nothing but swap two positions of
/// the slice at a time.
#[verifier::external_body]
fn shuffle_with_seed(seed: u64, items: &mut Vec<usize>)
    ensures
        final(items)@ == seeded_shuffle(seed, old(items)@),
        final(items)@.to_multiset() == old(items)@.to_multiset(),
{
    let mut rng = ChaCha12Rng::seed_from_u64(seed);
    items.shuffle(&mut rng);
}

/// `b` holds the items of `a` in some order.
pub open spec fn rearranged(a: Seq<usize>, b: Seq<usize>) -> bool {
    &&& a.len() == b.len()
    &&& forall|x: usize| a.contains(x) <==> b.contains(x)
    &&& a.no_duplicates() <==> b.no_duplicates()
}

/// Two sequences with the same items, each as often, are rearrangements of one
/// another.
pub proof fn lemma_same_items_rearranged(a: Seq<usize>, b: Seq<usize>)
    requires
        a.to_multiset() == b.to_multiset(),
    ensures
        rearranged(a, b),
{
    a.to_multiset_ensures();
    b.to_multiset_ensures();
    assert forall|x: usize| a.contains(x) <==> b.contains(x) by {
        assert(a.contains(x) <==> a.to_multiset().count(x) > 0);
        assert(b.contains(x) <==> b.to_multiset().count(x) > 0);
    }
    if a.no_duplicates() {
        a.lemma_multiset_has_no_duplicates();
        b.lemma_multiset_has_no_duplicates_conv();
    }
    if b.no_duplicates() {
        b.lemma_multiset_has_no_duplicates();
        a.lemma_multiset_has_no_duplicates_conv();
    }
}

/// The positions `0, 1, .., n - 1` in rising order.
pub open spec fn roll_call(n: nat) -> Seq<usize> {
    Seq::new(n, |i: int| i as usize)
}

/// The seed that follows `seed` in a source's stream.
pub open spec fn next_seed(seed: u64) -> u64 {
    if seed == u64::MAX {
        0
    } else {
        (seed + 1) as u64
    }
}

/// A reproducible source of shuffles: every draw is decided by the seed the
/// source holds at that moment, and moves the source on to the next seed.
pub struct ShuffleSource {
    pub seed: u64,
}

impl ShuffleSource {
    /// A source whose first draw is decided by `seed`.
    pub fn new(seed: u64) -> (source: ShuffleSource)
        ensures
            source.seed == seed,
    {
        ShuffleSource { seed }
    }

    /// Shuffles `items` in place.
    pub fn shuffle(&mut self, items: &mut Vec<usize>)
        ensures
            final(items)@ == seeded_shuffle(old(self).seed, old(items)@),
            rearranged(old(items)@, final(items)@),
            final(self).seed == next_seed(old(self).seed),
    {
        shuffle_with_seed(self.seed, items);
        proof {
            lemma_same_items_rearranged(old(items)@, items@);
        }
        self.seed = self.seed.wrapping_add(1);
    }

    /// The positions of a roster of `n` in shuffled order.
    pub fn ordering(&mut self, n: usize) -> (order: Vec<usize>)
        ensures
            order@ == seeded_shuffle(old(self).seed, roll_call(n as nat)),
            rearranged(roll_call(n as nat), order@),
            order@.len() == n,
            order@.no_duplicates(),
            forall|k: int| 0 <= k < n ==> (#[trigger] order@[k]) < n,
            forall|i: usize| i < n ==> order@.contains(i),
            final(self).seed == next_seed(old(self).seed),
    {
        let mut order: Vec<usize> = Vec::new();
        let mut i: usize = 0;
        while i < n
            invariant
                i <= n,
                order@ == roll_call(i as nat),
            decreases n - i,
        {
            order.push(i);
            i += 1;
            assert(order@ =~= roll_call(i as nat));
        }
        let ghost plain = order@;
        self.shuffle(&mut order);
        proof {
            assert forall|x: usize| x < n implies plain.contains(x) by {
                assert(plain[x as int] == x);
            }
            assert forall|k: int| 0 <= k < n implies (#[trigger] order@[k]) < n by {
                assert(order@.contains(order@[k]));
                assert(plain.contains(order@[k]));
            }
        }
        order
    }
}

} // verus!
