use rand::rngs::StdRng;
use rand::seq::SliceRandom;
use rand::SeedableRng;
use vstd::prelude::*;

verus! {

/// The share of a corpus that is set aside for evaluation: `parts` out of `whole`.
#[derive(Clone, Copy)]
pub struct Share {
    pub parts: u64,
    pub whole: u64,
}

impl Share {
    /// A share lies between nothing and everything.
    pub open spec fn valid(&self) -> bool {
        self.whole > 0 && self.parts <= self.whole
    }
}

/// Whether `k` is the number of items that go to evaluation out of `n`: the least
/// number whose ratio to `n` reaches the share.
pub open spec fn is_test_count(k: nat, n: nat, share: Share) -> bool {
    &&& k * share.whole >= n * share.parts
    &&& k > 0 ==> (k - 1) * share.whole < n * share.parts
}

/// Calls `rand::seq::SliceRandom::shuffle` on the items, with a `rand::rngs::StdRng`
/// that `rand::SeedableRng::seed_from_u64` makes from `seed`. The shuffle only swaps
/// items, so the same items come back, each as often as before; nothing is claimed
/// of their order.
#[verifier::external_body]
fn shuffle<T>(items: &mut Vec<T>, seed: u64)
    ensures
        final(items)@.to_multiset() == old(items)@.to_multiset(),
{
    items.shuffle(&mut StdRng::seed_from_u64(seed));
}

/// Moves items from the tail of `items` to the evaluation set, one at a time, until
/// the share is reached.
pub fn split_tail<T>(items: Vec<T>, share: Share) -> (parts: (Vec<T>, Vec<T>))
    requires
        share.valid(),
    ensures
        is_test_count(parts.1.len() as nat, items.len() as nat, share),
        parts.0.len() + parts.1.len() == items.len(),
        parts.0@ == items@.take(parts.0.len() as int),
        parts.1@ == items@.skip(parts.0.len() as int).reverse(),
{
    let mut train = items;
    let mut test: Vec<T> = Vec::new();
    let n = train.len();
    proof {
        assert(items@.take(n as int) =~= items@);
        assert(items@.skip(n as int).reverse() =~= Seq::<T>::empty());
        assert(0 <= n * share.parts <= n * share.whole) by (nonlinear_arith)
            requires
                0 <= share.parts <= share.whole,
                0 <= n,
        ;
        assert(n * share.whole <= 0xffff_ffff_ffff_ffff * 0xffff_ffff_ffff_ffff)
            by (nonlinear_arith)
            requires
                0 <= n <= 0xffff_ffff_ffff_ffff,
                0 <= share.whole <= 0xffff_ffff_ffff_ffff,
        ;
        assert(0 * share.whole == 0);
    }
    let goal: u128 = (n as u128) * (share.parts as u128);
    let whole: u128 = share.whole as u128;
    let mut moved: usize = 0;
    while (moved as u128) * whole < goal
        invariant
            share.valid(),
            n == items.len(),
            whole == share.whole,
            goal == n * share.parts,
            goal <= n * share.whole,
            n * share.whole <= 0xffff_ffff_ffff_ffff * 0xffff_ffff_ffff_ffff,
            moved <= n,
            0 <= moved * share.whole <= n * share.whole,
            moved == test.len(),
            train.len() + moved == n,
            moved > 0 ==> (moved - 1) * share.whole < n * share.parts,
            train@ == items@.take(train.len() as int),
            test@ == items@.skip(train.len() as int).reverse(),
        decreases n - moved,
    {
        proof {
            if moved == n {
                assert(moved * whole == n * share.whole);
            }
            assert(moved < n);
        }
        let ghost kept = train@;
        let ghost tail = items@.skip(train.len() as int);
        match train.pop() {
            Some(item) => {
                test.push(item);
                proof {
                    let rest = items@.skip(train.len() as int);
                    assert(train@ =~= items@.take(train.len() as int));
                    assert(rest =~= seq![item] + tail);
                    assert(rest.reverse() =~= tail.reverse().push(item));
                }
            },
            None => {},
        }
        moved = moved + 1;
        proof {
            assert(0 <= moved * share.whole <= n * share.whole) by (nonlinear_arith)
                requires
                    0 <= moved <= n,
                    0 <= share.whole,
            ;
        }
    }
    (train, test)
}

/// Divides a corpus into a training set and an evaluation set: shuffles it by `seed`,
/// then moves items from the tail to the evaluation set until the share is reached.
/// A share of nothing moves no item, a share of everything moves them all.
pub fn divide<T>(docs: Vec<T>, share: Share, seed: u64) -> (parts: (Vec<T>, Vec<T>))
    requires
        share.valid(),
    ensures
        parts.0@.to_multiset().add(parts.1@.to_multiset()) == docs@.to_multiset(),
        parts.0.len() + parts.1.len() == docs.len(),
        is_test_count(parts.1.len() as nat, docs.len() as nat, share),
        share.parts == 0 ==> parts.1.len() == 0,
        share.parts == share.whole ==> parts.0.len() == 0,
{
    let mut items = docs;
    shuffle(&mut items, seed);
    let ghost shuffled = items@;
    let parts = split_tail(items, share);
    proof {
        let n = shuffled.len();
        let k = parts.1.len();
        let cut = parts.0.len() as int;
        shuffled.to_multiset_ensures();
        docs@.to_multiset_ensures();
        assert(n == docs.len());
        vstd::seq_lib::lemma_multiset_commutative(shuffled.take(cut), shuffled.skip(cut));
        assert(shuffled.take(cut) + shuffled.skip(cut) =~= shuffled);
        shuffled.skip(cut).lemma_reverse_to_multiset();
        if share.parts == 0 && k > 0 {
            assert((k - 1) * share.whole >= 0) by (nonlinear_arith)
                requires
                    k >= 1,
                    share.whole > 0,
            ;
            assert(n * share.parts == 0) by (nonlinear_arith)
                requires
                    share.parts == 0,
            ;
        }
        if share.parts == share.whole && k < n {
            assert(k * share.whole < n * share.whole) by (nonlinear_arith)
                requires
                    k < n,
                    share.whole > 0,
            ;
        }
    }
    parts
}

} // verus!
