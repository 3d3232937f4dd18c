//! What the caches share: dropping entries, and counters that never wrap.
use vstd::prelude::*;

verus! {

/// The elements whose flag is set.
pub open spec fn kept<T>(all: Seq<T>, keep: Seq<bool>) -> Seq<T>
    decreases all.len(),
{
    if all.len() == 0 {
        all
    } else {
        let front = kept(all.drop_last(), keep);
        if keep[all.len() - 1] {
            front.push(all.last())
        } else {
            front
        }
    }
}

/// A counter after `count` more events. It stays at its largest value.
pub open spec fn counted(counter: u64, count: int) -> u64 {
    if counter + count > u64::MAX {
        u64::MAX
    } else {
        (counter + count) as u64
    }
}

/// Adds to a counter.
pub fn count_up(counter: u64, count: usize) -> (r: u64)
    ensures
        r == counted(counter, count as int),
{
    counter.saturating_add(count as u64)
}

/// Whether `x` is an element whose flag is set.
pub open spec fn to_keep<T>(all: Seq<T>, keep: Seq<bool>, x: T) -> bool {
    exists|k: int| 0 <= k < all.len() && keep[k] && #[trigger] all[k] == x
}

/// What is kept was there, and was to be kept.
pub proof fn lemma_kept<T>(all: Seq<T>, keep: Seq<bool>)
    requires
        all.len() <= keep.len(),
    ensures
        kept(all, keep).len() <= all.len(),
        forall|i: int|
            0 <= i < kept(all, keep).len() ==> to_keep(all, keep, #[trigger] kept(all, keep)[i]),
        forall|k: int|
            0 <= k < all.len() && keep[k] ==> kept(all, keep).contains(#[trigger] all[k]),
    decreases all.len(),
{
    if all.len() > 0 {
        let front = all.drop_last();
        lemma_kept(front, keep);
        let out = kept(all, keep);
        let inner = kept(front, keep);
        assert forall|i: int| 0 <= i < out.len() implies to_keep(all, keep, #[trigger] out[i]) by {
            if i < inner.len() {
                assert(out[i] == inner[i]);
                let k = choose|k: int|
                    0 <= k < front.len() && keep[k] && #[trigger] front[k] == inner[i];
                assert(all[k] == out[i]);
            } else {
                assert(all[all.len() - 1] == out[i]);
            }
        }
        assert forall|k: int| 0 <= k < all.len() && keep[k] implies out.contains(
            #[trigger] all[k],
        ) by {
            if k < front.len() {
                assert(inner.contains(front[k]));
                let i = inner.index_of(front[k]);
                assert(out[i] == all[k]);
            } else {
                assert(out[out.len() - 1] == all[k]);
            }
        }
    }
}

/// Drops the elements whose flag is not set, and says how many those were.
pub fn retain<T>(entries: &mut Vec<T>, keep: &Vec<bool>) -> (r: usize)
    requires
        keep@.len() == old(entries)@.len(),
    ensures
        final(entries)@ == kept(old(entries)@, keep@),
        r == old(entries)@.len() - final(entries)@.len(),
{
    let ghost all = entries@;
    let count = entries.len();
    let mut place: usize = 0;
    let mut i: usize = 0;
    assert(all.take(0) =~= Seq::empty());
    assert(all.skip(0) =~= all);
    assert(kept(all.take(0), keep@) + all.skip(0) =~= all);
    while i < count
        invariant
            i <= count == all.len(),
            keep@.len() == all.len(),
            all == old(entries)@,
            place == kept(all.take(i as int), keep@).len(),
            place <= i,
            entries@ == kept(all.take(i as int), keep@) + all.skip(i as int),
        decreases count - i,
    {
        proof {
            let now = all.take(i + 1);
            assert(now.drop_last() =~= all.take(i as int));
            assert(now.last() == all[i as int]);
            assert(all.skip(i as int) =~= seq![all[i as int]] + all.skip(i + 1));
        }
        let ghost before = entries@;
        if keep[i] {
            place += 1;
            assert(entries@ =~= kept(all.take(i + 1), keep@) + all.skip(i + 1));
        } else {
            entries.remove(place);
            assert(entries@ =~= kept(all.take(i + 1), keep@) + all.skip(i + 1));
        }
        i += 1;
    }
    proof {
        assert(all.take(all.len() as int) =~= all);
        assert(entries@ =~= kept(all, keep@));
    }
    count - place
}

} // verus!
