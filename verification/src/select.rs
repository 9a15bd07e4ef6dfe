use vstd::prelude::*;

verus! {

/// The index a minimizing scan over `sample` settles on: the sampled index
/// whose key is smallest, and the lowest such index when several sampled
/// indices tie.
pub open spec fn pick_min(keys: Seq<usize>, sample: Seq<usize>) -> usize
    recommends
        sample.len() > 0,
    decreases sample.len(),
{
    if sample.len() <= 1 {
        sample[0]
    } else {
        let prev = pick_min(keys, sample.drop_last());
        let cand = sample.last();
        if keys[cand as int] < keys[prev as int] || (keys[cand as int] == keys[prev as int]
            && cand < prev) {
            cand
        } else {
            prev
        }
    }
}

/// The index a maximizing scan over `sample` settles on: the sampled index
/// whose key is largest, and the lowest such index when several sampled
/// indices tie.
pub open spec fn pick_max(keys: Seq<usize>, sample: Seq<usize>) -> usize
    recommends
        sample.len() > 0,
    decreases sample.len(),
{
    if sample.len() <= 1 {
        sample[0]
    } else {
        let prev = pick_max(keys, sample.drop_last());
        let cand = sample.last();
        if keys[cand as int] > keys[prev as int] || (keys[cand as int] == keys[prev as int]
            && cand < prev) {
            cand
        } else {
            prev
        }
    }
}

/// `pick_min` returns a sampled index, its key is minimal among the sampled
/// keys, and among sampled indices with that key it is the lowest.
pub proof fn lemma_pick_min_properties(keys: Seq<usize>, sample: Seq<usize>)
    requires
        sample.len() > 0,
    ensures
        sample.contains(pick_min(keys, sample)),
        forall|k: int|
            0 <= k < sample.len() ==> keys[pick_min(keys, sample) as int]
                <= keys[#[trigger] sample[k] as int],
        forall|k: int|
            0 <= k < sample.len() && keys[#[trigger] sample[k] as int] == keys[pick_min(
                keys,
                sample,
            ) as int] ==> pick_min(keys, sample) <= sample[k],
    decreases sample.len(),
{
    if sample.len() <= 1 {
        assert(sample[0] == sample.last());
    } else {
        lemma_pick_min_properties(keys, sample.drop_last());
        assert forall|k: int| 0 <= k < sample.len() - 1 implies sample.drop_last()[k]
            == sample[k] by {}
        assert(sample.contains(sample.last()));
        if sample.drop_last().contains(pick_min(keys, sample.drop_last())) {
            let w = choose|w: int|
                0 <= w < sample.drop_last().len() && sample.drop_last()[w] == pick_min(
                    keys,
                    sample.drop_last(),
                );
            assert(sample[w] == pick_min(keys, sample.drop_last()));
        }
    }
}

/// `pick_max` returns a sampled index, its key is maximal among the sampled
/// keys, and among sampled indices with that key it is the lowest.
pub proof fn lemma_pick_max_properties(keys: Seq<usize>, sample: Seq<usize>)
    requires
        sample.len() > 0,
    ensures
        sample.contains(pick_max(keys, sample)),
        forall|k: int|
            0 <= k < sample.len() ==> keys[pick_max(keys, sample) as int]
                >= keys[#[trigger] sample[k] as int],
        forall|k: int|
            0 <= k < sample.len() && keys[#[trigger] sample[k] as int] == keys[pick_max(
                keys,
                sample,
            ) as int] ==> pick_max(keys, sample) <= sample[k],
    decreases sample.len(),
{
    if sample.len() <= 1 {
        assert(sample[0] == sample.last());
    } else {
        lemma_pick_max_properties(keys, sample.drop_last());
        assert forall|k: int| 0 <= k < sample.len() - 1 implies sample.drop_last()[k]
            == sample[k] by {}
        assert(sample.contains(sample.last()));
        if sample.drop_last().contains(pick_max(keys, sample.drop_last())) {
            let w = choose|w: int|
                0 <= w < sample.drop_last().len() && sample.drop_last()[w] == pick_max(
                    keys,
                    sample.drop_last(),
                );
            assert(sample[w] == pick_max(keys, sample.drop_last()));
        }
    }
}

/// Scans the sampled indices and returns the one with the smallest key,
/// preferring the lowest index on ties.
pub fn argmin(keys: &Vec<usize>, sample: &Vec<usize>) -> (r: usize)
    requires
        sample@.len() > 0,
        forall|k: int| 0 <= k < sample@.len() ==> #[trigger] sample@[k] < keys@.len(),
    ensures
        r == pick_min(keys@, sample@),
        r < keys@.len(),
        sample@.contains(r),
        forall|k: int| 0 <= k < sample@.len() ==> keys@[r as int] <= keys@[#[trigger] sample@[k] as int],
        forall|k: int|
            0 <= k < sample@.len() && keys@[#[trigger] sample@[k] as int] == keys@[r as int] ==> r
                <= sample@[k],
{
    proof {
        lemma_pick_min_properties(keys@, sample@);
    }
    let mut best: usize = sample[0];
    let mut t: usize = 1;
    proof {
        assert(sample@.take(1) =~= seq![sample@[0]]);
    }
    while t < sample.len()
        invariant
            1 <= t <= sample@.len(),
            forall|k: int| 0 <= k < sample@.len() ==> #[trigger] sample@[k] < keys@.len(),
            best == pick_min(keys@, sample@.take(t as int)),
            best < keys@.len(),
        decreases sample@.len() - t,
    {
        let cand = sample[t];
        proof {
            let full = sample@.take(t as int + 1);
            assert(full.drop_last() =~= sample@.take(t as int));
            assert(full.last() == sample@[t as int]);
        }
        if keys[cand] < keys[best] || (keys[cand] == keys[best] && cand < best) {
            best = cand;
        }
        t = t + 1;
    }
    proof {
        assert(sample@.take(sample@.len() as int) =~= sample@);
    }
    best
}

/// Scans the sampled indices and returns the one with the largest key,
/// preferring the lowest index on ties.
pub fn argmax(keys: &Vec<usize>, sample: &Vec<usize>) -> (r: usize)
    requires
        sample@.len() > 0,
        forall|k: int| 0 <= k < sample@.len() ==> #[trigger] sample@[k] < keys@.len(),
    ensures
        r == pick_max(keys@, sample@),
        r < keys@.len(),
        sample@.contains(r),
        forall|k: int| 0 <= k < sample@.len() ==> keys@[r as int] >= keys@[#[trigger] sample@[k] as int],
        forall|k: int|
            0 <= k < sample@.len() && keys@[#[trigger] sample@[k] as int] == keys@[r as int] ==> r
                <= sample@[k],
{
    proof {
        lemma_pick_max_properties(keys@, sample@);
    }
    let mut best: usize = sample[0];
    let mut t: usize = 1;
    proof {
        assert(sample@.take(1) =~= seq![sample@[0]]);
    }
    while t < sample.len()
        invariant
            1 <= t <= sample@.len(),
            forall|k: int| 0 <= k < sample@.len() ==> #[trigger] sample@[k] < keys@.len(),
            best == pick_max(keys@, sample@.take(t as int)),
            best < keys@.len(),
        decreases sample@.len() - t,
    {
        let cand = sample[t];
        proof {
            let full = sample@.take(t as int + 1);
            assert(full.drop_last() =~= sample@.take(t as int));
            assert(full.last() == sample@[t as int]);
        }
        if keys[cand] > keys[best] || (keys[cand] == keys[best] && cand < best) {
            best = cand;
        }
        t = t + 1;
    }
    proof {
        assert(sample@.take(sample@.len() as int) =~= sample@);
    }
    best
}

} // verus!
