use rand::rngs::StdRng;
use vstd::prelude::*;
use vstd::set_lib::{lemma_int_range, lemma_len_subset, set_int_range};

use crate::rng::{choose_distinct, gen_below};

verus! {

/// A sequence of pairwise distinct values of length `n` whose values all lie
/// below `n` must mention every value below `n`.
proof fn lemma_full_sample_covers(s: Seq<usize>, n: usize)
    requires
        s.len() == n,
        forall|k: int| 0 <= k < s.len() ==> #[trigger] s[k] < n,
        forall|i: int, j: int| 0 <= i < j < s.len() ==> s[i] != s[j],
    ensures
        forall|v: usize| v < n ==> s.contains(v),
{
    broadcast use vstd::set::group_set_axioms;

    let vals = s.map_values(|x: usize| x as int);
    assert(vals.no_duplicates()) by {
        assert forall|i: int, j: int|
            0 <= i < vals.len() && 0 <= j < vals.len() && i != j implies vals[i] != vals[j] by {
            if i < j {
                assert(s[i] != s[j]);
            } else {
                assert(s[j] != s[i]);
            }
        }
    }
    vals.unique_seq_to_set();
    assert forall|v: usize| v < n implies s.contains(v) by {
        if !s.contains(v) {
            lemma_int_range(0, n as int);
            let restricted = set_int_range(0, n as int).remove(v as int);
            assert(vals.to_set().subset_of(restricted)) by {
                assert forall|x: int| vals.to_set().contains(x) implies restricted.contains(
                    x,
                ) by {
                    let i = choose|i: int| 0 <= i < vals.len() && vals[i] == x;
                    assert(s[i] < n);
                    assert(s[i] != v);
                }
            }
            lemma_len_subset(vals.to_set(), restricted);
            assert(false);
        }
    }
}

/// Draws `d` shard indices out of `n_shards` for one queue operation.
///
/// With `uniques` the draw is a subset without replacement: the returned
/// indices are pairwise distinct, and when `d == n_shards` they cover every
/// shard. Without `uniques` the indices are `d` independent draws with
/// replacement, so repeats are allowed. Which indices come back is up to the
/// generator; only the stated shape is promised.
pub fn sample(rng: &mut StdRng, n_shards: usize, d: usize, uniques: bool) -> (r: Vec<usize>)
    requires
        1 <= d,
        d <= n_shards,
    ensures
        r@.len() == d,
        forall|k: int| 0 <= k < r@.len() ==> #[trigger] r@[k] < n_shards,
        uniques ==> forall|i: int, j: int| 0 <= i < j < r@.len() ==> r@[i] != r@[j],
        uniques && d == n_shards ==> forall|v: usize| v < n_shards ==> r@.contains(v),
{
    if uniques {
        let mut pool: Vec<usize> = Vec::new();
        let mut i: usize = 0;
        while i < n_shards
            invariant
                i <= n_shards,
                pool@.len() == i,
                forall|k: int| 0 <= k < pool@.len() ==> pool@[k] == k,
            decreases n_shards - i,
        {
            pool.push(i);
            i = i + 1;
        }
        let picks = choose_distinct(rng, &pool, d);
        proof {
            assert forall|k: int| 0 <= k < picks@.len() implies #[trigger] picks@[k]
                < n_shards by {
                assert(pool@.contains(picks@[k]));
                let m = choose|m: int| 0 <= m < pool@.len() && pool@[m] == picks@[k];
                assert(pool@[m] == m);
            }
            if d == n_shards {
                lemma_full_sample_covers(picks@, n_shards);
            }
        }
        picks
    } else {
        let mut r: Vec<usize> = Vec::new();
        let mut k: usize = 0;
        while k < d
            invariant
                k <= d,
                n_shards >= 1,
                r@.len() == k,
                forall|m: int| 0 <= m < r@.len() ==> #[trigger] r@[m] < n_shards,
            decreases d - k,
        {
            let ind = gen_below(rng, n_shards);
            r.push(ind);
            k = k + 1;
        }
        r
    }
}

} // verus!
