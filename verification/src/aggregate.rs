use vstd::prelude::*;

use crate::relaxation_simulation::ErrorTag;

verus! {

pub open spec fn sorted_usizes(s: Seq<usize>) -> bool {
    forall|i: int, j: int| 0 <= i < j < s.len() ==> s[i] <= s[j]
}

pub open spec fn sorted_i64s(s: Seq<i64>) -> bool {
    forall|i: int, j: int| 0 <= i < j < s.len() ==> s[i] <= s[j]
}

/// The rank error of every record, in record order.
pub open spec fn rank_errors_of(tags: Seq<ErrorTag>) -> Seq<usize> {
    tags.map_values(|t: ErrorTag| t.spec_rank_error())
}

/// For each successful dequeue, in record order, the difference between the
/// dequeued item's enqueue number and the dequeue number that served it.
pub open spec fn diffs_of(tags: Seq<ErrorTag>) -> Seq<i64>
    decreases tags.len(),
{
    if tags.len() == 0 {
        Seq::empty()
    } else {
        diffs_of(tags.drop_last()) + match tags.last() {
            ErrorTag::ItemDequeue { enq_nbr, deq_nbr, .. } => seq![
                (enq_nbr - deq_nbr) as i64,
            ],
            ErrorTag::EmptyDequeue { .. } => Seq::empty(),
        }
    }
}

proof fn lemma_to_multiset_insert_usize(s: Seq<usize>, i: int, x: usize)
    requires
        0 <= i <= s.len(),
    ensures
        s.insert(i, x).to_multiset() == s.to_multiset().insert(x),
{
    broadcast use vstd::seq_lib::group_to_multiset_ensures;
    broadcast use vstd::multiset::group_multiset_axioms;

    let t = s.insert(i, x);
    assert(t.remove(i) =~= s);
    assert(t[i] == x);
    assert(s.to_multiset() == t.to_multiset().remove(x));
    assert(t.contains(x));
    assert(t.to_multiset().count(x) > 0);
    assert(t.to_multiset() =~= s.to_multiset().insert(x));
}

proof fn lemma_to_multiset_insert_i64(s: Seq<i64>, i: int, x: i64)
    requires
        0 <= i <= s.len(),
    ensures
        s.insert(i, x).to_multiset() == s.to_multiset().insert(x),
{
    broadcast use vstd::seq_lib::group_to_multiset_ensures;
    broadcast use vstd::multiset::group_multiset_axioms;

    let t = s.insert(i, x);
    assert(t.remove(i) =~= s);
    assert(t[i] == x);
    assert(s.to_multiset() == t.to_multiset().remove(x));
    assert(t.contains(x));
    assert(t.to_multiset().count(x) > 0);
    assert(t.to_multiset() =~= s.to_multiset().insert(x));
}

/// Sorts the values ascending; the result holds exactly the same values.
#[verifier::loop_isolation(false)]
pub fn sort_usizes(values: &Vec<usize>) -> (r: Vec<usize>)
    ensures
        sorted_usizes(r@),
        r@.to_multiset() == values@.to_multiset(),
        r@.len() == values@.len(),
{
    broadcast use vstd::seq_lib::group_to_multiset_ensures;
    broadcast use vstd::multiset::group_multiset_axioms;

    let mut r: Vec<usize> = Vec::new();
    let mut i: usize = 0;
    while i < values.len()
        invariant
            i <= values@.len(),
            sorted_usizes(r@),
            r@.len() == i,
            r@.to_multiset() == values@.take(i as int).to_multiset(),
        decreases values@.len() - i,
    {
        let x = values[i];
        let mut pos: usize = 0;
        while pos < r.len() && r[pos] <= x
            invariant
                pos <= r@.len(),
                forall|k: int| 0 <= k < pos ==> r@[k] <= x,
            decreases r@.len() - pos,
        {
            pos = pos + 1;
        }
        let ghost pre = r@;
        r.insert(pos, x);
        proof {
            lemma_to_multiset_insert_usize(pre, pos as int, x);
            assert(values@.take(i + 1).drop_last() =~= values@.take(i as int));
            assert(values@.take(i + 1) =~= values@.take(i as int).push(values@[i as int]));
            assert(sorted_usizes(r@)) by {
                assert forall|a: int, b: int| 0 <= a < b < r@.len() implies r@[a] <= r@[b] by {
                    if a < pos && b > pos {
                        assert(pre[a] <= x);
                        assert(pre[a] == r@[a]);
                        assert(r@[b] == pre[b - 1]);
                    }
                }
            }
        }
        i = i + 1;
    }
    proof {
        assert(values@.take(values@.len() as int) =~= values@);
    }
    r
}

/// Sorts the values ascending; the result holds exactly the same values.
#[verifier::loop_isolation(false)]
pub fn sort_i64s(values: &Vec<i64>) -> (r: Vec<i64>)
    ensures
        sorted_i64s(r@),
        r@.to_multiset() == values@.to_multiset(),
        r@.len() == values@.len(),
{
    broadcast use vstd::seq_lib::group_to_multiset_ensures;
    broadcast use vstd::multiset::group_multiset_axioms;

    let mut r: Vec<i64> = Vec::new();
    let mut i: usize = 0;
    while i < values.len()
        invariant
            i <= values@.len(),
            sorted_i64s(r@),
            r@.len() == i,
            r@.to_multiset() == values@.take(i as int).to_multiset(),
        decreases values@.len() - i,
    {
        let x = values[i];
        let mut pos: usize = 0;
        while pos < r.len() && r[pos] <= x
            invariant
                pos <= r@.len(),
                forall|k: int| 0 <= k < pos ==> r@[k] <= x,
            decreases r@.len() - pos,
        {
            pos = pos + 1;
        }
        let ghost pre = r@;
        r.insert(pos, x);
        proof {
            lemma_to_multiset_insert_i64(pre, pos as int, x);
            assert(values@.take(i + 1).drop_last() =~= values@.take(i as int));
            assert(values@.take(i + 1) =~= values@.take(i as int).push(values@[i as int]));
            assert(sorted_i64s(r@)) by {
                assert forall|a: int, b: int| 0 <= a < b < r@.len() implies r@[a] <= r@[b] by {
                    if a < pos && b > pos {
                        assert(pre[a] <= x);
                        assert(pre[a] == r@[a]);
                        assert(r@[b] == pre[b - 1]);
                    }
                }
            }
        }
        i = i + 1;
    }
    proof {
        assert(values@.take(values@.len() as int) =~= values@);
    }
    r
}

/// The sorted distribution of rank errors over all dequeue records.
#[verifier::loop_isolation(false)]
pub fn sorted_rank_errors(tags: &Vec<ErrorTag>) -> (r: Vec<usize>)
    ensures
        sorted_usizes(r@),
        r@.to_multiset() == rank_errors_of(tags@).to_multiset(),
        r@.len() == tags@.len(),
{
    let mut plain: Vec<usize> = Vec::new();
    let mut i: usize = 0;
    while i < tags.len()
        invariant
            i <= tags@.len(),
            plain@.len() == i,
            forall|k: int| 0 <= k < i ==> plain@[k] == tags@[k].spec_rank_error(),
        decreases tags@.len() - i,
    {
        plain.push(tags[i].rank_error());
        i = i + 1;
    }
    proof {
        assert(plain@ =~= rank_errors_of(tags@));
    }
    sort_usizes(&plain)
}

/// The sorted distribution, over successful dequeues only, of the dequeued
/// item's enqueue number minus the dequeue number that served it.
#[verifier::loop_isolation(false)]
pub fn sorted_enq_deq_diffs(tags: &Vec<ErrorTag>) -> (r: Vec<i64>)
    requires
        forall|k: int|
            0 <= k < tags@.len() ==> ((#[trigger] tags@[k]).spec_deq_nbr() <= i64::MAX && (
            tags@[k] matches ErrorTag::ItemDequeue { enq_nbr, .. } ==> enq_nbr <= i64::MAX)),
    ensures
        sorted_i64s(r@),
        r@.to_multiset() == diffs_of(tags@).to_multiset(),
{
    broadcast use vstd::seq_lib::group_to_multiset_ensures;

    let mut plain: Vec<i64> = Vec::new();
    let mut i: usize = 0;
    while i < tags.len()
        invariant
            i <= tags@.len(),
            plain@ == diffs_of(tags@.take(i as int)),
        decreases tags@.len() - i,
    {
        proof {
            assert(tags@.take(i + 1).drop_last() =~= tags@.take(i as int));
            assert(tags@.take(i + 1).last() == tags@[i as int]);
        }
        let t = tags[i];
        match t {
            ErrorTag::ItemDequeue { enq_nbr, deq_nbr, .. } => {
                let diff: i64 = enq_nbr as i64 - deq_nbr as i64;
                plain.push(diff);
                proof {
                    assert(plain@ =~= diffs_of(tags@.take(i + 1)));
                }
            },
            ErrorTag::EmptyDequeue { .. } => {
                proof {
                    assert(plain@ =~= diffs_of(tags@.take(i + 1)));
                }
            },
        }
        i = i + 1;
    }
    proof {
        assert(tags@.take(tags@.len() as int) =~= tags@);
    }
    sort_i64s(&plain)
}

} // verus!
