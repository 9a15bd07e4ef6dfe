use vstd::multiset::Multiset;
use vstd::prelude::*;

verus! {

/// Total number of items across the shard views.
pub open spec fn total_len<T>(views: Seq<Seq<T>>) -> int
    decreases views.len(),
{
    if views.len() == 0 {
        0
    } else {
        total_len(views.drop_last()) + views.last().len()
    }
}

/// Every item across the shard views, as one multiset.
pub open spec fn contents<T>(views: Seq<Seq<T>>) -> Multiset<T>
    decreases views.len(),
{
    if views.len() == 0 {
        Multiset::empty()
    } else {
        contents(views.drop_last()).add(views.last().to_multiset())
    }
}

/// Sum of a sequence of counters.
pub open spec fn sum_of(s: Seq<usize>) -> int
    decreases s.len(),
{
    if s.len() == 0 {
        0
    } else {
        sum_of(s.drop_last()) + s.last()
    }
}

pub proof fn lemma_contents_len<T>(views: Seq<Seq<T>>)
    ensures
        contents(views).len() == total_len(views),
        total_len(views) >= 0,
    decreases views.len(),
{
    broadcast use vstd::seq_lib::group_to_multiset_ensures;
    broadcast use vstd::multiset::group_multiset_axioms;

    if views.len() == 0 {
    } else {
        lemma_contents_len(views.drop_last());
    }
}

/// A sequence of zero counters sums to zero.
pub proof fn lemma_sum_all_zero(s: Seq<usize>)
    requires
        forall|i: int| 0 <= i < s.len() ==> #[trigger] s[i] == 0,
    ensures
        sum_of(s) == 0,
    decreases s.len(),
{
    if s.len() > 0 {
        assert(s.last() == s[s.len() - 1]);
        assert forall|i: int| 0 <= i < s.drop_last().len() implies #[trigger] s.drop_last()[i]
            == 0 by {
            assert(s.drop_last()[i] == s[i]);
        }
        lemma_sum_all_zero(s.drop_last());
    }
}

pub proof fn lemma_sum_nonneg(s: Seq<usize>)
    ensures
        sum_of(s) >= 0,
    decreases s.len(),
{
    if s.len() > 0 {
        lemma_sum_nonneg(s.drop_last());
    }
}

/// Each counter is at most the sum of all of them.
pub proof fn lemma_sum_bounds_each(s: Seq<usize>, i: int)
    requires
        0 <= i < s.len(),
    ensures
        s[i] <= sum_of(s),
    decreases s.len(),
{
    lemma_sum_nonneg(s.drop_last());
    if i < s.len() - 1 {
        lemma_sum_bounds_each(s.drop_last(), i);
    }
}

/// Bumping one counter by one raises the sum by one.
pub proof fn lemma_sum_update(s: Seq<usize>, i: int, v: usize)
    requires
        0 <= i < s.len(),
    ensures
        sum_of(s.update(i, v)) == sum_of(s) + v - s[i],
    decreases s.len(),
{
    let s2 = s.update(i, v);
    if i == s.len() - 1 {
        assert(s2.drop_last() =~= s.drop_last());
        assert(s2.last() == v);
    } else {
        assert(s2.drop_last() =~= s.drop_last().update(i, v));
        assert(s2.last() == s.last());
        lemma_sum_update(s.drop_last(), i, v);
    }
}

/// Pushing an item onto shard `i` inserts it into the combined contents.
pub proof fn lemma_contents_push<T>(views: Seq<Seq<T>>, i: int, x: T)
    requires
        0 <= i < views.len(),
    ensures
        contents(views.update(i, views[i].push(x))) == contents(views).insert(x),
        total_len(views.update(i, views[i].push(x))) == total_len(views) + 1,
    decreases views.len(),
{
    broadcast use vstd::seq_lib::group_to_multiset_ensures;
    broadcast use vstd::multiset::group_multiset_axioms;

    let v2 = views.update(i, views[i].push(x));
    if i == views.len() - 1 {
        assert(v2.drop_last() =~= views.drop_last());
        assert(v2.last() == views[i].push(x));
        assert(contents(views.drop_last()).add(views.last().to_multiset().insert(x))
            =~= contents(views).insert(x));
    } else {
        assert(v2.drop_last() =~= views.drop_last().update(i, views.drop_last()[i].push(x)));
        assert(v2.last() == views.last());
        lemma_contents_push(views.drop_last(), i, x);
        assert(contents(views.drop_last()).insert(x).add(views.last().to_multiset())
            =~= contents(views).insert(x));
    }
}

/// Popping the front of a non-empty shard `i` removes it from the combined
/// contents, which therefore contained it.
pub proof fn lemma_contents_pop<T>(views: Seq<Seq<T>>, i: int)
    requires
        0 <= i < views.len(),
        views[i].len() > 0,
    ensures
        contents(views).count(views[i][0]) > 0,
        contents(views.update(i, views[i].drop_first())) == contents(views).remove(views[i][0]),
        total_len(views.update(i, views[i].drop_first())) == total_len(views) - 1,
    decreases views.len(),
{
    broadcast use vstd::seq_lib::group_to_multiset_ensures;
    broadcast use vstd::multiset::group_multiset_axioms;

    let x = views[i][0];
    let v2 = views.update(i, views[i].drop_first());
    assert(views[i].remove(0) =~= views[i].drop_first());
    assert(views[i].contains(x));
    if i == views.len() - 1 {
        assert(v2.drop_last() =~= views.drop_last());
        assert(v2.last() == views[i].drop_first());
        assert(views[i].drop_first().to_multiset() =~= views[i].to_multiset().remove(x));
        lemma_contents_len(views.drop_last());
        assert(contents(views.drop_last()).add(views.last().to_multiset().remove(x))
            =~= contents(views).remove(x));
    } else {
        assert(v2.drop_last() =~= views.drop_last().update(i, views.drop_last()[i].drop_first()));
        assert(v2.last() == views.last());
        lemma_contents_pop(views.drop_last(), i);
        assert(contents(views.drop_last()).remove(x).add(views.last().to_multiset())
            =~= contents(views).remove(x));
    }
}

/// When every shard view is empty the combined contents are empty.
pub proof fn lemma_contents_all_empty<T>(views: Seq<Seq<T>>)
    requires
        forall|i: int| 0 <= i < views.len() ==> (#[trigger] views[i]).len() == 0,
    ensures
        contents(views) == Multiset::<T>::empty(),
        total_len(views) == 0,
    decreases views.len(),
{
    broadcast use vstd::seq_lib::group_to_multiset_ensures;
    broadcast use vstd::multiset::group_multiset_axioms;

    if views.len() == 0 {
    } else {
        assert(views.last() == views[views.len() - 1]);
        assert forall|i: int| 0 <= i < views.drop_last().len() implies (#[trigger] views.drop_last()[
            i
        ]).len() == 0 by {
            assert(views.drop_last()[i] == views[i]);
        }
        lemma_contents_all_empty(views.drop_last());
        assert(views.last().to_multiset().len() == views.last().len());
        assert(contents(views) =~= Multiset::<T>::empty());
    }
}

/// The capability the analysis driver relies on: a sharded queue whose
/// enqueue appends to one shard and whose dequeue, when it yields an item,
/// pops the front of one shard. A queue that is `complete` (its empty
/// fallback scan is on) answers "empty" only when every shard is empty; any
/// queue answers "empty" only after observing some empty shard, and leaves
/// its state unchanged by doing so.
pub trait RelaxedFifo<T>: Sized {
    /// The implementation's internal consistency.
    spec fn inv(&self) -> bool;

    /// One sequence per shard: the items each sub-queue holds, oldest first.
    spec fn views(&self) -> Seq<Seq<T>>;

    /// Total number of enqueues the queue has accepted so far.
    spec fn enq_count(&self) -> int;

    /// Whether an "empty" answer promises that the whole queue is empty.
    spec fn complete(&self) -> bool;

    fn enqueue(&mut self, item: T)
        requires
            old(self).inv(),
            old(self).enq_count() < usize::MAX,
        ensures
            final(self).inv(),
            final(self).enq_count() == old(self).enq_count() + 1,
            final(self).complete() == old(self).complete(),
            final(self).views().len() == old(self).views().len(),
            exists|i: int|
                #![auto]
                0 <= i < old(self).views().len() && final(self).views() == old(
                    self,
                ).views().update(i, old(self).views()[i].push(item)),
    ;

    fn dequeue(&mut self) -> (r: Option<T>)
        requires
            old(self).inv(),
        ensures
            final(self).inv(),
            final(self).enq_count() == old(self).enq_count(),
            final(self).complete() == old(self).complete(),
            final(self).views().len() == old(self).views().len(),
            r is Some ==> exists|i: int|
                #![auto]
                0 <= i < old(self).views().len() && old(self).views()[i].len() > 0 && r == Some(
                    old(self).views()[i][0],
                ) && final(self).views() == old(self).views().update(
                    i,
                    old(self).views()[i].drop_first(),
                ),
            r is None ==> final(self).views() == old(self).views(),
            r is None ==> exists|i: int|
                0 <= i < old(self).views().len() && (#[trigger] old(self).views()[i]).len() == 0,
            r is None && old(self).complete() ==> forall|i: int|
                0 <= i < old(self).views().len() ==> (#[trigger] old(self).views()[i]).len() == 0,
    ;
}

} // verus!
