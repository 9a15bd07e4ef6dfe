use vstd::prelude::*;

use crate::d_choice_queue::{dequeue_choice, dequeue_outcome, is_sample, DChoiceQueue};
use crate::relaxed_fifo::{
    contents, lemma_contents_all_empty, lemma_contents_len, lemma_contents_pop,
    lemma_contents_push, total_len, RelaxedFifo,
};
use crate::strict_queue::{
    find_id, ids_of, lemma_alive_no_dup, lemma_unique_alive_find, StrictQueue,
};

verus! {

/// Number of enqueue operations (true entries) in a script.
pub open spec fn count_enq(ops: Seq<bool>) -> int
    decreases ops.len(),
{
    if ops.len() == 0 {
        0
    } else {
        count_enq(ops.drop_last()) + if ops.last() {
            1int
        } else {
            0
        }
    }
}

/// Number of dequeue operations (false entries) in a script.
pub open spec fn count_deq(ops: Seq<bool>) -> int
    decreases ops.len(),
{
    if ops.len() == 0 {
        0
    } else {
        count_deq(ops.drop_last()) + if ops.last() {
            0int
        } else {
            1
        }
    }
}

/// Number of true entries of a flag sequence; for a sequence marking which
/// dequeue attempts succeeded, the number of successes.
pub open spec fn count_true(s: Seq<bool>) -> int {
    count_enq(s)
}

pub proof fn lemma_counts_split(ops: Seq<bool>)
    ensures
        count_enq(ops) >= 0,
        count_deq(ops) >= 0,
        count_enq(ops) + count_deq(ops) == ops.len(),
    decreases ops.len(),
{
    if ops.len() > 0 {
        lemma_counts_split(ops.drop_last());
    }
}

pub proof fn lemma_count_prefix(ops: Seq<bool>, j: int)
    requires
        0 <= j <= ops.len(),
    ensures
        count_enq(ops.take(j)) <= count_enq(ops),
        count_deq(ops.take(j)) <= count_deq(ops),
    decreases ops.len() - j,
{
    if j == ops.len() {
        assert(ops.take(j) =~= ops);
    } else {
        lemma_count_prefix(ops, j + 1);
        assert(ops.take(j + 1).drop_last() =~= ops.take(j));
        lemma_counts_split(ops.take(j));
    }
}

/// Keeps extra information about each dequeue, apart from just its rank
/// error.
#[derive(Clone, Copy, Debug, PartialEq, Eq, Structural)]
pub enum ErrorTag {
    ItemDequeue {
        /// The rank error of the dequeued item.
        rank_error: usize,
        /// The enqueue operation this was enqueued during (for average load
        /// calculations).
        enq_nbr: usize,
        /// The dequeue attempt this was emitted during, counting every
        /// attempt, empty answers included.
        deq_nbr: usize,
        /// The index of the sub-queue that served this dequeue.
        sub_nbr: usize,
    },
    EmptyDequeue {
        /// Corresponds to how many items there were at the time of dequeue.
        rank_error: usize,
        /// The dequeue attempt this was emitted during, counting every
        /// attempt, empty answers included.
        deq_nbr: usize,
        /// The index of the sub-queue whose dequeue was attempted.
        sub_nbr: usize,
    },
}

impl ErrorTag {
    pub open spec fn is_item(self) -> bool {
        self is ItemDequeue
    }

    pub open spec fn spec_rank_error(self) -> usize {
        match self {
            ErrorTag::ItemDequeue { rank_error, .. } => rank_error,
            ErrorTag::EmptyDequeue { rank_error, .. } => rank_error,
        }
    }

    pub open spec fn spec_deq_nbr(self) -> usize {
        match self {
            ErrorTag::ItemDequeue { deq_nbr, .. } => deq_nbr,
            ErrorTag::EmptyDequeue { deq_nbr, .. } => deq_nbr,
        }
    }

    pub open spec fn spec_sub_nbr(self) -> usize {
        match self {
            ErrorTag::ItemDequeue { sub_nbr, .. } => sub_nbr,
            ErrorTag::EmptyDequeue { sub_nbr, .. } => sub_nbr,
        }
    }

    /// The recorded enqueue number of a successful dequeue.
    pub open spec fn spec_enq_nbr(self) -> usize
        recommends
            self is ItemDequeue,
    {
        self->ItemDequeue_enq_nbr
    }

    pub fn rank_error(&self) -> (r: usize)
        ensures
            r == self.spec_rank_error(),
    {
        match self {
            ErrorTag::ItemDequeue { rank_error, .. } => *rank_error,
            ErrorTag::EmptyDequeue { rank_error, .. } => *rank_error,
        }
    }

    pub fn deq_nbr(&self) -> (r: usize)
        ensures
            r == self.spec_deq_nbr(),
    {
        match self {
            ErrorTag::ItemDequeue { deq_nbr, .. } => *deq_nbr,
            ErrorTag::EmptyDequeue { deq_nbr, .. } => *deq_nbr,
        }
    }

    pub fn sub_nbr(&self) -> (r: usize)
        ensures
            r == self.spec_sub_nbr(),
    {
        match self {
            ErrorTag::ItemDequeue { sub_nbr, .. } => *sub_nbr,
            ErrorTag::EmptyDequeue { sub_nbr, .. } => *sub_nbr,
        }
    }
}

/// The number of outstanding items just before the `k`-th dequeue attempt
/// of a run: everything enqueued before that operation (prefill included),
/// minus the successful dequeues among the earlier records.
pub open spec fn live_at(prefill: int, ops: Seq<bool>, records: Seq<ErrorTag>, k: int) -> int {
    prefill + count_enq(ops.take(deq_pos(ops, k))) - count_items(records.take(k))
}

/// Number of successful (item) dequeue records.
pub open spec fn count_items(r: Seq<ErrorTag>) -> int
    decreases r.len(),
{
    if r.len() == 0 {
        0
    } else {
        count_items(r.drop_last()) + if r.last().is_item() {
            1int
        } else {
            0
        }
    }
}

/// The script position of the `k`-th dequeue operation.
pub open spec fn deq_pos(ops: Seq<bool>, k: int) -> int
    decreases ops.len(),
{
    if ops.len() == 0 {
        0
    } else if !ops[0] {
        if k == 0 {
            0
        } else {
            1 + deq_pos(ops.drop_first(), k - 1)
        }
    } else {
        1 + deq_pos(ops.drop_first(), k)
    }
}

proof fn lemma_count_deq_front(s: Seq<bool>)
    requires
        s.len() > 0,
    ensures
        count_deq(s) == (if s[0] {
            0int
        } else {
            1
        }) + count_deq(s.drop_first()),
    decreases s.len(),
{
    if s.len() == 1 {
        assert(s.drop_first() =~= Seq::<bool>::empty());
        assert(s.drop_last() =~= Seq::<bool>::empty());
        assert(s.last() == s[0]);
    } else {
        lemma_count_deq_front(s.drop_last());
        assert(s.drop_last()[0] == s[0]);
        assert(s.drop_last().drop_first() =~= s.drop_first().drop_last());
        assert(s.drop_first().last() == s.last());
    }
}

/// At a dequeue operation, the script position of the record about to be
/// emitted is the operation's own position: the records so far are exactly
/// the dequeues among the operations before it.
proof fn lemma_deq_pos_of_prefix(ops: Seq<bool>, j: int)
    requires
        0 <= j < ops.len(),
        !ops[j],
    ensures
        deq_pos(ops, count_deq(ops.take(j))) == j,
    decreases j,
{
    if j == 0 {
        assert(ops.take(0) =~= Seq::<bool>::empty());
    } else {
        let t = ops.drop_first();
        assert(t[j - 1] == ops[j]);
        lemma_deq_pos_of_prefix(t, j - 1);
        assert(ops.take(j).drop_first() =~= t.take(j - 1));
        assert(ops.take(j)[0] == ops[0]);
        lemma_count_deq_front(ops.take(j));
        lemma_counts_split(t.take(j - 1));
    }
}

pub proof fn lemma_count_items_nonneg(r: Seq<ErrorTag>)
    ensures
        count_items(r) >= 0,
        count_items(r) <= r.len(),
    decreases r.len(),
{
    if r.len() > 0 {
        lemma_count_items_nonneg(r.drop_last());
    }
}

/// Analyze a relaxed queue (passed fresh and empty), returning all rank
/// errors for the operations. The queue is fed `prefill` plus one item per
/// enqueue operation; some marking of the dequeue attempts as successes
/// explains every emitted value: an empty answer scores exactly the number
/// of items outstanding at that instant, a successful dequeue strictly
/// below it, and with the fallback scan on an empty answer scores zero. A
/// single-shard queue is a strict FIFO: all its rank errors are zero.
#[verifier::loop_isolation(false)]
pub fn analyze_simple<Q: RelaxedFifo<usize>>(
    relaxed_queue: &mut Q,
    prefill: usize,
    operations: &Vec<bool>,
) -> (r: Vec<usize>)
    requires
        old(relaxed_queue).inv(),
        old(relaxed_queue).enq_count() == 0,
        forall|i: int|
            0 <= i < old(relaxed_queue).views().len() ==> (#[trigger] old(
                relaxed_queue,
            ).views()[i]).len() == 0,
        prefill + count_enq(operations@) <= usize::MAX,
    ensures
        final(relaxed_queue).inv(),
        final(relaxed_queue).enq_count() == prefill + count_enq(operations@),
        r@.len() == count_deq(operations@),
        forall|k: int| 0 <= k < r@.len() ==> #[trigger] r@[k] <= prefill + count_enq(operations@),
        forall|k: int|
            0 <= k < r@.len() ==> #[trigger] r@[k] <= prefill + count_enq(
                operations@.take(deq_pos(operations@, k)),
            ),
        exists|succ: Seq<bool>|
            #![auto]
            {
                &&& succ.len() == r@.len()
                &&& total_len(final(relaxed_queue).views()) == prefill + count_enq(operations@)
                    - count_true(succ)
                &&& forall|k: int|
                    0 <= k < r@.len() ==> (!succ[k] ==> (#[trigger] r@[k]) == prefill + count_enq(
                        operations@.take(deq_pos(operations@, k)),
                    ) - count_true(succ.take(k)))
                &&& forall|k: int|
                    0 <= k < r@.len() ==> (succ[k] ==> (#[trigger] r@[k]) < prefill + count_enq(
                        operations@.take(deq_pos(operations@, k)),
                    ) - count_true(succ.take(k)))
                &&& (old(relaxed_queue).complete() ==> forall|k: int|
                    0 <= k < r@.len() ==> (!succ[k] ==> (#[trigger] r@[k]) == 0))
            },
        old(relaxed_queue).views().len() == 1 ==> forall|k: int|
            0 <= k < r@.len() ==> #[trigger] r@[k] == 0,
{
    broadcast use vstd::seq_lib::group_to_multiset_ensures;
    broadcast use vstd::multiset::group_multiset_axioms;

    proof {
        lemma_counts_split(operations@);
        lemma_contents_all_empty(old(relaxed_queue).views());
    }
    // Keep an ordered queue to the side
    let mut strict_queue = StrictQueue::new();

    let mut item: usize = 0;
    while item < prefill
        invariant
            item <= prefill,
            strict_queue.wf(),
            relaxed_queue.inv(),
            relaxed_queue.views().len() == old(relaxed_queue).views().len(),
            relaxed_queue.complete() == old(relaxed_queue).complete(),
            relaxed_queue.enq_count() == item,
            ids_of(strict_queue.deque@).no_duplicates(),
            forall|k: int|
                0 <= k < ids_of(strict_queue.deque@).len() ==> #[trigger] ids_of(
                    strict_queue.deque@,
                )[k] < item,
            strict_queue.alive().to_multiset() == contents(relaxed_queue.views()),
            strict_queue.len == item,
            old(relaxed_queue).views().len() == 1 ==> strict_queue.alive()
                == relaxed_queue.views()[0],
        decreases prefill - item,
    {
        let ghost pre_alive = strict_queue.alive();
        let ghost pre_deque = strict_queue.deque@;
        let ghost pre_views = relaxed_queue.views();
        // Prefill
        strict_queue.enqueue(item);
        relaxed_queue.enqueue(item);
        proof {
            let i = choose|i: int|
                #![auto]
                0 <= i < pre_views.len() && relaxed_queue.views() == pre_views.update(
                    i,
                    pre_views[i].push(item),
                );
            lemma_contents_push(pre_views, i, item);
            assert(ids_of(strict_queue.deque@) =~= ids_of(pre_deque).push(item));
            assert(ids_of(strict_queue.deque@).no_duplicates()) by {
                assert forall|a: int, b: int|
                    0 <= a < ids_of(strict_queue.deque@).len() && 0 <= b < ids_of(
                        strict_queue.deque@,
                    ).len() && a != b implies ids_of(strict_queue.deque@)[a] != ids_of(
                    strict_queue.deque@,
                )[b] by {
                    let n = ids_of(pre_deque).len();
                    if a < n && b < n {
                        assert(ids_of(pre_deque)[a] != ids_of(pre_deque)[b]);
                    }
                }
            }
        }
        item = item + 1;
    }

    let mut rank_errors: Vec<usize> = Vec::new();
    let ghost mut succ_trace: Seq<bool> = Seq::empty();
    let mut enq_nbr: usize = prefill;

    let mut j: usize = 0;
    while j < operations.len()
        invariant
            j <= operations@.len(),
            strict_queue.wf(),
            relaxed_queue.inv(),
            relaxed_queue.views().len() == old(relaxed_queue).views().len(),
            relaxed_queue.complete() == old(relaxed_queue).complete(),
            enq_nbr == prefill + count_enq(operations@.take(j as int)),
            relaxed_queue.enq_count() == enq_nbr,
            succ_trace.len() == rank_errors@.len(),
            strict_queue.len + count_true(succ_trace) == enq_nbr,
            forall|k: int|
                0 <= k < rank_errors@.len() ==> (!succ_trace[k] ==> (#[trigger] rank_errors@[k])
                    == prefill + count_enq(operations@.take(deq_pos(operations@, k)))
                    - count_true(succ_trace.take(k))),
            forall|k: int|
                0 <= k < rank_errors@.len() ==> (succ_trace[k] ==> (#[trigger] rank_errors@[k])
                    < prefill + count_enq(operations@.take(deq_pos(operations@, k))) - count_true(
                    succ_trace.take(k),
                )),
            old(relaxed_queue).complete() ==> forall|k: int|
                0 <= k < rank_errors@.len() ==> (!succ_trace[k] ==> (#[trigger] rank_errors@[k])
                    == 0),
            ids_of(strict_queue.deque@).no_duplicates(),
            forall|k: int|
                0 <= k < ids_of(strict_queue.deque@).len() ==> #[trigger] ids_of(
                    strict_queue.deque@,
                )[k] < enq_nbr,
            strict_queue.alive().to_multiset() == contents(relaxed_queue.views()),
            strict_queue.len <= enq_nbr,
            rank_errors@.len() == count_deq(operations@.take(j as int)),
            forall|k: int|
                0 <= k < rank_errors@.len() ==> #[trigger] rank_errors@[k] <= prefill + count_enq(
                    operations@.take(j as int),
                ),
            forall|k: int|
                0 <= k < rank_errors@.len() ==> #[trigger] rank_errors@[k] <= prefill + count_enq(
                    operations@.take(deq_pos(operations@, k)),
                ),
            old(relaxed_queue).views().len() == 1 ==> strict_queue.alive()
                == relaxed_queue.views()[0],
            old(relaxed_queue).views().len() == 1 ==> forall|k: int|
                0 <= k < rank_errors@.len() ==> #[trigger] rank_errors@[k] == 0,
        decreases operations@.len() - j,
    {
        let op = operations[j];
        proof {
            assert(operations@.take(j as int + 1).drop_last() =~= operations@.take(j as int));
            assert(operations@.take(j as int + 1).last() == operations@[j as int]);
            lemma_count_prefix(operations@, j as int + 1);
            lemma_counts_split(operations@.take(j as int));
        }
        if op {
            // Enqueue
            let ghost pre_alive = strict_queue.alive();
            let ghost pre_deque = strict_queue.deque@;
            let ghost pre_views = relaxed_queue.views();
            proof {
                lemma_contents_len(pre_views);
                assert(strict_queue.len < usize::MAX);
            }
            strict_queue.enqueue(enq_nbr);
            relaxed_queue.enqueue(enq_nbr);
            proof {
                let i = choose|i: int|
                    #![auto]
                    0 <= i < pre_views.len() && relaxed_queue.views() == pre_views.update(
                        i,
                        pre_views[i].push(enq_nbr),
                    );
                lemma_contents_push(pre_views, i, enq_nbr);
                assert(ids_of(strict_queue.deque@) =~= ids_of(pre_deque).push(enq_nbr));
                assert(ids_of(strict_queue.deque@).no_duplicates()) by {
                    assert forall|a: int, b: int|
                        0 <= a < ids_of(strict_queue.deque@).len() && 0 <= b < ids_of(
                            strict_queue.deque@,
                        ).len() && a != b implies ids_of(strict_queue.deque@)[a] != ids_of(
                        strict_queue.deque@,
                    )[b] by {
                        let n = ids_of(pre_deque).len();
                        if a < n && b < n {
                            assert(ids_of(pre_deque)[a] != ids_of(pre_deque)[b]);
                        }
                    }
                }
            }
            enq_nbr = enq_nbr + 1;
        } else {
            // Dequeue
            let ghost pre_alive = strict_queue.alive();
            let ghost pre_deque = strict_queue.deque@;
            let ghost pre_len = strict_queue.len;
            let ghost pre_views = relaxed_queue.views();
            let got = relaxed_queue.dequeue();
            proof {
                lemma_deq_pos_of_prefix(operations@, j as int);
            }
            if let Some(itm) = got {
                proof {
                    let i = choose|i: int|
                        #![auto]
                        0 <= i < pre_views.len() && pre_views[i].len() > 0 && got == Some(
                            pre_views[i][0],
                        ) && relaxed_queue.views() == pre_views.update(
                            i,
                            pre_views[i].drop_first(),
                        );
                    lemma_contents_pop(pre_views, i);
                    assert(pre_alive.to_multiset().count(itm) > 0);
                    assert(pre_alive.contains(itm));
                    lemma_unique_alive_find(pre_deque, itm);
                }
                let rank = strict_queue.relaxed_dequeue(itm);
                rank_errors.push(rank);
                let ghost pre_succ = succ_trace;
                proof {
                    succ_trace = succ_trace.push(true);
                    assert(succ_trace.drop_last() =~= pre_succ);
                    assert(count_true(succ_trace) == count_true(pre_succ) + 1);
                    assert forall|k: int| 0 <= k < rank_errors@.len() implies ((!succ_trace[k]
                        ==> (#[trigger] rank_errors@[k]) == prefill + count_enq(
                        operations@.take(deq_pos(operations@, k)),
                    ) - count_true(succ_trace.take(k))) && (succ_trace[k] ==> rank_errors@[k]
                        < prefill + count_enq(operations@.take(deq_pos(operations@, k)))
                        - count_true(succ_trace.take(k)))) by {
                        if k < pre_succ.len() {
                            assert(succ_trace.take(k) =~= pre_succ.take(k));
                            assert(succ_trace[k] == pre_succ[k]);
                        } else {
                            assert(succ_trace.take(k) =~= pre_succ);
                            assert(deq_pos(operations@, k) == j);
                        }
                    }
                    assert(strict_queue.alive().to_multiset() =~= pre_alive.to_multiset().remove(
                        itm,
                    ));
                    assert forall|k: int|
                        0 <= k < ids_of(strict_queue.deque@).len() implies #[trigger] ids_of(
                        strict_queue.deque@,
                    )[k] < enq_nbr by {
                        let x = ids_of(strict_queue.deque@)[k];
                        assert(ids_of(strict_queue.deque@).contains(x));
                        assert(ids_of(pre_deque).contains(x));
                        let k2 = choose|k2: int|
                            0 <= k2 < ids_of(pre_deque).len() && ids_of(pre_deque)[k2] == x;
                        assert(ids_of(pre_deque)[k2] < enq_nbr);
                    }
                    if old(relaxed_queue).views().len() == 1 {
                        let i = choose|i: int|
                            #![auto]
                            0 <= i < pre_views.len() && pre_views[i].len() > 0 && got == Some(
                                pre_views[i][0],
                            ) && relaxed_queue.views() == pre_views.update(
                                i,
                                pre_views[i].drop_first(),
                            );
                        assert(i == 0);
                        assert(pre_alive[0] == itm);
                        assert(rank == 0);
                        assert(strict_queue.alive() =~= pre_alive.drop_first());
                        assert(relaxed_queue.views()[0] =~= pre_views[0].drop_first());
                    }
                }
            } else {
                let live = strict_queue.len();
                rank_errors.push(live);
                let ghost pre_succ = succ_trace;
                proof {
                    succ_trace = succ_trace.push(false);
                    assert(succ_trace.drop_last() =~= pre_succ);
                    assert(count_true(succ_trace) == count_true(pre_succ));
                    assert forall|k: int| 0 <= k < rank_errors@.len() implies ((!succ_trace[k]
                        ==> (#[trigger] rank_errors@[k]) == prefill + count_enq(
                        operations@.take(deq_pos(operations@, k)),
                    ) - count_true(succ_trace.take(k))) && (succ_trace[k] ==> rank_errors@[k]
                        < prefill + count_enq(operations@.take(deq_pos(operations@, k)))
                        - count_true(succ_trace.take(k)))) by {
                        if k < pre_succ.len() {
                            assert(succ_trace.take(k) =~= pre_succ.take(k));
                            assert(succ_trace[k] == pre_succ[k]);
                        } else {
                            assert(succ_trace.take(k) =~= pre_succ);
                            assert(deq_pos(operations@, k) == j);
                        }
                    }
                    if old(relaxed_queue).complete() {
                        lemma_contents_all_empty(pre_views);
                        assert(pre_alive.to_multiset().len() == 0);
                        assert(pre_alive.len() == 0);
                        assert(live == 0);
                    }
                    if old(relaxed_queue).views().len() == 1 {
                        assert(pre_views[0].len() == 0);
                        lemma_contents_all_empty(pre_views);
                        assert(pre_alive.to_multiset().len() == 0);
                        assert(pre_alive.len() == 0);
                        assert(live == 0);
                        assert(strict_queue.alive() =~= pre_alive);
                    }
                }
            }
        }
        j = j + 1;
    }
    proof {
        assert(operations@.take(operations@.len() as int) =~= operations@);
        lemma_contents_len(relaxed_queue.views());
        assert(strict_queue.alive().to_multiset().len() == strict_queue.alive().len());
        assert(total_len(relaxed_queue.views()) == prefill + count_enq(operations@) - count_true(
            succ_trace,
        ));
    }
    rank_errors
}

/// Analyze a relaxed queue (passed fresh and empty), returning rank error
/// and extra information for all dequeues. Conservation holds: the items
/// ever enqueued are exactly the successful dequeues plus what the queue
/// still holds; the `deq_nbr` fields count the dequeue attempts from one;
/// an empty answer is scored as exactly the number of items outstanding at
/// that instant, a successful dequeue strictly below it; and a single-shard
/// queue has rank error zero throughout.
#[verifier::loop_isolation(false)]
#[verifier::rlimit(80)]
pub fn analyze_extra(
    relaxed_queue: &mut DChoiceQueue<usize>,
    prefill: usize,
    operations: &Vec<bool>,
) -> (r: Vec<ErrorTag>)
    requires
        old(relaxed_queue).wf(),
        crate::relaxed_fifo::sum_of(old(relaxed_queue).tails()) == 0,
        forall|i: int|
            0 <= i < old(relaxed_queue).subqueues@.len() ==> (#[trigger] old(
                relaxed_queue,
            ).subqueues@[i]@).len() == 0,
        prefill + count_enq(operations@) <= usize::MAX,
    ensures
        final(relaxed_queue).wf(),
        crate::relaxed_fifo::sum_of(final(relaxed_queue).tails()) == prefill + count_enq(
            operations@,
        ),
        r@.len() == count_deq(operations@),
        prefill + count_enq(operations@) == count_items(r@) + total_len(
            final(relaxed_queue).shard_views(),
        ),
        forall|k: int|
            0 <= k < r@.len() ==> (#[trigger] r@[k]).spec_rank_error() <= prefill + count_enq(
                operations@,
            ),
        forall|k: int| 0 <= k < r@.len() ==> (#[trigger] r@[k]).spec_deq_nbr() == k + 1,
        forall|k: int|
            0 <= k < r@.len() ==> ((#[trigger] r@[k]) is EmptyDequeue ==> r@[k].spec_rank_error()
                == live_at(prefill as int, operations@, r@, k)),
        forall|k: int|
            0 <= k < r@.len() ==> ((#[trigger] r@[k]) is ItemDequeue ==> r@[k].spec_rank_error()
                < live_at(prefill as int, operations@, r@, k)),
        old(relaxed_queue).empty_lin ==> forall|k: int|
            0 <= k < r@.len() ==> ((#[trigger] r@[k]) is EmptyDequeue ==> r@[k].spec_rank_error()
                == 0),
        forall|k: int|
            0 <= k < r@.len() ==> ((#[trigger] r@[k]) is ItemDequeue ==> r@[k].spec_enq_nbr()
                < prefill + count_enq(operations@.take(deq_pos(operations@, k)))),
        forall|k1: int, k2: int|
            0 <= k1 < k2 < r@.len() && (#[trigger] r@[k1]) is ItemDequeue && (#[trigger] r@[k2])
                is ItemDequeue ==> r@[k1].spec_enq_nbr() != r@[k2].spec_enq_nbr(),
        old(relaxed_queue).subqueues@.len() == 1 ==> forall|k: int|
            0 <= k < r@.len() ==> (#[trigger] r@[k]).spec_rank_error() == 0,
{
    broadcast use vstd::seq_lib::group_to_multiset_ensures;
    broadcast use vstd::multiset::group_multiset_axioms;

    proof {
        lemma_counts_split(operations@);
        assert forall|i: int| 0 <= i < old(relaxed_queue).shard_views().len() implies (
        #[trigger] old(relaxed_queue).shard_views()[i]).len() == 0 by {
            assert(old(relaxed_queue).shard_views()[i] == old(relaxed_queue).subqueues@[i]@);
        }
        lemma_contents_all_empty(old(relaxed_queue).shard_views());
    }
    // Keep an ordered queue to the side
    let mut strict_queue = StrictQueue::new();

    let mut item: usize = 0;
    while item < prefill
        invariant
            item <= prefill,
            strict_queue.wf(),
            relaxed_queue.wf(),
            relaxed_queue.subqueues@.len() == old(relaxed_queue).subqueues@.len(),
            relaxed_queue.empty_lin == old(relaxed_queue).empty_lin,
            crate::relaxed_fifo::sum_of(relaxed_queue.tails()) == item,
            ids_of(strict_queue.deque@).no_duplicates(),
            forall|k: int|
                0 <= k < ids_of(strict_queue.deque@).len() ==> #[trigger] ids_of(
                    strict_queue.deque@,
                )[k] < item,
            strict_queue.alive().to_multiset() == contents(relaxed_queue.shard_views()),
            strict_queue.len == item,
            old(relaxed_queue).subqueues@.len() == 1 ==> strict_queue.alive()
                == relaxed_queue.shard_views()[0],
        decreases prefill - item,
    {
        let ghost pre_alive = strict_queue.alive();
        let ghost pre_deque = strict_queue.deque@;
        let ghost pre_q = *relaxed_queue;
        // Prefill
        strict_queue.enqueue(item);
        relaxed_queue.enqueue(item);
        proof {
            assert(ids_of(strict_queue.deque@) =~= ids_of(pre_deque).push(item));
            assert(ids_of(strict_queue.deque@).no_duplicates()) by {
                assert forall|a: int, b: int|
                    0 <= a < ids_of(strict_queue.deque@).len() && 0 <= b < ids_of(
                        strict_queue.deque@,
                    ).len() && a != b implies ids_of(strict_queue.deque@)[a] != ids_of(
                    strict_queue.deque@,
                )[b] by {
                    let n = ids_of(pre_deque).len();
                    if a < n && b < n {
                        assert(ids_of(pre_deque)[a] != ids_of(pre_deque)[b]);
                    }
                }
            }
            if old(relaxed_queue).subqueues@.len() == 1 {
                let s = choose|s: Seq<usize>|
                    #![auto]
                    is_sample(pre_q, s) && crate::d_choice_queue::enqueued_at(
                        pre_q,
                        *relaxed_queue,
                        crate::d_choice_queue::enqueue_choice(pre_q, s) as int,
                        item,
                    );
                assert(relaxed_queue.shard_views()[0] =~= pre_q.shard_views()[0].push(item));
            }
        }
        item = item + 1;
    }

    let mut error_tags: Vec<ErrorTag> = Vec::new();
    let mut enq_nbr: usize = prefill;

    let mut deq_nbr: usize = 0;
    let mut j: usize = 0;
    while j < operations.len()
        invariant
            j <= operations@.len(),
            strict_queue.wf(),
            relaxed_queue.wf(),
            relaxed_queue.subqueues@.len() == old(relaxed_queue).subqueues@.len(),
            relaxed_queue.empty_lin == old(relaxed_queue).empty_lin,
            enq_nbr == prefill + count_enq(operations@.take(j as int)),
            crate::relaxed_fifo::sum_of(relaxed_queue.tails()) == enq_nbr,
            ids_of(strict_queue.deque@).no_duplicates(),
            forall|k: int|
                0 <= k < ids_of(strict_queue.deque@).len() ==> #[trigger] ids_of(
                    strict_queue.deque@,
                )[k] < enq_nbr,
            strict_queue.alive().to_multiset() == contents(relaxed_queue.shard_views()),
            strict_queue.len + count_items(error_tags@) == enq_nbr,
            deq_nbr == count_deq(operations@.take(j as int)),
            error_tags@.len() == count_deq(operations@.take(j as int)),
            forall|k: int|
                0 <= k < error_tags@.len() ==> (#[trigger] error_tags@[k]).spec_rank_error()
                    <= prefill + count_enq(operations@.take(j as int)),
            forall|k: int|
                0 <= k < error_tags@.len() ==> (#[trigger] error_tags@[k]).spec_deq_nbr() == k
                    + 1,
            forall|k: int|
                0 <= k < error_tags@.len() ==> ((#[trigger] error_tags@[k]) is EmptyDequeue
                    ==> error_tags@[k].spec_rank_error() == live_at(
                    prefill as int,
                    operations@,
                    error_tags@,
                    k,
                )),
            forall|k: int|
                0 <= k < error_tags@.len() ==> ((#[trigger] error_tags@[k]) is ItemDequeue
                    ==> error_tags@[k].spec_rank_error() < live_at(
                    prefill as int,
                    operations@,
                    error_tags@,
                    k,
                )),
            old(relaxed_queue).empty_lin ==> forall|k: int|
                0 <= k < error_tags@.len() ==> ((#[trigger] error_tags@[k]) is EmptyDequeue
                    ==> error_tags@[k].spec_rank_error() == 0),
            forall|k: int|
                0 <= k < error_tags@.len() ==> ((#[trigger] error_tags@[k]) is ItemDequeue
                    ==> error_tags@[k].spec_enq_nbr() < enq_nbr),
            forall|k: int|
                0 <= k < error_tags@.len() ==> ((#[trigger] error_tags@[k]) is ItemDequeue
                    ==> error_tags@[k].spec_enq_nbr() < prefill + count_enq(
                    operations@.take(deq_pos(operations@, k)),
                )),
            forall|k: int|
                0 <= k < error_tags@.len() ==> ((#[trigger] error_tags@[k]) is ItemDequeue
                    ==> !strict_queue.alive().contains(error_tags@[k].spec_enq_nbr())),
            forall|k1: int, k2: int|
                0 <= k1 < k2 < error_tags@.len() && (#[trigger] error_tags@[k1]) is ItemDequeue
                    && (#[trigger] error_tags@[k2]) is ItemDequeue ==> error_tags@[k1].spec_enq_nbr()
                    != error_tags@[k2].spec_enq_nbr(),
            old(relaxed_queue).subqueues@.len() == 1 ==> strict_queue.alive()
                == relaxed_queue.shard_views()[0],
            old(relaxed_queue).subqueues@.len() == 1 ==> forall|k: int|
                0 <= k < error_tags@.len() ==> (#[trigger] error_tags@[k]).spec_rank_error()
                    == 0,
        decreases operations@.len() - j,
    {
        let op = operations[j];
        proof {
            assert(operations@.take(j as int + 1).drop_last() =~= operations@.take(j as int));
            assert(operations@.take(j as int + 1).last() == operations@[j as int]);
            lemma_count_prefix(operations@, j as int + 1);
            lemma_counts_split(operations@.take(j as int));
        }
        if op {
            // Enqueue
            let ghost pre_alive = strict_queue.alive();
            let ghost pre_deque = strict_queue.deque@;
            let ghost pre_q = *relaxed_queue;
            proof {
                lemma_count_items_nonneg(error_tags@);
                assert(strict_queue.len < usize::MAX);
            }
            strict_queue.enqueue(enq_nbr);
            relaxed_queue.enqueue(enq_nbr);
            proof {
                assert(ids_of(strict_queue.deque@) =~= ids_of(pre_deque).push(enq_nbr));
                assert(ids_of(strict_queue.deque@).no_duplicates()) by {
                    assert forall|a: int, b: int|
                        0 <= a < ids_of(strict_queue.deque@).len() && 0 <= b < ids_of(
                            strict_queue.deque@,
                        ).len() && a != b implies ids_of(strict_queue.deque@)[a] != ids_of(
                        strict_queue.deque@,
                    )[b] by {
                        let n = ids_of(pre_deque).len();
                        if a < n && b < n {
                            assert(ids_of(pre_deque)[a] != ids_of(pre_deque)[b]);
                        }
                    }
                }
                assert forall|k: int|
                    0 <= k < error_tags@.len() && (#[trigger] error_tags@[k]) is ItemDequeue
                        implies !strict_queue.alive().contains(
                    error_tags@[k].spec_enq_nbr(),
                ) by {
                    let e = error_tags@[k].spec_enq_nbr();
                    if strict_queue.alive().contains(e) {
                        let i = choose|i: int|
                            0 <= i < strict_queue.alive().len() && strict_queue.alive()[i] == e;
                        if i < pre_alive.len() {
                            assert(pre_alive.contains(e));
                        } else {
                            assert(e == enq_nbr);
                        }
                        assert(false);
                    }
                }
                if old(relaxed_queue).subqueues@.len() == 1 {
                    let s = choose|s: Seq<usize>|
                        #![auto]
                        is_sample(pre_q, s) && crate::d_choice_queue::enqueued_at(
                            pre_q,
                            *relaxed_queue,
                            crate::d_choice_queue::enqueue_choice(pre_q, s) as int,
                            enq_nbr,
                        );
                    assert(relaxed_queue.shard_views()[0] =~= pre_q.shard_views()[0].push(
                        enq_nbr,
                    ));
                }
            }
            enq_nbr = enq_nbr + 1;
        } else {
            // Dequeue
            deq_nbr = deq_nbr + 1;
            let ghost pre_alive = strict_queue.alive();
            let ghost pre_deque = strict_queue.deque@;
            let ghost pre_q = *relaxed_queue;
            let got = relaxed_queue.dequeue_with_info();
            let (outcome, sub_nbr) = got;
            if let Some(itm) = outcome {
                proof {
                    assert(contents(pre_q.shard_views()).count(itm) > 0);
                    assert(pre_alive.to_multiset().count(itm) > 0);
                    assert(pre_alive.contains(itm));
                    lemma_unique_alive_find(pre_deque, itm);
                }
                let rank = strict_queue.relaxed_dequeue(itm);
                let ghost pre_tags = error_tags@;
                error_tags.push(
                    ErrorTag::ItemDequeue { rank_error: rank, enq_nbr: itm, deq_nbr, sub_nbr },
                );
                proof {
                    lemma_count_items_nonneg(pre_tags);
                    assert(error_tags@.drop_last() =~= pre_tags);
                    assert(count_items(error_tags@) == count_items(pre_tags) + 1);
                    lemma_deq_pos_of_prefix(operations@, j as int);
                    assert forall|k: int| 0 <= k < error_tags@.len() implies (((
                    #[trigger] error_tags@[k]) is EmptyDequeue ==> error_tags@[k].spec_rank_error()
                        == live_at(prefill as int, operations@, error_tags@, k)) && (
                    error_tags@[k] is ItemDequeue ==> error_tags@[k].spec_rank_error() < live_at(
                        prefill as int,
                        operations@,
                        error_tags@,
                        k,
                    ))) by {
                        if k < pre_tags.len() {
                            assert(error_tags@.take(k) =~= pre_tags.take(k));
                            assert(error_tags@[k] == pre_tags[k]);
                        } else {
                            assert(error_tags@.take(k) =~= pre_tags);
                            assert(deq_pos(operations@, k) == j);
                        }
                    }
                    assert(strict_queue.alive().to_multiset() =~= pre_alive.to_multiset().remove(
                        itm,
                    ));
                    assert(itm < enq_nbr) by {
                        assert(ids_of(pre_deque)[find_id(pre_deque, itm)] == itm);
                    }
                    lemma_alive_no_dup(pre_deque);
                    pre_alive.lemma_multiset_has_no_duplicates();
                    assert(pre_alive.to_multiset().count(itm) == 1);
                    assert(strict_queue.alive().to_multiset().count(itm) == 0);
                    assert(!strict_queue.alive().contains(itm));
                    assert forall|x: usize| strict_queue.alive().contains(x) implies
                        pre_alive.contains(x) by {
                        assert(strict_queue.alive().to_multiset().count(x) > 0);
                        assert(pre_alive.to_multiset().count(x) > 0);
                    }
                    assert forall|k: int|
                        0 <= k < error_tags@.len() && (#[trigger] error_tags@[k]) is ItemDequeue
                            implies !strict_queue.alive().contains(
                        error_tags@[k].spec_enq_nbr(),
                    ) by {
                        if k < pre_tags.len() {
                            assert(error_tags@[k] == pre_tags[k]);
                            assert(!pre_alive.contains(error_tags@[k].spec_enq_nbr()));
                        } else {
                            assert(error_tags@[k].spec_enq_nbr() == itm);
                        }
                    }
                    assert forall|k1: int, k2: int|
                        0 <= k1 < k2 < error_tags@.len() && (#[trigger] error_tags@[k1])
                            is ItemDequeue && (#[trigger] error_tags@[k2]) is ItemDequeue implies
                        error_tags@[k1].spec_enq_nbr() != error_tags@[k2].spec_enq_nbr() by {
                        if k2 == pre_tags.len() {
                            assert(error_tags@[k2].spec_enq_nbr() == itm);
                            assert(!pre_alive.contains(error_tags@[k1].spec_enq_nbr()));
                            assert(pre_alive.contains(itm));
                        }
                    }
                    assert forall|k: int|
                        0 <= k < ids_of(strict_queue.deque@).len() implies #[trigger] ids_of(
                        strict_queue.deque@,
                    )[k] < enq_nbr by {
                        let x = ids_of(strict_queue.deque@)[k];
                        assert(ids_of(strict_queue.deque@).contains(x));
                        assert(ids_of(pre_deque).contains(x));
                        let k2 = choose|k2: int|
                            0 <= k2 < ids_of(pre_deque).len() && ids_of(pre_deque)[k2] == x;
                        assert(ids_of(pre_deque)[k2] < enq_nbr);
                    }
                    if old(relaxed_queue).subqueues@.len() == 1 {
                        let i = choose|i: int|
                            #![auto]
                            crate::d_choice_queue::dequeued_at(pre_q, *relaxed_queue, i)
                                && outcome == Some(pre_q.subqueues@[i]@[0]);
                        assert(i == 0);
                        assert(pre_q.subqueues@[0]@ == pre_q.shard_views()[0]);
                        assert(pre_alive[0] == itm);
                        assert(rank == 0);
                        assert(strict_queue.alive() =~= pre_alive.drop_first());
                        assert(relaxed_queue.shard_views()[0] =~= pre_q.shard_views()[
                            0
                        ].drop_first());
                    }
                }
            } else {
                let live = strict_queue.len();
                let ghost pre_tags = error_tags@;
                error_tags.push(ErrorTag::EmptyDequeue { rank_error: live, deq_nbr, sub_nbr });
                proof {
                    lemma_count_items_nonneg(pre_tags);
                    assert(error_tags@.drop_last() =~= pre_tags);
                    assert(count_items(error_tags@) == count_items(pre_tags));
                    lemma_deq_pos_of_prefix(operations@, j as int);
                    assert forall|k: int| 0 <= k < error_tags@.len() implies (((
                    #[trigger] error_tags@[k]) is EmptyDequeue ==> error_tags@[k].spec_rank_error()
                        == live_at(prefill as int, operations@, error_tags@, k)) && (
                    error_tags@[k] is ItemDequeue ==> error_tags@[k].spec_rank_error() < live_at(
                        prefill as int,
                        operations@,
                        error_tags@,
                        k,
                    ))) by {
                        if k < pre_tags.len() {
                            assert(error_tags@.take(k) =~= pre_tags.take(k));
                            assert(error_tags@[k] == pre_tags[k]);
                        } else {
                            assert(error_tags@.take(k) =~= pre_tags);
                            assert(deq_pos(operations@, k) == j);
                        }
                    }
                    if old(relaxed_queue).empty_lin {
                        assert forall|i: int| 0 <= i < pre_q.shard_views().len() implies (
                        #[trigger] pre_q.shard_views()[i]).len() == 0 by {
                            assert(pre_q.shard_views()[i] == pre_q.subqueues@[i]@);
                        }
                        lemma_contents_all_empty(pre_q.shard_views());
                        assert(pre_alive.to_multiset().len() == 0);
                        assert(pre_alive.len() == 0);
                        assert(live == 0);
                    }
                    if old(relaxed_queue).subqueues@.len() == 1 {
                        let s = choose|s: Seq<usize>|
                            #![auto]
                            is_sample(pre_q, s) && dequeue_outcome(
                                pre_q,
                                *relaxed_queue,
                                dequeue_choice(pre_q, s) as int,
                                outcome,
                                sub_nbr,
                            );
                        let c = dequeue_choice(pre_q, s) as int;
                        assert(c == 0);
                        assert(pre_q.subqueues@[0]@.len() == 0);
                        assert forall|i: int| 0 <= i < pre_q.shard_views().len() implies (
                        #[trigger] pre_q.shard_views()[i]).len() == 0 by {
                            assert(pre_q.shard_views()[i] == pre_q.subqueues@[i]@);
                        }
                        lemma_contents_all_empty(pre_q.shard_views());
                        assert(pre_alive.to_multiset().len() == 0);
                        assert(pre_alive.len() == 0);
                        assert(live == 0);
                    }
                }
            }
        }
        j = j + 1;
    }
    proof {
        assert(operations@.take(operations@.len() as int) =~= operations@);
        lemma_contents_len(relaxed_queue.shard_views());
    }
    error_tags
}

} // verus!
