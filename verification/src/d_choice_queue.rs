use rand::rngs::StdRng;
use vstd::prelude::*;

use crate::relaxed_fifo::{
    contents, lemma_contents_all_empty, lemma_contents_pop,
    lemma_contents_push, lemma_sum_bounds_each, lemma_sum_update, sum_of, total_len, RelaxedFifo,
};
use crate::rng::rng_from_seed;
use crate::sampling::sample;
use crate::select::{argmax, argmin, pick_max, pick_min};
use crate::sub_queue::SubQueue;
use vstd::arithmetic::div_mod::{lemma_mod_add_multiples_vanish, lemma_small_mod};

verus! {

/// A configuration that the queue constructors reject.
#[derive(Clone, Copy, Debug, PartialEq, Eq, Structural)]
pub enum ConfigError {
    /// The queue must have at least one shard.
    ZeroShards,
    /// The sample size must satisfy `1 <= d <= n_shards`.
    InvalidSampleCount,
}

/// Single-threaded implementation of a d-choice relaxed queue.
pub struct DChoiceQueue<T> {
    /// The sub-queues.
    pub subqueues: Vec<SubQueue<T>>,
    /// How many subqueues to sample per operation.
    pub d: usize,
    /// If true, one draw cannot sample the same sub-queue several times.
    pub uniques: bool,
    /// If true, uses the operation-based heuristic, otherwise the
    /// length-based one.
    pub progress_heuristic: bool,
    /// If true, scans the remaining sub-queues cyclically when the chosen
    /// one turns out empty on dequeue.
    pub empty_lin: bool,
    /// The queue's own seedable random generator.
    pub rng: StdRng,
}

impl<T> DChoiceQueue<T> {
    pub open spec fn wf(self) -> bool {
        &&& self.subqueues@.len() >= 1
        &&& 1 <= self.d <= self.subqueues@.len()
        &&& forall|i: int| 0 <= i < self.subqueues@.len() ==> (#[trigger] self.subqueues@[i]).wf()
    }

    /// One sequence per shard: the items each sub-queue holds, oldest first.
    pub open spec fn shard_views(self) -> Seq<Seq<T>> {
        self.subqueues@.map_values(|q: SubQueue<T>| q@)
    }

    /// Per-shard enqueue counters.
    pub open spec fn tails(self) -> Seq<usize> {
        self.subqueues@.map_values(|q: SubQueue<T>| q.tail)
    }

    /// Per-shard dequeue counters.
    pub open spec fn heads(self) -> Seq<usize> {
        self.subqueues@.map_values(|q: SubQueue<T>| q.head)
    }

    /// Per-shard depths.
    pub open spec fn depths(self) -> Seq<usize> {
        self.subqueues@.map_values(|q: SubQueue<T>| (q.tail - q.head) as usize)
    }
}

/// The two queues agree on everything but their random generators: shard
/// counters and held items match.
pub open spec fn state_eq<T>(pre: DChoiceQueue<T>, post: DChoiceQueue<T>) -> bool {
    &&& config_eq(pre, post)
    &&& post.subqueues@.len() == pre.subqueues@.len()
    &&& forall|i: int|
        0 <= i < pre.subqueues@.len() ==> shard_eq(
            #[trigger] post.subqueues@[i],
            pre.subqueues@[i],
        )
}

pub open spec fn shard_eq<T>(a: SubQueue<T>, b: SubQueue<T>) -> bool {
    &&& a.head == b.head
    &&& a.tail == b.tail
    &&& a@ == b@
}

pub open spec fn config_eq<T>(pre: DChoiceQueue<T>, post: DChoiceQueue<T>) -> bool {
    &&& post.d == pre.d
    &&& post.uniques == pre.uniques
    &&& post.progress_heuristic == pre.progress_heuristic
    &&& post.empty_lin == pre.empty_lin
}

/// What `sample` can hand back for this queue's configuration.
pub open spec fn is_sample<T>(q: DChoiceQueue<T>, s: Seq<usize>) -> bool {
    &&& s.len() == q.d
    &&& forall|k: int| 0 <= k < s.len() ==> #[trigger] s[k] < q.subqueues@.len()
    &&& (q.uniques ==> forall|i: int, j: int| 0 <= i < j < s.len() ==> s[i] != s[j])
    &&& (q.uniques && q.d == q.subqueues@.len() ==> forall|v: usize|
        v < q.subqueues@.len() ==> s.contains(v))
}

/// The shard an enqueue settles on for a given sample: smallest tail under
/// the progress heuristic, smallest depth otherwise, lowest index on ties.
pub open spec fn enqueue_choice<T>(q: DChoiceQueue<T>, s: Seq<usize>) -> usize {
    if q.progress_heuristic {
        pick_min(q.tails(), s)
    } else {
        pick_min(q.depths(), s)
    }
}

/// The shard a dequeue first tries for a given sample: smallest head under
/// the progress heuristic, largest depth otherwise, lowest index on ties.
pub open spec fn dequeue_choice<T>(q: DChoiceQueue<T>, s: Seq<usize>) -> usize {
    if q.progress_heuristic {
        pick_min(q.heads(), s)
    } else {
        pick_max(q.depths(), s)
    }
}

/// `post` is `pre` with `item` appended to shard `c`: its tail counter
/// stepped, everything else untouched.
pub open spec fn enqueued_at<T>(
    pre: DChoiceQueue<T>,
    post: DChoiceQueue<T>,
    c: int,
    item: T,
) -> bool {
    &&& 0 <= c < pre.subqueues@.len()
    &&& config_eq(pre, post)
    &&& post.subqueues@.len() == pre.subqueues@.len()
    &&& post.subqueues@[c].head == pre.subqueues@[c].head
    &&& post.subqueues@[c].tail == pre.subqueues@[c].tail + 1
    &&& post.subqueues@[c]@ == pre.subqueues@[c]@.push(item)
    &&& forall|k: int|
        0 <= k < pre.subqueues@.len() && k != c ==> shard_eq(
            #[trigger] post.subqueues@[k],
            pre.subqueues@[k],
        )
}

/// `post` is `pre` with the front of non-empty shard `c` popped: its head
/// counter stepped, everything else untouched.
pub open spec fn dequeued_at<T>(pre: DChoiceQueue<T>, post: DChoiceQueue<T>, c: int) -> bool {
    &&& 0 <= c < pre.subqueues@.len()
    &&& pre.subqueues@[c]@.len() > 0
    &&& config_eq(pre, post)
    &&& post.subqueues@.len() == pre.subqueues@.len()
    &&& post.subqueues@[c].head == pre.subqueues@[c].head + 1
    &&& post.subqueues@[c].tail == pre.subqueues@[c].tail
    &&& post.subqueues@[c]@ == pre.subqueues@[c]@.drop_first()
    &&& forall|k: int|
        0 <= k < pre.subqueues@.len() && k != c ==> shard_eq(
            #[trigger] post.subqueues@[k],
            pre.subqueues@[k],
        )
}

/// The first offset `j` in `1..=k` (in cyclic order after `c`) at which the
/// views hold an item, or -1 when all those positions are empty.
pub open spec fn scan_hit<T>(views: Seq<Seq<T>>, c: int, k: int) -> int
    decreases k,
{
    if k <= 0 || views.len() == 0 {
        -1
    } else {
        let h = scan_hit(views, c, k - 1);
        if h >= 1 {
            h
        } else if views[(c + k) % (views.len() as int)].len() > 0 {
            k
        } else {
            -1
        }
    }
}

/// What one dequeue attempt does, given the shard `c` the heuristic chose:
/// pop `c` if it has an item; otherwise, with the fallback scan on, pop the
/// first non-empty shard in cyclic order after `c`; otherwise answer empty
/// and change nothing. The second component reports which shard served the
/// dequeue (the chosen shard, on an empty answer).
pub open spec fn dequeue_outcome<T>(
    pre: DChoiceQueue<T>,
    post: DChoiceQueue<T>,
    c: int,
    item: Option<T>,
    info: usize,
) -> bool {
    &&& 0 <= c < pre.subqueues@.len()
    &&& if pre.subqueues@[c]@.len() > 0 {
        &&& item == Some(pre.subqueues@[c]@[0])
        &&& dequeued_at(pre, post, c)
        &&& info as int == c
    } else if !pre.empty_lin {
        &&& item is None
        &&& state_eq(pre, post)
        &&& info as int == c
    } else {
        let h = scan_hit(pre.shard_views(), c, pre.subqueues@.len() - 1);
        if h >= 1 {
            let f = (c + h) % (pre.subqueues@.len() as int);
            &&& item == Some(pre.subqueues@[f]@[0])
            &&& dequeued_at(pre, post, f)
            &&& info as int == f
        } else {
            &&& item is None
            &&& state_eq(pre, post)
            &&& info as int == c
        }
    }
}

pub(crate) proof fn lemma_scan_hit_range<T>(views: Seq<Seq<T>>, c: int, k: int)
    ensures
        scan_hit(views, c, k) == -1 || 1 <= scan_hit(views, c, k) <= k,
        scan_hit(views, c, k) >= 1 && views.len() > 0 ==> views[(c + scan_hit(views, c, k)) % (
        views.len() as int)].len() > 0,
    decreases k,
{
    if k <= 0 || views.len() == 0 {
    } else {
        lemma_scan_hit_range(views, c, k - 1);
    }
}

pub(crate) proof fn lemma_scan_hit_extend<T>(views: Seq<Seq<T>>, c: int, k: int, k2: int)
    requires
        1 <= scan_hit(views, c, k),
        k <= k2,
    ensures
        scan_hit(views, c, k2) == scan_hit(views, c, k),
    decreases k2 - k,
{
    lemma_scan_hit_range(views, c, k);
    if k2 > k {
        lemma_scan_hit_extend(views, c, k, k2 - 1);
    }
}

pub(crate) proof fn lemma_scan_miss<T>(views: Seq<Seq<T>>, c: int, k: int)
    requires
        views.len() > 0,
        scan_hit(views, c, k) == -1,
    ensures
        forall|j: int| 1 <= j <= k ==> (#[trigger] views[(c + j) % (views.len() as int)]).len()
            == 0,
    decreases k,
{
    if k <= 0 {
    } else {
        lemma_scan_hit_range(views, c, k - 1);
        lemma_scan_miss(views, c, k - 1);
    }
}

pub(crate) proof fn lemma_scan_miss_all_empty<T>(views: Seq<Seq<T>>, c: int)
    requires
        views.len() >= 1,
        0 <= c < views.len(),
        views[c].len() == 0,
        scan_hit(views, c, views.len() - 1) == -1,
    ensures
        forall|i: int| 0 <= i < views.len() ==> (#[trigger] views[i]).len() == 0,
{
    let n = views.len() as int;
    lemma_scan_miss(views, c, n - 1);
    assert forall|i: int| 0 <= i < n implies (#[trigger] views[i]).len() == 0 by {
        if i != c {
            let j = if i > c {
                i - c
            } else {
                i + n - c
            };
            assert(1 <= j <= n - 1);
            if i > c {
                lemma_small_mod(i as nat, n as nat);
                assert((c + j) % n == i);
            } else {
                lemma_mod_add_multiples_vanish(i, n);
                lemma_small_mod(i as nat, n as nat);
                assert((c + j) % n == i);
            }
            assert(views[(c + j) % n].len() == 0);
        }
    }
}

impl<T> DChoiceQueue<T> {
    /// Builds a queue of `nbr_subqueues` empty shards with its own random
    /// generator seeded from `seed`. Configurations with no shard, or with a
    /// sample size outside `1..=nbr_subqueues`, are rejected.
    pub fn new(
        nbr_subqueues: usize,
        d: usize,
        uniques: bool,
        progress_heuristic: bool,
        empty_lin: bool,
        seed: u64,
    ) -> (r: Result<Self, ConfigError>)
        ensures
            r is Ok <==> (nbr_subqueues >= 1 && 1 <= d <= nbr_subqueues),
            nbr_subqueues == 0 ==> r == Err::<Self, ConfigError>(ConfigError::ZeroShards),
            nbr_subqueues >= 1 && !(1 <= d <= nbr_subqueues) ==> r == Err::<Self, ConfigError>(
                ConfigError::InvalidSampleCount,
            ),
            r is Ok ==> {
                let q = r->Ok_0;
                &&& q.wf()
                &&& q.subqueues@.len() == nbr_subqueues
                &&& q.d == d
                &&& q.uniques == uniques
                &&& q.progress_heuristic == progress_heuristic
                &&& q.empty_lin == empty_lin
                &&& sum_of(q.tails()) == 0
                &&& forall|i: int|
                    0 <= i < nbr_subqueues ==> (#[trigger] q.subqueues@[i]).head == 0
                        && q.subqueues@[i].tail == 0 && q.subqueues@[i]@.len() == 0
            },
    {
        if nbr_subqueues == 0 {
            return Err(ConfigError::ZeroShards);
        }
        if d == 0 || d > nbr_subqueues {
            return Err(ConfigError::InvalidSampleCount);
        }
        let mut subqueues: Vec<SubQueue<T>> = Vec::new();
        let mut i: usize = 0;
        while i < nbr_subqueues
            invariant
                i <= nbr_subqueues,
                subqueues@.len() == i,
                forall|k: int|
                    0 <= k < i ==> (#[trigger] subqueues@[k]).wf() && subqueues@[k].head == 0
                        && subqueues@[k].tail == 0 && subqueues@[k]@.len() == 0,
            decreases nbr_subqueues - i,
        {
            subqueues.push(SubQueue::new());
            i = i + 1;
        }
        let q = DChoiceQueue {
            subqueues,
            d,
            uniques,
            progress_heuristic,
            empty_lin,
            rng: rng_from_seed(seed),
        };
        proof {
            assert forall|k: int| 0 <= k < q.tails().len() implies #[trigger] q.tails()[k]
                == 0 by {
                assert(q.tails()[k] == q.subqueues@[k].tail);
            }
            crate::relaxed_fifo::lemma_sum_all_zero(q.tails());
        }
        Ok(q)
    }

    pub fn nbr_subqueues(&self) -> (n: usize)
        ensures
            n == self.subqueues@.len(),
    {
        self.subqueues.len()
    }

    /// Returns the number of enqueues done on each sub-queue.
    pub fn subqueue_enqueue_counts(&self) -> (r: Vec<usize>)
        ensures
            r@ == self.tails(),
    {
        let mut r: Vec<usize> = Vec::new();
        let mut i: usize = 0;
        while i < self.subqueues.len()
            invariant
                i <= self.subqueues@.len(),
                r@.len() == i,
                forall|k: int| 0 <= k < i ==> r@[k] == self.subqueues@[k].tail,
            decreases self.subqueues@.len() - i,
        {
            r.push(self.subqueues[i].tail);
            i = i + 1;
        }
        proof {
            assert(r@ =~= self.tails());
        }
        r
    }

    /// Returns the number of dequeues done on each sub-queue.
    pub fn subqueue_dequeue_counts(&self) -> (r: Vec<usize>)
        ensures
            r@ == self.heads(),
    {
        let mut r: Vec<usize> = Vec::new();
        let mut i: usize = 0;
        while i < self.subqueues.len()
            invariant
                i <= self.subqueues@.len(),
                r@.len() == i,
                forall|k: int| 0 <= k < i ==> r@[k] == self.subqueues@[k].head,
            decreases self.subqueues@.len() - i,
        {
            r.push(self.subqueues[i].head);
            i = i + 1;
        }
        proof {
            assert(r@ =~= self.heads());
        }
        r
    }

    /// Current depth of each sub-queue.
    fn depths_vec(&self) -> (r: Vec<usize>)
        requires
            self.wf(),
        ensures
            r@ == self.depths(),
    {
        let mut r: Vec<usize> = Vec::new();
        let mut i: usize = 0;
        while i < self.subqueues.len()
            invariant
                self.wf(),
                i <= self.subqueues@.len(),
                r@.len() == i,
                forall|k: int|
                    0 <= k < i ==> r@[k] == self.subqueues@[k].tail - self.subqueues@[k].head,
            decreases self.subqueues@.len() - i,
        {
            let q = &self.subqueues[i];
            r.push(q.tail - q.head);
            i = i + 1;
        }
        proof {
            assert(r@ =~= self.depths());
        }
        r
    }

    /// Enqueues an item into the queue: samples `d` shards, picks one by the
    /// configured heuristic and appends the item there.
    pub fn enqueue(&mut self, item: T)
        requires
            old(self).wf(),
            sum_of(old(self).tails()) < usize::MAX,
        ensures
            final(self).wf(),
            exists|s: Seq<usize>|
                #![auto]
                is_sample(*old(self), s) && enqueued_at(
                    *old(self),
                    *final(self),
                    enqueue_choice(*old(self), s) as int,
                    item,
                ),
            sum_of(final(self).tails()) == sum_of(old(self).tails()) + 1,
            final(self).heads() == old(self).heads(),
            contents(final(self).shard_views()) == contents(old(self).shard_views()).insert(item),
            total_len(final(self).shard_views()) == total_len(old(self).shard_views()) + 1,
            config_eq(*old(self), *final(self)),
            final(self).subqueues@.len() == old(self).subqueues@.len(),
    {
        let n = self.subqueues.len();
        let inds = sample(&mut self.rng, n, self.d, self.uniques);
        let c = if self.progress_heuristic {
            let keys = self.subqueue_enqueue_counts();
            argmin(&keys, &inds)
        } else {
            let keys = self.depths_vec();
            argmin(&keys, &inds)
        };
        proof {
            assert(c == enqueue_choice(*old(self), inds@));
            lemma_sum_bounds_each(old(self).tails(), c as int);
            assert(old(self).tails()[c as int] == old(self).subqueues@[c as int].tail);
        }
        let sq = &mut self.subqueues[c];
        sq.enqueue(item);
        proof {
            let pre = *old(self);
            assert(is_sample(pre, inds@));
            assert(enqueued_at(pre, *self, c as int, item));
            assert(self.tails() =~= pre.tails().update(c as int, (pre.tails()[c as int] + 1) as usize));
            lemma_sum_update(
                pre.tails(),
                c as int,
                (pre.tails()[c as int] + 1) as usize,
            );
            assert(self.heads() =~= pre.heads());
            assert(self.shard_views() =~= pre.shard_views().update(
                c as int,
                pre.shard_views()[c as int].push(item),
            ));
            lemma_contents_push(pre.shard_views(), c as int, item);
        }
    }

    /// As `dequeue`, but also returns the index of the sub-queue that
    /// served the dequeue (the heuristically chosen one, when the answer is
    /// empty).
    pub fn dequeue_with_info(&mut self) -> (r: (Option<T>, usize))
        requires
            old(self).wf(),
        ensures
            final(self).wf(),
            r.1 < old(self).subqueues@.len(),
            exists|s: Seq<usize>|
                #![auto]
                is_sample(*old(self), s) && dequeue_outcome(
                    *old(self),
                    *final(self),
                    dequeue_choice(*old(self), s) as int,
                    r.0,
                    r.1,
                ),
            r.0 is Some ==> exists|i: int|
                #![auto]
                dequeued_at(*old(self), *final(self), i) && r.0 == Some(
                    old(self).subqueues@[i]@[0],
                ),
            r.0 is Some ==> contents(old(self).shard_views()).count(r.0->0) > 0 && contents(
                final(self).shard_views(),
            ) == contents(old(self).shard_views()).remove(r.0->0) && total_len(
                final(self).shard_views(),
            ) == total_len(old(self).shard_views()) - 1,
            r.0 is None ==> state_eq(*old(self), *final(self)) && contents(
                final(self).shard_views(),
            ) == contents(old(self).shard_views()) && total_len(final(self).shard_views())
                == total_len(old(self).shard_views()),
            r.0 is None && old(self).empty_lin ==> forall|i: int|
                0 <= i < old(self).subqueues@.len() ==> (#[trigger] old(
                    self,
                ).subqueues@[i]@).len() == 0,
            final(self).tails() == old(self).tails(),
            config_eq(*old(self), *final(self)),
            final(self).subqueues@.len() == old(self).subqueues@.len(),
    {
        let n = self.subqueues.len();
        let inds = sample(&mut self.rng, n, self.d, self.uniques);
        let c = if self.progress_heuristic {
            let keys = self.subqueue_dequeue_counts();
            argmin(&keys, &inds)
        } else {
            let keys = self.depths_vec();
            argmax(&keys, &inds)
        };
        proof {
            assert(c == dequeue_choice(*old(self), inds@));
            assert(is_sample(*old(self), inds@));
        }
        let sq = &mut self.subqueues[c];
        let got = sq.dequeue();
        match got {
            Some(item) => {
                proof {
                    let pre = *old(self);
                    assert(dequeued_at(pre, *self, c as int));
                    assert(self.shard_views() =~= pre.shard_views().update(
                        c as int,
                        pre.shard_views()[c as int].drop_first(),
                    ));
                    lemma_contents_pop(pre.shard_views(), c as int);
                    assert(self.tails() =~= pre.tails());
                    assert(dequeue_outcome(pre, *self, c as int, Some(item), c));
                }
                (Some(item), c)
            },
            None => {
                proof {
                    let pre = *old(self);
                    assert(pre.subqueues@[c as int]@.len() == 0);
                    assert(state_eq(pre, *self));
                    assert(self.shard_views() =~= pre.shard_views());
                    assert(self.tails() =~= pre.tails());
                }
                if self.empty_lin {
                    let ghost pre = *old(self);
                    let ghost v0 = pre.shard_views();
                    let mut ind = c;
                    let mut step: usize = 0;
                    proof {
                        lemma_small_mod(c as nat, n as nat);
                        assert(ind as int == (c + step) % (n as int));
                    }
                    while step < n - 1
                        invariant
                            pre == *old(self),
                            v0 == pre.shard_views(),
                            pre.wf(),
                            n == pre.subqueues@.len(),
                            state_eq(pre, *self),
                            self.wf(),
                            self.subqueues@.len() == n,
                            0 <= c < n,
                            pre.subqueues@[c as int]@.len() == 0,
                            pre.empty_lin,
                            is_sample(pre, inds@),
                            c == dequeue_choice(pre, inds@),
                            0 <= step <= n - 1,
                            ind as int == (c + step) % (n as int),
                            ind < n,
                            scan_hit(v0, c as int, step as int) == -1,
                        decreases n - 1 - step,
                    {
                        proof {
                            lemma_small_mod(1nat, n as nat);
                            vstd::arithmetic::div_mod::lemma_add_mod_noop(
                                c + step,
                                1,
                                n as int,
                            );
                        }
                        ind = (ind + 1) % n;
                        step = step + 1;
                        proof {
                            assert(ind as int == (c + step) % (n as int));
                            vstd::arithmetic::div_mod::lemma_mod_bound(c + step, n as int);
                        }
                        let ln = self.subqueues[ind].len();
                        if ln > 0 {
                            proof {
                                assert(v0[ind as int].len() > 0) by {
                                    assert(shard_eq(self.subqueues@[ind as int], pre.subqueues@[ind as int]));
                                    assert(v0[ind as int] == pre.subqueues@[ind as int]@);
                                }
                                lemma_scan_hit_range(v0, c as int, step - 1);
                                assert(scan_hit(v0, c as int, step as int) == step);
                                lemma_scan_hit_extend(v0, c as int, step as int, n - 1);
                            }
                            let sq2 = &mut self.subqueues[ind];
                            let got2 = sq2.dequeue();
                            proof {
                                let f = ind as int;
                                assert(got2 == Some(pre.subqueues@[f]@[0]));
                                assert(dequeued_at(pre, *self, f));
                                assert(self.shard_views() =~= pre.shard_views().update(
                                    f,
                                    pre.shard_views()[f].drop_first(),
                                ));
                                lemma_contents_pop(pre.shard_views(), f);
                                assert(self.tails() =~= pre.tails());
                                assert(dequeue_outcome(pre, *self, c as int, got2, ind));
                            }
                            return (got2, ind);
                        }
                        proof {
                            assert(v0[ind as int].len() == 0) by {
                                assert(shard_eq(self.subqueues@[ind as int], pre.subqueues@[ind as int]));
                                assert(v0[ind as int] == pre.subqueues@[ind as int]@);
                            }
                            lemma_scan_hit_range(v0, c as int, step - 1);
                            assert(scan_hit(v0, c as int, step as int) == -1);
                        }
                    }
                    proof {
                        lemma_scan_hit_range(v0, c as int, n - 1);
                        assert(v0[c as int].len() == 0);
                        lemma_scan_miss_all_empty(v0, c as int);
                        lemma_contents_all_empty(v0);
                        assert(self.shard_views() =~= v0);
                        assert forall|i: int| 0 <= i < n implies (#[trigger] pre.subqueues@[i]@).len()
                            == 0 by {
                            assert(v0[i] == pre.subqueues@[i]@);
                        }
                        assert(dequeue_outcome(pre, *self, c as int, None::<T>, c));
                    }
                    (None, c)
                } else {
                    proof {
                        let pre = *old(self);
                        assert(dequeue_outcome(pre, *self, c as int, None::<T>, c));
                    }
                    (None, c)
                }
            },
        }
    }

    /// Dequeues an item: samples `d` shards, tries the one the heuristic
    /// picks, and — when configured — falls back to a cyclic scan of the
    /// remaining shards before answering empty.
    pub fn dequeue(&mut self) -> (r: Option<T>)
        requires
            old(self).wf(),
        ensures
            final(self).wf(),
            exists|s: Seq<usize>, info: usize|
                #![auto]
                is_sample(*old(self), s) && dequeue_outcome(
                    *old(self),
                    *final(self),
                    dequeue_choice(*old(self), s) as int,
                    r,
                    info,
                ),
            r is Some ==> exists|i: int|
                #![auto]
                dequeued_at(*old(self), *final(self), i) && r == Some(
                    old(self).subqueues@[i]@[0],
                ),
            r is Some ==> contents(old(self).shard_views()).count(r->0) > 0 && contents(
                final(self).shard_views(),
            ) == contents(old(self).shard_views()).remove(r->0) && total_len(
                final(self).shard_views(),
            ) == total_len(old(self).shard_views()) - 1,
            r is None ==> state_eq(*old(self), *final(self)) && contents(
                final(self).shard_views(),
            ) == contents(old(self).shard_views()) && total_len(final(self).shard_views())
                == total_len(old(self).shard_views()),
            r is None && old(self).empty_lin ==> forall|i: int|
                0 <= i < old(self).subqueues@.len() ==> (#[trigger] old(
                    self,
                ).subqueues@[i]@).len() == 0,
            final(self).tails() == old(self).tails(),
            config_eq(*old(self), *final(self)),
            final(self).subqueues@.len() == old(self).subqueues@.len(),
    {
        let r = self.dequeue_with_info();
        proof {
            let s = choose|s: Seq<usize>|
                #![auto]
                is_sample(*old(self), s) && dequeue_outcome(
                    *old(self),
                    *self,
                    dequeue_choice(*old(self), s) as int,
                    r.0,
                    r.1,
                );
            assert(is_sample(*old(self), s) && dequeue_outcome(
                *old(self),
                *self,
                dequeue_choice(*old(self), s) as int,
                r.0,
                r.1,
            ));
        }
        r.0
    }
}

impl<T> RelaxedFifo<T> for DChoiceQueue<T> {
    open spec fn inv(&self) -> bool {
        self.wf()
    }

    open spec fn views(&self) -> Seq<Seq<T>> {
        self.shard_views()
    }

    open spec fn enq_count(&self) -> int {
        sum_of(self.tails())
    }

    open spec fn complete(&self) -> bool {
        self.empty_lin
    }

    fn enqueue(&mut self, item: T) {
        self.enqueue(item);
        proof {
            let pre = *old(self);
            let s = choose|s: Seq<usize>|
                #![auto]
                is_sample(pre, s) && enqueued_at(pre, *self, enqueue_choice(pre, s) as int, item);
            let c = enqueue_choice(pre, s) as int;
            assert(self.shard_views() =~= pre.shard_views().update(
                c,
                pre.shard_views()[c].push(item),
            ));
        }
    }

    #[verifier::rlimit(50)]
    #[verifier::spinoff_prover]
    fn dequeue(&mut self) -> (r: Option<T>) {
        let r = self.dequeue();
        proof {
            let pre = *old(self);
            if r is Some {
                let i = choose|i: int|
                    #![auto]
                    dequeued_at(pre, *self, i) && r == Some(pre.subqueues@[i]@[0]);
                assert(self.shard_views() =~= pre.shard_views().update(
                    i,
                    pre.shard_views()[i].drop_first(),
                ));
                assert(pre.shard_views()[i].len() > 0);
                assert(pre.shard_views()[i][0] == pre.subqueues@[i]@[0]);
                assert(exists|i: int|
                    #![auto]
                    0 <= i < pre.shard_views().len() && pre.shard_views()[i].len() > 0 && r
                        == Some(pre.shard_views()[i][0]) && self.shard_views()
                        == pre.shard_views().update(i, pre.shard_views()[i].drop_first()));
            } else {
                assert(self.shard_views() =~= pre.shard_views());
                let (s, info) = choose|s: Seq<usize>, info: usize|
                    #![auto]
                    is_sample(pre, s) && dequeue_outcome(
                        pre,
                        *self,
                        dequeue_choice(pre, s) as int,
                        r,
                        info,
                    );
                let c = dequeue_choice(pre, s) as int;
                assert(pre.shard_views()[c].len() == 0) by {
                    assert(pre.shard_views()[c] == pre.subqueues@[c]@);
                }
                assert(pre.views() == pre.shard_views());
                assert(0 <= c < pre.views().len() && pre.views()[c].len() == 0);
                assert(exists|i: int|
                    0 <= i < pre.views().len() && (#[trigger] pre.views()[i]).len() == 0);
                if pre.empty_lin {
                    assert forall|i: int| 0 <= i < pre.shard_views().len() implies (
                    #[trigger] pre.shard_views()[i]).len() == 0 by {
                        assert(pre.shard_views()[i] == pre.subqueues@[i]@);
                    }
                }
            }
        }
        r
    }
}

} // verus!
