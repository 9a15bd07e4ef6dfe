use rand::rngs::StdRng;
use std::collections::VecDeque;
use vstd::prelude::*;

use crate::d_choice_queue::{
    lemma_scan_hit_extend, lemma_scan_hit_range, lemma_scan_miss_all_empty, scan_hit, ConfigError,
};
use crate::relaxed_fifo::{
    contents, lemma_contents_all_empty, lemma_contents_pop, lemma_contents_push,
    lemma_sum_bounds_each, lemma_sum_update, sum_of, total_len, RelaxedFifo,
};
use crate::rng::rng_from_seed;
use crate::sampling::sample;
use crate::select::{argmax, argmin, pick_max, pick_min};
use vstd::arithmetic::div_mod::lemma_small_mod;

verus! {

/// One partial FIFO queue of a d-Ra, with its monotonic operation counters.
pub struct Partial<T> {
    /// Number of successful dequeues served by this partial.
    pub head: usize,
    /// Number of enqueues this partial has received.
    pub tail: usize,
    /// The items currently held, oldest first.
    pub fifo: VecDeque<T>,
}

impl<T> View for Partial<T> {
    type V = Seq<T>;

    open spec fn view(&self) -> Seq<T> {
        self.fifo@
    }
}

impl<T> Partial<T> {
    /// The counters are consistent with the items held.
    pub open spec fn wf(self) -> bool {
        &&& self.head <= self.tail
        &&& self.tail - self.head == self@.len()
    }

    pub fn new() -> (q: Self)
        ensures
            q.wf(),
            q.head == 0,
            q.tail == 0,
            q@ == Seq::<T>::empty(),
    {
        Partial { head: 0, tail: 0, fifo: VecDeque::new() }
    }

    pub fn enqueue(&mut self, item: T)
        requires
            old(self).wf(),
            old(self).tail < usize::MAX,
        ensures
            final(self).wf(),
            final(self).head == old(self).head,
            final(self).tail == old(self).tail + 1,
            final(self)@ == old(self)@.push(item),
    {
        self.tail = self.tail + 1;
        self.fifo.push_back(item);
    }

    pub fn dequeue(&mut self) -> (r: Option<T>)
        requires
            old(self).wf(),
        ensures
            final(self).wf(),
            final(self).tail == old(self).tail,
            old(self)@.len() == 0 ==> {
                &&& r is None
                &&& final(self).head == old(self).head
                &&& final(self)@ == old(self)@
            },
            old(self)@.len() > 0 ==> {
                &&& r == Some(old(self)@[0])
                &&& final(self).head == old(self).head + 1
                &&& final(self)@ == old(self)@.drop_first()
            },
    {
        let ret = self.fifo.pop_front();
        if ret.is_some() {
            self.head = self.head + 1;
        }
        ret
    }

    pub fn len(&self) -> (n: usize)
        requires
            self.wf(),
        ensures
            n == self@.len(),
            n == self.tail - self.head,
    {
        self.fifo.len()
    }
}

/// Single-threaded implementation of d-Ra.
pub struct DRa<T> {
    /// The partial queues.
    pub partials: Vec<Partial<T>>,
    /// How many partials to sample per operation.
    pub d: usize,
    /// If true, one draw cannot sample the same partial several times.
    pub uniques: bool,
    /// If true, uses the progress-based heuristic, otherwise the
    /// length-based one.
    pub progress_heuristic: bool,
    /// If true, scans the remaining partials cyclically when the chosen one
    /// turns out empty on dequeue.
    pub empty_lin: bool,
    /// The queue's own seedable random generator.
    pub rng: StdRng,
}

impl<T> DRa<T> {
    pub open spec fn wf(self) -> bool {
        &&& self.partials@.len() >= 1
        &&& 1 <= self.d <= self.partials@.len()
        &&& forall|i: int| 0 <= i < self.partials@.len() ==> (#[trigger] self.partials@[i]).wf()
    }

    /// One sequence per partial: the items it holds, oldest first.
    pub open spec fn shard_views(self) -> Seq<Seq<T>> {
        self.partials@.map_values(|q: Partial<T>| q@)
    }

    /// Per-partial enqueue counters.
    pub open spec fn tails(self) -> Seq<usize> {
        self.partials@.map_values(|q: Partial<T>| q.tail)
    }

    /// Per-partial dequeue counters.
    pub open spec fn heads(self) -> Seq<usize> {
        self.partials@.map_values(|q: Partial<T>| q.head)
    }

    /// Per-partial depths.
    pub open spec fn depths(self) -> Seq<usize> {
        self.partials@.map_values(|q: Partial<T>| (q.tail - q.head) as usize)
    }
}

pub open spec fn shard_eq<T>(a: Partial<T>, b: Partial<T>) -> bool {
    &&& a.head == b.head
    &&& a.tail == b.tail
    &&& a@ == b@
}

pub open spec fn config_eq<T>(pre: DRa<T>, post: DRa<T>) -> bool {
    &&& post.d == pre.d
    &&& post.uniques == pre.uniques
    &&& post.progress_heuristic == pre.progress_heuristic
    &&& post.empty_lin == pre.empty_lin
}

/// The two queues agree on everything but their random generators: partial
/// counters and held items match.
pub open spec fn state_eq<T>(pre: DRa<T>, post: DRa<T>) -> bool {
    &&& config_eq(pre, post)
    &&& post.partials@.len() == pre.partials@.len()
    &&& forall|i: int|
        0 <= i < pre.partials@.len() ==> shard_eq(#[trigger] post.partials@[i], pre.partials@[i])
}

/// What `sample` can hand back for this queue's configuration.
pub open spec fn is_sample<T>(q: DRa<T>, s: Seq<usize>) -> bool {
    &&& s.len() == q.d
    &&& forall|k: int| 0 <= k < s.len() ==> #[trigger] s[k] < q.partials@.len()
    &&& (q.uniques ==> forall|i: int, j: int| 0 <= i < j < s.len() ==> s[i] != s[j])
    &&& (q.uniques && q.d == q.partials@.len() ==> forall|v: usize|
        v < q.partials@.len() ==> s.contains(v))
}

/// The partial an enqueue settles on for a given sample.
pub open spec fn enqueue_choice<T>(q: DRa<T>, s: Seq<usize>) -> usize {
    if q.progress_heuristic {
        pick_min(q.tails(), s)
    } else {
        pick_min(q.depths(), s)
    }
}

/// The partial a dequeue first tries for a given sample.
pub open spec fn dequeue_choice<T>(q: DRa<T>, s: Seq<usize>) -> usize {
    if q.progress_heuristic {
        pick_min(q.heads(), s)
    } else {
        pick_max(q.depths(), s)
    }
}

/// `post` is `pre` with `item` appended to partial `c`.
pub open spec fn enqueued_at<T>(pre: DRa<T>, post: DRa<T>, c: int, item: T) -> bool {
    &&& 0 <= c < pre.partials@.len()
    &&& config_eq(pre, post)
    &&& post.partials@.len() == pre.partials@.len()
    &&& post.partials@[c].head == pre.partials@[c].head
    &&& post.partials@[c].tail == pre.partials@[c].tail + 1
    &&& post.partials@[c]@ == pre.partials@[c]@.push(item)
    &&& forall|k: int|
        0 <= k < pre.partials@.len() && k != c ==> shard_eq(
            #[trigger] post.partials@[k],
            pre.partials@[k],
        )
}

/// `post` is `pre` with the front of non-empty partial `c` popped.
pub open spec fn dequeued_at<T>(pre: DRa<T>, post: DRa<T>, c: int) -> bool {
    &&& 0 <= c < pre.partials@.len()
    &&& pre.partials@[c]@.len() > 0
    &&& config_eq(pre, post)
    &&& post.partials@.len() == pre.partials@.len()
    &&& post.partials@[c].head == pre.partials@[c].head + 1
    &&& post.partials@[c].tail == pre.partials@[c].tail
    &&& post.partials@[c]@ == pre.partials@[c]@.drop_first()
    &&& forall|k: int|
        0 <= k < pre.partials@.len() && k != c ==> shard_eq(
            #[trigger] post.partials@[k],
            pre.partials@[k],
        )
}

/// What one dequeue attempt does, given the partial `c` the heuristic chose.
pub open spec fn dequeue_step<T>(pre: DRa<T>, post: DRa<T>, c: int, item: Option<T>) -> bool {
    &&& 0 <= c < pre.partials@.len()
    &&& if pre.partials@[c]@.len() > 0 {
        &&& item == Some(pre.partials@[c]@[0])
        &&& dequeued_at(pre, post, c)
    } else if !pre.empty_lin {
        &&& item is None
        &&& state_eq(pre, post)
    } else {
        let h = scan_hit(pre.shard_views(), c, pre.partials@.len() - 1);
        if h >= 1 {
            let f = (c + h) % (pre.partials@.len() as int);
            &&& item == Some(pre.partials@[f]@[0])
            &&& dequeued_at(pre, post, f)
        } else {
            &&& item is None
            &&& state_eq(pre, post)
        }
    }
}

impl<T> DRa<T> {
    /// Builds a d-Ra of `nbr_partials` empty partial queues with its own
    /// random generator seeded from `seed`. Configurations with no partial,
    /// or with a sample size outside `1..=nbr_partials`, are rejected.
    pub fn new(
        nbr_partials: usize,
        d: usize,
        uniques: bool,
        progress_heuristic: bool,
        empty_lin: bool,
        seed: u64,
    ) -> (r: Result<Self, ConfigError>)
        ensures
            r is Ok <==> (nbr_partials >= 1 && 1 <= d <= nbr_partials),
            nbr_partials == 0 ==> r == Err::<Self, ConfigError>(ConfigError::ZeroShards),
            nbr_partials >= 1 && !(1 <= d <= nbr_partials) ==> r == Err::<Self, ConfigError>(
                ConfigError::InvalidSampleCount,
            ),
            r is Ok ==> {
                let q = r->Ok_0;
                &&& q.wf()
                &&& q.partials@.len() == nbr_partials
                &&& q.d == d
                &&& q.uniques == uniques
                &&& q.progress_heuristic == progress_heuristic
                &&& q.empty_lin == empty_lin
                &&& sum_of(q.tails()) == 0
                &&& forall|i: int|
                    0 <= i < nbr_partials ==> (#[trigger] q.partials@[i]).head == 0
                        && q.partials@[i].tail == 0 && q.partials@[i]@.len() == 0
            },
    {
        if nbr_partials == 0 {
            return Err(ConfigError::ZeroShards);
        }
        if d == 0 || d > nbr_partials {
            return Err(ConfigError::InvalidSampleCount);
        }
        let mut partials: Vec<Partial<T>> = Vec::new();
        let mut i: usize = 0;
        while i < nbr_partials
            invariant
                i <= nbr_partials,
                partials@.len() == i,
                forall|k: int|
                    0 <= k < i ==> (#[trigger] partials@[k]).wf() && partials@[k].head == 0
                        && partials@[k].tail == 0 && partials@[k]@.len() == 0,
            decreases nbr_partials - i,
        {
            partials.push(Partial::new());
            i = i + 1;
        }
        let q = DRa { partials, d, uniques, progress_heuristic, empty_lin, rng: rng_from_seed(seed) };
        proof {
            assert forall|k: int| 0 <= k < q.tails().len() implies #[trigger] q.tails()[k]
                == 0 by {
                assert(q.tails()[k] == q.partials@[k].tail);
            }
            crate::relaxed_fifo::lemma_sum_all_zero(q.tails());
        }
        Ok(q)
    }

    /// Current enqueue counter of each partial.
    fn tails_vec(&self) -> (r: Vec<usize>)
        ensures
            r@ == self.tails(),
    {
        let mut r: Vec<usize> = Vec::new();
        let mut i: usize = 0;
        while i < self.partials.len()
            invariant
                i <= self.partials@.len(),
                r@.len() == i,
                forall|k: int| 0 <= k < i ==> r@[k] == self.partials@[k].tail,
            decreases self.partials@.len() - i,
        {
            r.push(self.partials[i].tail);
            i = i + 1;
        }
        proof {
            assert(r@ =~= self.tails());
        }
        r
    }

    /// Current dequeue counter of each partial.
    fn heads_vec(&self) -> (r: Vec<usize>)
        ensures
            r@ == self.heads(),
    {
        let mut r: Vec<usize> = Vec::new();
        let mut i: usize = 0;
        while i < self.partials.len()
            invariant
                i <= self.partials@.len(),
                r@.len() == i,
                forall|k: int| 0 <= k < i ==> r@[k] == self.partials@[k].head,
            decreases self.partials@.len() - i,
        {
            r.push(self.partials[i].head);
            i = i + 1;
        }
        proof {
            assert(r@ =~= self.heads());
        }
        r
    }

    /// Current depth of each partial.
    fn depths_vec(&self) -> (r: Vec<usize>)
        requires
            self.wf(),
        ensures
            r@ == self.depths(),
    {
        let mut r: Vec<usize> = Vec::new();
        let mut i: usize = 0;
        while i < self.partials.len()
            invariant
                self.wf(),
                i <= self.partials@.len(),
                r@.len() == i,
                forall|k: int|
                    0 <= k < i ==> r@[k] == self.partials@[k].tail - self.partials@[k].head,
            decreases self.partials@.len() - i,
        {
            let q = &self.partials[i];
            r.push(q.tail - q.head);
            i = i + 1;
        }
        proof {
            assert(r@ =~= self.depths());
        }
        r
    }

    /// Enqueues an item into the d-Ra: samples `d` partials, picks one by
    /// the configured heuristic and appends the item there.
    pub fn enqueue(&mut self, item: T)
        requires
            old(self).wf(),
            sum_of(old(self).tails()) < usize::MAX,
        ensures
            final(self).wf(),
            exists|s: Seq<usize>|
                #![auto]
                is_sample(*old(self), s) && enqueued_at(
                    *old(self),
                    *final(self),
                    enqueue_choice(*old(self), s) as int,
                    item,
                ),
            sum_of(final(self).tails()) == sum_of(old(self).tails()) + 1,
            final(self).heads() == old(self).heads(),
            contents(final(self).shard_views()) == contents(old(self).shard_views()).insert(item),
            total_len(final(self).shard_views()) == total_len(old(self).shard_views()) + 1,
            config_eq(*old(self), *final(self)),
            final(self).partials@.len() == old(self).partials@.len(),
    {
        let n = self.partials.len();
        let inds = sample(&mut self.rng, n, self.d, self.uniques);
        let c = if self.progress_heuristic {
            let keys = self.tails_vec();
            argmin(&keys, &inds)
        } else {
            let keys = self.depths_vec();
            argmin(&keys, &inds)
        };
        proof {
            assert(c == enqueue_choice(*old(self), inds@));
            lemma_sum_bounds_each(old(self).tails(), c as int);
            assert(old(self).tails()[c as int] == old(self).partials@[c as int].tail);
        }
        let sq = &mut self.partials[c];
        sq.enqueue(item);
        proof {
            let pre = *old(self);
            assert(is_sample(pre, inds@));
            assert(enqueued_at(pre, *self, c as int, item));
            assert(self.tails() =~= pre.tails().update(
                c as int,
                (pre.tails()[c as int] + 1) as usize,
            ));
            lemma_sum_update(pre.tails(), c as int, (pre.tails()[c as int] + 1) as usize);
            assert(self.heads() =~= pre.heads());
            assert(self.shard_views() =~= pre.shard_views().update(
                c as int,
                pre.shard_views()[c as int].push(item),
            ));
            lemma_contents_push(pre.shard_views(), c as int, item);
        }
    }

    /// Dequeues an item: samples `d` partials, tries the one the heuristic
    /// picks, and — when configured — falls back to a cyclic scan of the
    /// remaining partials before answering empty.
    pub fn dequeue(&mut self) -> (r: Option<T>)
        requires
            old(self).wf(),
        ensures
            final(self).wf(),
            exists|s: Seq<usize>|
                #![auto]
                is_sample(*old(self), s) && dequeue_step(
                    *old(self),
                    *final(self),
                    dequeue_choice(*old(self), s) as int,
                    r,
                ),
            r is Some ==> exists|i: int|
                #![auto]
                dequeued_at(*old(self), *final(self), i) && r == Some(old(self).partials@[i]@[0]),
            r is Some ==> contents(old(self).shard_views()).count(r->0) > 0 && contents(
                final(self).shard_views(),
            ) == contents(old(self).shard_views()).remove(r->0) && total_len(
                final(self).shard_views(),
            ) == total_len(old(self).shard_views()) - 1,
            r is None ==> state_eq(*old(self), *final(self)) && contents(
                final(self).shard_views(),
            ) == contents(old(self).shard_views()) && total_len(final(self).shard_views())
                == total_len(old(self).shard_views()),
            r is None && old(self).empty_lin ==> forall|i: int|
                0 <= i < old(self).partials@.len() ==> (#[trigger] old(
                    self,
                ).partials@[i]@).len() == 0,
            final(self).tails() == old(self).tails(),
            config_eq(*old(self), *final(self)),
            final(self).partials@.len() == old(self).partials@.len(),
    {
        let n = self.partials.len();
        let inds = sample(&mut self.rng, n, self.d, self.uniques);
        let c = if self.progress_heuristic {
            let keys = self.heads_vec();
            argmin(&keys, &inds)
        } else {
            let keys = self.depths_vec();
            argmax(&keys, &inds)
        };
        proof {
            assert(c == dequeue_choice(*old(self), inds@));
            assert(is_sample(*old(self), inds@));
        }
        let sq = &mut self.partials[c];
        let got = sq.dequeue();
        match got {
            Some(item) => {
                proof {
                    let pre = *old(self);
                    assert(dequeued_at(pre, *self, c as int));
                    assert(self.shard_views() =~= pre.shard_views().update(
                        c as int,
                        pre.shard_views()[c as int].drop_first(),
                    ));
                    lemma_contents_pop(pre.shard_views(), c as int);
                    assert(self.tails() =~= pre.tails());
                    assert(dequeue_step(pre, *self, c as int, Some(item)));
                }
                Some(item)
            },
            None => {
                proof {
                    let pre = *old(self);
                    assert(pre.partials@[c as int]@.len() == 0);
                    assert(state_eq(pre, *self));
                    assert(self.shard_views() =~= pre.shard_views());
                    assert(self.tails() =~= pre.tails());
                }
                if self.empty_lin {
                    let ghost pre = *old(self);
                    let ghost v0 = pre.shard_views();
                    let mut ind = c;
                    let mut step: usize = 0;
                    proof {
                        lemma_small_mod(c as nat, n as nat);
                        assert(ind as int == (c + step) % (n as int));
                    }
                    while step < n - 1
                        invariant
                            pre == *old(self),
                            v0 == pre.shard_views(),
                            pre.wf(),
                            n == pre.partials@.len(),
                            state_eq(pre, *self),
                            self.wf(),
                            self.partials@.len() == n,
                            0 <= c < n,
                            pre.partials@[c as int]@.len() == 0,
                            pre.empty_lin,
                            is_sample(pre, inds@),
                            c == dequeue_choice(pre, inds@),
                            0 <= step <= n - 1,
                            ind as int == (c + step) % (n as int),
                            ind < n,
                            scan_hit(v0, c as int, step as int) == -1,
                        decreases n - 1 - step,
                    {
                        proof {
                            lemma_small_mod(1nat, n as nat);
                            vstd::arithmetic::div_mod::lemma_add_mod_noop(c + step, 1, n as int);
                        }
                        ind = (ind + 1) % n;
                        step = step + 1;
                        proof {
                            assert(ind as int == (c + step) % (n as int));
                            vstd::arithmetic::div_mod::lemma_mod_bound(c + step, n as int);
                        }
                        let ln = self.partials[ind].len();
                        if ln > 0 {
                            proof {
                                assert(v0[ind as int].len() > 0) by {
                                    assert(shard_eq(
                                        self.partials@[ind as int],
                                        pre.partials@[ind as int],
                                    ));
                                    assert(v0[ind as int] == pre.partials@[ind as int]@);
                                }
                                lemma_scan_hit_range(v0, c as int, step - 1);
                                assert(scan_hit(v0, c as int, step as int) == step);
                                lemma_scan_hit_extend(v0, c as int, step as int, n - 1);
                            }
                            let sq2 = &mut self.partials[ind];
                            let got2 = sq2.dequeue();
                            proof {
                                let f = ind as int;
                                assert(got2 == Some(pre.partials@[f]@[0]));
                                assert(dequeued_at(pre, *self, f));
                                assert(self.shard_views() =~= pre.shard_views().update(
                                    f,
                                    pre.shard_views()[f].drop_first(),
                                ));
                                lemma_contents_pop(pre.shard_views(), f);
                                assert(self.tails() =~= pre.tails());
                                assert(dequeue_step(pre, *self, c as int, got2));
                            }
                            return got2;
                        }
                        proof {
                            assert(v0[ind as int].len() == 0) by {
                                assert(shard_eq(
                                    self.partials@[ind as int],
                                    pre.partials@[ind as int],
                                ));
                                assert(v0[ind as int] == pre.partials@[ind as int]@);
                            }
                            lemma_scan_hit_range(v0, c as int, step - 1);
                            assert(scan_hit(v0, c as int, step as int) == -1);
                        }
                    }
                    proof {
                        lemma_scan_hit_range(v0, c as int, n - 1);
                        assert(v0[c as int].len() == 0);
                        lemma_scan_miss_all_empty(v0, c as int);
                        lemma_contents_all_empty(v0);
                        assert(self.shard_views() =~= v0);
                        assert forall|i: int| 0 <= i < n implies (#[trigger] pre.partials@[i]@).len()
                            == 0 by {
                            assert(v0[i] == pre.partials@[i]@);
                        }
                        assert(dequeue_step(pre, *self, c as int, None::<T>));
                    }
                    None
                } else {
                    proof {
                        let pre = *old(self);
                        assert(dequeue_step(pre, *self, c as int, None::<T>));
                    }
                    None
                }
            },
        }
    }
}

impl<T> RelaxedFifo<T> for DRa<T> {
    open spec fn inv(&self) -> bool {
        self.wf()
    }

    open spec fn views(&self) -> Seq<Seq<T>> {
        self.shard_views()
    }

    open spec fn enq_count(&self) -> int {
        sum_of(self.tails())
    }

    open spec fn complete(&self) -> bool {
        self.empty_lin
    }

    fn enqueue(&mut self, item: T) {
        self.enqueue(item);
        proof {
            let pre = *old(self);
            let s = choose|s: Seq<usize>|
                #![auto]
                is_sample(pre, s) && enqueued_at(pre, *self, enqueue_choice(pre, s) as int, item);
            let c = enqueue_choice(pre, s) as int;
            assert(self.shard_views() =~= pre.shard_views().update(
                c,
                pre.shard_views()[c].push(item),
            ));
        }
    }

    #[verifier::rlimit(50)]
    fn dequeue(&mut self) -> (r: Option<T>) {
        let r = self.dequeue();
        proof {
            let pre = *old(self);
            if r is Some {
                let i = choose|i: int|
                    #![auto]
                    dequeued_at(pre, *self, i) && r == Some(pre.partials@[i]@[0]);
                assert(self.shard_views() =~= pre.shard_views().update(
                    i,
                    pre.shard_views()[i].drop_first(),
                ));
                assert(pre.shard_views()[i].len() > 0);
                assert(pre.shard_views()[i][0] == pre.partials@[i]@[0]);
                assert(exists|i: int|
                    #![auto]
                    0 <= i < pre.shard_views().len() && pre.shard_views()[i].len() > 0 && r == Some(
                        pre.shard_views()[i][0],
                    ) && self.shard_views() == pre.shard_views().update(
                        i,
                        pre.shard_views()[i].drop_first(),
                    ));
            } else {
                assert(self.shard_views() =~= pre.shard_views());
                let s = choose|s: Seq<usize>|
                    #![auto]
                    is_sample(pre, s) && dequeue_step(
                        pre,
                        *self,
                        dequeue_choice(pre, s) as int,
                        r,
                    );
                let c = dequeue_choice(pre, s) as int;
                assert(pre.shard_views()[c].len() == 0) by {
                    assert(pre.shard_views()[c] == pre.partials@[c]@);
                }
                assert(exists|i: int|
                    0 <= i < pre.shard_views().len() && (#[trigger] pre.shard_views()[i]).len()
                        == 0);
                if pre.empty_lin {
                    assert forall|i: int| 0 <= i < pre.shard_views().len() implies (
                    #[trigger] pre.shard_views()[i]).len() == 0 by {
                        assert(pre.shard_views()[i] == pre.partials@[i]@);
                    }
                }
            }
        }
        r
    }
}

} // verus!
