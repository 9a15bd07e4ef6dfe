use vstd::prelude::*;

verus! {

/// The ids of all entries, in order, tombstoned or not.
pub open spec fn ids_of(s: Seq<(usize, bool)>) -> Seq<usize> {
    s.map_values(|e: (usize, bool)| e.0)
}

/// The ids of the still-alive entries, in order: the strict reference order
/// of the items that are still outstanding.
pub open spec fn alive_ids(s: Seq<(usize, bool)>) -> Seq<usize>
    decreases s.len(),
{
    if s.len() == 0 {
        Seq::empty()
    } else if s[0].1 {
        seq![s[0].0] + alive_ids(s.drop_first())
    } else {
        alive_ids(s.drop_first())
    }
}

/// How many of the first `j` entries are alive.
pub open spec fn rank_before(s: Seq<(usize, bool)>, j: int) -> int
    decreases j,
{
    if j <= 0 || s.len() == 0 {
        0
    } else {
        (if s[0].1 {
            1int
        } else {
            0
        }) + rank_before(s.drop_first(), j - 1)
    }
}

/// The first index whose id equals `id`, or -1 when no entry matches.
pub open spec fn find_id(s: Seq<(usize, bool)>, id: usize) -> int
    decreases s.len(),
{
    if s.len() == 0 {
        -1
    } else if s[0].0 == id {
        0
    } else {
        let r = find_id(s.drop_first(), id);
        if r < 0 {
            -1
        } else {
            r + 1
        }
    }
}

proof fn lemma_alive_push(s: Seq<(usize, bool)>, e: (usize, bool))
    ensures
        alive_ids(s.push(e)) == if e.1 {
            alive_ids(s).push(e.0)
        } else {
            alive_ids(s)
        },
    decreases s.len(),
{
    reveal_with_fuel(alive_ids, 3);
    if s.len() == 0 {
        assert(s.push(e).drop_first() =~= Seq::<(usize, bool)>::empty());
        assert(s.push(e)[0] == e);
        if e.1 {
            assert(alive_ids(s.push(e)) =~= alive_ids(s).push(e.0));
        }
    } else {
        lemma_alive_push(s.drop_first(), e);
        assert(s.push(e).drop_first() =~= s.drop_first().push(e));
        assert(s.push(e)[0] == s[0]);
        if s[0].1 && e.1 {
            assert(seq![s[0].0] + alive_ids(s.drop_first()).push(e.0) =~= (seq![s[0].0]
                + alive_ids(s.drop_first())).push(e.0));
        }
    }
}

pub(crate) proof fn lemma_alive_member(s: Seq<(usize, bool)>, x: usize)
    requires
        alive_ids(s).contains(x),
    ensures
        exists|j: int| 0 <= j < s.len() && s[j].0 == x && s[j].1,
    decreases s.len(),
{
    if s.len() == 0 {
    } else if s[0].1 && s[0].0 == x {
        assert(s[0].0 == x && s[0].1);
    } else {
        assert(alive_ids(s.drop_first()).contains(x)) by {
            if s[0].1 {
                let i = choose|i: int| 0 <= i < alive_ids(s).len() && alive_ids(s)[i] == x;
                assert(i > 0);
                assert(alive_ids(s.drop_first())[i - 1] == x);
            }
        }
        lemma_alive_member(s.drop_first(), x);
        let j = choose|j: int|
            0 <= j < s.drop_first().len() && s.drop_first()[j].0 == x && s.drop_first()[j].1;
        assert(s[j + 1].0 == x && s[j + 1].1);
    }
}

/// When the entry ids are pairwise distinct, so is the alive order.
pub(crate) proof fn lemma_alive_no_dup(s: Seq<(usize, bool)>)
    requires
        ids_of(s).no_duplicates(),
    ensures
        alive_ids(s).no_duplicates(),
    decreases s.len(),
{
    if s.len() == 0 {
    } else {
        let rest = s.drop_first();
        assert(ids_of(rest).no_duplicates()) by {
            assert forall|a: int, b: int|
                0 <= a < ids_of(rest).len() && 0 <= b < ids_of(rest).len() && a != b implies ids_of(
                rest,
            )[a] != ids_of(rest)[b] by {
                assert(ids_of(rest)[a] == ids_of(s)[a + 1]);
                assert(ids_of(rest)[b] == ids_of(s)[b + 1]);
            }
        }
        lemma_alive_no_dup(rest);
        if s[0].1 {
            assert(!alive_ids(rest).contains(s[0].0)) by {
                if alive_ids(rest).contains(s[0].0) {
                    lemma_alive_member(rest, s[0].0);
                    let j = choose|j: int| 0 <= j < rest.len() && rest[j].0 == s[0].0 && rest[j].1;
                    assert(ids_of(s)[j + 1] == ids_of(s)[0]);
                    assert(false);
                }
            }
            assert forall|a: int, b: int|
                0 <= a < alive_ids(s).len() && 0 <= b < alive_ids(s).len() && a != b implies
                alive_ids(s)[a] != alive_ids(s)[b] by {
                if a >= 1 && b >= 1 {
                    assert(alive_ids(s)[a] == alive_ids(rest)[a - 1]);
                    assert(alive_ids(s)[b] == alive_ids(rest)[b - 1]);
                } else if a == 0 {
                    assert(alive_ids(s)[b] == alive_ids(rest)[b - 1]);
                    assert(alive_ids(rest).contains(alive_ids(rest)[b - 1]));
                } else {
                    assert(alive_ids(s)[a] == alive_ids(rest)[a - 1]);
                    assert(alive_ids(rest).contains(alive_ids(rest)[a - 1]));
                }
            }
        }
    }
}

proof fn lemma_rank_nonneg(s: Seq<(usize, bool)>, j: int)
    ensures
        0 <= rank_before(s, j),
        j >= 0 ==> rank_before(s, j) <= j,
    decreases j,
{
    if j <= 0 || s.len() == 0 {
    } else {
        lemma_rank_nonneg(s.drop_first(), j - 1);
    }
}

proof fn lemma_alive_at_rank(s: Seq<(usize, bool)>, j: int)
    requires
        0 <= j < s.len(),
        s[j].1,
    ensures
        0 <= rank_before(s, j) < alive_ids(s).len(),
        alive_ids(s)[rank_before(s, j)] == s[j].0,
    decreases j,
{
    if j == 0 {
        assert(alive_ids(s)[0] == s[0].0);
    } else {
        assert(s.drop_first()[j - 1] == s[j]);
        lemma_alive_at_rank(s.drop_first(), j - 1);
    }
}

proof fn lemma_rank_step(s: Seq<(usize, bool)>, j: int)
    requires
        0 <= j < s.len(),
    ensures
        rank_before(s, j + 1) == rank_before(s, j) + (if s[j].1 {
            1int
        } else {
            0
        }),
    decreases j,
{
    reveal_with_fuel(rank_before, 3);
    if j == 0 {
    } else {
        assert(s.drop_first()[j - 1] == s[j]);
        lemma_rank_step(s.drop_first(), j - 1);
    }
}

proof fn lemma_alive_tombstone(s: Seq<(usize, bool)>, j: int)
    requires
        0 <= j < s.len(),
        s[j].1,
    ensures
        alive_ids(s.update(j, (s[j].0, false))) == alive_ids(s).remove(rank_before(s, j)),
    decreases j,
{
    lemma_alive_at_rank(s, j);
    let s2 = s.update(j, (s[j].0, false));
    if j == 0 {
        assert(s2.drop_first() =~= s.drop_first());
        assert(!s2[0].1);
        assert(alive_ids(s).remove(0) =~= alive_ids(s.drop_first()));
    } else {
        assert(s.drop_first()[j - 1] == s[j]);
        lemma_alive_tombstone(s.drop_first(), j - 1);
        assert(s2.drop_first() =~= s.drop_first().update(j - 1, (s[j].0, false)));
        assert(s2[0] == s[0]);
        if s[0].1 {
            lemma_alive_at_rank(s.drop_first(), j - 1);
            let r = rank_before(s.drop_first(), j - 1);
            assert(seq![s[0].0] + alive_ids(s.drop_first()).remove(r) =~= (seq![s[0].0]
                + alive_ids(s.drop_first())).remove(r + 1));
        }
    }
}

proof fn lemma_find_id_props(s: Seq<(usize, bool)>, id: usize)
    requires
        find_id(s, id) >= 0,
    ensures
        0 <= find_id(s, id) < s.len(),
        s[find_id(s, id)].0 == id,
        forall|k: int| 0 <= k < find_id(s, id) ==> s[k].0 != id,
    decreases s.len(),
{
    if s.len() == 0 {
    } else if s[0].0 == id {
    } else {
        lemma_find_id_props(s.drop_first(), id);
        assert forall|k: int| 0 <= k < find_id(s, id) implies s[k].0 != id by {
            if k > 0 {
                assert(s.drop_first()[k - 1] == s[k]);
            }
        }
    }
}

proof fn lemma_find_id_at(s: Seq<(usize, bool)>, id: usize, j: int)
    requires
        0 <= j < s.len(),
        s[j].0 == id,
        forall|k: int| 0 <= k < j ==> s[k].0 != id,
    ensures
        find_id(s, id) == j,
    decreases j,
{
    if j == 0 {
    } else {
        assert(s[0].0 != id);
        assert(s.drop_first()[j - 1] == s[j]);
        assert forall|k: int| 0 <= k < j - 1 implies s.drop_first()[k].0 != id by {
            assert(s.drop_first()[k] == s[k + 1]);
        }
        lemma_find_id_at(s.drop_first(), id, j - 1);
    }
}

/// When the entry ids are pairwise distinct, an id that is alive is found by
/// the first-match scan at an alive entry.
pub proof fn lemma_unique_alive_find(s: Seq<(usize, bool)>, x: usize)
    requires
        ids_of(s).no_duplicates(),
        alive_ids(s).contains(x),
    ensures
        0 <= find_id(s, x) < s.len(),
        s[find_id(s, x)].1,
        s[find_id(s, x)].0 == x,
{
    lemma_alive_member(s, x);
    let j = choose|j: int| 0 <= j < s.len() && s[j].0 == x && s[j].1;
    assert forall|k: int| 0 <= k < j implies s[k].0 != x by {
        if s[k].0 == x {
            assert(ids_of(s)[k] == ids_of(s)[j]);
            assert(false);
        }
    }
    lemma_find_id_at(s, x, j);
}

/// The reference tracker: a tombstoned ordered sequence reproducing strict
/// enqueue order, scoring each dequeue's rank error.
pub struct StrictQueue {
    /// The entries in enqueue order; the flag is false once the item has
    /// been retired.
    pub deque: Vec<(usize, bool)>,
    /// Number of still-alive entries.
    pub len: usize,
}

impl StrictQueue {
    /// The stored live count agrees with the entries, and lazy front
    /// compaction has been kept up: a non-empty tracker's front entry is
    /// alive.
    pub open spec fn wf(self) -> bool {
        &&& self.len == alive_ids(self.deque@).len()
        &&& (self.deque@.len() > 0 ==> self.deque@[0].1)
    }

    /// The strict reference order of the outstanding items.
    pub open spec fn alive(self) -> Seq<usize> {
        alive_ids(self.deque@)
    }

    pub fn new() -> (q: Self)
        ensures
            q.wf(),
            q.deque@ == Seq::<(usize, bool)>::empty(),
            q.alive() == Seq::<usize>::empty(),
            q.len == 0,
    {
        StrictQueue { deque: Vec::new(), len: 0 }
    }

    pub fn enqueue(&mut self, item: usize)
        requires
            old(self).wf(),
            old(self).len < usize::MAX,
        ensures
            final(self).wf(),
            final(self).deque@ == old(self).deque@.push((item, true)),
            final(self).alive() == old(self).alive().push(item),
            final(self).len == old(self).len + 1,
    {
        proof {
            lemma_alive_push(self.deque@, (item, true));
        }
        self.deque.push((item, true));
        self.len = self.len + 1;
    }

    /// Records that `item` was dequeued and returns its rank error: the
    /// number of still-alive entries enqueued strictly before it. The item
    /// must be outstanding: its first matching entry must be alive.
    pub fn relaxed_dequeue(&mut self, item: usize) -> (r: usize)
        requires
            old(self).wf(),
            find_id(old(self).deque@, item) >= 0,
            old(self).deque@[find_id(old(self).deque@, item)].1,
        ensures
            final(self).wf(),
            final(self).len == old(self).len - 1,
            r == rank_before(old(self).deque@, find_id(old(self).deque@, item)),
            r < old(self).len,
            old(self).alive()[r as int] == item,
            final(self).alive() == old(self).alive().remove(r as int),
            r == 0 <==> old(self).alive()[0] == item,
            ids_of(old(self).deque@).no_duplicates() ==> ids_of(
                final(self).deque@,
            ).no_duplicates(),
            forall|x: usize|
                ids_of(final(self).deque@).contains(x) ==> ids_of(old(self).deque@).contains(x),
    {
        let ghost s0 = self.deque@;
        let ghost j = find_id(s0, item);
        proof {
            lemma_find_id_props(s0, item);
            lemma_alive_at_rank(s0, j);
        }
        self.len = self.len - 1;
        let front = self.deque[0];
        if front.0 == item {
            proof {
                assert(j == 0);
            }
            self.deque.remove(0);
            proof {
                assert(self.deque@ =~= s0.skip(1));
                assert(alive_ids(s0).remove(0) =~= alive_ids(s0.drop_first()));
                assert(s0.skip(1) =~= s0.drop_first());
            }
            let ghost mut m: int = 1;
            loop
                invariant
                    s0 == old(self).deque@,
                    old(self).wf(),
                    s0.len() > 0,
                    s0[0].1,
                    s0[0].0 == item,
                    self.len == old(self).len - 1,
                    1 <= m <= s0.len(),
                    self.deque@ == s0.skip(m),
                    alive_ids(self.deque@) == alive_ids(s0).remove(0),
                ensures
                    self.deque@.len() > 0 ==> self.deque@[0].1,
                    alive_ids(self.deque@) == alive_ids(s0).remove(0),
                    exists|n: int| 0 <= n <= s0.len() && self.deque@ == s0.skip(n),
                decreases s0.len() - m,
            {
                if self.deque.len() == 0 {
                    break ;
                }
                let e = self.deque[0];
                if e.1 {
                    break ;
                }
                proof {
                    assert(alive_ids(self.deque@.drop_first()) == alive_ids(self.deque@));
                }
                self.deque.remove(0);
                proof {
                    assert(self.deque@ =~= s0.skip(m).drop_first());
                    assert(s0.skip(m).drop_first() =~= s0.skip(m + 1));
                    m = m + 1;
                }
            }
            proof {
                let n = choose|n: int| 0 <= n <= s0.len() && self.deque@ == s0.skip(n);
                if ids_of(s0).no_duplicates() {
                    assert forall|a: int, b: int|
                        0 <= a < ids_of(self.deque@).len() && 0 <= b < ids_of(self.deque@).len()
                            && a != b implies ids_of(self.deque@)[a] != ids_of(
                        self.deque@,
                    )[b] by {
                        assert(ids_of(self.deque@)[a] == ids_of(s0)[a + n]);
                        assert(ids_of(self.deque@)[b] == ids_of(s0)[b + n]);
                    }
                }
                assert forall|x: usize| ids_of(self.deque@).contains(x) implies ids_of(
                    s0,
                ).contains(x) by {
                    let i = choose|i: int|
                        0 <= i < ids_of(self.deque@).len() && ids_of(self.deque@)[i] == x;
                    assert(ids_of(s0)[i + n] == x);
                }
                assert(alive_ids(s0)[0] == s0[0].0);
                assert(rank_before(s0, 0) == 0);
            }
            0
        } else {
            proof {
                assert(j >= 1);
                lemma_rank_nonneg(s0.drop_first(), j - 1);
            }
            let mut idx: usize = 0;
            let mut rank: usize = 0;
            while idx < self.deque.len()
                invariant
                    s0 == old(self).deque@,
                    old(self).wf(),
                    j == find_id(s0, item),
                    0 <= idx <= s0.len(),
                    self.deque@ == s0,
                    self.len == old(self).len - 1,
                    0 <= j < s0.len(),
                    s0[j].0 == item,
                    s0[j].1,
                    s0.len() > 0 && s0[0].1,
                    s0[0].0 != item,
                    forall|k: int| 0 <= k < j ==> s0[k].0 != item,
                    forall|k: int| 0 <= k < idx ==> s0[k].0 != item,
                    rank == rank_before(s0, idx as int),
                    rank <= idx,
                decreases s0.len() - idx,
            {
                let e = self.deque[idx];
                if e.0 == item {
                    proof {
                        lemma_find_id_at(s0, item, idx as int);
                        assert(j == idx);
                        lemma_alive_tombstone(s0, j);
                        lemma_alive_at_rank(s0, j);
                    }
                    self.deque[idx] = (item, false);
                    proof {
                        assert(self.deque@ == s0.update(j, (s0[j].0, false)));
                        assert(ids_of(self.deque@) =~= ids_of(s0));
                        assert(rank_before(s0, j) >= 1) by {
                            lemma_rank_nonneg(s0.drop_first(), j - 1);
                        }
                        assert(alive_ids(s0)[0] == s0[0].0);
                    }
                    return rank;
                }
                if e.1 {
                    rank = rank + 1;
                }
                idx = idx + 1;
                proof {
                    lemma_rank_step(s0, idx - 1);
                }
            }
            proof {
                assert(s0[j].0 != item);
                assert(false);
            }
            0
        }
    }

    /// The number of live items: what an empty dequeue scores as its rank
    /// error.
    pub fn len(&mut self) -> (n: usize)
        ensures
            n == old(self).len,
            final(self).deque@ == old(self).deque@,
            final(self).len == old(self).len,
    {
        self.len
    }
}

} // verus!
