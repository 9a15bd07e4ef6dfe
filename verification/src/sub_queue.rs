use std::collections::VecDeque;
use vstd::prelude::*;

verus! {

/// One FIFO shard of a relaxed queue.
///
/// Besides the items it currently holds, a shard keeps two monotonic
/// counters: `tail` counts every enqueue it has received and `head` counts
/// every successful dequeue it has served.
pub struct SubQueue<T> {
    /// Number of successful dequeues served by this shard.
    pub head: usize,
    /// Number of enqueues this shard has received.
    pub tail: usize,
    /// The items currently held, oldest first.
    pub fifo: VecDeque<T>,
}

impl<T> View for SubQueue<T> {
    type V = Seq<T>;

    open spec fn view(&self) -> Seq<T> {
        self.fifo@
    }
}

impl<T> SubQueue<T> {
    /// The counters are consistent with the items held: the difference of
    /// enqueues and dequeues is exactly the current depth.
    pub open spec fn wf(self) -> bool {
        &&& self.head <= self.tail
        &&& self.tail - self.head == self@.len()
    }

    /// The shard's current depth, as a spec-level integer.
    pub open spec fn depth(self) -> int {
        self.tail - self.head
    }

    pub fn new() -> (q: Self)
        ensures
            q.wf(),
            q.head == 0,
            q.tail == 0,
            q@ == Seq::<T>::empty(),
    {
        SubQueue { head: 0, tail: 0, fifo: VecDeque::new() }
    }

    pub fn enqueue(&mut self, item: T)
        requires
            old(self).wf(),
            old(self).tail < usize::MAX,
        ensures
            final(self).wf(),
            final(self).head == old(self).head,
            final(self).tail == old(self).tail + 1,
            final(self)@ == old(self)@.push(item),
    {
        self.tail = self.tail + 1;
        self.fifo.push_back(item);
    }

    pub fn dequeue(&mut self) -> (r: Option<T>)
        requires
            old(self).wf(),
        ensures
            final(self).wf(),
            final(self).tail == old(self).tail,
            old(self)@.len() == 0 ==> {
                &&& r is None
                &&& final(self).head == old(self).head
                &&& final(self)@ == old(self)@
            },
            old(self)@.len() > 0 ==> {
                &&& r == Some(old(self)@[0])
                &&& final(self).head == old(self).head + 1
                &&& final(self)@ == old(self)@.drop_first()
            },
    {
        let ret = self.fifo.pop_front();
        if ret.is_some() {
            self.head = self.head + 1;
        }
        ret
    }

    pub fn len(&self) -> (n: usize)
        requires
            self.wf(),
        ensures
            n == self@.len(),
            n == self.tail - self.head,
    {
        self.fifo.len()
    }
}

/// Shard accounting: in every well-formed state, the difference between the
/// enqueue counter and the dequeue counter equals the number of items the
/// shard currently holds in memory.
pub proof fn lemma_shard_accounting<T>(q: SubQueue<T>)
    requires
        q.wf(),
    ensures
        q.tail - q.head == q@.len(),
{
}

} // verus!
