//! A bounded first-in first-out ring buffer for handing events from a
//! producer to a consumer.
use vstd::prelude::*;

verus! {

pub const CACHE_LINE: usize = 64;

/// A ring of `capacity` slots. `head` counts the items ever pushed and
/// `tail` the items ever popped; slot `n % capacity` holds the `n`-th item.
pub struct SpscRing<T> {
    head: u64,
    tail: u64,
    buf: Vec<Option<T>>,
}

proof fn lemma_distinct_slots(a: int, d: int, m: int)
    requires
        m > 0,
        a >= 0,
        0 < d < m,
    ensures
        (a + d) % m != a % m,
{
    assert((a + d) % m != a % m) by (nonlinear_arith)
        requires
            m > 0,
            a >= 0,
            0 < d < m,
    {
        let q1 = (a + d) / m;
        let q2 = a / m;
        assert(a + d == q1 * m + (a + d) % m);
        assert(a == q2 * m + a % m);
        if (a + d) % m == a % m {
            assert(d == (q1 - q2) * m);
            if q1 - q2 >= 1 {
                assert((q1 - q2) * m >= m);
            } else {
                assert((q1 - q2) * m <= 0);
            }
        }
    }
}

impl<T> SpscRing<T> {
    pub closed spec fn cap(self) -> int {
        self.buf@.len() as int
    }

    /// Items pushed so far.
    pub closed spec fn pushed(self) -> int {
        self.head as int
    }

    /// Items popped so far.
    pub closed spec fn popped(self) -> int {
        self.tail as int
    }

    /// The items in the ring, oldest first.
    pub closed spec fn items(self) -> Seq<T> {
        Seq::new((self.head - self.tail) as nat, |i: int| self.buf@[(self.tail + i) % self.cap()]->Some_0)
    }

    pub closed spec fn wf(self) -> bool {
        &&& self.tail <= self.head
        &&& self.head - self.tail <= self.cap()
        &&& forall|i: int| 0 <= i < self.head - self.tail ==> #[trigger] self.buf@[(self.tail + i) % self.cap()] is Some
    }

    pub fn new(capacity: usize) -> (r: Self)
        ensures
            r.wf(),
            r.cap() == capacity,
            r.items() == Seq::<T>::empty(),
            r.pushed() == 0,
            r.popped() == 0,
    {
        let mut buf: Vec<Option<T>> = Vec::new();
        let mut i: usize = 0;
        while i < capacity
            invariant
                i <= capacity,
                buf@.len() == i,
            decreases capacity - i,
        {
            buf.push(None);
            i = i + 1;
        }
        let r = Self { head: 0, tail: 0, buf };
        assert(r.items() =~= Seq::<T>::empty());
        r
    }

    pub fn capacity(&self) -> (r: usize)
        ensures
            r == self.cap(),
    {
        self.buf.len()
    }

    /// Appends `item`, or hands it back when the ring is full.
    pub fn push(&mut self, item: T) -> (r: Result<(), T>)
        requires
            old(self).wf(),
            old(self).pushed() < u64::MAX,
        ensures
            final(self).wf(),
            final(self).cap() == old(self).cap(),
            final(self).popped() == old(self).popped(),
            old(self).items().len() >= old(self).cap() ==> r == Err::<(), T>(item) && final(self).items() == old(self).items()
                && final(self).pushed() == old(self).pushed(),
            old(self).items().len() < old(self).cap() ==> r is Ok && final(self).items() == old(self).items().push(item)
                && final(self).pushed() == old(self).pushed() + 1,
    {
        let cap = self.buf.len() as u64;
        if self.head - self.tail >= cap {
            return Err(item);
        }
        let idx = (self.head % cap) as usize;
        let ghost old_self = *self;
        self.buf.set(idx, Some(item));
        self.head = self.head + 1;
        proof {
            let n = old_self.head - old_self.tail;
            assert forall|i: int| 0 <= i < n implies #[trigger] self.buf@[(self.tail + i) % self.cap()] == old_self.buf@[(old_self.tail + i) % old_self.cap()] by {
                lemma_distinct_slots(self.tail + i, n - i, self.cap());
                assert(self.tail + i + (n - i) == old_self.head);
            }
            assert(self.items() =~= old_self.items().push(item));
        }
        Ok(())
    }

    /// Removes and returns the oldest item, if any.
    pub fn pop(&mut self) -> (r: Option<T>)
        requires
            old(self).wf(),
        ensures
            final(self).wf(),
            final(self).cap() == old(self).cap(),
            final(self).pushed() == old(self).pushed(),
            old(self).items().len() == 0 ==> r.is_none() && final(self).items() == old(self).items()
                && final(self).popped() == old(self).popped(),
            old(self).items().len() > 0 ==> r == Some(old(self).items()[0]) && final(self).items() == old(self).items().drop_first()
                && final(self).popped() == old(self).popped() + 1,
    {
        if self.tail >= self.head {
            return None;
        }
        let cap = self.buf.len() as u64;
        let idx = (self.tail % cap) as usize;
        let ghost old_self = *self;
        proof {
            assert(old_self.buf@[(old_self.tail + 0) % old_self.cap()] is Some);
        }
        self.buf.push(None);
        let slot = self.buf.swap_remove(idx);
        self.tail = self.tail + 1;
        proof {
            assert(self.buf@ =~= old_self.buf@.update(idx as int, None));
            let n = old_self.head - old_self.tail;
            assert forall|i: int| 0 <= i < n - 1 implies #[trigger] self.buf@[(self.tail + i) % self.cap()] == old_self.buf@[(old_self.tail + (i + 1)) % old_self.cap()] by {
                lemma_distinct_slots(old_self.tail as int, i + 1, self.cap());
            }
            assert(self.items() =~= old_self.items().drop_first());
        }
        slot
    }

    pub fn is_empty(&self) -> (r: bool)
        requires
            self.wf(),
        ensures
            r == (self.items().len() == 0),
    {
        self.tail >= self.head
    }

    pub fn len(&self) -> (r: u64)
        requires
            self.wf(),
        ensures
            r == self.items().len(),
    {
        if self.head >= self.tail {
            self.head - self.tail
        } else {
            0
        }
    }
}

/// In any state a ring reaches, it holds exactly the items pushed and not
/// yet popped, never more than its capacity.
pub proof fn law_ring_length<T>(r: SpscRing<T>)
    requires
        r.wf(),
    ensures
        r.items().len() == r.pushed() - r.popped(),
        r.items().len() <= r.cap(),
{
}

} // verus!
