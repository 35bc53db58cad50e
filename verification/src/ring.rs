//! Fixed-capacity ring buffer for metric history.
//!
//! The buffer allocates its full capacity once, at construction, and never
//! again: pushing into a full buffer overwrites the oldest entry. The bound is
//! enforced in the type, so no caller can forget it.

use vstd::prelude::*;

verus! {

/// The most recent values pushed, at most as many as the capacity.
///
/// The view is the sequence of live values from the oldest to the newest.
#[derive(Debug, Clone)]
pub struct Ring<T> {
    slots: Vec<Option<T>>,
    /// Index the next push will write to.
    head: usize,
    /// Number of live items, saturating at capacity.
    len: usize,
    /// Total pushes ever, including overwritten ones.
    pushed: u64,
}

/// What is live after `v` is pushed onto `s` in a ring of `capacity`.
pub open spec fn after_push<T>(s: Seq<T>, capacity: nat, v: T) -> Seq<T> {
    if s.len() < capacity {
        s.push(v)
    } else {
        s.skip(1).push(v)
    }
}

impl<T> View for Ring<T> {
    type V = Seq<T>;

    closed spec fn view(&self) -> Seq<T> {
        Seq::new(self.len as nat, |i: int| self.slots@[self.place(i)]->0)
    }
}

impl<T> Ring<T> {
    /// The invariant: a slot is taken exactly if it is live, and until the ring
    /// is full the live slots are the first ones.
    pub closed spec fn wf(&self) -> bool {
        &&& self.slots@.len() >= 1
        &&& self.head < self.slots@.len()
        &&& self.len <= self.slots@.len()
        &&& self.len < self.slots@.len() ==> self.head == self.len
        &&& self.len <= self.pushed
        &&& forall|i: int|
            0 <= i < self.slots@.len() ==> ((#[trigger] self.slots@[i]) is Some <==> i < self.len)
    }

    /// The number of slots.
    pub closed spec fn slot_count(&self) -> nat {
        self.slots@.len()
    }

    /// The number of values ever pushed.
    pub closed spec fn pushes(&self) -> nat {
        self.pushed as nat
    }

    /// The slot of the value at `i`, counted from the oldest.
    spec fn place(&self, i: int) -> int {
        let start = if self.len == self.slots@.len() {
            self.head as int
        } else {
            0
        };
        if start + i < self.slots@.len() {
            start + i
        } else {
            start + i - self.slots@.len()
        }
    }

    /// An empty ring. Capacity is clamped to at least 1: a ring that can hold
    /// nothing would silently discard every push.
    pub fn new(capacity: usize) -> (r: Self)
        ensures
            r.wf(),
            r@ == Seq::<T>::empty(),
            r.slot_count() == if capacity == 0 {
                1
            } else {
                capacity as nat
            },
            r.pushes() == 0,
    {
        let capacity = if capacity == 0 {
            1
        } else {
            capacity
        };
        let mut slots: Vec<Option<T>> = Vec::with_capacity(capacity);
        while slots.len() < capacity
            invariant
                slots@.len() <= capacity,
                forall|i: int| 0 <= i < slots@.len() ==> (#[trigger] slots@[i]) is None,
            decreases capacity - slots@.len(),
        {
            slots.push(None);
        }
        let r = Ring { slots, head: 0, len: 0, pushed: 0 };
        assert(r@ =~= Seq::<T>::empty());
        r
    }

    /// How many values the ring can hold.
    pub fn capacity(&self) -> (r: usize)
        ensures
            r == self.slot_count(),
    {
        self.slots.len()
    }

    /// How many values are live.
    pub fn len(&self) -> (r: usize)
        ensures
            r == self@.len(),
    {
        self.len
    }

    /// Whether nothing is live.
    pub fn is_empty(&self) -> (r: bool)
        ensures
            r <==> self@.len() == 0,
    {
        self.len == 0
    }

    /// Whether the next push evicts.
    pub fn is_full(&self) -> (r: bool)
        ensures
            r <==> self@.len() == self.slot_count(),
    {
        self.len == self.slots.len()
    }

    /// How many values were ever pushed, overwritten ones included.
    pub fn total_pushed(&self) -> (r: u64)
        ensures
            r == self.pushes(),
    {
        self.pushed
    }

    /// Pushes, overwriting the oldest value if the ring is full. Returns the
    /// evicted value.
    pub fn push(&mut self, v: T) -> (r: Option<T>)
        requires
            old(self).wf(),
            old(self).pushes() < u64::MAX,
        ensures
            final(self).wf(),
            final(self)@ == after_push(old(self)@, old(self).slot_count(), v),
            final(self).slot_count() == old(self).slot_count(),
            final(self).pushes() == old(self).pushes() + 1,
            r == if old(self)@.len() == old(self).slot_count() {
                Some(old(self)@[0])
            } else {
                None
            },
    {
        let ghost before = *self;
        let cap = self.slots.len();
        let mut slot = Some(v);
        self.slots.set_and_swap(self.head, &mut slot);
        self.head = if self.head + 1 < cap {
            self.head + 1
        } else {
            0
        };
        if self.len < cap {
            self.len += 1;
        }
        self.pushed += 1;
        proof {
            assert(self.slots@ == before.slots@.update(before.head as int, Some(v)));
            let after = after_push(before@, before.slot_count(), v);
            assert(self@.len() == after.len());
            assert forall|i: int| 0 <= i < self@.len() implies self@[i] == after[i] by {
                if before.len < cap {
                    if i < before.len {
                        assert(after[i] == before@[i]);
                    }
                } else if i < cap - 1 {
                    assert(after[i] == before@[i + 1]);
                }
            }
            assert(self@ =~= after);
        }
        slot
    }

    /// Pushes every value of `xs`, in order.
    pub fn push_all(&mut self, xs: Vec<T>)
        requires
            old(self).wf(),
            old(self).pushes() + xs@.len() <= u64::MAX,
        ensures
            final(self).wf(),
            final(self)@ == after_pushes(old(self)@, old(self).slot_count(), xs@),
            final(self).slot_count() == old(self).slot_count(),
            final(self).pushes() == old(self).pushes() + xs@.len(),
    {
        let ghost all = xs@;
        assert(all.take(0) =~= Seq::<T>::empty());
        for x in it: xs.into_iter()
            invariant
                it.seq() == all,
                self.wf(),
                self@ == after_pushes(old(self)@, old(self).slot_count(), all.take(it.index())),
                self.slot_count() == old(self).slot_count(),
                self.pushes() == old(self).pushes() + it.index(),
                old(self).pushes() + all.len() <= u64::MAX,
        {
            let ghost n = it.index();
            proof {
                assert(all.take(n + 1).drop_last() =~= all.take(n));
                assert(all.take(n + 1).last() == x);
            }
            self.push(x);
        }
        assert(all.take(all.len() as int) =~= all);
    }

    /// The slot of the value at `logical`, counted from the oldest.
    fn phys(&self, logical: usize) -> (r: usize)
        requires
            self.wf(),
            logical < self.len,
        ensures
            r == self.place(logical as int),
            r < self.slots@.len(),
    {
        let cap = self.slots.len();
        // When full, the oldest sits at head; otherwise the buffer starts at 0.
        let start = if self.len == cap {
            self.head
        } else {
            0
        };
        if logical < cap - start {
            start + logical
        } else {
            logical - (cap - start)
        }
    }

    /// The value at `logical`, counted from the oldest.
    pub fn get(&self, logical: usize) -> (r: Option<&T>)
        requires
            self.wf(),
        ensures
            r == if logical < self@.len() {
                Some(&self@[logical as int])
            } else {
                None
            },
    {
        if logical >= self.len {
            return None;
        }
        let at = self.phys(logical);
        assert(self@[logical as int] == self.slots@[at as int]->0);
        self.slots[at].as_ref()
    }

    /// The most recently pushed value.
    pub fn newest(&self) -> (r: Option<&T>)
        requires
            self.wf(),
        ensures
            r == if self@.len() > 0 {
                Some(&self@.last())
            } else {
                None
            },
    {
        if self.len == 0 {
            return None;
        }
        let cap = self.slots.len();
        let at = if self.head == 0 {
            cap - 1
        } else {
            self.head - 1
        };
        assert(self.place(self.len - 1) == at);
        self.slots[at].as_ref()
    }

    /// The oldest live value.
    pub fn oldest(&self) -> (r: Option<&T>)
        requires
            self.wf(),
        ensures
            r == if self@.len() > 0 {
                Some(&self@[0])
            } else {
                None
            },
    {
        self.get(0)
    }

    /// The live values, oldest to newest.
    pub fn iter_chrono(&self) -> (r: Vec<&T>)
        requires
            self.wf(),
        ensures
            r@.len() == self@.len(),
            forall|i: int| 0 <= i < r@.len() ==> *(#[trigger] r@[i]) == self@[i],
    {
        let mut out: Vec<&T> = Vec::new();
        let mut i: usize = 0;
        while i < self.len
            invariant
                self.wf(),
                i <= self.len,
                self@.len() == self.len,
                out@.len() == i,
                forall|k: int| 0 <= k < i ==> *(#[trigger] out@[k]) == self@[k],
            decreases self.len - i,
        {
            if let Some(v) = self.get(i) {
                out.push(v);
            }
            i += 1;
        }
        out
    }

    /// Forgets every live value. The count of pushes goes on.
    pub fn clear(&mut self)
        requires
            old(self).wf(),
        ensures
            final(self).wf(),
            final(self)@ == Seq::<T>::empty(),
            final(self).slot_count() == old(self).slot_count(),
            final(self).pushes() == old(self).pushes(),
    {
        let mut i: usize = 0;
        while i < self.slots.len()
            invariant
                i <= self.slots@.len(),
                self.slots@.len() == old(self).slots@.len(),
                self.pushed == old(self).pushed,
                forall|k: int| 0 <= k < i ==> (#[trigger] self.slots@[k]) is None,
            decreases self.slots@.len() - i,
        {
            self.slots.set(i, None);
            i += 1;
        }
        self.head = 0;
        self.len = 0;
        assert(self@ =~= Seq::<T>::empty());
    }
}

// ------------------------------------------------------------------ laws --

/// What is live after every value of `xs` is pushed, in order, onto `s`.
pub open spec fn after_pushes<T>(s: Seq<T>, capacity: nat, xs: Seq<T>) -> Seq<T>
    decreases xs.len(),
{
    if xs.len() == 0 {
        s
    } else {
        after_push(after_pushes(s, capacity, xs.drop_last()), capacity, xs.last())
    }
}

/// A ring never holds more than its capacity, and its capacity is at least one.
pub proof fn law_memory_is_bounded<T>(r: Ring<T>)
    requires
        r.wf(),
    ensures
        r@.len() <= r.slot_count(),
        r.slot_count() >= 1,
        r@.len() <= r.pushes(),
{
}

/// Of all the values pushed onto an empty ring, exactly the most recent are
/// live, in the order of the pushes, up to the capacity.
pub proof fn law_the_most_recent_are_kept<T>(capacity: nat, xs: Seq<T>)
    requires
        capacity >= 1,
    ensures
        after_pushes(Seq::<T>::empty(), capacity, xs) == if xs.len() <= capacity {
            xs
        } else {
            xs.skip(xs.len() - capacity)
        },
    decreases xs.len(),
{
    if xs.len() > 0 {
        let ys = xs.drop_last();
        law_the_most_recent_are_kept(capacity, ys);
        let s = after_pushes(Seq::<T>::empty(), capacity, ys);
        assert(xs =~= ys.push(xs.last()));
        if xs.len() > capacity {
            assert(after_push(s, capacity, xs.last()) =~= xs.skip(xs.len() - capacity));
        }
    }
}

} // verus!
