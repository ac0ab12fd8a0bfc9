use vstd::prelude::*;

verus! {

/// Number of slots of the work queue.
pub const FIFO_CAPACITY: usize = 256;

/// Slot that lies `i` places after slot `start` in the ring.
pub open spec fn ring_index(start: int, i: int) -> int {
    (start + i) % (FIFO_CAPACITY as int)
}

/// The ring position that follows `p`: the position counters are bytes, so they
/// wrap from the last slot back to the first.
pub open spec fn next_position(p: u8) -> u8 {
    if p == 255 {
        0
    } else {
        (p + 1) as u8
    }
}

/// What `push` does to the queued items and what it hands back:
/// a full queue refuses the item and returns it, any other queue appends it.
pub open spec fn push_model<T>(items: Seq<T>, data: T) -> (Seq<T>, Option<T>) {
    if items.len() == FIFO_CAPACITY {
        (items, Some(data))
    } else {
        (items.push(data), None)
    }
}

/// What `pop` does to the queued items and what it hands back:
/// the oldest item leaves first; an empty queue yields nothing.
pub open spec fn pop_model<T>(items: Seq<T>) -> (Seq<T>, Option<T>) {
    if items.len() == 0 {
        (items, None)
    } else {
        (items.drop_first(), Some(items[0]))
    }
}

/// The queue after pushing each of `xs` in turn, refused items aside.
pub open spec fn push_all<T>(items: Seq<T>, xs: Seq<T>) -> Seq<T>
    decreases xs.len(),
{
    if xs.len() == 0 {
        items
    } else {
        push_all(push_model(items, xs[0]).0, xs.drop_first())
    }
}

/// The items handed out by `k` pops in turn.
pub open spec fn pop_all<T>(items: Seq<T>, k: nat) -> Seq<T>
    decreases k,
{
    if k == 0 || items.len() == 0 {
        Seq::empty()
    } else {
        seq![pop_model(items).1->Some_0] + pop_all(pop_model(items).0, (k - 1) as nat)
    }
}

/// Pushing items into a queue with room for them appends them in order.
pub proof fn lemma_push_all_appends<T>(items: Seq<T>, xs: Seq<T>)
    requires
        items.len() + xs.len() <= FIFO_CAPACITY,
    ensures
        push_all(items, xs) == items + xs,
    decreases xs.len(),
{
    if xs.len() == 0 {
        assert(items + xs =~= items);
    } else {
        lemma_push_all_appends(items.push(xs[0]), xs.drop_first());
        assert(items.push(xs[0]) + xs.drop_first() =~= items + xs);
    }
}

/// Popping as many times as there are items hands them all out, oldest first.
pub proof fn lemma_pop_all_in_order<T>(items: Seq<T>)
    ensures
        pop_all(items, items.len()) == items,
    decreases items.len(),
{
    if items.len() > 0 {
        lemma_pop_all_in_order(items.drop_first());
        assert(seq![items[0]] + items.drop_first() =~= items);
    }
}

/// First in, first out: items pushed into a queue with room for them come
/// out, after the items already queued, in the order they were pushed.
pub proof fn lemma_first_in_first_out<T>(items: Seq<T>, xs: Seq<T>)
    requires
        items.len() + xs.len() <= FIFO_CAPACITY,
    ensures
        pop_all(push_all(items, xs), (items.len() + xs.len()) as nat) == items + xs,
{
    lemma_push_all_appends(items, xs);
    lemma_pop_all_in_order(items + xs);
}

/// On a queue that holds items and has room, pushing then popping hands out
/// the same item, and leaves the same queue, as popping then pushing.
pub proof fn lemma_push_pop_commute<T>(items: Seq<T>, x: T)
    requires
        0 < items.len() < FIFO_CAPACITY,
    ensures
        pop_model(push_model(items, x).0) == (
            push_model(pop_model(items).0, x).0,
            pop_model(items).1,
        ),
{
    assert(items.push(x).drop_first() =~= items.drop_first().push(x));
}

/// A full queue refuses what is pushed, hands it back unchanged, and keeps
/// its items.
pub proof fn lemma_full_queue_refuses<T>(items: Seq<T>, x: T)
    requires
        items.len() == FIFO_CAPACITY,
    ensures
        push_model(items, x) == (items, Some(x)),
{
}

/// Bounded first-in first-out work queue over a ring of `FIFO_CAPACITY` slots.
///
/// `head` is the slot of the next item to leave, `tail` the slot the next
/// item goes into, and `len` the number of queued items.
pub struct Fifo<T> {
    head: u8,
    tail: u8,
    len: usize,
    data: Vec<Option<T>>,
}

impl<T> View for Fifo<T> {
    type V = Seq<T>;

    closed spec fn view(&self) -> Seq<T> {
        self.items()
    }
}

impl<T> Default for Fifo<T> {
    fn default() -> (fifo: Self)
        ensures
            fifo.wf(),
            fifo@ == Seq::<T>::empty(),
            fifo.spec_head() == 0,
            fifo.spec_tail() == 0,
    {
        Fifo::new()
    }
}

impl<T> Fifo<T> {
    /// The ring holds `len` items, from slot `head` on, and the slot `tail`
    /// comes right after the last of them; every other slot is empty.
    pub closed spec fn wf(&self) -> bool {
        &&& self.data@.len() == FIFO_CAPACITY
        &&& self.len <= FIFO_CAPACITY
        &&& self.tail as int == ring_index(self.head as int, self.len as int)
        &&& forall|i: int|
            0 <= i < FIFO_CAPACITY ==> (#[trigger] self.data@[ring_index(self.head as int, i)]
                is Some <==> i < self.len)
    }

    /// The queued items, oldest first.
    pub closed spec fn items(&self) -> Seq<T> {
        Seq::new(
            self.len as nat,
            |i: int| self.data@[ring_index(self.head as int, i)]->Some_0,
        )
    }

    /// The content of slot `i` of the ring.
    pub closed spec fn slot(&self, i: int) -> Option<T> {
        self.data@[i]
    }

    /// The layout of a consistent queue: the tail lies `len` slots after the
    /// head, the `k`-th oldest item sits `k` slots after the head, and a slot
    /// holds an item exactly when it is one of those `len` slots.
    pub proof fn lemma_ring_layout(&self)
        requires
            self.wf(),
        ensures
            self@.len() <= FIFO_CAPACITY,
            self.spec_tail() as int == ring_index(self.spec_head() as int, self@.len() as int),
            forall|k: int|
                0 <= k < self@.len() ==> #[trigger] self.slot(ring_index(self.spec_head() as int, k))
                    == Some(self@[k]),
            forall|i: int|
                0 <= i < FIFO_CAPACITY ==> (#[trigger] self.slot(i) is Some <==> exists|k: int|
                    0 <= k < self@.len() && i == ring_index(self.spec_head() as int, k)),
    {
        let h = self.head as int;
        assert forall|k: int| 0 <= k < self@.len() implies #[trigger] self.slot(ring_index(h, k))
            == Some(self@[k]) by {
            assert(self.data@[ring_index(h, k)] is Some);
        }
        assert forall|i: int| 0 <= i < FIFO_CAPACITY implies (#[trigger] self.slot(i) is Some
            <==> exists|k: int| 0 <= k < self@.len() && i == ring_index(h, k)) by {
            let k = (i - h) % (FIFO_CAPACITY as int);
            assert(0 <= k < FIFO_CAPACITY);
            assert(ring_index(h, k) == i);
            assert(self.data@[ring_index(h, k)] is Some <==> k < self.len);
            if exists|k2: int| 0 <= k2 < self@.len() && i == ring_index(h, k2) {
                let k2 = choose|k2: int| 0 <= k2 < self@.len() && i == ring_index(h, k2);
                assert(self.data@[ring_index(h, k2)] is Some);
            }
        }
    }

    /// A consistent queue never holds more than `FIFO_CAPACITY` items.
    pub proof fn lemma_len_bound(&self)
        requires
            self.wf(),
        ensures
            self@.len() <= FIFO_CAPACITY,
    {
    }

    /// Slot of the next item to leave.
    pub closed spec fn spec_head(&self) -> u8 {
        self.head
    }

    /// Slot the next accepted item goes into.
    pub closed spec fn spec_tail(&self) -> u8 {
        self.tail
    }

    /// An empty queue whose head and tail are both the first slot.
    pub fn new() -> (fifo: Self)
        ensures
            fifo.wf(),
            fifo@ == Seq::<T>::empty(),
            fifo.spec_head() == 0,
            fifo.spec_tail() == 0,
    {
        let mut data: Vec<Option<T>> = Vec::new();
        let mut i: usize = 0;
        while i < FIFO_CAPACITY
            invariant
                i <= FIFO_CAPACITY,
                data@.len() == i,
                forall|j: int| 0 <= j < i ==> data@[j] is None,
            decreases FIFO_CAPACITY - i,
        {
            data.push(None);
            i = i + 1;
        }
        let fifo = Fifo { head: 0, tail: 0, len: 0, data };
        assert forall|j: int| 0 <= j < FIFO_CAPACITY implies (#[trigger] fifo.data@[ring_index(
            0,
            j,
        )] is Some <==> j < 0) by {
            assert(ring_index(0, j) == j);
        }
        assert(fifo@ =~= Seq::<T>::empty());
        fifo
    }

    /// Attempts to push `data` to the queue. Returns `Some(data)` if the queue
    /// was full, and `None` if it was pushed.
    pub fn push(&mut self, data: T) -> (res: Option<T>)
        requires
            old(self).wf(),
        ensures
            final(self).wf(),
            (final(self)@, res) == push_model(old(self)@, data),
            final(self).spec_head() == old(self).spec_head(),
            final(self).spec_tail() == if old(self)@.len() == FIFO_CAPACITY {
                old(self).spec_tail()
            } else {
                next_position(old(self).spec_tail())
            },
    {
        if self.is_full() {
            return Some(data);
        }
        let ghost old_items = self@;
        let tail = self.tail;
        proof {
            // the slot at the tail is free: it lies `len` places after the head
            assert(self.data@[ring_index(self.head as int, self.len as int)] is None);
        }
        self.data.set(tail as usize, Some(data));
        self.len = self.len + 1;
        self.tail = if tail == 255 {
            0
        } else {
            tail + 1
        };
        proof {
            let h = self.head as int;
            assert(self.tail as int == ring_index(h, self.len as int));
            assert forall|i: int| 0 <= i < FIFO_CAPACITY implies (#[trigger] self.data@[ring_index(
                h,
                i,
            )] is Some <==> i < self.len) by {
                if i == self.len - 1 {
                    assert(ring_index(h, i) == tail as int);
                } else {
                    assert(ring_index(h, i) != tail as int);
                }
            }
            assert forall|i: int| 0 <= i < self.len - 1 implies ring_index(h, i) != tail as int by {}
            assert(self@ =~= old_items.push(data));
        }
        None
    }

    /// Slot the next accepted item goes into.
    pub fn tail(&self) -> (t: u8)
        ensures
            t == self.spec_tail(),
    {
        self.tail
    }

    /// Takes the oldest item out of the queue, or returns `None` when the
    /// queue is empty.
    pub fn pop(&mut self) -> (res: Option<T>)
        requires
            old(self).wf(),
        ensures
            final(self).wf(),
            (final(self)@, res) == pop_model(old(self)@),
            final(self).spec_tail() == old(self).spec_tail(),
            final(self).spec_head() == if old(self)@.len() == 0 {
                old(self).spec_head()
            } else {
                next_position(old(self).spec_head())
            },
    {
        if self.is_empty() {
            return None;
        }
        let ghost old_items = self@;
        let head = self.head;
        proof {
            assert(self.data@[ring_index(head as int, 0)] is Some);
            assert(ring_index(head as int, 0) == head as int);
        }
        let item = self.data[head as usize].take();
        self.head = if head == 255 {
            0
        } else {
            head + 1
        };
        self.len = self.len - 1;
        proof {
            let h = self.head as int;
            assert forall|i: int| 0 <= i < FIFO_CAPACITY implies ring_index(h, i) == ring_index(
                head as int,
                i + 1,
            ) % (FIFO_CAPACITY as int) by {}
            assert(self.tail as int == ring_index(h, self.len as int));
            assert forall|i: int| 0 <= i < FIFO_CAPACITY implies (#[trigger] self.data@[ring_index(
                h,
                i,
            )] is Some <==> i < self.len) by {
                if i == FIFO_CAPACITY - 1 {
                    assert(ring_index(h, i) == head as int);
                } else {
                    assert(ring_index(h, i) == ring_index(head as int, i + 1));
                    assert(ring_index(head as int, i + 1) != head as int);
                    assert(old(self).data@[ring_index(head as int, i + 1)] is Some <==> i + 1
                        < old(self).len);
                }
            }
            assert forall|i: int| 0 <= i < self.len implies #[trigger] self@[i]
                == old_items.drop_first()[i] by {
                assert(ring_index(h, i) == ring_index(head as int, i + 1));
                assert(ring_index(head as int, i + 1) != head as int);
            }
            assert(self@ =~= old_items.drop_first());
        }
        item
    }

    /// Whether the queue holds `FIFO_CAPACITY` items.
    pub fn is_full(&self) -> (b: bool)
        ensures
            b == (self@.len() == FIFO_CAPACITY),
    {
        self.len == FIFO_CAPACITY
    }

    /// Whether the queue holds no item.
    pub fn is_empty(&self) -> (b: bool)
        ensures
            b == (self@.len() == 0),
    {
        self.len == 0
    }

    /// Number of queued items.
    pub fn len(&self) -> (n: usize)
        ensures
            n == self@.len(),
    {
        self.len
    }

    /// Slot of the next item to leave.
    pub fn head(&self) -> (h: u8)
        ensures
            h == self.spec_head(),
    {
        self.head
    }
}

} // verus!
