use vstd::prelude::*;
use vstd::arithmetic::div_mod::{
    lemma_add_mod_noop_right, lemma_mod_division_less_than_divisor, lemma_mod_self_0,
    lemma_small_mod, lemma_sub_mod_noop_right,
};

verus! {

/// Capacity of the process-wide intake buffer: 1024 slots, 1023 of them
/// usable at once.
pub const STORAGE_SIZE: usize = 1024;

/// Abstract effect of a single-element enqueue on contents `c` under the
/// given capacity: the grown contents when a slot is free, `None` when the
/// buffer is full.
pub open spec fn spec_enqueue<T>(c: Seq<T>, x: T, cap: int) -> Option<Seq<T>> {
    if c.len() < cap - 1 {
        Some(c.push(x))
    } else {
        None
    }
}

/// Abstract effect of a bulk enqueue: all or nothing. The whole sequence is
/// appended when it fits into the free slots, and nothing changes otherwise.
pub open spec fn spec_enqueue_slice<T>(c: Seq<T>, d: Seq<T>, cap: int) -> Option<Seq<T>> {
    if d.len() <= cap - 1 - c.len() {
        Some(c + d)
    } else {
        None
    }
}

/// Abstract effect of dequeuing up to `want` elements from contents `c`:
/// the pair of what is copied out (oldest first) and what remains.
pub open spec fn spec_dequeue<T>(c: Seq<T>, want: nat) -> (Seq<T>, Seq<T>) {
    let k = if c.len() <= want {
        c.len() as int
    } else {
        want as int
    };
    (c.take(k), c.skip(k))
}

/// Abstract effect of enqueuing the elements of `xs` one at a time, stopping
/// at the first failure.
pub open spec fn spec_enqueue_all<T>(c: Seq<T>, xs: Seq<T>, cap: int) -> Option<Seq<T>>
    decreases xs.len(),
{
    if xs.len() == 0 {
        Some(c)
    } else {
        match spec_enqueue(c, xs[0], cap) {
            Some(c2) => spec_enqueue_all(c2, xs.skip(1), cap),
            None => None,
        }
    }
}

/// Fixed-capacity circular buffer for moving values from one producer
/// context to one consumer context.
///
/// `tail` is the next slot to be written, `head` the next to be read;
/// `tail == head` means empty, so one slot always stays free. At most one
/// write-role call (`enqueue`, `enqueue_slice`) and one read-role call
/// (`dequeue_into`) may be in flight at any instant, `clear` counting as
/// both; exclusive access through `&mut self` enforces that discipline at
/// compile time, and the two lock flags record a call in progress, so both
/// are clear whenever no call is running.
pub struct RingBuffer<T> {
    storage: Vec<T>,
    tail: usize,
    head: usize,
    write_lock: bool,
    read_lock: bool,
}

impl<T> View for RingBuffer<T> {
    type V = Seq<T>;

    /// The unread elements, oldest first.
    closed spec fn view(&self) -> Seq<T> {
        Seq::new(self.occupied() as nat, |i: int| self.storage@[self.slot(i)])
    }
}

impl<T> RingBuffer<T> {
    /// Number of storage slots; one slot is always kept free, so at most
    /// `capacity() - 1` elements are occupied.
    pub closed spec fn capacity(self) -> int {
        self.storage@.len() as int
    }

    /// Number of unread elements: `(capacity + tail - head) % capacity`.
    pub closed spec fn occupied(self) -> int {
        (self.capacity() + self.tail - self.head) % self.capacity()
    }

    /// Physical index of the `off`-th unread slot, counting from `head`.
    closed spec fn slot(self, off: int) -> int {
        (self.head + off) % self.capacity()
    }

    /// Holds between calls: cursors in range, no call in flight. The bound
    /// on the capacity keeps the cursor arithmetic within `usize`.
    pub closed spec fn wf(self) -> bool {
        &&& 1 <= self.capacity()
        &&& 2 * self.capacity() <= usize::MAX as int
        &&& (self.head as int) < self.capacity()
        &&& (self.tail as int) < self.capacity()
        &&& !self.write_lock
        &&& !self.read_lock
    }

    /// The view never fills the slot that disambiguates full from empty.
    pub proof fn lemma_occupied_bound(self)
        requires
            self.wf(),
        ensures
            0 <= self@.len() < self.capacity(),
            self@.len() == self.occupied(),
    {
        lemma_mod_division_less_than_divisor(
            self.capacity() + self.tail - self.head,
            self.capacity(),
        );
    }

    /// Adding a full turn of the ring to an offset does not move the slot.
    proof fn lemma_slot_shift(self, a: int, b: int)
        requires
            1 <= self.capacity(),
        ensures
            (a % self.capacity() + b) % self.capacity() == (a + b) % self.capacity(),
    {
        lemma_add_mod_noop_right(b, a, self.capacity());
    }

    /// The `off`-th unread slot counted from `head` is the `off - occupied`-th
    /// free slot counted from `tail` (offsets taken modulo the capacity).
    proof fn lemma_slot_from_tail(self, k: int)
        requires
            self.wf(),
        ensures
            self.slot(self.occupied() + k) == (self.tail + k) % self.capacity(),
    {
        let n = self.capacity();
        self.lemma_slot_shift(n + self.tail - self.head, self.head + k);
        self.lemma_slot_shift(n, self.tail + k);
        lemma_mod_self_0(n);
    }

    /// Distinct offsets within one turn of the ring land on distinct slots.
    proof fn lemma_slot_injective(self, i: int, j: int)
        requires
            self.wf(),
            0 <= i < self.capacity(),
            0 <= j < self.capacity(),
            self.slot(i) == self.slot(j),
        ensures
            i == j,
    {
        let n = self.capacity();
        self.lemma_slot_shift(self.head + i, n - self.head);
        self.lemma_slot_shift(self.head + j, n - self.head);
        lemma_small_mod(i as nat, n as nat);
        lemma_small_mod(j as nat, n as nat);
        assert((self.slot(i) + (n - self.head)) % n == (self.head + i + n - self.head) % n);
        assert((self.head + i + n - self.head) % n == i) by {
            self.lemma_slot_shift(n, i);
            lemma_mod_self_0(n);
        }
        assert((self.head + j + n - self.head) % n == j) by {
            self.lemma_slot_shift(n, j);
            lemma_mod_self_0(n);
        }
    }

    /// Each slot is within the storage bounds.
    proof fn lemma_slot_in_bounds(self, off: int)
        requires
            1 <= self.capacity(),
        ensures
            0 <= self.slot(off) < self.capacity(),
            0 <= self.occupied() < self.capacity(),
    {
        lemma_mod_division_less_than_divisor(self.head + off, self.capacity());
        lemma_mod_division_less_than_divisor(
            self.capacity() + self.tail - self.head,
            self.capacity(),
        );
    }

    /// The cursor form of the free-slot count matches `capacity - 1 - occupied`.
    proof fn lemma_free_space(self)
        requires
            self.wf(),
        ensures
            (self.capacity() + self.head - self.tail - 1) % self.capacity() == self.capacity()
                - 1 - self.occupied(),
    {
        let n = self.capacity();
        let s = n + self.tail - self.head;
        self.lemma_occupied_bound();
        lemma_mod_self_0(n);
        if s < n {
            lemma_small_mod(s as nat, n as nat);
            self.lemma_slot_shift(n, n - s - 1);
            lemma_small_mod((n - s - 1) as nat, n as nat);
        } else {
            self.lemma_slot_shift(n, s - n);
            lemma_small_mod((s - n) as nat, n as nat);
            lemma_small_mod((2 * n - s - 1) as nat, n as nat);
        }
    }

    /// The cursor test for a full ring: advancing `tail` one slot reaches
    /// `head` exactly when all usable slots are occupied.
    proof fn lemma_full_condition(self)
        requires
            self.wf(),
        ensures
            ((self.tail + 1) % self.capacity() == self.head) <==> (self.occupied()
                == self.capacity() - 1),
    {
        let n = self.capacity();
        self.lemma_slot_from_tail(1);
        self.lemma_occupied_bound();
        lemma_small_mod(self.head as nat, n as nat);
        self.lemma_slot_shift(n, self.head as int);
        lemma_mod_self_0(n);
        if self.occupied() == n - 1 {
            assert(self.slot(self.occupied() + 1) == (self.head + n) % n);
        } else if (self.tail + 1) % n == self.head {
            assert(self.slot(0) == self.head);
            self.lemma_slot_injective(self.occupied() + 1, 0);
        }
    }
}

impl<T: Default + Copy> RingBuffer<T> {
    /// A buffer of `STORAGE_SIZE` default-valued slots, empty, unlocked.
    pub fn new() -> (r: Self)
        ensures
            r.wf(),
            r.capacity() == STORAGE_SIZE as int,
            r@ == Seq::<T>::empty(),
    {
        Self::with_capacity(STORAGE_SIZE)
    }

    /// A buffer of `n` default-valued slots, empty, unlocked. The bound on
    /// `n` keeps the cursor arithmetic within `usize`.
    pub fn with_capacity(n: usize) -> (r: Self)
        requires
            1 <= n,
            2 * n <= usize::MAX,
        ensures
            r.wf(),
            r.capacity() == n as int,
            r@ == Seq::<T>::empty(),
    {
        let fill = T::default();
        let mut storage: Vec<T> = Vec::new();
        let mut i: usize = 0;
        while i < n
            invariant
                storage@.len() == i,
                i <= n,
            decreases n - i,
        {
            storage.push(fill);
            i = i + 1;
        }
        let r = Self { storage, tail: 0, head: 0, write_lock: false, read_lock: false };
        proof {
            lemma_mod_self_0(r.capacity());
            assert(r@ =~= Seq::<T>::empty());
        }
        r
    }

    /// Discard all buffered content without touching the stored values.
    ///
    /// Clearing is both a write-role and a read-role call, so it takes both
    /// locks; with exclusive access they are always free here.
    pub fn clear(&mut self)
        requires
            old(self).wf(),
        ensures
            final(self).wf(),
            final(self).capacity() == old(self).capacity(),
            final(self)@ == Seq::<T>::empty(),
    {
        self.write_lock = true;
        self.read_lock = true;
        let h = self.head;
        self.tail = h;
        self.write_lock = false;
        self.read_lock = false;
        proof {
            lemma_mod_self_0(self.capacity());
            assert(self@ =~= Seq::<T>::empty());
        }
    }

    /// Enqueue a single value; fails, changing nothing, when the buffer is
    /// full.
    pub fn enqueue(&mut self, data: T) -> (r: Result<(), ()>)
        requires
            old(self).wf(),
        ensures
            final(self).wf(),
            final(self).capacity() == old(self).capacity(),
            match spec_enqueue(old(self)@, data, old(self).capacity()) {
                Some(c) => r is Ok && final(self)@ == c,
                None => r is Err && *final(self) == *old(self),
            },
    {
        let ghost g = *old(self);
        let n = self.storage.len();
        // write-role guard: with exclusive access the flag is always free
        self.write_lock = true;
        let tail = self.tail;
        let head = self.head;
        if (tail + 1) % n == head {
            self.write_lock = false;
            proof {
                g.lemma_full_condition();
                g.lemma_occupied_bound();
            }
            return Err(());
        }
        self.storage[tail] = data;
        self.tail = (tail + 1) % n;
        self.write_lock = false;
        proof {
            g.lemma_full_condition();
            g.lemma_occupied_bound();
            let n_ = n as int;
            let occ = g.occupied();
            // the new tail cursor stays in range
            lemma_mod_division_less_than_divisor(tail + 1, n_);
            // occupied count grows by exactly one
            g.lemma_slot_shift(tail + 1, n_ - head);
            g.lemma_slot_shift(n_ + tail - head, 1);
            lemma_small_mod((occ + 1) as nat, n as nat);
            assert(self.occupied() == occ + 1);
            // the written slot is the first free one; all unread slots keep
            // their values
            g.lemma_slot_from_tail(0);
            lemma_small_mod(tail as nat, n as nat);
            assert forall|i: int| 0 <= i < occ implies g.slot(i) != tail as int by {
                if g.slot(i) == tail as int {
                    g.lemma_slot_injective(i, occ);
                }
            }
            assert forall|i: int| 0 <= i < occ implies self@[i] == g@[i] by {
                g.lemma_slot_in_bounds(i);
            }
            assert(self@[occ as int] == data);
            assert(self@ =~= g@.push(data));
        }
        Ok(())
    }

    /// Enqueue a whole sequence, all or nothing: when it does not fit into
    /// the free slots, nothing is written and the call fails.
    ///
    /// The copy splits into at most two contiguous runs: up to the physical
    /// end of storage, then wrapping around to slot zero.
    #[verifier::loop_isolation(false)]
    pub fn enqueue_slice(&mut self, data: &[T]) -> (r: Result<(), ()>)
        requires
            old(self).wf(),
        ensures
            final(self).wf(),
            final(self).capacity() == old(self).capacity(),
            match spec_enqueue_slice(old(self)@, data@, old(self).capacity()) {
                Some(c) => r is Ok && final(self)@ == c,
                None => r is Err && *final(self) == *old(self),
            },
    {
        let ghost g = *old(self);
        let n = self.storage.len();
        // write-role guard: with exclusive access the flag is always free
        self.write_lock = true;
        let tail = self.tail;
        let head = self.head;
        let space = (n + head - tail - 1) % n;
        proof {
            g.lemma_free_space();
            g.lemma_occupied_bound();
        }
        if data.len() > space {
            self.write_lock = false;
            return Err(());
        }
        let len = data.len();
        let size1 = if n < tail + len {
            n - tail
        } else {
            len
        };
        let size2 = len - size1;
        let ghost occ = g.occupied();
        let mut k: usize = 0;
        while k < size1
            invariant
                k <= size1,
                self.storage@.len() == n,
                self.head == g.head,
                self.tail == g.tail,
                self.write_lock,
                !self.read_lock,
                forall|j: int| 0 <= j < k ==> self.storage@[tail + j] == data@[j],
                forall|p: int|
                    0 <= p < n && !(tail <= p < tail + k) ==> self.storage@[p] == g.storage@[p],
            decreases size1 - k,
        {
            self.storage[tail + k] = data[k];
            k = k + 1;
        }
        let mut k2: usize = 0;
        while k2 < size2
            invariant
                k2 <= size2,
                self.storage@.len() == n,
                self.head == g.head,
                self.tail == g.tail,
                self.write_lock,
                !self.read_lock,
                forall|j: int| 0 <= j < size1 ==> self.storage@[tail + j] == data@[j],
                forall|j: int| 0 <= j < k2 ==> self.storage@[j] == data@[size1 + j],
                forall|p: int|
                    0 <= p < n && !(tail <= p < tail + size1) && !(0 <= p < k2)
                        ==> self.storage@[p] == g.storage@[p],
            decreases size2 - k2,
        {
            self.storage[k2] = data[size1 + k2];
            k2 = k2 + 1;
        }
        self.tail = (tail + len) % n;
        self.write_lock = false;
        proof {
            let n_ = n as int;
            let len_ = len as int;
            // every written slot, in wrapped form, now holds its element
            assert forall|j: int| 0 <= j < len_ implies self.storage@[(tail + j) % n_]
                == data@[j] by {
                if j < size1 {
                    lemma_small_mod((tail + j) as nat, n as nat);
                } else {
                    g.lemma_slot_shift(n_, j - size1);
                    lemma_mod_self_0(n_);
                    lemma_small_mod((j - size1) as nat, n as nat);
                }
            }
            // the tail cursor stays in range and the count grows by the
            // length of the sequence
            lemma_mod_division_less_than_divisor(tail + len_, n_);
            g.lemma_slot_shift(tail + len_, n_ - head);
            g.lemma_slot_shift(n_ + tail - head, len_);
            lemma_small_mod((occ + len_) as nat, n as nat);
            assert(self.occupied() == occ + len_);
            // unread slots are untouched: none of them is a written slot
            assert forall|i: int| 0 <= i < occ implies self.storage@[g.slot(i)]
                == g.storage@[g.slot(i)] by {
                g.lemma_slot_in_bounds(i);
                let p = g.slot(i);
                if tail <= p < tail + size1 {
                    let j = p - tail;
                    g.lemma_slot_from_tail(j);
                    lemma_small_mod((tail + j) as nat, n as nat);
                    g.lemma_slot_injective(i, occ + j);
                } else if 0 <= p < size2 {
                    let j = size1 + p;
                    g.lemma_slot_from_tail(j);
                    g.lemma_slot_shift(n_, p);
                    lemma_mod_self_0(n_);
                    lemma_small_mod(p as nat, n as nat);
                    g.lemma_slot_injective(i, occ + j);
                }
            }
            assert forall|i: int| 0 <= i < occ + len_ implies self@[i] == (g@ + data@)[i] by {
                if i < occ {
                    g.lemma_slot_in_bounds(i);
                } else {
                    g.lemma_slot_from_tail(i - occ);
                }
            }
            assert(self@ =~= g@ + data@);
        }
        Ok(())
    }

    /// Dequeue into a caller-supplied buffer, returning how many elements
    /// were copied: as many as are available, up to the destination's
    /// length. An empty buffer yields 0; this is the designed no-data
    /// signal, never a failure. Destination slots past the returned count
    /// are untouched.
    #[verifier::loop_isolation(false)]
    pub fn dequeue_into(&mut self, buf: &mut [T]) -> (r: usize)
        requires
            old(self).wf(),
        ensures
            final(self).wf(),
            final(self).capacity() == old(self).capacity(),
            final(buf)@.len() == old(buf)@.len(),
            r == spec_dequeue(old(self)@, old(buf)@.len()).0.len(),
            final(buf)@.subrange(0, r as int) == spec_dequeue(old(self)@, old(buf)@.len()).0,
            final(buf)@.subrange(r as int, old(buf)@.len() as int) == old(buf)@.subrange(
                r as int,
                old(buf)@.len() as int,
            ),
            final(self)@ == spec_dequeue(old(self)@, old(buf)@.len()).1,
    {
        let ghost g = *old(self);
        let ghost b0 = buf@;
        let n = self.storage.len();
        // read-role guard: with exclusive access the flag is always free
        self.read_lock = true;
        let tail = self.tail;
        let head = self.head;
        let available = (n + tail - head) % n;
        proof {
            g.lemma_occupied_bound();
        }
        let to_copy = if available < buf.len() {
            available
        } else {
            buf.len()
        };
        let size1 = if head + to_copy < n {
            to_copy
        } else {
            n - head
        };
        let size2 = to_copy - size1;
        let mut k: usize = 0;
        while k < size1
            invariant
                k <= size1,
                buf@.len() == b0.len(),
                forall|j: int| 0 <= j < k ==> buf@[j] == self.storage@[head + j],
                forall|p: int| k <= p < b0.len() ==> buf@[p] == b0[p],
            decreases size1 - k,
        {
            let v = self.storage[head + k];
            buf[k] = v;
            k = k + 1;
        }
        let mut k2: usize = 0;
        while k2 < size2
            invariant
                k2 <= size2,
                buf@.len() == b0.len(),
                forall|j: int| 0 <= j < size1 ==> buf@[j] == self.storage@[head + j],
                forall|j: int| 0 <= j < k2 ==> buf@[size1 + j] == self.storage@[j],
                forall|p: int| size1 + k2 <= p < b0.len() ==> buf@[p] == b0[p],
            decreases size2 - k2,
        {
            let v = self.storage[k2];
            buf[size1 + k2] = v;
            k2 = k2 + 1;
        }
        self.head = (head + to_copy) % n;
        self.read_lock = false;
        proof {
            let n_ = n as int;
            let cnt = to_copy as int;
            let occ = g.occupied();
            // the head cursor stays in range and the count shrinks by the
            // number of elements copied out
            lemma_mod_division_less_than_divisor(head + cnt, n_);
            lemma_sub_mod_noop_right(n_ + tail, head + cnt, n_);
            g.lemma_slot_shift(n_ + tail - head, -cnt);
            lemma_small_mod((occ - cnt) as nat, n as nat);
            assert(self.occupied() == occ - cnt);
            // each copied element is the unread element at the same offset
            assert forall|i: int| 0 <= i < cnt implies buf@[i] == g@[i] by {
                g.lemma_slot_in_bounds(i);
                if i < size1 {
                    lemma_small_mod((head + i) as nat, n as nat);
                } else {
                    g.lemma_slot_shift(n_, i - size1);
                    lemma_mod_self_0(n_);
                    lemma_small_mod((i - size1) as nat, n as nat);
                }
            }
            // the elements left over are the old ones past the copied prefix
            assert forall|i: int| 0 <= i < occ - cnt implies self@[i] == g@[cnt + i] by {
                self.lemma_slot_shift(head + cnt, i);
                g.lemma_slot_in_bounds(cnt + i);
            }
            assert(self@ =~= g@.skip(cnt));
            assert(buf@.subrange(0, cnt) =~= g@.subrange(0, cnt));
            assert(buf@.subrange(cnt, b0.len() as int) =~= b0.subrange(cnt, b0.len() as int));
        }
        to_copy
    }
}

/// A run of single-element enqueues that fits into the free slots succeeds
/// as a whole and appends the elements in order.
pub proof fn lemma_enqueue_all_fits<T>(c: Seq<T>, xs: Seq<T>, cap: int)
    requires
        c.len() + xs.len() <= cap - 1,
    ensures
        spec_enqueue_all(c, xs, cap) == Some(c + xs),
    decreases xs.len(),
{
    if xs.len() == 0 {
        assert(c + xs =~= c);
    } else {
        lemma_enqueue_all_fits(c.push(xs[0]), xs.skip(1), cap);
        assert(c.push(xs[0]) + xs.skip(1) =~= c + xs);
    }
}

/// Capacity boundary: starting from empty, `cap - 1` single-element
/// enqueues all succeed consecutively, and the next one fails, leaving the
/// contents as they were.
pub proof fn lemma_capacity_boundary<T>(xs: Seq<T>, y: T, cap: int)
    requires
        cap >= 1,
        xs.len() == cap - 1,
    ensures
        spec_enqueue_all(Seq::<T>::empty(), xs, cap) == Some(xs),
        spec_enqueue(xs, y, cap) is None,
{
    lemma_enqueue_all_fits(Seq::<T>::empty(), xs, cap);
    assert(Seq::<T>::empty() + xs =~= xs);
}

/// Round trip: a sequence that fits into an empty buffer, enqueued in bulk
/// and then dequeued into a destination of the same length, comes back
/// exactly, leaving the buffer empty.
pub proof fn lemma_round_trip<T>(xs: Seq<T>, cap: int)
    requires
        xs.len() <= cap - 1,
    ensures
        spec_enqueue_slice(Seq::<T>::empty(), xs, cap) == Some(xs),
        spec_dequeue(xs, xs.len()) == (xs, Seq::<T>::empty()),
{
    assert(Seq::<T>::empty() + xs =~= xs);
    assert(xs.take(xs.len() as int) =~= xs);
    assert(xs.skip(xs.len() as int) =~= Seq::<T>::empty());
}

/// Bulk all-or-nothing: a sequence longer than the free space is refused
/// outright, and a later sequence that fits still succeeds on the unchanged
/// contents.
pub proof fn lemma_bulk_all_or_nothing<T>(c: Seq<T>, d1: Seq<T>, d2: Seq<T>, cap: int)
    requires
        d1.len() > cap - 1 - c.len(),
        d2.len() <= cap - 1 - c.len(),
    ensures
        spec_enqueue_slice(c, d1, cap) is None,
        spec_enqueue_slice(c, d2, cap) == Some(c + d2),
{
}

/// Dequeue saturation: a destination at least as long as the available data
/// receives exactly the available data, the buffer is left empty, and any
/// further dequeue yields nothing until new data arrives.
pub proof fn lemma_dequeue_saturation<T>(c: Seq<T>, want: nat, want2: nat)
    requires
        want >= c.len(),
    ensures
        spec_dequeue(c, want).0 == c,
        spec_dequeue(c, want).1 == Seq::<T>::empty(),
        spec_dequeue(spec_dequeue(c, want).1, want2).0 == Seq::<T>::empty(),
{
    assert(c.take(c.len() as int) =~= c);
    assert(c.skip(c.len() as int) =~= Seq::<T>::empty());
    lemma_dequeue_empty::<T>(want2);
}

/// An empty buffer yields nothing on dequeue, whatever the destination's
/// length; with `clear` leaving the contents empty, a dequeue right after a
/// `clear` returns no elements.
pub proof fn lemma_dequeue_empty<T>(want: nat)
    ensures
        spec_dequeue(Seq::<T>::empty(), want) == (Seq::<T>::empty(), Seq::<T>::empty()),
{
    assert(Seq::<T>::empty().take(0) =~= Seq::<T>::empty());
    assert(Seq::<T>::empty().skip(0) =~= Seq::<T>::empty());
}

} // verus!
