//! A fixed-capacity circular buffer over copyable elements.
//!
//! The buffer holds `capacity` slots and two cursors: `head`, the next slot
//! to be written, and `tail`, the next slot to be read. All cursor
//! arithmetic is performed modulo the capacity, so the buffer acts both as
//! a FIFO queue (`push` / `pop`) and as a randomly addressable window
//! (`put` / `peek` / `get`).

use vstd::arithmetic::div_mod::{
    lemma_add_mod_noop_right, lemma_mod_add_multiples_vanish, lemma_mod_self_0, lemma_small_mod,
};
use vstd::prelude::*;

verus! {

/// Mathematical model of a ring buffer: the raw storage, the two cursors,
/// and the fill element used at construction and on `reset`.
#[verifier::ext_equal]
pub ghost struct RingModel<T> {
    pub storage: Seq<T>,
    pub head: int,
    pub tail: int,
    pub zero: T,
}

impl<T> RingModel<T> {
    /// Number of storage slots.
    pub open spec fn cap(self) -> int {
        self.storage.len() as int
    }

    /// Both cursors lie inside the non-empty storage.
    pub open spec fn wf(self) -> bool {
        0 < self.cap() && 0 <= self.head < self.cap() && 0 <= self.tail < self.cap()
    }

    /// Number of queued elements: `(head - tail)` modulo the capacity,
    /// written without `%` by adding the capacity when `head` has wrapped
    /// past `tail`.
    pub open spec fn qlen(self) -> int {
        if self.head >= self.tail {
            self.head - self.tail
        } else {
            self.head + self.cap() - self.tail
        }
    }

    /// Storage position of the `i`-th queued element (for `0 <= i < cap()`):
    /// `tail + i`, wrapped once past the end of the storage.
    pub open spec fn pos(self, i: int) -> int {
        if self.tail + i < self.cap() {
            self.tail + i
        } else {
            self.tail + i - self.cap()
        }
    }

    /// The queued elements in FIFO order, oldest first.
    pub open spec fn queue(self) -> Seq<T> {
        Seq::new(self.qlen() as nat, |i: int| self.storage[self.pos(i)])
    }

    /// State after a write-and-advance of `value`.
    pub open spec fn pushed(self, value: T) -> RingModel<T> {
        RingModel {
            storage: self.storage.update(self.head, value),
            head: if self.head + 1 == self.cap() {
                0
            } else {
                self.head + 1
            },
            ..self
        }
    }

    /// State after a read-and-advance.
    pub open spec fn popped(self) -> RingModel<T> {
        RingModel {
            tail: if self.tail + 1 == self.cap() {
                0
            } else {
                self.tail + 1
            },
            ..self
        }
    }

    /// The element a read-and-advance returns.
    pub open spec fn popped_value(self) -> T {
        self.storage[self.tail]
    }

    /// Every slot holds the fill element and both cursors are at zero:
    /// the state established by construction and by `reset`.
    pub open spec fn all_zero(self) -> bool {
        self.head == 0 && self.tail == 0 && self.storage == Seq::new(
            self.storage.len(),
            |i: int| self.zero,
        )
    }

    /// State after pushing every element of `vs`, in order.
    pub open spec fn pushed_all(self, vs: Seq<T>) -> RingModel<T>
        decreases vs.len(),
    {
        if vs.len() == 0 {
            self
        } else {
            self.pushed(vs[0]).pushed_all(vs.subrange(1, vs.len() as int))
        }
    }

    /// State after popping `k` times.
    pub open spec fn popped_all(self, k: nat) -> RingModel<T>
        decreases k,
    {
        if k == 0 {
            self
        } else {
            self.popped().popped_all((k - 1) as nat)
        }
    }

    /// The elements `k` successive pops return, in order.
    pub open spec fn popped_values(self, k: nat) -> Seq<T>
        decreases k,
    {
        if k == 0 {
            Seq::empty()
        } else {
            seq![self.popped_value()] + self.popped().popped_values((k - 1) as nat)
        }
    }

    /// While the queue is not full, a push appends the new value to the
    /// queue and leaves the older elements in place.
    pub proof fn lemma_push_queue(self, value: T)
        requires
            self.wf(),
            self.qlen() + 1 < self.cap(),
        ensures
            self.pushed(value).wf(),
            self.pushed(value).cap() == self.cap(),
            self.pushed(value).qlen() == self.qlen() + 1,
            self.pushed(value).queue() == self.queue().push(value),
    {
        assert(self.pushed(value).queue() =~= self.queue().push(value));
    }

    /// A pop returns the oldest queued element and removes it from the
    /// queue, leaving the younger elements in order.
    pub proof fn lemma_pop_queue(self)
        requires
            self.wf(),
            self.qlen() > 0,
        ensures
            self.popped().wf(),
            self.popped().cap() == self.cap(),
            self.popped().qlen() == self.qlen() - 1,
            self.popped_value() == self.queue()[0],
            self.popped().queue() == self.queue().subrange(1, self.qlen()),
    {
        assert(self.popped().queue() =~= self.queue().subrange(1, self.qlen()));
    }

    /// Ring property, push side: as long as the queue never fills, pushing
    /// any sequence of values one at a time appends them to the queue in
    /// push order, across arbitrarily many wrap cycles.
    pub proof fn lemma_fifo_push_order(self, vs: Seq<T>)
        requires
            self.wf(),
            self.qlen() + vs.len() < self.cap(),
        ensures
            self.pushed_all(vs).wf(),
            self.pushed_all(vs).cap() == self.cap(),
            self.pushed_all(vs).qlen() == self.qlen() + vs.len(),
            self.pushed_all(vs).queue() == self.queue() + vs,
        decreases vs.len(),
    {
        if vs.len() == 0 {
            assert(self.pushed_all(vs).queue() =~= self.queue() + vs);
        } else {
            let rest = vs.subrange(1, vs.len() as int);
            self.lemma_push_queue(vs[0]);
            self.pushed(vs[0]).lemma_fifo_push_order(rest);
            assert(self.queue().push(vs[0]) + rest =~= self.queue() + vs);
        }
    }

    /// Ring property, pop side: popping `k <= qlen()` times returns the
    /// first `k` queued elements in order and leaves the rest queued.
    pub proof fn lemma_fifo_pop_order(self, k: nat)
        requires
            self.wf(),
            k <= self.qlen(),
        ensures
            self.popped_all(k).wf(),
            self.popped_all(k).cap() == self.cap(),
            self.popped_all(k).qlen() == self.qlen() - k,
            self.popped_values(k) == self.queue().subrange(0, k as int),
            self.popped_all(k).queue() == self.queue().subrange(k as int, self.qlen()),
        decreases k,
    {
        if k == 0 {
            assert(self.popped_values(k) =~= self.queue().subrange(0, 0));
            assert(self.popped_all(k).queue() =~= self.queue().subrange(0, self.qlen()));
        } else {
            self.lemma_pop_queue();
            self.popped().lemma_fifo_pop_order((k - 1) as nat);
            assert(self.popped_values(k) =~= self.queue().subrange(0, k as int));
            assert(self.popped_all(k).queue() =~= self.queue().subrange(
                k as int,
                self.qlen(),
            ));
        }
    }

    /// Ring property, in full: pushing `vs` into a queue that never fills
    /// and then draining everything returns the old queue followed by `vs`,
    /// exactly in push order.
    pub proof fn lemma_fifo(self, vs: Seq<T>)
        requires
            self.wf(),
            self.qlen() + vs.len() < self.cap(),
        ensures
            self.pushed_all(vs).popped_values((self.qlen() + vs.len()) as nat) == self.queue()
                + vs,
    {
        self.lemma_fifo_push_order(vs);
        self.pushed_all(vs).lemma_fifo_pop_order((self.qlen() + vs.len()) as nat);
        assert(self.pushed_all(vs).queue().subrange(
            0,
            self.qlen() + vs.len(),
        ) =~= self.queue() + vs);
    }
}

/// A fixed-capacity circular buffer with a write cursor (`head`) and a
/// read cursor (`tail`), both advanced modulo the capacity.
pub struct RingBuffer<T> {
    buffer: Vec<T>,
    head: usize,
    tail: usize,
    zero: T,
}

impl<T> View for RingBuffer<T> {
    type V = RingModel<T>;

    closed spec fn view(&self) -> RingModel<T> {
        RingModel {
            storage: self.buffer@,
            head: self.head as int,
            tail: self.tail as int,
            zero: self.zero,
        }
    }
}

impl<T: Copy + Default> RingBuffer<T> {
    /// Allocates `capacity` slots, all holding the element type's default
    /// value, with both cursors at zero.
    pub fn new(capacity: usize) -> (result: Self)
        requires
            capacity > 0,
        ensures
            result@.wf(),
            result@.cap() == capacity,
            result@.all_zero(),
            result@.qlen() == 0,
            call_ensures(T::default, (), result@.zero),
    {
        let zero = T::default();
        let mut buffer: Vec<T> = Vec::new();
        let mut i: usize = 0;
        while i < capacity
            invariant
                i <= capacity,
                buffer@.len() == i,
                forall|j: int| 0 <= j < i ==> buffer@[j] == zero,
            decreases capacity - i,
        {
            buffer.push(zero);
            i = i + 1;
        }
        let result = RingBuffer { buffer, head: 0, tail: 0, zero };
        proof {
            assert(result@.storage =~= Seq::new(result@.storage.len(), |j: int| result@.zero));
        }
        result
    }

    /// Fixed size of the backing store; never changes after construction.
    pub fn capacity(&self) -> (result: usize)
        ensures
            result == self@.cap(),
    {
        self.buffer.len()
    }

    /// Zeroes every stored slot and returns both cursors to zero.
    pub fn reset(&mut self)
        requires
            old(self)@.wf(),
        ensures
            final(self)@.wf(),
            final(self)@.cap() == old(self)@.cap(),
            final(self)@.zero == old(self)@.zero,
            final(self)@.all_zero(),
    {
        let ghost z = self.zero;
        let n = self.buffer.len();
        let mut i: usize = 0;
        while i < n
            invariant
                i <= n,
                self.buffer@.len() == n,
                self.zero == z,
                forall|j: int| 0 <= j < i ==> self.buffer@[j] == z,
            decreases n - i,
        {
            let fill = self.zero;
            self.buffer[i] = fill;
            i = i + 1;
        }
        self.head = 0;
        self.tail = 0;
        proof {
            assert(self@.storage =~= Seq::new(self@.storage.len(), |j: int| self@.zero));
        }
    }

    /// Writes `value` at the write cursor without advancing it.
    pub fn put(&mut self, value: T)
        requires
            old(self)@.wf(),
        ensures
            final(self)@.wf(),
            final(self)@ == (RingModel {
                storage: old(self)@.storage.update(old(self)@.head, value),
                ..old(self)@
            }),
    {
        let i = self.head;
        self.buffer[i] = value;
    }

    /// Reads the slot at the read cursor without advancing it.
    pub fn peek(&self) -> (result: T)
        requires
            self@.wf(),
        ensures
            result == self@.storage[self@.tail],
            self@.qlen() > 0 ==> result == self@.queue()[0],
    {
        self.buffer[self.tail]
    }

    /// Reads the slot `offset` places past the read cursor, wrapping modulo
    /// the capacity; `offset` may be any value, including ones at or beyond
    /// the capacity.
    pub fn get(&self, offset: usize) -> (result: T)
        requires
            self@.wf(),
        ensures
            result == self@.storage[(self@.tail + offset) % self@.cap()],
            0 <= offset < self@.qlen() ==> result == self@.queue()[offset as int],
    {
        let n = self.buffer.len();
        let o = offset % n;
        let i = if o < n - self.tail {
            self.tail + o
        } else {
            o - (n - self.tail)
        };
        proof {
            lemma_add_mod_noop_right(self@.tail, offset as int, n as int);
            if self@.tail + o < n as int {
                lemma_small_mod((self@.tail + o) as nat, n as nat);
            } else {
                lemma_mod_add_multiples_vanish(self@.tail + o - n, n as int);
                lemma_small_mod((self@.tail + o - n) as nat, n as nat);
            }
            if 0 <= offset < self@.qlen() {
                lemma_small_mod(offset as nat, n as nat);
            }
        }
        self.buffer[i]
    }

    /// Writes `value` at the write cursor, then advances the write cursor
    /// by one modulo the capacity.
    pub fn push(&mut self, value: T)
        requires
            old(self)@.wf(),
        ensures
            final(self)@.wf(),
            final(self)@ == old(self)@.pushed(value),
            old(self)@.qlen() + 1 < old(self)@.cap() ==> final(self)@.queue() == old(
                self,
            )@.queue().push(value),
    {
        let n = self.buffer.len();
        let i = self.head;
        self.buffer[i] = value;
        self.head = (self.head + 1) % n;
        proof {
            lemma_inc_wraps(old(self)@.head, old(self)@.cap());
            if old(self)@.qlen() + 1 < old(self)@.cap() {
                old(self)@.lemma_push_queue(value);
            }
        }
    }

    /// Returns the slot at the read cursor, then advances the read cursor
    /// by one modulo the capacity.
    pub fn pop(&mut self) -> (result: T)
        requires
            old(self)@.wf(),
        ensures
            final(self)@.wf(),
            result == old(self)@.popped_value(),
            final(self)@ == old(self)@.popped(),
            old(self)@.qlen() > 0 ==> result == old(self)@.queue()[0] && final(self)@.queue()
                == old(self)@.queue().subrange(1, old(self)@.qlen()),
    {
        let n = self.buffer.len();
        let value = self.buffer[self.tail];
        self.tail = (self.tail + 1) % n;
        proof {
            lemma_inc_wraps(old(self)@.tail, old(self)@.cap());
            if old(self)@.qlen() > 0 {
                old(self)@.lemma_pop_queue();
            }
        }
        value
    }

    /// Current read cursor.
    pub fn get_read_index(&self) -> (result: usize)
        ensures
            result == self@.tail,
    {
        self.tail
    }

    /// Moves the read cursor to `index` modulo the capacity; any index is
    /// accepted, including ones at or beyond the capacity.
    pub fn set_read_index(&mut self, index: usize)
        requires
            old(self)@.wf(),
        ensures
            final(self)@.wf(),
            final(self)@ == (RingModel { tail: index as int % old(self)@.cap(), ..old(self)@ }),
    {
        self.tail = index % self.buffer.len();
    }

    /// Current write cursor.
    pub fn get_write_index(&self) -> (result: usize)
        ensures
            result == self@.head,
    {
        self.head
    }

    /// Moves the write cursor to `index` modulo the capacity; any index is
    /// accepted, including ones at or beyond the capacity.
    pub fn set_write_index(&mut self, index: usize)
        requires
            old(self)@.wf(),
        ensures
            final(self)@.wf(),
            final(self)@ == (RingModel { head: index as int % old(self)@.cap(), ..old(self)@ }),
    {
        self.head = index % self.buffer.len();
    }

    /// Number of queued elements: how far the write cursor is ahead of the
    /// read cursor, wrapping past the end of the storage.
    pub fn len(&self) -> (result: usize)
        requires
            self@.wf(),
        ensures
            result == self@.qlen(),
            result == self@.queue().len(),
    {
        if self.head >= self.tail {
            self.head - self.tail
        } else {
            self.head + (self.buffer.len() - self.tail)
        }
    }
}

/// Advancing a cursor by one modulo `n` wraps it to zero exactly at `n`.
proof fn lemma_inc_wraps(i: int, n: int)
    requires
        0 <= i < n,
    ensures
        (i + 1) % n == if i + 1 == n {
            0int
        } else {
            i + 1
        },
{
    if i + 1 == n {
        lemma_mod_self_0(n);
    } else {
        lemma_small_mod((i + 1) as nat, n as nat);
    }
}

} // verus!
