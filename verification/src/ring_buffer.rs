use vstd::prelude::*;

verus! {

/// A fixed-capacity circular buffer.  `read_pos` chases `write_pos`
/// through a vector of slots; equal positions mean an empty buffer, so at
/// most `capacity - 1` elements are readable at a time.  Writing into a
/// buffer that already holds `capacity - 1` elements advances the write
/// position onto the read position, which makes the buffer report itself
/// empty; the contracts below state that behaviour exactly.
pub struct RingBuffer<T> {
    buffer: Vec<Option<T>>,
    capacity: usize,
    read_pos: usize,
    write_pos: usize,
}

impl<T> RingBuffer<T> {
    /// The slot array.
    pub closed spec fn raw(self) -> Seq<Option<T>> {
        self.buffer@
    }

    /// The capacity the buffer was created with.
    pub closed spec fn cap(self) -> int {
        self.capacity as int
    }

    /// The position the next pop reads from.
    pub closed spec fn rpos(self) -> int {
        self.read_pos as int
    }

    /// The position the next push writes to.
    pub closed spec fn wpos(self) -> int {
        self.write_pos as int
    }

    /// How many elements are readable: the circular distance from the
    /// read position to the write position.
    pub open spec fn spec_len(self) -> int {
        if self.rpos() <= self.wpos() {
            self.wpos() - self.rpos()
        } else {
            self.cap() - self.rpos() + self.wpos()
        }
    }

    /// The readable elements in pop order.
    pub open spec fn items(self) -> Seq<T> {
        Seq::new(
            self.spec_len() as nat,
            |k: int| self.raw()[(self.rpos() + k) % self.cap()]->Some_0,
        )
    }

    /// The slot array spans the capacity, both positions are in range,
    /// and every readable slot is occupied.
    pub open spec fn wf(self) -> bool {
        &&& self.raw().len() == self.cap()
        &&& self.cap() >= 1
        &&& 0 <= self.rpos() < self.cap()
        &&& 0 <= self.wpos() < self.cap()
        &&& forall|k: int|
            0 <= k < self.spec_len() ==> (#[trigger] self.raw()[(self.rpos() + k)
                % self.cap()]) is Some
    }

    /// Creates a buffer of `capacity` slots, all unoccupied.
    pub fn new(capacity: usize) -> (rb: Self)
        requires
            capacity >= 1,
        ensures
            rb.wf(),
            rb.cap() == capacity,
            rb.rpos() == 0,
            rb.wpos() == 0,
            rb.spec_len() == 0,
            forall|k: int| 0 <= k < capacity ==> (#[trigger] rb.raw()[k]) is None,
    {
        let mut buffer: Vec<Option<T>> = Vec::with_capacity(capacity);
        let mut i: usize = 0;
        while i < capacity
            invariant
                i <= capacity,
                buffer@.len() == i,
                forall|k: int| 0 <= k < i ==> (#[trigger] buffer@[k]) is None,
            decreases capacity - i,
        {
            buffer.push(None);
            i = i + 1;
        }
        RingBuffer { buffer, capacity, read_pos: 0, write_pos: 0 }
    }

    /// Writes `item` at the write position and advances it.  While the
    /// buffer holds fewer than `capacity - 1` elements this appends; one
    /// more push lands the write position on the read position and the
    /// buffer reports itself empty again.
    pub fn push(&mut self, item: T)
        requires
            old(self).wf(),
        ensures
            final(self).wf(),
            final(self).cap() == old(self).cap(),
            final(self).rpos() == old(self).rpos(),
            final(self).wpos() == (old(self).wpos() + 1) % old(self).cap(),
            final(self).raw() == old(self).raw().update(old(self).wpos(), Some(item)),
            old(self).spec_len() < old(self).cap() - 1 ==> final(self).items() =~= old(
                self,
            ).items().push(item),
            old(self).spec_len() == old(self).cap() - 1 ==> final(self).spec_len() == 0,
    {
        self.buffer.set(self.write_pos, Some(item));
        if self.len() == self.capacity {
            self.read_pos = (self.read_pos + 1) % self.capacity;
        }
        self.write_pos = (self.write_pos + 1) % self.capacity;
        proof {
            let c = old(self).cap();
            let r = old(self).rpos();
            let w = old(self).wpos();
            let len0 = old(self).spec_len();
            lemma_incr_mod(w, c);
            lemma_mod_formula(r + len0, c);
            assert((r + len0) % c == w);
            if len0 < c - 1 {
                assert(self.spec_len() == len0 + 1);
            }
            assert forall|k: int|
                0 <= k < self.spec_len() implies (#[trigger] self.raw()[(self.rpos() + k)
                % self.cap()]) is Some by {
                lemma_mod_formula(r + k, c);
                if k < len0 {
                    lemma_mod_formula(r + len0, c);
                    assert((r + k) % c != w);
                    assert(old(self).raw()[(r + k) % c] is Some);
                } else {
                    assert((r + k) % c == w);
                }
            }
            if len0 < c - 1 {
                assert(self.items() =~= old(self).items().push(item)) by {
                    assert forall|k: int|
                        0 <= k < self.spec_len() implies self.items()[k] == old(
                        self,
                    ).items().push(item)[k] by {
                        lemma_mod_formula(r + k, c);
                        lemma_mod_formula(r + len0, c);
                        if k < len0 {
                            assert((r + k) % c != w);
                        } else {
                            assert((r + k) % c == w);
                        }
                    }
                }
            }
        }
    }

    /// Removes and returns the element at the read position, or `None`
    /// when the positions coincide (the buffer reports itself empty).
    pub fn pop(&mut self) -> (r: Option<T>)
        requires
            old(self).wf(),
        ensures
            final(self).wf(),
            final(self).cap() == old(self).cap(),
            old(self).spec_len() == 0 ==> r is None && *final(self) == *old(self),
            old(self).spec_len() > 0 ==> {
                &&& r == Some(old(self).items()[0])
                &&& final(self).items() =~= old(self).items().drop_first()
                &&& final(self).raw() == old(self).raw().update(old(self).rpos(), None)
                &&& final(self).rpos() == (old(self).rpos() + 1) % old(self).cap()
                &&& final(self).wpos() == old(self).wpos()
            },
    {
        if self.read_pos == self.write_pos {
            return None;
        }
        proof {
            assert(old(self).spec_len() > 0);
            assert(old(self).raw()[(old(self).rpos() + 0) % old(self).cap()] is Some);
            lemma_mod_noop_small(old(self).rpos(), old(self).cap());
        }
        let slot = &mut self.buffer[self.read_pos];
        let item = slot.take();
        self.read_pos = (self.read_pos + 1) % self.capacity;
        proof {
            let c = old(self).cap();
            let r = old(self).rpos();
            let len0 = old(self).spec_len();
            lemma_incr_mod(r, c);
            assert(self.spec_len() == len0 - 1);
            assert forall|k: int|
                0 <= k < self.spec_len() implies (#[trigger] self.raw()[(self.rpos() + k)
                % self.cap()]) is Some by {
                lemma_mod_formula(self.rpos() + k, c);
                lemma_mod_formula(r + k + 1, c);
                assert((self.rpos() + k) % c == (r + (k + 1)) % c);
                lemma_mod_formula(r, c);
                assert((r + (k + 1)) % c != r % c);
                assert(old(self).raw()[(r + (k + 1)) % c] is Some);
            }
            assert(final(self).items() =~= old(self).items().drop_first()) by {
                assert forall|k: int|
                    0 <= k < self.spec_len() implies self.items()[k] == old(self).items()[k
                    + 1] by {
                    lemma_mod_formula(self.rpos() + k, c);
                    lemma_mod_formula(r + k + 1, c);
                    lemma_mod_formula(r, c);
                    assert((self.rpos() + k) % c == (r + (k + 1)) % c);
                    assert((r + (k + 1)) % c != r % c);
                }
            }
        }
        item
    }

    /// Returns a reference to whatever occupies the read slot, without
    /// consuming it; an unoccupied read slot yields `None`.
    pub fn peek(&self) -> (r: Option<&T>)
        requires
            self.wf(),
        ensures
            r is Some <==> self.raw()[self.rpos()] is Some,
            r matches Some(x) ==> self.raw()[self.rpos()] == Some(*x),
            self.spec_len() > 0 ==> (r matches Some(x) && *x == self.items()[0]),
    {
        proof {
            if self.spec_len() > 0 {
                assert(self.raw()[(self.rpos() + 0) % self.cap()] is Some);
                lemma_mod_noop_small(self.rpos(), self.cap());
            }
        }
        self.buffer[self.read_pos].as_ref()
    }

    /// The buffer reports itself empty exactly when the two positions
    /// coincide.
    pub fn is_empty(&self) -> (r: bool)
        requires
            self.wf(),
        ensures
            r <==> self.spec_len() == 0,
    {
        self.read_pos == self.write_pos
    }

    /// How many elements are readable.
    pub fn len(&self) -> (r: usize)
        requires
            self.wf(),
        ensures
            r == self.spec_len(),
    {
        if self.read_pos <= self.write_pos {
            self.write_pos - self.read_pos
        } else {
            self.capacity - self.read_pos + self.write_pos
        }
    }

    /// The capacity the buffer was created with.
    pub fn capacity(&self) -> (r: usize)
        ensures
            r == self.cap(),
    {
        self.capacity
    }
}

/// `a % c == a` for `a` already below `c`.
proof fn lemma_mod_noop_small(a: int, c: int)
    requires
        0 <= a < c,
    ensures
        a % c == a,
{
    assert(a % c == a) by (nonlinear_arith)
        requires
            0 <= a < c,
    ;
}

/// For `a` below `2c`, taking it modulo `c` either keeps it or subtracts
/// `c` once.
proof fn lemma_mod_formula(a: int, c: int)
    requires
        0 <= a < 2 * c,
        c > 0,
    ensures
        a % c == if a < c {
            a
        } else {
            a - c
        },
        0 <= a % c < c,
{
    if a < c {
        lemma_mod_noop_small(a, c);
    } else {
        assert(a % c == a - c) by (nonlinear_arith)
            requires
                c <= a < 2 * c,
                c > 0,
        ;
    }
}

/// Stepping an in-range position forward wraps to the range.
proof fn lemma_incr_mod(a: int, c: int)
    requires
        0 <= a < c,
    ensures
        0 <= (a + 1) % c < c,
        (a + 1) % c == if a + 1 < c {
            a + 1
        } else {
            0int
        },
{
    lemma_mod_formula(a + 1, c);
}

} // verus!
