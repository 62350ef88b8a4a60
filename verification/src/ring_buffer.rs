use vstd::prelude::*;
use vstd::arithmetic::div_mod::{lemma_mod_self_0, lemma_small_mod};

verus! {

/// Why a ring buffer operation did nothing.
#[derive(Debug, Clone, Copy, PartialEq, Eq, PartialOrd, Ord, Structural)]
pub enum RingBufferError {
    /// A push found the buffer reporting full.
    Full,
    /// A pop found nothing at the read cursor.
    Empty,
    /// A cursor could not be advanced.
    PointerUpdateError,
}

/// A circular buffer of `N` slots with a read cursor and a write cursor.
/// Both operations need exclusive access: there is one writer and one
/// reader, and they never run at the same time.
pub struct RingBuffer<T, const N: usize> {
    buf: [Option<T>; N],
    read: usize,
    write: usize,
}

/// What a slot holds before anything is written to it.
fn vacant_slot<T>(_index: usize) -> (slot: Option<T>)
    ensures
        slot.is_none(),
{
    None
}

/// `core::array::from_fn` builds an array by calling the function it is
/// given once for each index. Called with `vacant_slot`, whose result is
/// always `None`, it gives an array of `N` empty slots.
#[verifier::external_body]
fn vacant_slots<T, const N: usize>() -> (slots: [Option<T>; N])
    ensures
        slots@.len() == N,
        forall|i: int| 0 <= i < N ==> (#[trigger] slots@[i]).is_none(),
{
    core::array::from_fn(vacant_slot::<T>)
}

/// The slot index `j` steps into, for `j` below twice the slot count.
pub open spec fn wrap(j: int, n: int) -> int {
    if j >= n {
        j - n
    } else {
        j
    }
}

impl<T, const N: usize> View for RingBuffer<T, N> {
    type V = Seq<T>;

    /// The values waiting to be popped, oldest first.
    open spec fn view(&self) -> Seq<T> {
        Seq::new(
            self.count(),
            |k: int| self.slots()[wrap(self.read_index() + k, N as int)].unwrap(),
        )
    }
}

impl<T, const N: usize> RingBuffer<T, N> {
    /// The slots, by index.
    pub closed spec fn slots(self) -> Seq<Option<T>> {
        self.buf@
    }

    /// The slot the next pop reads.
    pub closed spec fn read_index(self) -> int {
        self.read as int
    }

    /// The slot the next push writes.
    pub closed spec fn write_index(self) -> int {
        self.write as int
    }

    /// How many values wait to be popped: the distance from the read
    /// cursor round to the write cursor. Where the two meet, the slot under
    /// them tells a buffer with every slot taken from one with none.
    pub open spec fn count(self) -> nat {
        if self.read_index() < self.write_index() {
            (self.write_index() - self.read_index()) as nat
        } else if self.write_index() < self.read_index() {
            (N - self.read_index() + self.write_index()) as nat
        } else if self.slots()[self.read_index()].is_some() {
            N as nat
        } else {
            0
        }
    }

    /// Whether slot `i` lies from the read cursor round to the write cursor.
    pub open spec fn live(self, i: int) -> bool {
        if self.read_index() < self.write_index() {
            self.read_index() <= i < self.write_index()
        } else if self.write_index() < self.read_index() {
            self.read_index() <= i || i < self.write_index()
        } else {
            self.slots()[self.read_index()].is_some()
        }
    }

    /// Both cursors point at a slot, and a slot holds a value exactly if it
    /// was written since it was last read, which is to say that it lies
    /// from the read cursor round to the write cursor.
    pub open spec fn wf(self) -> bool {
        &&& self.slots().len() == N
        &&& 0 <= self.read_index() < N
        &&& 0 <= self.write_index() < N
        &&& forall|i: int| 0 <= i < N ==> (#[trigger] self.slots()[i]).is_some() == self.live(i)
    }

    /// The fullness test: the first and the last slot both hold a value.
    /// Nothing else is looked at, so a buffer with room in between reports
    /// full as well.
    pub open spec fn is_full(self) -> bool {
        self.slots()[N - 1].is_some() && self.slots()[0].is_some()
    }

    /// The emptiness test: the slot at the read cursor holds nothing.
    pub open spec fn is_empty(self) -> bool {
        self.slots()[self.read_index()].is_none()
    }

    /// Nothing waits exactly if the buffer reports empty.
    pub proof fn lemma_empty_is_exact(self)
        requires
            self.wf(),
        ensures
            self.is_empty() <==> self.count() == 0,
            self.count() == self@.len(),
            self.count() <= N,
    {
    }

    /// A buffer with a value in every slot reports full.
    pub proof fn lemma_all_taken_reports_full(self)
        requires
            self.wf(),
            self.count() == N,
        ensures
            self.is_full(),
    {
        assert(self.slots()[0].is_some() == self.live(0));
        assert(self.slots()[N - 1].is_some() == self.live(N - 1));
    }

    /// While the read cursor stands at the first slot, the fullness test is
    /// exact: the buffer reports full exactly if every slot holds a value.
    /// With the read cursor elsewhere it may report full with room left.
    pub proof fn lemma_full_is_exact_at_first_slot(self)
        requires
            self.wf(),
            self.read_index() == 0,
        ensures
            self.is_full() <==> self.count() == N,
    {
        assert(self.slots()[0].is_some() == self.live(0));
        assert(self.slots()[N - 1].is_some() == self.live(N - 1));
    }

    /// An empty buffer with both cursors at slot 0.
    pub fn new() -> (ring: Self)
        requires
            N > 0,
        ensures
            ring.wf(),
            ring.read_index() == 0,
            ring.write_index() == 0,
            forall|i: int| 0 <= i < N ==> (#[trigger] ring.slots()[i]).is_none(),
            ring@ == Seq::<T>::empty(),
    {
        let ring = RingBuffer { buf: vacant_slots(), read: 0, write: 0 };
        assert(ring@ =~= Seq::<T>::empty());
        ring
    }

    /// Writes `value` at the write cursor and advances the cursor, unless
    /// the buffer reports full; then nothing changes.
    pub fn push(&mut self, value: T) -> (res: Result<(), RingBufferError>)
        requires
            old(self).wf(),
        ensures
            final(self).wf(),
            final(self).read_index() == old(self).read_index(),
            old(self).is_full() ==> {
                &&& res == Err::<(), RingBufferError>(RingBufferError::Full)
                &&& final(self).slots() == old(self).slots()
                &&& final(self).write_index() == old(self).write_index()
                &&& final(self)@ == old(self)@
            },
            !old(self).is_full() ==> {
                &&& res.is_ok()
                &&& final(self).slots() == old(self).slots().update(
                    old(self).write_index(),
                    Some(value),
                )
                &&& final(self).write_index() == wrap(old(self).write_index() + 1, N as int)
                &&& final(self)@ == old(self)@.push(value)
            },
    {
        if self.full() {
            return Err(RingBufferError::Full);
        }
        let w: usize = self.write;
        proof {
            if w + 1 == N {
                lemma_mod_self_0(N as int);
            } else {
                lemma_small_mod((w + 1) as nat, N as nat);
            }
        }
        self.write = (w + 1) % N;
        self.buf[w] = Some(value);
        assert(self@ =~= old(self)@.push(value));
        Ok(())
    }

    /// Takes the value at the read cursor and advances the cursor, unless
    /// the buffer is empty; then nothing changes.
    pub fn pop(&mut self) -> (res: Result<T, RingBufferError>)
        requires
            old(self).wf(),
        ensures
            final(self).wf(),
            final(self).write_index() == old(self).write_index(),
            old(self).is_empty() ==> {
                &&& res == Err::<T, RingBufferError>(RingBufferError::Empty)
                &&& final(self).slots() == old(self).slots()
                &&& final(self).read_index() == old(self).read_index()
                &&& final(self)@ == old(self)@
            },
            !old(self).is_empty() ==> {
                &&& res == Ok::<T, RingBufferError>(old(self)@.first())
                &&& final(self).slots() == old(self).slots().update(old(self).read_index(), None)
                &&& final(self).read_index() == wrap(old(self).read_index() + 1, N as int)
                &&& final(self)@ == old(self)@.drop_first()
            },
    {
        if self.empty() {
            return Err(RingBufferError::Empty);
        }
        let r: usize = self.read;
        proof {
            if r + 1 == N {
                lemma_mod_self_0(N as int);
            } else {
                lemma_small_mod((r + 1) as nat, N as nat);
            }
        }
        self.read = (r + 1) % N;
        let taken = self.buf[r].take();
        assert(self@ =~= old(self)@.drop_first());
        match taken {
            Some(value) => Ok(value),
            None => Err(RingBufferError::Empty),
        }
    }

    /// Whether the buffer reports full: whether the first and the last slot
    /// both hold a value. A buffer with every slot taken always does.
    pub fn full(&self) -> (b: bool)
        requires
            self.wf(),
        ensures
            b == self.is_full(),
            self@.len() == N ==> b,
    {
        self.buf[N - 1].is_some() && self.buf[0].is_some()
    }

    /// Whether nothing waits to be popped: whether the slot at the read
    /// cursor holds nothing.
    pub fn empty(&self) -> (b: bool)
        requires
            self.wf(),
        ensures
            b == self.is_empty(),
            b == (self@.len() == 0),
    {
        self.buf[self.read].is_none()
    }
}

} // verus!
