use vstd::prelude::*;
use vstd::layout::size_of;

verus! {

/// Number of slots a buffer has after one growth step from `cap` slots:
/// one slot from empty, twice as many otherwise.
pub open spec fn grown_capacity(cap: nat) -> nat {
    if cap == 0 {
        1
    } else {
        2 * cap
    }
}

/// Whether an allocation of `cap` elements of type `T` may grow once more.
pub open spec fn room_to_grow<T>(cap: nat) -> bool {
    cap == 0 || {
        &&& grown_capacity(cap) <= usize::MAX
        &&& grown_capacity(cap) * size_of::<T>() <= isize::MAX
    }
}

/// A run of `n` uninitialized slots.
pub open spec fn vacant<T>(n: nat) -> Seq<Option<T>> {
    Seq::new(n, |i: int| None::<T>)
}

/// What a block move does to a run of slots: the `count` slots from `src` on
/// land at `dst` on, every source slot that the destination does not cover
/// is left uninitialized, and all other slots keep what they held.
pub open spec fn moved<T>(s: Seq<Option<T>>, src: int, dst: int, count: int) -> Seq<Option<T>> {
    Seq::new(
        s.len(),
        |j: int|
            if dst <= j < dst + count {
                s[j - dst + src]
            } else if src <= j < src + count {
                None
            } else {
                s[j]
            },
    )
}

/// The allocation behind a `CustomVec`: `cap` slots, each one either holding
/// a value or uninitialized (`None`). It knows nothing of which slots are
/// live; that is its owner's business.
pub struct RawDynamicArray<T> {
    slots: Vec<Option<T>>,
    cap: usize,
}

impl<T> RawDynamicArray<T> {
    /// The slots of the allocation, in address order.
    pub closed spec fn slots(self) -> Seq<Option<T>> {
        self.slots@
    }

    /// How many elements the allocation can hold.
    pub closed spec fn capacity(self) -> nat {
        self.cap as nat
    }

    /// The recorded capacity is the number of slots.
    pub open spec fn wf(self) -> bool {
        self.slots().len() == self.capacity()
    }

    /// Whether one more growth step stays within what an allocation may
    /// measure: the slot count fits the machine word and the size in bytes
    /// does not exceed `isize::MAX`. Room for one element can always be
    /// made, as no type is larger than that.
    pub open spec fn can_grow(self) -> bool {
        room_to_grow::<T>(self.capacity())
    }

    /// An allocation of no slots.
    pub fn new() -> (raw: Self)
        ensures
            raw.wf(),
            raw.capacity() == 0,
            raw.slots() == Seq::<Option<T>>::empty(),
    {
        RawDynamicArray { slots: Vec::new(), cap: 0 }
    }

    pub fn cap(&self) -> (cap: usize)
        ensures
            cap == self.capacity(),
    {
        self.cap
    }

    /// Doubles the capacity, or makes room for one element if there was
    /// none. Every slot that existed keeps its place and its content; the
    /// new slots are uninitialized.
    pub fn grow(&mut self)
        requires
            old(self).wf(),
            old(self).can_grow(),
        ensures
            final(self).wf(),
            final(self).capacity() == grown_capacity(old(self).capacity()),
            final(self).slots() == old(self).slots() + vacant::<T>(
                (grown_capacity(old(self).capacity()) - old(self).capacity()) as nat,
            ),
    {
        let new_cap: usize = if self.cap == 0 {
            1
        } else {
            2 * self.cap
        };
        while self.slots.len() < new_cap
            invariant
                self.cap == old(self).cap,
                old(self).slots@.len() <= self.slots@.len() <= new_cap,
                self.slots@ =~= old(self).slots@ + vacant::<T>(
                    (self.slots@.len() - old(self).slots@.len()) as nat,
                ),
            decreases new_cap - self.slots@.len(),
        {
            self.slots.push(None);
        }
        self.cap = new_cap;
    }

    /// Destructive read: hands out what slot `i` holds and leaves the slot
    /// uninitialized.
    pub fn read(&mut self, i: usize) -> (value: Option<T>)
        requires
            old(self).wf(),
            i < old(self).capacity(),
        ensures
            final(self).wf(),
            final(self).capacity() == old(self).capacity(),
            value == old(self).slots()[i as int],
            final(self).slots() == old(self).slots().update(i as int, None),
    {
        self.slots[i].take()
    }

    /// Puts `value` into slot `i`.
    pub fn write(&mut self, i: usize, value: T)
        requires
            old(self).wf(),
            i < old(self).capacity(),
        ensures
            final(self).wf(),
            final(self).capacity() == old(self).capacity(),
            final(self).slots() == old(self).slots().update(i as int, Some(value)),
    {
        self.slots[i] = Some(value);
    }

    /// A shared reference to the value in slot `i`.
    pub fn get(&self, i: usize) -> (value: &T)
        requires
            self.wf(),
            i < self.capacity(),
            self.slots()[i as int].is_some(),
        ensures
            *value == self.slots()[i as int].unwrap(),
    {
        self.slots[i].as_ref().unwrap()
    }

    /// An exclusive reference to the value in slot `i`; what the caller
    /// leaves behind it is what the slot then holds.
    pub fn get_mut(&mut self, i: usize) -> (value: &mut T)
        requires
            old(self).wf(),
            i < old(self).capacity(),
            old(self).slots()[i as int].is_some(),
        ensures
            *value == old(self).slots()[i as int].unwrap(),
            final(self).wf(),
            final(self).capacity() == old(self).capacity(),
            final(self).slots() == old(self).slots().update(i as int, Some(*final(value))),
    {
        self.slots[i].as_mut().unwrap()
    }

    /// Block move of `count` slots from `src` to `dst`; the two ranges may
    /// overlap.
    pub fn move_range(&mut self, src: usize, dst: usize, count: usize)
        requires
            old(self).wf(),
            src + count <= old(self).capacity(),
            dst + count <= old(self).capacity(),
        ensures
            final(self).wf(),
            final(self).capacity() == old(self).capacity(),
            final(self).slots() == moved(old(self).slots(), src as int, dst as int, count as int),
    {
        if dst < src {
            let mut k: usize = 0;
            while k < count
                invariant
                    self.cap == old(self).cap,
                    self.slots@.len() == old(self).slots@.len(),
                    dst < src,
                    k <= count,
                    src + count <= self.cap == self.slots@.len(),
                    self.slots@ =~= moved(old(self).slots@, src as int, dst as int, k as int),
                decreases count - k,
            {
                let value = self.slots[src + k].take();
                self.slots[dst + k] = value;
                k += 1;
            }
        } else if src < dst {
            let mut k: usize = count;
            while k > 0
                invariant
                    self.cap == old(self).cap,
                    self.slots@.len() == old(self).slots@.len(),
                    src < dst,
                    k <= count,
                    dst + count <= self.cap == self.slots@.len(),
                    self.slots@ =~= moved(
                        old(self).slots@,
                        src + k,
                        dst + k,
                        count - k,
                    ),
                decreases k,
            {
                k -= 1;
                let value = self.slots[src + k].take();
                self.slots[dst + k] = value;
            }
        } else {
            assert(self.slots@ =~= moved(old(self).slots@, src as int, dst as int, count as int));
        }
    }
}

/// A growable array: the first `len` slots of its allocation hold its
/// elements, in order; the slots behind them are uninitialized.
pub struct CustomVec<T> {
    raw: RawDynamicArray<T>,
    len: usize,
}

impl<T> View for CustomVec<T> {
    type V = Seq<T>;

    /// The live elements, front to back.
    closed spec fn view(&self) -> Seq<T> {
        Seq::new(self.len as nat, |i: int| self.raw.slots()[i].unwrap())
    }
}

impl<T> CustomVec<T> {
    /// The allocation is sound, the length is within the capacity, and a
    /// slot is initialized exactly if its index is below the length.
    pub closed spec fn wf(self) -> bool {
        &&& self.raw.wf()
        &&& self.len <= self.raw.capacity()
        &&& forall|i: int|
            0 <= i < self.raw.capacity() ==> (#[trigger] self.raw.slots()[i]).is_some() == (i
                < self.len)
    }

    /// How many elements fit before the next growth step.
    pub closed spec fn capacity(self) -> nat {
        self.raw.capacity()
    }

    /// Whether the array may take one more element: either a slot is free,
    /// or the allocation can grow.
    pub open spec fn has_room(self) -> bool {
        self@.len() == self.capacity() ==> room_to_grow::<T>(self.capacity())
    }

    /// The capacity after taking one more element.
    pub open spec fn capacity_after_push(self) -> nat {
        if self@.len() == self.capacity() {
            grown_capacity(self.capacity())
        } else {
            self.capacity()
        }
    }

    /// The length never exceeds the capacity.
    pub proof fn lemma_len_le_capacity(self)
        requires
            self.wf(),
        ensures
            self@.len() <= self.capacity(),
    {
    }

    /// An empty array; nothing is allocated.
    pub fn new() -> (v: Self)
        ensures
            v.wf(),
            v@ == Seq::<T>::empty(),
            v.capacity() == 0,
    {
        let v = CustomVec { raw: RawDynamicArray::new(), len: 0 };
        assert(v@ =~= Seq::<T>::empty());
        v
    }

    pub fn len(&self) -> (len: usize)
        ensures
            len == self@.len(),
    {
        self.len
    }

    /// Appends `val`, growing the allocation first if it is full.
    pub fn push(&mut self, val: T)
        requires
            old(self).wf(),
            old(self).has_room(),
        ensures
            final(self).wf(),
            final(self)@ == old(self)@.push(val),
            final(self).capacity() == old(self).capacity_after_push(),
    {
        if self.len == self.raw.cap() {
            self.raw.grow();
        }
        self.raw.write(self.len, val);
        self.len += 1;
        assert(self@ =~= old(self)@.push(val));
    }

    /// Takes the last element off, if there is one.
    pub fn pop(&mut self) -> (value: Option<T>)
        requires
            old(self).wf(),
        ensures
            final(self).wf(),
            final(self).capacity() == old(self).capacity(),
            old(self)@.len() == 0 ==> value.is_none() && final(self)@ == old(self)@,
            old(self)@.len() > 0 ==> value == Some(old(self)@.last()) && final(self)@ == old(
                self,
            )@.drop_last(),
    {
        if self.len == 0 {
            return None;
        }
        self.len -= 1;
        let val = self.raw.read(self.len);
        assert(self@ =~= old(self)@.drop_last());
        val
    }

    /// Puts `val` at index `i`; the elements from `i` on move one place up.
    /// The index must not exceed the length.
    pub fn insert(&mut self, val: T, i: usize)
        requires
            old(self).wf(),
            old(self).has_room(),
            i <= old(self)@.len(),
        ensures
            final(self).wf(),
            final(self)@ == old(self)@.insert(i as int, val),
            final(self).capacity() == old(self).capacity_after_push(),
    {
        if self.len == self.raw.cap() {
            self.raw.grow();
        }
        self.raw.move_range(i, i + 1, self.len - i);
        self.raw.write(i, val);
        self.len += 1;
        assert(self@ =~= old(self)@.insert(i as int, val));
    }

    /// Takes the element at index `i` out; the elements behind it move one
    /// place down. An index at or beyond the length yields nothing and
    /// leaves the array as it was.
    pub fn remove(&mut self, i: usize) -> (value: Option<T>)
        requires
            old(self).wf(),
        ensures
            final(self).wf(),
            final(self).capacity() == old(self).capacity(),
            i >= old(self)@.len() ==> value.is_none() && final(self)@ == old(self)@,
            i < old(self)@.len() ==> value == Some(old(self)@[i as int]) && final(self)@ == old(
                self,
            )@.remove(i as int),
    {
        if i >= self.len {
            return None;
        }
        self.len -= 1;
        let val = self.raw.read(i);
        self.raw.move_range(i + 1, i, self.len - i);
        assert(self@ =~= old(self)@.remove(i as int));
        val
    }

    /// A shared reference to the element at index `i`.
    pub fn get(&self, i: usize) -> (value: &T)
        requires
            self.wf(),
            i < self@.len(),
        ensures
            *value == self@[i as int],
    {
        self.raw.get(i)
    }

    /// An exclusive reference to the element at index `i`; the array then
    /// holds there what the caller leaves behind the reference.
    pub fn get_mut(&mut self, i: usize) -> (value: &mut T)
        requires
            old(self).wf(),
            i < old(self)@.len(),
        ensures
            *value == old(self)@[i as int],
            final(self).wf(),
            final(self).capacity() == old(self).capacity(),
            final(self)@ =~= old(self)@.update(i as int, *final(value)),
    {
        self.raw.get_mut(i)
    }

    /// Hands every element over to a consuming sequence that yields them
    /// from either end.
    pub fn into_iter(self) -> (iter: IntoIter<T>)
        requires
            self.wf(),
        ensures
            iter.wf(),
            iter@ == self@,
    {
        IntoIter { iter: RawIter::new(self) }
    }

    /// Moves every element out into a draining sequence and leaves the array
    /// empty. The array is empty from this call on, however much of the
    /// sequence is consumed: what is not taken from it goes with it.
    pub fn drain(&mut self) -> (drain: Drain<T>)
        requires
            old(self).wf(),
        ensures
            final(self).wf(),
            final(self)@ == Seq::<T>::empty(),
            final(self).capacity() == 0,
            drain.wf(),
            drain@ == old(self)@,
    {
        let mut taken = CustomVec::new();
        core::mem::swap(self, &mut taken);
        Drain::new(RawIter::new(taken))
    }
}

/// A pair of cursors over a run of initialized slots: what lies from `start`
/// up to `end` is still to be handed out, from either end.
pub struct RawIter<T> {
    buf: RawDynamicArray<T>,
    start: usize,
    end: usize,
}

impl<T> View for RawIter<T> {
    type V = Seq<T>;

    /// The elements not handed out yet, front to back.
    closed spec fn view(&self) -> Seq<T> {
        Seq::new((self.end - self.start) as nat, |k: int| self.buf.slots()[self.start + k].unwrap())
    }
}

impl<T> RawIter<T> {
    /// The cursors lie within the allocation, in order, and a slot is
    /// initialized exactly if it lies between them.
    pub closed spec fn wf(self) -> bool {
        &&& self.buf.wf()
        &&& self.start <= self.end <= self.buf.capacity()
        &&& forall|i: int|
            0 <= i < self.buf.capacity() ==> (#[trigger] self.buf.slots()[i]).is_some() == (
            self.start <= i < self.end)
    }

    /// Cursors over all the elements of `arr`.
    pub fn new(arr: CustomVec<T>) -> (iter: Self)
        requires
            arr.wf(),
        ensures
            iter.wf(),
            iter@ == arr@,
    {
        let CustomVec { raw, len } = arr;
        let iter = RawIter { buf: raw, start: 0, end: len };
        assert(iter@ =~= arr@);
        iter
    }

    /// Takes the front element, if any is left.
    pub fn next(&mut self) -> (value: Option<T>)
        requires
            old(self).wf(),
        ensures
            final(self).wf(),
            old(self)@.len() == 0 ==> value.is_none() && final(self)@ == old(self)@,
            old(self)@.len() > 0 ==> value == Some(old(self)@.first()) && final(self)@ == old(
                self,
            )@.drop_first(),
    {
        if self.start == self.end {
            None
        } else {
            let val = self.buf.read(self.start);
            self.start += 1;
            assert(self@ =~= old(self)@.drop_first());
            val
        }
    }

    /// How many elements are left, as a lower and an upper bound.
    pub fn size_hint(&self) -> (hint: (usize, Option<usize>))
        requires
            self.wf(),
        ensures
            hint.0 == self@.len(),
            hint.1 == Some(hint.0),
    {
        let len: usize = self.end - self.start;
        (len, Some(len))
    }

    /// Takes the back element, if any is left.
    pub fn next_back(&mut self) -> (value: Option<T>)
        requires
            old(self).wf(),
        ensures
            final(self).wf(),
            old(self)@.len() == 0 ==> value.is_none() && final(self)@ == old(self)@,
            old(self)@.len() > 0 ==> value == Some(old(self)@.last()) && final(self)@ == old(
                self,
            )@.drop_last(),
    {
        if self.start == self.end {
            None
        } else {
            self.end -= 1;
            let val = self.buf.read(self.end);
            assert(self@ =~= old(self)@.drop_last());
            val
        }
    }
}

/// The elements drained from a `CustomVec`, yielded from either end.
pub struct Drain<T> {
    raw_iter: RawIter<T>,
}

impl<T> View for Drain<T> {
    type V = Seq<T>;

    /// The elements not yielded yet, front to back.
    closed spec fn view(&self) -> Seq<T> {
        self.raw_iter@
    }
}

impl<T> Drain<T> {
    pub closed spec fn wf(self) -> bool {
        self.raw_iter.wf()
    }

    pub fn new(raw_iter: RawIter<T>) -> (drain: Self)
        requires
            raw_iter.wf(),
        ensures
            drain.wf(),
            drain@ == raw_iter@,
    {
        Drain { raw_iter }
    }

    /// Yields the front element, if any is left.
    pub fn next(&mut self) -> (value: Option<T>)
        requires
            old(self).wf(),
        ensures
            final(self).wf(),
            old(self)@.len() == 0 ==> value.is_none() && final(self)@ == old(self)@,
            old(self)@.len() > 0 ==> value == Some(old(self)@.first()) && final(self)@ == old(
                self,
            )@.drop_first(),
    {
        self.raw_iter.next()
    }

    /// How many elements are left, as a lower and an upper bound.
    pub fn size_hint(&self) -> (hint: (usize, Option<usize>))
        requires
            self.wf(),
        ensures
            hint.0 == self@.len(),
            hint.1 == Some(hint.0),
    {
        self.raw_iter.size_hint()
    }

    /// Yields the back element, if any is left.
    pub fn next_back(&mut self) -> (value: Option<T>)
        requires
            old(self).wf(),
        ensures
            final(self).wf(),
            old(self)@.len() == 0 ==> value.is_none() && final(self)@ == old(self)@,
            old(self)@.len() > 0 ==> value == Some(old(self)@.last()) && final(self)@ == old(
                self,
            )@.drop_last(),
    {
        self.raw_iter.next_back()
    }
}

/// A `CustomVec` turned into a sequence that yields its elements from either
/// end and owns the allocation until it goes.
pub struct IntoIter<T> {
    iter: RawIter<T>,
}

impl<T> View for IntoIter<T> {
    type V = Seq<T>;

    /// The elements not yielded yet, front to back.
    closed spec fn view(&self) -> Seq<T> {
        self.iter@
    }
}

impl<T> IntoIter<T> {
    pub closed spec fn wf(self) -> bool {
        self.iter.wf()
    }

    /// Yields the front element, if any is left.
    pub fn next(&mut self) -> (value: Option<T>)
        requires
            old(self).wf(),
        ensures
            final(self).wf(),
            old(self)@.len() == 0 ==> value.is_none() && final(self)@ == old(self)@,
            old(self)@.len() > 0 ==> value == Some(old(self)@.first()) && final(self)@ == old(
                self,
            )@.drop_first(),
    {
        self.iter.next()
    }

    /// How many elements are left, as a lower and an upper bound.
    pub fn size_hint(&self) -> (hint: (usize, Option<usize>))
        requires
            self.wf(),
        ensures
            hint.0 == self@.len(),
            hint.1 == Some(hint.0),
    {
        self.iter.size_hint()
    }

    /// Yields the back element, if any is left.
    pub fn next_back(&mut self) -> (value: Option<T>)
        requires
            old(self).wf(),
        ensures
            final(self).wf(),
            old(self)@.len() == 0 ==> value.is_none() && final(self)@ == old(self)@,
            old(self)@.len() > 0 ==> value == Some(old(self)@.last()) && final(self)@ == old(
                self,
            )@.drop_last(),
    {
        self.iter.next_back()
    }
}

/// The contents after the values of `vs` are pushed, in order, onto the
/// contents `s`.
pub open spec fn pushed_all<T>(s: Seq<T>, vs: Seq<T>) -> Seq<T>
    decreases vs.len(),
{
    if vs.len() == 0 {
        s
    } else {
        pushed_all(s.push(vs.first()), vs.drop_first())
    }
}

/// The values that `n` pops take off the contents `s`, in the order in
/// which they come off. A pop that finds nothing yields nothing.
pub open spec fn popped<T>(s: Seq<T>, n: nat) -> Seq<T>
    decreases n,
{
    if n == 0 || s.len() == 0 {
        Seq::empty()
    } else {
        seq![s.last()] + popped(s.drop_last(), (n - 1) as nat)
    }
}

/// The contents that `n` pops leave of the contents `s`.
pub open spec fn after_pops<T>(s: Seq<T>, n: nat) -> Seq<T>
    decreases n,
{
    if n == 0 || s.len() == 0 {
        s
    } else {
        after_pops(s.drop_last(), (n - 1) as nat)
    }
}

/// The values that the first `n` calls of `next` yield from a sequence that
/// holds `s`.
pub open spec fn yielded<T>(s: Seq<T>, n: nat) -> Seq<T>
    decreases n,
{
    if n == 0 || s.len() == 0 {
        Seq::empty()
    } else {
        seq![s.first()] + yielded(s.drop_first(), (n - 1) as nat)
    }
}

/// The slots of an allocation after `steps` growth steps.
pub open spec fn grown<T>(slots: Seq<Option<T>>, steps: nat) -> Seq<Option<T>>
    decreases steps,
{
    if steps == 0 {
        slots
    } else {
        let before = grown(slots, (steps - 1) as nat);
        before + vacant::<T>((grown_capacity(before.len()) - before.len()) as nat)
    }
}

/// Pushes keep what was there and add the new values behind it, in the
/// order in which they were pushed.
pub proof fn lemma_pushes_keep_order<T>(s: Seq<T>, vs: Seq<T>)
    ensures
        pushed_all(s, vs) == s + vs,
    decreases vs.len(),
{
    if vs.len() == 0 {
        assert(s + vs =~= s);
    } else {
        lemma_pushes_keep_order(s.push(vs.first()), vs.drop_first());
        assert(s.push(vs.first()) + vs.drop_first() =~= s + vs);
    }
}

/// Pops take the contents off from the back: `n` pops yield the last `n`
/// elements, the last one first, and leave the elements before them.
pub proof fn lemma_pops_reverse<T>(s: Seq<T>, n: nat)
    requires
        n <= s.len(),
    ensures
        popped(s, n) == s.skip(s.len() - n).reverse(),
        after_pops(s, n) == s.take(s.len() - n),
    decreases n,
{
    if n == 0 {
        assert(popped(s, n) =~= s.skip(s.len() - n).reverse());
        assert(after_pops(s, n) =~= s.take(s.len() - n));
    } else {
        lemma_pops_reverse(s.drop_last(), (n - 1) as nat);
        assert(popped(s, n) =~= s.skip(s.len() - n).reverse());
        assert(after_pops(s, n) =~= s.take(s.len() - n));
    }
}

/// Stack discipline: after the values of `vs` are pushed, as many pops
/// yield them in reverse, and what was there before is there again.
pub proof fn lemma_stack_discipline<T>(s: Seq<T>, vs: Seq<T>)
    ensures
        popped(pushed_all(s, vs), vs.len()) == vs.reverse(),
        after_pops(pushed_all(s, vs), vs.len()) == s,
{
    lemma_pushes_keep_order(s, vs);
    lemma_pops_reverse(s + vs, vs.len());
    assert((s + vs).skip((s + vs).len() - vs.len()) =~= vs);
    assert((s + vs).take((s + vs).len() - vs.len()) =~= s);
}

/// A sequence that holds `s` yields its values front to back: the first `n`
/// calls of `next` give the first `n` of them.
pub proof fn lemma_yields_in_order<T>(s: Seq<T>, n: nat)
    requires
        n <= s.len(),
    ensures
        yielded(s, n) == s.take(n as int),
    decreases n,
{
    if n == 0 {
        assert(yielded(s, n) =~= s.take(n as int));
    } else {
        lemma_yields_in_order(s.drop_first(), (n - 1) as nat);
        assert(yielded(s, n) =~= s.take(n as int));
    }
}

/// Pushing the values of `vs` onto an empty array and draining it yields
/// exactly these values, in the order in which they were pushed.
pub proof fn lemma_push_then_drain<T>(vs: Seq<T>)
    ensures
        yielded(pushed_all(Seq::<T>::empty(), vs), vs.len()) == vs,
{
    lemma_pushes_keep_order(Seq::<T>::empty(), vs);
    assert(Seq::<T>::empty() + vs =~= vs);
    lemma_yields_in_order(vs, vs.len());
    assert(vs.take(vs.len() as int) =~= vs);
}

/// Removing at the index of an insertion gives the inserted value back and
/// restores the contents, and with them the length.
pub proof fn lemma_insert_then_remove<T>(s: Seq<T>, v: T, i: int)
    requires
        0 <= i <= s.len(),
    ensures
        s.insert(i, v)[i] == v,
        s.insert(i, v).remove(i) == s,
        s.insert(i, v).remove(i).len() == s.len(),
{
    assert(s.insert(i, v).remove(i) =~= s);
}

/// Growth neither loses nor reorders: after any number of growth steps the
/// slots that were there come first, with what they held.
pub proof fn lemma_growth_keeps_slots<T>(slots: Seq<Option<T>>, steps: nat)
    ensures
        grown(slots, steps).len() >= slots.len(),
        grown(slots, steps).take(slots.len() as int) == slots,
    decreases steps,
{
    if steps == 0 {
        assert(grown(slots, steps).take(slots.len() as int) =~= slots);
    } else {
        lemma_growth_keeps_slots(slots, (steps - 1) as nat);
        let before = grown(slots, (steps - 1) as nat);
        assert(grown(slots, steps).take(slots.len() as int) =~= before.take(slots.len() as int));
    }
}

} // verus!
