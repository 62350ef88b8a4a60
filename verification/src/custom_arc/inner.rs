use vstd::prelude::*;
use std::sync::atomic::{fence, AtomicUsize, Ordering};
use crate::custom_arc::{is_last_handle, refcount_overflowed};

verus! {

/// `fence` keeps the memory accesses before it and those behind it in
/// order, as strictly as `order` says. It returns nothing, and it panics if
/// `order` is `Relaxed`, which orders nothing.
pub assume_specification[ core::sync::atomic::fence ](order: Ordering)
    requires
        !(order is Relaxed),
;

/// The allocation that the handles of one shared pointer have in common:
/// the number of handles and the data. The handles may belong to different
/// threads, so the count is atomic, and what a handle finds there is
/// whatever the others have left: nothing can be said of it beforehand.
pub struct InnerArc<T> {
    count: AtomicUsize,
    data: T,
}

impl<T> InnerArc<T> {
    /// The shared data.
    pub closed spec fn data(self) -> T {
        self.data
    }

    /// The allocation for a first handle: the count starts at 1.
    pub fn new(data: T) -> (inner: Self)
        ensures
            inner.data() == data,
    {
        InnerArc { count: AtomicUsize::new(1), data }
    }

    /// The data, as every live handle sees it.
    pub fn get(&self) -> (data: &T)
        ensures
            *data == self.data(),
    {
        &self.data
    }

    /// Counts one more handle, for a clone, and tells whether the count
    /// had overflowed, in which case the process has to stop. Only the
    /// count itself has to be atomic here: the data is read through
    /// handles that are live.
    pub fn acquire(&self) -> (fatal: bool) {
        let old_rc: usize = self.count.fetch_add(1, Ordering::Relaxed);
        refcount_overflowed(old_rc)
    }

    /// Counts one handle less, for a drop, and tells whether it was the
    /// last one, in which case the allocation is to be freed. The count is
    /// taken down with release, so that what this handle did is visible to
    /// the handle that frees; the last handle then fences with acquire, so
    /// that what all other handles did is visible before the data goes.
    pub fn release(&self) -> (last: bool) {
        let old_rc: usize = self.count.fetch_sub(1, Ordering::Release);
        if !is_last_handle(old_rc) {
            return false;
        }
        fence(Ordering::Acquire);
        true
    }
}

} // verus!
