pub mod inner;

use vstd::prelude::*;

verus! {

/// The highest count from which a handle may still be cloned.
pub open spec fn max_refcount() -> nat {
    isize::MAX as nat
}

/// Whether a clone that found the count at `old_rc` must stop the process:
/// beyond `max_refcount()` the counter is too close to wrapping round to
/// zero under handles that are still live.
pub fn refcount_overflowed(old_rc: usize) -> (fatal: bool)
    ensures
        fatal == (old_rc > max_refcount()),
{
    old_rc > isize::MAX as usize
}

/// Whether a drop that finds the count at `old_rc` gives up the last
/// handle.
pub open spec fn last_handle(old_rc: int) -> bool {
    old_rc == 1
}

/// Whether a drop that found the count at `old_rc` gave up the last handle
/// and so has to free the allocation.
pub fn is_last_handle(old_rc: usize) -> (last: bool)
    ensures
        last == last_handle(old_rc as int),
{
    old_rc == 1
}

/// What a handle does to the count. The counter is atomic, so whatever
/// threads the handles belong to, what they do to it takes effect one after
/// the other: as a sequence of these.
pub enum HandleEvent {
    /// A handle is cloned.
    Cloned,
    /// A handle is dropped.
    Dropped,
}

/// The count after `events`, starting from the one handle that comes with a
/// new allocation.
pub open spec fn count_after(events: Seq<HandleEvent>) -> int
    decreases events.len(),
{
    if events.len() == 0 {
        1
    } else {
        count_after(events.drop_last()) + match events.last() {
            HandleEvent::Cloned => 1int,
            HandleEvent::Dropped => -1int,
        }
    }
}

/// Every event comes from a handle that is live: the count is at least 1
/// when the event takes place.
pub open spec fn admissible(events: Seq<HandleEvent>) -> bool {
    forall|k: int| 0 <= k < events.len() ==> #[trigger] count_after(events.take(k)) >= 1
}

/// Whether event `k` frees the allocation: it is a drop, and it gives up
/// the last handle.
pub open spec fn frees_at(events: Seq<HandleEvent>, k: int) -> bool {
    events[k] is Dropped && last_handle(count_after(events.take(k)))
}

/// `clones` clones followed by `drops` drops.
pub open spec fn clones_then_drops(clones: nat, drops: nat) -> Seq<HandleEvent> {
    Seq::new(
        clones + drops,
        |i: int|
            if i < clones {
                HandleEvent::Cloned
            } else {
                HandleEvent::Dropped
            },
    )
}

/// The allocation is freed at most once, and nothing comes after: where the
/// events are admissible, an event that frees is the last one.
pub proof fn lemma_free_is_final(events: Seq<HandleEvent>, k: int)
    requires
        admissible(events),
        0 <= k < events.len(),
        frees_at(events, k),
    ensures
        k == events.len() - 1,
{
    if k < events.len() - 1 {
        let after = events.take(k + 1);
        assert(after.drop_last() =~= events.take(k));
        assert(after.last() == events[k]);
        assert(count_after(after) == 0);
    }
}

/// Nothing leaks: where the events are admissible, the count is back at 0
/// exactly if the last event freed the allocation.
pub proof fn lemma_freed_when_count_zero(events: Seq<HandleEvent>)
    requires
        admissible(events),
    ensures
        count_after(events) == 0 <==> (events.len() > 0 && frees_at(
            events,
            events.len() - 1,
        )),
{
    if events.len() > 0 {
        let k = events.len() - 1;
        assert(events.take(k) =~= events.drop_last());
        assert(count_after(events.take(k)) >= 1);
    }
}

/// The count during `clones` clones followed by drops: it goes up by one for
/// each clone and down by one for each drop.
pub proof fn lemma_count_clones_then_drops(clones: nat, drops: nat)
    ensures
        count_after(clones_then_drops(clones, drops)) == 1 + clones - drops,
    decreases clones + drops,
{
    let events = clones_then_drops(clones, drops);
    if drops > 0 {
        assert(events.drop_last() =~= clones_then_drops(clones, (drops - 1) as nat));
        lemma_count_clones_then_drops(clones, (drops - 1) as nat);
    } else if clones > 0 {
        assert(events.drop_last() =~= clones_then_drops((clones - 1) as nat, 0));
        lemma_count_clones_then_drops((clones - 1) as nat, 0);
    }
}

/// Cloning `n` times and then dropping `n + 1` times is admissible, brings
/// the count to 0, and frees the allocation once: on the last drop, and on
/// no event before it.
pub proof fn lemma_clone_n_drop_all(n: nat)
    ensures
        admissible(clones_then_drops(n, n + 1)),
        count_after(clones_then_drops(n, n + 1)) == 0,
        frees_at(clones_then_drops(n, n + 1), 2 * n as int),
        forall|k: int| 0 <= k < 2 * n ==> !#[trigger] frees_at(clones_then_drops(n, n + 1), k),
{
    let events = clones_then_drops(n, n + 1);
    assert forall|k: int| 0 <= k <= events.len() implies #[trigger] count_after(events.take(k))
        == (if k <= n {
        1 + k
    } else {
        1 + n - (k - n)
    }) by {
        if k <= n {
            assert(events.take(k) =~= clones_then_drops(k as nat, 0));
            lemma_count_clones_then_drops(k as nat, 0);
        } else {
            assert(events.take(k) =~= clones_then_drops(n, (k - n) as nat));
            lemma_count_clones_then_drops(n, (k - n) as nat);
        }
    }
    assert(events.take(events.len() as int) =~= events);
}

} // verus!
