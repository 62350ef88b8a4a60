use rust_ds_algo::custom_vec::{CustomVec, Drain, RawDynamicArray, RawIter};
use std::cell::Cell;
use std::rc::Rc;

/// Counts how many of its kind have been dropped.
struct Counted {
    id: usize,
    drops: Rc<Cell<usize>>,
}

impl Drop for Counted {
    fn drop(&mut self) {
        self.drops.set(self.drops.get() + 1);
    }
}

fn counted_vec(n: usize, drops: &Rc<Cell<usize>>) -> CustomVec<Counted> {
    let mut v = CustomVec::new();
    for id in 0..n {
        v.push(Counted { id, drops: drops.clone() });
    }
    v
}

fn contents(v: &CustomVec<i32>) -> Vec<i32> {
    (0..v.len()).map(|i| *v.get(i)).collect()
}

#[test]
fn new_vec_is_empty() {
    let mut v = CustomVec::<i32>::new();
    assert_eq!(v.len(), 0);
    assert_eq!(v.pop(), None);
    assert_eq!(v.remove(0), None);
    assert_eq!(v.len(), 0);
}

#[test]
fn push_then_pop_is_last_in_first_out() {
    let mut v = CustomVec::new();
    for i in 0..100 {
        v.push(i);
    }
    assert_eq!(v.len(), 100);
    for i in (0..100).rev() {
        assert_eq!(v.pop(), Some(i));
    }
    assert_eq!(v.pop(), None);
    assert_eq!(v.len(), 0);
}

#[test]
fn interleaved_push_and_pop() {
    let mut v = CustomVec::new();
    v.push(1);
    v.push(2);
    assert_eq!(v.pop(), Some(2));
    v.push(3);
    v.push(4);
    assert_eq!(v.pop(), Some(4));
    assert_eq!(v.pop(), Some(3));
    assert_eq!(v.pop(), Some(1));
    assert_eq!(v.pop(), None);
}

#[test]
fn growth_keeps_elements_in_place() {
    let mut v = CustomVec::new();
    for i in 0..1000 {
        v.push(i * 3);
        assert_eq!(*v.get(0), 0);
        assert_eq!(*v.get(i as usize), i * 3);
    }
    assert_eq!(contents(&v), (0..1000).map(|i| i * 3).collect::<Vec<i32>>());
}

#[test]
fn raw_buffer_doubles() {
    let mut raw = RawDynamicArray::<u8>::new();
    assert_eq!(raw.cap(), 0);
    raw.grow();
    assert_eq!(raw.cap(), 1);
    raw.grow();
    assert_eq!(raw.cap(), 2);
    raw.grow();
    assert_eq!(raw.cap(), 4);
    raw.write(3, 9);
    raw.grow();
    assert_eq!(raw.cap(), 8);
    assert_eq!(*raw.get(3), 9);
    assert_eq!(raw.read(2), None);
    assert_eq!(raw.read(7), None);
    assert_eq!(raw.read(3), Some(9));
    assert_eq!(raw.read(3), None);
}

#[test]
fn raw_buffer_block_move() {
    let mut raw = RawDynamicArray::<u8>::new();
    for _ in 0..4 {
        raw.grow();
    }
    assert_eq!(raw.cap(), 8);
    for i in 0..5 {
        raw.write(i, i as u8 + 1);
    }
    // 1 2 3 4 5 _ _ _  ->  1 _ 2 3 4 5 _ _
    raw.move_range(1, 2, 4);
    let slots: Vec<Option<u8>> = (0..8).map(|i| raw.read(i)).collect();
    assert_eq!(
        slots,
        vec![Some(1), None, Some(2), Some(3), Some(4), Some(5), None, None]
    );
    for i in 2..6 {
        raw.write(i, i as u8);
    }
    // _ _ 2 3 4 5 _ _  ->  2 3 4 5 _ _ _ _
    raw.move_range(2, 0, 4);
    let slots: Vec<Option<u8>> = (0..8).map(|i| raw.read(i)).collect();
    assert_eq!(
        slots,
        vec![Some(2), Some(3), Some(4), Some(5), None, None, None, None]
    );
}

#[test]
fn insert_shifts_up() {
    let mut v = CustomVec::new();
    v.push(10);
    v.push(20);
    v.push(30);
    v.insert(15, 1);
    assert_eq!(contents(&v), vec![10, 15, 20, 30]);
    v.insert(5, 0);
    assert_eq!(contents(&v), vec![5, 10, 15, 20, 30]);
    v.insert(35, 5);
    assert_eq!(contents(&v), vec![5, 10, 15, 20, 30, 35]);
    assert_eq!(v.len(), 6);
}

#[test]
fn insert_into_empty() {
    let mut v = CustomVec::new();
    v.insert(1, 0);
    assert_eq!(contents(&v), vec![1]);
}

#[test]
fn remove_shifts_down() {
    let mut v = CustomVec::new();
    for i in 0..5 {
        v.push(i);
    }
    assert_eq!(v.remove(1), Some(1));
    assert_eq!(contents(&v), vec![0, 2, 3, 4]);
    assert_eq!(v.remove(3), Some(4));
    assert_eq!(contents(&v), vec![0, 2, 3]);
    assert_eq!(v.remove(0), Some(0));
    assert_eq!(contents(&v), vec![2, 3]);
}

#[test]
fn remove_out_of_range_yields_nothing() {
    let mut v = CustomVec::new();
    v.push(1);
    v.push(2);
    assert_eq!(v.remove(2), None);
    assert_eq!(v.remove(usize::MAX), None);
    assert_eq!(contents(&v), vec![1, 2]);
}

#[test]
fn insert_then_remove_restores() {
    let mut v = CustomVec::new();
    for i in 0..7 {
        v.push(i);
    }
    for at in 0..=7 {
        v.insert(99, at);
        assert_eq!(v.len(), 8);
        assert_eq!(*v.get(at), 99);
        assert_eq!(v.remove(at), Some(99));
        assert_eq!(contents(&v), vec![0, 1, 2, 3, 4, 5, 6]);
    }
}

#[test]
fn get_mut_writes_through() {
    let mut v = CustomVec::new();
    v.push(1);
    v.push(2);
    *v.get_mut(1) = 20;
    *v.get_mut(0) += 4;
    assert_eq!(contents(&v), vec![5, 20]);
}

#[test]
fn drain_yields_all_in_order() {
    let mut v = CustomVec::new();
    for i in 0..10 {
        v.push(i);
    }
    let mut drain = v.drain();
    assert_eq!(drain.size_hint(), (10, Some(10)));
    let mut seen = Vec::new();
    while let Some(x) = drain.next() {
        seen.push(x);
    }
    assert_eq!(seen, (0..10).collect::<Vec<i32>>());
    assert_eq!(drain.next(), None);
    assert_eq!(drain.next_back(), None);
    assert_eq!(v.len(), 0);
    v.push(42);
    assert_eq!(contents(&v), vec![42]);
}

#[test]
fn drain_of_empty_vec() {
    let mut v = CustomVec::<i32>::new();
    let mut drain = v.drain();
    assert_eq!(drain.size_hint(), (0, Some(0)));
    assert_eq!(drain.next(), None);
    assert_eq!(v.len(), 0);
}

#[test]
fn abandoned_drain_still_empties_and_drops() {
    let drops = Rc::new(Cell::new(0));
    let mut v = counted_vec(6, &drops);
    {
        let mut drain = v.drain();
        let first = drain.next().map(|c| c.id);
        assert_eq!(first, Some(0));
        assert_eq!(drops.get(), 1);
        let last = drain.next_back().map(|c| c.id);
        assert_eq!(last, Some(5));
        assert_eq!(drops.get(), 2);
    }
    assert_eq!(drops.get(), 6);
    assert_eq!(v.len(), 0);
    drop(v);
    assert_eq!(drops.get(), 6);
}

#[test]
fn dropping_the_vec_drops_each_live_element_once() {
    let drops = Rc::new(Cell::new(0));
    let mut v = counted_vec(5, &drops);
    let popped = v.pop();
    assert_eq!(popped.as_ref().map(|c| c.id), Some(4));
    drop(popped);
    assert_eq!(drops.get(), 1);
    let removed = v.remove(1);
    assert_eq!(removed.as_ref().map(|c| c.id), Some(1));
    drop(removed);
    assert_eq!(drops.get(), 2);
    drop(v);
    assert_eq!(drops.get(), 5);
}

#[test]
fn into_iter_from_both_ends() {
    let mut v = CustomVec::new();
    for i in 1..=6 {
        v.push(i);
    }
    let mut iter = v.into_iter();
    assert_eq!(iter.size_hint(), (6, Some(6)));
    assert_eq!(iter.next(), Some(1));
    assert_eq!(iter.next_back(), Some(6));
    assert_eq!(iter.next_back(), Some(5));
    assert_eq!(iter.next(), Some(2));
    assert_eq!(iter.size_hint(), (2, Some(2)));
    assert_eq!(iter.next(), Some(3));
    assert_eq!(iter.next_back(), Some(4));
    assert_eq!(iter.next(), None);
    assert_eq!(iter.next_back(), None);
    assert_eq!(iter.size_hint(), (0, Some(0)));
}

#[test]
fn abandoned_into_iter_drops_the_rest() {
    let drops = Rc::new(Cell::new(0));
    let v = counted_vec(4, &drops);
    {
        let mut iter = v.into_iter();
        assert_eq!(iter.next().map(|c| c.id), Some(0));
        assert_eq!(drops.get(), 1);
    }
    assert_eq!(drops.get(), 4);
}

#[test]
fn raw_iter_and_drain_by_hand() {
    let mut v = CustomVec::new();
    v.push('a');
    v.push('b');
    v.push('c');
    let raw_iter = RawIter::new(v);
    assert_eq!(raw_iter.size_hint(), (3, Some(3)));
    let mut drain = Drain::new(raw_iter);
    assert_eq!(drain.next_back(), Some('c'));
    assert_eq!(drain.next(), Some('a'));
    assert_eq!(drain.next(), Some('b'));
    assert_eq!(drain.next(), None);
}

#[test]
fn zero_sized_elements() {
    let mut v = CustomVec::new();
    for _ in 0..10 {
        v.push(());
    }
    assert_eq!(v.len(), 10);
    assert_eq!(v.remove(3), Some(()));
    assert_eq!(v.pop(), Some(()));
    assert_eq!(v.len(), 8);
}
