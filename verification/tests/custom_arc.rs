use rust_ds_algo::custom_arc::inner::InnerArc;
use rust_ds_algo::custom_arc::{is_last_handle, refcount_overflowed};

#[test]
fn new_allocation_has_one_handle() {
    let inner = InnerArc::new(String::from("shared"));
    assert_eq!(inner.get(), "shared");
    assert!(inner.release());
}

#[test]
fn clone_n_then_drop_all_frees_on_the_last_drop_only() {
    for n in 0..20usize {
        let inner = InnerArc::new(vec![1, 2, 3]);
        for _ in 0..n {
            assert!(!inner.acquire());
        }
        let mut frees = 0;
        for k in 0..=n {
            assert_eq!(inner.get(), &vec![1, 2, 3]);
            let last = inner.release();
            assert_eq!(last, k == n);
            if last {
                frees += 1;
            }
        }
        assert_eq!(frees, 1);
    }
}

#[test]
fn clones_and_drops_in_any_order_free_once_at_the_end() {
    let inner = InnerArc::new(17u64);
    assert!(!inner.acquire());
    assert!(!inner.acquire());
    assert!(!inner.release());
    assert!(!inner.acquire());
    assert_eq!(*inner.get(), 17);
    assert!(!inner.release());
    assert!(!inner.release());
    assert_eq!(*inner.get(), 17);
    assert!(inner.release());
}

#[test]
fn only_a_count_of_one_is_the_last_handle() {
    assert!(is_last_handle(1));
    assert!(!is_last_handle(0));
    assert!(!is_last_handle(2));
    assert!(!is_last_handle(usize::MAX));
}

#[test]
fn overflow_guard_sits_at_isize_max() {
    assert!(!refcount_overflowed(0));
    assert!(!refcount_overflowed(1));
    assert!(!refcount_overflowed(isize::MAX as usize));
    assert!(refcount_overflowed(isize::MAX as usize + 1));
    assert!(refcount_overflowed(usize::MAX));
}
