use session_pool::CheckoutStep;
use session_pool::PoolCore;

#[test]
fn new_pool_initial_state() {
    let p = PoolCore::new(4);
    assert_eq!(p.max_slots(), 4);
    assert_eq!(p.slots_len(), 1);
    assert_eq!(p.available_len(), 1);
    assert!(p.is_available(0));
    assert_eq!(p.available_permits(), 4);
    assert_eq!(p.growth_in_flight(), 0);
}

#[test]
fn lease_index_never_reissued_while_held() {
    // Two in-flight leases never hold the same slot index: once slot 0 is
    // leased, the next checkout must grow rather than hand out 0 again.
    let mut p = PoolCore::new(2);
    let first = p.checkout();
    assert_eq!(first, CheckoutStep::Lease(0));
    assert!(!p.is_available(0));
    let second = p.checkout();
    assert_eq!(second, CheckoutStep::Grow);
    let idx = p.grow_succeeded();
    assert_eq!(idx, 1);
    assert!(!p.is_available(1));
}

#[test]
fn quiescent_after_mixed_cycles() {
    // After completed invocations, successful and failed alike, every slot
    // is back on the availability stack and the semaphore is back to `max`.
    let mut p = PoolCore::new(2);
    let s1 = p.checkout();
    assert_eq!(s1, CheckoutStep::Lease(0));
    let s2 = p.checkout();
    assert_eq!(s2, CheckoutStep::Grow);
    p.grow_failed(); // a construction failure
    p.release_slot(0);
    let s3 = p.checkout();
    assert_eq!(s3, CheckoutStep::Lease(0));
    let s4 = p.checkout();
    assert_eq!(s4, CheckoutStep::Grow);
    let idx = p.grow_succeeded();
    assert_eq!(idx, 1);
    p.release_slot(idx);
    p.release_slot(0);
    assert_eq!(p.available_len(), p.slots_len());
    assert_eq!(p.available_permits(), p.max_slots());
    assert_eq!(p.growth_in_flight(), 0);
}

#[test]
fn table_bounded_and_never_shrinks() {
    let mut p = PoolCore::new(3);
    let mut seen = p.slots_len();
    while p.eager_slots_remaining() > 0 {
        p.admit_slot();
        assert!(p.slots_len() >= seen);
        assert!(p.slots_len() <= p.max_slots());
        seen = p.slots_len();
    }
    assert_eq!(p.slots_len(), 3);
    // further cycles never change the table size
    let s = p.checkout();
    assert_eq!(s, CheckoutStep::Lease(2));
    p.release_slot(2);
    assert_eq!(p.slots_len(), 3);
}

#[test]
fn load_all_then_max_checkouts_no_growth() {
    // A completed warm-up means `max` concurrent checkouts are all served
    // from the table: no checkout decides to construct lazily.
    let mut p = PoolCore::new(3);
    while p.eager_slots_remaining() > 0 {
        p.admit_slot();
    }
    let mut granted = 0;
    loop {
        match p.checkout() {
            CheckoutStep::Lease(_) => granted += 1,
            CheckoutStep::Grow => panic!("lazy growth after a completed warm-up"),
            CheckoutStep::Wait => break,
        }
    }
    assert_eq!(granted, 3);
}

#[test]
fn three_requests_capacity_two() {
    // Capacity 2, one pre-existing slot, three concurrent requests: two run
    // at once (slot 0 and a newly built slot 1), the third waits until one
    // of them releases; afterwards the table has exactly two slots and the
    // availability stack holds both indices.
    let mut p = PoolCore::new(2);
    let first = p.checkout();
    assert_eq!(first, CheckoutStep::Lease(0));
    let second = p.checkout();
    assert_eq!(second, CheckoutStep::Grow);
    let second_idx = p.grow_succeeded();
    assert_eq!(second_idx, 1);
    let third = p.checkout();
    assert_eq!(third, CheckoutStep::Wait);
    p.release_slot(0);
    let third_retry = p.checkout();
    assert_eq!(third_retry, CheckoutStep::Lease(0));
    p.release_slot(1);
    p.release_slot(0);
    assert_eq!(p.slots_len(), 2);
    assert_eq!(p.available_len(), 2);
    assert!(p.is_available(0));
    assert!(p.is_available(1));
    assert_eq!(p.available_permits(), 2);
}

#[test]
fn failed_growth_returns_permit() {
    // A construction failure during growth hands the permit back before the
    // error propagates; the other checkout's slot is untouched and reusable.
    let mut p = PoolCore::new(2);
    let first = p.checkout();
    assert_eq!(first, CheckoutStep::Lease(0));
    let permits_before = p.available_permits();
    let slots_before = p.slots_len();
    let second = p.checkout();
    assert_eq!(second, CheckoutStep::Grow);
    assert_eq!(p.available_permits(), permits_before - 1);
    p.grow_failed(); // the engine rejected the recipe
    assert_eq!(p.available_permits(), permits_before);
    assert_eq!(p.slots_len(), slots_before);
    assert_eq!(p.growth_in_flight(), 0);
    p.release_slot(0);
    let retry = p.checkout();
    assert_eq!(retry, CheckoutStep::Lease(0));
}

#[test]
fn warm_up_twice_is_like_once() {
    let mut p = PoolCore::new(3);
    while p.eager_slots_remaining() > 0 {
        p.admit_slot();
    }
    let slots = p.slots_len();
    let available = p.available_len();
    let permits = p.available_permits();
    // the second warm-up finds nothing left to construct
    let mut admitted = 0;
    while p.eager_slots_remaining() > 0 {
        p.admit_slot();
        admitted += 1;
    }
    assert_eq!(admitted, 0);
    assert_eq!(p.slots_len(), slots);
    assert_eq!(p.available_len(), available);
    assert_eq!(p.available_permits(), permits);
    assert!(p.is_available(0));
    assert!(p.is_available(1));
    assert!(p.is_available(2));
}

#[test]
fn lifo_reuse_of_released_indices() {
    // The availability stack pops the most recently released index first.
    let mut p = PoolCore::new(3);
    while p.eager_slots_remaining() > 0 {
        p.admit_slot();
    }
    let a = p.checkout(); // top of stack: the last admitted index
    assert_eq!(a, CheckoutStep::Lease(2));
    let b = p.checkout();
    assert_eq!(b, CheckoutStep::Lease(1));
    p.release_slot(1);
    p.release_slot(2);
    let c = p.checkout(); // 2 was released last, so it is reused first
    assert_eq!(c, CheckoutStep::Lease(2));
}

#[test]
fn checkout_at_capacity_one_waits() {
    let mut p = PoolCore::new(1);
    let first = p.checkout();
    assert_eq!(first, CheckoutStep::Lease(0));
    let second = p.checkout();
    assert_eq!(second, CheckoutStep::Wait);
    p.release_slot(0);
    let third = p.checkout();
    assert_eq!(third, CheckoutStep::Lease(0));
}
