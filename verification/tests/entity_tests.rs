use dreki::entity::EntityAllocator;

#[test]
fn allocate_sequential() {
    let mut alloc = EntityAllocator::new();
    let e0 = alloc.allocate();
    let e1 = alloc.allocate();
    assert_eq!(e0.index(), 0);
    assert_eq!(e1.index(), 1);
    assert_eq!(e0.generation(), 0);
    assert_eq!(e1.generation(), 0);
}

#[test]
fn recycle_bumps_generation() {
    let mut alloc = EntityAllocator::new();
    let e0 = alloc.allocate();
    assert!(alloc.deallocate(e0));
    let e0_reused = alloc.allocate();
    assert_eq!(e0_reused.index(), 0);
    assert_eq!(e0_reused.generation(), 1);
}

#[test]
fn stale_handle_detected() {
    let mut alloc = EntityAllocator::new();
    let e0 = alloc.allocate();
    assert!(alloc.is_alive(e0));
    alloc.deallocate(e0);
    assert!(!alloc.is_alive(e0));
}

#[test]
fn double_free_returns_false() {
    let mut alloc = EntityAllocator::new();
    let e0 = alloc.allocate();
    assert!(alloc.deallocate(e0));
    assert!(!alloc.deallocate(e0));
}

#[test]
fn alive_count() {
    let mut alloc = EntityAllocator::new();
    assert_eq!(alloc.alive_count(), 0);
    let e0 = alloc.allocate();
    let _e1 = alloc.allocate();
    assert_eq!(alloc.alive_count(), 2);
    alloc.deallocate(e0);
    assert_eq!(alloc.alive_count(), 1);
}

#[test]
fn free_count_and_total_slots() {
    let mut alloc = EntityAllocator::new();
    assert_eq!(alloc.free_count(), 0);
    assert_eq!(alloc.total_slots(), 0);

    let e0 = alloc.allocate();
    let _e1 = alloc.allocate();
    assert_eq!(alloc.total_slots(), 2);
    assert_eq!(alloc.free_count(), 0);

    alloc.deallocate(e0);
    assert_eq!(alloc.total_slots(), 2);
    assert_eq!(alloc.free_count(), 1);
}

#[test]
fn recycled_slots_are_reused_last_freed_first() {
    let mut alloc = EntityAllocator::new();
    let e0 = alloc.allocate();
    let e1 = alloc.allocate();
    let _e2 = alloc.allocate();
    assert!(alloc.deallocate(e0));
    assert!(alloc.deallocate(e1));
    let a = alloc.allocate();
    let b = alloc.allocate();
    assert_eq!((a.index(), a.generation()), (1, 1));
    assert_eq!((b.index(), b.generation()), (0, 1));
    let c = alloc.allocate();
    assert_eq!((c.index(), c.generation()), (3, 0));
    assert_eq!(alloc.alive_count(), 4);
}

#[test]
fn stale_handle_cannot_free_new_occupant() {
    let mut alloc = EntityAllocator::new();
    let old = alloc.allocate();
    assert!(alloc.deallocate(old));
    let new = alloc.allocate();
    assert_eq!(new.index(), old.index());
    assert!(!alloc.deallocate(old));
    assert!(alloc.is_alive(new));
    assert!(!alloc.is_alive(old));
}
