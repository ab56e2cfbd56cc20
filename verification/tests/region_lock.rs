use tilegrid::point::{Point, Rect};
use tilegrid::region_lock::Lock;

fn rect(x0: i32, y0: i32, x1: i32, y1: i32) -> Rect {
    Rect { lo: Point { x: x0, y: y0 }, hi: Point { x: x1, y: y1 } }
}

#[test]
fn read_lock_region() {
    let mut lock = Lock::new();
    let _read_key = lock.read_region(&vec![rect(0, 0, 100, 100)]);
    assert!(lock.try_read_region(&vec![rect(200, 200, 250, 250)]).is_some());
    assert!(lock.try_read_region(&vec![rect(20, 20, 25, 25)]).is_some());
    assert!(lock.try_write_region(&vec![rect(20, 20, 25, 25)]).is_none());
}

#[test]
fn write_lock_region() {
    let mut lock = Lock::new();
    let _write_key = lock.write_region(&vec![rect(0, 0, 100, 100)]);
    assert!(lock.try_read_region(&vec![rect(200, 200, 250, 250)]).is_some());
    assert!(lock.try_read_region(&vec![rect(20, 20, 25, 25)]).is_none());
    assert!(lock.try_write_region(&vec![rect(20, 20, 25, 25)]).is_none());
}

#[test]
fn unlock_read() {
    let mut lock = Lock::new();
    let read_key = lock.read_region(&vec![rect(0, 0, 100, 100)]);
    assert!(lock.try_write_region(&vec![rect(20, 20, 25, 25)]).is_none());
    lock.unlock_region(read_key);
    assert!(lock.try_write_region(&vec![rect(20, 20, 25, 25)]).is_some());
}

#[test]
fn unlock_write() {
    let mut lock = Lock::new();
    let write_key = lock.write_region(&vec![rect(0, 0, 100, 100)]);
    assert!(lock.try_read_region(&vec![rect(20, 20, 25, 25)]).is_none());
    lock.unlock_region(write_key);
    assert!(lock.try_read_region(&vec![rect(20, 20, 25, 25)]).is_some());
}

// A shared acquisition, released, then an exclusive acquisition of the same
// regions: the exclusive acquisition succeeds.
#[test]
fn read_release_then_write() {
    let mut lock = Lock::new();
    let regions = vec![rect(0, 0, 10, 10)];
    let g = lock.try_read_region(&regions).expect("uncontended read");
    lock.unlock_region(g);
    assert!(lock.try_write_region(&regions).is_some());
}

// Single-tile exclusion: while an exclusive holder covers the tile (5, 5),
// an exclusive request for that tile is refused and a shared request far
// away succeeds.
#[test]
fn single_tile_exclusion() {
    let mut lock = Lock::new();
    let held = lock.write_region(&vec![rect(5, 5, 6, 6)]);
    assert!(lock.try_write_region(&vec![rect(5, 5, 6, 6)]).is_none());
    assert!(lock.try_read_region(&vec![rect(100, 100, 101, 101)]).is_some());
    lock.unlock_region(held);
}

// A blocking conflicting request is queued on the holder that blocks it,
// and the release hands its key back for waking.
#[test]
fn queued_waiter_woken_on_release() {
    let mut lock = Lock::new();
    let held = lock.write_region(&vec![rect(0, 0, 10, 10)]);
    let attempt = lock.lock_region(&vec![rect(5, 5, 15, 15)], true, true);
    let queued = match attempt {
        tilegrid::region_lock::LockAttempt::Queued(k) => k,
        _ => panic!("expected the conflicting request to queue"),
    };
    let woken = lock.unlock_region(held);
    assert_eq!(woken.len(), 1);
    assert!(woken[0] == queued);
    // after the wake, a retry succeeds
    assert!(lock.try_write_region(&vec![rect(5, 5, 15, 15)]).is_some());
}

// The serial counter resets only once the lock is idle and every queued
// acquisition has been retired, so a parked key's id is never reused while
// its thread may still be parked.
#[test]
fn counter_resets_only_after_pending_retired() {
    let mut lock = Lock::new();
    let held = lock.write_region(&vec![rect(0, 0, 10, 10)]);
    assert_eq!(held.key.id, 0);
    let queued = match lock.lock_region(&vec![rect(5, 5, 15, 15)], true, true) {
        tilegrid::region_lock::LockAttempt::Queued(k) => k,
        _ => panic!("expected the conflicting request to queue"),
    };
    assert_eq!(queued.id, 1);
    // releasing the only holder wakes the waiter but must not reset the
    // counter: the woken acquisition is still pending
    lock.unlock_region(held);
    let retry = lock.try_write_region(&vec![rect(5, 5, 15, 15)]).expect("retry");
    assert_eq!(retry.key.id, 2);
    lock.retire_pending();
    // now the lock drains to idle with nothing pending: the counter resets
    lock.unlock_region(retry);
    let fresh = lock.try_read_region(&vec![rect(0, 0, 1, 1)]).expect("fresh");
    assert_eq!(fresh.key.id, 0);
    lock.unlock_region(fresh);
}
