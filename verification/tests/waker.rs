use async_weighted_semaphore::waker::{AtomicWaker, Effect, Poll, State, WakerParts, WakerResult};

const A: WakerParts = WakerParts { data: 10, vtable: 1 };
const B: WakerParts = WakerParts { data: 20, vtable: 1 };

#[test]
fn test_finish() {
    let mut effects = vec![];
    let mut waiter = AtomicWaker::new();
    assert_eq!(Poll::Pending, waiter.poll(A, &mut effects));
    assert_eq!(WakerResult::Finished { poisoned: false }, waiter.finish(false, &mut effects));
    assert_eq!(effects, vec![Effect::Wake(A)]);
    assert_eq!(Poll::Ready(false), waiter.poll(B, &mut effects));
    assert_eq!(effects, vec![Effect::Wake(A), Effect::Drop(B)]);
}

#[test]
fn waker_test_cancel() {
    let mut effects = vec![];
    let mut waiter = AtomicWaker::new();
    assert_eq!(Poll::Pending, waiter.poll(A, &mut effects));
    match waiter.start_cancel(5) {
        WakerResult::Cancelling => {
            assert!(!waiter.wait_cancel());
            waiter.accept_cancel(&mut effects);
            assert!(waiter.wait_cancel());
        }
        WakerResult::Finished { .. } => panic!(),
    }
    assert_eq!(effects, vec![Effect::Unpark(5)]);
    waiter.drop(false, &mut effects);
    assert_eq!(effects, vec![Effect::Unpark(5), Effect::Drop(A)]);
}

#[test]
fn test_finish_cancel() {
    let mut effects = vec![];
    let mut waiter = AtomicWaker::new();
    assert_eq!(Poll::Pending, waiter.poll(A, &mut effects));
    assert_eq!(WakerResult::Finished { poisoned: true }, waiter.finish(true, &mut effects));
    match waiter.start_cancel(5) {
        WakerResult::Cancelling => panic!(),
        WakerResult::Finished { poisoned } => assert!(poisoned),
    }
}

#[test]
fn test_cancel_finish() {
    let mut effects = vec![];
    let mut waiter = AtomicWaker::new();
    assert_eq!(Poll::Pending, waiter.poll(A, &mut effects));
    match waiter.start_cancel(5) {
        WakerResult::Cancelling => {
            assert_eq!(WakerResult::Cancelling, waiter.finish(false, &mut effects));
            waiter.accept_cancel(&mut effects);
            assert!(waiter.wait_cancel());
        }
        WakerResult::Finished { .. } => panic!(),
    }
}

#[test]
fn poll_replaces_the_waker() {
    let mut effects = vec![];
    let mut waiter = AtomicWaker::new();
    assert_eq!(waiter.state(), State::Pending { seq: 0 });
    assert_eq!(Poll::Pending, waiter.poll(A, &mut effects));
    assert_eq!(effects, vec![]);
    assert_eq!(waiter.state(), State::Pending { seq: 1 });
    assert_eq!(Poll::Pending, waiter.poll(B, &mut effects));
    assert_eq!(effects, vec![Effect::Drop(A)]);
    assert_eq!(waiter.state(), State::Pending { seq: 2 });
    waiter.drop(false, &mut effects);
    assert_eq!(effects, vec![Effect::Drop(A), Effect::Drop(B)]);
}

#[test]
fn drop_without_a_waker_gives_up_nothing() {
    let mut effects = vec![];
    AtomicWaker::new().drop(false, &mut effects);
    assert_eq!(effects, vec![]);
}

#[test]
fn drop_while_panicking_keeps_a_waker_in_use() {
    let mut effects = vec![];
    let mut waiter = AtomicWaker::new();
    assert_eq!(Poll::Pending, waiter.poll(A, &mut effects));
    assert_eq!(WakerResult::Cancelling, waiter.start_cancel(5));
    waiter.drop(true, &mut effects);
    assert_eq!(effects, vec![]);
}

#[test]
fn finish_before_the_waker_is_stored() {
    let mut effects = vec![];
    let mut waiter = AtomicWaker::new();
    assert_eq!(Poll::Pending, waiter.poll(A, &mut effects));
    let seen = waiter.state();
    assert_eq!(waiter.begin_poll_from(seen), Ok(1));
    assert_eq!(waiter.state(), State::Storing { seq: 1 });
    assert_eq!(WakerResult::Finished { poisoned: true }, waiter.finish(true, &mut effects));
    assert_eq!(effects, vec![]);
    waiter.store_waker(B, &mut effects);
    assert_eq!(Poll::Ready(true), waiter.end_poll(1, B, &mut effects));
    assert_eq!(effects, vec![Effect::Drop(A), Effect::Drop(B)]);
    waiter.drop(false, &mut effects);
    assert_eq!(effects.len(), 2);
}

#[test]
fn finish_after_the_waker_is_stored() {
    let mut effects = vec![];
    let mut waiter = AtomicWaker::new();
    assert_eq!(Poll::Pending, waiter.poll(A, &mut effects));
    let seen = waiter.state();
    assert_eq!(waiter.begin_poll_from(seen), Ok(1));
    waiter.store_waker(B, &mut effects);
    assert_eq!(WakerResult::Finished { poisoned: false }, waiter.finish(false, &mut effects));
    assert_eq!(Poll::Ready(false), waiter.end_poll(1, B, &mut effects));
    assert_eq!(effects, vec![Effect::Drop(A), Effect::Drop(B)]);
}

#[test]
fn stale_reads_make_no_difference() {
    let mut effects = vec![];
    let mut waiter = AtomicWaker::new();
    let stale = waiter.state();
    assert_eq!(Poll::Pending, waiter.poll(A, &mut effects));
    assert_eq!(waiter.begin_poll_from(stale), Ok(1));
    waiter.store_waker(B, &mut effects);
    assert_eq!(Poll::Pending, waiter.end_poll(1, B, &mut effects));
    assert_eq!(
        WakerResult::Finished { poisoned: false },
        waiter.finish_from(stale, false, &mut effects)
    );
    assert_eq!(effects, vec![Effect::Drop(A), Effect::Wake(B)]);
    assert_eq!(waiter.begin_poll_from(stale), Err(false));
    assert_eq!(
        WakerResult::Finished { poisoned: false },
        waiter.start_cancel_from(stale, 3)
    );
}

#[test]
fn finish_from_a_read_before_a_cancellation() {
    let mut effects = vec![];
    let mut waiter = AtomicWaker::new();
    assert_eq!(Poll::Pending, waiter.poll(A, &mut effects));
    let stale = waiter.state();
    assert_eq!(WakerResult::Cancelling, waiter.start_cancel_from(stale, 3));
    assert_eq!(WakerResult::Cancelling, waiter.finish_from(stale, false, &mut effects));
    assert_eq!(effects, vec![]);
}
