use std::sync::Arc;
use std::task::{Wake, Waker};

use local_sync::identity::Identities;
use local_sync::semaphore::{
    Acquire, Inner, Semaphore, SemaphorePermit, TryAcquireError, MAX_PERMITS,
};
use local_sync::task::Poll;
use local_sync::wake_list::WakeList;

struct Task(#[allow(dead_code)] u8);

impl Wake for Task {
    fn wake(self: Arc<Self>) {}
}

fn task() -> Waker {
    Waker::from(Arc::new(Task(0)))
}

fn inner(permits: usize) -> Inner {
    Inner::new(Identities::new().fresh(), permits)
}

fn semaphore(permits: usize) -> Semaphore {
    Semaphore::new(&mut Identities::new(), permits)
}

fn is_ok<T, E>(poll: &Poll<Result<T, E>>) -> bool {
    matches!(poll, Poll::Ready(Ok(_)))
}

fn is_err<T, E>(poll: &Poll<Result<T, E>>) -> bool {
    matches!(poll, Poll::Ready(Err(_)))
}

fn is_pending<T>(poll: &Poll<T>) -> bool {
    matches!(poll, Poll::Pending)
}

fn granted<T, E>(poll: Poll<Result<T, E>>) -> T {
    match poll {
        Poll::Ready(Ok(value)) => value,
        _ => panic!("no permit"),
    }
}

#[test]
fn inner_works() {
    let mut s = inner(10);
    for _ in 0..10 {
        let mut acquire = s.acquire(1);
        assert!(is_ok(&acquire.poll(&mut s, task())));
    }
    assert_eq!(s.available_permits(), 0);
}

#[test]
fn inner_release_after_acquire() {
    let mut s = inner(0);
    let mut wakes = WakeList::new();
    let waker = task();

    let mut first = s.acquire(1);
    assert!(is_pending(&first.poll(&mut s, waker.clone())));
    s.release(2, &mut wakes);
    let woken = wakes.into_vec();
    assert_eq!(woken.len(), 1);
    assert!(woken[0].will_wake(&waker));

    assert!(is_ok(&first.poll(&mut s, task())));
    let mut second = s.acquire(1);
    assert!(is_ok(&second.poll(&mut s, task())));
    assert_eq!(s.available_permits(), 0);
}

#[test]
fn it_works() {
    let mut s = semaphore(0);
    let mut wakes = WakeList::new();
    s.add_permits(1, &mut wakes);
    let mut request = s.acquire();
    let _permit = granted(request.poll(&mut s, task()));
}

#[test]
fn permits_are_taken_and_given_back() {
    let mut s = semaphore(2);
    let mut wakes = WakeList::new();
    let permit_1 = granted(s.acquire().poll(&mut s, task()));
    assert_eq!(s.available_permits(), 1);
    let permit_2 = granted(s.acquire().poll(&mut s, task()));
    assert_eq!(s.available_permits(), 0);
    permit_1.drop(&mut s, &mut wakes);
    assert_eq!(s.available_permits(), 1);
    permit_2.drop(&mut s, &mut wakes);
    assert_eq!(s.available_permits(), 2);
    assert!(wakes.is_empty());
}

#[test]
fn basic_semaphore_usage() {
    let mut s = semaphore(3);
    let a_permit = granted(s.acquire().poll(&mut s, task()));
    let two_permits = granted(s.acquire_many(2).poll(&mut s, task()));
    assert_eq!(a_permit.num_permits(), 1);
    assert_eq!(two_permits.num_permits(), 2);
    assert_eq!(s.available_permits(), 0);
    assert_eq!(s.try_acquire().err(), Some(TryAcquireError::NoPermits));
}

#[test]
fn acquire_many_takes_that_many() {
    let mut s = semaphore(5);
    let _permit = granted(s.acquire_many(3).poll(&mut s, task()));
    assert_eq!(s.available_permits(), 2);
}

#[test]
fn try_acquire_until_none_is_left() {
    let mut s = semaphore(2);
    let _permit_1 = s.try_acquire().unwrap();
    assert_eq!(s.available_permits(), 1);
    let _permit_2 = s.try_acquire().unwrap();
    assert_eq!(s.available_permits(), 0);
    assert_eq!(s.try_acquire().err(), Some(TryAcquireError::NoPermits));
}

#[test]
fn try_acquire_many_needs_all_at_once() {
    let mut s = semaphore(4);
    let _permit_1 = s.try_acquire_many(3).unwrap();
    assert_eq!(s.available_permits(), 1);
    assert_eq!(s.try_acquire_many(2).err(), Some(TryAcquireError::NoPermits));
    assert_eq!(s.available_permits(), 1);
}

#[test]
fn try_acquire_owned_until_none_is_left() {
    let mut s = semaphore(2);
    let mut wakes = WakeList::new();
    let permit_1 = s.try_acquire_owned().unwrap();
    assert_eq!(s.available_permits(), 1);
    let permit_2 = s.try_acquire_owned().unwrap();
    assert_eq!(s.available_permits(), 0);
    assert_eq!(s.try_acquire_owned().err(), Some(TryAcquireError::NoPermits));
    permit_1.drop(&mut s, &mut wakes);
    permit_2.drop(&mut s, &mut wakes);
    assert_eq!(s.available_permits(), 2);
}

#[test]
fn try_acquire_many_owned_needs_all_at_once() {
    let mut s = semaphore(4);
    let permit_1 = s.try_acquire_many_owned(3).unwrap();
    assert_eq!(permit_1.num_permits(), 3);
    assert_eq!(s.available_permits(), 1);
    assert_eq!(
        s.try_acquire_many_owned(2).err(),
        Some(TryAcquireError::NoPermits)
    );
}

#[test]
fn owned_requests_wait_too() {
    let mut s = semaphore(1);
    let mut wakes = WakeList::new();
    let permit = granted(s.acquire_owned().poll(&mut s, task()));
    let mut waiting = s.acquire_many_owned(2);
    assert!(is_pending(&waiting.poll(&mut s, task())));
    s.add_permits(1, &mut wakes);
    assert!(is_pending(&waiting.poll(&mut s, task())));
    permit.drop(&mut s, &mut wakes);
    assert_eq!(wakes.len(), 1);
    let two = granted(waiting.poll(&mut s, task()));
    assert_eq!(two.num_permits(), 2);
    assert_eq!(s.available_permits(), 0);
}

#[test]
fn waiting_request_is_turned_away_when_the_semaphore_closes() {
    let mut s = semaphore(1);
    let mut wakes = WakeList::new();
    let waker = task();
    let mut request = s.acquire_many(2);
    assert!(is_pending(&request.poll(&mut s, waker.clone())));
    s.close(&mut wakes);
    assert!(s.is_closed());
    let woken = wakes.into_vec();
    assert_eq!(woken.len(), 1);
    assert!(woken[0].will_wake(&waker));
    assert!(is_err(&request.poll(&mut s, task())));
    assert_eq!(s.try_acquire().err(), Some(TryAcquireError::Closed));
    // what it had been assigned is there again
    let mut wakes = WakeList::new();
    request.cancel(&mut s, &mut wakes);
    assert_eq!(s.available_permits(), 1);
    assert!(s.is_closed());
}

#[test]
fn permits_go_to_who_asked_first() {
    let mut s = semaphore(0);
    let mut wakes = WakeList::new();
    let wakers = vec![task(), task(), task()];
    let mut first = s.acquire_many(3);
    let mut second = s.acquire();
    let mut third = s.acquire();
    assert!(is_pending(&first.poll(&mut s, wakers[0].clone())));
    assert!(is_pending(&second.poll(&mut s, wakers[1].clone())));
    assert!(is_pending(&third.poll(&mut s, wakers[2].clone())));

    // two permits would do for the others, but it is not their turn
    s.add_permits(2, &mut wakes);
    assert!(wakes.is_empty());
    assert_eq!(s.available_permits(), 0);
    assert_eq!(s.try_acquire().err(), Some(TryAcquireError::NoPermits));
    assert!(is_pending(&second.poll(&mut s, wakers[1].clone())));

    s.add_permits(2, &mut wakes);
    let woken = wakes.into_vec();
    assert_eq!(woken.len(), 2);
    assert!(woken[0].will_wake(&wakers[0]));
    assert!(woken[1].will_wake(&wakers[1]));
    assert_eq!(granted(first.poll(&mut s, task())).num_permits(), 3);
    assert_eq!(granted(second.poll(&mut s, task())).num_permits(), 1);
    assert!(is_pending(&third.poll(&mut s, task())));
}

#[test]
fn request_for_more_than_there_is_waits() {
    let mut s = semaphore(1);
    let mut request = s.acquire_many(2);
    assert!(is_pending(&request.poll(&mut s, task())));
    assert_eq!(s.available_permits(), 0);
}

#[test]
fn permits_added_after_a_request_was_met_are_free() {
    let mut s = semaphore(0);
    let mut wakes = WakeList::new();
    let mut request = s.acquire();
    assert!(is_pending(&request.poll(&mut s, task())));
    s.add_permits(1, &mut wakes);
    s.add_permits(1, &mut wakes);
    assert_eq!(wakes.len(), 1);
    assert_eq!(s.available_permits(), 1);
    let _permit = granted(request.poll(&mut s, task()));
    assert_eq!(s.available_permits(), 1);
}

#[test]
fn cancelled_request_gives_back_what_it_had() {
    let mut s = semaphore(1);
    let mut wakes = WakeList::new();
    let waker = task();
    let mut first = s.acquire_many(2);
    let mut second = s.acquire();
    assert!(is_pending(&first.poll(&mut s, task())));
    assert!(is_pending(&second.poll(&mut s, waker.clone())));
    first.cancel(&mut s, &mut wakes);
    let woken = wakes.into_vec();
    assert_eq!(woken.len(), 1);
    assert!(woken[0].will_wake(&waker));
    assert!(is_ok(&second.poll(&mut s, task())));
    assert_eq!(s.available_permits(), 0);
}

#[test]
fn cancelled_request_that_was_met_gives_its_permits_back() {
    let mut s = semaphore(0);
    let mut wakes = WakeList::new();
    let mut request = s.acquire_many(2);
    assert!(is_pending(&request.poll(&mut s, task())));
    s.add_permits(2, &mut wakes);
    assert_eq!(s.available_permits(), 0);
    request.cancel(&mut s, &mut wakes);
    assert_eq!(s.available_permits(), 2);
}

#[test]
fn cancelling_in_the_middle_keeps_the_others_in_order() {
    let mut s = inner(0);
    let mut wakes = WakeList::new();
    let wakers = vec![task(), task(), task(), task()];
    let mut requests: Vec<Acquire> = Vec::new();
    for i in 0..4 {
        let mut request = s.acquire(1);
        assert!(is_pending(&request.poll(&mut s, wakers[i].clone())));
        requests.push(request);
    }
    requests.remove(1).cancel(&mut s, &mut wakes);
    assert!(wakes.is_empty());
    s.release(3, &mut wakes);
    let woken = wakes.into_vec();
    assert_eq!(woken.len(), 3);
    assert!(woken[0].will_wake(&wakers[0]));
    assert!(woken[1].will_wake(&wakers[2]));
    assert!(woken[2].will_wake(&wakers[3]));
    for request in requests.iter_mut() {
        assert!(is_ok(&request.poll(&mut s, task())));
    }
}

#[test]
fn the_last_waker_counts() {
    let mut s = semaphore(0);
    let mut wakes = WakeList::new();
    let old = task();
    let new = task();
    let mut request = s.acquire();
    assert!(is_pending(&request.poll(&mut s, old.clone())));
    assert!(is_pending(&request.poll(&mut s, new.clone())));
    s.add_permits(1, &mut wakes);
    let woken = wakes.into_vec();
    assert_eq!(woken.len(), 1);
    assert!(woken[0].will_wake(&new));
    assert!(!woken[0].will_wake(&old));
}

#[test]
fn forgotten_permits_do_not_come_back() {
    let mut s = semaphore(3);
    let mut wakes = WakeList::new();
    let mut permit: SemaphorePermit = s.try_acquire_many(2).unwrap();
    permit.forget();
    permit.drop(&mut s, &mut wakes);
    assert_eq!(s.available_permits(), 1);
    let mut owned = s.try_acquire_owned().unwrap();
    owned.forget();
    owned.drop(&mut s, &mut wakes);
    assert_eq!(s.available_permits(), 0);
}

#[test]
fn closed_semaphore_still_counts_permits() {
    let mut s = semaphore(1);
    let mut wakes = WakeList::new();
    s.close(&mut wakes);
    s.add_permits(2, &mut wakes);
    assert_eq!(s.available_permits(), 3);
    assert!(s.is_closed());
    assert!(is_err(&s.acquire().poll(&mut s, task())));
    assert_eq!(s.try_acquire_many(1).err(), Some(TryAcquireError::Closed));
}

#[test]
fn nothing_asked_for_is_given_at_once() {
    let mut s = semaphore(0);
    let permit = granted(s.acquire_many(0).poll(&mut s, task()));
    assert_eq!(permit.num_permits(), 0);
    assert!(s.try_acquire_many(0).is_ok());
}

#[test]
fn bits_above_the_bound_do_not_count() {
    assert_eq!(MAX_PERMITS, usize::MAX >> 3);
    assert_eq!(semaphore(MAX_PERMITS).available_permits(), MAX_PERMITS);
    assert_eq!(semaphore(MAX_PERMITS + 1).available_permits(), 0);
    assert_eq!(semaphore(MAX_PERMITS + 8).available_permits(), 7);
    assert_eq!(semaphore(usize::MAX).available_permits(), MAX_PERMITS);
}

#[test]
fn whether_permits_can_be_added_depends_on_who_waits() {
    let mut s = semaphore(MAX_PERMITS);
    assert!(s.can_add(0));
    assert!(!s.can_add(1));
    let _permit = s.try_acquire_many(2).unwrap();
    assert!(s.can_add(2));
    assert!(!s.can_add(3));

    let mut s = semaphore(0);
    let mut request = s.acquire_many(4);
    assert!(is_pending(&request.poll(&mut s, task())));
    assert!(s.can_add(MAX_PERMITS + 4));
    assert!(!s.can_add(MAX_PERMITS + 5));
}

#[test]
fn whether_a_request_can_be_cancelled_depends_on_what_is_free() {
    let mut s = semaphore(0);
    let mut wakes = WakeList::new();
    let mut request = s.acquire();
    let mut owned = s.acquire_owned();
    assert!(request.can_cancel(&s));
    assert!(is_pending(&request.poll(&mut s, task())));
    assert!(is_pending(&owned.poll(&mut s, task())));
    s.add_permits(2, &mut wakes);
    assert!(request.can_cancel(&s));
    assert!(owned.can_cancel(&s));
    s.add_permits(MAX_PERMITS, &mut wakes);
    assert!(!request.can_cancel(&s));
    assert!(!owned.can_cancel(&s));
    let mut permit = s.try_acquire().unwrap();
    permit.forget();
    assert!(request.can_cancel(&s));
    request.cancel(&mut s, &mut wakes);
    assert_eq!(s.available_permits(), MAX_PERMITS);
    assert!(!owned.can_cancel(&s));
    assert!(is_ok(&owned.poll(&mut s, task())));
    assert!(owned.can_cancel(&s));
}

#[test]
fn slots_of_requests_that_are_over_are_used_again() {
    let mut s = inner(0);
    let mut wakes = WakeList::new();
    for _ in 0..100 {
        let mut a = s.acquire(1);
        let mut b = s.acquire(1);
        assert!(is_pending(&a.poll(&mut s, task())));
        assert!(is_pending(&b.poll(&mut s, task())));
        s.release(1, &mut wakes);
        assert!(is_ok(&a.poll(&mut s, task())));
        b.cancel(&mut s, &mut wakes);
        assert_eq!(s.available_permits(), 0);
    }
    assert_eq!(wakes.len(), 100);
}

#[test]
fn semaphore_errors_in_words() {
    assert_eq!(TryAcquireError::Closed.to_string(), "semaphore closed");
    assert_eq!(TryAcquireError::NoPermits.to_string(), "no permits available");
    assert!(TryAcquireError::Closed.is_closed());
    assert!(!TryAcquireError::Closed.is_no_permits());
    assert!(TryAcquireError::NoPermits.is_no_permits());
    assert!(!TryAcquireError::NoPermits.is_closed());
    let mut s = semaphore(0);
    let mut wakes = WakeList::new();
    s.close(&mut wakes);
    match s.acquire().poll(&mut s, task()) {
        Poll::Ready(Err(e)) => assert_eq!(e.to_string(), "semaphore closed"),
        _ => panic!("not closed"),
    }
}

#[test]
fn semaphores_are_told_apart() {
    let mut ids = Identities::new();
    let a = Inner::new(ids.fresh(), 1);
    let b = Semaphore::new(&mut ids, 1);
    let c = Inner::new(ids.fresh(), 1);
    assert!(a.identity().same(&a.identity()));
    assert!(!a.identity().same(&c.identity()));
    assert_eq!(b.available_permits(), 1);
    let mut acquire = Acquire::new(a.identity(), 1);
    let mut a = a;
    assert!(is_ok(&acquire.poll(&mut a, task())));
}
