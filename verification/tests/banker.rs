use concurrency::banker::Banker;

#[test]
fn philosophers_cannot_deadlock() {
    // Two philosophers, two forks; each may hold both forks.
    let mut b = Banker::<2, 2>::new([1, 1], [[1, 1], [1, 1]]);
    assert!(b.is_safe());
    assert!(b.take(0, 0));
    // Handing fork 1 to philosopher 1 would leave each holding one fork: refused.
    assert!(!b.take(1, 1));
    assert!(b.take(0, 1));
    assert!(!b.take(1, 0));
    b.release(0, 0);
    b.release(0, 1);
    assert!(b.take(1, 1));
    assert!(b.take(1, 0));
    assert!(b.is_safe());
}

#[test]
fn take_refuses_unknown_thread_or_resource() {
    let mut b = Banker::<2, 2>::new([1, 1], [[1, 1], [1, 1]]);
    assert!(!b.take(2, 0));
    assert!(!b.take(0, 2));
    assert!(b.take(0, 0));
    // Nothing left of resource 0.
    assert!(!b.take(1, 0));
}

#[test]
fn release_of_nothing_changes_nothing() {
    let mut b = Banker::<2, 2>::new([1, 1], [[1, 1], [1, 1]]);
    b.release(0, 0);
    b.release(5, 0);
    assert!(b.take(0, 0));
    assert!(b.take(0, 1));
}

#[test]
fn unsafe_start_is_detected() {
    // Thread 0 may need 3 units but only 2 exist.
    let b = Banker::<1, 1>::new([2], [[3]]);
    assert!(!b.is_safe());
    let b2 = Banker::<1, 2>::new([3], [[3], [2]]);
    assert!(b2.is_safe());
}

#[test]
fn within_claim_reports_the_claim() {
    let mut b = Banker::<1, 1>::new([5], [[1]]);
    assert!(b.within_claim(0, 0));
    assert!(b.take(0, 0));
    // A second unit would take thread 0 beyond its claim of one.
    assert!(!b.within_claim(0, 0));
    // Requests `take` refuses anyway are not held to a claim.
    assert!(b.within_claim(3, 0));
}

#[test]
fn three_threads_order_found_in_later_pass() {
    // Thread 2 can finish first, then thread 1, then thread 0.
    let mut b = Banker::<1, 3>::new([4], [[4], [3], [1]]);
    assert!(b.take(1, 0));
    assert!(b.take(1, 0));
    assert!(b.take(0, 0));
    // available 1: thread 2 needs 1, then 3 free; thread 1 needs 1; then 5 free for thread 0 needs 3.
    assert!(b.is_safe());
    assert!(b.take(2, 0));
    assert!(b.is_safe());
}

#[test]
fn take_then_release_restores() {
    let mut b = Banker::<2, 2>::new([2, 1], [[2, 1], [1, 1]]);
    assert!(b.take(0, 0));
    b.release(0, 0);
    // Same as a fresh banker: the whole claim of thread 0 can be granted.
    assert!(b.take(0, 0));
    assert!(b.take(0, 0));
    assert!(b.take(0, 1));
}

#[test]
fn numbering_of_threads_does_not_change_verdict() {
    let a = Banker::<1, 3>::new([2], [[3], [2], [1]]);
    let b = Banker::<1, 3>::new([2], [[1], [3], [2]]);
    assert_eq!(a.is_safe(), b.is_safe());
    let c = Banker::<1, 3>::new([1], [[3], [2], [2]]);
    let d = Banker::<1, 3>::new([1], [[2], [2], [3]]);
    assert_eq!(c.is_safe(), d.is_safe());
    assert!(!c.is_safe());
}
