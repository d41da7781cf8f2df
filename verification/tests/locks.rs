use concurrency::bakery::{may_pass, ticket_max, BakeryLock, Phase};
use concurrency::semaphore::Semaphore;
use concurrency::ticketlock::{TicketPhase, Ticketlock};

fn critical_count(l: &BakeryLock) -> usize {
    (0..l.len()).filter(|&p| l.phase(p) == Phase::Critical).count()
}

#[test]
fn bakery_round_robin_serves_everyone_one_at_a_time() {
    let n = 3;
    let mut l = BakeryLock::new(n);
    let mut entered = vec![0usize; n];
    for round in 0..3000 {
        let p = round % n;
        let was = l.phase(p);
        l.step(p);
        assert!(critical_count(&l) <= 1);
        if was != Phase::Critical && l.phase(p) == Phase::Critical {
            entered[p] += 1;
        }
    }
    assert!(entered.iter().all(|&e| e > 0));
}

#[test]
fn bakery_irregular_schedule_keeps_mutual_exclusion() {
    let n = 4;
    let mut l = BakeryLock::new(n);
    let mut seed: u64 = 12345;
    for _ in 0..20000 {
        seed = seed.wrapping_mul(6364136223846793005).wrapping_add(1442695040888963407);
        let p = ((seed >> 33) % n as u64) as usize;
        assert!(!l.would_overflow(p));
        l.step(p);
        assert!(critical_count(&l) <= 1);
    }
}

#[test]
fn bakery_first_steps() {
    let mut l = BakeryLock::new(2);
    assert_eq!(l.phase(0), Phase::Idle);
    l.step(0);
    assert_eq!(l.phase(0), Phase::Choosing { next: 0, max: 0 });
    l.step(0);
    l.step(0);
    l.step(0);
    assert_eq!(l.phase(0), Phase::Chosen);
    l.step(0);
    assert_eq!(l.phase(0), Phase::Waiting { other: 0 });
    l.step(0);
    assert_eq!(l.phase(0), Phase::Waiting { other: 1 });
    l.step(0);
    assert_eq!(l.phase(0), Phase::WaitTicket { other: 1 });
    l.step(0);
    assert_eq!(l.phase(0), Phase::Waiting { other: 2 });
    l.step(0);
    assert_eq!(l.phase(0), Phase::Critical);
    l.step(0);
    assert_eq!(l.phase(0), Phase::Idle);
}

#[test]
fn bakery_decisions() {
    assert_eq!(ticket_max(3, Some(7)), 7);
    assert_eq!(ticket_max(9, Some(7)), 9);
    assert_eq!(ticket_max(9, None), 9);
    assert!(may_pass(5, 1, None, 0));
    assert!(may_pass(5, 1, Some(6), 0));
    assert!(!may_pass(5, 1, Some(5), 0));
    assert!(may_pass(5, 0, Some(5), 1));
    assert!(!may_pass(6, 0, Some(5), 1));
}

#[test]
fn ticketlock_serves_in_ticket_order() {
    let mut l = Ticketlock::new(0u64, 3);
    assert_eq!(l.lock(2), 0);
    assert_eq!(l.lock(0), 1);
    assert_eq!(l.lock(1), 2);
    // Thread 0 and 1 took later tickets: they cannot enter.
    assert!(l.try_enter(0).is_none());
    assert!(l.try_enter(1).is_none());
    let g = l.try_enter(2).expect("first ticket is served");
    let v = *l.get(&g);
    l.set(&g, v + 1);
    l.unlock(g);
    assert!(l.try_enter(1).is_none());
    let g = l.try_enter(0).expect("second ticket is served next");
    assert_eq!(*l.get(&g), 1);
    l.unlock(g);
    let g = l.try_enter(1).expect("third ticket last");
    l.unlock(g);
    assert_eq!(l.phase(1), TicketPhase::Idle);
}

#[test]
fn ticketlock_counts_like_a_mutex() {
    let n = 4;
    let mut l = Ticketlock::new(0u64, n);
    let mut seed: u64 = 7;
    let mut guards: Vec<Option<concurrency::ticketlock::TicketlockGuard>> = (0..n).map(|_| None).collect();
    let mut done = 0;
    while done < 400 {
        seed = seed.wrapping_mul(6364136223846793005).wrapping_add(1442695040888963407);
        let p = ((seed >> 33) % n as u64) as usize;
        match l.phase(p) {
            TicketPhase::Idle => {
                l.lock(p);
            }
            TicketPhase::Waiting { .. } => {
                guards[p] = l.try_enter(p);
            }
            TicketPhase::Holding { .. } => {
                let g = guards[p].take().unwrap();
                let v = *l.get(&g);
                l.set(&g, v + 1);
                l.unlock(g);
                done += 1;
            }
        }
        let holders = (0..n).filter(|&q| matches!(l.phase(q), TicketPhase::Holding { .. })).count();
        assert!(holders <= 1);
    }
    assert_eq!(done, 400);
}

#[test]
fn semaphore_admits_at_most_max() {
    let mut s = Semaphore::new(2);
    assert!(s.has_valid_max());
    assert!(!s.is_held());
    assert!(s.wait());
    assert!(s.wait());
    assert!(!s.wait());
    assert!(s.is_held());
    assert!(s.post());
    assert!(s.wait());
    assert!(s.post());
    assert!(s.post());
    assert!(!s.is_held());
}

#[test]
fn semaphore_with_zero_admits_none() {
    let mut s = Semaphore::new(0);
    assert!(!s.wait());
    let n = Semaphore::new(-1);
    assert!(!n.has_valid_max());
}

#[test]
fn bakery_lock_alone_draws_one_more_than_own_stale_ticket() {
    let mut l = BakeryLock::new(3);
    l.lock(1);
    assert_eq!(l.phase(1), Phase::Critical);
    // Leave without clearing the ticket, as a leaked guard would.
    l.leak(1);
    assert_eq!(l.phase(1), Phase::Idle);
    l.lock(1);
    assert_eq!(l.phase(1), Phase::Critical);
    l.step(1);
    assert_eq!(l.phase(1), Phase::Idle);
    l.lock(0);
    assert_eq!(l.phase(0), Phase::Critical);
}

#[test]
fn bakery_later_thread_waits_for_earlier_ticket() {
    let mut l = BakeryLock::new(2);
    // Thread 1 gets its ticket first and stops before entering.
    for _ in 0..5 {
        l.step(1);
    }
    assert!(matches!(l.phase(1), Phase::Waiting { .. }));
    // Thread 0 comes later: whatever it does, it cannot enter.
    for _ in 0..50 {
        l.step(0);
        assert_ne!(l.phase(0), Phase::Critical);
    }
    // Once thread 1 has been through the lock, thread 0 gets in.
    while l.phase(1) != Phase::Critical {
        l.step(1);
    }
    l.step(1);
    for _ in 0..10 {
        if l.phase(0) != Phase::Critical {
            l.step(0);
        }
    }
    assert_eq!(l.phase(0), Phase::Critical);
}

#[test]
fn ticketlock_waiter_enters_after_as_many_unlocks_as_tickets_ahead() {
    let mut l = Ticketlock::new((), 4);
    let g0 = {
        l.lock(0);
        l.try_enter(0).unwrap()
    };
    l.lock(1);
    l.lock(2);
    l.lock(3);
    // Thread 3 has three tickets ahead of it.
    assert!(l.try_enter(3).is_none());
    l.unlock(g0);
    assert!(l.try_enter(3).is_none());
    let g1 = l.try_enter(1).unwrap();
    l.unlock(g1);
    assert!(l.try_enter(3).is_none());
    let g2 = l.try_enter(2).unwrap();
    l.unlock(g2);
    assert!(l.try_enter(3).is_some());
}
