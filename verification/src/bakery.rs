use vstd::prelude::*;

verus! {

/// The larger of the ticket seen so far and the ticket `t` a thread holds, if any.
pub fn ticket_max(m: u64, t: Option<u64>) -> (r: u64)
    ensures
        r == match t {
            Some(x) => if x > m {
                x
            } else {
                m
            },
            None => m,
        },
{
    match t {
        Some(x) => if x > m {
            x
        } else {
            m
        },
        None => m,
    }
}

/// Whether a thread holding `ticket` at index `idx` may go past thread `i`, which
/// holds `other`: when `i` holds no ticket, or when `(ticket, idx)` comes first.
pub fn may_pass(ticket: u64, idx: usize, other: Option<u64>, i: usize) -> (r: bool)
    ensures
        r == match other {
            Some(t) => ticket < t || (ticket == t && idx < i),
            None => true,
        },
{
    match other {
        Some(t) => ticket < t || (ticket == t && idx < i),
        None => true,
    }
}

/// Where a thread stands in the bakery protocol.
#[derive(Clone, Copy, PartialEq, Eq, Structural, Debug)]
pub enum Phase {
    /// Not asking for the lock.
    Idle,
    /// Choosing a ticket: the tickets of the threads below `next` have been read,
    /// and `max` is the largest of them.
    Choosing { next: usize, max: u64 },
    /// The ticket is written; the thread still announces that it is choosing.
    Chosen,
    /// Waiting for thread `other` to finish choosing.
    Waiting { other: usize },
    /// Waiting until its ticket comes before that of thread `other`.
    WaitTicket { other: usize },
    /// Holding the lock.
    Critical,
}

/// The shared variables of the bakery lock and the phase of every thread.
pub ghost struct BakeryView {
    pub entering: Seq<bool>,
    pub tickets: Seq<Option<u64>>,
    pub phases: Seq<Phase>,
}

/// A phase in which the thread has written its ticket.
pub open spec fn has_ticket(ph: Phase) -> bool {
    ph is Chosen || ph is Waiting || ph is WaitTicket || ph is Critical
}

impl BakeryView {
    pub open spec fn n(self) -> nat {
        self.phases.len()
    }

    pub open spec fn ticket(self, p: int) -> int {
        match self.tickets[p] {
            Some(t) => t as int,
            None => 0,
        }
    }

    /// `p` comes before `q` in the order of tickets, ties broken by index.
    pub open spec fn before(self, p: int, q: int) -> bool {
        self.ticket(p) < self.ticket(q) || (self.ticket(p) == self.ticket(q) && p < q)
    }

    /// `p` has seen that `q` was not choosing a ticket.
    pub open spec fn passed_entry(self, p: int, q: int) -> bool {
        match self.phases[p] {
            Phase::WaitTicket { other } => other >= q,
            Phase::Waiting { other } => other > q,
            Phase::Critical => true,
            _ => false,
        }
    }

    /// `p` has gone past `q` altogether.
    pub open spec fn passed(self, p: int, q: int) -> bool {
        match self.phases[p] {
            Phase::WaitTicket { other } => other > q,
            Phase::Waiting { other } => other > q,
            Phase::Critical => true,
            _ => false,
        }
    }

    pub open spec fn local_ok(self, p: int) -> bool {
        let ph = self.phases[p];
        &&& self.entering[p] == (ph is Choosing || ph is Chosen)
        &&& has_ticket(ph) ==> self.tickets[p] is Some
        &&& match ph {
            Phase::Choosing { next, max } => next <= self.n(),
            Phase::Waiting { other } => other <= self.n(),
            Phase::WaitTicket { other } => other < self.n() && other != p,
            _ => true,
        }
    }

    /// Once `p` has seen `q` outside the doorway, `q` either holds no ticket, or
    /// will choose one after `p`'s, or holds one; and once `p` has gone past `q`
    /// for good, `p`'s ticket comes first.
    pub open spec fn pair_ok(self, p: int, q: int) -> bool {
        self.passed_entry(p, q) ==> {
            ||| self.phases[q] is Idle
            ||| (self.phases[q] is Choosing && (self.phases[q]->next > p ==> self.phases[q]->max
                >= self.ticket(p)))
            ||| (has_ticket(self.phases[q]) && (self.passed(p, q) ==> self.before(p, q)))
        }
    }

    pub open spec fn inv(self) -> bool {
        &&& self.n() <= usize::MAX
        &&& self.entering.len() == self.n()
        &&& self.tickets.len() == self.n()
        &&& forall|p: int| 0 <= p < self.n() ==> #[trigger] self.local_ok(p)
        &&& forall|p: int, q: int|
            0 <= p < self.n() && 0 <= q < self.n() && p != q ==> #[trigger] self.pair_ok(p, q)
    }

    /// The state of `n` threads none of which asks for the lock.
    pub open spec fn init(n: nat) -> BakeryView {
        BakeryView {
            entering: Seq::new(n, |i: int| false),
            tickets: Seq::new(n, |i: int| None),
            phases: Seq::new(n, |i: int| Phase::Idle),
        }
    }

    /// Thread `p` would overflow its ticket with its next step.
    pub open spec fn overflows(self, p: int) -> bool {
        match self.phases[p] {
            Phase::Choosing { next, max } => next == self.n() && max == u64::MAX,
            _ => false,
        }
    }

    /// One atomic step of thread `p`: a single read or write of a shared variable.
    pub open spec fn step(self, p: int) -> BakeryView {
        match self.phases[p] {
            Phase::Idle => BakeryView {
                entering: self.entering.update(p, true),
                phases: self.phases.update(p, Phase::Choosing { next: 0, max: 0 }),
                ..self
            },
            Phase::Choosing { next, max } => if next < self.n() {
                let m = match self.tickets[next as int] {
                    Some(x) => if x > max {
                        x
                    } else {
                        max
                    },
                    None => max,
                };
                BakeryView {
                    phases: self.phases.update(p, Phase::Choosing { next: (next + 1) as usize, max: m }),
                    ..self
                }
            } else {
                BakeryView {
                    tickets: self.tickets.update(p, Some((max + 1) as u64)),
                    phases: self.phases.update(p, Phase::Chosen),
                    ..self
                }
            },
            Phase::Chosen => BakeryView {
                entering: self.entering.update(p, false),
                phases: self.phases.update(p, Phase::Waiting { other: 0 }),
                ..self
            },
            Phase::Waiting { other } => if other == self.n() {
                BakeryView { phases: self.phases.update(p, Phase::Critical), ..self }
            } else if other == p {
                BakeryView {
                    phases: self.phases.update(p, Phase::Waiting { other: (other + 1) as usize }),
                    ..self
                }
            } else if self.entering[other as int] {
                self
            } else {
                BakeryView { phases: self.phases.update(p, Phase::WaitTicket { other }), ..self }
            },
            Phase::WaitTicket { other } => {
                let mine = self.ticket(p);
                let pass = match self.tickets[other as int] {
                    Some(t) => mine < t || (mine == t && p < other),
                    None => true,
                };
                if pass {
                    BakeryView {
                        phases: self.phases.update(p, Phase::Waiting { other: (other + 1) as usize }),
                        ..self
                    }
                } else {
                    self
                }
            },
            Phase::Critical => BakeryView {
                tickets: self.tickets.update(p, None),
                phases: self.phases.update(p, Phase::Idle),
                ..self
            },
        }
    }

    /// Thread `p` leaves the lock without clearing its ticket, as when its guard is
    /// leaked instead of dropped: the stale ticket stays visible to the others.
    pub open spec fn leak(self, p: int) -> BakeryView {
        BakeryView { phases: self.phases.update(p, Phase::Idle), ..self }
    }

    /// No thread outside the lock has left a ticket behind.
    pub open spec fn no_stale_tickets(self) -> bool {
        forall|p: int| 0 <= p < self.n() && (#[trigger] self.phases[p]) is Idle ==> self.tickets[p] is None
    }
}

impl BakeryView {
    /// Mutual exclusion: in every state the protocol reaches, at most one thread
    /// holds the lock.
    pub proof fn lemma_mutual_exclusion(self, p: int, q: int)
        requires
            self.inv(),
            0 <= p < self.n(),
            0 <= q < self.n(),
            self.phases[p] is Critical,
            self.phases[q] is Critical,
        ensures
            p == q,
    {
        if p != q {
            assert(self.pair_ok(p, q));
            assert(self.pair_ok(q, p));
        }
    }

    /// The protocol starts in a state that meets its invariant.
    pub proof fn lemma_init(n: nat)
        requires
            n <= usize::MAX,
        ensures
            Self::init(n).inv(),
            Self::init(n).n() == n,
    {
        let v = Self::init(n);
        assert forall|p: int| 0 <= p < v.n() implies #[trigger] v.local_ok(p) by {}
        assert forall|p: int, q: int|
            0 <= p < v.n() && 0 <= q < v.n() && p != q implies #[trigger] v.pair_ok(p, q) by {}
    }

    /// No thread starts with a ticket left behind, and steps never leave one: only
    /// a leaked guard does.
    pub proof fn lemma_no_stale_tickets(self, p: int, n: nat)
        requires
            self.inv(),
            self.no_stale_tickets(),
            0 <= p < self.n(),
        ensures
            Self::init(n).no_stale_tickets(),
            self.step(p).no_stale_tickets(),
    {
        assert(self.local_ok(p));
    }

    /// Every step keeps the invariant.
    pub proof fn lemma_step(self, p: int)
        requires
            self.inv(),
            0 <= p < self.n(),
            !self.overflows(p),
        ensures
            self.step(p).inv(),
            self.step(p).n() == self.n(),
    {
        let w = self.step(p);
        assert forall|a: int| 0 <= a < w.n() implies #[trigger] w.local_ok(a) by {
            assert(self.local_ok(a));
            assert(self.local_ok(p));
        }
        assert forall|a: int, b: int|
            0 <= a < w.n() && 0 <= b < w.n() && a != b implies #[trigger] w.pair_ok(a, b) by {
            self.lemma_step_pair(p, a, b);
        }
    }

    proof fn lemma_step_pair(self, p: int, a: int, b: int)
        requires
            self.inv(),
            0 <= p < self.n(),
            !self.overflows(p),
            0 <= a < self.n(),
            0 <= b < self.n(),
            a != b,
        ensures
            self.step(p).pair_ok(a, b),
    {
        let w = self.step(p);
        assert(self.pair_ok(a, b));
        assert(self.local_ok(a));
        assert(self.local_ok(b));
        assert(self.local_ok(p));
        if p != a && p != b {
        } else if p == a {
            match self.phases[p] {
                Phase::Waiting { other } => {
                    if other < self.n() && other != p && !self.entering[other as int] {
                        assert(self.local_ok(other as int));
                    }
                },
                _ => {},
            }
        } else {
            match self.phases[p] {
                Phase::Choosing { next, max } => {
                    if next < self.n() && next == a && self.passed_entry(a, b) {
                        assert(self.tickets[a] is Some);
                    }
                },
                _ => {},
            }
        }
    }
}

impl BakeryView {
    /// Thread `p` asks for or holds the lock.
    pub open spec fn wants(self, p: int) -> bool {
        !(self.phases[p] is Idle)
    }

    /// No thread that asks for the lock can take a step that changes anything.
    pub open spec fn all_stuck(self) -> bool {
        forall|p: int| 0 <= p < self.n() && #[trigger] self.wants(p) ==> self.step(p) == self
    }

    /// A thread that cannot move is waiting on the ticket of a thread that comes
    /// before it.
    proof fn lemma_stuck_waits(self, p: int)
        requires
            self.inv(),
            0 <= p < self.n(),
            self.wants(p),
            self.all_stuck(),
            self.no_stale_tickets(),
        ensures
            self.phases[p] is WaitTicket,
            self.wants(self.phases[p]->WaitTicket_other as int),
            self.before(self.phases[p]->WaitTicket_other as int, p),
            0 <= self.phases[p]->WaitTicket_other < self.n(),
            self.phases[p]->WaitTicket_other != p,
    {
        assert(self.local_ok(p));
        assert(self.step(p) == self);
        assert(self.step(p).phases[p] == self.phases[p]);
        match self.phases[p] {
            Phase::Waiting { other } => {
                assert(self.local_ok(other as int));
                assert(self.wants(other as int));
                assert(self.step(other as int) == self);
                assert(self.step(other as int).phases[other as int] == self.phases[other as int]);
            },
            Phase::WaitTicket { other } => {
                assert(self.local_ok(other as int));
                assert(self.phases[other as int] is Idle ==> self.tickets[other as int] is None);
            },
            _ => {},
        }
    }

    /// Following from `q` the threads each stuck thread waits on goes down the
    /// order of tickets, which cannot go on for ever: some thread is not stuck.
    proof fn lemma_chase(self, q: int)
        requires
            self.inv(),
            self.no_stale_tickets(),
            0 <= q < self.n(),
            self.wants(q),
        ensures
            !self.all_stuck(),
        decreases self.ticket(q) * self.n() + q,
    {
        if self.all_stuck() {
            assert(self.step(q) == self);
            self.lemma_stuck_waits(q);
            let o = self.phases[q]->WaitTicket_other as int;
            let n = self.n() as int;
            let to = self.ticket(o);
            let tq = self.ticket(q);
            assert(0 <= to && 0 <= tq);
            assert(to * n + o < tq * n + q) by (nonlinear_arith)
                requires
                    0 <= o < n,
                    0 <= q < n,
                    0 <= to,
                    to < tq || (to == tq && o < q),
            {
                if to < tq {
                    assert(to * n + n <= tq * n);
                }
            }
            self.lemma_chase(o);
        }
    }

    /// Deadlock freedom: while some thread asks for the lock and no thread has left
    /// a ticket behind, one of the threads that ask can take a step that changes the
    /// state. (A ticket left behind by a leaked guard holds back every later ticket
    /// until its thread locks again.)
    pub proof fn lemma_no_deadlock(self, q: int)
        requires
            self.inv(),
            self.no_stale_tickets(),
            0 <= q < self.n(),
            self.wants(q),
        ensures
            exists|p: int| 0 <= p < self.n() && #[trigger] self.wants(p) && self.step(p) != self,
    {
        self.lemma_chase(q);
    }
}

/// The largest ticket among the first `k` slots, or `0` when there is none: the
/// ticket a thread choosing alone reads.
pub open spec fn max_ticket(tickets: Seq<Option<u64>>, k: nat) -> u64
    decreases k,
{
    if k == 0 {
        0
    } else {
        let m = max_ticket(tickets, (k - 1) as nat);
        match tickets[k - 1] {
            Some(x) => if x > m {
                x
            } else {
                m
            },
            None => m,
        }
    }
}

proof fn lemma_max_ticket_ge(tickets: Seq<Option<u64>>, k: nat, o: int)
    requires
        0 <= o < k <= tickets.len(),
    ensures
        tickets[o] matches Some(x) ==> x <= max_ticket(tickets, k),
    decreases k,
{
    if o < k - 1 {
        lemma_max_ticket_ge(tickets, (k - 1) as nat, o);
    }
}

/// The ticket slot `t` holds, or `0` when it holds none.
pub open spec fn ticket_or_zero(t: Option<u64>) -> u64 {
    match t {
        Some(x) => x,
        None => 0,
    }
}

proof fn lemma_max_ticket_single(tickets: Seq<Option<u64>>, k: nat, p: int)
    requires
        k <= tickets.len(),
        forall|q: int| 0 <= q < tickets.len() && q != p ==> (#[trigger] tickets[q]) is None,
    ensures
        max_ticket(tickets, k) == if 0 <= p < k {
            ticket_or_zero(tickets[p])
        } else {
            0
        },
    decreases k,
{
    if k > 0 {
        lemma_max_ticket_single(tickets, (k - 1) as nat, p);
    }
}

/// How far a thread running alone has got through the protocol.
pub open spec fn stage(ph: Phase, n: int) -> int {
    match ph {
        Phase::Idle => 0,
        Phase::Choosing { next, max } => 1 + next,
        Phase::Chosen => n + 2,
        Phase::Waiting { other } => n + 3 + 2 * other,
        Phase::WaitTicket { other } => n + 4 + 2 * other,
        Phase::Critical => 3 * n + 6,
    }
}

impl BakeryView {
    /// Every thread other than `p` is outside the lock.
    pub open spec fn others_idle(self, p: int) -> bool {
        forall|q: int| 0 <= q < self.n() && q != p ==> (#[trigger] self.phases[q]) is Idle
    }

    /// `p` comes after `q`, which holds ticket `t`: `p` either has not yet chosen
    /// a ticket, or will choose or holds a larger one, and has not gone past `q`.
    pub open spec fn behind(self, p: int, q: int, t: u64) -> bool {
        &&& self.tickets[q] == Some(t)
        &&& match self.phases[p] {
            Phase::Idle => true,
            Phase::Choosing { next, max } => next > q ==> max >= t,
            Phase::Chosen => self.ticket(p) > t,
            Phase::Waiting { other } => self.ticket(p) > t && other <= q,
            Phase::WaitTicket { other } => self.ticket(p) > t && other <= q,
            Phase::Critical => false,
        }
    }

    /// A thread that starts asking while another holds a ticket is behind it.
    pub proof fn lemma_behind_start(self, p: int, q: int, t: u64)
        requires
            self.phases[p] is Idle,
            self.tickets[q] == Some(t),
        ensures
            self.behind(p, q, t),
    {
    }

    /// First come, first served: a thread that comes after the holder of ticket
    /// `t` stays after it, whatever thread steps, for as long as that ticket stays
    /// set. It therefore chooses a larger ticket and does not enter the lock before
    /// the holder of `t` has left it.
    pub proof fn lemma_first_come_first_served(self, p: int, q: int, t: u64, r: int)
        requires
            self.inv(),
            0 <= p < self.n(),
            0 <= q < self.n(),
            0 <= r < self.n(),
            p != q,
            self.behind(p, q, t),
            !self.overflows(r),
            self.step(r).tickets[q] == Some(t),
        ensures
            self.step(r).behind(p, q, t),
            !(self.step(r).phases[p] is Critical),
            has_ticket(self.step(r).phases[p]) ==> self.step(r).ticket(p) > t,
    {
        assert(self.local_ok(p));
        assert(self.local_ok(r));
    }

    /// Leaking a guard keeps the invariant, and keeps every thread behind the
    /// tickets it was behind.
    pub proof fn lemma_leak(self, p: int)
        requires
            self.inv(),
            0 <= p < self.n(),
            self.phases[p] is Critical,
        ensures
            self.leak(p).inv(),
            forall|a: int, q: int, t: u64|
                0 <= a < self.n() && #[trigger] self.behind(a, q, t) ==> self.leak(p).behind(a, q, t),
    {
        let w = self.leak(p);
        assert forall|a: int| 0 <= a < w.n() implies #[trigger] w.local_ok(a) by {
            assert(self.local_ok(a));
        }
        assert forall|a: int, b: int|
            0 <= a < w.n() && 0 <= b < w.n() && a != b implies #[trigger] w.pair_ok(a, b) by {
            assert(self.pair_ok(a, b));
        }
    }
}

/// The bakery lock run step by step: the shared `entering` flags and tickets, and
/// where each thread stands. Each call of `step` performs one read or write of a
/// shared variable by one thread, as the threads of a real lock interleave.
pub struct BakeryLock {
    entering: Vec<bool>,
    tickets: Vec<Option<u64>>,
    phases: Vec<Phase>,
}

impl View for BakeryLock {
    type V = BakeryView;

    closed spec fn view(&self) -> BakeryView {
        BakeryView { entering: self.entering@, tickets: self.tickets@, phases: self.phases@ }
    }
}

impl BakeryLock {
    /// A lock shared by `n` threads, none of which asks for it yet.
    pub fn new(n: usize) -> (r: Self)
        ensures
            r@ == BakeryView::init(n as nat),
            r@.inv(),
    {
        let mut entering: Vec<bool> = Vec::new();
        let mut tickets: Vec<Option<u64>> = Vec::new();
        let mut phases: Vec<Phase> = Vec::new();
        let mut i: usize = 0;
        while i < n
            invariant
                i <= n,
                entering@ == Seq::new(i as nat, |k: int| false),
                tickets@ == Seq::new(i as nat, |k: int| None::<u64>),
                phases@ == Seq::new(i as nat, |k: int| Phase::Idle),
            decreases n - i,
        {
            entering.push(false);
            tickets.push(None);
            phases.push(Phase::Idle);
            i += 1;
        }
        let r = BakeryLock { entering, tickets, phases };
        proof {
            BakeryView::lemma_init(n as nat);
            assert(r@ =~= BakeryView::init(n as nat));
        }
        r
    }

    /// The number of threads.
    pub fn len(&self) -> (r: usize)
        requires
            self@.inv(),
        ensures
            r == self@.n(),
    {
        self.phases.len()
    }

    /// Where thread `p` stands.
    pub fn phase(&self, p: usize) -> (r: Phase)
        requires
            self@.inv(),
            p < self@.n(),
        ensures
            r == self@.phases[p as int],
    {
        self.phases[p]
    }

    /// Whether the next step of thread `p` would take a ticket past the largest `u64`.
    pub fn would_overflow(&self, p: usize) -> (r: bool)
        requires
            self@.inv(),
            p < self@.n(),
        ensures
            r == self@.overflows(p as int),
    {
        match self.phases[p] {
            Phase::Choosing { next, max } => next == self.phases.len() && max == u64::MAX,
            _ => false,
        }
    }

    /// Thread `p` leaves the lock without clearing its ticket, as when its guard
    /// is leaked instead of dropped.
    pub fn leak(&mut self, p: usize)
        requires
            old(self)@.inv(),
            p < old(self)@.n(),
            old(self)@.phases[p as int] is Critical,
        ensures
            final(self)@ == old(self)@.leak(p as int),
            final(self)@.inv(),
    {
        proof {
            old(self)@.lemma_leak(p as int);
        }
        self.phases.set(p, Phase::Idle);
        proof {
            assert(self@ =~= old(self)@.leak(p as int));
        }
    }

    /// Thread `p` takes the lock while no other thread runs and no other thread has
    /// left a ticket behind: it draws one more than the ticket it left behind itself,
    /// if any, and passes every other thread.
    pub fn lock(&mut self, p: usize)
        requires
            old(self)@.inv(),
            p < old(self)@.n(),
            old(self)@.phases[p as int] is Idle,
            old(self)@.others_idle(p as int),
            forall|q: int| 0 <= q < old(self)@.n() && q != p ==> (#[trigger] old(self)@.tickets[q]) is None,
            old(self)@.tickets[p as int] != Some(u64::MAX),
        ensures
            final(self)@.inv(),
            final(self)@.phases == old(self)@.phases.update(p as int, Phase::Critical),
            final(self)@.tickets == old(self)@.tickets.update(
                p as int,
                Some((ticket_or_zero(old(self)@.tickets[p as int]) + 1) as u64),
            ),
            final(self)@.entering == old(self)@.entering,
    {
        let ghost v0 = self@;
        let ghost n = v0.n();
        let ghost mx = max_ticket(v0.tickets, n);
        proof {
            lemma_max_ticket_single(v0.tickets, n, p as int);
            assert(v0.local_ok(p as int));
            assert forall|o: int| 0 <= o < n implies (#[trigger] v0.tickets[o] matches Some(x)
                ==> x <= mx) by {
                lemma_max_ticket_ge(v0.tickets, n, o);
            }
        }
        let mut done = false;
        while !done
            invariant
                self@.inv(),
                self@.n() == n,
                v0.n() == n,
                v0.inv(),
                p < n,
                mx == max_ticket(v0.tickets, n),
                mx < u64::MAX,
                v0.others_idle(p as int),
                forall|q: int| 0 <= q < n && q != p ==> (#[trigger] v0.tickets[q]) is None,
                forall|o: int| 0 <= o < n ==> (#[trigger] v0.tickets[o] matches Some(x) ==> x <= mx),
                !v0.entering[p as int],
                forall|q: int|
                    0 <= q < n && q != p ==> #[trigger] self@.phases[q] == v0.phases[q]
                        && self@.tickets[q] == v0.tickets[q] && self@.entering[q] == v0.entering[q],
                done == (self@.phases[p as int] is Critical),
                match self@.phases[p as int] {
                    Phase::Idle => self@.tickets[p as int] == v0.tickets[p as int]
                        && !self@.entering[p as int],
                    Phase::Choosing { next, max } => self@.tickets[p as int] == v0.tickets[p as int]
                        && max == max_ticket(v0.tickets, next as nat) && next <= n,
                    _ => self@.tickets[p as int] == Some((mx + 1) as u64),
                },
                (self@.phases[p as int] is Waiting || self@.phases[p as int] is Critical)
                    ==> !self@.entering[p as int],
            decreases 3 * n + 6 - stage(self@.phases[p as int], n as int),
        {
            let ghost before = self@;
            proof {
                assert(before.local_ok(p as int));
                match before.phases[p as int] {
                    Phase::Waiting { other } => {
                        if other < n && other != p {
                            assert(v0.phases[other as int] is Idle);
                            assert(v0.local_ok(other as int));
                            assert(before.phases[other as int] == v0.phases[other as int]);
                        }
                    },
                    Phase::WaitTicket { other } => {
                        assert(v0.phases[other as int] is Idle);
                        assert(before.phases[other as int] == v0.phases[other as int]);
                        assert(before.tickets[other as int] == v0.tickets[other as int]);
                        assert(v0.tickets[other as int] matches Some(x) ==> x <= mx);
                    },
                    Phase::Choosing { next, max } => {
                        if next < n {
                            if next != p {
                                assert(before.phases[next as int] == v0.phases[next as int]);
                            }
                            assert(before.tickets[next as int] == v0.tickets[next as int]);
                            assert(max_ticket(v0.tickets, (next + 1) as nat) == match v0.tickets[next as int] {
                                Some(x) => if x > max {
                                    x
                                } else {
                                    max
                                },
                                None => max,
                            });
                        }
                    },
                    _ => {},
                }
            }
            self.step(p);
            done = self.phases[p] == Phase::Critical;
            proof {
                assert(self@.local_ok(p as int));
                assert(self@ == before.step(p as int));
                assert forall|q: int| 0 <= q < n && q != p implies #[trigger] self@.phases[q]
                    == v0.phases[q] && self@.tickets[q] == v0.tickets[q] && self@.entering[q]
                    == v0.entering[q] by {
                    assert(before.phases[q] == v0.phases[q]);
                }
                match before.phases[p as int] {
                    Phase::Idle => {},
                    Phase::Choosing { next, max } => {},
                    Phase::Chosen => {},
                    Phase::Waiting { other } => {
                        assert(stage(self@.phases[p as int], n as int) > stage(
                            before.phases[p as int],
                            n as int,
                        ));
                    },
                    Phase::WaitTicket { other } => {
                        assert(before.ticket(p as int) == mx + 1);
                        assert(before.phases[other as int] == v0.phases[other as int]);
                        assert(before.tickets[other as int] == v0.tickets[other as int]);
                        match v0.tickets[other as int] {
                            Some(x) => {
                                assert(x <= mx);
                            },
                            None => {},
                        }
                        assert(other < n && other != p);
                        assert(self@.phases[p as int] == (Phase::Waiting { other: (other + 1) as usize }));
                        assert(stage(self@.phases[p as int], n as int) > stage(
                            before.phases[p as int],
                            n as int,
                        ));
                    },
                    Phase::Critical => {},
                }
                assert(stage(self@.phases[p as int], n as int) > stage(
                    before.phases[p as int],
                    n as int,
                ));
            }
        }
        proof {
            assert(self@.local_ok(p as int));
            assert(self@.phases.len() == n && self@.tickets.len() == n && self@.entering.len() == n);
            assert forall|q: int| 0 <= q < n implies #[trigger] self@.entering[q] == v0.entering[q] by {
                if q != p {
                    assert(self@.phases[q] == v0.phases[q]);
                }
            }
            assert forall|q: int| 0 <= q < n implies #[trigger] self@.tickets[q] == v0.tickets.update(
                p as int,
                Some((mx + 1) as u64),
            )[q] by {
                if q != p {
                    assert(self@.phases[q] == v0.phases[q]);
                }
            }
            assert(self@.phases =~= v0.phases.update(p as int, Phase::Critical));
            assert(self@.tickets =~= v0.tickets.update(p as int, Some((mx + 1) as u64)));
            assert(self@.entering =~= v0.entering);
        }
    }

    /// Thread `p` performs its next read or write of a shared variable.
    pub fn step(&mut self, p: usize)
        requires
            old(self)@.inv(),
            p < old(self)@.n(),
            !old(self)@.overflows(p as int),
        ensures
            final(self)@ == old(self)@.step(p as int),
            final(self)@.inv(),
    {
        proof {
            old(self)@.lemma_step(p as int);
            assert(old(self)@.local_ok(p as int));
        }
        let n = self.phases.len();
        match self.phases[p] {
            Phase::Idle => {
                self.entering.set(p, true);
                self.phases.set(p, Phase::Choosing { next: 0, max: 0 });
            },
            Phase::Choosing { next, max } => {
                if next < n {
                    let m = ticket_max(max, self.tickets[next]);
                    self.phases.set(p, Phase::Choosing { next: next + 1, max: m });
                } else {
                    self.tickets.set(p, Some(max + 1));
                    self.phases.set(p, Phase::Chosen);
                }
            },
            Phase::Chosen => {
                self.entering.set(p, false);
                self.phases.set(p, Phase::Waiting { other: 0 });
            },
            Phase::Waiting { other } => {
                if other == n {
                    self.phases.set(p, Phase::Critical);
                } else if other == p {
                    self.phases.set(p, Phase::Waiting { other: other + 1 });
                } else if !self.entering[other] {
                    self.phases.set(p, Phase::WaitTicket { other });
                }
            },
            Phase::WaitTicket { other } => {
                let mine = match self.tickets[p] {
                    Some(t) => t,
                    None => 0,
                };
                if may_pass(mine, p, self.tickets[other], other) {
                    self.phases.set(p, Phase::Waiting { other: other + 1 });
                }
            },
            Phase::Critical => {
                self.tickets.set(p, None);
                self.phases.set(p, Phase::Idle);
            },
        }
        proof {
            assert(self@ =~= old(self)@.step(p as int));
        }
    }
}

} // verus!
