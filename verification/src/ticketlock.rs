use vstd::prelude::*;

verus! {

/// Where a thread stands in the ticket lock.
#[derive(Clone, Copy, PartialEq, Eq, Structural, Debug)]
pub enum TicketPhase {
    /// Not asking for the lock.
    Idle,
    /// Holding ticket `ticket`, waiting for its turn.
    Waiting { ticket: usize },
    /// Holding the lock, entered with ticket `ticket`.
    Holding { ticket: usize },
}

/// The two counters of a ticket lock and the phase of every thread.
pub ghost struct TicketView {
    /// The ticket the next thread to ask gets.
    pub ticket: usize,
    /// The ticket whose holder may enter.
    pub turn: usize,
    pub phases: Seq<TicketPhase>,
}

/// The successor of `x` in wrapping `usize` arithmetic.
pub open spec fn wrap_next(x: usize) -> usize {
    if x == usize::MAX {
        0
    } else {
        (x + 1) as usize
    }
}

pub open spec fn busy(ph: TicketPhase) -> bool {
    !(ph is Idle)
}

/// The ticket a thread holds; `0` for a thread that holds none.
pub open spec fn ticket_of(ph: TicketPhase) -> usize {
    match ph {
        TicketPhase::Waiting { ticket } => ticket,
        TicketPhase::Holding { ticket } => ticket,
        TicketPhase::Idle => 0,
    }
}

/// The number of threads below `k` that hold a ticket.
pub open spec fn busy_count(phases: Seq<TicketPhase>, k: nat) -> nat
    decreases k,
{
    if k == 0 {
        0
    } else {
        busy_count(phases, (k - 1) as nat) + if busy(phases[k - 1]) {
            1nat
        } else {
            0nat
        }
    }
}

impl TicketView {
    pub open spec fn n(self) -> nat {
        self.phases.len()
    }

    /// How many tickets were handed out after the one being served when `x` was.
    pub open spec fn offset(self, x: usize) -> int {
        if x >= self.turn {
            x - self.turn
        } else {
            x + usize::MAX + 1 - self.turn
        }
    }

    /// The tickets handed out and not yet given back are exactly those of the busy
    /// threads, all different, and the holder of the lock holds the ticket being served.
    pub open spec fn inv(self) -> bool {
        &&& self.n() <= usize::MAX
        &&& busy_count(self.phases, self.n()) == self.offset(self.ticket)
        &&& forall|p: int|
            0 <= p < self.n() && busy(#[trigger] self.phases[p]) ==> self.offset(
                ticket_of(self.phases[p]),
            ) < self.offset(self.ticket)
        &&& forall|p: int, q: int|
            0 <= p < self.n() && 0 <= q < self.n() && p != q && busy(#[trigger] self.phases[p])
                && busy(#[trigger] self.phases[q]) ==> ticket_of(self.phases[p]) != ticket_of(
                self.phases[q],
            )
        &&& forall|p: int|
            0 <= p < self.n() && #[trigger] self.phases[p] is Holding ==> ticket_of(self.phases[p])
                == self.turn
    }

    /// `n` threads, none asking for the lock, both counters at zero.
    pub open spec fn init(n: nat) -> TicketView {
        TicketView { ticket: 0, turn: 0, phases: Seq::new(n, |i: int| TicketPhase::Idle) }
    }

    /// One atomic step of thread `p`: taking a ticket, checking the turn once, or
    /// passing the turn on.
    pub open spec fn step(self, p: int) -> TicketView {
        match self.phases[p] {
            TicketPhase::Idle => TicketView {
                ticket: wrap_next(self.ticket),
                phases: self.phases.update(p, TicketPhase::Waiting { ticket: self.ticket }),
                ..self
            },
            TicketPhase::Waiting { ticket } => if self.turn == ticket {
                TicketView { phases: self.phases.update(p, TicketPhase::Holding { ticket }), ..self }
            } else {
                self
            },
            TicketPhase::Holding { ticket } => TicketView {
                turn: wrap_next(self.turn),
                phases: self.phases.update(p, TicketPhase::Idle),
                ..self
            },
        }
    }
}

proof fn lemma_busy_count_update(phases: Seq<TicketPhase>, p: int, x: TicketPhase, k: nat)
    requires
        0 <= p < phases.len(),
        k <= phases.len(),
    ensures
        busy_count(phases.update(p, x), k) == busy_count(phases, k) - (if p < k && busy(phases[p]) {
            1int
        } else {
            0int
        }) + (if p < k && busy(x) {
            1int
        } else {
            0int
        }),
    decreases k,
{
    if k > 0 {
        lemma_busy_count_update(phases, p, x, (k - 1) as nat);
    }
}

proof fn lemma_busy_count_le(phases: Seq<TicketPhase>, k: nat)
    requires
        k <= phases.len(),
    ensures
        busy_count(phases, k) <= k,
    decreases k,
{
    if k > 0 {
        lemma_busy_count_le(phases, (k - 1) as nat);
    }
}

proof fn lemma_busy_count_idle(phases: Seq<TicketPhase>, p: int, k: nat)
    requires
        0 <= p < k <= phases.len(),
        !busy(phases[p]),
    ensures
        busy_count(phases, k) < k,
    decreases k,
{
    if p < k - 1 {
        lemma_busy_count_idle(phases, p, (k - 1) as nat);
    } else {
        lemma_busy_count_le(phases, (k - 1) as nat);
    }
}

proof fn lemma_busy_count_zero(phases: Seq<TicketPhase>, k: nat)
    requires
        k <= phases.len(),
        forall|i: int| 0 <= i < k ==> !busy(#[trigger] phases[i]),
    ensures
        busy_count(phases, k) == 0,
    decreases k,
{
    if k > 0 {
        lemma_busy_count_zero(phases, (k - 1) as nat);
    }
}

impl TicketView {
    /// The protocol starts in a state that meets its invariant.
    pub proof fn lemma_init(n: nat)
        requires
            n <= usize::MAX,
        ensures
            Self::init(n).inv(),
    {
        let v = Self::init(n);
        lemma_busy_count_zero(v.phases, n);
    }

    /// Every step keeps the invariant.
    pub proof fn lemma_step(self, p: int)
        requires
            self.inv(),
            0 <= p < self.n(),
        ensures
            self.step(p).inv(),
    {
        let w = self.step(p);
        match self.phases[p] {
            TicketPhase::Idle => {
                lemma_busy_count_idle(self.phases, p, self.n());
                lemma_busy_count_update(
                    self.phases,
                    p,
                    TicketPhase::Waiting { ticket: self.ticket },
                    self.n(),
                );
                assert forall|a: int, b: int|
                    0 <= a < w.n() && 0 <= b < w.n() && a != b && busy(#[trigger] w.phases[a])
                        && busy(#[trigger] w.phases[b]) implies ticket_of(w.phases[a])
                    != ticket_of(w.phases[b]) by {
                    if a != p && b != p {
                        assert(busy(self.phases[a]) && busy(self.phases[b]));
                    } else if a == p {
                        assert(busy(self.phases[b]));
                    } else {
                        assert(busy(self.phases[a]));
                    }
                }
                assert forall|a: int| 0 <= a < w.n() && #[trigger] w.phases[a] is Holding implies ticket_of(
                    w.phases[a],
                ) == w.turn by {
                    assert(self.phases[a] is Holding);
                }
                assert forall|a: int|
                    0 <= a < w.n() && busy(#[trigger] w.phases[a]) implies w.offset(
                    ticket_of(w.phases[a]),
                ) < w.offset(w.ticket) by {
                    if a != p {
                        assert(busy(self.phases[a]));
                    }
                }
            },
            TicketPhase::Waiting { ticket } => {
                if self.turn == ticket {
                    lemma_busy_count_update(
                        self.phases,
                        p,
                        TicketPhase::Holding { ticket },
                        self.n(),
                    );
                    assert forall|a: int, b: int|
                        0 <= a < w.n() && 0 <= b < w.n() && a != b && busy(#[trigger] w.phases[a])
                            && busy(#[trigger] w.phases[b]) implies ticket_of(w.phases[a])
                        != ticket_of(w.phases[b]) by {
                        assert(busy(self.phases[a]) && busy(self.phases[b]));
                    }
                    assert forall|a: int|
                        0 <= a < w.n() && busy(#[trigger] w.phases[a]) implies w.offset(
                        ticket_of(w.phases[a]),
                    ) < w.offset(w.ticket) by {
                        assert(busy(self.phases[a]));
                    }
                    assert forall|a: int|
                        0 <= a < w.n() && #[trigger] w.phases[a] is Holding implies ticket_of(
                        w.phases[a],
                    ) == w.turn by {
                        if a != p {
                            assert(self.phases[a] is Holding);
                        }
                    }
                }
            },
            TicketPhase::Holding { ticket } => {
                lemma_busy_count_update(self.phases, p, TicketPhase::Idle, self.n());
                assert(busy(self.phases[p]));
                assert forall|a: int, b: int|
                    0 <= a < w.n() && 0 <= b < w.n() && a != b && busy(#[trigger] w.phases[a])
                        && busy(#[trigger] w.phases[b]) implies ticket_of(w.phases[a])
                    != ticket_of(w.phases[b]) by {
                    assert(busy(self.phases[a]) && busy(self.phases[b]));
                }
                assert forall|a: int|
                    0 <= a < w.n() && busy(#[trigger] w.phases[a]) implies w.offset(
                    ticket_of(w.phases[a]),
                ) < w.offset(w.ticket) by {
                    assert(busy(self.phases[a]));
                    assert(ticket_of(self.phases[a]) != ticket_of(self.phases[p]));
                }
                assert forall|a: int|
                    0 <= a < w.n() && #[trigger] w.phases[a] is Holding implies ticket_of(
                    w.phases[a],
                ) == w.turn by {
                    assert(self.phases[a] is Holding);
                    assert(busy(self.phases[a]));
                }
            },
        }
    }

    /// A waiter enters after exactly as many unlocks as there were tickets ahead of
    /// its own: no step but an unlock changes how many tickets are ahead of it, each
    /// unlock takes exactly one away, and it enters exactly when none is left.
    pub proof fn lemma_waiter_progress(self, p: int, r: int)
        requires
            self.inv(),
            0 <= p < self.n(),
            0 <= r < self.n(),
            self.phases[p] is Waiting,
        ensures
            r != p ==> self.step(r).phases[p] == self.phases[p],
            r != p ==> self.step(r).offset(ticket_of(self.phases[p])) == self.offset(
                ticket_of(self.phases[p]),
            ) - if self.phases[r] is Holding {
                1int
            } else {
                0int
            },
            r == p ==> (self.step(p).phases[p] is Holding <==> self.offset(
                ticket_of(self.phases[p]),
            ) == 0),
    {
        let t = ticket_of(self.phases[p]);
        if r != p && self.phases[r] is Holding {
            assert(busy(self.phases[p]) && busy(self.phases[r]));
            assert(ticket_of(self.phases[r]) == self.turn);
            assert(t != self.turn);
        }
    }

    /// Mutual exclusion: at most one thread holds the lock.
    pub proof fn lemma_mutual_exclusion(self, p: int, q: int)
        requires
            self.inv(),
            0 <= p < self.n(),
            0 <= q < self.n(),
            self.phases[p] is Holding,
            self.phases[q] is Holding,
        ensures
            p == q,
    {
        if p != q {
            assert(busy(self.phases[p]) && busy(self.phases[q]));
        }
    }

    /// First come, first served: while a thread that took its ticket earlier still
    /// holds it, a later thread cannot enter.
    pub proof fn lemma_first_come_first_served(self, p: int, q: int)
        requires
            self.inv(),
            0 <= p < self.n(),
            0 <= q < self.n(),
            busy(self.phases[p]),
            self.phases[q] is Waiting,
            self.offset(ticket_of(self.phases[p])) < self.offset(ticket_of(self.phases[q])),
        ensures
            self.step(q).phases[q] is Waiting,
    {
    }
}

/// A ticket lock over data of type `T`, run step by step: each thread takes a
/// ticket, waits until the ticket being served is its own, and passes the turn on
/// when it leaves.
pub struct Ticketlock<T> {
    ticket: usize,
    turn: usize,
    phases: Vec<TicketPhase>,
    data: T,
}

/// Proof that a thread holds the lock: the thread and the ticket it entered with.
pub struct TicketlockGuard {
    thread: usize,
    ticket: usize,
}

impl TicketlockGuard {
    pub closed spec fn thread(&self) -> usize {
        self.thread
    }

    pub closed spec fn ticket(&self) -> usize {
        self.ticket
    }
}

impl<T> View for Ticketlock<T> {
    type V = TicketView;

    closed spec fn view(&self) -> TicketView {
        TicketView { ticket: self.ticket, turn: self.turn, phases: self.phases@ }
    }
}

impl<T> Ticketlock<T> {
    pub closed spec fn value(&self) -> T {
        self.data
    }

    /// A lock over `v` shared by `n` threads, none of which asks for it yet.
    pub fn new(v: T, n: usize) -> (r: Self)
        ensures
            r@ == TicketView::init(n as nat),
            r@.inv(),
            r.value() == v,
    {
        let mut phases: Vec<TicketPhase> = Vec::new();
        let mut i: usize = 0;
        while i < n
            invariant
                i <= n,
                phases@ == Seq::new(i as nat, |k: int| TicketPhase::Idle),
            decreases n - i,
        {
            phases.push(TicketPhase::Idle);
            i += 1;
        }
        let r = Ticketlock { ticket: 0, turn: 0, phases, data: v };
        proof {
            TicketView::lemma_init(n as nat);
            assert(r@ =~= TicketView::init(n as nat));
        }
        r
    }

    /// Thread `p` asks for the lock: it takes the next ticket, which comes back.
    pub fn lock(&mut self, p: usize) -> (t: usize)
        requires
            old(self)@.inv(),
            p < old(self)@.n(),
            old(self)@.phases[p as int] is Idle,
        ensures
            final(self)@ == old(self)@.step(p as int),
            final(self)@.inv(),
            t == old(self)@.ticket,
            final(self).value() == old(self).value(),
    {
        proof {
            old(self)@.lemma_step(p as int);
        }
        let t = self.ticket;
        self.ticket = self.ticket.wrapping_add(1);
        self.phases.set(p, TicketPhase::Waiting { ticket: t });
        proof {
            assert(self@ =~= old(self)@.step(p as int));
        }
        t
    }

    /// Thread `p`, waiting with a ticket, checks the turn once; when its ticket is
    /// being served it enters and gets the guard.
    pub fn try_enter(&mut self, p: usize) -> (r: Option<TicketlockGuard>)
        requires
            old(self)@.inv(),
            p < old(self)@.n(),
            old(self)@.phases[p as int] is Waiting,
        ensures
            final(self)@ == old(self)@.step(p as int),
            final(self)@.inv(),
            final(self).value() == old(self).value(),
            r is Some <==> old(self)@.turn == ticket_of(old(self)@.phases[p as int]),
            r matches Some(g) ==> g.thread() == p && g.ticket() == old(self)@.turn
                && final(self)@.phases[p as int] == (TicketPhase::Holding { ticket: g.ticket() }),
    {
        proof {
            old(self)@.lemma_step(p as int);
        }
        match self.phases[p] {
            TicketPhase::Waiting { ticket } => {
                if self.turn == ticket {
                    self.phases.set(p, TicketPhase::Holding { ticket });
                    proof {
                        assert(self@ =~= old(self)@.step(p as int));
                    }
                    Some(TicketlockGuard { thread: p, ticket })
                } else {
                    None
                }
            },
            _ => None,
        }
    }

    /// The holder of the lock leaves and passes the turn on.
    pub fn unlock(&mut self, g: TicketlockGuard)
        requires
            old(self)@.inv(),
            g.thread() < old(self)@.n(),
            old(self)@.phases[g.thread() as int] == (TicketPhase::Holding { ticket: g.ticket() }),
        ensures
            final(self)@ == old(self)@.step(g.thread() as int),
            final(self)@.inv(),
            final(self).value() == old(self).value(),
    {
        proof {
            old(self)@.lemma_step(g.thread() as int);
        }
        self.turn = self.turn.wrapping_add(1);
        self.phases.set(g.thread, TicketPhase::Idle);
        proof {
            assert(self@ =~= old(self)@.step(g.thread() as int));
        }
    }

    /// The protected data, read by the holder of the lock.
    pub fn get(&self, g: &TicketlockGuard) -> (r: &T)
        requires
            self@.inv(),
            g.thread() < self@.n(),
            self@.phases[g.thread() as int] == (TicketPhase::Holding { ticket: g.ticket() }),
        ensures
            *r == self.value(),
    {
        &self.data
    }

    /// The holder of the lock replaces the protected data.
    pub fn set(&mut self, g: &TicketlockGuard, v: T)
        requires
            old(self)@.inv(),
            g.thread() < old(self)@.n(),
            old(self)@.phases[g.thread() as int] == (TicketPhase::Holding { ticket: g.ticket() }),
        ensures
            final(self)@ == old(self)@,
            final(self).value() == v,
    {
        self.data = v;
    }

    /// Where thread `p` stands.
    pub fn phase(&self, p: usize) -> (r: TicketPhase)
        requires
            p < self@.n(),
        ensures
            r == self@.phases[p as int],
    {
        self.phases[p]
    }
}

} // verus!
