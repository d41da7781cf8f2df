use vstd::prelude::*;

verus! {

/// The state of a semaphore: how many threads are inside, and how many may be.
pub ghost struct SemView {
    pub count: int,
    pub max: int,
}

impl SemView {
    /// No more threads are inside than the semaphore admits.
    pub open spec fn wf(self) -> bool {
        0 <= self.count <= self.max
    }

    /// A thread asking to enter gets in.
    pub open spec fn can_enter(self) -> bool {
        self.count < self.max
    }

    /// The state once one more thread is inside.
    pub open spec fn entered(self) -> SemView {
        SemView { count: self.count + 1, ..self }
    }

    /// The state once one thread has left.
    pub open spec fn left(self) -> SemView {
        SemView { count: self.count - 1, ..self }
    }

    /// `wait` lets a thread in exactly when fewer threads than the limit are inside,
    /// and a thread let in adds exactly one to the count.
    pub proof fn lemma_enter_below_limit(self)
        ensures
            self.can_enter() <==> self.count < self.max,
            self.entered().count == self.count + 1,
            self.entered().max == self.max,
            self.left().count == self.count - 1,
            self.left().max == self.max,
    {
    }

    /// Letting a thread in when `wait` allows it keeps the count within the limit.
    pub proof fn lemma_enter_keeps_wf(self)
        requires
            self.wf(),
            self.can_enter(),
        ensures
            self.entered().wf(),
    {
    }

    /// A thread leaving keeps the count within the limit.
    pub proof fn lemma_leave_keeps_wf(self)
        requires
            self.wf(),
            self.count > 0,
        ensures
            self.left().wf(),
    {
    }

    /// A `post` after a successful `wait` restores the state.
    pub proof fn lemma_post_undoes_wait(self)
        requires
            self.can_enter(),
        ensures
            self.entered().left() == self,
    {
    }
}

/// A counting semaphore: at most `max` threads may be inside at once. This holds
/// the count; the threads that share it keep it under a lock and wait on a condition
/// variable while `wait` refuses them.
pub struct Semaphore {
    count: usize,
    max: isize,
}

impl View for Semaphore {
    type V = SemView;

    closed spec fn view(&self) -> SemView {
        SemView { count: self.count as int, max: self.max as int }
    }
}

impl Semaphore {
    /// A semaphore that admits `max` threads at once, none of them inside yet.
    pub fn new(max: isize) -> (r: Self)
        ensures
            r@ == (SemView { count: 0, max: max as int }),
            max >= 0 ==> r@.wf(),
    {
        Semaphore { count: 0, max }
    }

    /// A thread asks to enter: it enters, and `true` comes back, when fewer than `max`
    /// threads are inside; otherwise nothing changes and it must wait for a `post`.
    pub fn wait(&mut self) -> (entered: bool)
        requires
            old(self)@.max >= 0,
        ensures
            entered == old(self)@.can_enter(),
            entered ==> final(self)@ == old(self)@.entered(),
            !entered ==> final(self)@ == old(self)@,
            old(self)@.wf() ==> final(self)@.wf(),
    {
        let max = self.max as usize;
        if self.count >= max {
            false
        } else {
            self.count += 1;
            true
        }
    }

    /// A thread leaves; `true` comes back when a waiting thread should be woken,
    /// which is whenever the count is within `max` after the thread has left.
    pub fn post(&mut self) -> (notify: bool)
        requires
            old(self)@.max >= 0,
            old(self)@.count > 0,
        ensures
            final(self)@ == old(self)@.left(),
            notify == (final(self)@.count <= final(self)@.max),
            old(self)@.wf() ==> final(self)@.wf() && notify,
    {
        self.count -= 1;
        let max = self.max as usize;
        self.count <= max
    }

    /// Whether a thread is inside, so that `post` may be called.
    pub fn is_held(&self) -> (r: bool)
        ensures
            r == (self@.count > 0),
    {
        self.count > 0
    }

    /// Whether the limit is non-negative, so that `wait` and `post` may be called.
    pub fn has_valid_max(&self) -> (r: bool)
        ensures
            r == (self@.max >= 0),
    {
        self.max >= 0
    }
}

} // verus!
