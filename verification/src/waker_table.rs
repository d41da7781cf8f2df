use vstd::prelude::*;
use std::collections::HashMap;

verus! {

broadcast use vstd::std_specs::hash::group_hash_axioms;

/// The wakers of the tasks waiting on file descriptors, one per descriptor.
pub struct WakerTable<W> {
    wakers: HashMap<i32, W>,
}

impl<W> View for WakerTable<W> {
    type V = Map<i32, W>;

    closed spec fn view(&self) -> Map<i32, W> {
        self.wakers@
    }
}

impl<W> WakerTable<W> {
    /// A table with no task waiting.
    pub fn new() -> (r: Self)
        ensures
            r@ == Map::<i32, W>::empty(),
    {
        WakerTable { wakers: HashMap::new() }
    }

    /// Whether a task waits on `fd`.
    pub fn contains(&self, fd: i32) -> (r: bool)
        ensures
            r == self@.dom().contains(fd),
    {
        self.wakers.contains_key(&fd)
    }

    /// A task starts waiting on `fd`, which no other task waits on.
    pub fn register(&mut self, fd: i32, waker: W)
        requires
            !old(self)@.dom().contains(fd),
        ensures
            final(self)@ == old(self)@.insert(fd, waker),
    {
        self.wakers.insert(fd, waker);
    }

    /// The task waiting on `fd`, if any, stops waiting.
    pub fn unregister(&mut self, fd: i32)
        ensures
            final(self)@ == old(self)@.remove(fd),
    {
        self.wakers.remove(&fd);
    }

    /// `fd` is ready: the waker of the task waiting on it comes out of the table.
    pub fn take_ready(&mut self, fd: i32) -> (w: W)
        requires
            old(self)@.dom().contains(fd),
        ensures
            w == old(self)@[fd],
            final(self)@ == old(self)@.remove(fd),
    {
        self.wakers.remove(&fd).unwrap()
    }
}

} // verus!
