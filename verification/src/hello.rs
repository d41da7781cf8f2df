use vstd::prelude::*;

verus! {

/// The stage a `Hello` future has reached.
#[derive(Clone, Copy, PartialEq, Eq, Structural, Debug)]
pub enum StateHello {
    HELLO,
    WORLD,
    END,
}

/// What one poll of a `Hello` future gives: a line to print before it goes on
/// waiting, or completion.
#[derive(Clone, Copy, PartialEq, Eq, Debug)]
pub enum HelloPoll {
    Pending(&'static str),
    Ready,
}

/// A future that prints "Hello, " when first polled, "World!" when polled again,
/// and completes when polled a third time.
pub struct Hello {
    state: StateHello,
}

impl Hello {
    pub closed spec fn state(&self) -> StateHello {
        self.state
    }

    pub fn new() -> (r: Self)
        ensures
            r.state() == StateHello::HELLO,
    {
        Hello { state: StateHello::HELLO }
    }

    /// One poll: the line to print and the next stage, or completion once both
    /// lines are out. A completed future stays completed.
    pub fn poll(&mut self) -> (r: HelloPoll)
        ensures
            old(self).state() == StateHello::HELLO ==> (final(self).state() == StateHello::WORLD
                && (r matches HelloPoll::Pending(m) && m@ == "Hello, "@)),
            old(self).state() == StateHello::WORLD ==> (final(self).state() == StateHello::END
                && (r matches HelloPoll::Pending(m) && m@ == "World!"@)),
            old(self).state() == StateHello::END ==> final(self).state() == StateHello::END && r
                == HelloPoll::Ready,
    {
        match self.state {
            StateHello::HELLO => {
                self.state = StateHello::WORLD;
                HelloPoll::Pending("Hello, ")
            },
            StateHello::WORLD => {
                self.state = StateHello::END;
                HelloPoll::Pending("World!")
            },
            StateHello::END => HelloPoll::Ready,
        }
    }
}

} // verus!
