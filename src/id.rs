use vstd::prelude::*;

verus! {

/// An opaque handle to an element of a forest: a dense, non-negative integer.
#[derive(Clone, Copy, Debug, PartialEq, Eq, Hash, Structural)]
pub struct Id(pub usize);

impl View for Id {
    type V = nat;

    open spec fn view(&self) -> nat {
        self.0 as nat
    }
}

impl Id {
    /// The integer this id stands for.
    pub fn index(self) -> (r: usize)
        ensures
            r == self.0,
    {
        self.0
    }
}

impl From<usize> for Id {
    fn from(u: usize) -> (r: Id)
        ensures
            r.0 == u,
    {
        Id(u)
    }
}

impl vstd::std_specs::convert::FromSpecImpl<usize> for Id {
    open spec fn obeys_from_spec() -> bool {
        true
    }

    open spec fn from_spec(u: usize) -> Id {
        Id(u)
    }
}

impl From<Id> for usize {
    fn from(id: Id) -> (r: usize)
        ensures
            r == id.0,
    {
        id.0
    }
}

impl vstd::std_specs::convert::FromSpecImpl<Id> for usize {
    open spec fn obeys_from_spec() -> bool {
        true
    }

    open spec fn from_spec(id: Id) -> usize {
        id.0
    }
}

} // verus!
