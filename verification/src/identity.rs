//! What tells one semaphore or channel from another.
use vstd::prelude::*;

verus! {

/// The identity of a semaphore or a channel. Its permits, requests and handles
/// bear it too.
///
/// An identity is a number and the source that gave the number out. Only the
/// number is kept at run time, so only identities of one source can be compared.
#[derive(Clone, Copy)]
pub struct Identity {
    number: u64,
    source: Ghost<int>,
}

impl Identity {
    /// The number.
    pub closed spec fn view(&self) -> nat {
        self.number as nat
    }

    /// What tells the source from others.
    pub closed spec fn source(&self) -> int {
        self.source@
    }

    /// Whether both are the same identity.
    pub fn same(&self, other: &Identity) -> (yes: bool)
        requires
            self.source() == other.source(),
        ensures
            yes <==> *self == *other,
    {
        proof {
            law_identity_is_number_and_source(*self, *other);
        }
        self.number == other.number
    }
}

/// A source of identities. It gives out no identity twice.
///
/// One source is meant to name all semaphores and channels that meet. Of two
/// sources it is not known whether they are told apart, so nothing can be shown to
/// belong together that two of them have named.
pub struct Identities {
    next: u64,
    source: Ghost<int>,
}

impl Identities {
    /// How many identities have been given out; the next one bears this number.
    pub closed spec fn view(&self) -> nat {
        self.next as nat
    }

    /// What tells the source from others.
    pub closed spec fn source(&self) -> int {
        self.source@
    }

    /// Whether the source has given out `id`.
    pub open spec fn gave(&self, id: Identity) -> bool {
        &&& id.source() == self.source()
        &&& id@ < self@
    }

    /// A source that has given out nothing.
    pub fn new() -> (ids: Self)
        ensures
            ids@ == 0,
    {
        Identities { next: 0, source: Ghost(vstd::pervasive::arbitrary()) }
    }

    /// Whether there are no more identities.
    pub fn is_exhausted(&self) -> (yes: bool)
        ensures
            yes <==> self@ >= u64::MAX,
    {
        self.next == u64::MAX
    }

    /// An identity that the source never gave out before.
    pub fn fresh(&mut self) -> (id: Identity)
        requires
            old(self)@ < u64::MAX,
        ensures
            final(self).source() == old(self).source(),
            final(self)@ == old(self)@ + 1,
            id.source() == old(self).source(),
            id@ == old(self)@,
            !old(self).gave(id),
            final(self).gave(id),
    {
        let id = Identity { number: self.next, source: self.source };
        self.next = self.next + 1;
        id
    }
}

/// Two semaphores or channels that one source has named are told apart: what was
/// named later has an identity that the source had not given out before. What has
/// been given out stays given out.
pub proof fn law_told_apart(ids: Identities, later: Identities, first: Identity, second: Identity)
    requires
        ids.gave(first),
        !ids.gave(second),
        later.source() == ids.source(),
        ids@ <= later@,
    ensures
        first != second,
        later.gave(first),
{
}

/// Identities are equal if and only if their numbers and their sources are. So
/// being of the same channel, which compares identities, is reflexive, symmetric
/// and transitive.
pub proof fn law_identity_is_number_and_source(first: Identity, second: Identity)
    ensures
        first == second <==> first@ == second@ && first.source() == second.source(),
        first == second <==> second == first,
{
    if first@ == second@ && first.source() == second.source() {
        assert(first.source == second.source);
    }
}

} // verus!
