//! The admission-token pool that bounds concurrent hashing.
//!
//! Every unit of hashing work must hold a token while it touches the
//! filesystem; the pool holds a fixed number of them, so at most that many
//! units hash at once, however many units are pending. A unit acquires a
//! token before opening its file and releases it when it is done, whether
//! it succeeded or failed.
//!
//! This type is the pool's bookkeeping: how many tokens are out against
//! the fixed capacity. The run's driver couples it to its notion of
//! waiting (a unit whose acquire failed tries again once a token comes
//! back); the bound itself — never more tokens out than the capacity — is
//! invariant under every history of acquires and releases, which
//! [`lemma_outstanding_bounded`] states over arbitrary event traces.

use vstd::prelude::*;

verus! {

/// How many units of hashing work may run at once.
pub const DEFAULT_TOKENS: usize = 16;

/// A fixed pool of admission tokens.
pub struct TokenPool {
    capacity: usize,
    outstanding: usize,
}

impl TokenPool {
    /// The fixed number of tokens.
    pub closed spec fn capacity(&self) -> nat {
        self.capacity as nat
    }

    /// How many tokens are out right now.
    pub closed spec fn outstanding(&self) -> nat {
        self.outstanding as nat
    }

    /// The admission bound: never more tokens out than the pool holds.
    pub open spec fn wf(&self) -> bool {
        self.outstanding() <= self.capacity()
    }

    /// A fresh pool of `capacity` tokens, none of them out.
    pub fn new(capacity: usize) -> (p: TokenPool)
        requires
            capacity >= 1,
        ensures
            p.wf(),
            p.capacity() == capacity,
            p.outstanding() == 0,
    {
        TokenPool { capacity, outstanding: 0 }
    }

    /// Hands a token out if one is free.
    ///
    /// Succeeds exactly when a token is free; a unit whose acquire fails
    /// suspends and tries again once a token is released.
    pub fn try_acquire(&mut self) -> (granted: bool)
        requires
            old(self).wf(),
        ensures
            final(self).wf(),
            final(self).capacity() == old(self).capacity(),
            granted == (old(self).outstanding() < old(self).capacity()),
            granted ==> final(self).outstanding() == old(self).outstanding() + 1,
            !granted ==> final(self).outstanding() == old(self).outstanding(),
    {
        if self.outstanding < self.capacity {
            self.outstanding = self.outstanding + 1;
            true
        } else {
            false
        }
    }

    /// Takes a token back; units release unconditionally when they finish.
    pub fn release(&mut self)
        requires
            old(self).wf(),
            old(self).outstanding() >= 1,
        ensures
            final(self).wf(),
            final(self).capacity() == old(self).capacity(),
            final(self).outstanding() == old(self).outstanding() - 1,
    {
        self.outstanding = self.outstanding - 1;
    }
}

/// One step of a run's admission history: a unit asked for a token, or a
/// unit gave its token back.
pub enum TokenEvent {
    Acquire,
    Release,
}

/// The number of tokens out after a history of events, starting from an
/// idle pool: an acquire is granted only below `capacity`, a release takes
/// effect only while tokens are out.
pub open spec fn spec_outstanding_after(events: Seq<TokenEvent>, capacity: nat) -> nat
    decreases events.len(),
{
    if events.len() == 0 {
        0
    } else {
        let before = spec_outstanding_after(events.drop_last(), capacity);
        match events.last() {
            TokenEvent::Acquire => if before < capacity {
                before + 1
            } else {
                before
            },
            TokenEvent::Release => if before > 0 {
                (before - 1) as nat
            } else {
                before
            },
        }
    }
}

/// The concurrency bound: whatever units do in whatever order, at no point
/// of a run are more than `capacity` tokens out, so at no point do more
/// than `capacity` hashing units hold an open file.
pub proof fn lemma_outstanding_bounded(events: Seq<TokenEvent>, capacity: nat)
    ensures
        spec_outstanding_after(events, capacity) <= capacity,
    decreases events.len(),
{
    if events.len() > 0 {
        lemma_outstanding_bounded(events.drop_last(), capacity);
    }
}

} // verus!
