//! The weak-symbol cell.
//!
//! The native locking primitive may or may not be present in the running
//! process; its address is probed once, at first use, and cached in a
//! single word.  A reserved sentinel means "not yet probed", distinct
//! from every resolved value including zero, which means "absent".
//! Concurrent first-time resolution is a benign race: the update rule is
//! idempotent, and once a cell leaves the sentinel it never changes
//! again — both proved below.  The real resolver keeps the word in one
//! atomic and probes with the host's dynamic symbol lookup; every
//! decision it takes is a function here.

use vstd::prelude::*;

verus! {

/// The reserved word meaning that the cell has not been probed yet.
pub const UNRESOLVED: usize = 1;

/// The three states a cell's word can encode.
#[derive(Clone, Copy, PartialEq, Eq, Structural, Debug)]
pub enum SymbolState {
    /// Not probed yet: the word is the reserved sentinel.
    Unresolved,
    /// Probed, and the symbol is not present.
    Absent,
    /// Probed, and the symbol lives at this address.
    Present(usize),
}

/// What a cell word means.
pub open spec fn decoded(word: usize) -> SymbolState {
    if word == UNRESOLVED {
        SymbolState::Unresolved
    } else if word == 0 {
        SymbolState::Absent
    } else {
        SymbolState::Present(word)
    }
}

/// The update rule of one resolution step: a probe result lands in the
/// cell only while the cell still holds the sentinel.
pub open spec fn step(word: usize, fetched: usize) -> usize {
    if word == UNRESOLVED {
        fetched
    } else {
        word
    }
}

/// Reads a cell word: exec twin of `decoded`.
pub fn decode(word: usize) -> (s: SymbolState)
    ensures
        s == decoded(word),
{
    if word == UNRESOLVED {
        SymbolState::Unresolved
    } else if word == 0 {
        SymbolState::Absent
    } else {
        SymbolState::Present(word)
    }
}

/// Whether a cell word still asks for a probe.
pub fn needs_probe(word: usize) -> (b: bool)
    ensures
        b == (word == UNRESOLVED),
{
    word == UNRESOLVED
}

/// Applies the update rule: exec twin of `step`, for the store between
/// the resolver's load and its store.
pub fn resolve_step(word: usize, fetched: usize) -> (r: usize)
    ensures
        r == step(word, fetched),
{
    if word == UNRESOLVED {
        fetched
    } else {
        word
    }
}

/// Once a cell has left the sentinel, no step changes it again: a
/// resolved cell is terminal, whatever a late probe returned.
pub proof fn resolution_terminal(word: usize, fetched: usize)
    requires
        word != UNRESOLVED,
    ensures
        step(word, fetched) == word,
{
}

/// Resolvers racing with the same probe result converge: applying the
/// update rule twice is applying it once, so a redundant second
/// resolution leaves the cell exactly where the first put it.
pub proof fn resolution_idempotent(word: usize, fetched: usize)
    ensures
        step(step(word, fetched), fetched) == step(word, fetched),
{
}

/// The cell that caches the optionally present locking primitive's
/// address, probed lazily on the first query.
pub struct WeakFlock {
    addr: usize,
}

impl WeakFlock {
    /// The cell's current word.
    pub closed spec fn word(&self) -> usize {
        self.addr
    }

    /// A fresh cell: not probed yet.
    pub fn new() -> (w: WeakFlock)
        ensures
            w.word() == UNRESOLVED,
    {
        WeakFlock { addr: UNRESOLVED }
    }

    /// One query.  `fetched` is what the host's symbol lookup returned —
    /// the symbol's address, or zero for absent — and is consulted only
    /// while the cell still holds the sentinel.  Returns the callable
    /// address, or `None` when the cell now says the symbol is absent.
    pub fn get(&mut self, fetched: usize) -> (r: Option<usize>)
        ensures
            final(self).word() == step(old(self).word(), fetched),
            r == (if final(self).word() == 0 {
                None::<usize>
            } else {
                Some(final(self).word())
            }),
    {
        if self.addr == UNRESOLVED {
            self.addr = fetched;
        }
        if self.addr == 0 {
            None
        } else {
            Some(self.addr)
        }
    }
}

} // verus!
