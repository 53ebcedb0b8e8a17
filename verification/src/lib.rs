//! Advisory whole-file locking, modeled and verified.
//!
//! The crate models the two native locking families behind a common
//! capability interface: an advisory family in which a lock belongs to an
//! open file description and a new lock replaces the old one, and a
//! mandatory family in which locks belong to a single handle and stack.
//! Scope-bound guards hold a locked handle and perform the one release
//! that is owed when they are given up, and a weak-symbol cell resolves
//! an optionally present locking primitive once.

use vstd::prelude::*;

pub mod advisory;
pub mod guard;
pub mod mandatory;
pub mod stats;
pub mod weak;

verus! {

/// A handle on an open file: the caller-facing stand-in for a native
/// descriptor or handle value.
///
/// A handle is issued by the backend that owns it, is consumed when it is
/// closed, and can be neither copied nor cloned: duplication through the
/// backend is the only way to obtain a second identity for the same open
/// file.
#[derive(PartialEq, Eq, Structural, Debug)]
pub struct Handle {
    pub(crate) id: usize,
}

impl Handle {
    /// The native identity behind this handle.
    pub closed spec fn id(&self) -> int {
        self.id as int
    }

    /// Returns the raw identity value, for display and comparison.
    pub fn as_raw(&self) -> (r: usize)
        ensures
            r == self.id(),
    {
        self.id
    }
}

/// The two whole-file lock modes.
#[derive(Clone, Copy, PartialEq, Eq, Structural, Debug)]
pub enum LockKind {
    Shared,
    Exclusive,
}

/// The portable error vocabulary of the locking layer.
///
/// `Contended` is the distinguished signal of a nonblocking attempt that
/// could not be granted right away; every other native failure is carried
/// through unchanged as `System` with its raw OS error code.
#[derive(Clone, Copy, PartialEq, Eq, Structural, Debug)]
pub enum LockError {
    Contended,
    System(i32),
}

impl LockError {
    /// Translates a raw OS error code into the portable vocabulary, given
    /// the code that the active family uses to signal contention.
    pub fn from_os_code(code: i32, contended_code: i32) -> (e: LockError)
        ensures
            e == (if code == contended_code {
                LockError::Contended
            } else {
                LockError::System(code)
            }),
    {
        if code == contended_code {
            LockError::Contended
        } else {
            LockError::System(code)
        }
    }
}

/// What a file holds after `buf` is written at position `cur`: the bytes
/// of `buf` at `cur..cur + buf.len()`, the old bytes elsewhere, zeroes
/// filling any gap between the old end and `cur`.
pub open spec fn written(data: Seq<u8>, cur: int, buf: Seq<u8>) -> Seq<u8>
    recommends
        0 <= cur,
{
    Seq::new(
        if data.len() > cur + buf.len() {
            data.len()
        } else {
            (cur + buf.len()) as nat
        },
        |i: int|
            if cur <= i < cur + buf.len() {
                buf[i - cur]
            } else if i < data.len() {
                data[i]
            } else {
                0u8
            },
    )
}

/// The error that a nonblocking lock attempt on a contended file returns.
pub fn lock_contended_error() -> (e: LockError)
    ensures
        e == LockError::Contended,
{
    LockError::Contended
}

/// The file-lock capability: duplication and the six whole-file lock
/// operations over the handles of one backend.
///
/// Each platform family implements this interface with its own lock scope
/// and its own grant rules; the per-family spec functions (`lock_spec`,
/// `unlock_spec`, `duplicate_spec`) carry the exact family semantics, while
/// the clauses stated here are the portable core that holds of every
/// family: a nonblocking request is granted if and only if the family's
/// grant condition held, a denied request reports `Contended`, a granted
/// request leaves the handle's scope holding a lock, and releasing is owed
/// to succeed on a scope that holds one.
pub trait FileExt: Sized {
    /// Well-formedness of the backend state.
    spec fn inv(&self) -> bool;

    /// `h` names an open handle of this backend.
    spec fn is_open(&self, h: Handle) -> bool;

    /// The lock scope that `h` belongs to holds at least one lock.
    spec fn holds_lock(&self, h: Handle) -> bool;

    /// A nonblocking shared request through `h` would be granted right away.
    spec fn shared_grantable(&self, h: Handle) -> bool;

    /// A nonblocking exclusive request through `h` would be granted right away.
    spec fn exclusive_grantable(&self, h: Handle) -> bool;

    /// The backend can record one more lock for `h`'s scope: a machine
    /// limit of the bookkeeping, not a statement about contention.
    spec fn can_record(&self, h: Handle, kind: LockKind) -> bool;

    /// The family's exact account of a lock request through `h`, granted
    /// or denied.
    spec fn lock_spec(pre: Self, post: Self, h: Handle, kind: LockKind, granted: bool) -> bool;

    /// The family's exact account of one successful release through `h`.
    spec fn unlock_spec(pre: Self, post: Self, h: Handle) -> bool;

    /// The error a denied release reports.  A family whose releases
    /// always succeed never returns it.
    spec fn unlock_error(pre: Self, h: Handle) -> LockError;

    /// The family's exact account of duplicating `h` into the new
    /// handle `d`.
    spec fn duplicate_spec(pre: Self, post: Self, h: Handle, d: Handle) -> bool;

    /// Returns a new handle on the same open file, sharing its read/write
    /// cursor with `h`.
    fn duplicate(&mut self, h: &Handle) -> (r: Result<Handle, LockError>)
        requires
            old(self).inv(),
            old(self).is_open(*h),
        ensures
            final(self).inv(),
            final(self).is_open(*h),
            r is Ok,
            r matches Ok(d) ==> final(self).is_open(d) && d != *h && Self::duplicate_spec(
                *old(self),
                *final(self),
                *h,
                d,
            ),
            final(self).holds_lock(*h) == old(self).holds_lock(*h),
    ;

    /// Locks the file for shared usage.  The native call blocks while the
    /// lock cannot be granted; within the model, where no other thread can
    /// release a conflicting lock, such a call would never return, so the
    /// request must be grantable on entry.
    fn lock_shared(&mut self, h: &Handle) -> (r: Result<(), LockError>)
        requires
            old(self).inv(),
            old(self).is_open(*h),
            old(self).shared_grantable(*h),
            old(self).can_record(*h, LockKind::Shared),
        ensures
            final(self).inv(),
            r is Ok,
            final(self).holds_lock(*h),
            Self::lock_spec(*old(self), *final(self), *h, LockKind::Shared, true),
            forall|h2: Handle| final(self).is_open(h2) == old(self).is_open(h2),
    ;

    /// Locks the file for exclusive usage.  Blocking: see `lock_shared`.
    fn lock_exclusive(&mut self, h: &Handle) -> (r: Result<(), LockError>)
        requires
            old(self).inv(),
            old(self).is_open(*h),
            old(self).exclusive_grantable(*h),
            old(self).can_record(*h, LockKind::Exclusive),
        ensures
            final(self).inv(),
            r is Ok,
            final(self).holds_lock(*h),
            Self::lock_spec(*old(self), *final(self), *h, LockKind::Exclusive, true),
            forall|h2: Handle| final(self).is_open(h2) == old(self).is_open(h2),
    ;

    /// Attempts a shared lock without blocking; reports `Contended` if the
    /// lock cannot be granted right away.
    fn try_lock_shared(&mut self, h: &Handle) -> (r: Result<(), LockError>)
        requires
            old(self).inv(),
            old(self).is_open(*h),
            old(self).can_record(*h, LockKind::Shared),
        ensures
            final(self).inv(),
            r is Ok <==> old(self).shared_grantable(*h),
            r is Ok ==> final(self).holds_lock(*h),
            r is Err ==> r == Err::<(), LockError>(LockError::Contended),
            Self::lock_spec(*old(self), *final(self), *h, LockKind::Shared, r is Ok),
            forall|h2: Handle| final(self).is_open(h2) == old(self).is_open(h2),
    ;

    /// Attempts an exclusive lock without blocking; reports `Contended` if
    /// the lock cannot be granted right away.
    fn try_lock_exclusive(&mut self, h: &Handle) -> (r: Result<(), LockError>)
        requires
            old(self).inv(),
            old(self).is_open(*h),
            old(self).can_record(*h, LockKind::Exclusive),
        ensures
            final(self).inv(),
            r is Ok <==> old(self).exclusive_grantable(*h),
            r is Ok ==> final(self).holds_lock(*h),
            r is Err ==> r == Err::<(), LockError>(LockError::Contended),
            Self::lock_spec(*old(self), *final(self), *h, LockKind::Exclusive, r is Ok),
            forall|h2: Handle| final(self).is_open(h2) == old(self).is_open(h2),
    ;

    /// Releases through `h`.  A scope that holds a lock is owed success.
    fn unlock(&mut self, h: &Handle) -> (r: Result<(), LockError>)
        requires
            old(self).inv(),
            old(self).is_open(*h),
        ensures
            final(self).inv(),
            old(self).holds_lock(*h) ==> r is Ok,
            r is Ok ==> Self::unlock_spec(*old(self), *final(self), *h),
            r is Err ==> *final(self) == *old(self),
            r matches Err(e) ==> e == Self::unlock_error(*old(self), *h),
            forall|h2: Handle| final(self).is_open(h2) == old(self).is_open(h2),
    ;
}

} // verus!
