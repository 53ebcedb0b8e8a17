//! Scope-bound lock guards.
//!
//! A guard exists only around a handle whose lock request succeeded:
//! while the guard lives, the handle's scope holds a lock, and releasing
//! the guard performs the one release that is owed and gives the handle
//! back.  Ownership of the handle makes releasing twice, or closing the
//! handle while a guard is outstanding, impossible; a failed construction
//! returns the handle beside the error, so the caller never loses it.

use vstd::pervasive::unreached;
use vstd::prelude::*;

use crate::FileExt;
use crate::Handle;
use crate::LockError;
use crate::LockKind;

verus! {

/// An owning lock guard: holds the locked handle until released.
#[derive(Debug)]
pub struct FileLockGuard {
    handle: Handle,
}

impl FileLockGuard {
    /// The handle this guard wraps.
    pub closed spec fn wrapped(&self) -> Handle {
        self.handle
    }

    /// A view of the wrapped handle, for use while the guard lives.
    pub fn inner(&self) -> (h: &Handle)
        ensures
            *h == self.wrapped(),
    {
        &self.handle
    }
}

/// What building a guard yields: the guard, or — so that a failed attempt
/// does not cost the caller its resource — the handle given back beside
/// the error.
pub type FileLockResult = Result<FileLockGuard, (Handle, LockError)>;

/// Guarded locking, for every backend with the file-lock capability.
///
/// The four constructors take the handle into the guard on success.  The
/// blocking pair is owed success, as the underlying requests are; the
/// nonblocking pair reports `Contended` and hands the handle back when
/// the lock cannot be granted right away.
pub trait FileLock: FileExt {
    /// Takes a shared lock, blocking, and wraps the handle in a guard.
    fn lock_shared_guard(&mut self, h: Handle) -> (r: FileLockResult)
        requires
            old(self).inv(),
            old(self).is_open(h),
            old(self).shared_grantable(h),
            old(self).can_record(h, LockKind::Shared),
        ensures
            final(self).inv(),
            r matches Ok(g) && g.wrapped() == h,
            final(self).holds_lock(h),
            Self::lock_spec(*old(self), *final(self), h, LockKind::Shared, true),
            forall|h2: Handle| final(self).is_open(h2) == old(self).is_open(h2),
    ;

    /// Takes an exclusive lock, blocking, and wraps the handle in a guard.
    fn lock_exclusive_guard(&mut self, h: Handle) -> (r: FileLockResult)
        requires
            old(self).inv(),
            old(self).is_open(h),
            old(self).exclusive_grantable(h),
            old(self).can_record(h, LockKind::Exclusive),
        ensures
            final(self).inv(),
            r matches Ok(g) && g.wrapped() == h,
            final(self).holds_lock(h),
            Self::lock_spec(*old(self), *final(self), h, LockKind::Exclusive, true),
            forall|h2: Handle| final(self).is_open(h2) == old(self).is_open(h2),
    ;

    /// Attempts a shared lock without blocking and wraps the handle in a
    /// guard; on contention the handle comes back beside the error.
    fn try_lock_shared_guard(&mut self, h: Handle) -> (r: FileLockResult)
        requires
            old(self).inv(),
            old(self).is_open(h),
            old(self).can_record(h, LockKind::Shared),
        ensures
            final(self).inv(),
            r is Ok <==> old(self).shared_grantable(h),
            r matches Ok(g) ==> g.wrapped() == h && final(self).holds_lock(h),
            r matches Err(p) ==> p.0 == h && p.1 == LockError::Contended,
            Self::lock_spec(*old(self), *final(self), h, LockKind::Shared, r is Ok),
            forall|h2: Handle| final(self).is_open(h2) == old(self).is_open(h2),
    ;

    /// Attempts an exclusive lock without blocking and wraps the handle in
    /// a guard; on contention the handle comes back beside the error.
    fn try_lock_exclusive_guard(&mut self, h: Handle) -> (r: FileLockResult)
        requires
            old(self).inv(),
            old(self).is_open(h),
            old(self).can_record(h, LockKind::Exclusive),
        ensures
            final(self).inv(),
            r is Ok <==> old(self).exclusive_grantable(h),
            r matches Ok(g) ==> g.wrapped() == h && final(self).holds_lock(h),
            r matches Err(p) ==> p.0 == h && p.1 == LockError::Contended,
            Self::lock_spec(*old(self), *final(self), h, LockKind::Exclusive, r is Ok),
            forall|h2: Handle| final(self).is_open(h2) == old(self).is_open(h2),
    ;

    /// Ends the guard's scope: releases through the wrapped handle —
    /// owed to succeed, since the handle's scope holds a lock as long as
    /// the guard lives — and gives the handle back.
    fn release_guard(&mut self, g: FileLockGuard) -> (h: Handle)
        requires
            old(self).inv(),
            old(self).is_open(g.wrapped()),
            old(self).holds_lock(g.wrapped()),
        ensures
            final(self).inv(),
            h == g.wrapped(),
            final(self).is_open(h),
            Self::unlock_spec(*old(self), *final(self), g.wrapped()),
            forall|h2: Handle| final(self).is_open(h2) == old(self).is_open(h2),
    ;
}

impl<T: FileExt> FileLock for T {
    fn lock_shared_guard(&mut self, h: Handle) -> (r: FileLockResult) {
        let res = self.lock_shared(&h);
        match res {
            Ok(()) => Ok(FileLockGuard { handle: h }),
            Err(e) => Err((h, e)),
        }
    }

    fn lock_exclusive_guard(&mut self, h: Handle) -> (r: FileLockResult) {
        let res = self.lock_exclusive(&h);
        match res {
            Ok(()) => Ok(FileLockGuard { handle: h }),
            Err(e) => Err((h, e)),
        }
    }

    fn try_lock_shared_guard(&mut self, h: Handle) -> (r: FileLockResult) {
        let res = self.try_lock_shared(&h);
        match res {
            Ok(()) => Ok(FileLockGuard { handle: h }),
            Err(e) => Err((h, e)),
        }
    }

    fn try_lock_exclusive_guard(&mut self, h: Handle) -> (r: FileLockResult) {
        let res = self.try_lock_exclusive(&h);
        match res {
            Ok(()) => Ok(FileLockGuard { handle: h }),
            Err(e) => Err((h, e)),
        }
    }

    fn release_guard(&mut self, g: FileLockGuard) -> (h: Handle) {
        let FileLockGuard { handle } = g;
        let res = self.unlock(&handle);
        match res {
            Ok(()) => handle,
            // a scope that holds a lock is owed a successful release
            Err(_) => unreached(),
        }
    }
}

} // verus!
