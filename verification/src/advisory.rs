//! The advisory lock family.
//!
//! Models flock-style whole-file locking.  A lock belongs to an open file
//! description — the scope that a handle shares with its duplicates — and
//! a new lock taken through the same scope replaces the one it held
//! instead of stacking.  A conversion is not atomic: by the time a
//! nonblocking request is denied, the lock its scope held before has
//! already been dropped.

use vstd::prelude::*;

use crate::guard::FileLockGuard;
use crate::FileExt;
use crate::Handle;
use crate::LockError;
use crate::LockKind;

verus! {

/// One stored file: its byte contents.
struct FileData {
    data: Vec<u8>,
}

/// One open file description: the lock scope of this family, shared by a
/// handle and its duplicates.  Carries the read/write cursor and at most
/// one lock.
struct Scope {
    file: usize,
    cursor: usize,
    lock: Option<LockKind>,
}

/// One descriptor slot: the scope it belongs to and whether it is open.
struct Slot {
    scope: usize,
    open: bool,
}

/// The advisory family's world: files, open file descriptions, and the
/// descriptor table that handles index into.
pub struct AdvisoryFs {
    files: Vec<FileData>,
    scopes: Vec<Scope>,
    slots: Vec<Slot>,
}

impl AdvisoryFs {
    /// Number of files.
    pub closed spec fn file_count(&self) -> int {
        self.files@.len() as int
    }

    /// `f` names a file.
    pub closed spec fn is_file(&self, f: usize) -> bool {
        (f as int) < self.file_count()
    }

    /// The bytes of file `f`.
    pub closed spec fn file_data(&self, f: int) -> Seq<u8> {
        self.files@[f].data@
    }

    /// Number of open file descriptions ever made.
    pub closed spec fn scope_count(&self) -> int {
        self.scopes@.len() as int
    }

    /// Number of descriptor slots ever made.
    pub closed spec fn slot_count(&self) -> int {
        self.slots@.len() as int
    }

    /// The open file description that `h` belongs to.
    pub closed spec fn scope_of(&self, h: Handle) -> int {
        self.slots@[h.id()].scope as int
    }

    /// The file that scope `o` refers to.
    pub closed spec fn scope_file(&self, o: int) -> int {
        self.scopes@[o].file as int
    }

    /// The lock that scope `o` holds, if any.
    pub closed spec fn scope_lock(&self, o: int) -> Option<LockKind> {
        self.scopes@[o].lock
    }

    /// The read/write cursor of scope `o`.
    pub closed spec fn scope_cursor(&self, o: int) -> int {
        self.scopes@[o].cursor as int
    }

    /// Scope `o` still has an open descriptor.
    pub closed spec fn scope_live(&self, o: int) -> bool {
        exists|i: int|
            0 <= i < self.slots@.len() && (#[trigger] self.slots@[i]).open && self.slots@[i].scope
                == o
    }

    /// The file that `h` refers to.
    pub open spec fn file_of(&self, h: Handle) -> int {
        self.scope_file(self.scope_of(h))
    }

    /// The lock that `h`'s scope holds, if any.
    pub open spec fn lock_state(&self, h: Handle) -> Option<LockKind> {
        self.scope_lock(self.scope_of(h))
    }

    /// The read/write cursor seen through `h`.
    pub open spec fn cursor(&self, h: Handle) -> int {
        self.scope_cursor(self.scope_of(h))
    }

    /// The bytes of the file that `h` refers to.
    pub open spec fn contents(&self, h: Handle) -> Seq<u8> {
        self.file_data(self.file_of(h))
    }

    /// `h1` and `h2` refer to the same file.
    pub open spec fn same_file(&self, h1: Handle, h2: Handle) -> bool {
        self.file_of(h1) == self.file_of(h2)
    }

    /// `h1` and `h2` belong to the same open file description: one is a
    /// duplicate of the other.
    pub open spec fn same_scope(&self, h1: Handle, h2: Handle) -> bool {
        self.scope_of(h1) == self.scope_of(h2)
    }

    /// Slot count, openness and scope membership of every handle agree
    /// between `pre` and `post`.
    pub open spec fn handles_unchanged(pre: Self, post: Self) -> bool {
        &&& post.slot_count() == pre.slot_count()
        &&& forall|h: Handle|
            (#[trigger] post.is_open(h)) == pre.is_open(h) && post.scope_of(h) == pre.scope_of(h)
    }

    /// File count and file contents agree between `pre` and `post`.
    pub open spec fn files_unchanged(pre: Self, post: Self) -> bool {
        &&& post.file_count() == pre.file_count()
        &&& forall|f: int|
            0 <= f < pre.file_count() ==> (#[trigger] post.file_data(f)) == pre.file_data(f)
    }

    /// Every open file description agrees between `pre` and `post`.
    pub open spec fn scopes_unchanged(pre: Self, post: Self) -> bool {
        &&& post.scope_count() == pre.scope_count()
        &&& forall|o: int|
            0 <= o < pre.scope_count() ==> (#[trigger] post.scope_file(o)) == pre.scope_file(o)
                && post.scope_cursor(o) == pre.scope_cursor(o) && post.scope_lock(o)
                == pre.scope_lock(o)
    }

    /// Everything agrees between `pre` and `post` but the lock of scope
    /// `o`, which is `l` after.
    pub open spec fn only_lock_changed(pre: Self, post: Self, o: int, l: Option<LockKind>) -> bool {
        &&& Self::handles_unchanged(pre, post)
        &&& Self::files_unchanged(pre, post)
        &&& post.scope_count() == pre.scope_count()
        &&& 0 <= o < pre.scope_count()
        &&& post.scope_lock(o) == l
        &&& forall|j: int|
            0 <= j < pre.scope_count() && j != o ==> (#[trigger] post.scope_lock(j))
                == pre.scope_lock(j)
        &&& forall|j: int|
            0 <= j < pre.scope_count() ==> (#[trigger] post.scope_file(j)) == pre.scope_file(j)
                && post.scope_cursor(j) == pre.scope_cursor(j)
    }

    /// The exact account of opening file `f`: a fresh scope on it, with
    /// cursor zero and no lock, and a fresh open handle in that scope.
    pub open spec fn open_spec(pre: Self, post: Self, f: usize, h: Handle) -> bool {
        &&& Self::files_unchanged(pre, post)
        &&& post.slot_count() == pre.slot_count() + 1
        &&& post.scope_count() == pre.scope_count() + 1
        &&& forall|o: int|
            0 <= o < pre.scope_count() ==> (#[trigger] post.scope_file(o)) == pre.scope_file(o)
                && post.scope_cursor(o) == pre.scope_cursor(o) && post.scope_lock(o)
                == pre.scope_lock(o)
        &&& forall|h2: Handle|
            0 <= h2.id() < pre.slot_count() ==> (#[trigger] post.is_open(h2)) == pre.is_open(h2)
                && post.scope_of(h2) == pre.scope_of(h2)
        &&& h.id() == pre.slot_count()
        &&& post.is_open(h)
        &&& post.scope_of(h) == pre.scope_count()
        &&& post.file_of(h) == f
        &&& post.cursor(h) == 0
        &&& post.lock_state(h) is None
    }

    /// The exact account of closing `h`: its slot is no longer open, and
    /// if no open descriptor remains in its scope, the scope's lock is
    /// gone with it.
    pub open spec fn close_spec(pre: Self, post: Self, h: Handle) -> bool {
        let o = pre.scope_of(h);
        &&& Self::files_unchanged(pre, post)
        &&& post.slot_count() == pre.slot_count()
        &&& !post.is_open(h)
        &&& forall|h2: Handle|
            h2.id() != h.id() ==> (#[trigger] post.is_open(h2)) == pre.is_open(h2)
        &&& forall|h2: Handle|
            0 <= h2.id() < pre.slot_count() ==> (#[trigger] post.scope_of(h2)) == pre.scope_of(h2)
        &&& post.scope_count() == pre.scope_count()
        &&& forall|j: int|
            0 <= j < pre.scope_count() ==> (#[trigger] post.scope_file(j)) == pre.scope_file(j)
                && post.scope_cursor(j) == pre.scope_cursor(j)
        &&& forall|j: int|
            0 <= j < pre.scope_count() && j != o ==> (#[trigger] post.scope_lock(j))
                == pre.scope_lock(j)
        &&& post.scope_lock(o) == (if post.scope_live(o) {
            pre.scope_lock(o)
        } else {
            None::<LockKind>
        })
    }

    /// The exact account of a write through `h`: the shared cursor moves
    /// past the written bytes — a duplicate of `h` sees it move too — and
    /// the file now holds `written(..)` of its old bytes.
    pub open spec fn write_spec(pre: Self, post: Self, h: Handle, buf: Seq<u8>) -> bool {
        let o = pre.scope_of(h);
        let f = pre.file_of(h);
        &&& Self::handles_unchanged(pre, post)
        &&& post.scope_count() == pre.scope_count()
        &&& forall|j: int|
            0 <= j < pre.scope_count() && j != o ==> (#[trigger] post.scope_file(j))
                == pre.scope_file(j) && post.scope_cursor(j) == pre.scope_cursor(j)
                && post.scope_lock(j) == pre.scope_lock(j)
        &&& post.scope_file(o) == pre.scope_file(o)
        &&& post.scope_lock(o) == pre.scope_lock(o)
        &&& post.scope_cursor(o) == pre.scope_cursor(o) + buf.len()
        &&& post.file_count() == pre.file_count()
        &&& forall|g: int|
            0 <= g < pre.file_count() && g != f ==> (#[trigger] post.file_data(g))
                == pre.file_data(g)
        &&& post.file_data(f) == crate::written(pre.file_data(f), pre.scope_cursor(o), buf)
    }

    /// The exact account of reading to the end through `h`: everything
    /// from the shared cursor to the end of the file comes out — nothing,
    /// if the cursor already sits at or past the end — and the cursor
    /// lands on the end of the file.
    pub open spec fn read_spec(pre: Self, post: Self, h: Handle, out: Seq<u8>) -> bool {
        let o = pre.scope_of(h);
        let data = pre.contents(h);
        let cur = pre.scope_cursor(o);
        &&& Self::handles_unchanged(pre, post)
        &&& Self::files_unchanged(pre, post)
        &&& post.scope_count() == pre.scope_count()
        &&& forall|j: int|
            0 <= j < pre.scope_count() && j != o ==> (#[trigger] post.scope_file(j))
                == pre.scope_file(j) && post.scope_cursor(j) == pre.scope_cursor(j)
                && post.scope_lock(j) == pre.scope_lock(j)
        &&& post.scope_file(o) == pre.scope_file(o)
        &&& post.scope_lock(o) == pre.scope_lock(o)
        &&& out == (if cur <= data.len() {
            data.subrange(cur, data.len() as int)
        } else {
            Seq::<u8>::empty()
        })
        &&& post.scope_cursor(o) == (if cur <= data.len() {
            data.len() as int
        } else {
            cur
        })
    }

    /// The exact account of a seek through `h` to `pos` from the start of
    /// the file: only the shared cursor moves.
    pub open spec fn seek_spec(pre: Self, post: Self, h: Handle, pos: int) -> bool {
        let o = pre.scope_of(h);
        &&& Self::handles_unchanged(pre, post)
        &&& Self::files_unchanged(pre, post)
        &&& post.scope_count() == pre.scope_count()
        &&& forall|j: int|
            0 <= j < pre.scope_count() && j != o ==> (#[trigger] post.scope_file(j))
                == pre.scope_file(j) && post.scope_cursor(j) == pre.scope_cursor(j)
                && post.scope_lock(j) == pre.scope_lock(j)
        &&& post.scope_file(o) == pre.scope_file(o)
        &&& post.scope_lock(o) == pre.scope_lock(o)
        &&& post.scope_cursor(o) == pos
    }
}

impl FileExt for AdvisoryFs {
    closed spec fn inv(&self) -> bool {
        &&& forall|i: int|
            0 <= i < self.slots@.len() ==> (#[trigger] self.slots@[i]).scope < self.scopes@.len()
        &&& forall|o: int|
            0 <= o < self.scopes@.len() ==> (#[trigger] self.scopes@[o]).file < self.files@.len()
        &&& forall|o1: int, o2: int|
            0 <= o1 < self.scope_count() && 0 <= o2 < self.scope_count() && o1 != o2
                && (#[trigger] self.scope_lock(o1)) == Some(LockKind::Exclusive) && (
            #[trigger] self.scope_file(o2)) == self.scope_file(o1) ==> self.scope_lock(o2) is None
        &&& forall|o: int|
            0 <= o < self.scope_count() && (#[trigger] self.scope_lock(o)) is Some
                ==> self.scope_live(o)
    }

    closed spec fn is_open(&self, h: Handle) -> bool {
        0 <= h.id() < self.slots@.len() && self.slots@[h.id()].open
    }

    open spec fn holds_lock(&self, h: Handle) -> bool {
        self.lock_state(h) is Some
    }

    /// Granted unless another scope holds an exclusive lock on the file.
    open spec fn shared_grantable(&self, h: Handle) -> bool {
        forall|o: int|
            0 <= o < self.scope_count() && o != self.scope_of(h) && (#[trigger] self.scope_file(o))
                == self.file_of(h) ==> self.scope_lock(o) != Some(LockKind::Exclusive)
    }

    /// Granted unless another scope holds any lock on the file.  The
    /// requesting scope's own lock does not count: the conversion drops it
    /// first.
    open spec fn exclusive_grantable(&self, h: Handle) -> bool {
        forall|o: int|
            0 <= o < self.scope_count() && o != self.scope_of(h) && (#[trigger] self.scope_file(o))
                == self.file_of(h) ==> self.scope_lock(o) is None
    }

    /// This family keeps at most one lock per scope: nothing to run out of.
    open spec fn can_record(&self, h: Handle, kind: LockKind) -> bool {
        true
    }

    /// A granted request leaves the scope holding exactly the requested
    /// lock; a denied one leaves it holding nothing, the lock it held
    /// before having been dropped by the attempted conversion.  A request
    /// is granted if and only if the family's grant condition held.
    open spec fn lock_spec(pre: Self, post: Self, h: Handle, kind: LockKind, granted: bool) -> bool {
        &&& granted == (if kind == LockKind::Shared {
            pre.shared_grantable(h)
        } else {
            pre.exclusive_grantable(h)
        })
        &&& Self::only_lock_changed(
            pre,
            post,
            pre.scope_of(h),
            if granted {
                Some(kind)
            } else {
                None::<LockKind>
            },
        )
    }

    /// A release leaves the scope holding nothing, whether or not it held
    /// a lock.
    open spec fn unlock_spec(pre: Self, post: Self, h: Handle) -> bool {
        Self::only_lock_changed(pre, post, pre.scope_of(h), None::<LockKind>)
    }

    /// Never returned: a release always succeeds in this family.
    open spec fn unlock_error(pre: Self, h: Handle) -> LockError {
        LockError::System(0)
    }

    /// The new handle joins `h`'s scope: it shares the cursor and the
    /// lock, and releasing through either releases for both.
    open spec fn duplicate_spec(pre: Self, post: Self, h: Handle, d: Handle) -> bool {
        &&& Self::files_unchanged(pre, post)
        &&& Self::scopes_unchanged(pre, post)
        &&& post.slot_count() == pre.slot_count() + 1
        &&& forall|h2: Handle|
            0 <= h2.id() < pre.slot_count() ==> (#[trigger] post.is_open(h2)) == pre.is_open(h2)
                && post.scope_of(h2) == pre.scope_of(h2)
        &&& d.id() == pre.slot_count()
        &&& post.is_open(d)
        &&& post.scope_of(d) == pre.scope_of(h)
    }

    fn duplicate(&mut self, h: &Handle) -> (r: Result<Handle, LockError>) {
        let sc = self.slots[h.id].scope;
        let id = self.slots.len();
        self.slots.push(Slot { scope: sc, open: true });
        proof {
            assert(self.slots@[h.id()] == old(self).slots@[h.id()]);
            assert forall|i: int| 0 <= i < self.slots@.len() implies (
            #[trigger] self.slots@[i]).scope < self.scopes@.len() by {
                if i < old(self).slots@.len() {
                    assert(self.slots@[i] == old(self).slots@[i]);
                } else {
                    assert(self.slots@[i] == (Slot { scope: sc, open: true }));
                    assert(old(self).slots@[h.id()].scope < old(self).scopes@.len());
                }
            }
            assert forall|o: int|
                0 <= o < self.scope_count() && (#[trigger] self.scope_lock(o)) is Some implies self
                .scope_live(o) by {
                assert(self.scopes@ == old(self).scopes@);
                assert(old(self).scope_lock(o) is Some);
                assert(old(self).scope_live(o));
                let i = choose|i: int|
                    0 <= i < old(self).slots@.len() && (#[trigger] old(self).slots@[i]).open && old(
                    self,
                ).slots@[i].scope == o;
                assert(self.slots@[i] == old(self).slots@[i]);
            }
            assert forall|h2: Handle| 0 <= h2.id() < old(self).slot_count() implies (
            #[trigger] self.is_open(h2)) == old(self).is_open(h2) && self.scope_of(h2) == old(
                self,
            ).scope_of(h2) by {
                assert(self.slots@[h2.id()] == old(self).slots@[h2.id()]);
            }
            assert(forall|o: int|
                0 <= o < self.scopes@.len() ==> (#[trigger] self.scopes@[o]).file
                    < self.files@.len());
            assert forall|o1: int, o2: int|
                0 <= o1 < self.scope_count() && 0 <= o2 < self.scope_count() && o1 != o2 && (
                #[trigger] self.scope_lock(o1)) == Some(LockKind::Exclusive) && (
                #[trigger] self.scope_file(o2)) == self.scope_file(o1) implies self.scope_lock(
                o2,
            ) is None by {
                assert(old(self).scope_lock(o1) == self.scope_lock(o1));
                assert(old(self).scope_file(o1) == self.scope_file(o1));
                assert(old(self).scope_file(o2) == self.scope_file(o2));
                assert(old(self).scope_lock(o2) == self.scope_lock(o2));
            }
            assert(self.inv());
        }
        Ok(Handle { id })
    }

    fn lock_shared(&mut self, h: &Handle) -> (r: Result<(), LockError>) {
        self.try_lock_shared(h)
    }

    fn lock_exclusive(&mut self, h: &Handle) -> (r: Result<(), LockError>) {
        self.try_lock_exclusive(h)
    }

    fn try_lock_shared(&mut self, h: &Handle) -> (r: Result<(), LockError>) {
        let sc = self.slots[h.id].scope;
        let f = self.scopes[sc].file;
        proof {
            assert(sc as int == old(self).scope_of(*h));
            assert(f as int == old(self).file_of(*h));
        }
        // the conversion drops the lock this scope held before deciding
        self.set_lock(sc, None);
        let ghost mid = *self;
        proof {
            assert(mid.slots@[h.id()].open && mid.slots@[h.id()].scope == sc);
            assert(mid.scope_live(sc as int));
        }
        let conflict = self.scan_conflict(sc, f, LockKind::Shared);
        if conflict {
            proof {
                let o = choose|o: int|
                    0 <= o < mid.scope_count() && o != sc && (#[trigger] mid.scope_file(o)) == f
                        && mid.scope_lock(o) == Some(LockKind::Exclusive);
                assert(old(self).scope_lock(o) == Some(LockKind::Exclusive));
                assert(old(self).scope_file(o) == f);
                assert(!old(self).shared_grantable(*h));
            }
            Err(LockError::Contended)
        } else {
            proof {
                assert forall|o: int|
                    0 <= o < old(self).scope_count() && o != old(self).scope_of(*h) && (
                    #[trigger] old(self).scope_file(o)) == old(self).file_of(*h) implies old(
                    self,
                ).scope_lock(o) != Some(LockKind::Exclusive) by {
                    assert(mid.scope_file(o) == old(self).scope_file(o));
                    assert(mid.scope_lock(o) == old(self).scope_lock(o));
                }
                assert(old(self).shared_grantable(*h));
                assert forall|o: int|
                    0 <= o < mid.scope_count() && o != sc && (#[trigger] mid.scope_file(o))
                        == mid.scope_file(sc as int) implies mid.scope_lock(o) != Some(
                    LockKind::Exclusive,
                ) by {
                    assert(old(self).scope_file(o) == mid.scope_file(o));
                    assert(old(self).scope_lock(o) == mid.scope_lock(o));
                }
            }
            self.set_lock(sc, Some(LockKind::Shared));
            Ok(())
        }
    }

    fn try_lock_exclusive(&mut self, h: &Handle) -> (r: Result<(), LockError>) {
        let sc = self.slots[h.id].scope;
        let f = self.scopes[sc].file;
        proof {
            assert(sc as int == old(self).scope_of(*h));
            assert(f as int == old(self).file_of(*h));
        }
        // the conversion drops the lock this scope held before deciding
        self.set_lock(sc, None);
        let ghost mid = *self;
        proof {
            assert(mid.slots@[h.id()].open && mid.slots@[h.id()].scope == sc);
            assert(mid.scope_live(sc as int));
        }
        let conflict = self.scan_conflict(sc, f, LockKind::Exclusive);
        if conflict {
            proof {
                let o = choose|o: int|
                    0 <= o < mid.scope_count() && o != sc && (#[trigger] mid.scope_file(o)) == f
                        && mid.scope_lock(o) is Some;
                assert(old(self).scope_lock(o) is Some);
                assert(old(self).scope_file(o) == f);
                assert(!old(self).exclusive_grantable(*h));
            }
            Err(LockError::Contended)
        } else {
            proof {
                assert forall|o: int|
                    0 <= o < old(self).scope_count() && o != old(self).scope_of(*h) && (
                    #[trigger] old(self).scope_file(o)) == old(self).file_of(*h) implies old(
                    self,
                ).scope_lock(o) is None by {
                    assert(mid.scope_file(o) == old(self).scope_file(o));
                    assert(mid.scope_lock(o) == old(self).scope_lock(o));
                }
                assert(old(self).exclusive_grantable(*h));
                assert forall|o: int|
                    0 <= o < mid.scope_count() && o != sc && (#[trigger] mid.scope_file(o))
                        == mid.scope_file(sc as int) implies mid.scope_lock(o) is None by {
                    assert(old(self).scope_file(o) == mid.scope_file(o));
                    assert(old(self).scope_lock(o) == mid.scope_lock(o));
                }
            }
            self.set_lock(sc, Some(LockKind::Exclusive));
            Ok(())
        }
    }

    fn unlock(&mut self, h: &Handle) -> (r: Result<(), LockError>) {
        let sc = self.slots[h.id].scope;
        proof {
            assert(sc as int == old(self).scope_of(*h));
        }
        self.set_lock(sc, None);
        Ok(())
    }
}

impl AdvisoryFs {
    /// Replaces the lock of scope `sc`, leaving everything else unchanged.
    /// The caller supplies the grant conditions that keep the state
    /// well-formed: a new lock goes only to a live scope, a shared lock
    /// only where no other scope holds the file exclusively, an exclusive
    /// lock only where no other scope holds the file at all.
    fn set_lock(&mut self, sc: usize, l: Option<LockKind>)
        requires
            (sc as int) < old(self).scope_count(),
            old(self).inv(),
            l is Some ==> old(self).scope_live(sc as int),
            l == Some(LockKind::Shared) ==> forall|o: int|
                0 <= o < old(self).scope_count() && o != sc && (#[trigger] old(self).scope_file(o))
                    == old(self).scope_file(sc as int) ==> old(self).scope_lock(o) != Some(
                    LockKind::Exclusive,
                ),
            l == Some(LockKind::Exclusive) ==> forall|o: int|
                0 <= o < old(self).scope_count() && o != sc && (#[trigger] old(self).scope_file(o))
                    == old(self).scope_file(sc as int) ==> old(self).scope_lock(o) is None,
        ensures
            final(self).inv(),
            Self::only_lock_changed(*old(self), *final(self), sc as int, l),
            final(self).slots@ == old(self).slots@,
            final(self).files@ == old(self).files@,
    {
        let file = self.scopes[sc].file;
        let cursor = self.scopes[sc].cursor;
        self.scopes.set(sc, Scope { file, cursor, lock: l });
        proof {
            assert forall|o1: int, o2: int|
                0 <= o1 < self.scope_count() && 0 <= o2 < self.scope_count() && o1 != o2 && (
                #[trigger] self.scope_lock(o1)) == Some(LockKind::Exclusive) && (
                #[trigger] self.scope_file(o2)) == self.scope_file(o1) implies self.scope_lock(
                o2,
            ) is None by {
                assert(self.scope_file(sc as int) == old(self).scope_file(sc as int));
                assert(old(self).scope_file(o1) == self.scope_file(o1));
                assert(old(self).scope_file(o2) == self.scope_file(o2));
                if o1 == sc as int {
                    // the new lock is exclusive, so every other scope on
                    // the file held nothing
                    assert(l == Some(LockKind::Exclusive));
                    assert(old(self).scope_file(o2) == old(self).scope_file(sc as int));
                    assert(old(self).scope_lock(o2) is None);
                    assert(self.scope_lock(o2) == old(self).scope_lock(o2));
                    assert(self.scope_lock(o2) is None);
                } else if o2 == sc as int {
                    assert(self.scope_lock(o2) == l);
                    assert(old(self).scope_lock(o1) == self.scope_lock(o1));
                    assert(old(self).scope_file(o1) == old(self).scope_file(sc as int));
                    // either grant condition rules this exclusive holder out
                    match l {
                        Some(LockKind::Shared) => {
                            assert(old(self).scope_lock(o1) != Some(LockKind::Exclusive));
                            assert(false);
                        },
                        Some(LockKind::Exclusive) => {
                            assert(old(self).scope_lock(o1) is None);
                            assert(false);
                        },
                        None => {},
                    }
                    assert(self.scope_lock(o2) is None);
                } else {
                    assert(old(self).scope_lock(o1) == self.scope_lock(o1));
                    assert(old(self).scope_lock(o2) == self.scope_lock(o2));
                    assert(old(self).scope_lock(o2) is None);
                    assert(self.scope_lock(o2) is None);
                }
                assert(self.scope_lock(o2) is None);
            }
            assert forall|o: int|
                0 <= o < self.scope_count() && (#[trigger] self.scope_lock(o)) is Some implies self
                .scope_live(o) by {
                if o != sc || l is Some {
                    if o != sc {
                        assert(old(self).scope_lock(o) == self.scope_lock(o));
                    }
                    assert(old(self).scope_live(o));
                    let i = choose|i: int|
                        0 <= i < old(self).slots@.len() && (#[trigger] old(self).slots@[i]).open
                            && old(self).slots@[i].scope == o;
                    assert(self.slots@[i] == old(self).slots@[i]);
                }
            }
        }
    }

    /// Scans for a scope other than `sc` holding a lock on file `f` that
    /// conflicts with a request of the given kind: any lock conflicts with
    /// an exclusive request, an exclusive lock with a shared one.
    fn scan_conflict(&self, sc: usize, f: usize, kind: LockKind) -> (c: bool)
        ensures
            c <==> exists|o: int|
                0 <= o < self.scope_count() && o != sc && (#[trigger] self.scope_file(o)) == f && (
                if kind == LockKind::Shared {
                    self.scope_lock(o) == Some(LockKind::Exclusive)
                } else {
                    self.scope_lock(o) is Some
                }),
    {
        let exclusive_request = match kind {
            LockKind::Shared => false,
            LockKind::Exclusive => true,
        };
        let mut i: usize = 0;
        let mut c = false;
        while i < self.scopes.len()
            invariant
                i <= self.scopes.len(),
                exclusive_request == (kind == LockKind::Exclusive),
                c <==> exists|o: int|
                    0 <= o < i && o != sc && (#[trigger] self.scope_file(o)) == f && (
                    if kind == LockKind::Shared {
                        self.scope_lock(o) == Some(LockKind::Exclusive)
                    } else {
                        self.scope_lock(o) is Some
                    }),
            decreases self.scopes.len() - i,
        {
            proof {
                assert(self.scope_file(i as int) == self.scopes@[i as int].file);
                assert(self.scope_lock(i as int) == self.scopes@[i as int].lock);
            }
            if i != sc && self.scopes[i].file == f {
                let hit = match self.scopes[i].lock {
                    Option::None => false,
                    Option::Some(LockKind::Shared) => exclusive_request,
                    Option::Some(LockKind::Exclusive) => true,
                };
                if hit {
                    c = true;
                }
            }
            i = i + 1;
        }
        c
    }

    /// Scans for an open descriptor of scope `sc` in a slot other than
    /// `skip`.
    fn scan_live_except(&self, sc: usize, skip: usize) -> (b: bool)
        ensures
            b <==> exists|k: int|
                0 <= k < self.slots@.len() && k != skip && (#[trigger] self.slots@[k]).open
                    && self.slots@[k].scope == sc,
    {
        let mut i: usize = 0;
        let mut b = false;
        while i < self.slots.len()
            invariant
                i <= self.slots@.len(),
                b <==> exists|k: int|
                    0 <= k < i && k != skip && (#[trigger] self.slots@[k]).open
                        && self.slots@[k].scope == sc,
            decreases self.slots@.len() - i,
        {
            if i != skip && self.slots[i].open && self.slots[i].scope == sc {
                b = true;
            }
            i = i + 1;
        }
        b
    }

    /// One byte of file `f`.
    fn file_byte(&self, f: usize, i: usize) -> (b: u8)
        requires
            self.is_file(f),
            (i as int) < self.file_data(f as int).len(),
        ensures
            b == self.file_data(f as int)[i as int],
    {
        self.files[f].data[i]
    }

    /// An empty world: no files, no scopes, no descriptors.
    pub fn new() -> (fs: AdvisoryFs)
        ensures
            fs.inv(),
            fs.file_count() == 0,
            fs.scope_count() == 0,
            fs.slot_count() == 0,
    {
        AdvisoryFs { files: Vec::new(), scopes: Vec::new(), slots: Vec::new() }
    }

    /// Makes a new, empty file and returns its name.  Stands in for the
    /// host's file-creation facility, which is outside the locking layer.
    pub fn create_file(&mut self) -> (f: usize)
        requires
            old(self).inv(),
        ensures
            final(self).inv(),
            f as int == old(self).file_count(),
            final(self).file_count() == old(self).file_count() + 1,
            final(self).is_file(f),
            final(self).file_data(f as int) == Seq::<u8>::empty(),
            forall|g: int|
                0 <= g < old(self).file_count() ==> (#[trigger] final(self).file_data(g)) == old(
                    self,
                ).file_data(g),
            Self::handles_unchanged(*old(self), *final(self)),
            Self::scopes_unchanged(*old(self), *final(self)),
    {
        let f = self.files.len();
        self.files.push(FileData { data: Vec::new() });
        proof {
            assert forall|o: int|
                0 <= o < self.scope_count() && (#[trigger] self.scope_lock(o)) is Some implies self
                .scope_live(o) by {
                assert(old(self).scope_lock(o) is Some);
                assert(old(self).scope_live(o));
                let i = choose|i: int|
                    0 <= i < old(self).slots@.len() && (#[trigger] old(self).slots@[i]).open && old(
                    self,
                ).slots@[i].scope == o;
                assert(self.slots@[i] == old(self).slots@[i]);
            }
            assert forall|o1: int, o2: int|
                0 <= o1 < self.scope_count() && 0 <= o2 < self.scope_count() && o1 != o2 && (
                #[trigger] self.scope_lock(o1)) == Some(LockKind::Exclusive) && (
                #[trigger] self.scope_file(o2)) == self.scope_file(o1) implies self.scope_lock(
                o2,
            ) is None by {
                assert(old(self).scope_lock(o1) == self.scope_lock(o1));
                assert(old(self).scope_file(o1) == self.scope_file(o1));
                assert(old(self).scope_file(o2) == self.scope_file(o2));
                assert(old(self).scope_lock(o2) == self.scope_lock(o2));
            }
            assert forall|g: int| 0 <= g < old(self).file_count() implies (
            #[trigger] self.file_data(g)) == old(self).file_data(g) by {
                assert(self.files@[g] == old(self).files@[g]);
            }
        }
        f
    }

    /// Opens file `f`: a fresh scope with its cursor at the start and no
    /// lock, and a fresh handle in it.  Stands in for the host's
    /// file-open facility, which is outside the locking layer.
    pub fn open(&mut self, f: usize) -> (h: Handle)
        requires
            old(self).inv(),
            old(self).is_file(f),
        ensures
            final(self).inv(),
            Self::open_spec(*old(self), *final(self), f, h),
    {
        let o = self.scopes.len();
        self.scopes.push(Scope { file: f, cursor: 0, lock: None });
        let id = self.slots.len();
        self.slots.push(Slot { scope: o, open: true });
        proof {
            assert forall|i: int| 0 <= i < self.slots@.len() implies (
            #[trigger] self.slots@[i]).scope < self.scopes@.len() by {
                if i < old(self).slots@.len() {
                    assert(self.slots@[i] == old(self).slots@[i]);
                } else {
                    assert(self.slots@[i] == (Slot { scope: o, open: true }));
                }
            }
            assert forall|j: int| 0 <= j < self.scopes@.len() implies (
            #[trigger] self.scopes@[j]).file < self.files@.len() by {
                if j < old(self).scopes@.len() {
                    assert(self.scopes@[j] == old(self).scopes@[j]);
                } else {
                    assert(self.scopes@[j] == (Scope { file: f, cursor: 0, lock: None }));
                }
            }
            assert forall|o1: int, o2: int|
                0 <= o1 < self.scope_count() && 0 <= o2 < self.scope_count() && o1 != o2 && (
                #[trigger] self.scope_lock(o1)) == Some(LockKind::Exclusive) && (
                #[trigger] self.scope_file(o2)) == self.scope_file(o1) implies self.scope_lock(
                o2,
            ) is None by {
                if o1 < old(self).scope_count() && o2 < old(self).scope_count() {
                    assert(old(self).scope_lock(o1) == self.scope_lock(o1));
                    assert(old(self).scope_file(o1) == self.scope_file(o1));
                    assert(old(self).scope_file(o2) == self.scope_file(o2));
                    assert(old(self).scope_lock(o2) == self.scope_lock(o2));
                } else {
                    assert(self.scopes@[old(self).scope_count()] == (Scope {
                        file: f,
                        cursor: 0,
                        lock: None,
                    }));
                }
            }
            assert forall|j: int|
                0 <= j < self.scope_count() && (#[trigger] self.scope_lock(j)) is Some implies self
                .scope_live(j) by {
                if j < old(self).scope_count() {
                    assert(old(self).scope_lock(j) == self.scope_lock(j));
                    assert(old(self).scope_live(j));
                    let i = choose|i: int|
                        0 <= i < old(self).slots@.len() && (#[trigger] old(self).slots@[i]).open
                            && old(self).slots@[i].scope == j;
                    assert(self.slots@[i] == old(self).slots@[i]);
                } else {
                    assert(self.scopes@[j] == (Scope { file: f, cursor: 0, lock: None }));
                }
            }
            assert forall|o2: int| 0 <= o2 < old(self).scope_count() implies (
            #[trigger] self.scope_file(o2)) == old(self).scope_file(o2) && self.scope_cursor(o2)
                == old(self).scope_cursor(o2) && self.scope_lock(o2) == old(self).scope_lock(
                o2,
            ) by {
                assert(self.scopes@[o2] == old(self).scopes@[o2]);
            }
            assert forall|h2: Handle| 0 <= h2.id() < old(self).slot_count() implies (
            #[trigger] self.is_open(h2)) == old(self).is_open(h2) && self.scope_of(h2) == old(
                self,
            ).scope_of(h2) by {
                assert(self.slots@[h2.id()] == old(self).slots@[h2.id()]);
            }
        }
        Handle { id }
    }

    /// Closes `h`, consuming it.  If `h` was its scope's last open
    /// descriptor, the lock the scope held is released with it.
    pub fn close(&mut self, h: Handle)
        requires
            old(self).inv(),
            old(self).is_open(h),
        ensures
            final(self).inv(),
            Self::close_spec(*old(self), *final(self), h),
    {
        let sc = self.slots[h.id].scope;
        proof {
            assert(sc as int == old(self).scope_of(h));
        }
        let live = self.scan_live_except(sc, h.id);
        self.slots.set(h.id, Slot { scope: sc, open: false });
        let ghost mid = *self;
        proof {
            assert forall|h2: Handle| h2.id() != h.id() implies (#[trigger] mid.is_open(h2)) == old(
                self,
            ).is_open(h2) by {
                if 0 <= h2.id() < old(self).slots@.len() {
                    assert(mid.slots@[h2.id()] == old(self).slots@[h2.id()]);
                }
            }
            assert forall|h2: Handle| 0 <= h2.id() < old(self).slot_count() implies (
            #[trigger] mid.scope_of(h2)) == old(self).scope_of(h2) by {
                if h2.id() != h.id() {
                    assert(mid.slots@[h2.id()] == old(self).slots@[h2.id()]);
                } else {
                    assert(mid.slots@[h2.id()] == (Slot { scope: sc, open: false }));
                }
            }
            assert(mid.scope_live(sc as int) <==> live) by {
                if live {
                    let k = choose|k: int|
                        0 <= k < old(self).slots@.len() && k != h.id() && (#[trigger] old(
                            self,
                        ).slots@[k]).open && old(self).slots@[k].scope == sc;
                    assert(mid.slots@[k] == old(self).slots@[k]);
                    assert(mid.scope_live(sc as int));
                }
                if mid.scope_live(sc as int) {
                    let k = choose|k: int|
                        0 <= k < mid.slots@.len() && (#[trigger] mid.slots@[k]).open
                            && mid.slots@[k].scope == sc;
                    assert(k != h.id());
                    assert(old(self).slots@[k] == mid.slots@[k]);
                }
            }
            // scopes other than sc stay live through the close
            assert forall|j: int|
                0 <= j < mid.scope_count() && j != sc && (#[trigger] mid.scope_lock(j))
                    is Some implies mid.scope_live(j) by {
                assert(old(self).scope_lock(j) == mid.scope_lock(j));
                assert(old(self).scope_live(j));
                let i = choose|i: int|
                    0 <= i < old(self).slots@.len() && (#[trigger] old(self).slots@[i]).open && old(
                    self,
                ).slots@[i].scope == j;
                assert(i != h.id());
                assert(mid.slots@[i] == old(self).slots@[i]);
            }
        }
        if !live {
            // the last descriptor is gone: the lock goes with it
            let file = self.scopes[sc].file;
            let cursor = self.scopes[sc].cursor;
            self.scopes.set(sc, Scope { file, cursor, lock: None });
        }
        proof {
            assert(self.slots@ == mid.slots@);
            assert forall|o1: int, o2: int|
                0 <= o1 < self.scope_count() && 0 <= o2 < self.scope_count() && o1 != o2 && (
                #[trigger] self.scope_lock(o1)) == Some(LockKind::Exclusive) && (
                #[trigger] self.scope_file(o2)) == self.scope_file(o1) implies self.scope_lock(
                o2,
            ) is None by {
                assert(old(self).scope_file(o1) == self.scope_file(o1));
                assert(old(self).scope_file(o2) == self.scope_file(o2));
                if o1 != sc as int {
                    assert(old(self).scope_lock(o1) == self.scope_lock(o1));
                }
                if o2 != sc as int {
                    assert(old(self).scope_lock(o2) == self.scope_lock(o2));
                } else {
                    if !live {
                        assert(self.scope_lock(o2) is None);
                    } else {
                        assert(self.scope_lock(o2) == old(self).scope_lock(o2));
                    }
                }
                if o1 == sc as int {
                    assert(self.scope_lock(o1) == old(self).scope_lock(o1));
                }
            }
            assert forall|j: int|
                0 <= j < self.scope_count() && (#[trigger] self.scope_lock(j)) is Some implies self
                .scope_live(j) by {
                assert(mid.scope_live(j) == self.scope_live(j));
                if j != sc as int {
                    assert(mid.scope_lock(j) == self.scope_lock(j));
                } else {
                    if !live {
                        assert(self.scope_lock(j) is None);
                    } else {
                        assert(mid.scope_live(sc as int));
                    }
                }
            }
            assert forall|i: int| 0 <= i < self.slots@.len() implies (
            #[trigger] self.slots@[i]).scope < self.scopes@.len() by {
                if i != h.id() {
                    assert(self.slots@[i] == old(self).slots@[i]);
                } else {
                    assert(self.slots@[i] == (Slot { scope: sc, open: false }));
                }
            }
        }
    }

    /// Writes `buf` through `h` at the shared cursor, extending the file
    /// with zeroes first if the cursor sits past its end, and moves the
    /// cursor past the written bytes.
    pub fn write(&mut self, h: &Handle, buf: &[u8])
        requires
            old(self).inv(),
            old(self).is_open(*h),
            old(self).cursor(*h) + buf@.len() <= usize::MAX,
        ensures
            final(self).inv(),
            Self::write_spec(*old(self), *final(self), *h, buf@),
    {
        let sc = self.slots[h.id].scope;
        let f = self.scopes[sc].file;
        let cur = self.scopes[sc].cursor;
        proof {
            assert(sc as int == old(self).scope_of(*h));
            assert(f as int == old(self).file_of(*h));
            assert(cur as int == old(self).scope_cursor(sc as int));
        }
        let end = cur + buf.len();
        let old_len = self.files[f].data.len();
        let total = if old_len > end {
            old_len
        } else {
            end
        };
        let ghost goal = crate::written(old(self).file_data(f as int), cur as int, buf@);
        let mut nd: Vec<u8> = Vec::new();
        let mut i: usize = 0;
        while i < total
            invariant
                i <= total,
                *self == *old(self),
                old(self).inv(),
                sc as int == old(self).scope_of(*h),
                f as int == old(self).file_of(*h),
                (f as int) < old(self).file_count(),
                cur as int == old(self).scope_cursor(sc as int),
                cur + buf@.len() == end,
                end <= usize::MAX,
                old_len == old(self).file_data(f as int).len(),
                total == if old_len > end {
                    old_len
                } else {
                    end
                },
                goal == crate::written(old(self).file_data(f as int), cur as int, buf@),
                goal.len() == total,
                nd@.len() == i as int,
                forall|k: int| 0 <= k < i ==> nd@[k] == goal[k],
            decreases total - i,
        {
            let b: u8;
            if cur <= i && i < end {
                b = buf[i - cur];
            } else if i < old_len {
                b = self.file_byte(f, i);
            } else {
                b = 0;
            }
            proof {
                assert(b == goal[i as int]);
            }
            nd.push(b);
            i = i + 1;
        }
        self.files.set(f, FileData { data: nd });
        let lock = self.scopes[sc].lock;
        self.scopes.set(sc, Scope { file: f, cursor: end, lock });
        proof {
            assert(self.file_data(f as int) =~= goal);
            assert(self.slots@ == old(self).slots@);
            assert forall|o1: int, o2: int|
                0 <= o1 < self.scope_count() && 0 <= o2 < self.scope_count() && o1 != o2 && (
                #[trigger] self.scope_lock(o1)) == Some(LockKind::Exclusive) && (
                #[trigger] self.scope_file(o2)) == self.scope_file(o1) implies self.scope_lock(
                o2,
            ) is None by {
                assert(old(self).scope_file(o1) == self.scope_file(o1));
                assert(old(self).scope_file(o2) == self.scope_file(o2));
                assert(old(self).scope_lock(o1) == self.scope_lock(o1));
                assert(old(self).scope_lock(o2) == self.scope_lock(o2));
            }
            assert forall|j: int|
                0 <= j < self.scope_count() && (#[trigger] self.scope_lock(j)) is Some implies self
                .scope_live(j) by {
                assert(old(self).scope_lock(j) == self.scope_lock(j));
                assert(old(self).scope_live(j));
                let k = choose|k: int|
                    0 <= k < old(self).slots@.len() && (#[trigger] old(self).slots@[k]).open && old(
                    self,
                ).slots@[k].scope == j;
                assert(self.slots@[k] == old(self).slots@[k]);
            }
            assert forall|g: int| 0 <= g < old(self).file_count() && g != f implies (
            #[trigger] self.file_data(g)) == old(self).file_data(g) by {
                assert(self.files@[g] == old(self).files@[g]);
            }
        }
    }

    /// Reads through `h` from the shared cursor to the end of the file,
    /// leaving the cursor at the end.  A cursor at or past the end yields
    /// nothing.
    pub fn read_to_end(&mut self, h: &Handle) -> (out: Vec<u8>)
        requires
            old(self).inv(),
            old(self).is_open(*h),
        ensures
            final(self).inv(),
            Self::read_spec(*old(self), *final(self), *h, out@),
    {
        let sc = self.slots[h.id].scope;
        let f = self.scopes[sc].file;
        let cur = self.scopes[sc].cursor;
        proof {
            assert(sc as int == old(self).scope_of(*h));
            assert(f as int == old(self).file_of(*h));
            assert(cur as int == old(self).scope_cursor(sc as int));
        }
        let len = self.files[f].data.len();
        let mut out: Vec<u8> = Vec::new();
        if cur < len {
            let mut i: usize = cur;
            while i < len
                invariant
                    cur <= i <= len,
                    *self == *old(self),
                    old(self).inv(),
                    (f as int) < old(self).file_count(),
                    len == old(self).file_data(f as int).len(),
                    out@.len() == i - cur,
                    forall|k: int|
                        0 <= k < out@.len() ==> out@[k] == old(self).file_data(f as int)[cur + k],
                decreases len - i,
            {
                let b = self.file_byte(f, i);
                out.push(b);
                i = i + 1;
            }
            let lock = self.scopes[sc].lock;
            self.scopes.set(sc, Scope { file: f, cursor: len, lock });
        }
        proof {
            let data = old(self).contents(*h);
            if cur < len {
                assert(out@ =~= data.subrange(cur as int, data.len() as int));
            } else {
                assert(out@ =~= Seq::<u8>::empty());
                if cur as int <= data.len() {
                    assert(out@ =~= data.subrange(cur as int, data.len() as int));
                }
            }
            assert(self.slots@ == old(self).slots@);
            assert(self.files@ == old(self).files@);
            assert forall|o1: int, o2: int|
                0 <= o1 < self.scope_count() && 0 <= o2 < self.scope_count() && o1 != o2 && (
                #[trigger] self.scope_lock(o1)) == Some(LockKind::Exclusive) && (
                #[trigger] self.scope_file(o2)) == self.scope_file(o1) implies self.scope_lock(
                o2,
            ) is None by {
                assert(old(self).scope_file(o1) == self.scope_file(o1));
                assert(old(self).scope_file(o2) == self.scope_file(o2));
                assert(old(self).scope_lock(o1) == self.scope_lock(o1));
                assert(old(self).scope_lock(o2) == self.scope_lock(o2));
            }
            assert forall|j: int|
                0 <= j < self.scope_count() && (#[trigger] self.scope_lock(j)) is Some implies self
                .scope_live(j) by {
                assert(old(self).scope_lock(j) == self.scope_lock(j));
                assert(old(self).scope_live(j));
                let k = choose|k: int|
                    0 <= k < old(self).slots@.len() && (#[trigger] old(self).slots@[k]).open && old(
                    self,
                ).slots@[k].scope == j;
                assert(self.slots@[k] == old(self).slots@[k]);
            }
        }
        out
    }

    /// Moves the shared cursor of `h`'s scope to `pos`, counted from the
    /// start of the file.  Seeking past the end is allowed.
    pub fn seek(&mut self, h: &Handle, pos: usize)
        requires
            old(self).inv(),
            old(self).is_open(*h),
        ensures
            final(self).inv(),
            Self::seek_spec(*old(self), *final(self), *h, pos as int),
    {
        let sc = self.slots[h.id].scope;
        proof {
            assert(sc as int == old(self).scope_of(*h));
        }
        let file = self.scopes[sc].file;
        let lock = self.scopes[sc].lock;
        self.scopes.set(sc, Scope { file, cursor: pos, lock });
        proof {
            assert(self.slots@ == old(self).slots@);
            assert(self.files@ == old(self).files@);
            assert forall|o1: int, o2: int|
                0 <= o1 < self.scope_count() && 0 <= o2 < self.scope_count() && o1 != o2 && (
                #[trigger] self.scope_lock(o1)) == Some(LockKind::Exclusive) && (
                #[trigger] self.scope_file(o2)) == self.scope_file(o1) implies self.scope_lock(
                o2,
            ) is None by {
                assert(old(self).scope_file(o1) == self.scope_file(o1));
                assert(old(self).scope_file(o2) == self.scope_file(o2));
                assert(old(self).scope_lock(o1) == self.scope_lock(o1));
                assert(old(self).scope_lock(o2) == self.scope_lock(o2));
            }
            assert forall|j: int|
                0 <= j < self.scope_count() && (#[trigger] self.scope_lock(j)) is Some implies self
                .scope_live(j) by {
                assert(old(self).scope_lock(j) == self.scope_lock(j));
                assert(old(self).scope_live(j));
                let k = choose|k: int|
                    0 <= k < old(self).slots@.len() && (#[trigger] old(self).slots@[k]).open && old(
                    self,
                ).slots@[k].scope == j;
                assert(self.slots@[k] == old(self).slots@[k]);
            }
        }
    }
}

/// The native request words of this family's locking primitive.
pub const LOCK_SH: i32 = 1;

pub const LOCK_EX: i32 = 2;

pub const LOCK_NB: i32 = 4;

pub const LOCK_UN: i32 = 8;

/// The native operation word for a lock request of the given kind,
/// nonblocking if asked.
pub fn flock_operation(kind: LockKind, nonblocking: bool) -> (op: i32)
    ensures
        op == (if kind == LockKind::Shared {
            LOCK_SH
        } else {
            LOCK_EX
        }) + (if nonblocking {
            LOCK_NB
        } else {
            0
        }),
{
    let base = match kind {
        LockKind::Shared => LOCK_SH,
        LockKind::Exclusive => LOCK_EX,
    };
    if nonblocking {
        base + LOCK_NB
    } else {
        base
    }
}

/// The native operation word that releases a lock.
pub fn unlock_operation() -> (op: i32)
    ensures
        op == LOCK_UN,
{
    LOCK_UN
}

/// The canonical error of a contended nonblocking request in this family.
pub fn lock_error() -> (e: LockError)
    ensures
        e == LockError::Contended,
{
    LockError::Contended
}

/// While another scope holds a shared lock on the file, a nonblocking
/// exclusive request through `h2` is denied — `try_lock_exclusive` then
/// returns the contended error, by its contract.
pub proof fn shared_blocks_exclusive(fs: AdvisoryFs, h1: Handle, h2: Handle)
    requires
        fs.inv(),
        fs.is_open(h1),
        fs.is_open(h2),
        fs.same_file(h1, h2),
        !fs.same_scope(h1, h2),
        fs.lock_state(h1) == Some(LockKind::Shared),
    ensures
        !fs.exclusive_grantable(h2),
{
    assert(fs.slots@[h1.id()].scope < fs.scopes@.len());
    assert(fs.scope_lock(fs.scope_of(h1)) == Some(LockKind::Shared));
}

/// While a scope holds an exclusive lock on the file, neither a
/// nonblocking shared nor a nonblocking exclusive request through another
/// scope is granted — both then fail with the contended error.
pub proof fn exclusive_blocks_all(fs: AdvisoryFs, h1: Handle, h2: Handle)
    requires
        fs.inv(),
        fs.is_open(h1),
        fs.is_open(h2),
        fs.same_file(h1, h2),
        !fs.same_scope(h1, h2),
        fs.lock_state(h1) == Some(LockKind::Exclusive),
    ensures
        !fs.shared_grantable(h2),
        !fs.exclusive_grantable(h2),
{
    assert(fs.slots@[h1.id()].scope < fs.scopes@.len());
    assert(fs.scope_lock(fs.scope_of(h1)) == Some(LockKind::Exclusive));
}

/// Shared locks coexist: granting a shared lock to one scope leaves a
/// shared request through every other scope grantable.
pub proof fn shared_grant_preserves_shared(
    pre: AdvisoryFs,
    post: AdvisoryFs,
    h1: Handle,
    h2: Handle,
)
    requires
        pre.inv(),
        pre.is_open(h1),
        pre.is_open(h2),
        !pre.same_scope(h1, h2),
        AdvisoryFs::lock_spec(pre, post, h1, LockKind::Shared, true),
        pre.shared_grantable(h2),
    ensures
        post.shared_grantable(h2),
{
    assert(pre.slots@[h1.id()].scope < pre.scopes@.len());
    assert forall|o: int|
        0 <= o < post.scope_count() && o != post.scope_of(h2) && (#[trigger] post.scope_file(o))
            == post.file_of(h2) implies post.scope_lock(o) != Some(LockKind::Exclusive) by {
        assert(post.is_open(h2) == pre.is_open(h2));
        assert(post.scope_of(h2) == pre.scope_of(h2));
        assert(post.scope_file(pre.scope_of(h2)) == pre.scope_file(pre.scope_of(h2)));
        assert(pre.scope_file(o) == post.scope_file(o));
        assert(pre.scope_file(o) == pre.file_of(h2));
        if o == pre.scope_of(h1) {
            assert(post.scope_lock(o) == Some(LockKind::Shared));
        } else {
            assert(post.scope_lock(o) == pre.scope_lock(o));
            assert(pre.scope_lock(o) != Some(LockKind::Exclusive));
        }
    }
}

/// Once the only scope that held a lock on the file releases it, both a
/// shared and an exclusive request through any other scope are grantable:
/// a previously contended attempt now succeeds, by the lock contracts.
pub proof fn grantable_after_unlock(pre: AdvisoryFs, post: AdvisoryFs, h1: Handle, h2: Handle)
    requires
        pre.inv(),
        pre.is_open(h1),
        pre.is_open(h2),
        pre.same_file(h1, h2),
        !pre.same_scope(h1, h2),
        pre.exclusive_grantable(h1),
        AdvisoryFs::unlock_spec(pre, post, h1),
    ensures
        post.shared_grantable(h2),
        post.exclusive_grantable(h2),
{
    assert(pre.slots@[h1.id()].scope < pre.scopes@.len());
    assert forall|o: int|
        0 <= o < post.scope_count() && o != post.scope_of(h2) && (#[trigger] post.scope_file(o))
            == post.file_of(h2) implies post.scope_lock(o) is None by {
        assert(post.is_open(h2) == pre.is_open(h2));
        assert(post.scope_of(h2) == pre.scope_of(h2));
        assert(post.scope_file(pre.scope_of(h2)) == pre.scope_file(pre.scope_of(h2)));
        assert(pre.scope_file(o) == post.scope_file(o));
        assert(pre.scope_file(o) == pre.file_of(h2));
        assert(pre.file_of(h2) == pre.file_of(h1));
        if o == pre.scope_of(h1) {
            assert(post.scope_lock(o) is None);
        } else {
            assert(post.scope_lock(o) == pre.scope_lock(o));
            assert(pre.scope_lock(o) is None);
        }
    }
}

/// Closing the last open descriptor of the scope that held the only lock
/// on the file releases that lock: a request through any other scope is
/// grantable afterwards.
pub proof fn close_releases_lock(pre: AdvisoryFs, post: AdvisoryFs, h1: Handle, h2: Handle)
    requires
        pre.inv(),
        pre.is_open(h1),
        pre.is_open(h2),
        pre.same_file(h1, h2),
        !pre.same_scope(h1, h2),
        pre.exclusive_grantable(h1),
        AdvisoryFs::close_spec(pre, post, h1),
        !post.scope_live(pre.scope_of(h1)),
    ensures
        post.is_open(h2),
        post.shared_grantable(h2),
        post.exclusive_grantable(h2),
{
    assert(pre.slots@[h1.id()].scope < pre.scopes@.len());
    assert(post.is_open(h2)) by {
        assert(h2.id() != h1.id());
    }
    assert forall|o: int|
        0 <= o < post.scope_count() && o != post.scope_of(h2) && (#[trigger] post.scope_file(o))
            == post.file_of(h2) implies post.scope_lock(o) is None by {
        assert(pre.scope_file(o) == post.scope_file(o));
        if o == pre.scope_of(h1) {
            assert(post.scope_lock(o) is None);
        } else {
            assert(post.scope_lock(o) == pre.scope_lock(o));
            assert(pre.scope_lock(o) is None);
        }
    }
}

/// Handles of one scope share one cursor and see one file: what
/// duplication yields is a second name for the same read/write position.
pub proof fn duplicate_shares_cursor(fs: AdvisoryFs, h: Handle, d: Handle)
    requires
        fs.same_scope(h, d),
    ensures
        fs.cursor(d) == fs.cursor(h),
        fs.contents(d) == fs.contents(h),
        fs.lock_state(d) == fs.lock_state(h),
{
}

/// Writing through a handle moves the cursor its duplicate reads with:
/// the duplicate's next read starts past the written bytes.
pub proof fn write_moves_shared_cursor(
    pre: AdvisoryFs,
    post: AdvisoryFs,
    h: Handle,
    d: Handle,
    buf: Seq<u8>,
)
    requires
        pre.is_open(h),
        pre.same_scope(h, d),
        0 <= d.id() < pre.slot_count(),
        AdvisoryFs::write_spec(pre, post, h, buf),
    ensures
        post.cursor(d) == pre.cursor(h) + buf.len(),
        post.contents(d) == crate::written(pre.contents(h), pre.cursor(h), buf),
{
    assert(post.is_open(d) == pre.is_open(d));
    assert(post.scope_of(d) == pre.scope_of(d));
}

/// Guard invariant, contention side: as long as a guard wraps a handle
/// whose scope holds a lock on the file, a nonblocking exclusive attempt
/// through another scope is denied; if the guard's lock is exclusive, a
/// shared attempt is denied too.  The guard constructors establish
/// `holds_lock`, and every operation through other scopes preserves it,
/// so this holds throughout the guard's scope.
pub proof fn guard_blocks_contenders(fs: AdvisoryFs, g: &FileLockGuard, h2: Handle)
    requires
        fs.inv(),
        fs.is_open(g.wrapped()),
        fs.holds_lock(g.wrapped()),
        fs.is_open(h2),
        fs.same_file(g.wrapped(), h2),
        !fs.same_scope(g.wrapped(), h2),
    ensures
        !fs.exclusive_grantable(h2),
        fs.lock_state(g.wrapped()) == Some(LockKind::Exclusive) ==> !fs.shared_grantable(h2),
{
    match fs.lock_state(g.wrapped()) {
        Some(LockKind::Shared) => shared_blocks_exclusive(fs, g.wrapped(), h2),
        Some(LockKind::Exclusive) => exclusive_blocks_all(fs, g.wrapped(), h2),
        None => assert(false),
    }
}

/// Guard invariant, release side: the moment the guard wrapping the only
/// lock-holding scope on the file is released, the attempt that was
/// contended inside the guard's scope is grantable.
pub proof fn guard_release_grants(pre: AdvisoryFs, post: AdvisoryFs, g: &FileLockGuard, h2: Handle)
    requires
        pre.inv(),
        pre.is_open(g.wrapped()),
        pre.is_open(h2),
        pre.same_file(g.wrapped(), h2),
        !pre.same_scope(g.wrapped(), h2),
        pre.exclusive_grantable(g.wrapped()),
        AdvisoryFs::unlock_spec(pre, post, g.wrapped()),
    ensures
        post.shared_grantable(h2),
        post.exclusive_grantable(h2),
{
    grantable_after_unlock(pre, post, g.wrapped(), h2);
}

/// A failed nonblocking exclusive attempt through a handle whose scope
/// held no lock leaves every observable of the world as it was: the
/// owning guard's failure path gives the handle back over an unchanged
/// world.
pub proof fn denied_attempt_preserves_all(pre: AdvisoryFs, post: AdvisoryFs, h: Handle)
    requires
        pre.inv(),
        pre.is_open(h),
        pre.lock_state(h) is None,
        AdvisoryFs::lock_spec(pre, post, h, LockKind::Exclusive, false),
    ensures
        AdvisoryFs::handles_unchanged(pre, post),
        AdvisoryFs::files_unchanged(pre, post),
        AdvisoryFs::scopes_unchanged(pre, post),
{
    assert(AdvisoryFs::only_lock_changed(pre, post, pre.scope_of(h), None::<LockKind>));
    assert forall|o: int| 0 <= o < pre.scope_count() implies (#[trigger] post.scope_file(o))
        == pre.scope_file(o) && post.scope_cursor(o) == pre.scope_cursor(o) && post.scope_lock(o)
        == pre.scope_lock(o) by {
        assert(0 <= o < pre.scope_count());
        assert(post.scope_file(o) == pre.scope_file(o));
        assert(post.scope_cursor(o) == pre.scope_cursor(o));
        if o == pre.scope_of(h) {
            assert(post.scope_lock(o) is None);
            assert(pre.scope_lock(o) is None);
        } else {
            assert(post.scope_lock(o) == pre.scope_lock(o));
        }
    }
}

} // verus!
