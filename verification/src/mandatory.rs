//! The mandatory lock family.
//!
//! Models LockFile-style whole-file locking.  A lock belongs to one
//! handle, not to the open file: a duplicated handle starts with no
//! access to the original's locks.  Locks taken through one handle
//! stack — each must be released on its own — and an exclusive request
//! conflicts with every lock on the file, the requesting handle's own
//! included, while a shared request overlaps freely with shared locks
//! and with the requesting handle's own exclusive lock.  Closing a
//! handle does not release its locks while a duplicate keeps the
//! underlying kernel object alive; they die only with the object.

use vstd::prelude::*;

use crate::FileExt;
use crate::Handle;
use crate::LockError;
use crate::LockKind;

verus! {

/// One stored file: its byte contents.
struct FileData {
    data: Vec<u8>,
}

/// One kernel file object: the unit that duplicated handles share —
/// including the read/write cursor — and the unit whose death releases
/// the group's remaining locks.
struct Group {
    file: usize,
    cursor: usize,
}

/// One handle slot: its group, whether it is open, and the locks it
/// holds — a count of shared locks and at most one exclusive lock.
struct HSlot {
    group: usize,
    open: bool,
    shared: usize,
    exclusive: bool,
}

/// The mandatory family's world: the files, the kernel objects, and the
/// handle table that handles index into.
pub struct MandatoryFs {
    files: Vec<FileData>,
    groups: Vec<Group>,
    slots: Vec<HSlot>,
}

impl MandatoryFs {
    /// Number of files.
    pub closed spec fn file_count(&self) -> int {
        self.files@.len() as int
    }

    /// The bytes of file `f`.
    pub closed spec fn file_data(&self, f: int) -> Seq<u8> {
        self.files@[f].data@
    }

    /// `f` names a file.
    pub closed spec fn is_file(&self, f: usize) -> bool {
        (f as int) < self.file_count()
    }

    /// Number of kernel objects ever made.
    pub closed spec fn group_count(&self) -> int {
        self.groups@.len() as int
    }

    /// Number of handle slots ever made.
    pub closed spec fn slot_count(&self) -> int {
        self.slots@.len() as int
    }

    /// The kernel object that `h` belongs to.
    pub closed spec fn group_of(&self, h: Handle) -> int {
        self.slots@[h.id()].group as int
    }

    /// The file that kernel object `g` refers to.
    pub closed spec fn group_file(&self, g: int) -> int {
        self.groups@[g].file as int
    }

    /// The read/write cursor of kernel object `g`.
    pub closed spec fn group_cursor(&self, g: int) -> int {
        self.groups@[g].cursor as int
    }

    /// The read/write cursor seen through `h`, shared with its
    /// duplicates.
    pub open spec fn cursor(&self, h: Handle) -> int {
        self.group_cursor(self.group_of(h))
    }

    /// The bytes of the file that `h` refers to.
    pub open spec fn contents(&self, h: Handle) -> Seq<u8> {
        self.file_data(self.file_of(h))
    }

    /// The kernel object of slot `i`.
    pub closed spec fn slot_group(&self, i: int) -> int {
        self.slots@[i].group as int
    }

    /// How many shared locks slot `i` holds.
    pub closed spec fn shared_count(&self, i: int) -> int {
        self.slots@[i].shared as int
    }

    /// Whether slot `i` holds the exclusive lock.
    pub closed spec fn has_exclusive(&self, i: int) -> bool {
        self.slots@[i].exclusive
    }

    /// Kernel object `g` still has an open handle.
    pub closed spec fn group_live(&self, g: int) -> bool {
        exists|i: int|
            0 <= i < self.slots@.len() && (#[trigger] self.slots@[i]).open && self.slots@[i].group
                == g
    }

    /// The file that slot `i` refers to.
    pub open spec fn slot_file(&self, i: int) -> int {
        self.group_file(self.slot_group(i))
    }

    /// Slot `i` holds at least one lock.
    pub open spec fn slot_locked(&self, i: int) -> bool {
        self.shared_count(i) > 0 || self.has_exclusive(i)
    }

    /// The file that `h` refers to.
    pub open spec fn file_of(&self, h: Handle) -> int {
        self.group_file(self.group_of(h))
    }

    /// `h1` and `h2` refer to the same file.
    pub open spec fn same_file(&self, h1: Handle, h2: Handle) -> bool {
        self.file_of(h1) == self.file_of(h2)
    }

    /// `h1` and `h2` share one kernel object: one is a duplicate of the
    /// other.
    pub open spec fn same_group(&self, h1: Handle, h2: Handle) -> bool {
        self.group_of(h1) == self.group_of(h2)
    }

    /// File count and every kernel object — file and cursor — agree
    /// between `pre` and `post`.
    pub open spec fn groups_unchanged(pre: Self, post: Self) -> bool {
        &&& post.file_count() == pre.file_count()
        &&& post.group_count() == pre.group_count()
        &&& forall|g: int|
            0 <= g < pre.group_count() ==> (#[trigger] post.group_file(g)) == pre.group_file(g)
                && post.group_cursor(g) == pre.group_cursor(g)
    }

    /// File count and file contents agree between `pre` and `post`.
    pub open spec fn files_unchanged(pre: Self, post: Self) -> bool {
        &&& post.file_count() == pre.file_count()
        &&& forall|f: int|
            0 <= f < pre.file_count() ==> (#[trigger] post.file_data(f)) == pre.file_data(f)
    }

    /// Slot count, openness and group membership of every slot agree
    /// between `pre` and `post`.
    pub open spec fn handles_unchanged(pre: Self, post: Self) -> bool {
        &&& post.slot_count() == pre.slot_count()
        &&& forall|h: Handle| (#[trigger] post.is_open(h)) == pre.is_open(h)
        &&& forall|h: Handle|
            0 <= h.id() < pre.slot_count() ==> (#[trigger] post.group_of(h)) == pre.group_of(h)
    }

    /// Everything agrees between `pre` and `post` but the locks of slot
    /// `i`, which hold `sh` shared locks and, if `ex`, the exclusive one.
    pub open spec fn only_slot_locks_changed(pre: Self, post: Self, i: int, sh: int, ex: bool) -> bool {
        &&& Self::groups_unchanged(pre, post)
        &&& Self::files_unchanged(pre, post)
        &&& Self::handles_unchanged(pre, post)
        &&& 0 <= i < pre.slot_count()
        &&& forall|k: int|
            0 <= k < pre.slot_count() ==> (#[trigger] post.slot_group(k)) == pre.slot_group(k)
        &&& post.shared_count(i) == sh
        &&& post.has_exclusive(i) == ex
        &&& forall|k: int|
            0 <= k < pre.slot_count() && k != i ==> (#[trigger] post.shared_count(k))
                == pre.shared_count(k) && post.has_exclusive(k) == pre.has_exclusive(k)
    }

    /// The exact account of opening file `f`: a fresh kernel object and a
    /// fresh open handle on it, holding no locks.
    pub open spec fn open_spec(pre: Self, post: Self, f: usize, h: Handle) -> bool {
        &&& Self::files_unchanged(pre, post)
        &&& post.group_count() == pre.group_count() + 1
        &&& forall|g: int|
            0 <= g < pre.group_count() ==> (#[trigger] post.group_file(g)) == pre.group_file(g)
                && post.group_cursor(g) == pre.group_cursor(g)
        &&& post.slot_count() == pre.slot_count() + 1
        &&& forall|h2: Handle|
            0 <= h2.id() < pre.slot_count() ==> (#[trigger] post.is_open(h2)) == pre.is_open(h2)
                && post.group_of(h2) == pre.group_of(h2)
        &&& forall|k: int|
            0 <= k < pre.slot_count() ==> (#[trigger] post.shared_count(k)) == pre.shared_count(k)
                && post.has_exclusive(k) == pre.has_exclusive(k) && post.slot_group(k)
                == pre.slot_group(k)
        &&& h.id() == pre.slot_count()
        &&& post.is_open(h)
        &&& post.group_of(h) == pre.group_count()
        &&& post.file_of(h) == f
        &&& post.cursor(h) == 0
        &&& !post.slot_locked(h.id())
    }

    /// The exact account of closing `h`: its slot is no longer open; its
    /// locks stay behind as long as a duplicate keeps the kernel object
    /// alive, and die with the object otherwise — the whole group's do.
    pub open spec fn close_spec(pre: Self, post: Self, h: Handle) -> bool {
        let g = pre.group_of(h);
        &&& Self::groups_unchanged(pre, post)
        &&& Self::files_unchanged(pre, post)
        &&& post.slot_count() == pre.slot_count()
        &&& !post.is_open(h)
        &&& forall|h2: Handle|
            h2.id() != h.id() ==> (#[trigger] post.is_open(h2)) == pre.is_open(h2)
        &&& forall|h2: Handle|
            0 <= h2.id() < pre.slot_count() ==> (#[trigger] post.group_of(h2)) == pre.group_of(h2)
        &&& forall|k: int|
            0 <= k < pre.slot_count() ==> (#[trigger] post.slot_group(k)) == pre.slot_group(k)
        &&& forall|k: int|
            0 <= k < pre.slot_count() ==> (#[trigger] post.shared_count(k)) == (
            if !post.group_live(g) && pre.slot_group(k) == g {
                0
            } else {
                pre.shared_count(k)
            }) && post.has_exclusive(k) == (if !post.group_live(g) && pre.slot_group(k) == g {
                false
            } else {
                pre.has_exclusive(k)
            })
    }

    /// The exact account of a write through `h`: the shared cursor of
    /// its kernel object moves past the written bytes — a duplicate of
    /// `h` sees it move too — and the file now holds `written(..)` of
    /// its old bytes.  Locks play no part: this family's locks gate the
    /// native file operations, which the model keeps orthogonal.
    pub open spec fn write_spec(pre: Self, post: Self, h: Handle, buf: Seq<u8>) -> bool {
        let g = pre.group_of(h);
        let f = pre.file_of(h);
        &&& Self::handles_unchanged(pre, post)
        &&& forall|k: int|
            0 <= k < pre.slot_count() ==> (#[trigger] post.shared_count(k)) == pre.shared_count(k)
                && post.has_exclusive(k) == pre.has_exclusive(k) && post.slot_group(k)
                == pre.slot_group(k)
        &&& post.group_count() == pre.group_count()
        &&& forall|j: int|
            0 <= j < pre.group_count() && j != g ==> (#[trigger] post.group_file(j))
                == pre.group_file(j) && post.group_cursor(j) == pre.group_cursor(j)
        &&& post.group_file(g) == pre.group_file(g)
        &&& post.group_cursor(g) == pre.group_cursor(g) + buf.len()
        &&& post.file_count() == pre.file_count()
        &&& forall|ff: int|
            0 <= ff < pre.file_count() && ff != f ==> (#[trigger] post.file_data(ff))
                == pre.file_data(ff)
        &&& post.file_data(f) == crate::written(pre.file_data(f), pre.group_cursor(g), buf)
    }

    /// The exact account of reading to the end through `h`: everything
    /// from the shared cursor to the end of the file comes out — nothing,
    /// if the cursor already sits at or past the end — and the cursor
    /// lands on the end of the file.
    pub open spec fn read_spec(pre: Self, post: Self, h: Handle, out: Seq<u8>) -> bool {
        let g = pre.group_of(h);
        let data = pre.contents(h);
        let cur = pre.group_cursor(g);
        &&& Self::handles_unchanged(pre, post)
        &&& Self::files_unchanged(pre, post)
        &&& forall|k: int|
            0 <= k < pre.slot_count() ==> (#[trigger] post.shared_count(k)) == pre.shared_count(k)
                && post.has_exclusive(k) == pre.has_exclusive(k) && post.slot_group(k)
                == pre.slot_group(k)
        &&& post.group_count() == pre.group_count()
        &&& forall|j: int|
            0 <= j < pre.group_count() && j != g ==> (#[trigger] post.group_file(j))
                == pre.group_file(j) && post.group_cursor(j) == pre.group_cursor(j)
        &&& post.group_file(g) == pre.group_file(g)
        &&& out == (if cur <= data.len() {
            data.subrange(cur, data.len() as int)
        } else {
            Seq::<u8>::empty()
        })
        &&& post.group_cursor(g) == (if cur <= data.len() {
            data.len() as int
        } else {
            cur
        })
    }

    /// The exact account of a seek through `h` to `pos` from the start
    /// of the file: only the shared cursor moves.
    pub open spec fn seek_spec(pre: Self, post: Self, h: Handle, pos: int) -> bool {
        let g = pre.group_of(h);
        &&& Self::handles_unchanged(pre, post)
        &&& Self::files_unchanged(pre, post)
        &&& forall|k: int|
            0 <= k < pre.slot_count() ==> (#[trigger] post.shared_count(k)) == pre.shared_count(k)
                && post.has_exclusive(k) == pre.has_exclusive(k) && post.slot_group(k)
                == pre.slot_group(k)
        &&& post.group_count() == pre.group_count()
        &&& forall|j: int|
            0 <= j < pre.group_count() && j != g ==> (#[trigger] post.group_file(j))
                == pre.group_file(j) && post.group_cursor(j) == pre.group_cursor(j)
        &&& post.group_file(g) == pre.group_file(g)
        &&& post.group_cursor(g) == pos
    }
}

impl FileExt for MandatoryFs {
    closed spec fn inv(&self) -> bool {
        &&& forall|i: int|
            0 <= i < self.slots@.len() ==> (#[trigger] self.slots@[i]).group < self.groups@.len()
        &&& forall|g: int|
            0 <= g < self.groups@.len() ==> (#[trigger] self.groups@[g]).file
                < self.files@.len()
        &&& forall|i1: int, i2: int|
            0 <= i1 < self.slot_count() && 0 <= i2 < self.slot_count() && i1 != i2 && (
            #[trigger] self.has_exclusive(i1)) && (#[trigger] self.slot_file(i2))
                == self.slot_file(i1) ==> !self.slot_locked(i2)
        &&& forall|i: int|
            0 <= i < self.slot_count() && (#[trigger] self.slot_locked(i)) ==> self.group_live(
                self.slot_group(i),
            )
    }

    closed spec fn is_open(&self, h: Handle) -> bool {
        0 <= h.id() < self.slots@.len() && self.slots@[h.id()].open
    }

    open spec fn holds_lock(&self, h: Handle) -> bool {
        self.slot_locked(h.id())
    }

    /// Granted unless another handle holds the file exclusively: shared
    /// locks overlap freely, and a handle's own exclusive lock does not
    /// bar its own shared request.
    open spec fn shared_grantable(&self, h: Handle) -> bool {
        forall|i: int|
            0 <= i < self.slot_count() && i != h.id() && (#[trigger] self.slot_file(i))
                == self.file_of(h) ==> !self.has_exclusive(i)
    }

    /// Granted only if no handle holds any lock on the file — the
    /// requesting handle's own locks bar it too: exclusive locks do not
    /// stack on anything.
    open spec fn exclusive_grantable(&self, h: Handle) -> bool {
        forall|i: int|
            0 <= i < self.slot_count() && (#[trigger] self.slot_file(i)) == self.file_of(h)
                ==> !self.slot_locked(i)
    }

    /// The shared-lock count of a slot is bookkeeping with a machine
    /// limit; the exclusive flag has none.
    open spec fn can_record(&self, h: Handle, kind: LockKind) -> bool {
        kind == LockKind::Shared ==> self.shared_count(h.id()) < usize::MAX
    }

    /// A granted shared request adds one shared lock to the handle's
    /// stack; a granted exclusive request sets its exclusive lock.  A
    /// denied request changes nothing at all.  A request is granted if
    /// and only if the family's grant condition held.
    open spec fn lock_spec(pre: Self, post: Self, h: Handle, kind: LockKind, granted: bool) -> bool {
        &&& granted == (if kind == LockKind::Shared {
            pre.shared_grantable(h)
        } else {
            pre.exclusive_grantable(h)
        })
        &&& Self::only_slot_locks_changed(
            pre,
            post,
            h.id(),
            if granted && kind == LockKind::Shared {
                pre.shared_count(h.id()) + 1
            } else {
                pre.shared_count(h.id())
            },
            if granted && kind == LockKind::Exclusive {
                true
            } else {
                pre.has_exclusive(h.id())
            },
        )
    }

    /// A successful release pops exactly one lock from the handle's own
    /// stack — a shared one while any remain, the exclusive one last —
    /// and is possible only for a handle that holds a lock.  The native
    /// primitive does not document which matching lock a release removes
    /// when several could; this model removes shared ones first.
    open spec fn unlock_spec(pre: Self, post: Self, h: Handle) -> bool {
        &&& pre.slot_locked(h.id())
        &&& if pre.shared_count(h.id()) > 0 {
            Self::only_slot_locks_changed(
                pre,
                post,
                h.id(),
                pre.shared_count(h.id()) - 1,
                pre.has_exclusive(h.id()),
            )
        } else {
            Self::only_slot_locks_changed(pre, post, h.id(), 0, false)
        }
    }

    /// A release through a handle that holds no lock reports the
    /// family's not-locked error code.
    open spec fn unlock_error(pre: Self, h: Handle) -> LockError {
        LockError::System(ERROR_NOT_LOCKED)
    }

    /// The new handle shares `h`'s kernel object — and with it the
    /// read/write cursor — but none of its locks: it starts with no
    /// access to them.
    open spec fn duplicate_spec(pre: Self, post: Self, h: Handle, d: Handle) -> bool {
        &&& Self::groups_unchanged(pre, post)
        &&& post.slot_count() == pre.slot_count() + 1
        &&& forall|h2: Handle|
            0 <= h2.id() < pre.slot_count() ==> (#[trigger] post.is_open(h2)) == pre.is_open(h2)
                && post.group_of(h2) == pre.group_of(h2)
        &&& forall|k: int|
            0 <= k < pre.slot_count() ==> (#[trigger] post.shared_count(k)) == pre.shared_count(k)
                && post.has_exclusive(k) == pre.has_exclusive(k) && post.slot_group(k)
                == pre.slot_group(k)
        &&& d.id() == pre.slot_count()
        &&& post.is_open(d)
        &&& post.group_of(d) == pre.group_of(h)
        &&& !post.slot_locked(d.id())
    }

    fn duplicate(&mut self, h: &Handle) -> (r: Result<Handle, LockError>) {
        let gr = self.slots[h.id].group;
        let id = self.slots.len();
        self.slots.push(HSlot { group: gr, open: true, shared: 0, exclusive: false });
        proof {
            assert(self.slots@[h.id()] == old(self).slots@[h.id()]);
            assert forall|i: int| 0 <= i < self.slots@.len() implies (
            #[trigger] self.slots@[i]).group < self.groups@.len() by {
                if i < old(self).slots@.len() {
                    assert(self.slots@[i] == old(self).slots@[i]);
                } else {
                    assert(self.slots@[i] == (HSlot {
                        group: gr,
                        open: true,
                        shared: 0,
                        exclusive: false,
                    }));
                    assert(old(self).slots@[h.id()].group < old(self).groups@.len());
                }
            }
            assert forall|i1: int, i2: int|
                0 <= i1 < self.slot_count() && 0 <= i2 < self.slot_count() && i1 != i2 && (
                #[trigger] self.has_exclusive(i1)) && (#[trigger] self.slot_file(i2))
                    == self.slot_file(i1) implies !self.slot_locked(i2) by {
                assert(i1 < old(self).slot_count());
                assert(old(self).has_exclusive(i1) == self.has_exclusive(i1));
                assert(old(self).slot_file(i1) == self.slot_file(i1));
                if i2 < old(self).slot_count() {
                    assert(old(self).slot_file(i2) == self.slot_file(i2));
                    assert(old(self).shared_count(i2) == self.shared_count(i2));
                    assert(old(self).has_exclusive(i2) == self.has_exclusive(i2));
                } else {
                    assert(self.shared_count(i2) == 0 && !self.has_exclusive(i2));
                }
            }
            assert forall|i: int|
                0 <= i < self.slot_count() && (#[trigger] self.slot_locked(i)) implies self
                .group_live(self.slot_group(i)) by {
                assert(i < old(self).slot_count());
                assert(old(self).shared_count(i) == self.shared_count(i));
                assert(old(self).has_exclusive(i) == self.has_exclusive(i));
                assert(old(self).slot_locked(i));
                assert(old(self).group_live(old(self).slot_group(i)));
                let k = choose|k: int|
                    0 <= k < old(self).slots@.len() && (#[trigger] old(self).slots@[k]).open && old(
                    self,
                ).slots@[k].group == old(self).slot_group(i);
                assert(self.slots@[k] == old(self).slots@[k]);
            }
            assert forall|h2: Handle| 0 <= h2.id() < old(self).slot_count() implies (
            #[trigger] self.is_open(h2)) == old(self).is_open(h2) && self.group_of(h2) == old(
                self,
            ).group_of(h2) by {
                assert(self.slots@[h2.id()] == old(self).slots@[h2.id()]);
            }
            assert forall|k: int| 0 <= k < old(self).slot_count() implies (
            #[trigger] self.shared_count(k)) == old(self).shared_count(k) && self.has_exclusive(k)
                == old(self).has_exclusive(k) && self.slot_group(k) == old(self).slot_group(k) by {
                assert(self.slots@[k] == old(self).slots@[k]);
            }
        }
        Ok(Handle { id })
    }

    fn lock_shared(&mut self, h: &Handle) -> (r: Result<(), LockError>) {
        self.try_lock_shared(h)
    }

    fn lock_exclusive(&mut self, h: &Handle) -> (r: Result<(), LockError>) {
        self.try_lock_exclusive(h)
    }

    fn try_lock_shared(&mut self, h: &Handle) -> (r: Result<(), LockError>) {
        let me = h.id;
        let gr = self.slots[me].group;
        let f = self.groups[gr].file;
        proof {
            assert(gr as int == old(self).group_of(*h));
            assert(f as int == old(self).file_of(*h));
        }
        let conflict = self.scan_conflict(me, f, LockKind::Shared);
        if conflict {
            proof {
                let i = choose|i: int|
                    0 <= i < old(self).slot_count() && i != me && (#[trigger] old(self).slot_file(
                        i,
                    )) == f && old(self).has_exclusive(i);
                assert(!old(self).shared_grantable(*h));
            }
            Err(LockError::Contended)
        } else {
            let sh = self.slots[me].shared;
            let ex = self.slots[me].exclusive;
            self.slots.set(me, HSlot { group: gr, open: true, shared: sh + 1, exclusive: ex });
            proof {
                assert(old(self).is_open(*h));
                assert(self.slots@[me as int] == (HSlot {
                    group: gr,
                    open: true,
                    shared: (sh + 1) as usize,
                    exclusive: ex,
                }));
                assert(old(self).shared_grantable(*h)) by {
                    assert forall|i: int|
                        0 <= i < old(self).slot_count() && i != h.id() && (#[trigger] old(
                            self,
                        ).slot_file(i)) == old(self).file_of(*h) implies !old(self).has_exclusive(
                        i,
                    ) by {}
                }
                self.lemma_lock_grant_preserves_inv(*old(self), me as int, LockKind::Shared);
                self.lemma_slot_update_frames(*old(self), me as int);
            }
            Ok(())
        }
    }

    fn try_lock_exclusive(&mut self, h: &Handle) -> (r: Result<(), LockError>) {
        let me = h.id;
        let gr = self.slots[me].group;
        let f = self.groups[gr].file;
        proof {
            assert(gr as int == old(self).group_of(*h));
            assert(f as int == old(self).file_of(*h));
        }
        let conflict = self.scan_conflict(me, f, LockKind::Exclusive);
        if conflict {
            proof {
                let i = choose|i: int|
                    0 <= i < old(self).slot_count() && (#[trigger] old(self).slot_file(i)) == f
                        && old(self).slot_locked(i);
                assert(!old(self).exclusive_grantable(*h));
            }
            Err(LockError::Contended)
        } else {
            let sh = self.slots[me].shared;
            self.slots.set(me, HSlot { group: gr, open: true, shared: sh, exclusive: true });
            proof {
                assert(old(self).is_open(*h));
                assert(self.slots@[me as int] == (HSlot {
                    group: gr,
                    open: true,
                    shared: sh,
                    exclusive: true,
                }));
                assert(old(self).exclusive_grantable(*h)) by {
                    assert forall|i: int|
                        0 <= i < old(self).slot_count() && (#[trigger] old(self).slot_file(i))
                            == old(self).file_of(*h) implies !old(self).slot_locked(i) by {}
                }
                self.lemma_lock_grant_preserves_inv(*old(self), me as int, LockKind::Exclusive);
                self.lemma_slot_update_frames(*old(self), me as int);
            }
            Ok(())
        }
    }

    fn unlock(&mut self, h: &Handle) -> (r: Result<(), LockError>) {
        let me = h.id;
        let gr = self.slots[me].group;
        let sh = self.slots[me].shared;
        let ex = self.slots[me].exclusive;
        if sh > 0 {
            self.slots.set(me, HSlot { group: gr, open: true, shared: sh - 1, exclusive: ex });
            proof {
                assert(self.slots@[me as int] == (HSlot {
                    group: gr,
                    open: true,
                    shared: (sh - 1) as usize,
                    exclusive: ex,
                }));
                self.lemma_lock_release_preserves_inv(*old(self), me as int);
                self.lemma_slot_update_frames(*old(self), me as int);
            }
            Ok(())
        } else if ex {
            self.slots.set(me, HSlot { group: gr, open: true, shared: 0, exclusive: false });
            proof {
                assert(self.slots@[me as int] == (HSlot {
                    group: gr,
                    open: true,
                    shared: 0,
                    exclusive: false,
                }));
                self.lemma_lock_release_preserves_inv(*old(self), me as int);
                self.lemma_slot_update_frames(*old(self), me as int);
            }
            Ok(())
        } else {
            Err(LockError::System(ERROR_NOT_LOCKED))
        }
    }
}

impl MandatoryFs {
    /// After only slot `me` changed, with its open flag and group kept,
    /// everything but slot `me`'s lock bookkeeping agrees with `pre`.
    proof fn lemma_slot_update_frames(&self, pre: Self, me: int)
        requires
            0 <= me < pre.slot_count(),
            self.groups@ == pre.groups@,
            self.files@ == pre.files@,
            self.slots@.len() == pre.slots@.len(),
            self.slots@[me].group == pre.slots@[me].group,
            self.slots@[me].open == pre.slots@[me].open,
            forall|k: int|
                0 <= k < pre.slots@.len() && k != me ==> (#[trigger] self.slots@[k])
                    == pre.slots@[k],
        ensures
            Self::groups_unchanged(pre, *self),
            Self::handles_unchanged(pre, *self),
            forall|k: int|
                0 <= k < pre.slot_count() ==> (#[trigger] self.slot_group(k)) == pre.slot_group(
                    k,
                ),
            forall|k: int|
                0 <= k < pre.slot_count() && k != me ==> (#[trigger] self.shared_count(k))
                    == pre.shared_count(k) && self.has_exclusive(k) == pre.has_exclusive(k),
    {
        assert forall|h: Handle| (#[trigger] self.is_open(h)) == pre.is_open(h) by {
            if 0 <= h.id() < pre.slots@.len() && h.id() != me {
                assert(self.slots@[h.id()] == pre.slots@[h.id()]);
            }
        }
        assert forall|h: Handle| 0 <= h.id() < pre.slot_count() implies (
        #[trigger] self.group_of(h)) == pre.group_of(h) by {
            if h.id() != me {
                assert(self.slots@[h.id()] == pre.slots@[h.id()]);
            }
        }
        assert forall|k: int| 0 <= k < pre.slot_count() implies (#[trigger] self.slot_group(k))
            == pre.slot_group(k) by {
            if k != me {
                assert(self.slots@[k] == pre.slots@[k]);
            }
        }
        assert forall|k: int| 0 <= k < pre.slot_count() && k != me implies (
        #[trigger] self.shared_count(k)) == pre.shared_count(k) && self.has_exclusive(k)
            == pre.has_exclusive(k) by {
            assert(self.slots@[k] == pre.slots@[k]);
        }
    }

    /// After only slot `me`'s lock bookkeeping changed, with the open
    /// flag and group kept, the lock invariants still hold provided the
    /// change was a grant whose condition held.
    proof fn lemma_lock_grant_preserves_inv(&self, pre: Self, me: int, kind: LockKind)
        requires
            pre.inv(),
            0 <= me < pre.slot_count(),
            pre.slots@[me].open,
            self.slots@ == pre.slots@.update(
                me,
                HSlot {
                    group: pre.slots@[me].group,
                    open: true,
                    shared: if kind == LockKind::Shared {
                        (pre.slots@[me].shared + 1) as usize
                    } else {
                        pre.slots@[me].shared
                    },
                    exclusive: if kind == LockKind::Exclusive {
                        true
                    } else {
                        pre.slots@[me].exclusive
                    },
                },
            ),
            self.groups@ == pre.groups@,
            self.files@ == pre.files@,
            kind == LockKind::Shared ==> forall|i: int|
                0 <= i < pre.slot_count() && i != me && (#[trigger] pre.slot_file(i))
                    == pre.slot_file(me) ==> !pre.has_exclusive(i),
            kind == LockKind::Exclusive ==> forall|i: int|
                0 <= i < pre.slot_count() && (#[trigger] pre.slot_file(i)) == pre.slot_file(me)
                    ==> !pre.slot_locked(i),
        ensures
            self.inv(),
    {
        assert forall|i1: int, i2: int|
            0 <= i1 < self.slot_count() && 0 <= i2 < self.slot_count() && i1 != i2 && (
            #[trigger] self.has_exclusive(i1)) && (#[trigger] self.slot_file(i2))
                == self.slot_file(i1) implies !self.slot_locked(i2) by {
            assert(pre.slot_file(i1) == self.slot_file(i1));
            assert(pre.slot_file(i2) == self.slot_file(i2));
            if i1 == me {
                match kind {
                    LockKind::Shared => {
                        assert(pre.has_exclusive(me));
                        assert(pre.shared_count(i2) == self.shared_count(i2));
                        assert(pre.has_exclusive(i2) == self.has_exclusive(i2));
                        assert(!pre.slot_locked(i2));
                    },
                    LockKind::Exclusive => {
                        assert(!pre.slot_locked(i2));
                        assert(pre.shared_count(i2) == self.shared_count(i2));
                        assert(pre.has_exclusive(i2) == self.has_exclusive(i2));
                    },
                }
            } else if i2 == me {
                assert(pre.has_exclusive(i1) == self.has_exclusive(i1));
                match kind {
                    LockKind::Shared => {
                        assert(!pre.has_exclusive(i1));
                        assert(false);
                    },
                    LockKind::Exclusive => {
                        assert(!pre.slot_locked(i1));
                        assert(false);
                    },
                }
            } else {
                assert(pre.has_exclusive(i1) == self.has_exclusive(i1));
                assert(pre.shared_count(i2) == self.shared_count(i2));
                assert(pre.has_exclusive(i2) == self.has_exclusive(i2));
                assert(!pre.slot_locked(i2));
            }
        }
        assert forall|i: int|
            0 <= i < self.slot_count() && (#[trigger] self.slot_locked(i)) implies self.group_live(
            self.slot_group(i),
        ) by {
            if i == me {
                assert(self.slots@[me].open && self.slots@[me].group == pre.slots@[me].group);
                assert(self.group_live(self.slot_group(me)));
            } else {
                assert(pre.shared_count(i) == self.shared_count(i));
                assert(pre.has_exclusive(i) == self.has_exclusive(i));
                assert(pre.slot_locked(i));
                assert(pre.group_live(pre.slot_group(i)));
                let k = choose|k: int|
                    0 <= k < pre.slots@.len() && (#[trigger] pre.slots@[k]).open
                        && pre.slots@[k].group == pre.slot_group(i);
                if k == me {
                    assert(self.slots@[me].open && self.slots@[me].group == pre.slots@[me].group);
                } else {
                    assert(self.slots@[k] == pre.slots@[k]);
                }
            }
        }
        assert forall|i: int| 0 <= i < self.slots@.len() implies (
        #[trigger] self.slots@[i]).group < self.groups@.len() by {
            if i != me {
                assert(self.slots@[i] == pre.slots@[i]);
            }
        }
    }

    /// After only slot `me`'s lock bookkeeping shrank, with the open
    /// flag and group kept, the lock invariants still hold.
    proof fn lemma_lock_release_preserves_inv(&self, pre: Self, me: int)
        requires
            pre.inv(),
            0 <= me < pre.slot_count(),
            self.groups@ == pre.groups@,
            self.files@ == pre.files@,
            self.slots@.len() == pre.slots@.len(),
            self.slots@[me].group == pre.slots@[me].group,
            self.slots@[me].open == pre.slots@[me].open,
            self.slots@[me].shared <= pre.slots@[me].shared,
            self.slots@[me].exclusive ==> pre.slots@[me].exclusive,
            forall|k: int| 0 <= k < pre.slots@.len() && k != me ==> (#[trigger] self.slots@[k])
                == pre.slots@[k],
        ensures
            self.inv(),
    {
        assert forall|i1: int, i2: int|
            0 <= i1 < self.slot_count() && 0 <= i2 < self.slot_count() && i1 != i2 && (
            #[trigger] self.has_exclusive(i1)) && (#[trigger] self.slot_file(i2))
                == self.slot_file(i1) implies !self.slot_locked(i2) by {
            assert(pre.slot_file(i1) == self.slot_file(i1));
            assert(pre.slot_file(i2) == self.slot_file(i2));
            assert(pre.has_exclusive(i1));
            assert(!pre.slot_locked(i2));
            if i2 == me {
                assert(self.shared_count(i2) <= pre.shared_count(i2));
            }
        }
        assert forall|i: int|
            0 <= i < self.slot_count() && (#[trigger] self.slot_locked(i)) implies self.group_live(
            self.slot_group(i),
        ) by {
            assert(pre.slot_locked(i));
            assert(pre.group_live(pre.slot_group(i)));
            assert(self.slot_group(i) == pre.slot_group(i));
            let k = choose|k: int|
                0 <= k < pre.slots@.len() && (#[trigger] pre.slots@[k]).open && pre.slots@[k].group
                    == pre.slot_group(i);
            assert(self.slots@[k].open && self.slots@[k].group == pre.slots@[k].group);
        }
        assert forall|i: int| 0 <= i < self.slots@.len() implies (
        #[trigger] self.slots@[i]).group < self.groups@.len() by {
            if i != me {
                assert(self.slots@[i] == pre.slots@[i]);
            }
        }
    }

    /// Scans for a slot holding a lock on file `f` that conflicts with a
    /// request by slot `me` of the given kind: for a shared request,
    /// another slot's exclusive lock; for an exclusive request, any lock
    /// on the file, `me`'s own included.
    fn scan_conflict(&self, me: usize, f: usize, kind: LockKind) -> (c: bool)
        requires
            self.inv(),
        ensures
            c <==> (if kind == LockKind::Shared {
                exists|i: int|
                    0 <= i < self.slot_count() && i != me && (#[trigger] self.slot_file(i)) == f
                        && self.has_exclusive(i)
            } else {
                exists|i: int|
                    0 <= i < self.slot_count() && (#[trigger] self.slot_file(i)) == f
                        && self.slot_locked(i)
            }),
    {
        let exclusive_request = match kind {
            LockKind::Shared => false,
            LockKind::Exclusive => true,
        };
        let mut i: usize = 0;
        let mut c = false;
        while i < self.slots.len()
            invariant
                i <= self.slots@.len(),
                exclusive_request == (kind == LockKind::Exclusive),
                c <==> (if kind == LockKind::Shared {
                    exists|k: int|
                        0 <= k < i && k != me && (#[trigger] self.slot_file(k)) == f
                            && self.has_exclusive(k)
                } else {
                    exists|k: int|
                        0 <= k < i && (#[trigger] self.slot_file(k)) == f && self.slot_locked(k)
                }),
                self.inv(),
            decreases self.slots@.len() - i,
        {
            proof {
                assert(self.slot_group(i as int) == self.slots@[i as int].group);
                assert(self.shared_count(i as int) == self.slots@[i as int].shared);
                assert(self.has_exclusive(i as int) == self.slots@[i as int].exclusive);
            }
            let gi = self.slots[i].group;
            proof {
                assert(self.slot_file(i as int) == self.groups@[gi as int].file);
            }
            if self.groups[gi].file == f {
                let hit = if exclusive_request {
                    self.slots[i].shared > 0 || self.slots[i].exclusive
                } else {
                    i != me && self.slots[i].exclusive
                };
                if hit {
                    c = true;
                }
            }
            i = i + 1;
        }
        c
    }

    /// Scans for an open handle of kernel object `g` in a slot other
    /// than `skip`.
    fn scan_group_live_except(&self, g: usize, skip: usize) -> (b: bool)
        ensures
            b <==> exists|k: int|
                0 <= k < self.slots@.len() && k != skip && (#[trigger] self.slots@[k]).open
                    && self.slots@[k].group == g,
    {
        let mut i: usize = 0;
        let mut b = false;
        while i < self.slots.len()
            invariant
                i <= self.slots@.len(),
                b <==> exists|k: int|
                    0 <= k < i && k != skip && (#[trigger] self.slots@[k]).open
                        && self.slots@[k].group == g,
            decreases self.slots@.len() - i,
        {
            if i != skip && self.slots[i].open && self.slots[i].group == g {
                b = true;
            }
            i = i + 1;
        }
        b
    }

    /// After only the cursor of kernel object `g` changed — its file
    /// kept, the handle table and the file count untouched — the
    /// invariants still hold and everything but that cursor agrees with
    /// `pre`.
    proof fn lemma_cursor_only_change(&self, pre: Self, g: int)
        requires
            pre.inv(),
            0 <= g < pre.group_count(),
            self.slots@ == pre.slots@,
            self.groups@.len() == pre.groups@.len(),
            self.groups@[g].file == pre.groups@[g].file,
            forall|j: int|
                0 <= j < pre.groups@.len() && j != g ==> (#[trigger] self.groups@[j])
                    == pre.groups@[j],
            self.files@.len() == pre.files@.len(),
        ensures
            self.inv(),
            Self::handles_unchanged(pre, *self),
            self.group_count() == pre.group_count(),
            self.group_file(g) == pre.group_file(g),
            forall|j: int|
                0 <= j < pre.group_count() && j != g ==> (#[trigger] self.group_file(j))
                    == pre.group_file(j) && self.group_cursor(j) == pre.group_cursor(j),
            forall|k: int|
                0 <= k < pre.slot_count() ==> (#[trigger] self.shared_count(k))
                    == pre.shared_count(k) && self.has_exclusive(k) == pre.has_exclusive(k)
                    && self.slot_group(k) == pre.slot_group(k),
    {
        assert forall|j: int| 0 <= j < pre.group_count() && j != g implies (
        #[trigger] self.group_file(j)) == pre.group_file(j) && self.group_cursor(j)
            == pre.group_cursor(j) by {
            assert(self.groups@[j] == pre.groups@[j]);
        }
        assert forall|i: int| 0 <= i < self.slots@.len() implies (
        #[trigger] self.slots@[i]).group < self.groups@.len() by {
            assert(pre.slots@[i].group < pre.groups@.len());
        }
        assert forall|j: int| 0 <= j < self.groups@.len() implies (
        #[trigger] self.groups@[j]).file < self.files@.len() by {
            if j != g {
                assert(self.groups@[j] == pre.groups@[j]);
            }
            assert(pre.groups@[j].file < pre.files@.len());
        }
        assert forall|i1: int, i2: int|
            0 <= i1 < self.slot_count() && 0 <= i2 < self.slot_count() && i1 != i2 && (
            #[trigger] self.has_exclusive(i1)) && (#[trigger] self.slot_file(i2))
                == self.slot_file(i1) implies !self.slot_locked(i2) by {
            assert(self.slot_group(i1) == pre.slot_group(i1));
            assert(self.slot_group(i2) == pre.slot_group(i2));
            assert(pre.slots@[i1].group < pre.groups@.len());
            assert(pre.slots@[i2].group < pre.groups@.len());
            assert(self.group_file(pre.slot_group(i1)) == pre.group_file(pre.slot_group(i1)));
            assert(self.group_file(pre.slot_group(i2)) == pre.group_file(pre.slot_group(i2)));
            assert(pre.slot_file(i1) == self.slot_file(i1));
            assert(pre.slot_file(i2) == self.slot_file(i2));
            assert(pre.has_exclusive(i1) == self.has_exclusive(i1));
            assert(!pre.slot_locked(i2));
            assert(pre.shared_count(i2) == self.shared_count(i2));
            assert(pre.has_exclusive(i2) == self.has_exclusive(i2));
        }
        assert forall|i: int|
            0 <= i < self.slot_count() && (#[trigger] self.slot_locked(i)) implies self.group_live(
            self.slot_group(i),
        ) by {
            assert(pre.shared_count(i) == self.shared_count(i));
            assert(pre.has_exclusive(i) == self.has_exclusive(i));
            assert(pre.slot_locked(i));
            assert(pre.group_live(pre.slot_group(i)));
            assert(self.slot_group(i) == pre.slot_group(i));
            let k = choose|k: int|
                0 <= k < pre.slots@.len() && (#[trigger] pre.slots@[k]).open && pre.slots@[k].group
                    == pre.slot_group(i);
            assert(self.slots@[k] == pre.slots@[k]);
        }
        assert forall|h2: Handle| (#[trigger] self.is_open(h2)) == pre.is_open(h2) by {}
        assert forall|h2: Handle| 0 <= h2.id() < pre.slot_count() implies (
        #[trigger] self.group_of(h2)) == pre.group_of(h2) by {}
        assert forall|k: int| 0 <= k < pre.slot_count() implies (#[trigger] self.shared_count(k))
            == pre.shared_count(k) && self.has_exclusive(k) == pre.has_exclusive(k)
            && self.slot_group(k) == pre.slot_group(k) by {}
        assert(self.group_file(g) == pre.group_file(g));
    }

    /// One byte of file `f`.
    fn file_byte(&self, f: usize, i: usize) -> (b: u8)
        requires
            self.is_file(f),
            (i as int) < self.file_data(f as int).len(),
        ensures
            b == self.file_data(f as int)[i as int],
    {
        self.files[f].data[i]
    }

    /// Writes `buf` through `h` at the cursor its kernel object shares,
    /// extending the file with zeroes first if the cursor sits past its
    /// end, and moves the cursor past the written bytes.
    pub fn write(&mut self, h: &Handle, buf: &[u8])
        requires
            old(self).inv(),
            old(self).is_open(*h),
            old(self).cursor(*h) + buf@.len() <= usize::MAX,
        ensures
            final(self).inv(),
            Self::write_spec(*old(self), *final(self), *h, buf@),
    {
        let gr = self.slots[h.id].group;
        let f = self.groups[gr].file;
        let cur = self.groups[gr].cursor;
        proof {
            assert(gr as int == old(self).group_of(*h));
            assert(f as int == old(self).file_of(*h));
            assert(cur as int == old(self).group_cursor(gr as int));
        }
        let end = cur + buf.len();
        let old_len = self.files[f].data.len();
        let total = if old_len > end {
            old_len
        } else {
            end
        };
        let ghost goal = crate::written(old(self).file_data(f as int), cur as int, buf@);
        let mut nd: Vec<u8> = Vec::new();
        let mut i: usize = 0;
        while i < total
            invariant
                i <= total,
                *self == *old(self),
                old(self).inv(),
                gr as int == old(self).group_of(*h),
                f as int == old(self).file_of(*h),
                (f as int) < old(self).file_count(),
                cur as int == old(self).group_cursor(gr as int),
                cur + buf@.len() == end,
                end <= usize::MAX,
                old_len == old(self).file_data(f as int).len(),
                total == if old_len > end {
                    old_len
                } else {
                    end
                },
                goal == crate::written(old(self).file_data(f as int), cur as int, buf@),
                goal.len() == total,
                nd@.len() == i as int,
                forall|k: int| 0 <= k < i ==> nd@[k] == goal[k],
            decreases total - i,
        {
            let b: u8;
            if cur <= i && i < end {
                b = buf[i - cur];
            } else if i < old_len {
                b = self.file_byte(f, i);
            } else {
                b = 0;
            }
            proof {
                assert(b == goal[i as int]);
            }
            nd.push(b);
            i = i + 1;
        }
        self.files.set(f, FileData { data: nd });
        self.groups.set(gr, Group { file: f, cursor: end });
        proof {
            assert(self.file_data(f as int) =~= goal);
            assert(self.slots@ == old(self).slots@);
            self.lemma_cursor_only_change(*old(self), gr as int);
            assert forall|ff: int| 0 <= ff < old(self).file_count() && ff != f implies (
            #[trigger] self.file_data(ff)) == old(self).file_data(ff) by {
                assert(self.files@[ff] == old(self).files@[ff]);
            }
        }
    }

    /// Reads through `h` from the shared cursor to the end of the file,
    /// leaving the cursor at the end.  A cursor at or past the end
    /// yields nothing.
    pub fn read_to_end(&mut self, h: &Handle) -> (out: Vec<u8>)
        requires
            old(self).inv(),
            old(self).is_open(*h),
        ensures
            final(self).inv(),
            Self::read_spec(*old(self), *final(self), *h, out@),
    {
        let gr = self.slots[h.id].group;
        let f = self.groups[gr].file;
        let cur = self.groups[gr].cursor;
        proof {
            assert(gr as int == old(self).group_of(*h));
            assert(f as int == old(self).file_of(*h));
            assert(cur as int == old(self).group_cursor(gr as int));
        }
        let len = self.files[f].data.len();
        let mut out: Vec<u8> = Vec::new();
        if cur < len {
            let mut i: usize = cur;
            while i < len
                invariant
                    cur <= i <= len,
                    *self == *old(self),
                    old(self).inv(),
                    (f as int) < old(self).file_count(),
                    len == old(self).file_data(f as int).len(),
                    out@.len() == i - cur,
                    forall|k: int|
                        0 <= k < out@.len() ==> out@[k] == old(self).file_data(f as int)[cur + k],
                decreases len - i,
            {
                let b = self.file_byte(f, i);
                out.push(b);
                i = i + 1;
            }
            self.groups.set(gr, Group { file: f, cursor: len });
        }
        proof {
            let data = old(self).contents(*h);
            if cur < len {
                assert(out@ =~= data.subrange(cur as int, data.len() as int));
                self.lemma_cursor_only_change(*old(self), gr as int);
            } else {
                assert(out@ =~= Seq::<u8>::empty());
                if cur as int <= data.len() {
                    assert(out@ =~= data.subrange(cur as int, data.len() as int));
                }
            }
            assert forall|ff: int| 0 <= ff < old(self).file_count() implies (
            #[trigger] self.file_data(ff)) == old(self).file_data(ff) by {
                assert(self.files@[ff] == old(self).files@[ff]);
            }
        }
        out
    }

    /// Moves the shared cursor of `h`'s kernel object to `pos`, counted
    /// from the start of the file.  Seeking past the end is allowed.
    pub fn seek(&mut self, h: &Handle, pos: usize)
        requires
            old(self).inv(),
            old(self).is_open(*h),
        ensures
            final(self).inv(),
            Self::seek_spec(*old(self), *final(self), *h, pos as int),
    {
        let gr = self.slots[h.id].group;
        proof {
            assert(gr as int == old(self).group_of(*h));
        }
        let f = self.groups[gr].file;
        self.groups.set(gr, Group { file: f, cursor: pos });
        proof {
            assert(self.slots@ == old(self).slots@);
            self.lemma_cursor_only_change(*old(self), gr as int);
            assert forall|ff: int| 0 <= ff < old(self).file_count() implies (
            #[trigger] self.file_data(ff)) == old(self).file_data(ff) by {
                assert(self.files@[ff] == old(self).files@[ff]);
            }
        }
    }

    /// An empty world: no files, no kernel objects, no handles.
    pub fn new() -> (fs: MandatoryFs)
        ensures
            fs.inv(),
            fs.file_count() == 0,
            fs.group_count() == 0,
            fs.slot_count() == 0,
    {
        MandatoryFs { files: Vec::new(), groups: Vec::new(), slots: Vec::new() }
    }

    /// Makes a new, empty file and returns its name.  Stands in for the
    /// host's file-creation facility, which is outside the locking layer.
    pub fn create_file(&mut self) -> (f: usize)
        requires
            old(self).inv(),
        ensures
            final(self).inv(),
            f as int == old(self).file_count(),
            final(self).file_count() == old(self).file_count() + 1,
            final(self).is_file(f),
            final(self).file_data(f as int) == Seq::<u8>::empty(),
            forall|g: int|
                0 <= g < old(self).file_count() ==> (#[trigger] final(self).file_data(g)) == old(
                    self,
                ).file_data(g),
            Self::handles_unchanged(*old(self), *final(self)),
            final(self).group_count() == old(self).group_count(),
            forall|g: int|
                0 <= g < old(self).group_count() ==> (#[trigger] final(self).group_file(g)) == old(
                    self,
                ).group_file(g) && final(self).group_cursor(g) == old(self).group_cursor(g),
            forall|k: int|
                0 <= k < old(self).slot_count() ==> (#[trigger] final(self).shared_count(k)) == old(
                    self,
                ).shared_count(k) && final(self).has_exclusive(k) == old(self).has_exclusive(k)
                    && final(self).slot_group(k) == old(self).slot_group(k),
    {
        let f = self.files.len();
        self.files.push(FileData { data: Vec::new() });
        proof {
            assert forall|g: int| 0 <= g < old(self).file_count() implies (
            #[trigger] self.file_data(g)) == old(self).file_data(g) by {
                assert(self.files@[g] == old(self).files@[g]);
            }
            assert forall|i1: int, i2: int|
                0 <= i1 < self.slot_count() && 0 <= i2 < self.slot_count() && i1 != i2 && (
                #[trigger] self.has_exclusive(i1)) && (#[trigger] self.slot_file(i2))
                    == self.slot_file(i1) implies !self.slot_locked(i2) by {
                assert(old(self).has_exclusive(i1) == self.has_exclusive(i1));
                assert(old(self).slot_file(i1) == self.slot_file(i1));
                assert(old(self).slot_file(i2) == self.slot_file(i2));
                assert(old(self).shared_count(i2) == self.shared_count(i2));
                assert(old(self).has_exclusive(i2) == self.has_exclusive(i2));
            }
            assert forall|i: int|
                0 <= i < self.slot_count() && (#[trigger] self.slot_locked(i)) implies self
                .group_live(self.slot_group(i)) by {
                assert(old(self).shared_count(i) == self.shared_count(i));
                assert(old(self).has_exclusive(i) == self.has_exclusive(i));
                assert(old(self).slot_locked(i));
                assert(old(self).group_live(old(self).slot_group(i)));
                assert(old(self).slot_group(i) == self.slot_group(i));
            }
            assert forall|h2: Handle| (#[trigger] self.is_open(h2)) == old(self).is_open(h2) by {}
            assert forall|h2: Handle| 0 <= h2.id() < old(self).slot_count() implies (
            #[trigger] self.group_of(h2)) == old(self).group_of(h2) by {}
            assert forall|g: int| 0 <= g < old(self).group_count() implies (
            #[trigger] self.group_file(g)) == old(self).group_file(g) by {}
            assert forall|k: int| 0 <= k < old(self).slot_count() implies (
            #[trigger] self.shared_count(k)) == old(self).shared_count(k) && self.has_exclusive(k)
                == old(self).has_exclusive(k) && self.slot_group(k) == old(self).slot_group(
                k,
            ) by {}
        }
        f
    }

    /// Opens file `f`: a fresh kernel object and a fresh handle on it,
    /// holding no locks.  Stands in for the host's file-open facility,
    /// which is outside the locking layer.
    pub fn open(&mut self, f: usize) -> (h: Handle)
        requires
            old(self).inv(),
            old(self).is_file(f),
        ensures
            final(self).inv(),
            Self::open_spec(*old(self), *final(self), f, h),
    {
        let g = self.groups.len();
        self.groups.push(Group { file: f, cursor: 0 });
        let id = self.slots.len();
        self.slots.push(HSlot { group: g, open: true, shared: 0, exclusive: false });
        proof {
            assert forall|i: int| 0 <= i < self.slots@.len() implies (
            #[trigger] self.slots@[i]).group < self.groups@.len() by {
                if i < old(self).slots@.len() {
                    assert(self.slots@[i] == old(self).slots@[i]);
                } else {
                    assert(self.slots@[i] == (HSlot {
                        group: g,
                        open: true,
                        shared: 0,
                        exclusive: false,
                    }));
                }
            }
            assert forall|j: int| 0 <= j < self.groups@.len() implies (
            #[trigger] self.groups@[j]).file < self.files@.len() by {
                if j < old(self).groups@.len() {
                    assert(self.groups@[j] == old(self).groups@[j]);
                } else {
                    assert(self.groups@[j] == (Group { file: f, cursor: 0 }));
                }
            }
            assert forall|k: int| 0 <= k < old(self).slot_count() implies (
            #[trigger] self.shared_count(k)) == old(self).shared_count(k) && self.has_exclusive(k)
                == old(self).has_exclusive(k) && self.slot_group(k) == old(self).slot_group(k) by {
                assert(self.slots@[k] == old(self).slots@[k]);
            }
            assert forall|gg: int| 0 <= gg < old(self).group_count() implies (
            #[trigger] self.group_file(gg)) == old(self).group_file(gg) && self.group_cursor(gg)
                == old(self).group_cursor(gg) by {
                assert(self.groups@[gg] == old(self).groups@[gg]);
            }
            assert forall|i1: int, i2: int|
                0 <= i1 < self.slot_count() && 0 <= i2 < self.slot_count() && i1 != i2 && (
                #[trigger] self.has_exclusive(i1)) && (#[trigger] self.slot_file(i2))
                    == self.slot_file(i1) implies !self.slot_locked(i2) by {
                assert(i1 < old(self).slot_count());
                assert(old(self).has_exclusive(i1) == self.has_exclusive(i1));
                assert(old(self).slot_file(i1) == self.slot_file(i1));
                if i2 < old(self).slot_count() {
                    assert(old(self).slot_file(i2) == self.slot_file(i2));
                    assert(old(self).shared_count(i2) == self.shared_count(i2));
                    assert(old(self).has_exclusive(i2) == self.has_exclusive(i2));
                } else {
                    assert(self.shared_count(i2) == 0 && !self.has_exclusive(i2));
                }
            }
            assert forall|i: int|
                0 <= i < self.slot_count() && (#[trigger] self.slot_locked(i)) implies self
                .group_live(self.slot_group(i)) by {
                assert(i < old(self).slot_count());
                assert(old(self).shared_count(i) == self.shared_count(i));
                assert(old(self).has_exclusive(i) == self.has_exclusive(i));
                assert(old(self).slot_locked(i));
                assert(old(self).group_live(old(self).slot_group(i)));
                let k = choose|k: int|
                    0 <= k < old(self).slots@.len() && (#[trigger] old(self).slots@[k]).open && old(
                    self,
                ).slots@[k].group == old(self).slot_group(i);
                assert(self.slots@[k] == old(self).slots@[k]);
            }
            assert forall|h2: Handle| 0 <= h2.id() < old(self).slot_count() implies (
            #[trigger] self.is_open(h2)) == old(self).is_open(h2) && self.group_of(h2) == old(
                self,
            ).group_of(h2) by {
                assert(self.slots@[h2.id()] == old(self).slots@[h2.id()]);
            }
        }
        Handle { id }
    }

    /// Closes `h`, consuming it.  Its locks stay behind while a
    /// duplicate keeps the kernel object alive; when the last handle of
    /// the object closes, every lock the object's handles held dies with
    /// it.
    pub fn close(&mut self, h: Handle)
        requires
            old(self).inv(),
            old(self).is_open(h),
        ensures
            final(self).inv(),
            Self::close_spec(*old(self), *final(self), h),
    {
        let gr = self.slots[h.id].group;
        proof {
            assert(gr as int == old(self).group_of(h));
        }
        let live = self.scan_group_live_except(gr, h.id);
        let sh = self.slots[h.id].shared;
        let ex = self.slots[h.id].exclusive;
        self.slots.set(h.id, HSlot { group: gr, open: false, shared: sh, exclusive: ex });
        let ghost mid = *self;
        proof {
            assert(mid.group_live(gr as int) <==> live) by {
                if live {
                    let k = choose|k: int|
                        0 <= k < old(self).slots@.len() && k != h.id() && (#[trigger] old(
                            self,
                        ).slots@[k]).open && old(self).slots@[k].group == gr;
                    assert(mid.slots@[k] == old(self).slots@[k]);
                    assert(mid.group_live(gr as int));
                }
                if mid.group_live(gr as int) {
                    let k = choose|k: int|
                        0 <= k < mid.slots@.len() && (#[trigger] mid.slots@[k]).open
                            && mid.slots@[k].group == gr;
                    assert(k != h.id());
                    assert(old(self).slots@[k] == mid.slots@[k]);
                }
            }
        }
        if !live {
            // the kernel object is gone: every lock of its group dies
            let mut i: usize = 0;
            while i < self.slots.len()
                invariant
                    i <= self.slots@.len(),
                    self.groups@ == mid.groups@,
                    self.files == mid.files,
                    self.slots@.len() == mid.slots@.len(),
                    forall|k: int|
                        0 <= k < i && mid.slots@[k].group == gr ==> (#[trigger] self.slots@[k])
                            == (HSlot {
                            group: mid.slots@[k].group,
                            open: mid.slots@[k].open,
                            shared: 0,
                            exclusive: false,
                        }),
                    forall|k: int|
                        0 <= k < i && mid.slots@[k].group != gr ==> (#[trigger] self.slots@[k])
                            == mid.slots@[k],
                    forall|k: int|
                        i <= k < mid.slots@.len() ==> (#[trigger] self.slots@[k])
                            == mid.slots@[k],
                decreases self.slots@.len() - i,
            {
                if self.slots[i].group == gr {
                    let op = self.slots[i].open;
                    self.slots.set(i, HSlot { group: gr, open: op, shared: 0, exclusive: false });
                }
                i = i + 1;
            }
        }
        proof {
            let pre = *old(self);
            let g = gr as int;
            assert forall|h2: Handle| h2.id() != h.id() implies (#[trigger] self.is_open(h2))
                == pre.is_open(h2) by {
                if 0 <= h2.id() < pre.slots@.len() {
                    if live {
                        assert(self.slots@[h2.id()] == pre.slots@[h2.id()]);
                    } else {
                        assert(self.slots@[h2.id()].open == mid.slots@[h2.id()].open);
                        assert(mid.slots@[h2.id()] == pre.slots@[h2.id()]);
                    }
                }
            }
            assert(!self.is_open(h)) by {
                if live {
                    assert(self.slots@[h.id()] == mid.slots@[h.id()]);
                } else {
                    assert(self.slots@[h.id()].open == mid.slots@[h.id()].open);
                }
            }
            assert forall|k: int| 0 <= k < pre.slot_count() implies (#[trigger] self.slot_group(k))
                == pre.slot_group(k) by {
                if k != h.id() {
                    assert(mid.slots@[k] == pre.slots@[k]);
                }
                if live {
                    assert(self.slots@[k] == mid.slots@[k]);
                } else {
                    assert(self.slots@[k].group == mid.slots@[k].group);
                }
            }
            assert forall|h2: Handle| 0 <= h2.id() < pre.slot_count() implies (
            #[trigger] self.group_of(h2)) == pre.group_of(h2) by {
                assert(self.slot_group(h2.id()) == pre.slot_group(h2.id()));
            }
            assert(self.group_live(g) <==> mid.group_live(g)) by {
                if mid.group_live(g) {
                    let k = choose|k: int|
                        0 <= k < mid.slots@.len() && (#[trigger] mid.slots@[k]).open
                            && mid.slots@[k].group == gr;
                    assert(self.slots@[k].open && self.slots@[k].group == mid.slots@[k].group);
                }
                if self.group_live(g) {
                    let k = choose|k: int|
                        0 <= k < self.slots@.len() && (#[trigger] self.slots@[k]).open
                            && self.slots@[k].group == gr;
                    assert(mid.slots@[k].open && mid.slots@[k].group == self.slots@[k].group);
                }
            }
            assert forall|k: int| 0 <= k < pre.slot_count() implies (
            #[trigger] self.shared_count(k)) == (if !self.group_live(g) && pre.slot_group(k) == g {
                0int
            } else {
                pre.shared_count(k)
            }) && self.has_exclusive(k) == (if !self.group_live(g) && pre.slot_group(k) == g {
                false
            } else {
                pre.has_exclusive(k)
            }) by {
                if k != h.id() {
                    assert(mid.slots@[k] == pre.slots@[k]);
                }
                if live {
                    assert(self.slots@[k] == mid.slots@[k]);
                }
            }
            // the invariants
            assert forall|i: int| 0 <= i < self.slots@.len() implies (
            #[trigger] self.slots@[i]).group < self.groups@.len() by {
                assert(self.slot_group(i) == pre.slot_group(i));
                assert(pre.slots@[i].group < pre.groups@.len());
            }
            assert forall|i1: int, i2: int|
                0 <= i1 < self.slot_count() && 0 <= i2 < self.slot_count() && i1 != i2 && (
                #[trigger] self.has_exclusive(i1)) && (#[trigger] self.slot_file(i2))
                    == self.slot_file(i1) implies !self.slot_locked(i2) by {
                assert(self.slot_group(i1) == pre.slot_group(i1));
                assert(self.slot_group(i2) == pre.slot_group(i2));
                assert(pre.has_exclusive(i1));
                assert(pre.slot_file(i1) == self.slot_file(i1));
                assert(pre.slot_file(i2) == self.slot_file(i2));
                assert(!pre.slot_locked(i2));
                assert(self.shared_count(i2) == 0 || self.shared_count(i2) == pre.shared_count(
                    i2,
                ));
            }
            assert forall|i: int|
                0 <= i < self.slot_count() && (#[trigger] self.slot_locked(i)) implies self
                .group_live(self.slot_group(i)) by {
                assert(self.slot_group(i) == pre.slot_group(i));
                if self.group_live(g) || pre.slot_group(i) != g {
                    assert(pre.slot_locked(i));
                    assert(pre.group_live(pre.slot_group(i)));
                    if pre.slot_group(i) == g {
                        assert(self.group_live(g));
                    } else {
                        let k = choose|k: int|
                            0 <= k < pre.slots@.len() && (#[trigger] pre.slots@[k]).open
                                && pre.slots@[k].group == pre.slot_group(i);
                        assert(k != h.id());
                        assert(mid.slots@[k] == pre.slots@[k]);
                        if live {
                            assert(self.slots@[k] == mid.slots@[k]);
                        } else {
                            assert(self.slots@[k].open && self.slots@[k].group
                                == mid.slots@[k].group);
                        }
                    }
                }
            }
        }
    }
}

/// The flag bit that asks the native lock call for an exclusive lock.
pub const LOCKFILE_EXCLUSIVE_LOCK: u32 = 2;

/// The flag bit that asks the native lock call to fail at once instead
/// of waiting.
pub const LOCKFILE_FAIL_IMMEDIATELY: u32 = 1;

/// The native code with which this family signals lock contention.
pub const ERROR_LOCK_VIOLATION: i32 = 33;

/// The native code with which this family refuses a release through a
/// handle that holds no lock.
pub const ERROR_NOT_LOCKED: i32 = 158;

/// The native flag word for a lock request of the given kind,
/// nonblocking if asked.
pub fn lockfile_flags(kind: LockKind, nonblocking: bool) -> (fl: u32)
    ensures
        fl == (if kind == LockKind::Exclusive {
            LOCKFILE_EXCLUSIVE_LOCK
        } else {
            0
        }) + (if nonblocking {
            LOCKFILE_FAIL_IMMEDIATELY
        } else {
            0
        }),
{
    let base = match kind {
        LockKind::Shared => 0,
        LockKind::Exclusive => LOCKFILE_EXCLUSIVE_LOCK,
    };
    if nonblocking {
        base + LOCKFILE_FAIL_IMMEDIATELY
    } else {
        base
    }
}

/// The canonical error of a contended nonblocking request in this family.
pub fn lock_error() -> (e: LockError)
    ensures
        e == LockError::Contended,
{
    LockError::Contended
}

/// Handles of one kernel object share one cursor and see one file: what
/// duplication yields is a second name for the same read/write position,
/// even though it shares none of the locks.
pub proof fn duplicate_shares_cursor(fs: MandatoryFs, h: Handle, d: Handle)
    requires
        fs.same_group(h, d),
    ensures
        fs.cursor(d) == fs.cursor(h),
        fs.contents(d) == fs.contents(h),
{
}

/// Any lock on the file — held by any handle slot, the requesting
/// handle's own included, open or closed — denies a nonblocking
/// exclusive request: exclusive locks do not stack on anything.
pub proof fn any_lock_blocks_exclusive(fs: MandatoryFs, i: int, h2: Handle)
    requires
        fs.inv(),
        0 <= i < fs.slot_count(),
        fs.slot_locked(i),
        fs.is_open(h2),
        fs.slot_file(i) == fs.file_of(h2),
    ensures
        !fs.exclusive_grantable(h2),
{
}

/// An exclusive lock held by one handle slot denies a nonblocking shared
/// request through any other handle.
pub proof fn exclusive_blocks_shared(fs: MandatoryFs, i: int, h2: Handle)
    requires
        fs.inv(),
        0 <= i < fs.slot_count(),
        fs.has_exclusive(i),
        fs.is_open(h2),
        i != h2.id(),
        fs.slot_file(i) == fs.file_of(h2),
    ensures
        !fs.shared_grantable(h2),
{
}

/// Closing a handle with no outstanding duplicate releases its locks:
/// once the closed handle's kernel object is dead and it was the only
/// lock holder on the file, a request through any other handle is
/// grantable.
pub proof fn close_without_duplicates_releases(
    pre: MandatoryFs,
    post: MandatoryFs,
    h1: Handle,
    h2: Handle,
)
    requires
        pre.inv(),
        pre.is_open(h1),
        pre.is_open(h2),
        pre.same_file(h1, h2),
        h1.id() != h2.id(),
        forall|i: int|
            0 <= i < pre.slot_count() && i != h1.id() && (#[trigger] pre.slot_file(i))
                == pre.file_of(h1) ==> !pre.slot_locked(i),
        MandatoryFs::close_spec(pre, post, h1),
        !post.group_live(pre.group_of(h1)),
    ensures
        post.is_open(h2),
        post.exclusive_grantable(h2),
        post.shared_grantable(h2),
{
    assert(post.is_open(h2)) by {
        assert(h2.id() != h1.id());
    }
    assert forall|i: int|
        0 <= i < post.slot_count() && (#[trigger] post.slot_file(i)) == post.file_of(
            h2,
        ) implies !post.slot_locked(i) by {
        assert(post.group_of(h2) == pre.group_of(h2));
        assert(post.slot_group(i) == pre.slot_group(i));
        assert(pre.slot_file(i) == post.slot_file(i));
        assert(pre.slot_file(i) == pre.file_of(h1));
        if pre.slot_group(i) == pre.group_of(h1) {
            assert(!post.group_live(pre.group_of(h1)));
            assert(post.shared_count(i) == 0);
            assert(!post.has_exclusive(i));
        } else {
            assert(post.shared_count(i) == pre.shared_count(i));
            assert(post.has_exclusive(i) == pre.has_exclusive(i));
            if i != h1.id() {
                assert(!pre.slot_locked(i));
            }
        }
    }
}

/// Once the handle that held the only lock on the file pops its last
/// lock, an exclusive request through any other handle is grantable.
pub proof fn exclusive_grantable_after_last_release(
    pre: MandatoryFs,
    post: MandatoryFs,
    h1: Handle,
    h2: Handle,
)
    requires
        pre.inv(),
        0 <= h1.id() < pre.slot_count(),
        pre.is_open(h2),
        pre.same_file(h1, h2),
        pre.shared_count(h1.id()) + (if pre.has_exclusive(h1.id()) {
            1int
        } else {
            0int
        }) == 1,
        forall|i: int|
            0 <= i < pre.slot_count() && i != h1.id() && (#[trigger] pre.slot_file(i))
                == pre.file_of(h1) ==> !pre.slot_locked(i),
        MandatoryFs::unlock_spec(pre, post, h1),
    ensures
        post.exclusive_grantable(h2),
        post.shared_grantable(h2),
{
    assert forall|i: int|
        0 <= i < post.slot_count() && (#[trigger] post.slot_file(i)) == post.file_of(h2) implies !post.slot_locked(i) by {
        assert(post.is_open(h2) == pre.is_open(h2));
        assert(post.group_of(h2) == pre.group_of(h2));
        assert(post.slot_group(i) == pre.slot_group(i));
        assert(pre.slot_file(i) == post.slot_file(i));
        assert(pre.slot_file(i) == pre.file_of(h1));
        if i == h1.id() {
            assert(!post.slot_locked(i));
        } else {
            assert(post.shared_count(i) == pre.shared_count(i));
            assert(post.has_exclusive(i) == pre.has_exclusive(i));
            assert(!pre.slot_locked(i));
        }
    }
}

} // verus!
