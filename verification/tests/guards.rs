//! Scope-bound lock guards over the advisory family.

use fs2::advisory::AdvisoryFs;
use fs2::lock_contended_error;
use fs2::guard::FileLock;

/// Tests guarded shared file lock operations.
#[test]
fn lock_shared_guard() {
    let mut fs = AdvisoryFs::new();
    let path = fs.create_file();
    let file1 = fs.open(path);
    let file2 = fs.open(path);
    let file3 = fs.open(path);

    // Concurrent shared access is OK, but not shared and exclusive.
    let guard1 = fs.lock_shared_guard(file1).unwrap();
    let guard2 = fs.lock_shared_guard(file2).unwrap();
    let (file3, err) = fs.try_lock_exclusive_guard(file3).unwrap_err();
    assert_eq!(err, lock_contended_error());
    fs.release_guard(guard1);
    let (file3, err) = fs.try_lock_exclusive_guard(file3).unwrap_err();
    assert_eq!(err, lock_contended_error());

    // Once all shared file locks are dropped, an exclusive lock may be created;
    fs.release_guard(guard2);
    fs.lock_exclusive_guard(file3).unwrap();
}

/// Tests guarded exclusive file lock operations.
#[test]
fn lock_exclusive_guard() {
    let mut fs = AdvisoryFs::new();
    let path = fs.create_file();
    let file1 = fs.open(path);
    let file2 = fs.open(path);

    // No other access is possible once an exclusive lock is created.
    let guard1 = fs.lock_exclusive_guard(file1).unwrap();
    let (file2, err) = fs.try_lock_exclusive_guard(file2).unwrap_err();
    assert_eq!(err, lock_contended_error());
    let (file2, err) = fs.try_lock_shared_guard(file2).unwrap_err();
    assert_eq!(err, lock_contended_error());

    // Once the exclusive lock is dropped, the second file is able to create a lock.
    fs.release_guard(guard1);
    fs.lock_exclusive_guard(file2).unwrap();
}

/// The owning guard's failure path returns the original handle unchanged
/// beside the contended error, and the handle stays usable.
#[test]
fn owning_guard_failure_returns_handle() {
    let mut fs = AdvisoryFs::new();
    let path = fs.create_file();
    let file1 = fs.open(path);
    let file2 = fs.open(path);
    let raw2 = file2.as_raw();

    let guard1 = fs.lock_exclusive_guard(file1).unwrap();
    let (file2, err) = fs.try_lock_exclusive_guard(file2).unwrap_err();
    assert_eq!(err, lock_contended_error());
    assert_eq!(file2.as_raw(), raw2);

    // The handle that came back is still usable once the guard is gone.
    fs.release_guard(guard1);
    let guard2 = fs.lock_exclusive_guard(file2).unwrap();
    fs.release_guard(guard2);
}

/// A guard's lock holds for its whole scope and is gone right after the
/// guard is released: the same contended attempt succeeds immediately
/// afterwards.
#[test]
fn guard_scope_bounds_the_lock() {
    let mut fs = AdvisoryFs::new();
    let path = fs.create_file();
    let file1 = fs.open(path);
    let file2 = fs.open(path);

    let guard1 = fs.lock_shared_guard(file1).unwrap();
    let (file2, err) = fs.try_lock_exclusive_guard(file2).unwrap_err();
    assert_eq!(err, lock_contended_error());
    let file1 = fs.release_guard(guard1);
    let guard2 = fs.try_lock_exclusive_guard(file2).unwrap();
    fs.release_guard(guard2);
    fs.close(file1);
}
