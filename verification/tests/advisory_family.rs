//! Advisory-family behavior: duplicate identity, lock replacement, and
//! locks shared among duplicated descriptors.

use fs2::advisory::AdvisoryFs;
use fs2::lock_contended_error;
use fs2::FileExt;

/// The duplicate method returns a file with a new file descriptor.
#[test]
fn duplicate_new_fd() {
    let mut fs = AdvisoryFs::new();
    let path = fs.create_file();
    let file1 = fs.open(path);
    let file2 = fs.duplicate(&file1).unwrap();
    assert!(file1.as_raw() != file2.as_raw());
}

/// Tests that locking a file descriptor will replace any existing locks held on the file
/// descriptor.
#[test]
fn lock_replace() {
    let mut fs = AdvisoryFs::new();
    let path = fs.create_file();
    let file1 = fs.open(path);
    let file2 = fs.open(path);

    // Creating a shared lock will drop an exclusive lock.
    fs.lock_exclusive(&file1).unwrap();
    fs.lock_shared(&file1).unwrap();
    fs.lock_shared(&file2).unwrap();

    // Attempting to replace a shared lock with an exclusive lock will fail with multiple lock
    // holders, and remove the original shared lock.
    assert_eq!(fs.try_lock_exclusive(&file2).unwrap_err(), lock_contended_error());
    fs.lock_shared(&file1).unwrap();
}

/// Tests that locks are shared among duplicated file descriptors.
#[test]
fn lock_duplicate() {
    let mut fs = AdvisoryFs::new();
    let path = fs.create_file();
    let file1 = fs.open(path);
    let file2 = fs.duplicate(&file1).unwrap();
    let file3 = fs.open(path);

    // Create a lock through fd1, then replace it through fd2.
    fs.lock_shared(&file1).unwrap();
    fs.lock_exclusive(&file2).unwrap();
    assert_eq!(fs.try_lock_shared(&file3).unwrap_err(), lock_contended_error());

    // Either of the file descriptors should be able to unlock.
    fs.unlock(&file1).unwrap();
    fs.lock_shared(&file3).unwrap();
}
