//! Mandatory-family behavior: handle-scoped locks that stack, duplicated
//! handles with no access to each other's locks, and locks that outlive a
//! closed handle while a duplicate keeps the kernel object alive.

use fs2::lock_contended_error;
use fs2::mandatory::MandatoryFs;
use fs2::FileExt;

/// The duplicate method returns a file with a new file handle.
#[test]
fn duplicate_new_handle() {
    let mut fs = MandatoryFs::new();
    let path = fs.create_file();
    let file1 = fs.open(path);
    let file2 = fs.duplicate(&file1).unwrap();
    assert!(file1.as_raw() != file2.as_raw());
}

/// A duplicated file handle does not have access to the original handle's locks.
#[test]
fn lock_duplicate_handle_independence() {
    let mut fs = MandatoryFs::new();
    let path = fs.create_file();
    let file1 = fs.open(path);
    let file2 = fs.duplicate(&file1).unwrap();

    // Locking the original file handle will block the duplicate file handle from opening a lock.
    fs.lock_shared(&file1).unwrap();
    assert_eq!(fs.try_lock_exclusive(&file2).unwrap_err(), lock_contended_error());

    // Once the original file handle is unlocked, the duplicate handle can proceed with a lock.
    fs.unlock(&file1).unwrap();
    fs.lock_exclusive(&file2).unwrap();
}

/// A duplicated file handle shares the original's read/write position.
#[test]
fn duplicate_shares_position() {
    let mut fs = MandatoryFs::new();
    let path = fs.create_file();
    let file1 = fs.open(path);
    let file2 = fs.duplicate(&file1).unwrap();

    // Write through the original; the shared position is already past
    // the written bytes, so the duplicate reads nothing.
    fs.write(&file1, b"foo");
    let buf = fs.read_to_end(&file2);
    assert_eq!(0, buf.len());

    // Rewind the duplicate and read the written bytes back.
    fs.seek(&file2, 0);
    let buf = fs.read_to_end(&file2);
    assert_eq!(buf.as_slice(), b"foo");
}

/// A file handle may not be exclusively locked multiple times, or exclusively locked and then
/// shared locked.
#[test]
fn lock_non_reentrant() {
    let mut fs = MandatoryFs::new();
    let path = fs.create_file();
    let file = fs.open(path);

    // Multiple exclusive locks fails.
    fs.lock_exclusive(&file).unwrap();
    assert_eq!(fs.try_lock_exclusive(&file).unwrap_err(), lock_contended_error());
    fs.unlock(&file).unwrap();

    // Shared then Exclusive locks fails.
    fs.lock_shared(&file).unwrap();
    assert_eq!(fs.try_lock_exclusive(&file).unwrap_err(), lock_contended_error());
}

/// A file handle can hold an exclusive lock and any number of shared locks, all of which must
/// be unlocked independently.
#[test]
fn lock_layering() {
    let mut fs = MandatoryFs::new();
    let path = fs.create_file();
    let file = fs.open(path);

    // Open two shared locks on the file, and then try and fail to open an exclusive lock.
    fs.lock_exclusive(&file).unwrap();
    fs.lock_shared(&file).unwrap();
    fs.lock_shared(&file).unwrap();
    assert_eq!(fs.try_lock_exclusive(&file).unwrap_err(), lock_contended_error());

    // Pop one of the shared locks and try again.
    fs.unlock(&file).unwrap();
    assert_eq!(fs.try_lock_exclusive(&file).unwrap_err(), lock_contended_error());

    // Pop the second shared lock and try again.
    fs.unlock(&file).unwrap();
    assert_eq!(fs.try_lock_exclusive(&file).unwrap_err(), lock_contended_error());

    // Pop the exclusive lock and finally succeed.
    fs.unlock(&file).unwrap();
    fs.lock_exclusive(&file).unwrap();
}

/// A file handle with multiple open locks will have all locks closed on drop.
#[test]
fn lock_layering_cleanup() {
    let mut fs = MandatoryFs::new();
    let path = fs.create_file();
    let file1 = fs.open(path);
    let file2 = fs.open(path);

    // Open two shared locks on the file, and then try and fail to open an exclusive lock.
    fs.lock_shared(&file1).unwrap();
    assert_eq!(fs.try_lock_exclusive(&file2).unwrap_err(), lock_contended_error());

    fs.close(file1);
    fs.lock_exclusive(&file2).unwrap();
}

/// A file handle's locks will not be released until the original handle and all of its
/// duplicates have been closed.
#[test]
fn lock_duplicate_cleanup() {
    let mut fs = MandatoryFs::new();
    let path = fs.create_file();
    let file1 = fs.open(path);
    let file2 = fs.duplicate(&file1).unwrap();

    // Open a lock on the original handle, then close it.
    fs.lock_shared(&file1).unwrap();
    fs.close(file1);

    // Attempting to create a lock on the file with the duplicate handle will fail.
    assert_eq!(fs.try_lock_exclusive(&file2).unwrap_err(), lock_contended_error());
}
