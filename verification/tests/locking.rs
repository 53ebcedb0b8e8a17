//! Cross-family locking behavior, exercised on the advisory family.

use fs2::advisory::AdvisoryFs;
use fs2::lock_contended_error;
use fs2::FileExt;

/// Tests file duplication.
#[test]
fn duplicate() {
    let mut fs = AdvisoryFs::new();
    let path = fs.create_file();
    let file1 = fs.open(path);
    let file2 = fs.duplicate(&file1).unwrap();

    // Write into the first file and then drop it.
    fs.write(&file1, b"foo");
    fs.close(file1);

    // Read from the second file; since the position is shared it will already be at EOF.
    let buf = fs.read_to_end(&file2);
    assert_eq!(0, buf.len());

    // Rewind and read.
    fs.seek(&file2, 0);
    let buf = fs.read_to_end(&file2);
    assert_eq!(buf.as_slice(), b"foo");
}

/// Tests shared file lock operations.
#[test]
fn lock_shared() {
    let mut fs = AdvisoryFs::new();
    let path = fs.create_file();
    let file1 = fs.open(path);
    let file2 = fs.open(path);
    let file3 = fs.open(path);

    // Concurrent shared access is OK, but not shared and exclusive.
    fs.lock_shared(&file1).unwrap();
    fs.lock_shared(&file2).unwrap();
    assert_eq!(fs.try_lock_exclusive(&file3).unwrap_err(), lock_contended_error());
    fs.unlock(&file1).unwrap();
    assert_eq!(fs.try_lock_exclusive(&file3).unwrap_err(), lock_contended_error());

    // Once all shared file locks are dropped, an exclusive lock may be created;
    fs.unlock(&file2).unwrap();
    fs.lock_exclusive(&file3).unwrap();
}

/// Tests exclusive file lock operations.
#[test]
fn lock_exclusive() {
    let mut fs = AdvisoryFs::new();
    let path = fs.create_file();
    let file1 = fs.open(path);
    let file2 = fs.open(path);

    // No other access is possible once an exclusive lock is created.
    fs.lock_exclusive(&file1).unwrap();
    assert_eq!(fs.try_lock_exclusive(&file2).unwrap_err(), lock_contended_error());
    assert_eq!(fs.try_lock_shared(&file2).unwrap_err(), lock_contended_error());

    // Once the exclusive lock is dropped, the second file is able to create a lock.
    fs.unlock(&file1).unwrap();
    fs.lock_exclusive(&file2).unwrap();
}

/// Tests that a lock is released after the file that owns it is dropped.
#[test]
fn lock_cleanup() {
    let mut fs = AdvisoryFs::new();
    let path = fs.create_file();
    let file1 = fs.open(path);
    let file2 = fs.open(path);

    fs.lock_exclusive(&file1).unwrap();
    assert_eq!(fs.try_lock_shared(&file2).unwrap_err(), lock_contended_error());

    // Drop file1; the lock should be released.
    fs.close(file1);
    fs.lock_shared(&file2).unwrap();
}
