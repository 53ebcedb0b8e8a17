//! Concrete checks of the remaining behaviors: the weak-symbol cell, the
//! native operation encodings, the error taxonomy, the space arithmetic,
//! and the file-cursor model behind duplication.

use fs2::advisory;
use fs2::advisory::AdvisoryFs;
use fs2::lock_contended_error;
use fs2::mandatory;
use fs2::mandatory::MandatoryFs;
use fs2::stats::allocated_size_from_blocks;
use fs2::stats::allocation_needed;
use fs2::stats::FsStats;
use fs2::weak;
use fs2::weak::SymbolState;
use fs2::weak::WeakFlock;
use fs2::FileExt;
use fs2::LockError;
use fs2::LockKind;

/// Three shared locks from distinct handles coexist; an exclusive
/// attempt is contended until the last one is released.
#[test]
fn shared_locks_coexist_until_all_released() {
    let mut fs = AdvisoryFs::new();
    let path = fs.create_file();
    let file1 = fs.open(path);
    let file2 = fs.open(path);
    let file3 = fs.open(path);
    let file4 = fs.open(path);

    fs.lock_shared(&file1).unwrap();
    fs.lock_shared(&file2).unwrap();
    fs.lock_shared(&file3).unwrap();
    assert_eq!(fs.try_lock_exclusive(&file4).unwrap_err(), lock_contended_error());
    fs.unlock(&file1).unwrap();
    assert_eq!(fs.try_lock_exclusive(&file4).unwrap_err(), lock_contended_error());
    fs.unlock(&file2).unwrap();
    assert_eq!(fs.try_lock_exclusive(&file4).unwrap_err(), lock_contended_error());
    fs.unlock(&file3).unwrap();
    fs.try_lock_exclusive(&file4).unwrap();
}

/// Reading an empty file yields nothing, and handles on different files
/// never contend.
#[test]
fn distinct_files_do_not_contend() {
    let mut fs = AdvisoryFs::new();
    let path_a = fs.create_file();
    let path_b = fs.create_file();
    let file_a = fs.open(path_a);
    let file_b = fs.open(path_b);

    let buf = fs.read_to_end(&file_a);
    assert_eq!(0, buf.len());

    fs.lock_exclusive(&file_a).unwrap();
    fs.try_lock_exclusive(&file_b).unwrap();
}

/// Writing past the end, after a seek, fills the gap with zeroes.
#[test]
fn write_after_seek_pads_with_zeroes() {
    let mut fs = AdvisoryFs::new();
    let path = fs.create_file();
    let file = fs.open(path);

    fs.write(&file, b"ab");
    fs.seek(&file, 4);
    fs.write(&file, b"cd");
    fs.seek(&file, 0);
    let buf = fs.read_to_end(&file);
    assert_eq!(buf.as_slice(), &[b'a', b'b', 0, 0, b'c', b'd']);
}

/// Overwriting in the middle replaces exactly the written range.
#[test]
fn write_overwrites_in_place() {
    let mut fs = AdvisoryFs::new();
    let path = fs.create_file();
    let file = fs.open(path);

    fs.write(&file, b"abcdef");
    fs.seek(&file, 2);
    fs.write(&file, b"XY");
    fs.seek(&file, 0);
    let buf = fs.read_to_end(&file);
    assert_eq!(buf.as_slice(), b"abXYef");
}

/// Releasing through a mandatory-family handle that holds no lock
/// reports the family's not-locked system error.
#[test]
fn mandatory_unlock_without_lock_errors() {
    let mut fs = MandatoryFs::new();
    let path = fs.create_file();
    let file = fs.open(path);
    assert_eq!(fs.unlock(&file).unwrap_err(), LockError::System(mandatory::ERROR_NOT_LOCKED));
}

/// The advisory family's release succeeds even with no lock held.
#[test]
fn advisory_unlock_without_lock_succeeds() {
    let mut fs = AdvisoryFs::new();
    let path = fs.create_file();
    let file = fs.open(path);
    fs.unlock(&file).unwrap();
}

/// The portable contended error and the per-family canonical errors
/// agree, and raw-code translation hits each variant.
#[test]
fn error_taxonomy() {
    assert_eq!(lock_contended_error(), LockError::Contended);
    assert_eq!(advisory::lock_error(), lock_contended_error());
    assert_eq!(mandatory::lock_error(), lock_contended_error());

    let wouldblock = 11;
    assert_eq!(LockError::from_os_code(11, wouldblock), LockError::Contended);
    assert_eq!(LockError::from_os_code(13, wouldblock), LockError::System(13));
    assert_eq!(
        LockError::from_os_code(mandatory::ERROR_LOCK_VIOLATION, mandatory::ERROR_LOCK_VIOLATION),
        LockError::Contended
    );
}

/// The advisory family's native operation words.
#[test]
fn flock_operation_words() {
    assert_eq!(advisory::flock_operation(LockKind::Shared, false), 1);
    assert_eq!(advisory::flock_operation(LockKind::Exclusive, false), 2);
    assert_eq!(advisory::flock_operation(LockKind::Shared, true), 5);
    assert_eq!(advisory::flock_operation(LockKind::Exclusive, true), 6);
    assert_eq!(advisory::unlock_operation(), 8);
}

/// The mandatory family's native flag words.
#[test]
fn lockfile_flag_words() {
    assert_eq!(mandatory::lockfile_flags(LockKind::Shared, false), 0);
    assert_eq!(mandatory::lockfile_flags(LockKind::Exclusive, false), 2);
    assert_eq!(mandatory::lockfile_flags(LockKind::Shared, true), 1);
    assert_eq!(mandatory::lockfile_flags(LockKind::Exclusive, true), 3);
}

/// The weak-symbol cell resolves once, to the probed address or to
/// absent, and never changes after leaving the sentinel.
#[test]
fn weak_cell_resolves_once() {
    let mut cell = WeakFlock::new();
    assert_eq!(cell.get(0x7f00), Some(0x7f00));
    // a later probe result does not replace the resolved address
    assert_eq!(cell.get(0x9900), Some(0x7f00));

    let mut absent = WeakFlock::new();
    assert_eq!(absent.get(0), None);
    assert_eq!(absent.get(0x7f00), None);
}

/// The cell-word vocabulary: the sentinel, absent, and present words,
/// and the update rule applied between a load and a store.
#[test]
fn weak_cell_words() {
    assert_eq!(weak::decode(weak::UNRESOLVED), SymbolState::Unresolved);
    assert_eq!(weak::decode(0), SymbolState::Absent);
    assert_eq!(weak::decode(0x7f00), SymbolState::Present(0x7f00));

    assert!(weak::needs_probe(weak::UNRESOLVED));
    assert!(!weak::needs_probe(0));
    assert!(!weak::needs_probe(0x7f00));

    assert_eq!(weak::resolve_step(weak::UNRESOLVED, 0x7f00), 0x7f00);
    assert_eq!(weak::resolve_step(0x7f00, 0x9900), 0x7f00);
    assert_eq!(weak::resolve_step(0, 0x9900), 0);
}

/// The space figures come out as block size times block count, and an
/// overflowing product is refused.
#[test]
fn statvfs_arithmetic() {
    let s = FsStats::from_statvfs(4096, 10, 7, 100).unwrap();
    assert_eq!(s.free_space(), 40960);
    assert_eq!(s.available_space(), 28672);
    assert_eq!(s.total_space(), 409600);
    assert_eq!(s.allocation_granularity(), 4096);

    assert!(FsStats::from_statvfs(u64::MAX, 2, 1, 1).is_none());

    assert_eq!(allocated_size_from_blocks(8), Some(4096));
    assert!(allocated_size_from_blocks(u64::MAX).is_none());

    assert!(allocation_needed(10, 4));
    assert!(!allocation_needed(4, 4));
}
