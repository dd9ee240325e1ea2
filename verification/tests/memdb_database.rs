use pmxcfs::api_types::VmType;
use pmxcfs::memdb::database::{MemDb, MemDbError, PersistOp};
use pmxcfs::memdb::vmlist::recreate_vmlist;

const NOW: u32 = 1_700_000_000;
const S_IFDIR: u32 = libc::S_IFDIR;
const S_IFREG: u32 = libc::S_IFREG;

fn open() -> MemDb {
    MemDb::load(Vec::new(), NOW)
}

fn reopen(db: &MemDb) -> MemDb {
    MemDb::load(db.get_all_entries(), NOW)
}

#[test]
fn test_lock_expiration() {
    let mut db = open();
    let t0 = NOW as u64;
    let path = "/priv/lock/test-resource";
    let csum = [42u8; 32];
    db.create("/priv", S_IFDIR, 0, NOW).unwrap();
    db.create("/priv/lock", S_IFDIR, 0, NOW).unwrap();
    db.acquire_lock_at(path, &csum, t0).unwrap();
    assert!(db.is_locked_at(path, t0), "Lock should be active");
    assert!(!db.lock_expired_at(path, &csum, t0), "Lock should not be expired initially");
    assert!(db.is_locked_at(path, t0 + 2), "Lock should still be active after 2 seconds");
    assert!(!db.lock_expired_at(path, &csum, t0 + 2), "Lock should not be expired after 2 seconds");
    let later = t0 + 121;
    assert!(db.lock_expired_at(path, &csum, later), "Lock should be expired after 121 seconds");
    assert!(!db.is_locked_at(path, later), "is_locked() should return false for expired locks");
    let different_csum = [99u8; 32];
    assert!(
        !db.lock_expired_at(path, &different_csum, later),
        "lock_expired() with different checksum should reset timeout and return false"
    );
    assert!(db.is_locked_at(path, later), "Lock should be active after checksum reset");
}

#[test]
fn test_memdb_file_size_limit() {
    let mut db = open();
    db.create("/test.bin", S_IFREG, 0, NOW).unwrap();
    let data_1mb = vec![0u8; 1024 * 1024];
    let result = db.write("/test.bin", 0, 0, NOW, &data_1mb, false);
    assert!(result.is_ok(), "1MB file should be accepted");
    let data_too_large = vec![0u8; 1024 * 1024 + 1];
    db.create("/test2.bin", S_IFREG, 0, NOW).unwrap();
    let result = db.write("/test2.bin", 0, 0, NOW, &data_too_large, false);
    assert!(result.is_err(), "File larger than 1MB should be rejected");
}

#[test]
fn test_memdb_basic_operations() {
    let mut db = open();
    db.create("/testdir", S_IFDIR, 0, NOW).unwrap();
    assert!(db.path_exists("/testdir"), "Directory should exist");
    db.create("/testdir/file.txt", S_IFREG, 0, NOW).unwrap();
    assert!(db.path_exists("/testdir/file.txt"), "File should exist");
    let data = b"Hello, pmxcfs!";
    db.write("/testdir/file.txt", 0, 0, NOW, data, false).unwrap();
    let read_data = db.read("/testdir/file.txt", 0, 1024).unwrap();
    assert_eq!(&read_data[..], data, "Read data should match written data");
    let entries = db.readdir("/testdir").unwrap();
    assert_eq!(entries.len(), 1, "Directory should have 1 entry");
    assert_eq!(entries[0].name, "file.txt");
    db.rename("/testdir/file.txt", "/testdir/renamed.txt", 0, NOW).unwrap();
    assert!(!db.path_exists("/testdir/file.txt"), "Old path should not exist");
    assert!(db.path_exists("/testdir/renamed.txt"), "New path should exist");
    db.delete("/testdir/renamed.txt", 0, NOW).unwrap();
    assert!(!db.path_exists("/testdir/renamed.txt"), "Deleted file should not exist");
}

#[test]
fn test_lock_management() {
    let mut db = open();
    db.create("/priv", S_IFDIR, 0, NOW).unwrap();
    db.create("/priv/lock", S_IFDIR, 0, NOW).unwrap();
    db.create("/priv/lock/qemu-server", S_IFDIR, 0, NOW).unwrap();
    let path = "/priv/lock/resource";
    let csum1 = [1u8; 32];
    let csum2 = [2u8; 32];
    db.create(path, S_IFREG, 0, NOW).unwrap();
    assert!(!db.is_locked(path), "Path should not be locked initially");
    db.acquire_lock(path, &csum1).unwrap();
    assert!(db.is_locked(path), "Path should be locked after acquisition");
    let result = db.acquire_lock(path, &csum2);
    assert!(result.is_err(), "Lock with different checksum should fail");
    let result = db.acquire_lock(path, &csum1);
    assert!(result.is_ok(), "Lock refresh with same checksum should succeed");
    db.release_lock(path, &csum1).unwrap();
    assert!(!db.is_locked(path), "Path should not be locked after release");
    let result = db.release_lock(path, &csum1);
    assert!(result.is_err(), "Releasing non-existent lock should fail");
    let config_path = "/qemu-server/100.conf";
    let csum3 = [3u8; 32];
    db.acquire_lock(config_path, &csum3).unwrap();
    assert!(db.is_locked(config_path), "Config path should be locked");
    db.release_lock(config_path, &csum3).unwrap();
    assert!(!db.is_locked(config_path), "Config path should be unlocked after release");
}

#[test]
fn test_lock_cache_cleanup_on_delete() {
    let mut db = open();
    db.create("/priv", S_IFDIR, 0, NOW).unwrap();
    db.create("/priv/lock", S_IFDIR, 0, NOW).unwrap();
    db.create("/priv/lock/testlock", S_IFDIR, 0, NOW).unwrap();
    assert!(db.path_exists("/priv/lock/testlock"));
    db.delete("/priv/lock/testlock", 0, NOW).unwrap();
    assert!(!db.path_exists("/priv/lock/testlock"));
}

fn lock_dir_db() -> MemDb {
    let mut db = open();
    db.create("/priv", S_IFDIR, 0, NOW).unwrap();
    db.create("/priv/lock", S_IFDIR, 0, NOW).unwrap();
    db.create("/priv/lock/mylock", S_IFDIR, 0, NOW).unwrap();
    db
}

#[test]
fn test_lock_protection_same_writer() {
    let mut db = lock_dir_db();
    let entry = db.lookup_path("/priv/lock/mylock").unwrap();
    let writer_id = entry.writer;
    let new_mtime = NOW + 10;
    let result = db.set_mtime("/priv/lock/mylock", writer_id, new_mtime);
    assert!(result.is_ok(), "Same writer should be able to update lock mtime");
    let updated_entry = db.lookup_path("/priv/lock/mylock").unwrap();
    assert_eq!(updated_entry.mtime, new_mtime);
}

#[test]
fn test_lock_protection_different_writer() {
    let mut db = lock_dir_db();
    let entry = db.lookup_path("/priv/lock/mylock").unwrap();
    let original_writer = entry.writer;
    let different_writer = original_writer + 1;
    let new_mtime = NOW + 10;
    let result = db.set_mtime("/priv/lock/mylock", different_writer, new_mtime);
    assert!(result.is_err(), "Different writer should NOT be able to hijack lock");
    assert!(
        result.unwrap_err().to_string().contains("Lock owned by different writer"),
        "Error should indicate lock ownership conflict"
    );
    let unchanged_entry = db.lookup_path("/priv/lock/mylock").unwrap();
    assert_eq!(unchanged_entry.mtime, NOW, "Mtime should not have changed");
}

#[test]
fn test_lock_protection_older_mtime() {
    let mut db = lock_dir_db();
    let entry = db.lookup_path("/priv/lock/mylock").unwrap();
    let writer_id = entry.writer;
    let older_mtime = NOW - 10;
    let result = db.set_mtime("/priv/lock/mylock", writer_id, older_mtime);
    assert!(result.is_err(), "Cannot set older mtime on lock");
    assert!(
        result.unwrap_err().to_string().contains("Cannot set older mtime"),
        "Error should indicate mtime protection"
    );
    let unchanged_entry = db.lookup_path("/priv/lock/mylock").unwrap();
    assert_eq!(unchanged_entry.mtime, NOW, "Mtime should not have changed");
}

#[test]
fn test_lock_protection_newer_mtime() {
    let mut db = lock_dir_db();
    let entry = db.lookup_path("/priv/lock/mylock").unwrap();
    let writer_id = entry.writer;
    let newer_mtime = NOW + 60;
    let result = db.set_mtime("/priv/lock/mylock", writer_id, newer_mtime);
    assert!(result.is_ok(), "Should be able to set newer mtime on lock");
    let updated_entry = db.lookup_path("/priv/lock/mylock").unwrap();
    assert_eq!(updated_entry.mtime, newer_mtime, "Mtime should be updated");
}

#[test]
fn test_regular_file_mtime_update() {
    let mut db = open();
    db.create("/testfile.txt", 0, 0, NOW).unwrap();
    let entry = db.lookup_path("/testfile.txt").unwrap();
    let writer_id = entry.writer;
    let result = db.set_mtime("/testfile.txt", writer_id, NOW - 10);
    assert!(result.is_ok(), "Regular files should allow older mtime");
    let result = db.set_mtime("/testfile.txt", writer_id, NOW + 10);
    assert!(result.is_ok(), "Regular files should allow newer mtime");
}

#[test]
fn test_lock_lifecycle_with_cache() {
    let mut db = open();
    db.create("/priv", S_IFDIR, 0, NOW).unwrap();
    db.create("/priv/lock", S_IFDIR, 0, NOW).unwrap();
    db.create("/priv/lock/lifecycle_lock", S_IFDIR, 0, NOW).unwrap();
    assert!(db.path_exists("/priv/lock/lifecycle_lock"));
    let entry = db.lookup_path("/priv/lock/lifecycle_lock").unwrap();
    let writer_id = entry.writer;
    for i in 1..=5 {
        let refresh_mtime = NOW + (i * 30);
        let result = db.set_mtime("/priv/lock/lifecycle_lock", writer_id, refresh_mtime);
        assert!(result.is_ok(), "Lock refresh #{i} should succeed");
        let refreshed_entry = db.lookup_path("/priv/lock/lifecycle_lock").unwrap();
        assert_eq!(refreshed_entry.mtime, refresh_mtime);
    }
    db.delete("/priv/lock/lifecycle_lock", 0, NOW).unwrap();
    assert!(!db.path_exists("/priv/lock/lifecycle_lock"));
}

#[test]
fn test_lock_renewal_before_expiration() {
    let mut db = open();
    let t0 = NOW as u64;
    let path = "/priv/lock/renewal-test";
    let csum = [55u8; 32];
    db.create("/priv", S_IFDIR, 0, NOW).unwrap();
    db.create("/priv/lock", S_IFDIR, 0, NOW).unwrap();
    db.acquire_lock_at(path, &csum, t0).unwrap();
    assert!(db.is_locked_at(path, t0), "Lock should be active");
    let t1 = t0 + 119;
    assert!(!db.lock_expired_at(path, &csum, t1), "Lock should not be expired at 119 seconds");
    assert!(db.is_locked_at(path, t1), "is_locked() should return true before expiration");
    db.acquire_lock_at(path, &csum, t1).unwrap();
    assert!(!db.lock_expired_at(path, &csum, t1), "Lock should not be expired after renewal");
    assert!(db.is_locked_at(path, t1), "Lock should still be active after renewal");
    assert!(
        db.lock_expired_at(path, &csum, t1 + 121),
        "Lock should be expired after 121 seconds without renewal"
    );
}

#[test]
fn test_acquire_lock_after_expiration() {
    let mut db = open();
    let t0 = NOW as u64;
    let path = "/priv/lock/reacquire-test";
    let csum1 = [11u8; 32];
    let csum2 = [22u8; 32];
    db.create("/priv", S_IFDIR, 0, NOW).unwrap();
    db.create("/priv/lock", S_IFDIR, 0, NOW).unwrap();
    db.acquire_lock_at(path, &csum1, t0).unwrap();
    assert!(db.is_locked_at(path, t0), "Lock should be active");
    let t1 = t0 + 121;
    assert!(db.lock_expired_at(path, &csum1, t1), "Lock should be expired");
    assert!(!db.is_locked_at(path, t1), "is_locked() should return false for expired lock");
    let result = db.acquire_lock_at(path, &csum2, t1);
    assert!(result.is_ok(), "Should be able to acquire expired lock with different checksum");
    assert!(db.is_locked_at(path, t1), "Lock should be active with new checksum");
    assert!(!db.lock_expired_at(path, &csum2, t1), "New lock should not be expired");
    assert!(
        !db.lock_expired_at(path, &csum1, t1),
        "lock_expired() with old checksum should reset timeout and return false"
    );
}

#[test]
fn test_multiple_locks_expiring() {
    let mut db = open();
    db.create("/priv", S_IFDIR, 0, NOW).unwrap();
    db.create("/priv/lock", S_IFDIR, 0, NOW).unwrap();
    let t = NOW as u64;
    let locks = [("/priv/lock/lock1", [1u8; 32]), ("/priv/lock/lock2", [2u8; 32]), ("/priv/lock/lock3", [3u8; 32])];
    // lock1 and lock3 taken 121 seconds before the check, lock2 119 seconds before
    let taken = [t - 121, t - 119, t - 121];
    for (i, (path, csum)) in locks.iter().enumerate() {
        db.acquire_lock_at(path, csum, taken[i]).unwrap();
        assert!(db.is_locked_at(path, taken[i]), "Lock {path} should be active");
    }
    assert!(db.lock_expired_at(locks[0].0, &locks[0].1, t), "lock1 should be expired");
    assert!(!db.lock_expired_at(locks[1].0, &locks[1].1, t), "lock2 should not be expired");
    assert!(db.lock_expired_at(locks[2].0, &locks[2].1, t), "lock3 should be expired");
    assert!(!db.is_locked_at(locks[0].0, t), "lock1 is_locked should return false");
    assert!(db.is_locked_at(locks[1].0, t), "lock2 is_locked should return true");
    assert!(!db.is_locked_at(locks[2].0, t), "lock3 is_locked should return false");
    let new_csum1 = [11u8; 32];
    let new_csum3 = [33u8; 32];
    assert!(db.acquire_lock_at(locks[0].0, &new_csum1, t).is_ok(), "Should be able to re-acquire expired lock1");
    assert!(db.acquire_lock_at(locks[2].0, &new_csum3, t).is_ok(), "Should be able to re-acquire expired lock3");
    assert!(db.is_locked_at(locks[0].0, t), "lock1 should be active again");
    assert!(db.is_locked_at(locks[1].0, t), "lock2 should still be active");
    assert!(db.is_locked_at(locks[2].0, t), "lock3 should be active again");
}

#[test]
fn test_lock_expiration_boundary() {
    let mut db = open();
    let t0 = NOW as u64;
    let path = "/priv/lock/boundary-test";
    let csum = [77u8; 32];
    db.create("/priv", S_IFDIR, 0, NOW).unwrap();
    db.create("/priv/lock", S_IFDIR, 0, NOW).unwrap();
    db.acquire_lock_at(path, &csum, t0).unwrap();
    assert!(!db.lock_expired_at(path, &csum, t0 + 120), "Lock should NOT be expired at exactly 120 seconds (boundary)");
    assert!(db.is_locked_at(path, t0 + 120), "Lock should still be considered active at 120 seconds");
    assert!(db.lock_expired_at(path, &csum, t0 + 121), "Lock SHOULD be expired at 121 seconds");
    assert!(!db.is_locked_at(path, t0 + 121), "Lock should not be considered active at 121 seconds");
}

#[test]
fn test_invalid_path_traversal() {
    let mut db = open();
    let invalid_paths = vec!["/../etc/passwd", "/test/../../../etc/passwd", "//etc//passwd", "/test/./file"];
    for invalid_path in invalid_paths {
        let result = db.create(invalid_path, S_IFREG, 0, NOW);
        if let Err(e) = result {
            let msg = e.to_string();
            assert!(
                msg.contains("Invalid") || msg.contains("not found"),
                "Invalid path '{invalid_path}' should produce appropriate error: {msg}"
            );
        }
    }
}

#[test]
fn test_operations_on_nonexistent_paths() {
    let mut db = open();
    assert!(db.read("/nonexistent.txt", 0, 100).is_err(), "Reading non-existent file should fail");
    assert!(db.write("/nonexistent.txt", 0, 0, NOW, b"data", false).is_err(), "Writing to non-existent file should fail");
    assert!(db.delete("/nonexistent.txt", 0, NOW).is_err(), "Deleting non-existent file should fail");
    assert!(db.rename("/nonexistent.txt", "/new.txt", 0, NOW).is_err(), "Renaming non-existent file should fail");
    assert!(!db.is_locked("/nonexistent.txt"), "Non-existent file should not be locked");
}

#[test]
fn test_file_type_mismatches() {
    let mut db = open();
    db.create("/testdir", S_IFDIR, 0, NOW).unwrap();
    assert!(db.write("/testdir", 0, 0, NOW, b"data", false).is_err(), "Writing to a directory should fail");
    assert!(db.read("/testdir", 0, 100).is_err(), "Reading from a directory should fail");
    db.create("/testfile.txt", S_IFREG, 0, NOW).unwrap();
    assert!(db.readdir("/testfile.txt").is_err(), "Readdir on a file should fail");
}

#[test]
fn test_duplicate_creation() {
    let mut db = open();
    db.create("/duplicate.txt", S_IFREG, 0, NOW).unwrap();
    assert!(db.create("/duplicate.txt", S_IFREG, 0, NOW).is_err(), "Creating duplicate file should fail");
    db.create("/dupdir", S_IFDIR, 0, NOW).unwrap();
    assert!(db.create("/dupdir", S_IFDIR, 0, NOW).is_err(), "Creating duplicate directory should fail");
}

#[test]
fn test_rename_target_exists() {
    let mut db = open();
    db.create("/source.txt", S_IFREG, 0, NOW).unwrap();
    db.write("/source.txt", 0, 0, NOW, b"source data", false).unwrap();
    db.create("/target.txt", S_IFREG, 0, NOW).unwrap();
    db.write("/target.txt", 0, 0, NOW, b"target data", false).unwrap();
    let result = db.rename("/source.txt", "/target.txt", 0, NOW);
    assert!(result.is_ok(), "Renaming to existing target should succeed (POSIX semantics)");
    assert!(!db.path_exists("/source.txt"), "Source should not exist after rename");
    assert!(db.path_exists("/target.txt"), "Target should exist");
    let data = db.read("/target.txt", 0, 100).unwrap();
    assert_eq!(&data[..], b"source data", "Target should have source's data after atomic replacement");
}

#[test]
fn test_delete_nonempty_directory() {
    let mut db = open();
    db.create("/parent", S_IFDIR, 0, NOW).unwrap();
    db.create("/parent/child.txt", S_IFREG, 0, NOW).unwrap();
    let result = db.delete("/parent", 0, NOW);
    if let Err(e) = result {
        let msg = e.to_string();
        assert!(
            msg.contains("not empty") || msg.contains("ENOTEMPTY"),
            "Deleting non-empty directory should produce appropriate error: {msg}"
        );
    }
}

#[test]
fn test_write_offset_beyond_file_size() {
    let mut db = open();
    db.create("/offset-test.txt", S_IFREG, 0, NOW).unwrap();
    db.write("/offset-test.txt", 0, 0, NOW, b"hello", false).unwrap();
    let result = db.write("/offset-test.txt", 100, 0, NOW, b"world", false);
    if result.is_ok() {
        let data = db.read("/offset-test.txt", 0, 200).unwrap();
        assert_eq!(&data[0..5], b"hello", "Initial data should be preserved");
        assert_eq!(&data[100..105], b"world", "Data at offset should be written");
    }
}

#[test]
fn test_empty_path_handling() {
    let mut db = open();
    let result = db.create("", S_IFREG, 0, NOW);
    assert!(result.is_err(), "Empty path should be rejected for create");
}

#[test]
fn test_database_persistence() {
    let mut db = open();
    db.create("/persistent.txt", S_IFREG, 0, NOW).unwrap();
    db.write("/persistent.txt", 0, 0, NOW, b"persistent data", false).unwrap();
    let db = reopen(&db);
    assert!(db.path_exists("/persistent.txt"), "File should persist across reopens");
    let data = db.read("/persistent.txt", 0, 1024).unwrap();
    assert_eq!(&data[..], b"persistent data", "Data should persist");
}

#[test]
fn test_persistence_with_multiple_files() {
    let mut db = open();
    db.create("/config", S_IFDIR, 0, NOW).unwrap();
    db.create("/file1.txt", S_IFREG, 0, NOW).unwrap();
    db.write("/file1.txt", 0, 0, NOW, b"content 1", false).unwrap();
    db.create("/config/file2.txt", S_IFREG, 0, NOW).unwrap();
    db.write("/config/file2.txt", 0, 0, NOW, b"content 2", false).unwrap();
    let db = reopen(&db);
    assert!(db.path_exists("/config"), "Directory should persist");
    assert!(db.path_exists("/file1.txt"), "File 1 should persist");
    assert!(db.path_exists("/config/file2.txt"), "File 2 should persist");
    assert_eq!(&db.read("/file1.txt", 0, 1024).unwrap()[..], b"content 1", "File 1 content should persist");
    assert_eq!(&db.read("/config/file2.txt", 0, 1024).unwrap()[..], b"content 2", "File 2 content should persist");
}

#[test]
fn test_persistence_after_updates() {
    let mut db = open();
    db.create("/mutable.txt", S_IFREG, 0, NOW).unwrap();
    db.write("/mutable.txt", 0, 0, NOW, b"initial", false).unwrap();
    let mut db = reopen(&db);
    db.write("/mutable.txt", 0, 0, NOW + 1, b"updated", false).unwrap();
    let db = reopen(&db);
    let data = db.read("/mutable.txt", 0, 1024).unwrap();
    assert_eq!(&data[..], b"updated", "Updated data should persist");
}

#[test]
fn entry_checksum_is_not_zero_and_changes_with_data() {
    let mut db = open();
    db.create("/file1.txt", S_IFREG, 0, NOW).unwrap();
    db.write("/file1.txt", 0, 0, NOW, b"test data 1", false).unwrap();
    let c1 = db.lookup_path("/file1.txt").unwrap().compute_checksum();
    assert_ne!(c1, [0u8; 32]);
    db.write("/file1.txt", 0, 0, NOW, b"modified data", false).unwrap();
    let c2 = db.lookup_path("/file1.txt").unwrap().compute_checksum();
    assert_ne!(c1, c2);
}

#[test]
fn read_after_write_returns_written_bytes_at_offset() {
    let mut db = open();
    db.create("/f", S_IFREG, 0, NOW).unwrap();
    db.write("/f", 0, 0, NOW, b"abcdef", false).unwrap();
    db.write("/f", 2, 0, NOW, b"XY", false).unwrap();
    assert_eq!(db.read("/f", 0, 100).unwrap(), b"abXYef");
    db.write("/f", 1, 0, NOW, b"Z", true).unwrap();
    assert_eq!(db.read("/f", 0, 100).unwrap(), b"aZ");
    assert_eq!(db.read("/f", 1, 1).unwrap(), b"Z");
}

#[test]
fn version_counts_changes() {
    let mut db = open();
    let v0 = db.get_version();
    db.create("/a", S_IFREG, 0, NOW).unwrap();
    assert!(db.get_version() > v0);
    let e = db.lookup_path("/a").unwrap();
    assert_eq!(e.version, db.get_version());
}

#[test]
fn statfs_counts_blocks_and_inodes() {
    let mut db = open();
    let (blocks, bfree, bavail, files, ffree) = db.statfs();
    assert_eq!(blocks, 32768);
    assert_eq!(bfree, 32768);
    assert_eq!(bavail, bfree);
    assert_eq!(files, 262144);
    assert_eq!(ffree, 262144 - 1);
    db.create("/f", S_IFREG, 0, NOW).unwrap();
    db.write("/f", 0, 0, NOW, &[1u8; 5000], false).unwrap();
    let (_, bfree, _, _, ffree) = db.statfs();
    assert_eq!(bfree, 32768 - 2);
    assert_eq!(ffree, 262144 - 2);
}

fn add_guest_dirs(db: &mut MemDb, node: &str) {
    db.create(&format!("/nodes/{node}"), S_IFDIR, 0, NOW).unwrap();
    db.create(&format!("/nodes/{node}/qemu-server"), S_IFDIR, 0, NOW).unwrap();
    db.create(&format!("/nodes/{node}/lxc"), S_IFDIR, 0, NOW).unwrap();
}

#[test]
fn vmlist_lists_guests_of_all_nodes() {
    let mut db = open();
    db.create("/nodes", S_IFDIR, 0, NOW).unwrap();
    add_guest_dirs(&mut db, "n1");
    add_guest_dirs(&mut db, "n2");
    db.create("/nodes/n1/qemu-server/100.conf", S_IFREG, 0, NOW).unwrap();
    db.create("/nodes/n2/lxc/200.conf", S_IFREG, 0, NOW).unwrap();
    db.create("/nodes/n2/lxc/notes.txt", S_IFREG, 0, NOW).unwrap();
    let list = recreate_vmlist(&db).unwrap();
    assert_eq!(list.len(), 2);
    assert_eq!(list[&100].node, "n1");
    assert_eq!(list[&100].vmtype, VmType::Qemu);
    assert_eq!(list[&200].node, "n2");
    assert_eq!(list[&200].vmtype, VmType::Lxc);
}

#[test]
fn vmlist_duplicate_across_nodes_is_error() {
    let mut db = open();
    db.create("/nodes", S_IFDIR, 0, NOW).unwrap();
    add_guest_dirs(&mut db, "n1");
    add_guest_dirs(&mut db, "n2");
    db.create("/nodes/n1/qemu-server/100.conf", S_IFREG, 0, NOW).unwrap();
    db.create("/nodes/n2/qemu-server/100.conf", S_IFREG, 0, NOW).unwrap();
    assert_eq!(recreate_vmlist(&db).unwrap_err(), MemDbError::DuplicateVmid);
    assert_eq!(MemDbError::DuplicateVmid.to_string(), "Duplicate VMID found");
}

#[test]
fn vmlist_duplicate_across_nodes_of_other_type_is_error() {
    let mut db = open();
    db.create("/nodes", S_IFDIR, 0, NOW).unwrap();
    add_guest_dirs(&mut db, "n1");
    add_guest_dirs(&mut db, "n2");
    db.create("/nodes/n1/qemu-server/100.conf", S_IFREG, 0, NOW).unwrap();
    db.create("/nodes/n2/lxc/100.conf", S_IFREG, 0, NOW).unwrap();
    assert_eq!(recreate_vmlist(&db).unwrap_err(), MemDbError::DuplicateVmid);
}

#[test]
fn vmlist_same_node_keeps_first_guest() {
    let mut db = open();
    db.create("/nodes", S_IFDIR, 0, NOW).unwrap();
    add_guest_dirs(&mut db, "n1");
    db.create("/nodes/n1/qemu-server/100.conf", S_IFREG, 0, NOW).unwrap();
    db.create("/nodes/n1/lxc/100.conf", S_IFREG, 0, NOW).unwrap();
    let list = recreate_vmlist(&db).unwrap();
    assert_eq!(list.len(), 1);
    assert_eq!(list[&100].vmtype, VmType::Qemu);
}

#[test]
fn vmlist_without_nodes_is_empty() {
    let db = open();
    assert!(recreate_vmlist(&db).unwrap().is_empty());
}

#[test]
fn rename_onto_itself_keeps_entry() {
    let mut db = open();
    db.create("/a.txt", S_IFREG, 0, NOW).unwrap();
    db.write("/a.txt", 0, 0, NOW, b"keep me", false).unwrap();
    let inode = db.lookup_path("/a.txt").unwrap().inode;
    db.take_pending();
    db.rename("/a.txt", "/a.txt", 0, NOW + 1).unwrap();
    let e = db.lookup_path("/a.txt").unwrap();
    assert_eq!(e.inode, inode);
    assert_eq!(db.read("/a.txt", 0, 1024).unwrap(), b"keep me".to_vec());
    let ops = db.take_pending();
    assert!(!ops.iter().any(|op| matches!(op, PersistOp::Delete { .. })));
    assert!(ops.iter().any(|op| matches!(op, PersistOp::Update { entry } if entry.inode == inode)));
    let again = reopen(&db);
    assert_eq!(again.read("/a.txt", 0, 1024).unwrap(), b"keep me".to_vec());
}

#[test]
fn rename_onto_other_entry_journals_its_delete() {
    let mut db = open();
    db.create("/a.txt", S_IFREG, 0, NOW).unwrap();
    db.create("/b.txt", S_IFREG, 0, NOW).unwrap();
    let target = db.lookup_path("/b.txt").unwrap().inode;
    db.take_pending();
    db.rename("/a.txt", "/b.txt", 0, NOW + 1).unwrap();
    let ops = db.take_pending();
    assert!(ops.iter().any(|op| matches!(op, PersistOp::Delete { inode } if *inode == target)));
    assert!(db.lookup_path("/a.txt").is_none());
}

type Row = (u64, u64, u64, u32, u32, usize, u8, String, Vec<u8>);

fn row(e: &pmxcfs::memdb::types::TreeEntry) -> Row {
    (e.inode, e.parent, e.version, e.writer, e.mtime, e.size, e.entry_type, e.name.clone(), e.data.clone())
}

fn rows_of(db: &MemDb) -> std::collections::BTreeMap<u64, Row> {
    db.get_all_entries().iter().map(|e| (e.inode, row(e))).collect()
}

fn replay(rows: &mut std::collections::BTreeMap<u64, Row>, ops: &[PersistOp]) {
    for op in ops {
        match op {
            PersistOp::SetVersion { version, writer, mtime } => {
                if let Some(r) = rows.get_mut(&0) {
                    r.2 = *version;
                    r.3 = *writer;
                    r.4 = *mtime;
                }
            }
            PersistOp::SetRootVersion { version } => {
                if let Some(r) = rows.get_mut(&0) {
                    r.2 = *version;
                }
            }
            PersistOp::Insert { entry } | PersistOp::Upsert { entry } => {
                rows.insert(entry.inode, row(entry));
            }
            PersistOp::Update { entry } => {
                if rows.contains_key(&entry.inode) {
                    rows.insert(entry.inode, row(entry));
                }
            }
            PersistOp::Delete { inode } => {
                rows.remove(inode);
            }
            PersistOp::ReplaceAll { entries } => {
                rows.clear();
                for e in entries {
                    rows.insert(e.inode, row(e));
                }
            }
        }
    }
}

#[test]
fn journal_replay_gives_entries_in_memory() {
    let mut db = open();
    let mut rows = rows_of(&db);
    db.take_pending();
    db.create("/dir", S_IFDIR, 1, NOW).unwrap();
    db.create("/dir/a.txt", S_IFREG, 1, NOW).unwrap();
    db.write("/dir/a.txt", 0, 1, NOW + 1, b"persistent data", false).unwrap();
    db.create("/b.txt", S_IFREG, 2, NOW + 2).unwrap();
    db.rename("/dir/a.txt", "/b.txt", 2, NOW + 3).unwrap();
    db.rename("/b.txt", "/b.txt", 2, NOW + 4).unwrap();
    db.delete("/dir", 3, NOW + 5).unwrap();
    db.set_mtime_at("/b.txt", 3, NOW + 6, NOW as u64 + 6, pmxcfs::digest::ByteOrder::Little).unwrap();
    let ops = db.take_pending();
    replay(&mut rows, &ops);
    assert_eq!(rows, rows_of(&db));
    assert_eq!(rows[&db.lookup_path("/b.txt").unwrap().inode].8, b"persistent data".to_vec());
}

#[test]
fn loading_rows_in_any_order_gives_them_back() {
    let mut db = open();
    db.create("/d", S_IFDIR, 1, NOW).unwrap();
    db.create("/d/f", S_IFREG, 1, NOW).unwrap();
    db.write("/d/f", 0, 1, NOW, b"xyz", false).unwrap();
    let mut entries = db.get_all_entries();
    entries.reverse();
    let again = MemDb::load(entries, NOW);
    let f = again.lookup_path("/d/f").unwrap();
    assert_eq!(f.data, b"xyz".to_vec());
    assert_eq!(again.read("/d/f", 0, 10).unwrap(), b"xyz".to_vec());
    assert!(again.lookup_path("/d").is_some());
}

#[test]
fn lock_window_and_release_laws() {
    let mut db = open();
    db.create("/priv", S_IFDIR, 0, NOW).unwrap();
    db.create("/priv/lock", S_IFDIR, 0, NOW).unwrap();
    let path = "/priv/lock/res";
    let c1 = [1u8; 32];
    let c2 = [2u8; 32];
    let t0 = NOW as u64;
    db.acquire_lock_at(path, &c1, t0).unwrap();
    assert!(db.lookup_path(path).is_some());
    // another checksum inside the window is refused and the lock stays
    assert_eq!(db.acquire_lock_at(path, &c2, t0 + 60).unwrap_err(), MemDbError::LockHeld);
    assert!(db.is_locked_at(path, t0 + 60));
    // the same checksum restarts the window
    db.acquire_lock_at(path, &c1, t0 + 100).unwrap();
    assert!(db.is_locked_at(path, t0 + 200));
    assert_eq!(db.acquire_lock_at(path, &c2, t0 + 200).unwrap_err(), MemDbError::LockHeld);
    // after the window another checksum gets the lock
    db.acquire_lock_at(path, &c2, t0 + 221).unwrap();
    assert!(db.is_locked_at(path, t0 + 221));
    // release with the wrong checksum is refused; with the right one the lock and its entry go
    assert_eq!(db.release_lock_at(path, &c1, t0 + 222).unwrap_err(), MemDbError::LockChecksumMismatch);
    assert!(db.is_locked_at(path, t0 + 222));
    db.release_lock_at(path, &c2, t0 + 223).unwrap();
    assert!(!db.is_locked_at(path, t0 + 223));
    assert!(db.lookup_path(path).is_none());
    assert_eq!(db.release_lock_at(path, &c2, t0 + 224).unwrap_err(), MemDbError::LockNotFound);
}

#[test]
fn reopen_after_replayed_changes_gives_entries() {
    let mut db = open();
    let mut rows = rows_of(&db);
    rows.get_mut(&0).unwrap().7 = "__version__".to_string();
    db.take_pending();
    db.create("/persistent.txt", S_IFREG, 0, NOW).unwrap();
    db.write("/persistent.txt", 0, 0, NOW, b"persistent data", false).unwrap();
    db.create("/d", S_IFDIR, 0, NOW + 1).unwrap();
    db.rename("/persistent.txt", "/d/p.txt", 0, NOW + 2).unwrap();
    let ops = db.take_pending();
    replay(&mut rows, &ops);
    let stored: Vec<pmxcfs::memdb::types::TreeEntry> = rows
        .values()
        .map(|r| pmxcfs::memdb::types::TreeEntry {
            inode: r.0,
            parent: r.1,
            version: r.2,
            writer: r.3,
            mtime: r.4,
            size: r.5,
            entry_type: r.6,
            name: r.7.clone(),
            data: r.8.clone(),
        })
        .collect();
    let again = MemDb::load(stored, NOW + 100);
    assert_eq!(rows_of(&again), rows_of(&db));
    assert_eq!(again.read("/d/p.txt", 0, 1024).unwrap(), b"persistent data".to_vec());
}
