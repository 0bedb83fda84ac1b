use romdirfs::romdir::{Archive, RomdirError};
use romdirfs::romdirfs::{DirEntry, FileKind, FsConfig, FsError, InodeTable, RomdirFS, ROOT_INO};

/// One 16-byte record: NUL-padded name, zero extra-info field, little-endian
/// size.
fn record(name: &[u8], size: u32) -> Vec<u8> {
    assert!(name.len() <= 10);
    let mut r = vec![0u8; 16];
    r[..name.len()].copy_from_slice(name);
    r[12..16].copy_from_slice(&size.to_le_bytes());
    r
}

/// Header record plus the given records plus a terminator record.
fn stream(records: &[Vec<u8>]) -> Vec<u8> {
    let mut s = record(b"RESET", 7);
    for r in records {
        s.extend_from_slice(r);
    }
    s.extend_from_slice(&[0u8; 16]);
    s
}

fn test_config() -> FsConfig {
    FsConfig { uid: 1000, gid: 100, file_perm: 0o444, dir_perm: 0o555, timestamp: 0 }
}

fn two_file_archive() -> (Archive, Vec<u8>) {
    let blob = stream(&[record(b"A", 4), record(b"B", 20)]);
    let archive = Archive::new(blob.clone()).expect("well-formed archive");
    (archive, blob)
}

#[test]
fn parses_two_records_with_aligned_offsets() {
    let (archive, _) = two_file_archive();
    assert_eq!(archive.file_names(), vec![b"A".to_vec(), b"B".to_vec()]);
    let a = archive.metadata(b"A").unwrap();
    assert_eq!(a.offset, 0);
    assert_eq!(a.size, 4);
    // 4 rounds up to 16
    let b = archive.metadata(b"B").unwrap();
    assert_eq!(b.offset, 16);
    assert_eq!(b.size, 20);
}

#[test]
fn padding_record_yields_no_entry() {
    let blob = stream(&[record(b"-", 5)]);
    let archive = Archive::new(blob).unwrap();
    assert_eq!(archive.file_names().len(), 0);
}

#[test]
fn padding_record_still_consumes_offset_space() {
    let blob = stream(&[record(b"-", 5), record(b"C", 1)]);
    let archive = Archive::new(blob).unwrap();
    assert_eq!(archive.file_names(), vec![b"C".to_vec()]);
    let c = archive.metadata(b"C").unwrap();
    assert_eq!(c.offset, 16);
    assert_eq!(c.size, 1);
}

#[test]
fn truncated_stream_after_header_is_corrupt() {
    let mut blob = record(b"RESET", 0);
    blob.extend_from_slice(&[7u8; 8]);
    assert!(matches!(Archive::new(blob), Err(RomdirError::CorruptArchive)));
}

#[test]
fn stream_ending_mid_record_is_corrupt() {
    let mut blob = record(b"RESET", 0);
    blob.extend_from_slice(&record(b"A", 4)[..12]);
    assert!(matches!(Archive::new(blob), Err(RomdirError::CorruptArchive)));
}

#[test]
fn missing_sentinel_is_corrupt() {
    let blob = vec![0x41u8; 48];
    assert!(matches!(Archive::new(blob), Err(RomdirError::CorruptArchive)));
}

#[test]
fn empty_stream_is_corrupt() {
    assert!(matches!(Archive::new(Vec::new()), Err(RomdirError::CorruptArchive)));
}

#[test]
fn records_before_sentinel_are_skipped() {
    let mut blob = vec![0x41u8; 16];
    blob.extend_from_slice(&stream(&[record(b"A", 4)]));
    let archive = Archive::new(blob).unwrap();
    assert_eq!(archive.file_names(), vec![b"A".to_vec()]);
    assert_eq!(archive.metadata(b"A").unwrap().offset, 0);
}

#[test]
fn name_without_nul_terminator_is_corrupt() {
    let blob = stream(&[record(b"ABCDEFGHIJ", 4)]);
    assert!(matches!(Archive::new(blob), Err(RomdirError::CorruptArchive)));
}

#[test]
fn entry_overrunning_the_blob_is_corrupt() {
    // the blob is 48 bytes long; an entry of 1000 bytes cannot fit
    let blob = stream(&[record(b"A", 1000)]);
    assert!(matches!(Archive::new(blob), Err(RomdirError::CorruptArchive)));
}

#[test]
fn later_record_with_same_name_replaces_metadata_in_place() {
    let blob = stream(&[record(b"A", 4), record(b"A", 20)]);
    let archive = Archive::new(blob).unwrap();
    assert_eq!(archive.file_names(), vec![b"A".to_vec()]);
    let a = archive.metadata(b"A").unwrap();
    assert_eq!(a.offset, 16);
    assert_eq!(a.size, 20);
}

#[test]
fn metadata_of_unknown_name_is_not_found() {
    let (archive, _) = two_file_archive();
    assert_eq!(archive.metadata(b"Z"), Err(RomdirError::FileNotFound));
    assert_eq!(archive.read_file(b"Z"), Err(RomdirError::FileNotFound));
    assert_eq!(archive.read(b"Z", 0, 1), Err(RomdirError::FileNotFound));
}

#[test]
fn full_read_returns_the_backing_slice() {
    let (archive, blob) = two_file_archive();
    assert_eq!(archive.read(b"B", 0, 20).unwrap(), blob[16..36].to_vec());
    assert_eq!(archive.read_file(b"B").unwrap(), blob[16..36].to_vec());
    assert_eq!(archive.read(b"A", 0, 4).unwrap(), blob[0..4].to_vec());
}

#[test]
fn read_at_offset_equal_to_size_is_empty() {
    let (archive, _) = two_file_archive();
    assert_eq!(archive.read(b"A", 4, 100).unwrap(), Vec::<u8>::new());
    assert_eq!(archive.read(b"A", 4, 0).unwrap(), Vec::<u8>::new());
    assert_eq!(archive.read(b"A", 1000, 3).unwrap(), Vec::<u8>::new());
}

#[test]
fn read_one_byte_before_the_end_yields_one_byte() {
    let (archive, blob) = two_file_archive();
    assert_eq!(archive.read(b"A", 3, 10).unwrap(), vec![blob[3]]);
    assert_eq!(archive.read(b"B", 19, 10).unwrap(), vec![blob[35]]);
}

#[test]
fn read_clamps_to_the_entry_range() {
    let (archive, blob) = two_file_archive();
    // asking for far more than the entry holds never crosses into B
    assert_eq!(archive.read(b"A", 1, 1000).unwrap(), blob[1..4].to_vec());
    assert_eq!(archive.read(b"B", 5, 1000).unwrap(), blob[21..36].to_vec());
}

#[test]
fn file_names_iter_matches_file_names() {
    let (archive, _) = two_file_archive();
    assert_eq!(archive.file_names_iter(), archive.file_names());
}

#[test]
fn inode_table_assigns_inodes_in_parse_order() {
    let (archive, _) = two_file_archive();
    let table = InodeTable::new(&archive);
    assert_eq!(table.len(), 2);
    assert_eq!(table.resolve(b"A"), Some(2));
    assert_eq!(table.resolve(b"B"), Some(3));
    assert_eq!(table.resolve(b"Z"), None);
    assert_eq!(table.name_of(2), Some(b"A".to_vec()));
    assert_eq!(table.name_of(3), Some(b"B".to_vec()));
    assert_eq!(table.name_of(1), None);
    assert_eq!(table.name_of(4), None);
    assert_eq!(table.pairs(), vec![(2, b"A".to_vec()), (3, b"B".to_vec())]);
}

#[test]
fn lookup_returns_file_attributes_under_the_root() {
    let (archive, _) = two_file_archive();
    let fs = RomdirFS::new(archive, test_config());
    let a = fs.lookup(ROOT_INO, b"A").unwrap();
    assert_eq!(a.ino, 2);
    assert_eq!(a.size, 4);
    assert_eq!(a.kind, FileKind::RegularFile);
    assert_eq!(a.perm, 0o444);
    assert_eq!(a.nlink, 1);
    assert_eq!(a.uid, 1000);
    assert_eq!(a.gid, 100);
    assert_eq!(a.timestamp, 0);
    let b = fs.lookup(ROOT_INO, b"B").unwrap();
    assert_eq!(b.ino, 3);
    assert_eq!(b.size, 20);
}

#[test]
fn lookup_fails_outside_the_root_or_for_unknown_names() {
    let (archive, _) = two_file_archive();
    let fs = RomdirFS::new(archive, test_config());
    assert_eq!(fs.lookup(2, b"A"), Err(FsError::NotFound));
    assert_eq!(fs.lookup(ROOT_INO, b"Z"), Err(FsError::NotFound));
}

#[test]
fn getattr_serves_the_root_directory() {
    let (archive, _) = two_file_archive();
    let fs = RomdirFS::new(archive, test_config());
    let root = fs.getattr(ROOT_INO).unwrap();
    assert_eq!(root.ino, ROOT_INO);
    assert_eq!(root.size, 0);
    assert_eq!(root.kind, FileKind::Directory);
    assert_eq!(root.perm, 0o555);
    assert_eq!(root.nlink, 2);
    assert_eq!(root.uid, 1000);
    assert_eq!(root.gid, 100);
    assert_eq!(root.timestamp, 0);
}

#[test]
fn getattr_serves_files_and_rejects_unknown_inodes() {
    let (archive, _) = two_file_archive();
    let fs = RomdirFS::new(archive, test_config());
    let b = fs.getattr(3).unwrap();
    assert_eq!(b.ino, 3);
    assert_eq!(b.size, 20);
    assert_eq!(b.kind, FileKind::RegularFile);
    assert_eq!(fs.getattr(0), Err(FsError::NotFound));
    assert_eq!(fs.getattr(4), Err(FsError::NotFound));
    assert_eq!(fs.getattr(99), Err(FsError::NotFound));
}

#[test]
fn fs_read_delegates_with_clamping() {
    let (archive, blob) = two_file_archive();
    let fs = RomdirFS::new(archive, test_config());
    assert_eq!(fs.read(2, 0, 4).unwrap(), blob[0..4].to_vec());
    assert_eq!(fs.read(3, 0, 1000).unwrap(), blob[16..36].to_vec());
    assert_eq!(fs.read(2, 4, 100).unwrap(), Vec::<u8>::new());
    assert_eq!(fs.read(2, 3, 10).unwrap(), vec![blob[3]]);
    assert_eq!(fs.read(ROOT_INO, 0, 1), Err(FsError::NotFound));
    assert_eq!(fs.read(9, 0, 1), Err(FsError::NotFound));
}

fn row(ino: u64, kind: FileKind, name: &[u8]) -> DirEntry {
    DirEntry { ino, kind, name: name.to_vec() }
}

#[test]
fn readdir_lists_dot_dotdot_then_files_in_order() {
    let (archive, _) = two_file_archive();
    let fs = RomdirFS::new(archive, test_config());
    let rows = fs.readdir(ROOT_INO, 0).unwrap();
    assert_eq!(
        rows,
        vec![
            row(ROOT_INO, FileKind::Directory, b"."),
            row(ROOT_INO, FileKind::Directory, b".."),
            row(2, FileKind::RegularFile, b"A"),
            row(3, FileKind::RegularFile, b"B"),
        ]
    );
}

#[test]
fn readdir_with_cursor_at_the_end_is_empty() {
    let (archive, _) = two_file_archive();
    let fs = RomdirFS::new(archive, test_config());
    let rows = fs.readdir(ROOT_INO, 0).unwrap();
    assert_eq!(fs.readdir(ROOT_INO, rows.len() as u64).unwrap(), Vec::<DirEntry>::new());
    assert_eq!(fs.readdir(ROOT_INO, 100).unwrap(), Vec::<DirEntry>::new());
}

#[test]
fn readdir_is_idempotent_for_equal_cursors() {
    let (archive, _) = two_file_archive();
    let fs = RomdirFS::new(archive, test_config());
    for cursor in 0..5u64 {
        assert_eq!(fs.readdir(ROOT_INO, cursor), fs.readdir(ROOT_INO, cursor));
    }
    let tail = fs.readdir(ROOT_INO, 3).unwrap();
    assert_eq!(tail, vec![row(3, FileKind::RegularFile, b"B")]);
}

#[test]
fn readdir_rejects_non_root_inodes() {
    let (archive, _) = two_file_archive();
    let fs = RomdirFS::new(archive, test_config());
    assert_eq!(fs.readdir(2, 0), Err(FsError::NotFound));
    assert_eq!(fs.readdir(0, 0), Err(FsError::NotFound));
}

#[test]
fn header_record_size_field_is_ignored() {
    // the header carries size 7 in `stream`; the first entry still sits at 0
    let blob = stream(&[record(b"X", 3)]);
    let archive = Archive::new(blob).unwrap();
    let x = archive.metadata(b"X").unwrap();
    assert_eq!(x.offset, 0);
    assert_eq!(x.size, 3);
}

#[test]
fn nine_byte_names_are_accepted() {
    let blob = stream(&[record(b"ABCDEFGHI", 2)]);
    let archive = Archive::new(blob).unwrap();
    assert_eq!(archive.file_names(), vec![b"ABCDEFGHI".to_vec()]);
}

#[test]
fn zero_size_entry_reads_empty() {
    let blob = stream(&[record(b"E", 0), record(b"F", 1)]);
    let archive = Archive::new(blob).unwrap();
    let e = archive.metadata(b"E").unwrap();
    let f = archive.metadata(b"F").unwrap();
    // a zero-size entry consumes no offset space
    assert_eq!(e.offset, 0);
    assert_eq!(e.size, 0);
    assert_eq!(f.offset, 0);
    assert_eq!(archive.read_file(b"E").unwrap(), Vec::<u8>::new());
}
