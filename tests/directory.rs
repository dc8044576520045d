use libfs::{
    accepts_entry, convert_entry, directory_base_path, DirFilterFlags, DirectoryEntry,
    DirectoryEntryType, FileSystemError,
};

fn padded(bytes: &[u8]) -> [u8; DirectoryEntry::PATH_LEN] {
    let mut path = [0u8; DirectoryEntry::PATH_LEN];
    path[..bytes.len()].copy_from_slice(bytes);
    path
}

#[test]
fn base_path_gets_a_trailing_slash() {
    assert_eq!(directory_base_path(b"/save").unwrap(), padded(b"/save/"));
    assert_eq!(directory_base_path(b"/save/").unwrap(), padded(b"/save/"));
    assert_eq!(directory_base_path(b"").unwrap(), padded(b"/"));
}

#[test]
fn base_path_too_long_is_not_found() {
    let long = vec![b'a'; DirectoryEntry::PATH_LEN];
    assert_eq!(directory_base_path(&long).unwrap_err(), FileSystemError::NotFound);
    let longest = vec![b'a'; DirectoryEntry::PATH_LEN - 1];
    let base = directory_base_path(&longest).unwrap();
    assert_eq!(base[DirectoryEntry::PATH_LEN - 1], b'/');
}

#[test]
fn converted_entry_joins_base_and_name() {
    let base = padded(b"/dir/");
    let entry = convert_entry(b"file.txt", false, 42, &base);
    assert_eq!(entry.path, padded(b"/dir/file.txt"));
    assert_eq!(entry.entry_type, DirectoryEntryType::File);
    assert_eq!(entry.file_size, 42);
    let sub = convert_entry(b"sub", true, 0, &base);
    assert_eq!(sub.entry_type, DirectoryEntryType::Directory);
    assert_eq!(sub.path, padded(b"/dir/sub"));
}

#[test]
fn converted_entry_name_is_cut_to_fit() {
    let base = padded(&vec![b'b'; DirectoryEntry::PATH_LEN - 4]);
    let entry = convert_entry(b"0123456789", false, 1, &base);
    assert_eq!(&entry.path[DirectoryEntry::PATH_LEN - 4..], b"0123");
}

#[test]
fn filters_select_entries() {
    let all = DirFilterFlags { bits: DirFilterFlags::ALL };
    let dirs = DirFilterFlags { bits: DirFilterFlags::DIRECTORY };
    let files = DirFilterFlags { bits: DirFilterFlags::FILE };
    assert!(accepts_entry(all, b"a.txt", false));
    assert!(accepts_entry(all, b"sub", true));
    assert!(!accepts_entry(all, b".", true));
    assert!(!accepts_entry(all, b"..", true));
    assert!(accepts_entry(dirs, b"sub", true));
    assert!(!accepts_entry(dirs, b"a.txt", false));
    assert!(!accepts_entry(dirs, b"..", true));
    assert!(accepts_entry(files, b"a.txt", false));
    assert!(!accepts_entry(files, b"sub", true));
    assert!(accepts_entry(files, b"...", false));
}
