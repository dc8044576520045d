use crate::fs::{DirFilterFlags, DirectoryEntry, DirectoryEntryType, FileSystemError, FileSystemResult};
use vstd::prelude::*;

verus! {

/// The path of an opened directory as entries are listed under it: `path`,
/// then a `/` unless it already ends with one, then zeros.
pub open spec fn base_path_of(path: Seq<u8>) -> Seq<u8> {
    Seq::new(
        0x301,
        |i: int|
            if i < path.len() {
                path[i]
            } else if i == path.len() && !(path.len() > 0 && path.last() == 0x2Fu8) {
                0x2Fu8
            } else {
                0u8
            },
    )
}

/// `b` is the position of the first zero byte of `s`.
pub open spec fn first_zero_at(s: Seq<u8>, b: int) -> bool {
    &&& 0 <= b < s.len()
    &&& s[b] == 0
    &&& forall|j: int| 0 <= j < b ==> s[j] != 0
}

/// The path of an entry named `name` listed under `base`: the bytes of `base`
/// before its first zero (at `b`), then as much of `name` as fits, then zeros.
pub open spec fn entry_path_of(base: Seq<u8>, b: int, name: Seq<u8>) -> Seq<u8> {
    Seq::new(
        0x301,
        |i: int|
            if i < b {
                base[i]
            } else if i - b < name.len() {
                name[i - b]
            } else {
                0u8
            },
    )
}

/// `name` is neither `.` nor `..`.
pub open spec fn is_listed_name(name: Seq<u8>) -> bool {
    name != seq![0x2Eu8] && name != seq![0x2Eu8, 0x2Eu8]
}

/// Whether a listing with `filter` shows an entry: `.` and `..` never; with
/// every filter bit set any other entry; with the directory bit directories;
/// else files.
pub open spec fn filter_accepts(filter: u32, name: Seq<u8>, is_directory: bool) -> bool {
    if filter & 3 == 3 {
        is_listed_name(name)
    } else if filter & 1 == 1 {
        is_directory && is_listed_name(name)
    } else {
        !is_directory && is_listed_name(name)
    }
}

/// The zero-padded base path under which the entries of directory `path` are
/// listed, or `NotFound` when `path` is too long to hold one.
pub fn directory_base_path(path: &[u8]) -> (r: FileSystemResult<[u8; 0x301]>)
    ensures
        path@.len() >= 0x301 ==> r == Err::<[u8; 0x301], FileSystemError>(FileSystemError::NotFound),
        path@.len() < 0x301 ==> r is Ok && r->Ok_0@ == base_path_of(path@),
{
    if path.len() >= DirectoryEntry::PATH_LEN {
        return Err(FileSystemError::NotFound);
    }
    let mut data: [u8; 0x301] = [0x0; 0x301];
    let mut i: usize = 0;
    while i < path.len()
        invariant
            i <= path@.len() < 0x301,
            forall|j: int| 0 <= j < i ==> data@[j] == path@[j],
            forall|j: int| i <= j < 0x301 ==> data@[j] == 0u8,
        decreases path@.len() - i,
    {
        data[i] = path[i];
        i += 1;
    }
    // Add '/' if missing at the end.
    let len = path.len();
    if len == 0 || path[len - 1] != 0x2F {
        data[len] = 0x2F;
    }
    assert(data@ =~= base_path_of(path@));
    Ok(data)
}

/// Converts a directory entry found under `base_path` into a libfs entry.
pub fn convert_entry(
    file_name: &[u8],
    is_directory: bool,
    file_size: u32,
    base_path: &[u8; 0x301],
) -> (r: DirectoryEntry)
    requires
        exists|b: int| first_zero_at(base_path@, b),
    ensures
        forall|b: int| first_zero_at(base_path@, b) ==> r.path@ == entry_path_of(base_path@, b, file_name@),
        r.entry_type == (if is_directory {
            DirectoryEntryType::Directory
        } else {
            DirectoryEntryType::File
        }),
        r.file_size == file_size,
{
    let ghost b = choose|b: int| first_zero_at(base_path@, b);
    let mut path: [u8; 0x301] = [0x0; 0x301];
    let entry_type = if is_directory {
        DirectoryEntryType::Directory
    } else {
        DirectoryEntryType::File
    };
    let mut base_index: usize = 0;
    while base_path[base_index] != 0x0
        invariant
            first_zero_at(base_path@, b),
            0 <= base_index <= b,
            forall|j: int| 0 <= j < base_index ==> path@[j] == base_path@[j],
            forall|j: int| base_index <= j < 0x301 ==> path@[j] == 0u8,
        decreases b - base_index,
    {
        path[base_index] = base_path[base_index];
        base_index += 1;
    }
    let mut index: usize = 0;
    while index < file_name.len() && index < DirectoryEntry::PATH_LEN - base_index
        invariant
            base_index == b,
            first_zero_at(base_path@, b),
            index <= 0x301 - b,
            index <= file_name@.len(),
            forall|j: int| 0 <= j < b ==> path@[j] == base_path@[j],
            forall|j: int| b <= j < b + index ==> path@[j] == file_name@[j - b],
            forall|j: int| b + index <= j < 0x301 ==> path@[j] == 0u8,
        decreases file_name@.len() - index,
    {
        path[base_index + index] = file_name[index];
        index += 1;
    }
    assert(path@ =~= entry_path_of(base_path@, b, file_name@));
    let r = DirectoryEntry { path, entry_type, file_size: file_size as u64 };
    assert forall|b2: int| first_zero_at(base_path@, b2) implies r.path@ == entry_path_of(
        base_path@,
        b2,
        file_name@,
    ) by {
        if b2 < b {
            assert(base_path@[b2] != 0);
        } else if b < b2 {
            assert(base_path@[b] != 0);
        }
    }
    r
}

/// Whether a listing with `filter` shows the entry `name`.
pub fn accepts_entry(filter: DirFilterFlags, name: &[u8], is_directory: bool) -> (r: bool)
    ensures
        r == filter_accepts(filter.bits, name@, is_directory),
{
    let listed = !(name.len() == 1 && name[0] == 0x2E) && !(name.len() == 2 && name[0] == 0x2E
        && name[1] == 0x2E);
    assert(listed == is_listed_name(name@)) by {
        if name@ == seq![0x2Eu8] {
            assert(name@[0] == 0x2Eu8);
        }
        if name@ == seq![0x2Eu8, 0x2Eu8] {
            assert(name@[0] == 0x2Eu8 && name@[1] == 0x2Eu8);
        }
        if name.len() == 1 && name[0] == 0x2E {
            assert(name@ =~= seq![0x2Eu8]);
        }
        if name.len() == 2 && name[0] == 0x2E && name[1] == 0x2E {
            assert(name@ =~= seq![0x2Eu8, 0x2Eu8]);
        }
    }
    if filter.contains(DirFilterFlags::ALL) {
        listed
    } else if filter.contains(DirFilterFlags::DIRECTORY) {
        is_directory && listed
    } else {
        !is_directory && listed
    }
}

} // verus!
