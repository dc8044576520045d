//! Block-level storage for a filesystem stack: fixed-size blocks, a
//! write-back LRU cache over any block device, and a byte-addressable
//! adapter over block devices.
pub mod block;
mod cache_table;
pub mod cached;
pub mod directory;
pub mod fs;
pub mod storage;

pub use block::{Block, BlockCount, BlockDevice, BlockError, BlockIndex, BlockResult};
pub use cache_table::CachedBlock;
pub use cached::CachedBlockDevice;
pub use storage::{StorageBlockDevice, StorageDevice, StorageDeviceError, StorageDeviceResult};
pub use fs::{
    DirFilterFlags, DirectoryEntry, DirectoryEntryType, DirectoryOperations, FatFileSystemInfo,
    FileModeFlags, FileOperations, FileSystemError, FileSystemOperations, FileSystemResult,
    FileTimeStampRaw,
};
pub use directory::{accepts_entry, convert_entry, directory_base_path};
