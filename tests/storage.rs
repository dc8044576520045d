use libfs::{
    Block, BlockCount, BlockDevice, BlockError, BlockIndex, BlockResult, CachedBlockDevice,
    DirFilterFlags, FileModeFlags, StorageBlockDevice, StorageDevice, StorageDeviceError,
};

struct VecDevice {
    blocks: Vec<Block>,
    count_fails: bool,
}

impl VecDevice {
    fn patterned(count: usize) -> VecDevice {
        let mut blocks = vec![Block::new(); count];
        for (b, block) in blocks.iter_mut().enumerate() {
            for (i, byte) in block.contents.iter_mut().enumerate() {
                *byte = ((b * 7 + i) % 251) as u8;
            }
        }
        VecDevice { blocks, count_fails: false }
    }
}

fn pattern(offset: usize) -> u8 {
    let b = offset / 512;
    let i = offset % 512;
    ((b * 7 + i) % 251) as u8
}

impl BlockDevice for VecDevice {
    fn raw_read(&mut self, blocks: &mut [Block], index: BlockIndex) -> BlockResult<()> {
        let start = index.0 as usize;
        if start + blocks.len() > self.blocks.len() {
            return Err(BlockError::ReadError);
        }
        blocks.copy_from_slice(&self.blocks[start..start + blocks.len()]);
        Ok(())
    }

    fn raw_write(&mut self, blocks: &[Block], index: BlockIndex) -> BlockResult<()> {
        let start = index.0 as usize;
        if start + blocks.len() > self.blocks.len() {
            return Err(BlockError::WriteError);
        }
        self.blocks[start..start + blocks.len()].copy_from_slice(blocks);
        Ok(())
    }

    fn count(&self) -> BlockResult<BlockCount> {
        if self.count_fails {
            Err(BlockError::Unknown)
        } else {
            Ok(BlockCount(self.blocks.len() as u64))
        }
    }
}

#[test]
fn read_spanning_blocks_concatenates_slices() {
    let mut storage = StorageBlockDevice::new(VecDevice::patterned(4));
    let mut buf = vec![0u8; 1100];
    storage.read(300, &mut buf).unwrap();
    for (i, byte) in buf.iter().enumerate() {
        assert_eq!(*byte, pattern(300 + i));
    }
}

#[test]
fn write_mid_block_keeps_the_rest_of_the_boundary_blocks() {
    let mut storage = StorageBlockDevice::new(VecDevice::patterned(4));
    let data = vec![0xFFu8; 600];
    storage.write(500, &data).unwrap();
    let mut all = vec![0u8; 2048];
    storage.read(0, &mut all).unwrap();
    for (offset, byte) in all.iter().enumerate() {
        if (500..1100).contains(&offset) {
            assert_eq!(*byte, 0xFF);
        } else {
            assert_eq!(*byte, pattern(offset));
        }
    }
}

#[test]
fn byte_writes_through_a_cache_read_back() {
    let cached = CachedBlockDevice::new(VecDevice::patterned(4), 2);
    let mut storage = StorageBlockDevice::new(cached);
    storage.write(1020, b"hello, blocks").unwrap();
    let mut back = [0u8; 13];
    storage.read(1020, &mut back).unwrap();
    assert_eq!(&back, b"hello, blocks");
    let mut before = [0u8; 1];
    storage.read(1019, &mut before).unwrap();
    assert_eq!(before[0], pattern(1019));
}

#[test]
fn empty_requests_touch_nothing() {
    let mut storage = StorageBlockDevice::new(VecDevice::patterned(1));
    let mut empty: [u8; 0] = [];
    assert!(storage.read(100_000, &mut empty).is_ok());
    assert!(storage.write(100_000, &[]).is_ok());
}

#[test]
fn len_is_block_count_in_bytes() {
    let storage = StorageBlockDevice::new(VecDevice::patterned(3));
    assert_eq!(storage.len(), Ok(1536));
}

#[test]
fn len_maps_the_block_error() {
    let mut device = VecDevice::patterned(3);
    device.count_fails = true;
    let storage = StorageBlockDevice::new(device);
    assert_eq!(storage.len(), Err(StorageDeviceError::Unknown));
}

#[test]
fn out_of_range_requests_report_block_errors() {
    let mut storage = StorageBlockDevice::new(VecDevice::patterned(2));
    let mut buf = [0u8; 4];
    assert_eq!(storage.read(1022, &mut buf), Err(StorageDeviceError::ReadError));
    assert_eq!(storage.write(4096, &buf), Err(StorageDeviceError::ReadError));
}

#[test]
fn block_errors_convert_kind_for_kind() {
    assert_eq!(StorageDeviceError::from(BlockError::ReadError), StorageDeviceError::ReadError);
    assert_eq!(StorageDeviceError::from(BlockError::WriteError), StorageDeviceError::WriteError);
    assert_eq!(StorageDeviceError::from(BlockError::Unknown), StorageDeviceError::Unknown);
}

#[test]
fn mode_and_filter_flags_test_bits() {
    let mode = FileModeFlags { bits: FileModeFlags::READABLE | FileModeFlags::APPENDABLE };
    assert!(mode.contains(FileModeFlags::READABLE));
    assert!(!mode.contains(FileModeFlags::WRITABLE));
    let filter = DirFilterFlags { bits: DirFilterFlags::ALL };
    assert!(filter.contains(DirFilterFlags::DIRECTORY));
    assert!(filter.contains(DirFilterFlags::FILE));
    let dirs = DirFilterFlags { bits: DirFilterFlags::DIRECTORY };
    assert!(!dirs.contains(DirFilterFlags::ALL));
}
