use std::cell::RefCell;
use std::rc::Rc;

use libfs::{Block, BlockCount, BlockDevice, BlockError, BlockIndex, BlockResult, CachedBlockDevice};

#[derive(Default)]
struct Medium {
    blocks: Vec<Block>,
    reads: usize,
    writes: usize,
    fail_writes: bool,
}

#[derive(Clone)]
struct MemDevice {
    medium: Rc<RefCell<Medium>>,
}

impl MemDevice {
    fn zeroed(count: usize) -> MemDevice {
        let medium = Medium {
            blocks: vec![Block::new(); count],
            ..Medium::default()
        };
        MemDevice { medium: Rc::new(RefCell::new(medium)) }
    }

    fn byte(&self, index: usize) -> u8 {
        self.medium.borrow().blocks[index].contents[0]
    }

    fn reads(&self) -> usize {
        self.medium.borrow().reads
    }

    fn writes(&self) -> usize {
        self.medium.borrow().writes
    }
}

impl BlockDevice for MemDevice {
    fn raw_read(&mut self, blocks: &mut [Block], index: BlockIndex) -> BlockResult<()> {
        let mut medium = self.medium.borrow_mut();
        let start = index.0 as usize;
        if start + blocks.len() > medium.blocks.len() {
            return Err(BlockError::ReadError);
        }
        medium.reads += 1;
        for (i, block) in blocks.iter_mut().enumerate() {
            *block = medium.blocks[start + i];
        }
        Ok(())
    }

    fn raw_write(&mut self, blocks: &[Block], index: BlockIndex) -> BlockResult<()> {
        let mut medium = self.medium.borrow_mut();
        let start = index.0 as usize;
        if medium.fail_writes || start + blocks.len() > medium.blocks.len() {
            return Err(BlockError::WriteError);
        }
        medium.writes += 1;
        for (i, block) in blocks.iter().enumerate() {
            medium.blocks[start + i] = *block;
        }
        Ok(())
    }

    fn count(&self) -> BlockResult<BlockCount> {
        Ok(BlockCount(self.medium.borrow().blocks.len() as u64))
    }
}

fn filled(byte: u8) -> Block {
    Block { contents: [byte; 512] }
}

fn read_one<B: BlockDevice>(device: &mut B, index: u64) -> Block {
    let mut blocks = [Block::new()];
    device.raw_read(&mut blocks, BlockIndex(index)).unwrap();
    blocks[0]
}

#[test]
fn block_new_and_default_are_zeroed() {
    assert_eq!(Block::new().as_contents(), [0u8; 512]);
    assert_eq!(Block::default().contents, [0u8; 512]);
    assert_eq!(Block::LEN, 512);
    assert_eq!(Block::LEN_U64, 512);
}

#[test]
fn index_and_count_convert_to_bytes() {
    assert_eq!(BlockIndex(3).into_offset(), 1536);
    assert_eq!(BlockIndex(0).into_offset(), 0);
    assert_eq!(BlockCount(4).into_size(), 2048);
    assert_eq!(BlockCount(4).into_bytes_count(), 2048);
}

#[test]
fn partition_relative_access_adds_the_start() {
    let mut device = MemDevice::zeroed(8);
    device.write(&[filled(0x11)], BlockIndex(4), BlockIndex(2)).unwrap();
    assert_eq!(device.byte(6), 0x11);
    let mut blocks = [Block::new()];
    device.read(&mut blocks, BlockIndex(4), BlockIndex(2)).unwrap();
    assert_eq!(blocks[0].contents[0], 0x11);
}

#[test]
fn read_after_write_through_cache() {
    let device = MemDevice::zeroed(8);
    let mut cached = CachedBlockDevice::new(device.clone(), 3);
    cached.raw_write(&[filled(0x42)], BlockIndex(5)).unwrap();
    assert_eq!(read_one(&mut cached, 5).contents, [0x42; 512]);
    // The small write stayed in the cache.
    assert_eq!(device.byte(5), 0);
}

#[test]
fn cache_is_transparent() {
    let plain = MemDevice::zeroed(8);
    let mut plain_dev = plain.clone();
    let backing = MemDevice::zeroed(8);
    let mut cached = CachedBlockDevice::new(backing.clone(), 2);
    let writes: [(u64, u8, usize); 6] =
        [(0, 1, 1), (3, 2, 2), (1, 3, 1), (0, 4, 3), (6, 5, 1), (2, 6, 2)];
    for (index, byte, len) in writes {
        let blocks = vec![filled(byte); len];
        plain_dev.raw_write(&blocks, BlockIndex(index)).unwrap();
        cached.raw_write(&blocks, BlockIndex(index)).unwrap();
        for i in 0..8u64 {
            assert_eq!(read_one(&mut plain_dev, i).contents, read_one(&mut cached, i).contents);
        }
    }
    let mut all_plain = vec![Block::new(); 8];
    let mut all_cached = vec![Block::new(); 8];
    plain_dev.raw_read(&mut all_plain, BlockIndex(0)).unwrap();
    cached.raw_read(&mut all_cached, BlockIndex(0)).unwrap();
    for i in 0..8 {
        assert_eq!(all_plain[i].contents, all_cached[i].contents);
    }
    let (_, flushed) = cached.close();
    assert!(flushed.is_ok());
    for i in 0..8 {
        assert_eq!(plain.byte(i), backing.byte(i));
    }
}

#[test]
fn capacity_bounds_cached_blocks() {
    let device = MemDevice::zeroed(8);
    let mut cached = CachedBlockDevice::new(device.clone(), 2);
    cached.raw_write(&[filled(1)], BlockIndex(0)).unwrap();
    cached.raw_write(&[filled(2)], BlockIndex(1)).unwrap();
    assert_eq!(device.writes(), 0);
    // A third block evicts the least recently used one, which is dirty.
    cached.raw_write(&[filled(3)], BlockIndex(2)).unwrap();
    assert_eq!(device.writes(), 1);
    assert_eq!(device.byte(0), 1);
    assert_eq!(device.byte(1), 0);
}

#[test]
fn flush_writes_dirty_blocks_and_keeps_them_cached() {
    let device = MemDevice::zeroed(8);
    let mut cached = CachedBlockDevice::new(device.clone(), 4);
    cached.raw_write(&[filled(7), filled(8)], BlockIndex(2)).unwrap();
    assert_eq!(device.byte(2), 0);
    cached.flush().unwrap();
    assert_eq!(device.byte(2), 7);
    assert_eq!(device.byte(3), 8);
    let writes = device.writes();
    // Nothing is dirty any more: a second flush writes nothing.
    cached.flush().unwrap();
    assert_eq!(device.writes(), writes);
    // The blocks are still cached: reading them touches no device.
    let reads = device.reads();
    assert_eq!(read_one(&mut cached, 2).contents, [7; 512]);
    assert_eq!(device.reads(), reads);
}

#[test]
fn large_write_goes_to_device_and_caches_first_blocks() {
    let device = MemDevice::zeroed(8);
    let mut cached = CachedBlockDevice::new(device.clone(), 2);
    cached.raw_write(&[filled(9)], BlockIndex(7)).unwrap();
    let blocks = [filled(1), filled(2), filled(3), filled(4)];
    cached.raw_write(&blocks, BlockIndex(0)).unwrap();
    for i in 0..4 {
        assert_eq!(device.byte(i), i as u8 + 1);
    }
    // The dirty block outside the range was written back first.
    assert_eq!(device.byte(7), 9);
    // The first `capacity` blocks are cached and clean.
    let reads = device.reads();
    let mut two = [Block::new(), Block::new()];
    cached.raw_read(&mut two, BlockIndex(0)).unwrap();
    assert_eq!(device.reads(), reads);
    assert_eq!(two[0].contents, [1; 512]);
    assert_eq!(two[1].contents, [2; 512]);
    let writes = device.writes();
    cached.flush().unwrap();
    assert_eq!(device.writes(), writes);
}

#[test]
fn large_write_over_cached_blocks_is_not_undone() {
    let device = MemDevice::zeroed(8);
    let mut cached = CachedBlockDevice::new(device.clone(), 2);
    cached.raw_write(&[filled(5)], BlockIndex(3)).unwrap();
    cached.raw_write(&[filled(1), filled(2), filled(3), filled(4)], BlockIndex(0)).unwrap();
    assert_eq!(read_one(&mut cached, 3).contents, [4; 512]);
    cached.flush().unwrap();
    assert_eq!(device.byte(3), 4);
}

#[test]
fn capacity_zero_passes_through() {
    let device = MemDevice::zeroed(4);
    let mut cached = CachedBlockDevice::new(device.clone(), 0);
    cached.raw_write(&[filled(6)], BlockIndex(1)).unwrap();
    assert_eq!(device.byte(1), 6);
    assert_eq!(read_one(&mut cached, 1).contents, [6; 512]);
    assert_eq!(read_one(&mut cached, 0).contents, [0; 512]);
}

#[test]
fn evicted_dirty_block_later_in_a_read_is_not_stale() {
    let device = MemDevice::zeroed(12);
    let mut cached = CachedBlockDevice::new(device.clone(), 2);
    cached.raw_write(&[filled(0xEE)], BlockIndex(1)).unwrap();
    read_one(&mut cached, 9);
    let mut two = [Block::new(), Block::new()];
    cached.raw_read(&mut two, BlockIndex(0)).unwrap();
    assert_eq!(two[0].contents, [0; 512]);
    assert_eq!(two[1].contents, [0xEE; 512]);
    assert_eq!(read_one(&mut cached, 1).contents, [0xEE; 512]);
}

#[test]
fn failed_write_back_keeps_the_dirty_block() {
    let device = MemDevice::zeroed(4);
    let mut cached = CachedBlockDevice::new(device.clone(), 2);
    cached.raw_write(&[filled(0x33)], BlockIndex(0)).unwrap();
    cached.raw_write(&[filled(0x34)], BlockIndex(1)).unwrap();
    device.medium.borrow_mut().fail_writes = true;
    // Making room for index 2 needs index 0 written back, which fails.
    assert_eq!(cached.raw_write(&[filled(0x44)], BlockIndex(2)), Err(BlockError::WriteError));
    assert_eq!(cached.flush(), Err(BlockError::WriteError));
    device.medium.borrow_mut().fail_writes = false;
    assert_eq!(read_one(&mut cached, 0).contents, [0x33; 512]);
    cached.flush().unwrap();
    assert_eq!(device.byte(0), 0x33);
}

#[test]
fn read_past_the_end_fails() {
    let device = MemDevice::zeroed(2);
    let mut cached = CachedBlockDevice::new(device, 2);
    let mut blocks = [Block::new()];
    assert_eq!(cached.raw_read(&mut blocks, BlockIndex(5)), Err(BlockError::ReadError));
    assert_eq!(cached.count().unwrap().0, 2);
}

#[test]
fn lru_eviction_order_with_capacity_two() {
    let device = MemDevice::zeroed(4);
    let mut cached = CachedBlockDevice::new(device.clone(), 2);
    cached.raw_write(&[filled(0xAA)], BlockIndex(0)).unwrap();
    cached.raw_write(&[filled(0xBB)], BlockIndex(1)).unwrap();
    assert_eq!(device.writes(), 0);
    cached.raw_write(&[filled(0xCC)], BlockIndex(2)).unwrap();
    // Index 0 was the least recently used: it went to the device.
    assert_eq!(device.byte(0), 0xAA);
    assert_eq!(device.byte(1), 0x00);
    assert_eq!(read_one(&mut cached, 0).contents, [0xAA; 512]);
    // Caching index 0 again evicted index 1, the least recently used.
    assert_eq!(device.byte(1), 0xBB);
    cached.flush().unwrap();
    assert_eq!(device.byte(0), 0xAA);
    assert_eq!(device.byte(1), 0xBB);
    assert_eq!(device.byte(2), 0xCC);
    assert_eq!(device.byte(3), 0x00);
}

#[test]
fn teardown_flushes_dirty_blocks() {
    let device = MemDevice::zeroed(4);
    let mut cached = CachedBlockDevice::new(device, 4);
    cached.raw_write(&[filled(0x5A)], BlockIndex(2)).unwrap();
    let (mut reopened, flushed) = cached.close();
    assert!(flushed.is_ok());
    assert_eq!(read_one(&mut reopened, 2).contents, [0x5A; 512]);
}

#[test]
fn failed_large_write_keeps_the_cached_blocks() {
    let device = MemDevice::zeroed(4);
    let mut cached = CachedBlockDevice::new(device.clone(), 2);
    cached.raw_write(&[filled(0x10)], BlockIndex(3)).unwrap();
    assert_eq!(read_one(&mut cached, 1).contents, [0; 512]);
    device.medium.borrow_mut().fail_writes = true;
    let blocks = [filled(0x21), filled(0x22)];
    assert_eq!(cached.raw_write(&blocks, BlockIndex(0)), Err(BlockError::WriteError));
    device.medium.borrow_mut().fail_writes = false;
    assert_eq!(read_one(&mut cached, 3).contents, [0x10; 512]);
    assert_eq!(read_one(&mut cached, 1).contents, [0; 512]);
    cached.flush().unwrap();
    assert_eq!(device.byte(3), 0x10);
}
