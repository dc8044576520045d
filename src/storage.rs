use crate::block::{
    agree_at, holds_at, lemma_single_block_written, unchanged_outside, Block, BlockDevice,
    BlockError, BlockIndex,
};
use vstd::prelude::*;

verus! {

/// Represent a storage device operation error.
#[derive(Debug, Clone, Copy, PartialEq, Eq, Structural)]
pub enum StorageDeviceError {
    /// Read error
    ReadError,
    /// Write error
    WriteError,
    /// Unknown error
    Unknown,
}

/// Represent a storage device operation result.
pub type StorageDeviceResult<T> = core::result::Result<T, StorageDeviceError>;

/// The storage error that stands for a block error: the same kind.
pub open spec fn storage_error_of(error: BlockError) -> StorageDeviceError {
    match error {
        BlockError::ReadError => StorageDeviceError::ReadError,
        BlockError::WriteError => StorageDeviceError::WriteError,
        BlockError::Unknown => StorageDeviceError::Unknown,
    }
}

impl From<BlockError> for StorageDeviceError {
    fn from(error: BlockError) -> (r: Self)
        ensures
            r == storage_error_of(error),
    {
        match error {
            BlockError::ReadError => StorageDeviceError::ReadError,
            BlockError::WriteError => StorageDeviceError::WriteError,
            BlockError::Unknown => StorageDeviceError::Unknown,
        }
    }
}

impl vstd::std_specs::convert::FromSpecImpl<BlockError> for StorageDeviceError {
    open spec fn obeys_from_spec() -> bool {
        true
    }

    open spec fn from_spec(v: BlockError) -> Self {
        storage_error_of(v)
    }
}

/// The bytes of a device whose blocks are `stored`, keyed by offset: the byte
/// at offset `p` is byte `p % 512` of block `p / 512`.
pub open spec fn byte_view(stored: Map<u64, Seq<u8>>) -> Map<u64, u8> {
    Map::new(
        |p: u64| stored.contains_key((p / 512) as u64) && p % 512 < stored[(p / 512) as u64].len(),
        |p: u64| stored[(p / 512) as u64][(p % 512) as int],
    )
}

/// `bytes` holds `v` at offset `p`.
pub open spec fn byte_at(bytes: Map<u64, u8>, p: u64, v: u8) -> bool {
    bytes.contains_key(p) && bytes[p] == v
}

/// The first `n` bytes of `data` are what `bytes` holds from `offset` on.
pub open spec fn holds_prefix(bytes: Map<u64, u8>, offset: u64, data: Seq<u8>, n: int) -> bool {
    forall|i: int| 0 <= i < n ==> byte_at(bytes, (offset + i) as u64, #[trigger] data[i])
}

/// `data` is what `bytes` holds from `offset` on.
pub open spec fn holds_bytes(bytes: Map<u64, u8>, offset: u64, data: Seq<u8>) -> bool {
    holds_prefix(bytes, offset, data, data.len() as int)
}

/// `bytes` has a byte at each of the `len` offsets from `offset` on.
pub open spec fn covers(bytes: Map<u64, u8>, offset: u64, len: int) -> bool {
    forall|p: u64| offset <= p < offset + len ==> #[trigger] bytes.contains_key(p)
}

/// `data`, keyed by the offsets it takes from `offset` on.
pub open spec fn span_map(offset: u64, data: Seq<u8>) -> Map<u64, u8> {
    Map::new(|p: u64| offset <= p < offset + data.len(), |p: u64| data[p - offset])
}

/// What a device holds after `data` was written from `offset` on over `bytes`.
pub open spec fn bytes_written(bytes: Map<u64, u8>, offset: u64, data: Seq<u8>) -> Map<u64, u8> {
    bytes.union_prefer_right(span_map(offset, data))
}

/// The number of blocks that `len` bytes from `offset` on touch.
pub open spec fn touched_blocks(offset: u64, len: int) -> int {
    if len <= 0 {
        0
    } else {
        (offset + len - 1) / 512 - offset / 512 + 1
    }
}

/// `block` with the bytes from `lo` on replaced by `data`.
pub open spec fn overlay_bytes(block: Seq<u8>, lo: int, data: Seq<u8>) -> Seq<u8> {
    Seq::new(block.len(), |x: int| if lo <= x < lo + data.len() { data[x - lo] } else { block[x] })
}

/// Represent a device managing storage, addressed by byte.
///
/// A device is modelled by `bytes`, the byte it holds at each offset. As for
/// block devices, the proofs cover only devices that define this model; the
/// defaults only let a device written outside verified code compile without
/// it, and do not describe such a device.
pub trait StorageDevice: Sized {
    /// The device is in a usable state.
    closed spec fn wf(&self) -> bool {
        true
    }

    /// The bytes that the device holds, keyed by offset.
    closed spec fn bytes(&self) -> Map<u64, u8> {
        Map::empty()
    }

    /// What `len` returns on this device.
    closed spec fn byte_len(&self) -> StorageDeviceResult<u64> {
        Err(StorageDeviceError::Unknown)
    }

    /// Read the data at the given offset in the storage device into a given buffer.
    fn read(&mut self, offset: u64, buf: &mut [u8]) -> (r: StorageDeviceResult<()>)
        requires
            old(self).wf(),
            offset + old(buf)@.len() <= u64::MAX,
        ensures
            final(self).wf(),
            final(self).bytes() == old(self).bytes(),
            final(buf)@.len() == old(buf)@.len(),
            r is Ok ==> holds_bytes(old(self).bytes(), offset, final(buf)@),
    ;

    /// Write the data at the given offset into the storage device.
    fn write(&mut self, offset: u64, buf: &[u8]) -> (r: StorageDeviceResult<()>)
        requires
            old(self).wf(),
            offset + buf@.len() <= u64::MAX,
        ensures
            final(self).wf(),
            r is Ok ==> covers(old(self).bytes(), offset, buf@.len() as int),
            r is Ok ==> final(self).bytes() == bytes_written(old(self).bytes(), offset, buf@),
    ;

    /// Return the total size of the storage device.
    fn len(&self) -> (r: StorageDeviceResult<u64>)
        requires
            self.wf(),
        ensures
            r == self.byte_len(),
    ;
}

proof fn lemma_div512(p: u64, k: u64, j: int)
    requires
        0 <= j < 512,
        p == k * 512 + j,
    ensures
        p / 512 == k,
        p % 512 == j,
{
}

proof fn lemma_touched(offset: u64, len: int, w: int)
    requires
        0 <= w < len,
        offset + len <= u64::MAX,
    ensures
        offset / 512 <= (offset + w) / 512 < offset / 512 + touched_blocks(offset, len),
{
    let a = offset / 512;
    let b = (offset + w) / 512;
    let c = (offset + len - 1) / 512;
    assert(offset == a * 512 + offset % 512);
    assert(offset + w == b * 512 + (offset + w) % 512);
    assert(offset + len - 1 == c * 512 + (offset + len - 1) % 512);
}

proof fn lemma_block_bytes(stored: Map<u64, Seq<u8>>, k: u64, lo: int, chunk: Seq<u8>)
    requires
        stored.contains_key(k),
        stored[k].len() == 512,
        0 <= lo,
        lo + chunk.len() <= 512,
        k * 512 + 512 <= u64::MAX + 1,
    ensures
        byte_view(stored.insert(k, overlay_bytes(stored[k], lo, chunk))) == byte_view(
            stored,
        ).union_prefer_right(span_map((k * 512 + lo) as u64, chunk)),
{
    let nb = overlay_bytes(stored[k], lo, chunk);
    let a = byte_view(stored.insert(k, nb));
    let b = byte_view(stored).union_prefer_right(span_map((k * 512 + lo) as u64, chunk));
    assert forall|p: u64| #[trigger] a.contains_key(p) == b.contains_key(p) && (a.contains_key(p)
        ==> a[p] == b[p]) by {
        let kp = (p / 512) as u64;
        let jp = p % 512;
        assert(p == kp * 512 + jp);
        if kp == k {
            lemma_div512(p, k, jp as int);
        } else if (k * 512 + lo) as u64 <= p < (k * 512 + lo) as u64 + chunk.len() {
            lemma_div512(p, k, p - k * 512);
        }
    }
    assert(a =~= b);
}

proof fn lemma_written_chunk(bytes: Map<u64, u8>, offset: u64, data: Seq<u8>, w: int, lim: int)
    requires
        0 <= w,
        0 <= lim,
        w + lim <= data.len(),
        offset + data.len() <= u64::MAX,
    ensures
        bytes_written(bytes, offset, data.subrange(0, w + lim)) == bytes_written(
            bytes,
            offset,
            data.subrange(0, w),
        ).union_prefer_right(span_map((offset + w) as u64, data.subrange(w, w + lim))),
{
    assert(bytes_written(bytes, offset, data.subrange(0, w + lim)) =~= bytes_written(
        bytes,
        offset,
        data.subrange(0, w),
    ).union_prefer_right(span_map((offset + w) as u64, data.subrange(w, w + lim))));
}

/// Read after write, by byte: once `data` was written from `offset` on, a read
/// of the same range hands back exactly `data`.
pub proof fn lemma_bytes_read_after_write(bytes: Map<u64, u8>, offset: u64, data: Seq<u8>)
    requires
        offset + data.len() <= u64::MAX,
    ensures
        holds_bytes(bytes_written(bytes, offset, data), offset, data),
{
    assert forall|i: int| 0 <= i < data.len() implies byte_at(
        bytes_written(bytes, offset, data),
        (offset + i) as u64,
        #[trigger] data[i],
    ) by {
        assert(span_map(offset, data).contains_key((offset + i) as u64));
    }
}

/// Boundaries of a byte write: every byte outside the written range, in a
/// boundary block or elsewhere, keeps its value.
pub proof fn lemma_write_keeps_other_bytes(bytes: Map<u64, u8>, offset: u64, data: Seq<u8>, p: u64)
    requires
        !(offset <= p < offset + data.len()),
    ensures
        bytes_written(bytes, offset, data).contains_key(p) == bytes.contains_key(p),
        bytes.contains_key(p) ==> bytes_written(bytes, offset, data)[p] == bytes[p],
{
}

/// Boundaries of a byte read: the bytes read are, in order, the slices of the
/// blocks that the range crosses.
pub proof fn lemma_read_is_block_slices(stored: Map<u64, Seq<u8>>, offset: u64, data: Seq<u8>, i: int)
    requires
        holds_bytes(byte_view(stored), offset, data),
        offset + data.len() <= u64::MAX,
        0 <= i < data.len(),
    ensures
        stored.contains_key(((offset + i) / 512) as u64),
        data[i] == stored[((offset + i) / 512) as u64][(offset + i) % 512],
{
    assert(byte_at(byte_view(stored), (offset + i) as u64, data[i]));
}

/// Implementation of storage device for block device
pub struct StorageBlockDevice<B: BlockDevice> {
    /// The inner block device.
    block_device: B,
}

impl<B: BlockDevice> StorageBlockDevice<B> {
    /// The wrapped block device.
    pub closed spec fn device(&self) -> B {
        self.block_device
    }

    /// Create a new storage block device
    pub fn new(block_device: B) -> (r: Self)
        ensures
            r.device() == block_device,
    {
        StorageBlockDevice { block_device }
    }
}

impl<B: BlockDevice> StorageDevice for StorageBlockDevice<B> {
    open spec fn wf(&self) -> bool {
        self.device().wf()
    }

    open spec fn bytes(&self) -> Map<u64, u8> {
        byte_view(self.device().stored())
    }

    open spec fn byte_len(&self) -> StorageDeviceResult<u64> {
        match self.device().block_count() {
            Ok(count) => if count.0 * 512 <= u64::MAX {
                Ok((count.0 * 512) as u64)
            } else {
                Err(StorageDeviceError::Unknown)
            },
            Err(e) => Err(storage_error_of(e)),
        }
    }

    /// Reads one block per block boundary crossed, and copies the part of
    /// each that the request covers.
    fn read(&mut self, offset: u64, buf: &mut [u8]) -> (r: StorageDeviceResult<()>)
        ensures
            final(self).device().stored() == old(self).device().stored(),
            old(buf)@.len() == 0 ==> r is Ok,
            r is Err ==> exists|w: int|
                0 <= w < old(buf)@.len() && #[trigger] holds_prefix(
                    old(self).bytes(),
                    offset,
                    final(buf)@,
                    w,
                ),
    {
        let len = buf.len() as u64;
        let mut read_size: u64 = 0;
        let mut blocks = [Block::new()];
        while read_size < len
            invariant
                self.wf(),
                self.device().stored() == old(self).device().stored(),
                len == buf@.len(),
                buf@.len() == old(buf)@.len(),
                read_size <= len,
                offset + len <= u64::MAX,
                holds_prefix(old(self).bytes(), offset, buf@, read_size as int),
            decreases len - read_size,
        {
            // The block holding the next byte, and where that byte is in it.
            let current_offset = offset + read_size;
            let block_index = current_offset / Block::LEN_U64;
            let block_offset = current_offset % Block::LEN_U64;
            let got = self.block_device.raw_read(&mut blocks, BlockIndex(block_index));
            if let Err(e) = got {
                assert(holds_prefix(old(self).bytes(), offset, buf@, read_size as int));
                return Err(StorageDeviceError::from(e));
            }
            let ghost stored = self.device().stored();
            assert(stored.contains_key(block_index) && stored[block_index] == blocks@[0].contents@) by {
                assert(holds_at(stored, (block_index + 0) as u64, blocks@[0]));
            }
            // Limit the copy to the rest of the block, or of the buffer.
            let remaining = len - read_size;
            let limit = if remaining >= Block::LEN_U64 - block_offset {
                Block::LEN_U64 - block_offset
            } else {
                remaining
            };
            let mut j: u64 = 0;
            while j < limit
                invariant
                    self.device().stored() == stored,
                    stored == old(self).device().stored(),
                    stored.contains_key(block_index),
                    stored[block_index] == blocks@[0].contents@,
                    block_index * 512 + block_offset == current_offset,
                    current_offset == offset + read_size,
                    block_offset < 512,
                    block_offset + limit <= 512,
                    read_size + limit <= len,
                    len == buf@.len(),
                    buf@.len() == old(buf)@.len(),
                    offset + len <= u64::MAX,
                    j <= limit,
                    holds_prefix(old(self).bytes(), offset, buf@, read_size + j),
                decreases limit - j,
            {
                let ghost before = buf@;
                let byte = blocks[0].contents[(block_offset + j) as usize];
                buf[(read_size + j) as usize] = byte;
                proof {
                    let p = (offset + read_size + j) as u64;
                    lemma_div512(p, block_index, block_offset + j);
                    assert forall|i: int| 0 <= i < read_size + j + 1 implies byte_at(
                        old(self).bytes(),
                        (offset + i) as u64,
                        #[trigger] buf@[i],
                    ) by {
                        if i < read_size + j {
                            assert(buf@[i] == before[i]);
                        }
                    }
                }
                j += 1;
            }
            read_size += limit;
        }
        Ok(())
    }

    /// For each block boundary crossed: reads the block, overlays the bytes
    /// the request covers, and writes the whole block back.
    fn write(&mut self, offset: u64, buf: &[u8]) -> (r: StorageDeviceResult<()>)
        ensures
            r is Err ==> unchanged_outside(
                old(self).device().stored(),
                final(self).device().stored(),
                (offset / 512) as u64,
                touched_blocks(offset, buf@.len() as int),
            ),
            buf@.len() == 0 ==> r is Ok && final(self).device().stored() == old(
                self,
            ).device().stored(),
    {
        let len = buf.len() as u64;
        let mut write_size: u64 = 0;
        let mut blocks = [Block::new()];
        assert(buf@.subrange(0, 0) =~= Seq::<u8>::empty());
        assert(bytes_written(old(self).bytes(), offset, Seq::<u8>::empty()) =~= old(self).bytes());
        while write_size < len
            invariant
                self.wf(),
                len == buf@.len(),
                write_size <= len,
                offset + len <= u64::MAX,
                self.bytes() == bytes_written(
                    old(self).bytes(),
                    offset,
                    buf@.subrange(0, write_size as int),
                ),
                covers(old(self).bytes(), offset, write_size as int),
                len == 0 ==> self.device().stored() == old(self).device().stored(),
                unchanged_outside(
                    old(self).device().stored(),
                    self.device().stored(),
                    (offset / 512) as u64,
                    touched_blocks(offset, len as int),
                ),
            decreases len - write_size,
        {
            // The block holding the next byte, and where that byte is in it.
            let current_offset = offset + write_size;
            let block_index = current_offset / Block::LEN_U64;
            let block_offset = current_offset % Block::LEN_U64;
            let ghost cur = self.device().stored();
            proof {
                lemma_div512(current_offset, block_index, block_offset as int);
                lemma_touched(offset, len as int, write_size as int);
            }
            let got = self.block_device.raw_read(&mut blocks, BlockIndex(block_index));
            if let Err(e) = got {
                return Err(StorageDeviceError::from(e));
            }
            assert(cur.contains_key(block_index) && cur[block_index] == blocks@[0].contents@) by {
                assert(holds_at(cur, (block_index + 0) as u64, blocks@[0]));
            }
            // Limit the copy to the rest of the block, or of the buffer.
            let remaining = len - write_size;
            let limit = if remaining >= Block::LEN_U64 - block_offset {
                Block::LEN_U64 - block_offset
            } else {
                remaining
            };
            let mut data = blocks[0].contents;
            let ghost chunk = buf@.subrange(write_size as int, write_size + limit);
            let mut j: u64 = 0;
            while j < limit
                invariant
                    j <= limit,
                    block_offset + limit <= 512,
                    write_size + limit <= len,
                    len == buf@.len(),
                    cur[block_index].len() == 512,
                    chunk == buf@.subrange(write_size as int, write_size + limit),
                    data@ == overlay_bytes(cur[block_index], block_offset as int, chunk.subrange(0, j as int)),
                decreases limit - j,
            {
                let byte = buf[(write_size + j) as usize];
                data[(block_offset + j) as usize] = byte;
                j += 1;
                assert(data@ =~= overlay_bytes(
                    cur[block_index],
                    block_offset as int,
                    chunk.subrange(0, j as int),
                ));
            }
            assert(chunk.subrange(0, limit as int) =~= chunk);
            blocks[0] = Block { contents: data };
            let put = self.block_device.raw_write(&blocks, BlockIndex(block_index));
            proof {
                assert forall|k: u64| !((offset / 512) as u64 <= k < (offset / 512) + touched_blocks(offset, len as int))
                    implies #[trigger] agree_at(old(self).device().stored(), self.device().stored(), k) by {
                    assert(agree_at(old(self).device().stored(), cur, k));
                    assert(agree_at(cur, self.device().stored(), k));
                }
            }
            if let Err(e) = put {
                return Err(StorageDeviceError::from(e));
            }
            proof {
                assert(blocks@ =~= seq![Block { contents: data }]);
                lemma_single_block_written(cur, block_index, Block { contents: data });
                lemma_block_bytes(cur, block_index, block_offset as int, chunk);
                lemma_written_chunk(old(self).bytes(), offset, buf@, write_size as int, limit as int);
                assert forall|p: u64| offset <= p < offset + write_size + limit implies #[trigger] old(
                    self,
                ).bytes().contains_key(p) by {
                    if p >= offset + write_size {
                        lemma_div512(p, block_index, p - block_index * 512);
                        assert(byte_view(cur).contains_key(p));
                    }
                }
            }
            write_size += limit;
        }
        assert(buf@.subrange(0, len as int) =~= buf@);
        Ok(())
    }

    fn len(&self) -> (r: StorageDeviceResult<u64>) {
        match self.block_device.count() {
            Ok(count) => {
                if count.0 <= u64::MAX / Block::LEN_U64 {
                    Ok(count.into_bytes_count())
                } else {
                    Err(StorageDeviceError::Unknown)
                }
            },
            Err(e) => Err(StorageDeviceError::from(e)),
        }
    }
}

} // verus!
