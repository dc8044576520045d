use vstd::prelude::*;

verus! {

/// Represent a block operation error.
#[derive(Debug, Clone, Copy, PartialEq, Eq, Structural)]
pub enum BlockError {
    /// Read error
    ReadError,
    /// Write error
    WriteError,
    /// Unknown error
    Unknown,
}

/// Represent a block operation result.
pub type BlockResult<T> = core::result::Result<T, BlockError>;

/// Represent a certain amount of data from a block device.
#[derive(Clone, Copy)]
pub struct Block {
    /// The actual storage of the block.
    pub contents: [u8; 512],
}

/// Represent the position of a block on a block device.
#[derive(Debug, Copy, Clone, Hash, PartialOrd, PartialEq, Ord, Eq, Structural)]
pub struct BlockIndex(pub u64);

/// Represent the count of blocks that a block device hold.
#[derive(Debug, Copy, Clone, PartialEq, Eq, Structural)]
pub struct BlockCount(pub u64);

/// The bytes of a block that holds only zeros.
pub open spec fn zero_block() -> Seq<u8> {
    Seq::new(512, |i: int| 0u8)
}

impl Block {
    /// The size of a block in bytes.
    pub const LEN: usize = 512;

    /// The size of a block in bytes as a 64 bits unsigned value.
    pub const LEN_U64: u64 = 512;

    /// Create a new block instance, filled with zeros.
    pub fn new() -> (r: Block)
        ensures
            r.contents@ == zero_block(),
    {
        let r = Block { contents: [0u8; 512] };
        assert(r.contents@ =~= zero_block());
        r
    }

    /// Return the content of the block.
    pub fn as_contents(&self) -> (r: [u8; 512])
        ensures
            r@ == self.contents@,
    {
        self.contents
    }
}

impl Default for Block {
    fn default() -> (r: Block)
        ensures
            r.contents@ == zero_block(),
    {
        Block::new()
    }
}

impl BlockCount {
    /// Get the block count as a raw bytes count.
    pub fn into_bytes_count(self) -> (r: u64)
        requires
            self.0 * 512 <= u64::MAX,
        ensures
            r == self.0 * 512,
    {
        self.0 * Block::LEN_U64
    }

    /// Convert the block count into a size in bytes.
    pub fn into_size(self) -> (r: u64)
        requires
            self.0 * 512 <= u64::MAX,
        ensures
            r == self.0 * 512,
    {
        self.0 * (Block::LEN as u64)
    }
}

impl BlockIndex {
    /// Convert the block index into an offset in bytes.
    pub fn into_offset(self) -> (r: u64)
        requires
            self.0 * 512 <= u64::MAX,
        ensures
            r == self.0 * 512,
    {
        self.0 * (Block::LEN as u64)
    }
}

/// The blocks of `blocks`, keyed by the index they take on a device when the
/// run starts at `index`.
pub open spec fn run_map(index: u64, blocks: Seq<Block>) -> Map<u64, Seq<u8>> {
    Map::new(
        |k: u64| index <= k < index + blocks.len(),
        |k: u64| blocks[k - index].contents@,
    )
}

/// What a device holds after `blocks` were written from `index` on over `stored`.
pub open spec fn blocks_written(stored: Map<u64, Seq<u8>>, index: u64, blocks: Seq<Block>) -> Map<
    u64,
    Seq<u8>,
> {
    stored.union_prefer_right(run_map(index, blocks))
}

/// `stored` holds the bytes of `b` at `k`.
pub open spec fn holds_at(stored: Map<u64, Seq<u8>>, k: u64, b: Block) -> bool {
    stored.contains_key(k) && stored[k] == b.contents@
}

/// `blocks` is what `stored` holds from `index` on.
pub open spec fn holds_run(stored: Map<u64, Seq<u8>>, index: u64, blocks: Seq<Block>) -> bool {
    forall|i: int| 0 <= i < blocks.len() ==> holds_at(stored, (index + i) as u64, #[trigger] blocks[i])
}

/// The two maps hold the same thing (or nothing) at `k`.
pub open spec fn agree_at(a: Map<u64, Seq<u8>>, b: Map<u64, Seq<u8>>, k: u64) -> bool {
    &&& a.contains_key(k) == b.contains_key(k)
    &&& a.contains_key(k) ==> a[k] == b[k]
}

/// The two maps agree everywhere outside the `len` indices that start at `index`.
pub open spec fn unchanged_outside(
    a: Map<u64, Seq<u8>>,
    b: Map<u64, Seq<u8>>,
    index: u64,
    len: int,
) -> bool {
    forall|k: u64| !(index <= k < index + len) ==> #[trigger] agree_at(a, b, k)
}

/// Represent a device holding blocks.
///
/// A device is modelled by `stored`, the bytes of each block that it can hand
/// out, keyed by block index. The proofs cover only devices that define this
/// model, as the devices of this crate do. The defaults below exist so that a
/// device written outside verified code compiles without it; such a device
/// (a file, a test double) keeps them, they do not describe it, and its
/// behaviour is taken on trust to follow the contracts.
pub trait BlockDevice: Sized {
    /// The device is in a usable state.
    closed spec fn wf(&self) -> bool {
        true
    }

    /// The blocks that the device holds, keyed by index.
    closed spec fn stored(&self) -> Map<u64, Seq<u8>> {
        Map::empty()
    }

    /// What `count` returns on this device.
    closed spec fn block_count(&self) -> BlockResult<BlockCount> {
        Err(BlockError::Unknown)
    }

    /// Read blocks from the block device starting at the given ``index``.
    ///
    /// Reading never changes what the device holds; on success `blocks`
    /// holds the device's blocks from `index` on.
    fn raw_read(&mut self, blocks: &mut [Block], index: BlockIndex) -> (r: BlockResult<()>)
        requires
            old(self).wf(),
            old(blocks)@.len() > 0,
            index.0 + old(blocks)@.len() <= u64::MAX,
        ensures
            final(self).wf(),
            final(self).stored() == old(self).stored(),
            final(blocks)@.len() == old(blocks)@.len(),
            r is Ok ==> holds_run(old(self).stored(), index.0, final(blocks)@),
    ;

    /// Write blocks to the block device starting at the given ``index``.
    ///
    /// On success the device holds `blocks` from `index` on; on failure only
    /// the addressed blocks may have changed.
    fn raw_write(&mut self, blocks: &[Block], index: BlockIndex) -> (r: BlockResult<()>)
        requires
            old(self).wf(),
            blocks@.len() > 0,
            index.0 + blocks@.len() <= u64::MAX,
        ensures
            final(self).wf(),
            r is Ok ==> final(self).stored() == blocks_written(old(self).stored(), index.0, blocks@),
            r is Err ==> unchanged_outside(
                old(self).stored(),
                final(self).stored(),
                index.0,
                blocks@.len() as int,
            ),
    ;

    /// Read blocks from the block device starting at the given ``partition_start + index``.
    fn read(&mut self, blocks: &mut [Block], partition_start: BlockIndex, index: BlockIndex) -> (r:
        BlockResult<()>)
        requires
            old(self).wf(),
            old(blocks)@.len() > 0,
            partition_start.0 + index.0 + old(blocks)@.len() <= u64::MAX,
        ensures
            final(self).wf(),
            final(self).stored() == old(self).stored(),
            final(blocks)@.len() == old(blocks)@.len(),
            r is Ok ==> holds_run(
                old(self).stored(),
                (partition_start.0 + index.0) as u64,
                final(blocks)@,
            ),
    {
        self.raw_read(blocks, BlockIndex(partition_start.0 + index.0))
    }

    /// Write blocks to the block device starting at the given ``partition_start + index``.
    fn write(&mut self, blocks: &[Block], partition_start: BlockIndex, index: BlockIndex) -> (r:
        BlockResult<()>)
        requires
            old(self).wf(),
            blocks@.len() > 0,
            partition_start.0 + index.0 + blocks@.len() <= u64::MAX,
        ensures
            final(self).wf(),
            r is Ok ==> final(self).stored() == blocks_written(
                old(self).stored(),
                (partition_start.0 + index.0) as u64,
                blocks@,
            ),
            r is Err ==> unchanged_outside(
                old(self).stored(),
                final(self).stored(),
                (partition_start.0 + index.0) as u64,
                blocks@.len() as int,
            ),
    {
        self.raw_write(blocks, BlockIndex(partition_start.0 + index.0))
    }

    /// Return the amount of blocks hold by the block device.
    fn count(&self) -> (r: BlockResult<BlockCount>)
        requires
            self.wf(),
        ensures
            r == self.block_count(),
    ;
}

/// Read after write: once `blocks` were written from `index` on, reading the
/// same range hands back exactly `blocks`, whatever the device held before.
pub proof fn lemma_read_after_write(stored: Map<u64, Seq<u8>>, index: u64, blocks: Seq<Block>)
    requires
        index + blocks.len() <= u64::MAX,
    ensures
        holds_run(blocks_written(stored, index, blocks), index, blocks),
{
    assert forall|i: int| 0 <= i < blocks.len() implies holds_at(
        blocks_written(stored, index, blocks),
        (index + i) as u64,
        #[trigger] blocks[i],
    ) by {
        assert(run_map(index, blocks).contains_key((index + i) as u64));
    }
}

/// Writing a single block changes the device at that index alone.
pub proof fn lemma_single_block_written(stored: Map<u64, Seq<u8>>, index: u64, b: Block)
    requires
        index < u64::MAX,
    ensures
        blocks_written(stored, index, seq![b]) == stored.insert(index, b.contents@),
{
    assert(blocks_written(stored, index, seq![b]) =~= stored.insert(index, b.contents@));
}

} // verus!
