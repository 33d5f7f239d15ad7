//! The block layer: a file system that knows blocks, a superblock and a
//! bitmap of allocated data blocks.
use vstd::prelude::*;
use vstd::std_specs::bits::u8_trailing_zeros;
use bitintr::{Blcic, Blcs, Tzcnt};
use crate::types::{APIError, SuperBlock, DINODE_SIZE, SUPERBLOCK_SIZE, superblock_at};
use crate::blocks::{Block, Device, zeros};
use crate::bitmap::{
    bit_set, set_bit, clear_bit, block_bit, block_with_bit, lemma_lowest_clear_bit,
    lemma_block_with_bit,
};
use crate::utils::div_rem;

verus! {

/// Calls `bitintr::Blcic::blcic` on a byte: the crate computes
/// `!x & x.wrapping_add(1)`, which isolates the lowest clear bit.
#[verifier::external_body]
fn blcic_u8(x: u8) -> (r: u8)
    ensures
        r == !x & ((x + 1) as u8),
{
    x.blcic()
}

/// Calls `bitintr::Blcs::blcs` on a byte: the crate computes
/// `x | x.wrapping_add(1)`, which sets the lowest clear bit.
#[verifier::external_body]
fn blcs_u8(x: u8) -> (r: u8)
    ensures
        r == x | ((x + 1) as u8),
{
    x.blcs()
}

/// Calls `bitintr::Tzcnt::tzcnt` on a byte: the crate returns
/// `x.trailing_zeros()` as a byte, the number of trailing zero bits (8 for 0).
#[verifier::external_body]
fn tzcnt_u8(x: u8) -> (r: u8)
    ensures
        r as u32 == u8_trailing_zeros(x),
{
    x.tzcnt()
}

/// `a / b` rounded up.
pub open spec fn ceil_div(a: int, b: int) -> int {
    a / b + if a % b == 0 {
        0int
    } else {
        1int
    }
}

/// Number of inodes that fit in one block.
pub open spec fn inodes_per_block(sb: SuperBlock) -> int {
    (sb.block_size as int) / (DINODE_SIZE as int)
}

/// Number of blocks the inodes need; `u64::MAX` stands for "they never fit".
pub open spec fn inode_blocks(sb: SuperBlock) -> int {
    if inodes_per_block(sb) == 0 {
        if sb.ninodes == 0 {
            0
        } else {
            u64::MAX as int
        }
    } else {
        ceil_div(sb.ninodes as int, inodes_per_block(sb))
    }
}

/// Number of blocks the bitmap needs to hold one bit per data block;
/// `u64::MAX` stands for "it never fits" (blocks of size zero).
pub open spec fn bitmap_blocks(sb: SuperBlock) -> int {
    if sb.block_size == 0 {
        if ceil_div(sb.ndatablocks as int, 8) == 0 {
            0
        } else {
            u64::MAX as int
        }
    } else {
        ceil_div(ceil_div(sb.ndatablocks as int, 8), sb.block_size as int)
    }
}

/// A superblock is valid when it fits in its own block, its regions are in the
/// order superblock, inodes, bitmap, data, and each region is large enough:
/// the inodes fit in the inode region, the bitmap has a bit for every data
/// block, and the data region fits on the device.
pub open spec fn sb_valid_spec(sb: SuperBlock) -> bool {
    &&& SUPERBLOCK_SIZE <= sb.block_size
    &&& 0 < sb.inodestart
    &&& sb.inodestart < sb.bmapstart
    &&& sb.bmapstart < sb.datastart
    &&& sb.inodestart + inode_blocks(sb) <= sb.bmapstart
    &&& sb.bmapstart + bitmap_blocks(sb) <= sb.datastart
    &&& sb.ndatablocks + sb.datastart <= sb.nblocks
}

/// `sb` is a valid superblock (see [`sb_valid_spec`]) for a device of `nb`
/// blocks of `bs` bytes, small enough for the bit arithmetic of the bitmap:
/// one a file system can run on.
pub open spec fn sb_fits_device(sb: SuperBlock, bs: u64, nb: u64) -> bool {
    &&& sb_valid_spec(sb)
    &&& sb.block_size == bs
    &&& sb.nblocks == nb
    &&& sb.nblocks * (8 * sb.block_size) <= u64::MAX
    &&& sb.block_size <= usize::MAX
}

/// Bits held by one bitmap block.
pub open spec fn bits_per_block(sb: SuperBlock) -> int {
    8 * sb.block_size
}

/// The bitmap block holding the bit of data block `g`.
pub open spec fn bmap_block_of(sb: SuperBlock, g: int) -> int {
    sb.bmapstart + g / bits_per_block(sb)
}

/// Whether data block `g` is marked allocated in the bitmap.
pub open spec fn bitmap_bit(disk: Seq<Seq<u8>>, sb: SuperBlock, g: int) -> bool {
    block_bit(disk[bmap_block_of(sb, g)], g % bits_per_block(sb))
}

/// The disk with the bitmap bit of data block `g` set to `v`.
pub open spec fn disk_with_bit(disk: Seq<Seq<u8>>, sb: SuperBlock, g: int, v: bool) -> Seq<
    Seq<u8>,
> {
    disk.update(
        bmap_block_of(sb, g),
        block_with_bit(disk[bmap_block_of(sb, g)], g % bits_per_block(sb), v),
    )
}

/// The disk with block `i` set to zeros.
pub open spec fn disk_with_zero_block(disk: Seq<Seq<u8>>, sb: SuperBlock, i: int) -> Seq<Seq<u8>> {
    disk.update(i, zeros(sb.block_size as nat))
}

/// Every data block's bit lies in a block of the bitmap region.
pub proof fn lemma_bitmap_block_in_region(sb: SuperBlock, g: int)
    requires
        sb_valid_spec(sb),
        0 <= g < sb.ndatablocks,
    ensures
        sb.bmapstart <= bmap_block_of(sb, g) < sb.datastart,
        0 <= g % bits_per_block(sb) < bits_per_block(sb),
{
    let bs = sb.block_size as int;
    let nd = sb.ndatablocks as int;
    let c1 = ceil_div(nd, 8);
    vstd::arithmetic::div_mod::lemma_div_denominator(g, 8, bs);
    vstd::arithmetic::div_mod::lemma_fundamental_div_mod(nd, 8);
    vstd::arithmetic::div_mod::lemma_div_is_ordered(g, nd - 1, 8);
    assert(g / 8 <= c1 - 1) by {
        vstd::arithmetic::div_mod::lemma_fundamental_div_mod(nd - 1, 8);
        vstd::arithmetic::div_mod::lemma_fundamental_div_mod(g, 8);
    }
    vstd::arithmetic::div_mod::lemma_div_is_ordered(g / 8, c1 - 1, bs);
    assert((c1 - 1) / bs < ceil_div(c1, bs)) by {
        vstd::arithmetic::div_mod::lemma_fundamental_div_mod(c1, bs);
        vstd::arithmetic::div_mod::lemma_fundamental_div_mod(c1 - 1, bs);
        let q = c1 / bs;
        let r = c1 % bs;
        let q2 = (c1 - 1) / bs;
        let r2 = (c1 - 1) % bs;
        assert(q2 < q + if r == 0 { 0int } else { 1int }) by (nonlinear_arith)
            requires
                c1 == bs * q + r,
                c1 - 1 == bs * q2 + r2,
                0 <= r < bs,
                0 <= r2 < bs,
                bs > 0,
        ;
    }
    assert(g / bits_per_block(sb) == (g / 8) / bs);
    vstd::arithmetic::div_mod::lemma_div_pos_is_pos(g, bits_per_block(sb));
    vstd::arithmetic::div_mod::lemma_mod_bound(g, bits_per_block(sb));
}

/// Data block `q * bits_per_block + r` lies in bitmap block `q` at bit `r`.
pub proof fn lemma_bit_position(sb: SuperBlock, q: int, r: int)
    requires
        sb.block_size > 0,
        0 <= r < bits_per_block(sb),
    ensures
        (q * bits_per_block(sb) + r) / bits_per_block(sb) == q,
        (q * bits_per_block(sb) + r) % bits_per_block(sb) == r,
{
    vstd::arithmetic::div_mod::lemma_fundamental_div_mod_converse(
        q * bits_per_block(sb) + r,
        bits_per_block(sb),
        q,
        r,
    );
}

/// A superblock a file system can be made from: valid, and with a device
/// whose bit count, eight per byte of each block, fits in a `u64`.
pub open spec fn sb_usable(sb: SuperBlock) -> bool {
    &&& sb_valid_spec(sb)
    &&& sb.nblocks * (8 * sb.block_size) <= u64::MAX
}

/// A valid superblock with inodes has room for at least one inode per
/// block: with none, the inode region could never fit before the bitmap.
pub proof fn lemma_ipb_pos(sb: SuperBlock)
    requires
        sb_valid_spec(sb),
        sb.ninodes > 0,
    ensures
        inodes_per_block(sb) > 0,
{
}

/// Arithmetic bounds implied by a valid superblock on a device that fits in memory.
pub proof fn lemma_sb_bounds(sb: SuperBlock)
    requires
        sb_valid_spec(sb),
        sb.nblocks * (8 * sb.block_size) <= u64::MAX,
    ensures
        sb.nblocks >= 1,
        8 * sb.block_size <= u64::MAX,
        sb.block_size >= SUPERBLOCK_SIZE,
{
    assert(8 * sb.block_size <= sb.nblocks * (8 * sb.block_size)) by (nonlinear_arith)
        requires
            sb.nblocks >= 1,
    ;
}

/// Bit `r` of bitmap block `q` has an index that fits in a `u64`.
pub proof fn lemma_global_index_bound(sb: SuperBlock, q: int, r: int)
    requires
        0 <= q < sb.datastart - sb.bmapstart,
        0 <= r < bits_per_block(sb),
        sb.datastart <= sb.nblocks,
        sb.nblocks * (8 * sb.block_size) <= u64::MAX,
    ensures
        0 <= q * bits_per_block(sb) + r < sb.nblocks * (8 * sb.block_size),
        q * bits_per_block(sb) + r <= u64::MAX,
{
    let b = bits_per_block(sb);
    assert(0 <= q * b + r < sb.nblocks * b) by (nonlinear_arith)
        requires
            0 <= q < sb.nblocks,
            0 <= r < b,
    ;
}

/// Errors of the block layer.
#[derive(Debug)]
pub enum BlockError {
    /// Error during initialisation.
    InitError(&'static str),
    /// Error raised by a block or the device.
    API(APIError),
    /// A block index lies outside the data region.
    Bounds(&'static str),
    /// Error while allocating or freeing blocks.
    Allocation(&'static str),
}

/// Allocating a data block and freeing it again: the block reads allocated
/// in between, so freeing it succeeds, and afterwards every bit of the bitmap
/// reads as before the allocation.
pub proof fn lemma_alloc_then_free(d0: Seq<Seq<u8>>, sb: SuperBlock, g: int)
    requires
        sb_valid_spec(sb),
        d0.len() == sb.nblocks,
        forall|b: int| 0 <= b < d0.len() ==> #[trigger] d0[b].len() == sb.block_size,
        0 <= g < sb.ndatablocks,
        !bitmap_bit(d0, sb, g),
    ensures
        ({
            let d1 = disk_with_zero_block(disk_with_bit(d0, sb, g, true), sb, sb.datastart + g);
            &&& bitmap_bit(d1, sb, g)
            &&& forall|h: int| 0 <= h < sb.ndatablocks ==> #[trigger] bitmap_bit(disk_with_bit(d1, sb, g, false), sb, h) == bitmap_bit(d0, sb, h)
        }),
{
    let bpb = bits_per_block(sb);
    let bg = bmap_block_of(sb, g);
    let d1 = disk_with_zero_block(disk_with_bit(d0, sb, g, true), sb, sb.datastart + g);
    let d2 = disk_with_bit(d1, sb, g, false);
    lemma_bitmap_block_in_region(sb, g);
    assert(8 * d0[bg].len() == bpb);
    crate::bitmap::lemma_block_with_bit(d0[bg], g % bpb, true, g % bpb);
    assert(d1[bg] == block_with_bit(d0[bg], g % bpb, true));
    assert forall|h: int| 0 <= h < sb.ndatablocks implies #[trigger] bitmap_bit(d2, sb, h) == bitmap_bit(d0, sb, h) by {
        lemma_bitmap_block_in_region(sb, h);
        let bh = bmap_block_of(sb, h);
        if bh == bg {
            crate::bitmap::lemma_block_with_bit(d0[bg], g % bpb, true, h % bpb);
            crate::bitmap::lemma_block_with_bit(d1[bg], g % bpb, false, h % bpb);
            if h % bpb == g % bpb {
                vstd::arithmetic::div_mod::lemma_fundamental_div_mod(h, bpb);
                vstd::arithmetic::div_mod::lemma_fundamental_div_mod(g, bpb);
            }
        }
    }
}

/// Unmounting and mounting again: the device that `unmountfs` gives back for
/// a file system whose block zero holds its superblock is one that `mountfs`
/// accepts, and mounting it gives the same blocks and the same superblock.
pub proof fn lemma_unmount_then_mount(disk: Seq<Seq<u8>>, sb: SuperBlock, dev: Device)
    requires
        sb_valid_spec(sb),
        sb.nblocks * (8 * sb.block_size) <= u64::MAX,
        disk.len() == sb.nblocks,
        forall|i: int| 0 <= i < disk.len() ==> #[trigger] disk[i].len() == sb.block_size,
        superblock_at(disk[0], 0) == sb,
        dev.well_formed(),
        dev@ == disk,
        dev.bs() == sb.block_size,
        dev.nb() == sb.nblocks,
    ensures
        dev.nb() * (8 * dev.bs()) <= u64::MAX,
        dev.nb() > 0,
        SUPERBLOCK_SIZE <= dev.bs(),
        sb_valid_spec(superblock_at(dev@[0], 0)),
        superblock_at(dev@[0], 0).block_size == dev.bs(),
        superblock_at(dev@[0], 0).nblocks == dev.nb(),
        superblock_at(dev@[0], 0) == sb,
{
    lemma_sb_bounds(sb);
}

/// A block of the bitmap region, with operations on its bits.
pub struct BitmapBlock {
    pub b: Block,
}

/// Walks the blocks of the bitmap region in order, reading each.
struct BitmapBlockIterator<'a> {
    fs: &'a EsFS1,
    i: u64,
}

impl<'a> BitmapBlockIterator<'a> {
    /// The file system walked.
    spec fn fs(&self) -> EsFS1 {
        *self.fs
    }

    /// How many bitmap blocks the walk has read.
    spec fn pos(&self) -> u64 {
        self.i
    }

    /// A walk from the first bitmap block on.
    fn new(fs: &'a EsFS1) -> (it: BitmapBlockIterator<'a>)
        ensures
            it.fs() == *fs,
            it.pos() == 0,
    {
        BitmapBlockIterator { fs, i: 0 }
    }

    /// Reads the next bitmap block; `None` once the walk has left the bitmap
    /// region.
    fn next(&mut self) -> (r: Option<BitmapBlock>)
        requires
            old(self).fs().inv(),
        ensures
            ({
                let sb = old(self).fs().sb();
                let i = old(self).pos();
                &&& final(self).fs() == old(self).fs()
                &&& (r is Some <==> sb.bmapstart + i < sb.datastart)
                &&& r matches Some(bmb) ==> bmb.b.block_no == sb.bmapstart + i && bmb.b@ == old(self).fs().disk()[sb.bmapstart + i]
                    && final(self).pos() == i + 1
                &&& r is None ==> final(self).pos() == i
            }),
    {
        match BitmapBlock::new(self.i, self.fs) {
            Ok(bmb) => {
                self.i = self.i + 1;
                Some(bmb)
            },
            Err(_) => None,
        }
    }
}

impl BitmapBlock {
    /// Wraps a block as a bitmap block.
    pub fn from_block(b: Block) -> (r: BitmapBlock)
        ensures
            r.b == b,
    {
        BitmapBlock { b }
    }

    /// Reads bitmap block `i` (counted from the start of the bitmap region),
    /// failing when it lies outside the bitmap region.
    pub fn new(i: u64, fs: &EsFS1) -> (r: Result<BitmapBlock, BlockError>)
        requires
            fs.inv(),
        ensures
            r is Ok <==> fs.sb().bmapstart + i < fs.sb().datastart,
            r matches Ok(bmb) ==> bmb.b.block_no == fs.sb().bmapstart + i && bmb.b@ == fs.disk()[fs.sb().bmapstart + i],
            r is Err ==> r matches Err(BlockError::Allocation(_)),
    {
        let sb = fs.sb;
        if i < sb.datastart - sb.bmapstart {
            let global_index = sb.bmapstart + i;
            match fs.b_get(global_index) {
                Ok(b) => Ok(BitmapBlock { b }),
                Err(e) => Err(e),
            }
        } else {
            Err(BlockError::Allocation("tried to modify block outside bitmap region"))
        }
    }

    /// Reads the bitmap block holding the bit of data block `i`.
    pub fn new_from_data_i(i: u64, fs: &EsFS1) -> (r: Result<BitmapBlock, BlockError>)
        requires
            fs.inv(),
        ensures
            r is Ok <==> bmap_block_of(fs.sb(), i as int) < fs.sb().datastart,
            r matches Ok(bmb) ==> bmb.b.block_no == bmap_block_of(fs.sb(), i as int) && bmb.b@
                == fs.disk()[bmap_block_of(fs.sb(), i as int)],
            r is Err ==> r matches Err(BlockError::Allocation(_)),
    {
        proof { lemma_sb_bounds(fs.sb()); }
        let bmap_block_i = i / (fs.sb.block_size * 8);
        BitmapBlock::new(bmap_block_i, fs)
    }

    /// Writes the block back to `fs`.
    pub fn write_back(self, fs: &mut EsFS1) -> (r: Result<(), BlockError>)
        requires
            old(fs).inv(),
        ensures
            final(fs).inv(),
            final(fs).sb() == old(fs).sb(),
            r is Ok <==> self.b.block_no < old(fs).sb().nblocks && self.b@.len() == old(fs).sb().block_size,
            r is Ok ==> final(fs).disk() == old(fs).disk().update(self.b.block_no as int, self.b@),
            r is Err ==> final(fs).disk() == old(fs).disk(),
    {
        fs.b_put(&self.b)
    }

    /// Clears bit `i` if it is set; fails if it is clear or lies past the block.
    pub fn deallocate(&mut self, i: u64) -> (r: Result<(), BlockError>)
        ensures
            final(self).b.block_no == old(self).b.block_no,
            r is Ok <==> i / 8 < old(self).b@.len() && block_bit(old(self).b@, i as int),
            r is Ok ==> final(self).b@ == block_with_bit(old(self).b@, i as int, false),
            r is Err ==> final(self).b@ == old(self).b@,
            r matches Err(BlockError::Allocation(_)) <==> i / 8 < old(self).b@.len() && !block_bit(old(self).b@, i as int),
            r matches Err(BlockError::API(_)) <==> i / 8 >= old(self).b@.len(),
    {
        let byte_i = i / 8;
        let byte = match self.b.read_u8(byte_i) {
            Ok(x) => x,
            Err(e) => return Err(BlockError::API(e)),
        };
        let bit_offset = (i % 8) as u8;
        let helper: u8 = 1u8 << bit_offset;
        assert(((byte & helper) != 0u8) == bit_set(byte, bit_offset)) by (bit_vector)
            requires
                helper == 1u8 << bit_offset,
                bit_offset < 8,
        ;
        if byte & helper != 0 {
            let new_byte = byte ^ helper;
            assert(new_byte == clear_bit(byte, bit_offset)) by (bit_vector)
                requires
                    helper == 1u8 << bit_offset,
                    bit_offset < 8,
                    new_byte == byte ^ helper,
                    (byte & helper) != 0u8,
            ;
            match self.b.write_u8(byte_i, new_byte) {
                Ok(()) => {},
                Err(e) => return Err(BlockError::API(e)),
            }
            Ok(())
        } else {
            Err(BlockError::Allocation("trying to deallocate unallocated block"))
        }
    }

    /// Sets the lowest clear bit and returns its position; fails when every bit is set.
    pub fn allocate(&mut self) -> (r: Result<u64, BlockError>)
        requires
            8 * old(self).b@.len() <= u64::MAX,
        ensures
            final(self).b.block_no == old(self).b.block_no,
            r matches Ok(k) ==> {
                &&& k < 8 * old(self).b@.len()
                &&& !block_bit(old(self).b@, k as int)
                &&& forall|j: int| 0 <= j < k ==> #[trigger] block_bit(old(self).b@, j)
                &&& final(self).b@ == block_with_bit(old(self).b@, k as int, true)
            },
            r is Err ==> {
                &&& r matches Err(BlockError::Allocation(_))
                &&& final(self).b@ == old(self).b@
                &&& forall|j: int| 0 <= j < 8 * old(self).b@.len() ==> #[trigger] block_bit(old(self).b@, j)
            },
    {
        let len = self.b.len();
        let ulen = self.b.contents.len();
        let mut i_byte: u64 = 0;
        while i_byte < len
            invariant
                len == self.b@.len(),
                ulen == self.b@.len(),
                8 * len <= u64::MAX,
                i_byte <= len,
                self.b == old(self).b,
                forall|j: int| 0 <= j < 8 * i_byte ==> #[trigger] block_bit(self.b@, j),
            decreases len - i_byte,
        {
            let byte = self.b.contents[i_byte as usize];
            if byte != 0xffu8 {
                let i_bit = tzcnt_u8(blcic_u8(byte));
                let zero_bit_i = i_byte * 8 + i_bit as u64;
                proof {
                    lemma_lowest_clear_bit(byte);
                    assert(zero_bit_i / 8 == i_byte && zero_bit_i % 8 == i_bit);
                    assert forall|j: int| 0 <= j < zero_bit_i implies #[trigger] block_bit(
                        self.b@,
                        j,
                    ) by {
                        if j >= 8 * i_byte {
                            assert(j / 8 == i_byte);
                            assert(bit_set(byte, (j % 8) as u8));
                        }
                    }
                }
                match self.b.write_u8(i_byte, blcs_u8(byte)) {
                    Ok(()) => {},
                    Err(e) => return Err(BlockError::API(e)),
                }
                return Ok(zero_bit_i);
            }
            proof {
                assert forall|j: int| 0 <= j < 8 * (i_byte + 1) implies #[trigger] block_bit(
                    self.b@,
                    j,
                ) by {
                    if j >= 8 * i_byte {
                        assert(j / 8 == i_byte);
                        let t = (j % 8) as u8;
                        assert((0xffu8 >> t) & 1u8 == 1u8) by (bit_vector)
                            requires
                                t < 8,
                        ;
                    }
                }
            }
            i_byte = i_byte + 1;
        }
        Err(BlockError::Allocation("no free blocks in this part of the bitmap"))
    }
}

/// Number of bitmap blocks the superblock's data blocks need.
pub fn calc_bitmap_blocks(sb: &SuperBlock) -> (r: u64)
    requires
        sb.block_size > 0,
    ensures
        r == bitmap_blocks(*sb),
{
    let (q8, r8) = div_rem(sb.ndatablocks, 8);
    let bytes = q8 + if r8 == 0 {
        0
    } else {
        1
    };
    let (qb, rb) = div_rem(bytes, sb.block_size);
    qb + if rb == 0 {
        0
    } else {
        1
    }
}

/// Number of inode blocks the superblock's inodes need (`u64::MAX` when they never fit).
pub fn calc_inode_blocks(sb: &SuperBlock) -> (r: u64)
    ensures
        r == inode_blocks(*sb),
{
    let inodes_per_block = sb.block_size / DINODE_SIZE;
    if inodes_per_block == 0 {
        if sb.ninodes == 0 {
            0
        } else {
            u64::MAX
        }
    } else {
        let (q, r) = div_rem(sb.ninodes, inodes_per_block);
        proof {
            vstd::arithmetic::div_mod::lemma_fundamental_div_mod(sb.ninodes as int, inodes_per_block as int);
            vstd::arithmetic::mul::lemma_mul_is_commutative(inodes_per_block as int, q as int);
        }
        assert(r != 0 ==> q < sb.ninodes) by (nonlinear_arith)
            requires
                q * inodes_per_block + r == sb.ninodes,
                inodes_per_block >= 1,
        ;
        q + if r == 0 {
            0
        } else {
            1
        }
    }
}

/// Checks that the device's geometry is the one the superblock describes.
pub fn sb_match_dev(dev: &Device, sb: &SuperBlock) -> (r: Result<(), BlockError>)
    ensures
        r is Ok <==> sb.block_size == dev.bs() && sb.nblocks == dev.nb(),
        r is Err ==> r matches Err(BlockError::InitError(_)),
{
    if sb.block_size != dev.block_size() {
        return Err(BlockError::InitError("device block size does not match superblock"));
    }
    if sb.nblocks != dev.nblocks() {
        return Err(BlockError::InitError("device number of blocks does not match superblock"));
    }
    Ok(())
}

/// The file system type of this layer, under the name the other layers and
/// the tests use for it.
pub type FSName = EsFS1;

/// A file system supporting operations on blocks of data.
pub struct EsFS1 {
    dev: Device,
    sb: SuperBlock,
}

impl EsFS1 {
    /// The blocks of the device.
    pub closed spec fn disk(&self) -> Seq<Seq<u8>> {
        self.dev@
    }

    /// The cached superblock.
    pub closed spec fn sb(&self) -> SuperBlock {
        self.sb
    }

    /// Block size of the device.
    pub closed spec fn dev_bs(&self) -> u64 {
        self.dev.bs()
    }

    /// Number of blocks of the device.
    pub closed spec fn dev_nb(&self) -> u64 {
        self.dev.nb()
    }

    /// The device holds `dev_nb()` blocks of `dev_bs()` bytes each, whatever
    /// the cached superblock says.
    pub open spec fn dev_ok(&self) -> bool {
        &&& self.disk().len() == self.dev_nb()
        &&& forall|i: int| 0 <= i < self.disk().len() ==> #[trigger] self.disk()[i].len() == self.dev_bs()
        &&& self.dev_nb() > 0 ==> self.dev_bs() <= usize::MAX
    }

    /// The device agrees with the cached superblock.
    pub open spec fn dev_matches(&self) -> bool {
        &&& self.dev_ok()
        &&& self.dev_bs() == self.sb().block_size
        &&& self.dev_nb() == self.sb().nblocks
    }

    /// Well-formedness: a valid superblock describing the device.
    pub open spec fn inv(&self) -> bool {
        &&& self.dev_matches()
        &&& self.disk().len() == self.sb().nblocks
        &&& forall|i: int|
            0 <= i < self.disk().len() ==> #[trigger] self.disk()[i].len() == self.sb().block_size
        &&& sb_valid_spec(self.sb())
        &&& self.sb().nblocks * (8 * self.sb().block_size) <= u64::MAX
        &&& self.sb().block_size <= usize::MAX
    }

    /// A walk over the blocks of the bitmap region.
    fn bmap_iter(&self) -> (it: BitmapBlockIterator)
        ensures
            it.fs() == *self,
            it.pos() == 0,
    {
        BitmapBlockIterator::new(self)
    }

    /// Whether `i` indexes a block of the data region.
    pub fn check_dblock_bounds(&self, i: u64) -> (r: bool)
        ensures
            r == (i < self.sb().ndatablocks),
    {
        self.sb.ndatablocks > i
    }

    /// Reads block `i` of the device.
    pub fn b_get(&self, i: u64) -> (r: Result<Block, BlockError>)
        requires
            self.inv(),
        ensures
            r is Ok <==> i < self.sb().nblocks,
            r matches Ok(b) ==> b.block_no == i && b@ == self.disk()[i as int],
            r is Err ==> r matches Err(BlockError::API(_)),
    {
        match self.dev.read_block(i) {
            Ok(b) => Ok(b),
            Err(e) => Err(BlockError::API(e)),
        }
    }

    /// Writes `b` to block `b.block_no` of the device.
    pub fn b_put(&mut self, b: &Block) -> (r: Result<(), BlockError>)
        requires
            old(self).inv(),
        ensures
            final(self).inv(),
            final(self).sb() == old(self).sb(),
            r is Ok <==> b.block_no < old(self).sb().nblocks && b@.len() == old(self).sb().block_size,
            r is Ok ==> final(self).disk() == old(self).disk().update(b.block_no as int, b@),
            r is Err ==> final(self).disk() == old(self).disk() && r matches Err(BlockError::API(_)),
    {
        match self.dev.write_block(b) {
            Ok(()) => Ok(()),
            Err(e) => Err(BlockError::API(e)),
        }
    }

    /// Frees data block `i`: clears its bitmap bit. Fails when `i` lies outside
    /// the data region or the block is not allocated.
    pub fn b_free(&mut self, i: u64) -> (r: Result<(), BlockError>)
        requires
            old(self).inv(),
        ensures
            final(self).inv(),
            final(self).sb() == old(self).sb(),
            r is Ok <==> i < old(self).sb().ndatablocks && bitmap_bit(old(self).disk(), old(self).sb(), i as int),
            r is Ok ==> final(self).disk() == disk_with_bit(old(self).disk(), old(self).sb(), i as int, false),
            r is Err ==> final(self).disk() == old(self).disk(),
            r matches Err(BlockError::Bounds(_)) <==> i >= old(self).sb().ndatablocks,
            r matches Err(BlockError::Allocation(_)) <==> i < old(self).sb().ndatablocks && !bitmap_bit(old(self).disk(), old(self).sb(), i as int),
    {
        if self.check_dblock_bounds(i) {
            proof { lemma_bitmap_block_in_region(self.sb, i as int); }
            let mut bitmap_block = match BitmapBlock::new_from_data_i(i, self) {
                Ok(bmb) => bmb,
                Err(e) => return Err(e),
            };
            proof { lemma_sb_bounds(self.sb); }
            let block_bit_index = i % (self.sb.block_size * 8);
            proof {
                assert(block_bit_index / 8 < bitmap_block.b@.len()) by {
                    vstd::arithmetic::div_mod::lemma_div_is_ordered(
                        block_bit_index as int,
                        8 * self.sb.block_size - 1,
                        8,
                    );
                }
            }
            match bitmap_block.deallocate(block_bit_index) {
                Ok(()) => {},
                Err(e) => return Err(e),
            }
            bitmap_block.write_back(self)
        } else {
            Err(BlockError::Bounds("free"))
        }
    }

    /// Zeroes data block `i`; fails when `i` lies outside the data region.
    pub fn b_zero(&mut self, i: u64) -> (r: Result<(), BlockError>)
        requires
            old(self).inv(),
        ensures
            final(self).inv(),
            final(self).sb() == old(self).sb(),
            r is Ok <==> i < old(self).sb().ndatablocks,
            r is Ok ==> final(self).disk() == disk_with_zero_block(old(self).disk(), old(self).sb(), old(self).sb().datastart + i),
            r is Err ==> final(self).disk() == old(self).disk() && r matches Err(BlockError::Bounds(_)),
    {
        if self.check_dblock_bounds(i) {
            let z = Block::new_zero(self.sb.datastart + i, self.sb.block_size);
            self.b_put(&z)
        } else {
            Err(BlockError::Bounds("zero"))
        }
    }

    /// Allocates the free data block with the lowest index: sets its bitmap bit,
    /// zeroes it and returns its index in the data region. Fails when every data
    /// block is allocated.
    pub fn b_alloc(&mut self) -> (r: Result<u64, BlockError>)
        requires
            old(self).inv(),
        ensures
            final(self).inv(),
            final(self).sb() == old(self).sb(),
            r is Ok <==> exists|g: int| 0 <= g < old(self).sb().ndatablocks && !bitmap_bit(old(self).disk(), old(self).sb(), g),
            r matches Ok(g) ==> {
                &&& g < old(self).sb().ndatablocks
                &&& !bitmap_bit(old(self).disk(), old(self).sb(), g as int)
                &&& forall|h: int| 0 <= h < g ==> #[trigger] bitmap_bit(old(self).disk(), old(self).sb(), h)
                &&& final(self).disk() == disk_with_zero_block(
                    disk_with_bit(old(self).disk(), old(self).sb(), g as int, true),
                    old(self).sb(),
                    old(self).sb().datastart + g,
                )
            },
            r is Err ==> (r matches Err(BlockError::Allocation(_))) && final(self).disk() == old(self).disk(),
    {
        let sb = self.sb;
        proof { lemma_sb_bounds(sb); }
        let nbmap = sb.datastart - sb.bmapstart;
        let bpb = sb.block_size * 8;
        let mut bmb_i: u64 = 0;
        let mut bmap_iter = self.bmap_iter();
        loop
            invariant
                self.inv(),
                self.sb() == sb,
                sb == old(self).sb(),
                self.disk() == old(self).disk(),
                bmap_iter.fs() == *self,
                bmap_iter.pos() == bmb_i,
                nbmap == sb.datastart - sb.bmapstart,
                bpb == bits_per_block(sb),
                bmb_i <= nbmap,
                forall|h: int| 0 <= h < bmb_i * bpb ==> #[trigger] bitmap_bit(self.disk(), sb, h),
            ensures
                self.disk() == old(self).disk(),
                bmb_i == nbmap,
                forall|h: int| 0 <= h < bmb_i * bpb ==> #[trigger] bitmap_bit(self.disk(), sb, h),
            decreases nbmap - bmb_i,
        {
            let mut bmb = match bmap_iter.next() {
                Some(b) => b,
                None => break,
            };
            let ghost blk = bmb.b@;
            match bmb.allocate() {
                Ok(i) => {
                    proof {
                        lemma_global_index_bound(sb, bmb_i as int, i as int);
                        lemma_bit_position(sb, bmb_i as int, i as int);
                    }
                    let global_i = bmb_i * bpb + i;
                    if self.check_dblock_bounds(global_i) {
                        proof {
                            lemma_bitmap_block_in_region(sb, global_i as int);
                            assert(!bitmap_bit(self.disk(), sb, global_i as int));
                            assert forall|h: int| 0 <= h < global_i implies #[trigger] bitmap_bit(
                                self.disk(),
                                sb,
                                h,
                            ) by {
                                if h >= bmb_i * bpb {
                                    lemma_bit_position(sb, bmb_i as int, h - bmb_i * bpb);
                                    assert(block_bit(blk, h - bmb_i * bpb));
                                }
                            }
                        }
                        match bmb.write_back(self) {
                            Ok(()) => {},
                            Err(e) => return Err(e),
                        }
                        let z = Block::new_zero(global_i + sb.datastart, sb.block_size);
                        match self.b_put(&z) {
                            Ok(()) => {},
                            Err(e) => return Err(e),
                        }
                        return Ok(global_i);
                    } else {
                        proof {
                            assert forall|h: int| 0 <= h < sb.ndatablocks implies #[trigger] bitmap_bit(
                                self.disk(),
                                sb,
                                h,
                            ) by {
                                if h >= bmb_i * bpb {
                                    lemma_bit_position(sb, bmb_i as int, h - bmb_i * bpb);
                                    assert(block_bit(blk, h - bmb_i * bpb));
                                }
                            }
                        }
                        return Err(BlockError::Allocation("no more free blocks in the filesystem"));
                    }
                },
                Err(e) => {
                    match e {
                        BlockError::Allocation(_) => {},
                        _ => return Err(e),
                    }
                    proof {
                        vstd::arithmetic::mul::lemma_mul_is_distributive_add_other_way(bpb as int, bmb_i as int, 1);
                        assert forall|h: int| 0 <= h < (bmb_i + 1) * bpb implies #[trigger] bitmap_bit(
                            self.disk(),
                            sb,
                            h,
                        ) by {
                            if h >= bmb_i * bpb {
                                lemma_bit_position(sb, bmb_i as int, h - bmb_i * bpb);
                                assert(block_bit(blk, h - bmb_i * bpb));
                            }
                        }
                    }
                },
            }
            bmb_i = bmb_i + 1;
        }
        proof {
            assert forall|h: int| 0 <= h < sb.ndatablocks implies #[trigger] bitmap_bit(
                self.disk(),
                sb,
                h,
            ) by {
                lemma_bitmap_block_in_region(sb, h);
                vstd::arithmetic::div_mod::lemma_fundamental_div_mod(h, bpb as int);
                let qq = h / (bpb as int);
                let rr = h % (bpb as int);
                assert(h < bmb_i * bpb) by (nonlinear_arith)
                    requires
                        h == bpb * qq + rr,
                        rr < bpb,
                        0 <= qq < nbmap,
                        bmb_i == nbmap,
                ;
            }
        }
        Err(BlockError::Allocation("no more free blocks in the filesystem"))
    }

    /// The cached superblock, as a value.
    pub fn sb_value(&self) -> (r: SuperBlock)
        ensures
            r == self.sb(),
    {
        self.sb
    }

    /// The cached superblock.
    pub fn sup_get(&self) -> (r: Result<SuperBlock, BlockError>)
        ensures
            r == Ok::<SuperBlock, BlockError>(self.sb()),
    {
        Ok(self.sb)
    }

    /// Replaces the superblock, in the cache and in block 0. Any superblock
    /// is taken; the file system is well formed afterwards exactly when the
    /// new one is valid and describes the device (see [`sb_fits_device`]).
    /// Fails, with the cache already replaced, when the device has no block 0
    /// or its blocks cannot hold a superblock.
    pub fn sup_put(&mut self, sup: &SuperBlock) -> (r: Result<(), BlockError>)
        requires
            old(self).dev_ok(),
        ensures
            final(self).dev_ok(),
            final(self).dev_bs() == old(self).dev_bs(),
            final(self).dev_nb() == old(self).dev_nb(),
            final(self).sb() == *sup,
            final(self).inv() <==> sb_fits_device(*sup, old(self).dev_bs(), old(self).dev_nb()),
            r is Ok <==> 0 < old(self).dev_nb() && SUPERBLOCK_SIZE <= old(self).dev_bs(),
            r is Ok ==> final(self).disk() == old(self).disk().update(0, final(self).disk()[0]),
            r is Ok ==> superblock_at(final(self).disk()[0], 0) == *sup,
            r is Ok ==> forall|k: int|
                SUPERBLOCK_SIZE <= k < old(self).dev_bs() ==> #[trigger] final(self).disk()[0][k] == old(self).disk()[0][k],
            r is Err ==> final(self).disk() == old(self).disk() && r matches Err(BlockError::API(_)),
    {
        self.sb = *sup;
        let mut sb_block = match self.dev.read_block(0) {
            Ok(b) => b,
            Err(e) => return Err(BlockError::API(e)),
        };
        match sb_block.write_superblock(sup, 0) {
            Ok(()) => {},
            Err(e) => return Err(BlockError::API(e)),
        }
        match self.dev.write_block(&sb_block) {
            Ok(()) => Ok(()),
            Err(e) => Err(BlockError::API(e)),
        }
    }

    /// Whether `sb` is a valid superblock (see [`sb_valid_spec`]).
    pub fn sb_valid(sb: &SuperBlock) -> (r: bool)
        ensures
            r == sb_valid_spec(*sb),
    {
        let superblock_fits = SUPERBLOCK_SIZE <= sb.block_size;
        let region_order_correct = 0 < sb.inodestart && sb.inodestart < sb.bmapstart
            && sb.bmapstart < sb.datastart;
        if !superblock_fits || !region_order_correct {
            return false;
        }
        let inodes_req_blocks = calc_inode_blocks(sb);
        let inodes_fit = inodes_req_blocks <= sb.bmapstart - sb.inodestart;
        let bitmap_blocks_needed = calc_bitmap_blocks(sb);
        let bitmap_fits = bitmap_blocks_needed <= sb.datastart - sb.bmapstart;
        let data_fits = sb.datastart <= sb.nblocks && sb.ndatablocks <= sb.nblocks - sb.datastart;
        inodes_fit && bitmap_fits && data_fits
    }

    /// Creates a file system described by `sb` on a fresh zeroed device and
    /// writes the superblock to block 0. Fails when `sb` is not valid.
    pub fn mkfs(sb: &SuperBlock) -> (r: Result<EsFS1, BlockError>)
        ensures
            r is Ok <==> sb_usable(*sb),
            r matches Ok(fs) ==> {
                &&& fs.inv()
                &&& fs.sb() == *sb
                &&& superblock_at(fs.disk()[0], 0) == *sb
                &&& forall|k: int| SUPERBLOCK_SIZE <= k < sb.block_size ==> #[trigger] fs.disk()[0][k] == 0
                &&& forall|i: int| 1 <= i < sb.nblocks ==> #[trigger] fs.disk()[i] == zeros(sb.block_size as nat)
            },
            r is Err ==> r matches Err(BlockError::InitError(_)),
    {
        if !Self::sb_valid(sb) {
            return Err(BlockError::InitError("Invalid superblock!"));
        }
        let bits = match sb.block_size.checked_mul(8) {
            Some(x) => x,
            None => {
                assert(sb.nblocks * (8 * sb.block_size) >= 8 * sb.block_size) by (nonlinear_arith)
                    requires
                        sb.nblocks >= 1,
                ;
                return Err(BlockError::InitError("Device too large!"));
            },
        };
        if sb.nblocks.checked_mul(bits).is_none() {
            return Err(BlockError::InitError("Device too large!"));
        }
        let mut new_fs = EsFS1 { dev: Device::new(sb.block_size, sb.nblocks), sb: *sb };
        let ghost d0 = new_fs.disk();
        let mut sb_block = match new_fs.b_get(0) {
            Ok(b) => b,
            Err(e) => return Err(e),
        };
        match sb_block.write_superblock(sb, 0) {
            Ok(()) => {},
            Err(e) => return Err(BlockError::API(e)),
        }
        proof {
            crate::types::lemma_superblock_window(sb_block@, 0, sb_block@, 0);
        }
        match new_fs.b_put(&sb_block) {
            Ok(()) => {},
            Err(e) => return Err(e),
        }
        assert(forall|k: int| SUPERBLOCK_SIZE <= k < sb.block_size ==> #[trigger] new_fs.disk()[0][k] == sb_block@[k]);
        assert(forall|i: int| 1 <= i < sb.nblocks ==> #[trigger] new_fs.disk()[i] == d0[i]);
        Ok(new_fs)
    }

    /// Mounts the file system on `dev`: reads and checks its superblock.
    pub fn mountfs(dev: Device) -> (r: Result<EsFS1, BlockError>)
        requires
            dev.well_formed(),
            dev.nb() * (8 * dev.bs()) <= u64::MAX,
        ensures
            r matches Ok(fs) ==> fs.inv() && fs.disk() == dev@ && fs.sb() == superblock_at(dev@[0], 0),
            r is Ok <==> {
                &&& dev.nb() > 0
                &&& SUPERBLOCK_SIZE <= dev.bs()
                &&& sb_valid_spec(superblock_at(dev@[0], 0))
                &&& superblock_at(dev@[0], 0).block_size == dev.bs()
                &&& superblock_at(dev@[0], 0).nblocks == dev.nb()
            },
            r matches Err(BlockError::API(_)) <==> dev.nb() == 0 || dev.bs() < SUPERBLOCK_SIZE,
    {
        let sbblock = match dev.read_block(0) {
            Ok(b) => b,
            Err(e) => return Err(BlockError::API(e)),
        };
        let sb = match sbblock.read_superblock(0) {
            Ok(sb) => sb,
            Err(e) => return Err(BlockError::API(e)),
        };
        if !Self::sb_valid(&sb) {
            return Err(BlockError::InitError("Invalid superblock"));
        }
        match sb_match_dev(&dev, &sb) {
            Ok(()) => {},
            Err(e) => return Err(e),
        }
        Ok(EsFS1 { dev, sb })
    }

    /// Gives the device back.
    pub fn unmountfs(self) -> (d: Device)
        requires
            self.inv(),
        ensures
            d.well_formed(),
            d@ == self.disk(),
            d.bs() == self.sb().block_size,
            d.nb() == self.sb().nblocks,
    {
        self.dev
    }
}

} // verus!
