//! What writing the bytes of an inode does to the disk: the state a write
//! leaves behind, and the facts about block pointers, the bitmap and byte
//! positions that the proof of the write rests on.
use vstd::prelude::*;
use crate::types::{DInodeView, SuperBlock};
use crate::blocks::Block;
use crate::codec::update_bytes;
use crate::a_block_support::{
    bitmap_bit, disk_with_bit, disk_with_zero_block, bits_per_block, bmap_block_of, ceil_div,
    inodes_per_block, lemma_bitmap_block_in_region, sb_valid_spec,
};
use crate::b_inode_support::{
    disk_inode, inode_block_of, inode_in_range, inode_written, lemma_inode_location,
    lemma_inode_write_read, lemma_mul_lt_ceil,
};
use crate::e_inode_rw_support::{file_byte, min_int, ptr};
use crate::blocks::zeros;

verus! {

/// Every block of `disk` has the block size of `sb`, and there are `nblocks` of them.
pub open spec fn disk_shape(disk: Seq<Seq<u8>>, sb: SuperBlock) -> bool {
    &&& disk.len() == sb.nblocks
    &&& forall|b: int| 0 <= b < disk.len() ==> #[trigger] disk[b].len() == sb.block_size
}

/// The block pointers of `d` that are in use lie on the device past its
/// metadata (at `datastart` or later), those in the data region are marked
/// allocated in the bitmap, and no two of them are equal.
pub open spec fn blocks_sound(disk: Seq<Seq<u8>>, sb: SuperBlock, d: DInodeView) -> bool {
    &&& d.blocks.len() == 12
    &&& forall|j: int|
        0 <= j < 12 && #[trigger] ptr(d, j) != 0 ==> sb.datastart <= ptr(d, j) < sb.nblocks
            && (ptr(d, j) < sb.datastart + sb.ndatablocks ==> bitmap_bit(disk, sb, ptr(d, j) - sb.datastart))
    &&& forall|j1: int, j2: int|
        0 <= j1 < 12 && 0 <= j2 < 12 && j1 != j2 && ptr(d, j1) != 0 ==> #[trigger] ptr(d, j1)
            != #[trigger] ptr(d, j2)
}

/// Block `b` lies on the device past its metadata and, when it lies in the
/// data region, is marked allocated: a block a file may hold.
pub open spec fn held(disk: Seq<Seq<u8>>, sb: SuperBlock, b: int) -> bool {
    &&& sb.datastart <= b < sb.nblocks
    &&& b < sb.datastart + sb.ndatablocks ==> bitmap_bit(disk, sb, b - sb.datastart)
}

/// The block pointers of `d` are sound (see [`blocks_sound`]) and those in
/// use all lie in the data region.
pub open spec fn blocks_in_data(disk: Seq<Seq<u8>>, sb: SuperBlock, d: DInodeView) -> bool {
    &&& blocks_sound(disk, sb, d)
    &&& forall|j: int| 0 <= j < 12 && #[trigger] ptr(d, j) != 0 ==> ptr(d, j) < sb.datastart + sb.ndatablocks
}

/// Block `b` can be written through by a write: it lies on the device, not
/// in the bitmap region, and is marked allocated when it lies in the data
/// region (so that no allocation hands it out again).
pub open spec fn meetable(disk: Seq<Seq<u8>>, sb: SuperBlock, b: int) -> bool {
    &&& 0 < b < sb.nblocks
    &&& !(sb.bmapstart <= b < sb.datastart)
    &&& sb.datastart <= b < sb.datastart + sb.ndatablocks ==> bitmap_bit(disk, sb, b - sb.datastart)
}

/// The pointers of `d` among `from .. to` that are in use can be written
/// through (see [`meetable`]) and no two of them are equal.
pub open spec fn met_sound(disk: Seq<Seq<u8>>, sb: SuperBlock, d: DInodeView, from: int, to: int) -> bool {
    &&& d.blocks.len() == 12
    &&& forall|j: int| from <= j < to && #[trigger] ptr(d, j) != 0 ==> meetable(disk, sb, ptr(d, j) as int)
    &&& forall|j1: int, j2: int|
        from <= j1 < to && from <= j2 < to && j1 != j2 && ptr(d, j1) != 0 ==> #[trigger] ptr(d, j1)
            != #[trigger] ptr(d, j2)
}

/// The pointers a write of `n` bytes at `off` into inode `inum` (disk inode
/// `d`) meets, one per piece, can be written through and are distinct; and
/// when the write grows the inode, none of them is the block that holds the
/// inode itself.
pub open spec fn write_meets_ok(disk: Seq<Seq<u8>>, sb: SuperBlock, d: DInodeView, inum: int, off: int, n: int) -> bool {
    let bs = sb.block_size as int;
    let first = off / bs;
    let last = first + write_range_count(n, off % bs, bs);
    &&& met_sound(disk, sb, d, first, last)
    &&& d.size < off + n && inode_in_range(sb, inum) ==> !pointed(d, first, last, inode_block_of(sb, inum))
}

/// Byte `p` of a file with disk inode `d0` on `d0_disk` is out of reach of
/// a write that meets the pointers `first .. last`: its block is one of
/// those, or one that the write can neither write nor allocate.
pub open spec fn out_of_reach(d0_disk: Seq<Seq<u8>>, d0: DInodeView, sb: SuperBlock, first: int, last: int, p: int) -> bool {
    let b = ptr(d0, p / (sb.block_size as int)) as int;
    first <= p / (sb.block_size as int) < last || (meetable(d0_disk, sb, b) && !pointed(d0, first, last, b))
}

/// The disk as it reads once the cached block `b` is written back; a block
/// numbered zero stands for no cached block.
pub open spec fn with_pending(disk: Seq<Seq<u8>>, b: Block) -> Seq<Seq<u8>> {
    if b.block_no != 0 {
        disk.update(b.block_no as int, b@)
    } else {
        disk
    }
}

/// Number of zero block pointers of `d` among `from .. to`.
pub open spec fn missing_ptrs(d: DInodeView, from: int, to: int) -> nat
    decreases to - from,
{
    if to <= from {
        0
    } else {
        missing_ptrs(d, from, to - 1) + if ptr(d, to - 1) == 0 {
            1nat
        } else {
            0nat
        }
    }
}

/// Number of data blocks among `0 .. k` that the bitmap marks free.
pub open spec fn free_below(disk: Seq<Seq<u8>>, sb: SuperBlock, k: int) -> nat
    decreases k,
{
    if k <= 0 {
        0
    } else {
        free_below(disk, sb, k - 1) + if bitmap_bit(disk, sb, k - 1) {
            0nat
        } else {
            1nat
        }
    }
}

/// Number of pieces a write of `n` bytes from offset `io` of a block of `bs`
/// bytes is cut into: one per block it touches.
pub open spec fn write_range_count(n: int, io: int, bs: int) -> int {
    let init_n = bs - io;
    if n == 0 {
        0
    } else if n <= init_n {
        1
    } else {
        1 + ceil_div(n - init_n, bs)
    }
}

/// The checks a write makes first leave every piece inside the pointer
/// array: a write of `n > 0` bytes at `off` that ends within twelve blocks
/// touches no block past the twelfth, so it runs out of blocks only when the
/// bitmap does.
pub proof fn lemma_pieces_fit(off: int, n: int, bs: int)
    requires
        bs > 0,
        off >= 0,
        n > 0,
        off + n <= 12 * bs,
    ensures
        off / bs + write_range_count(n, off % bs, bs) <= 12,
{
    let q = off / bs;
    let io = off % bs;
    vstd::arithmetic::div_mod::lemma_fundamental_div_mod(off, bs);
    vstd::arithmetic::div_mod::lemma_mod_bound(off, bs);
    assert(off == bs * q + io);
    if n <= bs - io {
        assert(q < 12) by (nonlinear_arith)
            requires
                off == bs * q + io,
                0 <= io,
                off < 12 * bs,
                bs > 0,
        ;
    } else {
        let x = n - (bs - io);
        let c = ceil_div(x, bs);
        lemma_mul_lt_ceil(0, x, bs);
        assert(c >= 1);
        lemma_mul_lt_ceil(c - 1, x, bs);
        assert(q + c < 12) by (nonlinear_arith)
            requires
                (c - 1) * bs < x,
                off + n <= 12 * bs,
                off == bs * q + io,
                x == n - (bs - io),
                bs > 0,
                c >= 1,
        ;
    }
}

/// Every block a write of `n > 0` bytes at `off` touches starts before the
/// last byte written.
pub proof fn lemma_pieces_within(off: int, n: int, bs: int, j: int)
    requires
        bs > 0,
        off >= 0,
        n > 0,
        off / bs <= j < off / bs + write_range_count(n, off % bs, bs),
    ensures
        j * bs < off + n,
{
    let q = off / bs;
    let io = off % bs;
    vstd::arithmetic::div_mod::lemma_fundamental_div_mod(off, bs);
    vstd::arithmetic::div_mod::lemma_mod_bound(off, bs);
    if n <= bs - io {
        assert(j == q);
        assert(j * bs < off + n) by (nonlinear_arith)
            requires
                off == bs * q + io,
                j == q,
                0 <= io,
                n > 0,
        ;
    } else {
        let x = n - (bs - io);
        let c = ceil_div(x, bs);
        lemma_mul_lt_ceil(0, x, bs);
        lemma_mul_lt_ceil(c - 1, x, bs);
        assert(j * bs < off + n) by (nonlinear_arith)
            requires
                (c - 1) * bs < x,
                off == bs * q + io,
                x == n - (bs - io),
                q <= j <= q + c,
                bs > 0,
        ;
    }
}

/// Where piece `j` of a write starts in the buffer.
pub open spec fn wr_start(j: int, io: int, bs: int) -> int {
    if j == 0 {
        0
    } else {
        bs - io + (j - 1) * bs
    }
}

/// Where piece `j` of a write of `n` bytes ends in the buffer.
pub open spec fn wr_end(j: int, n: int, io: int, bs: int) -> int {
    min_int(n, bs - io + j * bs)
}

/// Where piece `j` of a write lands in its block.
pub open spec fn wr_off(j: int, io: int) -> int {
    if j == 0 {
        io
    } else {
        0
    }
}

/// Number of buffer bytes written once the first `j` pieces are.
pub open spec fn written_end(j: int, n: int, io: int, bs: int) -> int {
    if j == 0 {
        0
    } else {
        wr_end(j - 1, n, io, bs)
    }
}

/// Some pointer among `from .. to` was zero in `d0` and is `b` in `d1`.
pub open spec fn newly(d0: DInodeView, d1: DInodeView, from: int, to: int, b: int) -> bool {
    exists|j: int| from <= j < to && ptr(d0, j) == 0 && #[trigger] ptr(d1, j) == b
}

/// Some pointer of `d` among `from .. to` is `b`.
pub open spec fn pointed(d: DInodeView, from: int, to: int, b: int) -> bool {
    exists|j: int| from <= j < to && #[trigger] ptr(d, j) == b
}

/// The blocks newly given to the zero pointers among `from .. to` were taken
/// lowest first: below the block given to pointer `j`, every data block free
/// on `d0_disk` went to one of the pointers before `j`.
pub open spec fn lowest_taken(d0_disk: Seq<Seq<u8>>, d0: DInodeView, d: DInodeView, sb: SuperBlock, from: int, to: int) -> bool {
    forall|j: int, h: int|
        #![trigger ptr(d, j), bitmap_bit(d0_disk, sb, h)]
        from <= j < to && ptr(d0, j) == 0 && 0 <= h < ptr(d, j) - sb.datastart && !bitmap_bit(d0_disk, sb, h)
            ==> newly(d0, d, from, j, sb.datastart + h)
}

/// One more piece keeps the blocks taken lowest first, when a fresh block is
/// the lowest one free at the time.
pub proof fn lemma_lowest_step(
    d0_disk: Seq<Seq<u8>>,
    d0: DInodeView,
    dd: DInodeView,
    d2: DInodeView,
    e0: Seq<Seq<u8>>,
    sb: SuperBlock,
    from: int,
    j0: int,
)
    requires
        from <= j0,
        lowest_taken(d0_disk, d0, dd, sb, from, j0),
        forall|j: int| j != j0 ==> #[trigger] ptr(d2, j) == ptr(dd, j),
        ptr(d0, j0) != 0 ==> ptr(d2, j0) == ptr(dd, j0),
        ptr(d0, j0) == 0 ==> ptr(d2, j0) - sb.datastart <= sb.ndatablocks,
        ptr(d0, j0) == 0 ==> forall|h: int| 0 <= h < ptr(d2, j0) - sb.datastart ==> #[trigger] bitmap_bit(e0, sb, h),
        forall|h: int|
            0 <= h < sb.ndatablocks ==> #[trigger] bitmap_bit(e0, sb, h) == (bitmap_bit(d0_disk, sb, h)
                || newly(d0, dd, from, j0, sb.datastart + h)),
    ensures
        lowest_taken(d0_disk, d0, d2, sb, from, j0 + 1),
{
    let ds = sb.datastart as int;
    assert forall|j: int, h: int|
        #![trigger ptr(d2, j), bitmap_bit(d0_disk, sb, h)]
        from <= j < j0 + 1 && ptr(d0, j) == 0 && 0 <= h < ptr(d2, j) - ds && !bitmap_bit(d0_disk, sb, h)
        implies newly(d0, d2, from, j, ds + h) by {
        if j < j0 {
            assert(ptr(d2, j) == ptr(dd, j));
            assert(newly(d0, dd, from, j, ds + h));
            let w = choose|w: int| from <= w < j && ptr(d0, w) == 0 && #[trigger] ptr(dd, w) == ds + h;
            assert(ptr(d2, w) == ptr(dd, w));
        } else {
            assert(bitmap_bit(e0, sb, h));
            assert(newly(d0, dd, from, j0, ds + h));
            let w = choose|w: int| from <= w < j0 && ptr(d0, w) == 0 && #[trigger] ptr(dd, w) == ds + h;
            assert(ptr(d2, w) == ptr(dd, w));
        }
    }
}

/// The state of a write of `buf[0 .. n]` at `off` once its first `ri` pieces
/// are written: `disk` and `d` against the disk `d0_disk` and disk inode `d0`
/// it started from.
pub open spec fn write_state(
    disk: Seq<Seq<u8>>,
    d: DInodeView,
    d0_disk: Seq<Seq<u8>>,
    d0: DInodeView,
    sb: SuperBlock,
    off: int,
    n: int,
    buf: Seq<u8>,
    ri: int,
) -> bool {
    let bs = sb.block_size as int;
    let first = off / bs;
    let io = off % bs;
    let last = first + write_range_count(n, io, bs);
    let ds = sb.datastart as int;
    &&& disk_shape(disk, sb)
    &&& met_sound(disk, sb, d, first, last)
    &&& d.size == d0.size && d.ft == d0.ft && d.nlink == d0.nlink
    &&& forall|j: int| first <= j < first + ri ==> #[trigger] ptr(d, j) != 0
    &&& forall|j: int| !(first <= j < first + ri) ==> #[trigger] ptr(d, j) == ptr(d0, j)
    &&& forall|j: int| ptr(d0, j) != 0 ==> #[trigger] ptr(d, j) == ptr(d0, j)
    &&& forall|k: int|
        0 <= k < written_end(ri, n, io, bs) ==> #[trigger] file_byte(disk, bs, d, off + k) == buf[k]
    &&& forall|p: int|
        0 <= p && !(off <= p < off + n) && ptr(d0, p / bs) != 0 && out_of_reach(d0_disk, d0, sb, first, last, p)
            ==> #[trigger] file_byte(disk, bs, d, p) == file_byte(d0_disk, bs, d0, p)
    &&& free_below(disk, sb, sb.ndatablocks as int) + missing_ptrs(d0, first, first + ri) == free_below(
        d0_disk,
        sb,
        sb.ndatablocks as int,
    )
    &&& forall|h: int|
        0 <= h < sb.ndatablocks ==> #[trigger] bitmap_bit(disk, sb, h) == (bitmap_bit(d0_disk, sb, h)
            || newly(d0, d, first, first + ri, ds + h))
    &&& forall|j: int|
        first <= j < first + ri && ptr(d0, j) == 0 ==> ds <= #[trigger] ptr(d, j) < ds + sb.ndatablocks
            && !bitmap_bit(d0_disk, sb, ptr(d, j) - ds)
    &&& forall|b: int|
        0 <= b < sb.nblocks && !(sb.bmapstart <= b < sb.datastart) && !pointed(d, first, first + ri, b)
            ==> #[trigger] disk[b] == d0_disk[b]
}

/// The state a successful write of `buf[0 .. n]` at `off` into inode `inum`
/// leaves: `d1` and `d1_disk` against the disk inode `d0` and the disk
/// `d0_disk` before it. The size grows to cover the bytes written; the pieces'
/// blocks are present (zero pointers got newly allocated blocks); the bytes
/// read back as written; the other bytes of present blocks, the unrelated
/// blocks and the other inodes are unchanged; and the inode is written back
/// when its size grew.
pub open spec fn write_done(
    d0_disk: Seq<Seq<u8>>,
    d0: DInodeView,
    d1_disk: Seq<Seq<u8>>,
    d1: DInodeView,
    sb: SuperBlock,
    inum: int,
    off: int,
    n: int,
    buf: Seq<u8>,
) -> bool {
    let bs = sb.block_size as int;
    let first = off / bs;
    let last = first + write_range_count(n, off % bs, bs);
    let ds = sb.datastart as int;
    &&& disk_shape(d1_disk, sb)
    &&& d1.size == if d0.size < off + n {
        off + n
    } else {
        d0.size as int
    }
    &&& d1.ft == d0.ft && d1.nlink == d0.nlink
    &&& blocks_sound(d1_disk, sb, d1)
    &&& forall|j: int| first <= j < last ==> #[trigger] ptr(d1, j) != 0
    &&& forall|j: int| !(first <= j < last) ==> #[trigger] ptr(d1, j) == ptr(d0, j)
    &&& forall|j: int| ptr(d0, j) != 0 ==> #[trigger] ptr(d1, j) == ptr(d0, j)
    &&& forall|k: int| 0 <= k < n ==> #[trigger] file_byte(d1_disk, bs, d1, off + k) == buf[k]
    &&& forall|p: int|
        0 <= p && !(off <= p < off + n) && ptr(d0, p / bs) != 0 ==> #[trigger] file_byte(d1_disk, bs, d1, p)
            == file_byte(d0_disk, bs, d0, p)
    &&& forall|h: int|
        0 <= h < sb.ndatablocks ==> #[trigger] bitmap_bit(d1_disk, sb, h) == (bitmap_bit(d0_disk, sb, h)
            || newly(d0, d1, first, last, ds + h))
    &&& forall|j: int|
        first <= j < last && ptr(d0, j) == 0 ==> ds <= #[trigger] ptr(d1, j) < ds + sb.ndatablocks
            && !bitmap_bit(d0_disk, sb, ptr(d1, j) - ds)
    &&& free_below(d1_disk, sb, sb.ndatablocks as int) + missing_ptrs(d0, first, last) == free_below(d0_disk, sb, sb.ndatablocks as int)
    &&& forall|b: int|
        0 <= b < sb.nblocks && !(sb.bmapstart <= b < sb.datastart) && b != inode_block_of(sb, inum)
            && !pointed(d1, first, last, b) ==> #[trigger] d1_disk[b] == d0_disk[b]
    &&& forall|j: int|
        0 <= j && inode_in_range(sb, j) && j != inum && inodes_per_block(sb) > 0 ==> #[trigger] disk_inode(
            d1_disk,
            sb,
            j,
        ) == disk_inode(d0_disk, sb, j)
    &&& inode_in_range(sb, inum) && inodes_per_block(sb) > 0 ==> disk_inode(d1_disk, sb, inum) == if d0.size
        < off + n {
        Some(d1)
    } else {
        disk_inode(d0_disk, sb, inum)
    }
}

/// The state a successful write of `buf[0 .. n]` at `off` into inode `inum`
/// leaves, for any inode whose pointers the write meets can be written
/// through (see [`write_meets_ok`]): `d1` and `d1_disk` against the disk inode
/// `d0` and the disk `d0_disk` before it. The size grows to cover the bytes
/// written; the pieces' blocks are present (zero pointers got newly allocated
/// blocks) and still sound; the bytes read back as written; the bytes out of
/// the write's reach, the blocks it does not meet and the inodes in them are
/// unchanged; and the inode is written back when its size grew.
pub open spec fn write_met_done(
    d0_disk: Seq<Seq<u8>>,
    d0: DInodeView,
    d1_disk: Seq<Seq<u8>>,
    d1: DInodeView,
    sb: SuperBlock,
    inum: int,
    off: int,
    n: int,
    buf: Seq<u8>,
) -> bool {
    let bs = sb.block_size as int;
    let first = off / bs;
    let last = first + write_range_count(n, off % bs, bs);
    let ds = sb.datastart as int;
    let grows = d0.size < off + n;
    &&& disk_shape(d1_disk, sb)
    &&& d1.size == if grows {
        off + n
    } else {
        d0.size as int
    }
    &&& d1.ft == d0.ft && d1.nlink == d0.nlink
    &&& met_sound(d1_disk, sb, d1, first, last)
    &&& forall|j: int| first <= j < last ==> #[trigger] ptr(d1, j) != 0
    &&& forall|j: int| !(first <= j < last) ==> #[trigger] ptr(d1, j) == ptr(d0, j)
    &&& forall|j: int| ptr(d0, j) != 0 ==> #[trigger] ptr(d1, j) == ptr(d0, j)
    &&& forall|k: int| 0 <= k < n ==> #[trigger] file_byte(d1_disk, bs, d1, off + k) == buf[k]
    &&& forall|p: int|
        0 <= p && !(off <= p < off + n) && ptr(d0, p / bs) != 0 && out_of_reach(d0_disk, d0, sb, first, last, p)
            && (grows ==> ptr(d0, p / bs) != inode_block_of(sb, inum)) ==> #[trigger] file_byte(d1_disk, bs, d1, p)
            == file_byte(d0_disk, bs, d0, p)
    &&& forall|h: int|
        0 <= h < sb.ndatablocks ==> #[trigger] bitmap_bit(d1_disk, sb, h) == (bitmap_bit(d0_disk, sb, h)
            || newly(d0, d1, first, last, ds + h))
    &&& forall|j: int|
        first <= j < last && ptr(d0, j) == 0 ==> ds <= #[trigger] ptr(d1, j) < ds + sb.ndatablocks
            && !bitmap_bit(d0_disk, sb, ptr(d1, j) - ds)
    &&& free_below(d1_disk, sb, sb.ndatablocks as int) + missing_ptrs(d0, first, last) == free_below(d0_disk, sb, sb.ndatablocks as int)
    &&& forall|b: int|
        0 <= b < sb.nblocks && !(sb.bmapstart <= b < sb.datastart) && b != inode_block_of(sb, inum)
            && !pointed(d1, first, last, b) ==> #[trigger] d1_disk[b] == d0_disk[b]
    &&& forall|j: int|
        0 <= j && inode_in_range(sb, j) && j != inum && inodes_per_block(sb) > 0
            && !pointed(d1, first, last, inode_block_of(sb, j)) ==> #[trigger] disk_inode(d1_disk, sb, j)
            == disk_inode(d0_disk, sb, j)
    &&& inode_in_range(sb, inum) && inodes_per_block(sb) > 0 && grows ==> disk_inode(d1_disk, sb, inum) == Some(d1)
    &&& inode_in_range(sb, inum) && inodes_per_block(sb) > 0 && !grows && !pointed(d1, first, last, inode_block_of(sb, inum))
        ==> disk_inode(d1_disk, sb, inum) == disk_inode(d0_disk, sb, inum)
}

/// Bits of the bitmap only depend on the blocks of the bitmap region.
pub proof fn lemma_bits_frame(disk: Seq<Seq<u8>>, disk2: Seq<Seq<u8>>, sb: SuperBlock)
    requires
        sb_valid_spec(sb),
        disk.len() == disk2.len(),
        forall|b: int| sb.bmapstart <= b < sb.datastart ==> #[trigger] disk2[b] == disk[b],
    ensures
        forall|h: int| 0 <= h < sb.ndatablocks ==> #[trigger] bitmap_bit(disk2, sb, h) == bitmap_bit(disk, sb, h),
{
    assert forall|h: int| 0 <= h < sb.ndatablocks implies #[trigger] bitmap_bit(disk2, sb, h) == bitmap_bit(disk, sb, h) by {
        lemma_bitmap_block_in_region(sb, h);
    }
}

/// Setting the bit of data block `g` sets it and leaves every other bit and
/// every other block as it was.
pub proof fn lemma_bit_set(disk: Seq<Seq<u8>>, sb: SuperBlock, g: int)
    requires
        sb_valid_spec(sb),
        disk_shape(disk, sb),
        0 <= g < sb.ndatablocks,
    ensures
        disk_shape(disk_with_bit(disk, sb, g, true), sb),
        sb.bmapstart <= bmap_block_of(sb, g) < sb.datastart,
        forall|b: int| 0 <= b < disk.len() && b != bmap_block_of(sb, g) ==> #[trigger] disk_with_bit(disk, sb, g, true)[b] == disk[b],
        forall|h: int|
            0 <= h < sb.ndatablocks ==> #[trigger] bitmap_bit(disk_with_bit(disk, sb, g, true), sb, h) == (h == g
                || bitmap_bit(disk, sb, h)),
{
    let dw = disk_with_bit(disk, sb, g, true);
    let bg = bmap_block_of(sb, g);
    let bpb = bits_per_block(sb);
    lemma_bitmap_block_in_region(sb, g);
    assert forall|h: int| 0 <= h < sb.ndatablocks implies #[trigger] bitmap_bit(dw, sb, h) == (h == g || bitmap_bit(disk, sb, h)) by {
        lemma_bitmap_block_in_region(sb, h);
        if bmap_block_of(sb, h) == bg {
            crate::bitmap::lemma_block_with_bit(disk[bg], g % bpb, true, h % bpb);
            if h % bpb == g % bpb {
                vstd::arithmetic::div_mod::lemma_fundamental_div_mod(h, bpb);
                vstd::arithmetic::div_mod::lemma_fundamental_div_mod(g, bpb);
            }
        }
    }
    assert forall|b: int| 0 <= b < dw.len() implies #[trigger] dw[b].len() == sb.block_size by {
        if b == bg {
            crate::bitmap::lemma_block_with_bit(disk[bg], g % bpb, true, g % bpb);
        }
    }
}

/// Free counts agree when the bits agree.
pub proof fn lemma_free_same(disk: Seq<Seq<u8>>, disk2: Seq<Seq<u8>>, sb: SuperBlock, k: int)
    requires
        forall|h: int| 0 <= h < k ==> #[trigger] bitmap_bit(disk2, sb, h) == bitmap_bit(disk, sb, h),
    ensures
        free_below(disk2, sb, k) == free_below(disk, sb, k),
    decreases k,
{
    if k > 0 {
        lemma_free_same(disk, disk2, sb, k - 1);
    }
}

/// Setting one free bit lowers the free count by one.
pub proof fn lemma_free_set(disk: Seq<Seq<u8>>, disk2: Seq<Seq<u8>>, sb: SuperBlock, g: int, k: int)
    requires
        0 <= g < k,
        !bitmap_bit(disk, sb, g),
        bitmap_bit(disk2, sb, g),
        forall|h: int| 0 <= h < k && h != g ==> #[trigger] bitmap_bit(disk2, sb, h) == bitmap_bit(disk, sb, h),
    ensures
        free_below(disk2, sb, k) + 1 == free_below(disk, sb, k),
    decreases k,
{
    if k - 1 == g {
        lemma_free_same(disk, disk2, sb, g);
    } else {
        lemma_free_set(disk, disk2, sb, g, k - 1);
    }
}

/// With every bit set, the free count is zero.
pub proof fn lemma_free_none(disk: Seq<Seq<u8>>, sb: SuperBlock, k: int)
    requires
        forall|h: int| 0 <= h < k ==> #[trigger] bitmap_bit(disk, sb, h),
    ensures
        free_below(disk, sb, k) == 0,
    decreases k,
{
    if k > 0 {
        lemma_free_none(disk, sb, k - 1);
    }
}

/// Missing pointers add up over adjacent ranges.
pub proof fn lemma_missing_split(d: DInodeView, a: int, b: int, c: int)
    requires
        a <= b <= c,
    ensures
        missing_ptrs(d, a, c) == missing_ptrs(d, a, b) + missing_ptrs(d, b, c),
    decreases c - b,
{
    if b < c {
        lemma_missing_split(d, a, b, c - 1);
    }
}

/// The pieces of a write, in order: each starts where the previous ended,
/// fits in its block, and the last ends at `n`.
pub proof fn lemma_wr_facts(n: int, io: int, bs: int, j: int)
    requires
        n > 0,
        0 <= io < bs,
        0 <= j < write_range_count(n, io, bs),
    ensures
        0 <= wr_start(j, io, bs) == written_end(j, n, io, bs) <= wr_end(j, n, io, bs) <= n,
        wr_end(j, n, io, bs) - wr_start(j, io, bs) <= bs - wr_off(j, io),
        written_end(j + 1, n, io, bs) == wr_end(j, n, io, bs),
        write_range_count(n, io, bs) >= 1,
        written_end(write_range_count(n, io, bs), n, io, bs) == n,
{
    let init_n = bs - io;
    let nr = write_range_count(n, io, bs);
    assert(j * bs - (j - 1) * bs == bs) by (nonlinear_arith);
    if j >= 1 {
        assert((j - 1) * bs >= 0) by (nonlinear_arith)
            requires
                j >= 1,
                bs > 0,
        ;
        if n > init_n {
            lemma_mul_lt_ceil(j - 1, n - init_n, bs);
        }
    }
    if n > init_n {
        lemma_mul_lt_ceil(nr - 1, n - init_n, bs);
        lemma_mul_lt_ceil(nr - 2, n - init_n, bs);
        assert((nr - 1) * bs == (nr - 2) * bs + bs) by (nonlinear_arith);
        assert(ceil_div(n - init_n, bs) >= 1) by {
            lemma_mul_lt_ceil(0, n - init_n, bs);
        }
    }
}

/// Byte `k` of the buffer, inside piece `j`, lands in block `first + j` at
/// offset `wr_off(j) + k - wr_start(j)`.
pub proof fn lemma_wpos(first: int, io: int, bs: int, j: int, k: int)
    requires
        0 <= io < bs,
        0 <= j,
        wr_start(j, io, bs) <= k < wr_start(j, io, bs) + bs - wr_off(j, io),
    ensures
        (first * bs + io + k) / bs == first + j,
        (first * bs + io + k) % bs == wr_off(j, io) + k - wr_start(j, io, bs),
{
    let x = wr_off(j, io) + k - wr_start(j, io, bs);
    assert(first * bs + io + k == (first + j) * bs + x) by (nonlinear_arith)
        requires
            j == 0 ==> x == io + k,
            j != 0 ==> x == k - (bs - io + (j - 1) * bs),
    ;
    vstd::arithmetic::div_mod::lemma_fundamental_div_mod_converse(first * bs + io + k, bs, first + j, x);
}

/// A position `p` of block `first + j` lies `wr_start(j) + p % bs - wr_off(j)`
/// bytes after the start `first * bs + io` of the write.
pub proof fn lemma_wpos_back(first: int, io: int, bs: int, j: int, p: int)
    requires
        0 <= io < bs,
        0 <= j,
        p / bs == first + j,
    ensures
        p == first * bs + io + wr_start(j, io, bs) + p % bs - wr_off(j, io),
{
    vstd::arithmetic::div_mod::lemma_fundamental_div_mod(p, bs);
    assert(p == (first + j) * bs + p % bs) by (nonlinear_arith)
        requires
            p == bs * (p / bs) + p % bs,
            p / bs == first + j,
    ;
    assert((first + j) * bs == first * bs + io + wr_start(j, io, bs) - wr_off(j, io)) by (nonlinear_arith)
        requires
            j == 0 ==> wr_start(j, io, bs) == 0 && wr_off(j, io) == io,
            j != 0 ==> wr_start(j, io, bs) == bs - io + (j - 1) * bs && wr_off(j, io) == 0,
    ;
}

/// The bytes written by the first `j` pieces lie in blocks `first .. first + j`.
pub proof fn lemma_wblock(first: int, io: int, bs: int, j: int, n: int, k: int)
    requires
        0 <= io < bs,
        1 <= j,
        0 <= first,
        0 <= k < written_end(j, n, io, bs),
    ensures
        first <= (first * bs + io + k) / bs < first + j,
{
    assert(io + k < j * bs) by (nonlinear_arith)
        requires
            k < bs - io + (j - 1) * bs,
    ;
    crate::e_inode_rw_support::lemma_pos_block(first, io, bs, k);
    vstd::arithmetic::div_mod::lemma_div_is_ordered(0, io + k, bs);
    vstd::arithmetic::div_mod::lemma_fundamental_div_mod(io + k, bs);
    assert((io + k) / bs < j) by (nonlinear_arith)
        requires
            io + k < j * bs,
            io + k == bs * ((io + k) / bs) + (io + k) % bs,
            0 <= (io + k) % bs,
            bs > 0,
    ;
}


/// How one piece of a write changes the disk and the pointers: the pointer
/// `j0` becomes `q` (a block already there, or a free one when `fresh`), the
/// bit of `q` gets set, and no block but `q` and the bitmap changes.
pub open spec fn step_facts(
    disk: Seq<Seq<u8>>,
    d: DInodeView,
    disk2: Seq<Seq<u8>>,
    d2: DInodeView,
    sb: SuperBlock,
    j0: int,
    q: int,
    fresh: bool,
) -> bool {
    let ds = sb.datastart as int;
    &&& disk_shape(disk, sb)
    &&& disk_shape(disk2, sb)
    &&& 0 < q < sb.nblocks
    &&& !(sb.bmapstart <= q < sb.datastart)
    &&& ptr(d2, j0) == q
    &&& fresh == (ptr(d, j0) == 0)
    &&& fresh ==> ds <= q < ds + sb.ndatablocks && !bitmap_bit(disk, sb, q - ds)
    &&& !fresh ==> ptr(d, j0) == q
    &&& d2.blocks.len() == 12
    &&& forall|j: int| j != j0 ==> #[trigger] ptr(d2, j) == ptr(d, j)
    &&& forall|h: int|
        0 <= h < sb.ndatablocks ==> #[trigger] bitmap_bit(disk2, sb, h) == ((fresh && h == q - ds)
            || bitmap_bit(disk, sb, h))
    &&& forall|b: int|
        0 <= b < sb.nblocks && b != q && !(sb.bmapstart <= b < sb.datastart) ==> #[trigger] disk2[b]
            == disk[b]
}

/// The facts of one piece of a write, from how it is made.
proof fn lemma_step_facts(
    disk: Seq<Seq<u8>>,
    d: DInodeView,
    disk2: Seq<Seq<u8>>,
    d2: DInodeView,
    sb: SuperBlock,
    j0: int,
    q: int,
    o: int,
    slice: Seq<u8>,
)
    requires
        sb_valid_spec(sb),
        disk_shape(disk, sb),
        ptr(d, j0) != 0 ==> meetable(disk, sb, ptr(d, j0) as int),
        d.blocks.len() == 12,
        0 <= j0 < 12,
        q == ptr(d2, j0),
        0 <= o,
        o + slice.len() <= sb.block_size,
        (ptr(d, j0) != 0 && d2 == d && disk2 == disk.update(q, update_bytes(disk[q], o, slice))) || ({
            let z = disk_with_zero_block(disk_with_bit(disk, sb, q - sb.datastart, true), sb, q);
            &&& ptr(d, j0) == 0
            &&& d2.blocks == d.blocks.update(j0, q as u64)
            &&& sb.datastart <= q < sb.datastart + sb.ndatablocks
            &&& !bitmap_bit(disk, sb, q - sb.datastart)
            &&& disk2 == z.update(q, update_bytes(z[q], o, slice))
        }),
    ensures
        step_facts(disk, d, disk2, d2, sb, j0, q, ptr(d, j0) == 0),
        disk2[q] == update_bytes(
            if ptr(d, j0) == 0 {
                zeros(sb.block_size as nat)
            } else {
                disk[q]
            },
            o,
            slice,
        ),
{
    let ds = sb.datastart as int;
    let fresh = ptr(d, j0) == 0;
    let g = q - ds;
    let w = if fresh {
        disk_with_bit(disk, sb, g, true)
    } else {
        disk
    };
    if fresh {
        lemma_bit_set(disk, sb, g);
    }
    assert(disk_shape(w, sb));
    assert(0 < q < sb.nblocks);
    assert(forall|b: int| 0 <= b < disk2.len() && b != q ==> #[trigger] disk2[b] == w[b]);
    assert(disk_shape(disk2, sb));
    lemma_bits_frame(w, disk2, sb);
    assert forall|j: int| j != j0 implies #[trigger] ptr(d2, j) == ptr(d, j) by {
        if fresh && 0 <= j < 12 {
            assert(d2.blocks[j] == d.blocks[j]);
        }
    }
    assert forall|b: int| 0 <= b < sb.nblocks && b != q && !(sb.bmapstart <= b < sb.datastart) implies #[trigger] disk2[b] == disk[b] by {
        if fresh {
            lemma_bitmap_block_in_region(sb, g);
        }
    }
}

/// After a piece of a write, the pointers it meets stay sound, and every block
/// that could be written through still can.
proof fn lemma_step_sound(
    disk: Seq<Seq<u8>>,
    d: DInodeView,
    disk2: Seq<Seq<u8>>,
    d2: DInodeView,
    sb: SuperBlock,
    j0: int,
    q: int,
    fresh: bool,
    from: int,
    to: int,
)
    requires
        met_sound(disk, sb, d, from, to),
        from <= j0 < to,
        step_facts(disk, d, disk2, d2, sb, j0, q, fresh),
    ensures
        met_sound(disk2, sb, d2, from, to),
        forall|j: int| from <= j < to && j != j0 && #[trigger] ptr(d, j) != 0 ==> ptr(d, j) != q,
        forall|b: int| meetable(disk, sb, b) ==> #[trigger] meetable(disk2, sb, b),
{
    let ds = sb.datastart as int;
    let nd = sb.ndatablocks as int;
    assert forall|b: int| meetable(disk, sb, b) implies #[trigger] meetable(disk2, sb, b) by {
        if ds <= b < ds + nd {
            assert(bitmap_bit(disk, sb, b - ds));
        }
    }
    assert forall|j: int| from <= j < to && j != j0 && #[trigger] ptr(d, j) != 0 implies ptr(d, j) != q by {
        if fresh && ptr(d, j) == q {
            assert(meetable(disk, sb, q));
            assert(bitmap_bit(disk, sb, q - ds));
        }
        if !fresh && ptr(d, j) == q {
            assert(ptr(d, j0) != ptr(d, j));
        }
    }
    assert forall|j: int| from <= j < to && #[trigger] ptr(d2, j) != 0 implies meetable(disk2, sb, ptr(d2, j) as int) by {
        if j != j0 {
            assert(meetable(disk, sb, ptr(d, j) as int));
        } else if !fresh {
            assert(meetable(disk, sb, ptr(d, j0) as int));
        } else {
            assert(bitmap_bit(disk2, sb, q - ds));
        }
    }
    assert forall|j1: int, j2: int| from <= j1 < to && from <= j2 < to && j1 != j2 && ptr(d2, j1) != 0 implies #[trigger] ptr(d2, j1) != #[trigger] ptr(d2, j2) by {
        if j1 != j0 && j2 != j0 {
            assert(ptr(d, j1) != ptr(d, j2));
        } else if j1 == j0 {
            if ptr(d, j2) != 0 {
                assert(ptr(d, j2) != q);
            }
        } else {
            assert(ptr(d, j1) != q);
        }
    }
}

/// After piece `ri` of a write, the bytes of the pieces so far read as the
/// buffer.
proof fn lemma_step_written(
    disk: Seq<Seq<u8>>,
    d: DInodeView,
    disk2: Seq<Seq<u8>>,
    d2: DInodeView,
    sb: SuperBlock,
    off: int,
    n: int,
    buf: Seq<u8>,
    ri: int,
    q: int,
    fresh: bool,
)
    requires
        sb.block_size > 0,
        0 <= off,
        n > 0,
        buf.len() >= n,
        0 <= ri < write_range_count(n, off % (sb.block_size as int), sb.block_size as int),
        step_facts(disk, d, disk2, d2, sb, off / (sb.block_size as int) + ri, q, fresh),
        forall|j: int|
            off / (sb.block_size as int) <= j < off / (sb.block_size as int) + write_range_count(n, off % (sb.block_size as int), sb.block_size as int)
            && j != off / (sb.block_size as int) + ri && #[trigger] ptr(d, j) != 0 ==> ptr(d, j) != q,
        sb_valid_spec(sb),
        met_sound(disk, sb, d, off / (sb.block_size as int), off / (sb.block_size as int) + write_range_count(n, off % (sb.block_size as int), sb.block_size as int)),
        forall|j: int|
            off / (sb.block_size as int) <= j < off / (sb.block_size as int) + ri ==> #[trigger] ptr(d, j) != 0,
        forall|k: int|
            0 <= k < written_end(ri, n, off % (sb.block_size as int), sb.block_size as int) ==> #[trigger] file_byte(
                disk,
                sb.block_size as int,
                d,
                off + k,
            ) == buf[k],
        ({
            let bs = sb.block_size as int;
            let io = off % bs;
            disk2[q] == update_bytes(
                if fresh {
                    zeros(sb.block_size as nat)
                } else {
                    disk[q]
                },
                wr_off(ri, io),
                buf.subrange(wr_start(ri, io, bs), wr_end(ri, n, io, bs)),
            )
        }),
    ensures
        forall|k: int|
            0 <= k < written_end(ri + 1, n, off % (sb.block_size as int), sb.block_size as int) ==> #[trigger] file_byte(
                disk2,
                sb.block_size as int,
                d2,
                off + k,
            ) == buf[k],
{
    let bs = sb.block_size as int;
    let io = off % bs;
    let first = off / bs;
    let j0 = first + ri;
    let o = wr_off(ri, io);
    let s = wr_start(ri, io, bs);
    let e = wr_end(ri, n, io, bs);
    vstd::arithmetic::div_mod::lemma_fundamental_div_mod(off, bs);
    assert(off == first * bs + io) by (nonlinear_arith)
        requires
            off == bs * (off / bs) + off % bs,
            first == off / bs,
            io == off % bs,
    ;
    vstd::arithmetic::div_mod::lemma_div_pos_is_pos(off, bs);
    vstd::arithmetic::div_mod::lemma_mod_bound(off, bs);
    lemma_wr_facts(n, io, bs, ri);
    assert forall|k: int| 0 <= k < written_end(ri + 1, n, io, bs) implies #[trigger] file_byte(disk2, bs, d2, off + k) == buf[k] by {
        if k < s {
            lemma_wblock(first, io, bs, ri, n, k);
            let jj = (off + k) / bs;
            let b = ptr(d, jj) as int;
            assert(b != 0);
            assert(b != q);
            assert(meetable(disk, sb, b));
            assert(disk2[b] == disk[b]);
            assert(file_byte(disk, bs, d, off + k) == buf[k]);
            assert(ptr(d2, jj) == b);
        } else {
            lemma_wpos(first, io, bs, ri, k);
            let x = o + k - s;
            assert((off + k) / bs == j0);
            assert((off + k) % bs == x);
            let base = if fresh {
                zeros(sb.block_size as nat)
            } else {
                disk[q]
            };
            assert(base.len() == bs);
            assert(update_bytes(base, o, buf.subrange(s, e))[x] == buf.subrange(s, e)[x - o]);
        }
    }
}

/// After piece `ri` of a write, the bytes outside the write whose blocks lie
/// out of its reach read as before.
proof fn lemma_step_kept(
    disk: Seq<Seq<u8>>,
    d: DInodeView,
    disk2: Seq<Seq<u8>>,
    d2: DInodeView,
    d0_disk: Seq<Seq<u8>>,
    d0: DInodeView,
    sb: SuperBlock,
    off: int,
    n: int,
    buf: Seq<u8>,
    ri: int,
    q: int,
    fresh: bool,
)
    requires
        sb.block_size > 0,
        0 <= off,
        n > 0,
        buf.len() >= n,
        0 <= ri < write_range_count(n, off % (sb.block_size as int), sb.block_size as int),
        step_facts(disk, d, disk2, d2, sb, off / (sb.block_size as int) + ri, q, fresh),
        forall|j: int|
            off / (sb.block_size as int) <= j < off / (sb.block_size as int) + write_range_count(n, off % (sb.block_size as int), sb.block_size as int)
            && j != off / (sb.block_size as int) + ri && #[trigger] ptr(d, j) != 0 ==> ptr(d, j) != q,
        sb_valid_spec(sb),
        met_sound(disk, sb, d, off / (sb.block_size as int), off / (sb.block_size as int) + write_range_count(n, off % (sb.block_size as int), sb.block_size as int)),
        forall|j: int| ptr(d0, j) != 0 ==> #[trigger] ptr(d, j) == ptr(d0, j),
        ptr(d, off / (sb.block_size as int) + ri) == ptr(d0, off / (sb.block_size as int) + ri),
        forall|h: int| 0 <= h < sb.ndatablocks && bitmap_bit(d0_disk, sb, h) ==> #[trigger] bitmap_bit(disk, sb, h),
        forall|p: int|
            0 <= p && !(off <= p < off + n) && ptr(d0, p / (sb.block_size as int)) != 0 && out_of_reach(
                d0_disk,
                d0,
                sb,
                off / (sb.block_size as int),
                off / (sb.block_size as int) + write_range_count(n, off % (sb.block_size as int), sb.block_size as int),
                p,
            ) ==> #[trigger] file_byte(disk, sb.block_size as int, d, p) == file_byte(d0_disk, sb.block_size as int, d0, p),
        ({
            let bs = sb.block_size as int;
            let io = off % bs;
            disk2[q] == update_bytes(
                if fresh {
                    zeros(sb.block_size as nat)
                } else {
                    disk[q]
                },
                wr_off(ri, io),
                buf.subrange(wr_start(ri, io, bs), wr_end(ri, n, io, bs)),
            )
        }),
    ensures
        forall|p: int|
            0 <= p && !(off <= p < off + n) && ptr(d0, p / (sb.block_size as int)) != 0 && out_of_reach(
                d0_disk,
                d0,
                sb,
                off / (sb.block_size as int),
                off / (sb.block_size as int) + write_range_count(n, off % (sb.block_size as int), sb.block_size as int),
                p,
            ) ==> #[trigger] file_byte(disk2, sb.block_size as int, d2, p) == file_byte(d0_disk, sb.block_size as int, d0, p),
{
    let bs = sb.block_size as int;
    let io = off % bs;
    let first = off / bs;
    let last = first + write_range_count(n, io, bs);
    let j0 = first + ri;
    let ds = sb.datastart as int;
    vstd::arithmetic::div_mod::lemma_fundamental_div_mod(off, bs);
    assert(off == first * bs + io) by (nonlinear_arith)
        requires
            off == bs * (off / bs) + off % bs,
            first == off / bs,
            io == off % bs,
    ;
    vstd::arithmetic::div_mod::lemma_mod_bound(off, bs);
    lemma_wr_facts(n, io, bs, ri);
    assert forall|p: int| 0 <= p && !(off <= p < off + n) && ptr(d0, p / bs) != 0 && out_of_reach(d0_disk, d0, sb, first, last, p)
        implies #[trigger] file_byte(disk2, bs, d2, p) == file_byte(d0_disk, bs, d0, p) by {
        let jj = p / bs;
        vstd::arithmetic::div_mod::lemma_div_pos_is_pos(p, bs);
        vstd::arithmetic::div_mod::lemma_mod_bound(p, bs);
        assert(ptr(d, jj) == ptr(d0, jj));
        assert(file_byte(disk, bs, d, p) == file_byte(d0_disk, bs, d0, p));
        if jj == j0 {
            lemma_wpos_back(first, io, bs, ri, p);
            let o = wr_off(ri, io);
            let s = wr_start(ri, io, bs);
            let e = wr_end(ri, n, io, bs);
            assert(!fresh);
            assert(ptr(d2, j0) == q);
            assert(!(o <= p % bs < o + (e - s)));
            assert(update_bytes(disk[q], o, buf.subrange(s, e))[p % bs] == disk[q][p % bs]);
        } else {
            let b = ptr(d, jj) as int;
            if first <= jj < last {
                assert(b != q);
                assert(meetable(disk, sb, b));
            } else {
                assert(meetable(d0_disk, sb, b) && !pointed(d0, first, last, b));
                if !fresh {
                    assert(ptr(d0, j0) == q);
                    assert(b != q);
                } else if ds <= b < ds + sb.ndatablocks {
                    assert(bitmap_bit(d0_disk, sb, b - ds));
                    assert(bitmap_bit(disk, sb, b - ds));
                }
            }
            assert(disk2[b] == disk[b]);
            assert(ptr(d2, jj) == ptr(d, jj));
        }
    }
}

/// After piece `ri` of a write, the bitmap holds the bits set before the
/// write and those of the newly allocated blocks, and the free count drops
/// by the pointers filled.
proof fn lemma_step_bits(
    disk: Seq<Seq<u8>>,
    d: DInodeView,
    disk2: Seq<Seq<u8>>,
    d2: DInodeView,
    d0_disk: Seq<Seq<u8>>,
    d0: DInodeView,
    sb: SuperBlock,
    first: int,
    ri: int,
    q: int,
    fresh: bool,
)
    requires
        ri >= 0,
        step_facts(disk, d, disk2, d2, sb, first + ri, q, fresh),
        ptr(d, first + ri) == ptr(d0, first + ri),
        free_below(disk, sb, sb.ndatablocks as int) + missing_ptrs(d0, first, first + ri) == free_below(
            d0_disk,
            sb,
            sb.ndatablocks as int,
        ),
        forall|h: int|
            0 <= h < sb.ndatablocks ==> #[trigger] bitmap_bit(disk, sb, h) == (bitmap_bit(d0_disk, sb, h)
                || newly(d0, d, first, first + ri, sb.datastart + h)),
        forall|b: int|
            0 <= b < sb.nblocks && !(sb.bmapstart <= b < sb.datastart) && !pointed(d, first, first + ri, b)
                ==> #[trigger] disk[b] == d0_disk[b],
    ensures
        free_below(disk2, sb, sb.ndatablocks as int) + missing_ptrs(d0, first, first + ri + 1) == free_below(
            d0_disk,
            sb,
            sb.ndatablocks as int,
        ),
        forall|h: int|
            0 <= h < sb.ndatablocks ==> #[trigger] bitmap_bit(disk2, sb, h) == (bitmap_bit(d0_disk, sb, h)
                || newly(d0, d2, first, first + ri + 1, sb.datastart + h)),
        forall|b: int|
            0 <= b < sb.nblocks && !(sb.bmapstart <= b < sb.datastart) && !pointed(d2, first, first + ri + 1, b)
                ==> #[trigger] disk2[b] == d0_disk[b],
{
    let ds = sb.datastart as int;
    let nd = sb.ndatablocks as int;
    let j0 = first + ri;
    let g = q - ds;
    if fresh {
        lemma_free_set(disk, disk2, sb, g, nd);
    } else {
        lemma_free_same(disk, disk2, sb, nd);
    }
    assert forall|x: int| #[trigger] newly(d0, d2, first, j0 + 1, x) == (newly(d0, d, first, j0, x) || (fresh && x == q)) by {
        if newly(d0, d2, first, j0 + 1, x) {
            let jw = choose|jw: int| first <= jw < j0 + 1 && ptr(d0, jw) == 0 && #[trigger] ptr(d2, jw) == x;
            if jw != j0 {
                assert(ptr(d, jw) == x);
            }
        }
        if newly(d0, d, first, j0, x) {
            let jw = choose|jw: int| first <= jw < j0 && ptr(d0, jw) == 0 && #[trigger] ptr(d, jw) == x;
            assert(ptr(d2, jw) == x);
        }
        if fresh && x == q {
            assert(ptr(d2, j0) == x);
        }
    }
    assert forall|h: int| 0 <= h < nd implies #[trigger] bitmap_bit(disk2, sb, h) == (bitmap_bit(d0_disk, sb, h) || newly(d0, d2, first, j0 + 1, ds + h)) by {
        assert(newly(d0, d2, first, j0 + 1, ds + h) == (newly(d0, d, first, j0, ds + h) || (fresh && ds + h == q)));
    }
    assert forall|b: int| 0 <= b < sb.nblocks && !(sb.bmapstart <= b < sb.datastart) && !pointed(d2, first, j0 + 1, b) implies #[trigger] disk2[b] == d0_disk[b] by {
        assert(ptr(d2, j0) == q);
        if pointed(d, first, j0, b) {
            let jw = choose|jw: int| first <= jw < j0 && #[trigger] ptr(d, jw) == b;
            assert(ptr(d2, jw) == b);
        }
    }
}

/// The piece `ri` of a write, made: its block `q` is the block the inode
/// already has there (`d2 == d`), or a free data block newly allocated for it
/// (its bit set, zeroed, the pointer set); then bytes `wr_start .. wr_end` of
/// the buffer are written at `wr_off` in it. The write state then covers one
/// more piece.
pub proof fn lemma_write_step(
    disk: Seq<Seq<u8>>,
    d: DInodeView,
    disk2: Seq<Seq<u8>>,
    d2: DInodeView,
    d0_disk: Seq<Seq<u8>>,
    d0: DInodeView,
    sb: SuperBlock,
    off: int,
    n: int,
    buf: Seq<u8>,
    ri: int,
    q: int,
)
    requires
        sb_valid_spec(sb),
        sb.nblocks * (8 * sb.block_size) <= u64::MAX,
        0 <= off,
        n > 0,
        buf.len() >= n,
        0 <= ri < write_range_count(n, off % (sb.block_size as int), sb.block_size as int),
        off / (sb.block_size as int) + ri < 12,
        write_state(disk, d, d0_disk, d0, sb, off, n, buf, ri),
        q == ptr(d2, off / (sb.block_size as int) + ri),
        d2.size == d.size && d2.ft == d.ft && d2.nlink == d.nlink,
        ({
            let bs = sb.block_size as int;
            let io = off % bs;
            let j0 = off / bs + ri;
            let o = wr_off(ri, io);
            let slice = buf.subrange(wr_start(ri, io, bs), wr_end(ri, n, io, bs));
            let z = disk_with_zero_block(disk_with_bit(disk, sb, q - sb.datastart, true), sb, q);
            ||| (ptr(d, j0) != 0 && d2 == d && disk2 == disk.update(q, update_bytes(disk[q], o, slice)))
            ||| (ptr(d, j0) == 0 && d2.blocks == d.blocks.update(j0, q as u64) && sb.datastart <= q
                < sb.datastart + sb.ndatablocks && !bitmap_bit(disk, sb, q - sb.datastart) && disk2
                == z.update(q, update_bytes(z[q], o, slice)))
        }),
    ensures
        write_state(disk2, d2, d0_disk, d0, sb, off, n, buf, ri + 1),
{
    let bs = sb.block_size as int;
    let io = off % bs;
    let first = off / bs;
    let j0 = first + ri;
    let o = wr_off(ri, io);
    let s = wr_start(ri, io, bs);
    let e = wr_end(ri, n, io, bs);
    let slice = buf.subrange(s, e);
    let fresh = ptr(d, j0) == 0;
    crate::a_block_support::lemma_sb_bounds(sb);
    vstd::arithmetic::div_mod::lemma_div_pos_is_pos(off, bs);
    vstd::arithmetic::div_mod::lemma_mod_bound(off, bs);
    lemma_wr_facts(n, io, bs, ri);
    lemma_step_facts(disk, d, disk2, d2, sb, j0, q, o, slice);
    lemma_step_sound(disk, d, disk2, d2, sb, j0, q, fresh, first, first + write_range_count(n, io, bs));
    lemma_step_written(disk, d, disk2, d2, sb, off, n, buf, ri, q, fresh);
    lemma_step_kept(disk, d, disk2, d2, d0_disk, d0, sb, off, n, buf, ri, q, fresh);
    assert(ptr(d, j0) == ptr(d0, j0));
    lemma_step_bits(disk, d, disk2, d2, d0_disk, d0, sb, first, ri, q, fresh);
    assert(ds_pos(sb));
    assert forall|j: int| first <= j < first + ri + 1 implies #[trigger] ptr(d2, j) != 0 by {
        if j != j0 {
            assert(ptr(d, j) != 0);
        }
    }
    assert forall|j: int| !(first <= j < first + ri + 1) implies #[trigger] ptr(d2, j) == ptr(d0, j) by {
        assert(ptr(d, j) == ptr(d0, j));
    }
    assert forall|j: int| ptr(d0, j) != 0 implies #[trigger] ptr(d2, j) == ptr(d0, j) by {
        assert(ptr(d, j) == ptr(d0, j));
    }
    let ds = sb.datastart as int;
    assert forall|j: int| first <= j < first + ri + 1 && ptr(d0, j) == 0 implies !bitmap_bit(d0_disk, sb, #[trigger] ptr(d2, j) - ds) by {
        if j == j0 {
            assert(fresh);
            assert(!bitmap_bit(disk, sb, q - ds));
            assert(bitmap_bit(disk, sb, q - ds) == (bitmap_bit(d0_disk, sb, q - ds) || newly(d0, d, first, first + ri, q)));
        } else {
            assert(ptr(d2, j) == ptr(d, j));
        }
    }
}

/// The data region starts past block zero.
spec fn ds_pos(sb: SuperBlock) -> bool {
    sb.datastart > 0
}

/// A write that meets the end of the pointer array, or a zero pointer with no
/// free data block left, needs more blocks than the inode can have or the
/// bitmap has free.
pub proof fn lemma_write_fail(
    disk: Seq<Seq<u8>>,
    d: DInodeView,
    d0_disk: Seq<Seq<u8>>,
    d0: DInodeView,
    sb: SuperBlock,
    off: int,
    n: int,
    buf: Seq<u8>,
    ri: int,
)
    requires
        sb.block_size > 0,
        0 <= off,
        0 <= ri < write_range_count(n, off % (sb.block_size as int), sb.block_size as int),
        write_state(disk, d, d0_disk, d0, sb, off, n, buf, ri),
        off / (sb.block_size as int) + ri == 12 || (ptr(d, off / (sb.block_size as int) + ri) == 0
            && forall|h: int| 0 <= h < sb.ndatablocks ==> #[trigger] bitmap_bit(disk, sb, h)),
    ensures
        ({
            let bs = sb.block_size as int;
            let first = off / bs;
            let nr = write_range_count(n, off % bs, bs);
            first + nr > 12 || missing_ptrs(d0, first, first + nr) > free_below(d0_disk, sb, sb.ndatablocks as int)
        }),
{
    let bs = sb.block_size as int;
    let first = off / bs;
    let nr = write_range_count(n, off % bs, bs);
    if first + ri != 12 {
        lemma_free_none(disk, sb, sb.ndatablocks as int);
        assert(ptr(d, first + ri) == ptr(d0, first + ri));
        lemma_missing_split(d0, first, first + ri + 1, first + nr);
    }
}

/// The state a write leaves once all its pieces are written and the inode,
/// when its size grew, is written back.
pub proof fn lemma_write_finish(
    disk: Seq<Seq<u8>>,
    d: DInodeView,
    d1_disk: Seq<Seq<u8>>,
    d1: DInodeView,
    d0_disk: Seq<Seq<u8>>,
    d0: DInodeView,
    sb: SuperBlock,
    inum: int,
    off: int,
    n: int,
    buf: Seq<u8>,
)
    requires
        sb_valid_spec(sb),
        sb.nblocks * (8 * sb.block_size) <= u64::MAX,
        0 <= off,
        0 <= inum,
        n > 0,
        inode_in_range(sb, inum) ==> inodes_per_block(sb) > 0,
        disk_shape(d0_disk, sb),
        write_state(disk, d, d0_disk, d0, sb, off, n, buf, write_range_count(n, off % (sb.block_size as int), sb.block_size as int)),
        d0.size < off + n ==> inode_in_range(sb, inum) && d1.size == off + n && d1.ft == d.ft && d1.nlink
            == d.nlink && d1.blocks == d.blocks && inode_written(disk, d1_disk, sb, inum, d1),
        d0.size < off + n ==> !pointed(
            d0,
            off / (sb.block_size as int),
            off / (sb.block_size as int) + write_range_count(n, off % (sb.block_size as int), sb.block_size as int),
            inode_block_of(sb, inum),
        ),
        d0.size >= off + n ==> d1 == d && d1_disk == disk,
        off + n <= u64::MAX,
    ensures
        write_met_done(d0_disk, d0, d1_disk, d1, sb, inum, off, n, buf),
{
    let bs = sb.block_size as int;
    let io = off % bs;
    let first = off / bs;
    let nr = write_range_count(n, io, bs);
    let last = first + nr;
    crate::a_block_support::lemma_sb_bounds(sb);
    vstd::arithmetic::div_mod::lemma_mod_bound(off, bs);
    vstd::arithmetic::div_mod::lemma_div_pos_is_pos(off, bs);
    vstd::arithmetic::div_mod::lemma_fundamental_div_mod(off, bs);
    assert(off == first * bs + io) by (nonlinear_arith)
        requires
            off == bs * (off / bs) + off % bs,
            first == off / bs,
            io == off % bs,
    ;
    lemma_wr_facts(n, io, bs, 0);
    assert(d1.blocks == d.blocks);
    assert forall|j: int| #[trigger] ptr(d1, j) == ptr(d, j) by {}
    let ds = sb.datastart as int;
    assert(ds > 0);
    assert forall|j: int| first <= j < last implies #[trigger] ptr(d1, j) != 0 by {
        assert(ptr(d, j) != 0);
    }
    assert forall|j: int| !(first <= j < last) implies #[trigger] ptr(d1, j) == ptr(d0, j) by {
        assert(ptr(d, j) == ptr(d0, j));
    }
    assert forall|j: int| ptr(d0, j) != 0 implies #[trigger] ptr(d1, j) == ptr(d0, j) by {
        assert(ptr(d, j) == ptr(d0, j));
    }
    assert forall|j: int| first <= j < last && ptr(d0, j) == 0 implies ds <= #[trigger] ptr(d1, j) < ds + sb.ndatablocks
        && !bitmap_bit(d0_disk, sb, ptr(d1, j) - ds) by {
        assert(ptr(d1, j) == ptr(d, j));
    }
    assert forall|x: int| #[trigger] newly(d0, d1, first, last, x) == newly(d0, d, first, last, x) by {
        if newly(d0, d1, first, last, x) {
            let jw = choose|jw: int| first <= jw < last && ptr(d0, jw) == 0 && #[trigger] ptr(d1, jw) == x;
            assert(ptr(d, jw) == x);
        }
        if newly(d0, d, first, last, x) {
            let jw = choose|jw: int| first <= jw < last && ptr(d0, jw) == 0 && #[trigger] ptr(d, jw) == x;
            assert(ptr(d1, jw) == x);
        }
    }
    assert forall|x: int| #[trigger] pointed(d1, first, last, x) == pointed(d, first, last, x) by {
        if pointed(d1, first, last, x) {
            let jw = choose|jw: int| first <= jw < last && #[trigger] ptr(d1, jw) == x;
            assert(ptr(d, jw) == x);
        }
        if pointed(d, first, last, x) {
            let jw = choose|jw: int| first <= jw < last && #[trigger] ptr(d, jw) == x;
            assert(ptr(d1, jw) == x);
        }
    }
    if d0.size < off + n {
        lemma_inode_location(sb, inum);
        let ib = inode_block_of(sb, inum);
        assert(forall|b: int| 0 <= b < disk.len() && b != ib ==> #[trigger] d1_disk[b] == disk[b]);
        assert(disk_shape(d1_disk, sb));
        lemma_bits_frame(disk, d1_disk, sb);
        lemma_free_same(disk, d1_disk, sb, sb.ndatablocks as int);
        assert(!pointed(d, first, last, ib)) by {
            if pointed(d, first, last, ib) {
                let jw = choose|jw: int| first <= jw < last && #[trigger] ptr(d, jw) == ib;
                if ptr(d0, jw) != 0 {
                    assert(ptr(d0, jw) == ib);
                    assert(pointed(d0, first, last, ib));
                } else {
                    assert(ds <= ptr(d, jw));
                }
            }
        }
        assert forall|k: int| 0 <= k < n implies #[trigger] file_byte(d1_disk, bs, d1, off + k) == buf[k] by {
            assert(file_byte(disk, bs, d, off + k) == buf[k]);
            lemma_wblock(first, io, bs, nr, n, k);
            let jj = (off + k) / bs;
            let b = ptr(d, jj) as int;
            assert(b != ib) by {
                if b == ib {
                    assert(pointed(d, first, last, ib));
                }
            }
        }
        assert forall|p: int|
            0 <= p && !(off <= p < off + n) && ptr(d0, p / bs) != 0 && out_of_reach(d0_disk, d0, sb, first, last, p)
                && ptr(d0, p / bs) != ib implies #[trigger] file_byte(d1_disk, bs, d1, p) == file_byte(d0_disk, bs, d0, p) by {
            assert(file_byte(disk, bs, d, p) == file_byte(d0_disk, bs, d0, p));
            assert(ptr(d, p / bs) == ptr(d0, p / bs));
        }
        assert forall|j: int|
            0 <= j && inode_in_range(sb, j) && j != inum && inodes_per_block(sb) > 0 && !pointed(d1, first, last, inode_block_of(sb, j))
            implies #[trigger] disk_inode(d1_disk, sb, j) == disk_inode(d0_disk, sb, j) by {
            lemma_inode_write_read(disk, d1_disk, sb, inum, d1, j);
            lemma_inode_location(sb, j);
            let jb = inode_block_of(sb, j);
            assert(disk[jb] == d0_disk[jb]);
        }
        lemma_inode_write_read(disk, d1_disk, sb, inum, d1, inum);
        assert forall|b: int| meetable(disk, sb, b) implies #[trigger] meetable(d1_disk, sb, b) by {
            if ds <= b < ds + sb.ndatablocks {
                assert(bitmap_bit(disk, sb, b - ds));
            }
        }
        assert(met_sound(d1_disk, sb, d1, first, last)) by {
            assert forall|j: int| first <= j < last && #[trigger] ptr(d1, j) != 0 implies meetable(d1_disk, sb, ptr(d1, j) as int) by {
                assert(meetable(disk, sb, ptr(d, j) as int));
            }
            assert forall|j1: int, j2: int| first <= j1 < last && first <= j2 < last && j1 != j2 && ptr(d1, j1) != 0
                implies #[trigger] ptr(d1, j1) != #[trigger] ptr(d1, j2) by {
                assert(ptr(d, j1) != ptr(d, j2));
            }
        }
        assert forall|b: int| 0 <= b < sb.nblocks && !(sb.bmapstart <= b < sb.datastart) && b != ib && !pointed(d1, first, last, b) implies #[trigger] d1_disk[b] == d0_disk[b] by {
            assert(disk[b] == d0_disk[b]);
        }
    } else {
        assert forall|j: int| 0 <= j && inode_in_range(sb, j) && inodes_per_block(sb) > 0 && !pointed(d1, first, last, inode_block_of(sb, j))
            implies #[trigger] disk_inode(d1_disk, sb, j) == disk_inode(d0_disk, sb, j) by {
            lemma_inode_location(sb, j);
            let jb = inode_block_of(sb, j);
            assert(disk[jb] == d0_disk[jb]);
        }
        assert(forall|k: int| 0 <= k < n ==> #[trigger] file_byte(d1_disk, bs, d1, off + k) == buf[k]);
    }
}

/// For an inode whose pointers are all sound, the state a write leaves is
/// the one stated over the whole inode: its pointers stay sound, and every
/// other byte, block and inode it does not write keeps its value.
pub proof fn lemma_done_sound(
    d0_disk: Seq<Seq<u8>>,
    d0: DInodeView,
    d1_disk: Seq<Seq<u8>>,
    d1: DInodeView,
    sb: SuperBlock,
    inum: int,
    off: int,
    n: int,
    buf: Seq<u8>,
)
    requires
        sb_valid_spec(sb),
        sb.nblocks * (8 * sb.block_size) <= u64::MAX,
        0 <= off,
        0 <= inum,
        n > 0,
        inode_in_range(sb, inum) ==> inodes_per_block(sb) > 0,
        d0.size < off + n ==> inode_in_range(sb, inum),
        blocks_sound(d0_disk, sb, d0),
        write_met_done(d0_disk, d0, d1_disk, d1, sb, inum, off, n, buf),
    ensures
        write_done(d0_disk, d0, d1_disk, d1, sb, inum, off, n, buf),
{
    let bs = sb.block_size as int;
    let io = off % bs;
    let first = off / bs;
    let last = first + write_range_count(n, io, bs);
    let ds = sb.datastart as int;
    let nd = sb.ndatablocks as int;
    crate::a_block_support::lemma_sb_bounds(sb);
    // every pointer in use now lies past the metadata
    assert forall|j: int| 0 <= j < 12 && #[trigger] ptr(d1, j) != 0 implies ds <= ptr(d1, j) < sb.nblocks
        && (ptr(d1, j) < ds + nd ==> bitmap_bit(d1_disk, sb, ptr(d1, j) - ds)) by {
        if ptr(d0, j) != 0 {
            assert(ptr(d1, j) == ptr(d0, j));
            if ptr(d0, j) < ds + nd {
                assert(bitmap_bit(d0_disk, sb, ptr(d0, j) - ds));
            }
        } else {
            assert(first <= j < last);
            assert(newly(d0, d1, first, last, ptr(d1, j) as int));
        }
    }
    assert forall|j1: int, j2: int| 0 <= j1 < 12 && 0 <= j2 < 12 && j1 != j2 && ptr(d1, j1) != 0
        implies #[trigger] ptr(d1, j1) != #[trigger] ptr(d1, j2) by {
        if ptr(d1, j2) != 0 {
            if ptr(d0, j1) != 0 && ptr(d0, j2) != 0 {
                assert(ptr(d0, j1) != ptr(d0, j2));
            } else if ptr(d0, j1) == 0 && ptr(d0, j2) == 0 {
                assert(first <= j1 < last && first <= j2 < last);
            } else if ptr(d0, j1) == 0 {
                if ptr(d0, j2) < ds + nd {
                    assert(bitmap_bit(d0_disk, sb, ptr(d0, j2) - ds));
                }
            } else {
                if ptr(d0, j1) < ds + nd {
                    assert(bitmap_bit(d0_disk, sb, ptr(d0, j1) - ds));
                }
            }
        }
    }
    assert(blocks_sound(d1_disk, sb, d1));
    // the write meets no block below the data region
    assert forall|b: int| b < ds implies !#[trigger] pointed(d1, first, last, b) by {
        if pointed(d1, first, last, b) {
            let jw = choose|jw: int| first <= jw < last && #[trigger] ptr(d1, jw) == b;
            assert(ptr(d1, jw) != 0);
        }
    }
    assert forall|p: int| 0 <= p && !(off <= p < off + n) && ptr(d0, p / bs) != 0
        implies #[trigger] file_byte(d1_disk, bs, d1, p) == file_byte(d0_disk, bs, d0, p) by {
        let jj = p / bs;
        let b = ptr(d0, jj) as int;
        assert(0 <= jj < 12);
        assert(ds <= b);
        if !(first <= jj < last) {
            assert(!pointed(d0, first, last, b)) by {
                if pointed(d0, first, last, b) {
                    let jw = choose|jw: int| first <= jw < last && #[trigger] ptr(d0, jw) == b;
                    assert(jw != jj);
                }
            }
            if ds <= b < ds + nd {
                assert(bitmap_bit(d0_disk, sb, b - ds));
            }
            assert(out_of_reach(d0_disk, d0, sb, first, last, p));
        }
        if d0.size < off + n {
            lemma_inode_location(sb, inum);
        }
    }
    assert forall|j: int| 0 <= j && inode_in_range(sb, j) && j != inum && inodes_per_block(sb) > 0
        implies #[trigger] disk_inode(d1_disk, sb, j) == disk_inode(d0_disk, sb, j) by {
        lemma_inode_location(sb, j);
        assert(!pointed(d1, first, last, inode_block_of(sb, j)));
    }
    if inode_in_range(sb, inum) && inodes_per_block(sb) > 0 {
        lemma_inode_location(sb, inum);
        assert(!pointed(d1, first, last, inode_block_of(sb, inum)));
    }
}

/// The pointers of an inode whose pointers are all sound can be written
/// through wherever a write meets them.
pub proof fn lemma_sound_meets(disk: Seq<Seq<u8>>, sb: SuperBlock, d: DInodeView, inum: int, off: int, n: int)
    requires
        sb_valid_spec(sb),
        sb.nblocks * (8 * sb.block_size) <= u64::MAX,
        blocks_sound(disk, sb, d),
        0 <= inum,
        inode_in_range(sb, inum) ==> inodes_per_block(sb) > 0,
    ensures
        write_meets_ok(disk, sb, d, inum, off, n),
{
    let bs = sb.block_size as int;
    let first = off / bs;
    let last = first + write_range_count(n, off % bs, bs);
    assert forall|j: int| first <= j < last && #[trigger] ptr(d, j) != 0 implies meetable(disk, sb, ptr(d, j) as int) by {
        assert(0 <= j < 12);
    }
    if inode_in_range(sb, inum) {
        lemma_inode_location(sb, inum);
        let ib = inode_block_of(sb, inum);
        if pointed(d, first, last, ib) {
            let jw = choose|jw: int| first <= jw < last && #[trigger] ptr(d, jw) == ib;
            assert(0 <= jw < 12);
        }
    }
}

/// Part way through a write into an inode whose pointers are all sound, the
/// pointers are still all sound.
pub proof fn lemma_state_sound(
    disk: Seq<Seq<u8>>,
    d: DInodeView,
    d0_disk: Seq<Seq<u8>>,
    d0: DInodeView,
    sb: SuperBlock,
    off: int,
    n: int,
    buf: Seq<u8>,
    ri: int,
)
    requires
        sb_valid_spec(sb),
        sb.block_size > 0,
        0 <= ri <= write_range_count(n, off % (sb.block_size as int), sb.block_size as int),
        blocks_sound(d0_disk, sb, d0),
        write_state(disk, d, d0_disk, d0, sb, off, n, buf, ri),
    ensures
        blocks_sound(disk, sb, d),
{
    let bs = sb.block_size as int;
    let first = off / bs;
    let ds = sb.datastart as int;
    let nd = sb.ndatablocks as int;
    assert forall|j: int| 0 <= j < 12 && #[trigger] ptr(d, j) != 0 implies ds <= ptr(d, j) < sb.nblocks
        && (ptr(d, j) < ds + nd ==> bitmap_bit(disk, sb, ptr(d, j) - ds)) by {
        if ptr(d0, j) != 0 {
            assert(ptr(d, j) == ptr(d0, j));
            if ptr(d0, j) < ds + nd {
                assert(bitmap_bit(d0_disk, sb, ptr(d0, j) - ds));
            }
        } else {
            assert(first <= j < first + ri);
            assert(ds <= ptr(d, j) < ds + nd);
            assert(newly(d0, d, first, first + ri, ptr(d, j) as int));
            assert(bitmap_bit(disk, sb, ptr(d, j) - ds));
        }
    }
    assert forall|j1: int, j2: int| 0 <= j1 < 12 && 0 <= j2 < 12 && j1 != j2 && ptr(d, j1) != 0
        implies #[trigger] ptr(d, j1) != #[trigger] ptr(d, j2) by {
        if ptr(d, j2) != 0 {
            if ptr(d0, j1) != 0 && ptr(d0, j2) != 0 {
                assert(ptr(d0, j1) != ptr(d0, j2));
            } else if ptr(d0, j1) == 0 && ptr(d0, j2) == 0 {
                assert(first <= j1 < first + ri && first <= j2 < first + ri);
                assert(ptr(d, j1) != ptr(d, j2));
            } else if ptr(d0, j1) == 0 {
                assert(first <= j1 < first + ri);
                assert(ptr(d, j2) == ptr(d0, j2));
                assert(!bitmap_bit(d0_disk, sb, ptr(d, j1) - ds));
                if ptr(d0, j2) < ds + nd {
                    assert(bitmap_bit(d0_disk, sb, ptr(d0, j2) - ds));
                }
            } else {
                assert(first <= j2 < first + ri);
                assert(ptr(d, j1) == ptr(d0, j1));
                assert(!bitmap_bit(d0_disk, sb, ptr(d, j2) - ds));
                if ptr(d0, j1) < ds + nd {
                    assert(bitmap_bit(d0_disk, sb, ptr(d0, j1) - ds));
                }
            }
        }
    }
}


} // verus!
