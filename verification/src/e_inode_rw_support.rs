//! Reading and writing the bytes of an inode, on top of the inode layer.
use vstd::prelude::*;
use std::ops::Range;
use crate::types::{APIError, DInodeView, FType, Inode, SuperBlock, DIRECT_POINTERS, SUPERBLOCK_SIZE, superblock_at};
use crate::blocks::{Block, Buffer, Device, zeros};
use crate::a_block_support::{
    sb_usable, sb_fits_device, BlockError, ceil_div, inodes_per_block, sb_valid_spec, bitmap_bit, disk_with_bit, disk_with_zero_block};
use crate::b_inode_support::{
    lemma_div_lt_ceil, EsFS2, InodeError, inode_in_range, inode_usable, disk_inode, inode_written,
    free_dinode, blocks_to_free, free_count, free_all, no_blocks, used_inode, free_inode,
};
use crate::utils::div_rem;
use crate::write_model::{
    blocks_sound, lowest_taken, with_pending, write_meets_ok, write_met_done, write_range_count, wr_start, wr_end, wr_off, write_state, write_done,
    missing_ptrs, free_below, lemma_write_step, lemma_write_fail, lemma_write_finish, lemma_wr_facts,
};

verus! {

/// The smaller of two integers.
pub open spec fn min_int(a: int, b: int) -> int {
    if a < b {
        a
    } else {
        b
    }
}

/// Number of bytes a read of `n` bytes at `off` into a buffer of `buf_len`
/// bytes copies from a file of `size` bytes.
pub open spec fn bytes_to_read(size: u64, buf_len: u64, off: u64, n: u64) -> int {
    min_int(size - off, min_int(buf_len as int, n as int))
}

/// Start, within its block, of the `j`-th block range of `n` bytes starting at
/// offset `c` of a block.
pub open spec fn read_range_start(c: int, j: int) -> int {
    if j == 0 {
        c
    } else {
        0
    }
}

/// End, within its block, of the `j`-th block range of `n` bytes starting at
/// offset `c` of a block of `bs` bytes.
pub open spec fn read_range_end(c: int, n: int, bs: int, j: int) -> int {
    min_int(bs, c + n - j * bs)
}

/// `ranges` are the pieces, one per block, of the bytes `offset .. offset + n`
/// of a file with blocks of `bs` bytes, each given within its block.
pub open spec fn read_ranges_ok(ranges: Seq<Range<usize>>, n: int, offset: int, bs: int) -> bool {
    let c = offset % bs;
    &&& ranges.len() == (if n == 0 {
        0
    } else {
        ceil_div(c + n, bs)
    })
    &&& forall|j: int|
        0 <= j < ranges.len() ==> (#[trigger] ranges[j]).start == read_range_start(c, j)
            && ranges[j].end == read_range_end(c, n, bs, j)
}

/// `ranges` are the pieces of a buffer of `n` bytes to be written from offset
/// `init_off` of a block of `bs` bytes on: the first piece fills the first
/// block, each further piece one more block, and no piece is empty.
pub open spec fn write_ranges_ok(ranges: Seq<Range<usize>>, n: int, init_off: int, bs: int) -> bool {
    &&& ranges.len() == write_range_count(n, init_off, bs)
    &&& forall|j: int|
        0 <= j < ranges.len() ==> (#[trigger] ranges[j]).start == wr_start(j, init_off, bs) && ranges[j].end
            == wr_end(j, n, init_off, bs)
}

/// The block pointers that a write of `n` bytes at `off` meets, one per
/// piece (see [`write_range_count`]), are zero or lie on the device.
pub open spec fn pieces_on_device(sb: SuperBlock, d: DInodeView, off: int, n: int) -> bool {
    let bs = sb.block_size as int;
    forall|j: int|
        off / bs <= j < off / bs + write_range_count(n, off % bs, bs) ==> #[trigger] ptr(d, j) < sb.nblocks
}

/// Errors of inode reads and writes.
#[derive(Debug)]
pub enum InodeRWError {
    /// Error while reading or writing the bytes of an inode.
    RW(&'static str),
    /// Error raised by the inode layer.
    Inode(InodeError),
    /// Not enough blocks for the write.
    OutOfBlocks(&'static str),
    /// Error raised by a block, a buffer or the device.
    API(APIError),
}

/// The file system type of this layer, under the name the other layers and
/// the tests use for it.
pub type FSName = EsFS21;

/// A file system supporting reads and writes of inode data.
pub struct EsFS21 {
    ifs: EsFS2,
}

impl EsFS21 {
    /// The blocks of the device.
    pub closed spec fn disk(&self) -> Seq<Seq<u8>> {
        self.ifs.disk()
    }

    /// The cached superblock.
    pub closed spec fn sb(&self) -> SuperBlock {
        self.ifs.sb()
    }

    /// The layers underneath are well formed.
    pub closed spec fn layer_ok(&self) -> bool {
        self.ifs.inv()
    }

    /// Well-formedness: a valid superblock describing the device.
    pub open spec fn inv(&self) -> bool {
        &&& self.layer_ok()
        &&& self.disk().len() == self.sb().nblocks
        &&& forall|i: int|
            0 <= i < self.disk().len() ==> #[trigger] self.disk()[i].len() == self.sb().block_size
        &&& sb_valid_spec(self.sb())
        &&& self.sb().nblocks * (8 * self.sb().block_size) <= u64::MAX
        &&& self.sb().block_size <= usize::MAX
    }

    /// The cached superblock.
    pub fn sup_get(&self) -> (r: Result<SuperBlock, InodeRWError>)
        ensures
            r == Ok::<SuperBlock, InodeRWError>(self.sb()),
    {
        match self.ifs.sup_get() {
            Ok(sb) => Ok(sb),
            Err(e) => Err(InodeRWError::Inode(e)),
        }
    }

    /// How many bytes a read of `n` bytes at `off` into a buffer of `buf_len`
    /// bytes copies from an inode of `inode_size` bytes: the least of `n`, the
    /// buffer length and the bytes from `off` to the end of the inode. Fails
    /// when `off` lies past the end of the inode.
    pub fn calculate_bytes_to_read(&self, inode_size: u64, buf_len: u64, off: u64, n: u64) -> (r: Result<u64, InodeRWError>)
        ensures
            r is Ok <==> off <= inode_size,
            r matches Ok(m) ==> m == bytes_to_read(inode_size, buf_len, off, n),
            r is Err ==> r matches Err(InodeRWError::RW(_)),
    {
        if off > inode_size {
            return Err(InodeRWError::RW("trying to read beyond inode boundaries"));
        }
        let bytes_until_eof = inode_size - off;
        let m = if buf_len < n {
            buf_len
        } else {
            n
        };
        if bytes_until_eof < m {
            Ok(bytes_until_eof)
        } else {
            Ok(m)
        }
    }

    /// Splits the bytes `offset .. offset + n` of an inode into one range per
    /// block (see [`read_ranges_ok`]), and returns them with the index of the
    /// first block.
    pub fn generate_ranges(&self, n: usize, offset: usize) -> (r: (Vec<Range<usize>>, u64))
        requires
            self.inv(),
        ensures
            read_ranges_ok(r.0@, n as int, offset as int, self.sb().block_size as int),
            r.1 == (if n == 0 {
                0
            } else {
                offset as int / self.sb().block_size as int
            }),
    {
        let sb = self.ifs.sb_value();
        proof { crate::a_block_support::lemma_sb_bounds(sb); }
        let block_size = sb.block_size as usize;
        let mut ranges: Vec<Range<usize>> = Vec::new();
        if n == 0 {
            return (ranges, 0);
        }
        let skip_n = offset / block_size;
        let curr_offset = offset % block_size;
        let until_eob = block_size - curr_offset;
        let ghost bs = block_size as int;
        let ghost c = curr_offset as int;
        if n < until_eob {
            ranges.push(Range { start: curr_offset, end: curr_offset + n });
            proof {
                assert(ceil_div(c + n, bs) == 1) by {
                    vstd::arithmetic::div_mod::lemma_fundamental_div_mod_converse(c + n, bs, 0, c + n);
                }
            }
        } else {
            ranges.push(Range { start: curr_offset, end: block_size });
            let mut curr_n = n - until_eob;
            assert(ranges@.len() * bs == bs) by (nonlinear_arith)
                requires
                    ranges@.len() == 1,
            ;
            while curr_n >= block_size
                invariant
                    bs == block_size,
                    bs > 0,
                    0 <= c < bs,
                    c + n >= bs,
                    ranges@.len() >= 1,
                    curr_n == c + n - ranges@.len() * bs,
                    forall|j: int| 0 <= j < ranges@.len() ==> (#[trigger] ranges@[j]).start == read_range_start(c, j)
                        && ranges@[j].end == read_range_end(c, n as int, bs, j),
                decreases curr_n,
            {
                let ghost k = ranges@.len() as int;
                ranges.push(Range { start: 0, end: block_size });
                curr_n = curr_n - block_size;
                assert(curr_n == c + n - (k + 1) * bs) by (nonlinear_arith)
                    requires
                        curr_n == c + n - k * bs - bs,
                ;
            }
            let ghost k = ranges@.len() as int;
            if curr_n != 0 {
                ranges.push(Range { start: 0, end: curr_n });
                proof {
                    vstd::arithmetic::div_mod::lemma_fundamental_div_mod_converse(c + n, bs, k, curr_n as int);
                    assert(k * bs == bs * k) by (nonlinear_arith);
                }
            } else {
                proof {
                    vstd::arithmetic::div_mod::lemma_fundamental_div_mod_converse(c + n, bs, k, 0);
                    assert(k * bs == bs * k) by (nonlinear_arith);
                }
            }
        }
        (ranges, skip_n as u64)
    }

    /// Splits a buffer of `n` bytes to be written at `offset` of an inode into
    /// pieces per block (see [`write_ranges_ok`]), and returns them with the
    /// index of the first block and the offset within it.
    pub fn generate_writing_ranges(&self, n: usize, offset: usize) -> (r: (Vec<Range<usize>>, u64, u64))
        requires
            self.inv(),
        ensures
            write_ranges_ok(r.0@, n as int, offset as int % self.sb().block_size as int, self.sb().block_size as int),
            r.1 == (if n == 0 {
                0
            } else {
                offset as int / self.sb().block_size as int
            }),
            r.2 == (if n == 0 {
                0
            } else {
                offset as int % self.sb().block_size as int
            }),
    {
        let sb = self.ifs.sb_value();
        proof { crate::a_block_support::lemma_sb_bounds(sb); }
        let block_size = sb.block_size as usize;
        let mut ranges: Vec<Range<usize>> = Vec::new();
        if n == 0 {
            return (ranges, 0, 0);
        }
        let skip_blocks = offset / block_size;
        let init_off = offset % block_size;
        let init_n = block_size - init_off;
        let ghost bs = block_size as int;
        if init_n >= n {
            ranges.push(Range { start: 0, end: n });
        } else {
            ranges.push(Range { start: 0, end: init_n });
            let mut curr_off = init_n;
            assert(init_n + (ranges@.len() - 1) * bs == init_n) by (nonlinear_arith)
                requires
                    ranges@.len() == 1,
            ;
            while block_size < n - curr_off
                invariant
                    bs == block_size,
                    bs > 0,
                    init_n <= n,
                    ranges@.len() >= 1,
                    curr_off == init_n + (ranges@.len() - 1) * bs,
                    curr_off <= n,
                    curr_off < n,
                    n <= usize::MAX,
                    forall|j: int| 0 <= j < ranges@.len() ==> (#[trigger] ranges@[j]).start == (if j == 0 {
                        0
                    } else {
                        init_n + (j - 1) * bs
                    }) && ranges@[j].end == min_int(n as int, init_n + j * bs),
                decreases n - curr_off,
            {
                let ghost k = ranges@.len() as int;
                ranges.push(Range { start: curr_off, end: curr_off + block_size });
                assert(init_n + k * bs == curr_off + bs) by (nonlinear_arith)
                    requires
                        curr_off == init_n + (k - 1) * bs,
                ;
                curr_off = curr_off + block_size;
            }
            let ghost k = ranges@.len() as int;
            ranges.push(Range { start: curr_off, end: n });
            proof {
                assert(init_n + k * bs >= n) by (nonlinear_arith)
                    requires
                        curr_off == init_n + (k - 1) * bs,
                        curr_off + bs >= n,
                ;
                if n > init_n {
                    let x = n - init_n;
                    assert(x - 1 - (k - 1) * bs < bs) by (nonlinear_arith)
                        requires
                            curr_off == init_n + (k - 1) * bs,
                            curr_off + bs >= n,
                            x == n - init_n,
                    ;
                    assert(0 <= x - 1 - (k - 1) * bs) by (nonlinear_arith)
                        requires
                            curr_off == init_n + (k - 1) * bs,
                            curr_off < n,
                            x == n - init_n,
                    ;
                    assert((k - 1) * bs == bs * (k - 1)) by (nonlinear_arith);
                    vstd::arithmetic::div_mod::lemma_fundamental_div_mod_converse(
                        x - 1,
                        bs,
                        k - 1,
                        x - 1 - (k - 1) * bs,
                    );

                    assert(ceil_div(x, bs) == k - 1 + 1) by {
                        vstd::arithmetic::div_mod::lemma_fundamental_div_mod(x, bs);
                        vstd::arithmetic::div_mod::lemma_fundamental_div_mod(x - 1, bs);
                        let q = (x - 1) / bs;
                        let r = (x - 1) % bs;
                        assert(x / bs + (if x % bs == 0 { 0int } else { 1int }) == q + 1) by (nonlinear_arith)
                            requires
                                x - 1 == bs * q + r,
                                0 <= r < bs,
                                x == bs * (x / bs) + x % bs,
                                0 <= x % bs < bs,
                        ;
                    }
                }
            }
        }
        (ranges, skip_blocks as u64, init_off as u64)
    }
}


/// Block pointer `j` of a disk inode; zero outside the pointer array.
pub open spec fn ptr(d: DInodeView, j: int) -> u64 {
    if 0 <= j < 12 {
        d.blocks[j]
    } else {
        0
    }
}

/// Byte `p` of the data of inode `d`: byte `p % bs` of its block `p / bs`.
pub open spec fn file_byte(disk: Seq<Seq<u8>>, bs: int, d: DInodeView, p: int) -> u8 {
    disk[ptr(d, p / bs) as int][p % bs]
}

/// Every block pointer `from ..= to` of `d` is non-zero.
pub open spec fn all_present(d: DInodeView, from: int, to: int) -> bool {
    forall|j: int| from <= j <= to ==> #[trigger] ptr(d, j) != 0
}

/// Reading the blocks `from ..= to` of `d` in order meets no pointer past the
/// end of the device before it meets a zero pointer.
pub open spec fn reads_ok(d: DInodeView, nblocks: u64, from: int, to: int) -> bool {
    forall|j: int| from <= j <= to && all_present(d, from, j - 1) ==> #[trigger] ptr(d, j) < nblocks
}

/// Number of blocks holding the bytes `off .. off + m`, with blocks of `bs` bytes.
pub open spec fn blocks_spanned(off: int, m: int, bs: int) -> int {
    if m == 0 {
        0
    } else {
        ceil_div(off % bs + m, bs)
    }
}

/// Position in the read buffer where range `r` starts.
pub open spec fn read_pos(r: int, c: int, bs: int) -> int {
    if r == 0 {
        0
    } else {
        r * bs - c
    }
}

/// Arithmetic of the read ranges: where each lands in the buffer.
proof fn lemma_read_range_pos(first: int, c: int, m: int, bs: int, r: int)
    requires
        0 <= c < bs,
        m > 0,
        0 <= first,
        0 <= r < ceil_div(c + m, bs),
    ensures
        read_range_start(c, r) < read_range_end(c, m, bs, r) <= bs,
        0 <= read_range_start(c, r),
        read_pos(r, c, bs) >= 0,
        read_pos(r, c, bs) + read_range_end(c, m, bs, r) - read_range_start(c, r) == (if r + 1 < ceil_div(c + m, bs) {
            read_pos(r + 1, c, bs)
        } else {
            m
        }),
        first * bs + c + read_pos(r, c, bs) == (first + r) * bs + read_range_start(c, r),
        read_pos(r, c, bs) < m,
{
    crate::b_inode_support::lemma_mul_lt_ceil(r, c + m, bs);
    crate::b_inode_support::lemma_mul_lt_ceil(r + 1, c + m, bs);
    assert((r + 1) * bs == r * bs + bs) by (nonlinear_arith);
    assert((first + r) * bs == first * bs + r * bs) by (nonlinear_arith);
    assert(r >= 1 ==> r * bs >= bs) by (nonlinear_arith)
        requires
            bs > 0,
    ;
    assert(r * bs >= 0) by (nonlinear_arith)
        requires
            bs > 0,
            r >= 0,
    ;
}

/// Which block a buffer position of a read lands in, relative to range `r`.
proof fn lemma_read_block_of_pos(first: int, c: int, bs: int, r: int, m: int, k: int)
    requires
        0 <= c < bs,
        m > 0,
        0 <= first,
        0 <= r < ceil_div(c + m, bs),
        0 <= k,
    ensures
        k < read_pos(r, c, bs) ==> first <= (first * bs + c + k) / bs <= first + r - 1,
        k >= read_pos(r, c, bs) ==> (first * bs + c + k) / bs >= first + r,
{
    lemma_read_range_pos(first, c, m, bs, r);
    let st = read_range_start(c, r);
    lemma_block_byte(first + r, bs, st);
    lemma_block_byte(first, bs, c);
    if k < read_pos(r, c, bs) {
        vstd::arithmetic::div_mod::lemma_div_is_ordered(first * bs + c, first * bs + c + k, bs);
        vstd::arithmetic::div_mod::lemma_div_is_ordered(first * bs + c + k, (first + r) * bs - 1, bs);
        lemma_block_byte(first + r - 1, bs, bs - 1);
        assert((first + r - 1) * bs + bs - 1 == (first + r) * bs - 1) by (nonlinear_arith);
    } else {
        vstd::arithmetic::div_mod::lemma_div_is_ordered((first + r) * bs + st, first * bs + c + k, bs);
    }
}

/// Byte `x` of block `q` of a file is its byte `q * bs + x`.
proof fn lemma_block_byte(q: int, bs: int, x: int)
    requires
        bs > 0,
        0 <= x < bs,
    ensures
        (q * bs + x) / bs == q,
        (q * bs + x) % bs == x,
{
    vstd::arithmetic::div_mod::lemma_fundamental_div_mod_converse(q * bs + x, bs, q, x);
}

/// The block of byte `k` of a range that starts at byte `c` of block `first`.
pub proof fn lemma_pos_block(first: int, c: int, bs: int, k: int)
    requires
        bs > 0,
        0 <= c,
        0 <= k,
    ensures
        (first * bs + c + k) / bs == first + (c + k) / bs,
{
    vstd::arithmetic::div_mod::lemma_fundamental_div_mod(c + k, bs);
    let q = (c + k) / bs;
    let r = (c + k) % bs;
    assert(first * bs + c + k == (first + q) * bs + r) by (nonlinear_arith)
        requires
            c + k == bs * q + r,
    ;
    lemma_block_byte(first + q, bs, r);
}

/// Walks the data blocks of an inode in order, from a given block index on.
struct InodeBlockIterator {
    i: u64,
}

impl InodeBlockIterator {
    fn new(i: u64) -> (it: InodeBlockIterator)
        ensures
            it.i == i,
    {
        InodeBlockIterator { i }
    }

    /// The next data block; `None` at a zero pointer.
    fn next(&mut self, fs: &EsFS21, ino: &Inode) -> (r: Option<Block>)
        requires
            fs.inv(),
            ptr(ino.disk_node@, old(self).i as int) < fs.sb().nblocks,
        ensures
            r is Some <==> ptr(ino.disk_node@, old(self).i as int) != 0,
            r matches Some(b) ==> b@ == fs.disk()[ptr(ino.disk_node@, old(self).i as int) as int] && final(self).i == old(self).i + 1,
            r is None ==> final(self).i == old(self).i,
    {
        let block_i = ino.get_block(self.i);
        if block_i == 0 {
            None
        } else {
            let b = match fs.ifs.b_get(block_i) {
                Ok(b) => b,
                Err(_) => {
                    return None;
                },
            };
            self.i = self.i + 1;
            Some(b)
        }
    }
}

impl EsFS21 {
    /// Reads up to `n` bytes of the data of `inode` from offset `off` into the
    /// start of `buf`: as many as fit in the buffer and lie before the end of the
    /// inode. Returns how many were read. Fails when `off` lies past the end of
    /// the inode, or a block to read has pointer zero (the bytes of the blocks
    /// before it are then in the buffer).
    pub fn i_read(&self, inode: &Inode, buf: &mut Buffer, off: u64, n: u64) -> (r: Result<u64, InodeRWError>)
        requires
            self.inv(),
            inode.disk_node.size <= usize::MAX,
            off <= inode.disk_node.size ==> ({
                let m = bytes_to_read(inode.disk_node.size, old(buf)@.len() as u64, off, n);
                let first = off / self.sb().block_size;
                reads_ok(inode.disk_node@, self.sb().nblocks, first as int, first + blocks_spanned(off as int, m, self.sb().block_size as int) - 1)
            }),
        ensures
            final(buf)@.len() == old(buf)@.len(),
            off > inode.disk_node.size ==> (r matches Err(InodeRWError::RW(_))) && final(buf)@ == old(buf)@,
            off <= inode.disk_node.size ==> ({
                let bs = self.sb().block_size as int;
                let m = bytes_to_read(inode.disk_node.size, old(buf)@.len() as u64, off, n);
                let first = off / self.sb().block_size;
                let nb = blocks_spanned(off as int, m, bs);
                let d = inode.disk_node@;
                &&& (r is Ok <==> all_present(d, first as int, first + nb - 1))
                &&& (r matches Ok(x) ==> x == m)
                &&& (r is Err ==> r matches Err(InodeRWError::RW(_)))
                &&& forall|k: int| 0 <= k < old(buf)@.len() ==> #[trigger] final(buf)@[k] == if k < m && all_present(d, first as int, (off + k) / bs) {
                    file_byte(self.disk(), bs, d, off + k)
                } else {
                    old(buf)@[k]
                }
            }),
    {
        let ghost sb = self.sb();
        let ghost d = inode.disk_node@;
        let ghost old_buf = buf@;
        let bytes_to_read = match self.calculate_bytes_to_read(inode.get_size(), buf.len(), off, n) {
            Ok(m) => m,
            Err(e) => return Err(e),
        };
        proof {
            crate::a_block_support::lemma_sb_bounds(sb);
            assert(off as usize as int == off);
            assert(bytes_to_read as usize as int == bytes_to_read);
        }
        let ghost bs = sb.block_size as int;
        let ghost m = bytes_to_read as int;
        let ghost c = off as int % bs;
        let ghost first = off as int / bs;
        let ghost nb = blocks_spanned(off as int, m, bs);
        let (ranges_to_read, init_block) = self.generate_ranges(bytes_to_read as usize, off as usize);
        proof {
            vstd::arithmetic::div_mod::lemma_fundamental_div_mod(off as int, bs);
            assert(first * bs == bs * first) by (nonlinear_arith);
            assert(off == first * bs + c);
            if m > 0 {
                crate::b_inode_support::lemma_mul_lt_ceil(0, c + m, bs);
            }
        }
        let mut inode_iter = InodeBlockIterator::new(init_block);
        let mut buffer_pos: u64 = 0;
        let mut ri: usize = 0;
        while ri < ranges_to_read.len()
            invariant
                self.inv(),
                self.sb() == sb,
                d == inode.disk_node@,
                off <= inode.disk_node.size,
                bs == sb.block_size,
                bs > 0,
                m == bytes_to_read,
                m == crate::e_inode_rw_support::bytes_to_read(inode.disk_node.size, old_buf.len() as u64, off, n),
                nb == blocks_spanned(off as int, m, bs),
                m <= old_buf.len(),
                off == first * bs + c,
                c == off as int % bs,
                first == off as int / bs,
                0 <= c < bs,
                first >= 0,
                nb == ranges_to_read@.len(),
                m > 0 ==> nb == ceil_div(c + m, bs),
                m == 0 ==> nb == 0,
                read_ranges_ok(ranges_to_read@, m, off as int, bs),
                init_block == (if m == 0 { 0 } else { first }),
                inode_iter.i == init_block + ri,
                old_buf == old(buf)@,
                ri <= nb,
                buffer_pos == (if ri < nb { read_pos(ri as int, c, bs) } else { m }),
                buf@.len() == old_buf.len(),
                all_present(d, first, first + ri - 1),
                reads_ok(d, sb.nblocks, first, first + nb - 1),
                forall|k: int| 0 <= k < old_buf.len() ==> #[trigger] buf@[k] == if k < buffer_pos {
                    file_byte(self.disk(), bs, d, off + k)
                } else {
                    old_buf[k]
                },
            decreases nb - ri,
        {
            proof {
                lemma_read_range_pos(first, c, m, bs, ri as int);
            }
            let block = match inode_iter.next(self, inode) {
                Some(b) => b,
                None => {
                    proof {
                        assert(m > 0);
                        assert(init_block == first);
                        assert(ptr(d, first + ri) == 0);
                        assert(!all_present(d, first, first + nb - 1));
                        assert forall|k: int| 0 <= k < old_buf.len() implies #[trigger] buf@[k] == if k < m && all_present(d, first, (off + k) / bs) {
                            file_byte(self.disk(), bs, d, off + k)
                        } else {
                            old_buf[k]
                        } by {
                            lemma_read_block_of_pos(first, c, bs, ri as int, m, k);
                            if k < m && all_present(d, first, (off + k) / bs) && k >= buffer_pos {
                                assert(ptr(d, first + ri) != 0);
                            }
                            if k < buffer_pos {
                                assert(all_present(d, first, (off + k) / bs));
                            }
                        }
                    }
                    return Err(InodeRWError::RW("ran out of blocks to read, inode size is incorrect"));
                },
            };
            let range_start = ranges_to_read[ri].start;
            let range_end = ranges_to_read[ri].end;
            let ghost st = range_start as int;
            let ghost en = range_end as int;
            let contents = block.contents_as_ref();
            let block_slice = vstd::slice::slice_subrange(contents, range_start, range_end);
            proof {
                assert(st == read_range_start(c, ri as int));
                assert(en == read_range_end(c, m, bs, ri as int));
                assert(buffer_pos == read_pos(ri as int, c, bs));
                if ri + 1 < nb {
                    lemma_read_range_pos(first, c, m, bs, ri + 1);
                }
                assert(buffer_pos + (en - st) <= m);
            }
            match buf.write_data(block_slice, buffer_pos) {
                Ok(()) => {},
                Err(e) => return Err(InodeRWError::API(e)),
            }
            proof {
                let blk = ptr(d, first + ri) as int;
                assert forall|k: int| 0 <= k < old_buf.len() implies #[trigger] buf@[k] == if k < buffer_pos + (en - st) {
                    file_byte(self.disk(), bs, d, off + k)
                } else {
                    old_buf[k]
                } by {
                    if buffer_pos <= k < buffer_pos + (en - st) {
                        lemma_block_byte(first + ri, bs, st + (k - buffer_pos));
                        assert(off + k == (first + ri) * bs + st + (k - buffer_pos));
                    }
                }
            }
            buffer_pos = buffer_pos + (range_end - range_start) as u64;
            ri = ri + 1;
        }
        proof {
            assert forall|k: int| 0 <= k < m implies all_present(d, first, #[trigger] ((off + k) / bs)) by {
                lemma_div_lt_ceil(c + k, c + m, bs);
                lemma_pos_block(first, c, bs, k);
            }
        }
        Ok(bytes_to_read)
    }
}

impl EsFS21 {
    /// Reads block `i` of the device.
    pub fn b_get(&self, i: u64) -> (r: Result<Block, InodeRWError>)
        requires
            self.inv(),
        ensures
            r is Ok <==> i < self.sb().nblocks,
            r matches Ok(b) ==> b.block_no == i && b@ == self.disk()[i as int],
            r is Err ==> r matches Err(InodeRWError::Inode(InodeError::Block(BlockError::API(_)))),
    {
        match self.ifs.b_get(i) {
            Ok(v) => Ok(v),
            Err(e) => Err(InodeRWError::Inode(e)),
        }
    }

    /// Writes `b` to block `b.block_no` of the device.
    pub fn b_put(&mut self, b: &Block) -> (r: Result<(), InodeRWError>)
        requires
            old(self).inv(),
        ensures
            final(self).inv(),
            final(self).sb() == old(self).sb(),
            r is Ok <==> b.block_no < old(self).sb().nblocks && b@.len() == old(self).sb().block_size,
            r is Ok ==> final(self).disk() == old(self).disk().update(b.block_no as int, b@),
            r is Err ==> final(self).disk() == old(self).disk() && r matches Err(InodeRWError::Inode(InodeError::Block(BlockError::API(_)))),
    {
        match self.ifs.b_put(b) {
            Ok(v) => Ok(v),
            Err(e) => Err(InodeRWError::Inode(e)),
        }
    }

    /// Frees data block `i` (as in the inode layer).
    pub fn b_free(&mut self, i: u64) -> (r: Result<(), InodeRWError>)
        requires
            old(self).inv(),
        ensures
            final(self).inv(),
            final(self).sb() == old(self).sb(),
            r is Ok <==> i < old(self).sb().ndatablocks && bitmap_bit(old(self).disk(), old(self).sb(), i as int),
            r is Ok ==> final(self).disk() == disk_with_bit(old(self).disk(), old(self).sb(), i as int, false),
            r is Err ==> final(self).disk() == old(self).disk(),
            r matches Err(InodeRWError::Inode(InodeError::Block(BlockError::Bounds(_)))) <==> i >= old(self).sb().ndatablocks,
            r matches Err(InodeRWError::Inode(InodeError::Block(BlockError::Allocation(_)))) <==> i < old(self).sb().ndatablocks && !bitmap_bit(old(self).disk(), old(self).sb(), i as int),
    {
        match self.ifs.b_free(i) {
            Ok(v) => Ok(v),
            Err(e) => Err(InodeRWError::Inode(e)),
        }
    }

    /// Zeroes data block `i` (as in the inode layer).
    pub fn b_zero(&mut self, i: u64) -> (r: Result<(), InodeRWError>)
        requires
            old(self).inv(),
        ensures
            final(self).inv(),
            final(self).sb() == old(self).sb(),
            r is Ok <==> i < old(self).sb().ndatablocks,
            r is Ok ==> final(self).disk() == disk_with_zero_block(old(self).disk(), old(self).sb(), old(self).sb().datastart + i),
            r is Err ==> final(self).disk() == old(self).disk() && r matches Err(InodeRWError::Inode(InodeError::Block(BlockError::Bounds(_)))),
    {
        match self.ifs.b_zero(i) {
            Ok(v) => Ok(v),
            Err(e) => Err(InodeRWError::Inode(e)),
        }
    }

    /// Allocates the free data block with the lowest index (as in the inode layer).
    pub fn b_alloc(&mut self) -> (r: Result<u64, InodeRWError>)
        requires
            old(self).inv(),
        ensures
            final(self).inv(),
            final(self).sb() == old(self).sb(),
            r is Ok <==> exists|g: int| 0 <= g < old(self).sb().ndatablocks && !bitmap_bit(old(self).disk(), old(self).sb(), g),
            r matches Ok(g) ==> {
                &&& g < old(self).sb().ndatablocks
                &&& !bitmap_bit(old(self).disk(), old(self).sb(), g as int)
                &&& forall|h: int| 0 <= h < g ==> #[trigger] bitmap_bit(old(self).disk(), old(self).sb(), h)
                &&& final(self).disk() == disk_with_zero_block(
                    disk_with_bit(old(self).disk(), old(self).sb(), g as int, true),
                    old(self).sb(),
                    old(self).sb().datastart + g,
                )
            },
            r is Err ==> (r matches Err(InodeRWError::Inode(InodeError::Block(BlockError::Allocation(_))))) && final(self).disk() == old(self).disk(),
    {
        match self.ifs.b_alloc() {
            Ok(v) => Ok(v),
            Err(e) => Err(InodeRWError::Inode(e)),
        }
    }

    /// Block size of the device.
    pub closed spec fn dev_bs(&self) -> u64 {
        self.ifs.dev_bs()
    }

    /// Number of blocks of the device.
    pub closed spec fn dev_nb(&self) -> u64 {
        self.ifs.dev_nb()
    }

    /// The device holds `dev_nb()` blocks of `dev_bs()` bytes each, whatever
    /// the cached superblock says.
    pub open spec fn dev_ok(&self) -> bool {
        &&& self.disk().len() == self.dev_nb()
        &&& forall|i: int| 0 <= i < self.disk().len() ==> #[trigger] self.disk()[i].len() == self.dev_bs()
        &&& self.dev_nb() > 0 ==> self.dev_bs() <= usize::MAX
    }

    /// Replaces the superblock, in the cache and in block 0 (see
    /// [`EsFS1::sup_put`]): any superblock is taken, and the file system is
    /// well formed afterwards exactly when the new one describes the device.
    pub fn sup_put(&mut self, sup: &SuperBlock) -> (r: Result<(), InodeRWError>)
        requires
            old(self).dev_ok(),
        ensures
            final(self).dev_ok(),
            final(self).dev_bs() == old(self).dev_bs(),
            final(self).dev_nb() == old(self).dev_nb(),
            final(self).sb() == *sup,
            final(self).inv() <==> sb_fits_device(*sup, old(self).dev_bs(), old(self).dev_nb()),
            r is Ok <==> 0 < old(self).dev_nb() && SUPERBLOCK_SIZE <= old(self).dev_bs(),
            r is Ok ==> final(self).disk() == old(self).disk().update(0, final(self).disk()[0]),
            r is Ok ==> superblock_at(final(self).disk()[0], 0) == *sup,
            r is Ok ==> forall|k: int|
                SUPERBLOCK_SIZE <= k < old(self).dev_bs() ==> #[trigger] final(self).disk()[0][k] == old(self).disk()[0][k],
            r is Err ==> final(self).disk() == old(self).disk(),
    {
        match self.ifs.sup_put(sup) {
            Ok(v) => Ok(v),
            Err(e) => Err(InodeRWError::Inode(e)),
        }
    }

    /// Reads inode `i`. Fails when `i` is out of range or its bytes do not
    /// encode an inode.
    pub fn i_get(&self, i: u64) -> (r: Result<Inode, InodeRWError>)
        requires
            self.inv(),
            inode_usable(self.sb(), i as int),
        ensures
            r is Ok <==> inode_in_range(self.sb(), i as int) && disk_inode(self.disk(), self.sb(), i as int) is Some,
            r matches Ok(ino) ==> ino.inum == i && Some(ino.disk_node@) == disk_inode(self.disk(), self.sb(), i as int),
            r matches Err(InodeRWError::Inode(InodeError::Bounds)) <==> !inode_in_range(self.sb(), i as int),
            r matches Err(InodeRWError::Inode(InodeError::API(_))) <==> inode_in_range(self.sb(), i as int) && disk_inode(self.disk(), self.sb(), i as int) is None,
    {
        match self.ifs.i_get(i) {
            Ok(v) => Ok(v),
            Err(e) => Err(InodeRWError::Inode(e)),
        }
    }

    /// Writes `ino` as inode `ino.inum`. Fails when the number is out of range.
    pub fn i_put(&mut self, ino: &Inode) -> (r: Result<(), InodeRWError>)
        requires
            old(self).inv(),
            inode_usable(old(self).sb(), ino.inum as int),
        ensures
            final(self).inv(),
            final(self).sb() == old(self).sb(),
            r is Ok <==> inode_in_range(old(self).sb(), ino.inum as int),
            r is Ok ==> inode_written(old(self).disk(), final(self).disk(), old(self).sb(), ino.inum as int, ino.disk_node@),
            r is Err ==> final(self).disk() == old(self).disk() && (r matches Err(InodeRWError::Inode(InodeError::Bounds))),
    {
        match self.ifs.i_put(ino) {
            Ok(v) => Ok(v),
            Err(e) => Err(InodeRWError::Inode(e)),
        }
    }

    /// Frees inode `i` when it has no links left: frees its data blocks (see
    /// [`EsFS2::deallocate_valid_blocks`]) and marks it free with no blocks.
    /// Does nothing when links remain; fails when the inode is already free.
    pub fn i_free(&mut self, i: u64) -> (r: Result<(), InodeRWError>)
        requires
            old(self).inv(),
            inode_usable(old(self).sb(), i as int),
        ensures
            final(self).inv(),
            final(self).sb() == old(self).sb(),
            r matches Err(InodeRWError::Inode(InodeError::Bounds)) <==> !inode_in_range(old(self).sb(), i as int),
            r matches Err(InodeRWError::Inode(InodeError::API(_))) <==> inode_in_range(old(self).sb(), i as int)
                && disk_inode(old(self).disk(), old(self).sb(), i as int) is None,
            !inode_in_range(old(self).sb(), i as int) || disk_inode(old(self).disk(), old(self).sb(), i as int) is None
                ==> final(self).disk() == old(self).disk(),
            inode_in_range(old(self).sb(), i as int) ==> match disk_inode(old(self).disk(), old(self).sb(), i as int) {
                Some(d) => if d.nlink > 0 {
                    r is Ok && final(self).disk() == old(self).disk()
                } else if d.ft == FType::TFree {
                    (r matches Err(InodeRWError::Inode(InodeError::Alloc(_)))) && final(self).disk() == old(self).disk()
                } else {
                    let s = blocks_to_free(d.size, d.blocks, old(self).sb());
                    let c = free_count(old(self).disk(), old(self).sb(), s);
                    let fd = free_all(old(self).disk(), old(self).sb(), s);
                    &&& c < s.len() ==> final(self).disk() == fd && (r matches Err(InodeRWError::Inode(InodeError::Block(_))))
                    &&& (r matches Err(InodeRWError::Inode(InodeError::Block(BlockError::Bounds(_)))) <==> c < s.len() && s[c as int] >= old(self).sb().ndatablocks)
                    &&& (r matches Err(InodeRWError::Inode(InodeError::Block(BlockError::Allocation(_)))) <==> c < s.len() && s[c as int] < old(self).sb().ndatablocks && !bitmap_bit(fd, old(self).sb(), s[c as int] as int))
                    &&& c == s.len() ==> r is Ok && inode_written(fd, final(self).disk(), old(self).sb(), i as int, DInodeView { ft: FType::TFree, nlink: 0, size: d.size, blocks: no_blocks() })
                },
                None => true,
            },
    {
        match self.ifs.i_free(i) {
            Ok(v) => Ok(v),
            Err(e) => Err(InodeRWError::Inode(e)),
        }
    }

    /// Truncates `inode` to size zero: checks that it matches what is on disk,
    /// frees its data blocks (as in the inode layer), clears
    /// its block pointers and writes it back.
    pub fn i_trunc(&mut self, inode: &mut Inode) -> (r: Result<(), InodeRWError>)
        requires
            old(self).inv(),
            inode_usable(old(self).sb(), old(inode).inum as int),
        ensures
            final(self).inv(),
            final(self).sb() == old(self).sb(),
            final(inode).inum == old(inode).inum,
            r matches Err(InodeRWError::Inode(InodeError::Bounds)) <==> !inode_in_range(old(self).sb(), old(inode).inum as int),
            r matches Err(InodeRWError::Inode(InodeError::API(_))) <==> inode_in_range(old(self).sb(), old(inode).inum as int)
                && disk_inode(old(self).disk(), old(self).sb(), old(inode).inum as int) is None,
            r matches Err(InodeRWError::Inode(InodeError::Trunc(_))) <==> inode_in_range(old(self).sb(), old(inode).inum as int)
                && disk_inode(old(self).disk(), old(self).sb(), old(inode).inum as int) is Some
                && disk_inode(old(self).disk(), old(self).sb(), old(inode).inum as int) != Some(old(inode).disk_node@),
            !(inode_in_range(old(self).sb(), old(inode).inum as int) && disk_inode(old(self).disk(), old(self).sb(), old(inode).inum as int) == Some(old(inode).disk_node@))
                ==> final(self).disk() == old(self).disk() && *final(inode) == *old(inode),
            inode_in_range(old(self).sb(), old(inode).inum as int) && disk_inode(old(self).disk(), old(self).sb(), old(inode).inum as int) == Some(old(inode).disk_node@) ==> ({
                let d = old(inode).disk_node@;
                let s = blocks_to_free(d.size, d.blocks, old(self).sb());
                let c = free_count(old(self).disk(), old(self).sb(), s);
                let fd = free_all(old(self).disk(), old(self).sb(), s);
                &&& c < s.len() ==> final(self).disk() == fd && (r matches Err(InodeRWError::Inode(InodeError::Block(_)))) && *final(inode) == *old(inode)
                &&& (r matches Err(InodeRWError::Inode(InodeError::Block(BlockError::Bounds(_)))) <==> c < s.len() && s[c as int] >= old(self).sb().ndatablocks)
                &&& (r matches Err(InodeRWError::Inode(InodeError::Block(BlockError::Allocation(_)))) <==> c < s.len() && s[c as int] < old(self).sb().ndatablocks && !bitmap_bit(fd, old(self).sb(), s[c as int] as int))
                &&& c == s.len() ==> {
                    &&& r is Ok
                    &&& final(inode).disk_node@ == DInodeView { ft: d.ft, nlink: d.nlink, size: 0, blocks: no_blocks() }
                    &&& inode_written(fd, final(self).disk(), old(self).sb(), old(inode).inum as int, final(inode).disk_node@)
                }
            }),
    {
        match self.ifs.i_trunc(inode) {
            Ok(v) => Ok(v),
            Err(e) => Err(InodeRWError::Inode(e)),
        }
    }

    /// Allocates the free inode with the lowest number among `1 .. ninodes`:
    /// gives it kind `ft`, size zero and no blocks (its link count is kept), and
    /// returns its number. Fails when no inode in that range is free.
    pub fn i_alloc(&mut self, ft: FType) -> (r: Result<u64, InodeRWError>)
        requires
            old(self).inv(),
            forall|j: int| 1 <= j < old(self).sb().ninodes && (forall|k: int| 1 <= k < j ==> #[trigger] used_inode(old(self).disk(), old(self).sb(), k))
                ==> #[trigger] disk_inode(old(self).disk(), old(self).sb(), j) is Some,
        ensures
            final(self).inv(),
            final(self).sb() == old(self).sb(),
            r is Ok <==> exists|j: int| 1 <= j < old(self).sb().ninodes && #[trigger] free_inode(old(self).disk(), old(self).sb(), j),
            r matches Ok(j) ==> {
                &&& 1 <= j < old(self).sb().ninodes
                &&& free_inode(old(self).disk(), old(self).sb(), j as int)
                &&& forall|k: int| 1 <= k < j ==> #[trigger] used_inode(old(self).disk(), old(self).sb(), k)
                &&& inode_written(old(self).disk(), final(self).disk(), old(self).sb(), j as int, DInodeView {
                    ft,
                    nlink: disk_inode(old(self).disk(), old(self).sb(), j as int).unwrap().nlink,
                    size: 0,
                    blocks: no_blocks(),
                })
            },
            r is Err ==> (r matches Err(InodeRWError::Inode(InodeError::Alloc(_)))) && final(self).disk() == old(self).disk(),
    {
        match self.ifs.i_alloc(ft) {
            Ok(v) => Ok(v),
            Err(e) => Err(InodeRWError::Inode(e)),
        }
    }

    /// Whether `sb` is a valid superblock (as in the inode layer).
    pub fn sb_valid(sb: &SuperBlock) -> (r: bool)
        ensures
            r == sb_valid_spec(*sb),
    {
        EsFS2::sb_valid(sb)
    }

    /// Creates a file system described by `sb` on a fresh zeroed device, with
    /// the superblock in block 0 and every inode free.
    pub fn mkfs(sb: &SuperBlock) -> (r: Result<EsFS21, InodeRWError>)
        ensures
            r is Ok <==> sb_usable(*sb),
            r matches Ok(fs) ==> {
                &&& fs.inv()
                &&& fs.sb() == *sb
                &&& superblock_at(fs.disk()[0], 0) == *sb
                &&& forall|j: int| 0 <= j < sb.ninodes ==> #[trigger] disk_inode(fs.disk(), *sb, j) == Some(free_dinode())
                &&& forall|b: int| 1 <= b < sb.nblocks && !(sb.inodestart <= b < sb.bmapstart) ==> #[trigger] fs.disk()[b] == zeros(sb.block_size as nat)
            },
            r is Err ==> r matches Err(InodeRWError::Inode(InodeError::Block(BlockError::InitError(_)))),
    {
        match EsFS2::mkfs(sb) {
            Ok(ifs) => Ok(EsFS21 { ifs }),
            Err(e) => Err(InodeRWError::Inode(e)),
        }
    }

    /// Mounts the file system on `dev` (as in the inode layer).
    pub fn mountfs(dev: Device) -> (r: Result<EsFS21, InodeRWError>)
        requires
            dev.well_formed(),
            dev.nb() * (8 * dev.bs()) <= u64::MAX,
        ensures
            r matches Ok(fs) ==> fs.inv() && fs.disk() == dev@ && fs.sb() == superblock_at(dev@[0], 0),
            r is Ok <==> {
                &&& dev.nb() > 0
                &&& SUPERBLOCK_SIZE <= dev.bs()
                &&& sb_valid_spec(superblock_at(dev@[0], 0))
                &&& superblock_at(dev@[0], 0).block_size == dev.bs()
                &&& superblock_at(dev@[0], 0).nblocks == dev.nb()
            },
            r is Err ==> r matches Err(InodeRWError::Inode(InodeError::Block(_))),
    {
        match EsFS2::mountfs(dev) {
            Ok(ifs) => Ok(EsFS21 { ifs }),
            Err(e) => Err(InodeRWError::Inode(e)),
        }
    }

    /// Gives the device back.
    pub fn unmountfs(self) -> (d: Device)
        requires
            self.inv(),
        ensures
            d.well_formed(),
            d@ == self.disk(),
            d.bs() == self.sb().block_size,
            d.nb() == self.sb().nblocks,
    {
        self.ifs.unmountfs()
    }
}


/// Walks the data blocks of an inode in order for writing, from a given block
/// index on, allocating a block where the inode has none. It holds the block
/// it is at, which goes back to the device when it moves on or is flushed.
pub struct InodeBlockMutIter {
    /// Index of the next block pointer.
    pub i: u64,
    /// The block it is at; block number zero stands for none yet.
    pub curr_b: Block,
}

impl InodeBlockMutIter {
    /// The held block, if any, can be written back to `fs`.
    pub open spec fn fits(&self, fs: &EsFS21) -> bool {
        self.curr_b.block_no != 0 ==> self.curr_b.block_no < fs.sb().nblocks && self.curr_b@.len()
            == fs.sb().block_size
    }

    /// An iterator that starts at block index `start_block`, holding no block.
    pub fn new(start_block: u64) -> (it: InodeBlockMutIter)
        ensures
            it.i == start_block,
            it.curr_b.block_no == 0,
    {
        InodeBlockMutIter { i: start_block, curr_b: Block::new_zero(0, 0) }
    }

    /// Writes the held block back to the device.
    pub fn flush(self, fs: &mut EsFS21) -> (r: Result<(), InodeRWError>)
        requires
            old(fs).inv(),
        ensures
            final(fs).inv(),
            final(fs).sb() == old(fs).sb(),
            r is Ok <==> self.curr_b.block_no < old(fs).sb().nblocks && self.curr_b@.len() == old(fs).sb().block_size,
            r is Ok ==> final(fs).disk() == old(fs).disk().update(self.curr_b.block_no as int, self.curr_b@),
            r is Err ==> final(fs).disk() == old(fs).disk(),
    {
        fs.b_put(&self.curr_b)
    }

    /// Writes the held block back, then moves to block index `i` of `ino`: when
    /// its pointer is zero, allocates the lowest free data block for it and
    /// records it in `ino`. Gives `None` at the end of the pointer array, or
    /// when a block is needed and none is free.
    pub fn next(&mut self, fs: &mut EsFS21, ino: &mut Inode) -> (r: Option<()>)
        requires
            old(fs).inv(),
            old(self).fits(old(fs)),
            old(self).i <= 12,
            ptr(old(ino).disk_node@, old(self).i as int) < old(fs).sb().nblocks,
        ensures
            ({
                let e = with_pending(old(fs).disk(), old(self).curr_b);
                let sb = old(fs).sb();
                let i = old(self).i as int;
                let p = ptr(old(ino).disk_node@, i);
                let q = ptr(final(ino).disk_node@, i);
                &&& final(fs).inv()
                &&& final(fs).sb() == sb
                &&& final(self).fits(final(fs))
                &&& final(ino).inum == old(ino).inum
                &&& final(ino).disk_node.ft == old(ino).disk_node.ft
                &&& final(ino).disk_node.nlink == old(ino).disk_node.nlink
                &&& final(ino).disk_node.size == old(ino).disk_node.size
                &&& (r is None <==> i == 12 || (p == 0 && !(exists|g: int| 0 <= g < sb.ndatablocks && !#[trigger] bitmap_bit(e, sb, g))))
                &&& r is None ==> final(fs).disk() == e && *final(ino) == *old(ino) && final(self).i == old(self).i
                    && with_pending(final(fs).disk(), final(self).curr_b) == e
                &&& r is Some ==> final(self).i == i + 1 && final(self).curr_b.block_no == q && final(self).curr_b@
                    == final(fs).disk()[q as int]
                &&& r is Some && p != 0 ==> final(fs).disk() == e && *final(ino) == *old(ino)
                &&& r is Some && p == 0 ==> {
                    &&& final(ino).disk_node@.blocks == old(ino).disk_node@.blocks.update(i, q)
                    &&& sb.datastart <= q < sb.datastart + sb.ndatablocks
                    &&& !bitmap_bit(e, sb, q - sb.datastart)
                    &&& forall|h: int| 0 <= h < q - sb.datastart ==> #[trigger] bitmap_bit(e, sb, h)
                    &&& final(fs).disk() == disk_with_zero_block(disk_with_bit(e, sb, q - sb.datastart, true), sb, q as int)
                }
            }),
    {
        let ghost e = with_pending(fs.disk(), self.curr_b);
        if self.curr_b.block_no != 0 {
            match fs.b_put(&self.curr_b) {
                Ok(()) => {},
                Err(_) => return None,
            }
        }
        assert(fs.disk() == e);
        assert(with_pending(fs.disk(), self.curr_b) =~= e);
        if self.i == DIRECT_POINTERS {
            return None;
        }
        let mut b_i = ino.get_block(self.i);
        if b_i == 0 {
            let g = match fs.b_alloc() {
                Ok(g) => g,
                Err(_) => return None,
            };
            let sb = fs.sb_value();
            b_i = g + sb.datastart;
            ino.disk_node.direct_blocks[self.i as usize] = b_i;
        }
        self.curr_b = match fs.b_get(b_i) {
            Ok(b) => b,
            Err(_) => return None,
        };
        self.i = self.i + 1;
        Some(())
    }
}

impl EsFS21 {
    /// The cached superblock, as a value.
    pub(crate) fn sb_value(&self) -> (r: SuperBlock)
        ensures
            r == self.sb(),
    {
        self.ifs.sb_value()
    }
}


impl EsFS21 {
    /// Writes the first `n` bytes of `buf` into the data of `inode` from offset
    /// `off` on, block by block, allocating the lowest free data block for each
    /// piece whose pointer is zero, in pointer order (see [`write_range_count`]
    /// for the pieces and [`lowest_taken`] for the order),
    /// and grows the inode, writing it back, when the bytes end past its size.
    /// Fails, changing nothing, when the buffer holds fewer than `n` bytes
    /// (`RW`), when the bytes would end past the blocks an inode can have
    /// (`OutOfBlocks`), or when `off` lies past the end of the inode (`RW`).
    /// Otherwise fails with `OutOfBlocks` exactly when the pieces need more
    /// blocks than the bitmap has free (past the checks they never reach past
    /// the pointer array, see [`lemma_pieces_fit`]), and with the
    /// inode layer's `Bounds` when the inode must grow and its number is out of
    /// range. The outcome past the first three checks is stated whenever the
    /// pointers the pieces meet can be written through and are distinct, and,
    /// when the inode grows, none of them is the block that holds the inode
    /// (see [`write_meets_ok`] and [`write_met_done`]); pointers the write does
    /// not meet do not matter. With two met pointers naming one block, a met
    /// pointer into the bitmap, or a met unmarked data block that allocation
    /// may hand out again, the bytes written need not read back, and nothing
    /// is stated past the checks. For an inode whose block pointers are all
    /// sound (see [`blocks_sound`]) the other files' blocks and inodes are
    /// stated unchanged as well (see [`write_done`]). Once the first three
    /// checks pass, the pointers the pieces meet must lie on the device.
    pub fn i_write(&mut self, inode: &mut Inode, buf: &Buffer, off: u64, n: u64) -> (r: Result<(), InodeRWError>)
        requires
            old(self).inv(),
            buf@.len() >= n ==> off + n <= u64::MAX && off + n <= usize::MAX,
            buf@.len() >= n && off + n <= 12 * old(self).sb().block_size && off <= old(inode).disk_node.size && n > 0
                ==> inode_usable(old(self).sb(), old(inode).inum as int),
            buf@.len() >= n && off + n <= 12 * old(self).sb().block_size && off <= old(inode).disk_node.size
                ==> pieces_on_device(old(self).sb(), old(inode).disk_node@, off as int, n as int),
        ensures
            final(self).inv(),
            final(self).sb() == old(self).sb(),
            final(inode).inum == old(inode).inum,
            ({
                let sb = old(self).sb();
                let bs = sb.block_size as int;
                let d0 = old(inode).disk_node@;
                let first = off as int / bs;
                let nr = write_range_count(n as int, off as int % bs, bs);
                let short = first + nr > 12 || missing_ptrs(d0, first, first + nr) > free_below(old(self).disk(), sb, sb.ndatablocks as int);
                let unchanged = final(self).disk() == old(self).disk() && *final(inode) == *old(inode);
                &&& buf@.len() < n ==> (r matches Err(InodeRWError::RW(_))) && unchanged
                &&& buf@.len() >= n && 12 * bs < off + n ==> (r matches Err(InodeRWError::OutOfBlocks(_))) && unchanged
                &&& buf@.len() >= n && off + n <= 12 * bs && d0.size < off ==> (r matches Err(InodeRWError::RW(_))) && unchanged
                &&& buf@.len() >= n && off + n <= 12 * bs && off <= d0.size && n == 0 ==> r is Ok && unchanged
                &&& buf@.len() >= n && off + n <= 12 * bs && off <= d0.size && n > 0
                    && write_meets_ok(old(self).disk(), sb, d0, old(inode).inum as int, off as int, n as int) ==> {
                    &&& (r matches Err(InodeRWError::OutOfBlocks(_)) <==> short)
                    &&& (r matches Err(InodeRWError::OutOfBlocks(_)) <==> missing_ptrs(d0, first, first + nr) > free_below(old(self).disk(), sb, sb.ndatablocks as int))
                    &&& (r matches Err(InodeRWError::Inode(InodeError::Bounds)) <==> !short && d0.size < off + n
                        && !inode_in_range(sb, old(inode).inum as int))
                    &&& (r is Ok <==> !short && (d0.size < off + n ==> inode_in_range(sb, old(inode).inum as int)))
                    &&& r is Ok ==> write_met_done(old(self).disk(), d0, final(self).disk(), final(inode).disk_node@, sb,
                        old(inode).inum as int, off as int, n as int, buf@)
                    &&& r is Ok ==> lowest_taken(old(self).disk(), d0, final(inode).disk_node@, sb, first, first + nr)
                }
                &&& buf@.len() >= n && off + n <= 12 * bs && off <= d0.size && n > 0 && blocks_sound(old(self).disk(), sb, d0) ==> {
                    &&& write_meets_ok(old(self).disk(), sb, d0, old(inode).inum as int, off as int, n as int)
                    &&& r is Ok ==> write_done(old(self).disk(), d0, final(self).disk(), final(inode).disk_node@, sb,
                        old(inode).inum as int, off as int, n as int, buf@)
                    &&& r is Err ==> blocks_sound(final(self).disk(), sb, final(inode).disk_node@)
                }
            }),
    {
        let ghost d0 = inode.disk_node@;
        let ghost disk0 = self.disk();
        if buf.len() < n {
            return Err(InodeRWError::RW("buffer is smaller than number of bytes to write."));
        }
        let sb = self.sb_value();
        proof {
            crate::a_block_support::lemma_sb_bounds(sb);
            assert(sb.nblocks >= 3);
            assert(DIRECT_POINTERS * sb.block_size <= sb.nblocks * (8 * sb.block_size)) by (nonlinear_arith)
                requires
                    sb.nblocks >= 3,
            ;
        }
        if DIRECT_POINTERS * sb.block_size < off + n {
            return Err(InodeRWError::OutOfBlocks("not enough blocks can be assigned to inode to write all data."));
        }
        if inode.get_size() < off {
            return Err(InodeRWError::RW("write would make inode data non contiguous."));
        }
        if n == 0 {
            return Ok(());
        }
        let ghost bs = sb.block_size as int;
        let ghost io = off as int % bs;
        let ghost first = off as int / bs;
        let ghost nr = write_range_count(n as int, io, bs);
        proof {
            assert(off as usize as int == off);
            assert(n as usize as int == n);
            crate::write_model::lemma_pieces_fit(off as int, n as int, bs);
            lemma_wr_facts(n as int, io, bs, 0);
            vstd::arithmetic::div_mod::lemma_div_pos_is_pos(off as int, bs);
            vstd::arithmetic::div_mod::lemma_mod_bound(off as int, bs);
            vstd::arithmetic::div_mod::lemma_fundamental_div_mod(off as int, bs);
        }
        let (ranges, skip_blocks, init_off) = self.generate_writing_ranges(n as usize, off as usize);
        let mut it = InodeBlockMutIter::new(skip_blocks);
        let contents = buf.contents_as_ref();
        let mut ri: usize = 0;
        proof {
            if blocks_sound(disk0, sb, d0) {
                crate::write_model::lemma_sound_meets(disk0, sb, d0, inode.inum as int, off as int, n as int);
            }
            assert(missing_ptrs(d0, first, first) == 0);
            assert forall|x: int| !#[trigger] crate::write_model::newly(d0, d0, first, first, x) by {}
            assert forall|x: int| !#[trigger] crate::write_model::pointed(d0, first, first, x) by {}
            assert(with_pending(self.disk(), it.curr_b) == disk0);
            assert(first < 12) by (nonlinear_arith)
                requires
                    off + n <= 12 * bs,
                    n > 0,
                    first == off as int / bs,
                    off as int == bs * first + io,
                    0 <= io,
                    bs > 0,
            ;
        }
        while ri < ranges.len()
            invariant
                self.inv(),
                self.sb() == sb,
                sb == old(self).sb(),
                disk0 == old(self).disk(),
                d0 == old(inode).disk_node@,
                inode.inum == old(inode).inum,
                bs == sb.block_size,
                bs > 0,
                io == off as int % bs,
                first == off as int / bs,
                first >= 0,
                first < 12,
                0 <= io < bs,
                n > 0,
                buf@.len() >= n,
                off + n <= u64::MAX,
                off + n <= 12 * bs,
                off <= d0.size,
                contents@ == buf@,
                nr == write_range_count(n as int, io, bs),
                nr == ranges@.len(),
                write_ranges_ok(ranges@, n as int, io, bs),
                skip_blocks == first,
                init_off == io,
                ri <= nr,
                first + nr <= 12,
                it.i == first + ri,
                first + ri <= 12,
                it.curr_b.block_no == if ri == 0 {
                    0
                } else {
                    ptr(inode.disk_node@, first + ri - 1)
                },
                it.fits(self),
                pieces_on_device(sb, d0, off as int, n as int),
                forall|j: int| first + ri <= j < first + nr ==> #[trigger] ptr(inode.disk_node@, j) == ptr(d0, j),
                write_meets_ok(disk0, sb, d0, inode.inum as int, off as int, n as int) ==> write_state(with_pending(self.disk(), it.curr_b), inode.disk_node@, disk0, d0, sb, off as int, n as int, buf@, ri as int),
                write_meets_ok(disk0, sb, d0, inode.inum as int, off as int, n as int) ==> lowest_taken(disk0, d0, inode.disk_node@, sb, first, first + ri),
                blocks_sound(disk0, sb, d0) ==> write_meets_ok(disk0, sb, d0, inode.inum as int, off as int, n as int),
            decreases nr - ri,
        {
            let ghost e0 = with_pending(self.disk(), it.curr_b);
            let ghost dd = inode.disk_node@;
            let ghost sound = blocks_sound(disk0, sb, d0);
            let ghost meets = write_meets_ok(disk0, sb, d0, inode.inum as int, off as int, n as int);
            proof {
                assert(ptr(dd, it.i as int) == ptr(d0, it.i as int));
                assert(ptr(d0, it.i as int) < sb.nblocks);
            }
            match it.next(self, inode) {
                Some(()) => {},
                None => {
                    proof {
                        if meets {
                            if it.i != 12 {
                                assert forall|h: int| 0 <= h < sb.ndatablocks implies #[trigger] bitmap_bit(e0, sb, h) by {}
                            }
                            lemma_write_fail(e0, dd, disk0, d0, sb, off as int, n as int, buf@, ri as int);
                        }
                        if sound {
                            crate::write_model::lemma_state_sound(e0, dd, disk0, d0, sb, off as int, n as int, buf@, ri as int);
                        }
                    }
                    return Err(InodeRWError::OutOfBlocks("filesystem may be out of blocks"));
                },
            }
            let ghost q = ptr(inode.disk_node@, first + ri) as int;
            let start = ranges[ri].start;
            let end = ranges[ri].end;
            proof {
                lemma_wr_facts(n as int, io, bs, ri as int);
            }
            let slice = vstd::slice::slice_subrange(contents, start, end);
            let o: u64 = if ri == 0 {
                init_off
            } else {
                0
            };
            match it.curr_b.write_data(slice, o) {
                Ok(()) => {},
                Err(e) => return Err(InodeRWError::API(e)),
            }
            proof {
                assert(slice@ == buf@.subrange(wr_start(ri as int, io, bs), wr_end(ri as int, n as int, io, bs)));
                if meets {
                    lemma_write_step(e0, dd, with_pending(self.disk(), it.curr_b), inode.disk_node@, disk0, d0, sb, off as int, n as int, buf@, ri as int, q);
                    crate::write_model::lemma_lowest_step(disk0, d0, dd, inode.disk_node@, e0, sb, first, first + ri);
                }
                assert forall|j: int| first + ri + 1 <= j < first + nr implies #[trigger] ptr(inode.disk_node@, j) == ptr(d0, j) by {
                    assert(ptr(inode.disk_node@, j) == ptr(dd, j));
                }
            }
            ri = ri + 1;
        }
        let ghost e1 = with_pending(self.disk(), it.curr_b);
        let ghost d1 = inode.disk_node@;
        proof {
            if write_meets_ok(disk0, sb, d0, inode.inum as int, off as int, n as int) {
                assert(ptr(d1, first + nr - 1) != 0);
            }
            if blocks_sound(disk0, sb, d0) {
                crate::write_model::lemma_state_sound(e1, d1, disk0, d0, sb, off as int, n as int, buf@, nr as int);
            }
        }
        match it.flush(self) {
            Ok(()) => {},
            Err(e) => return Err(e),
        }
        if inode.get_size() < off + n {
            inode.disk_node.size = off + n;
            match self.i_put(inode) {
                Ok(()) => {},
                Err(e) => {
                    proof {
                        if blocks_sound(disk0, sb, d0) {
                            assert forall|j: int| #[trigger] ptr(inode.disk_node@, j) == ptr(d1, j) by {}
                            assert(blocks_sound(self.disk(), sb, inode.disk_node@));
                        }
                    }
                    return Err(e);
                },
            }
        }
        proof {
            if write_meets_ok(disk0, sb, d0, inode.inum as int, off as int, n as int) {
                lemma_write_finish(e1, d1, self.disk(), inode.disk_node@, disk0, d0, sb, inode.inum as int, off as int, n as int, buf@);
                assert forall|j: int| #[trigger] ptr(inode.disk_node@, j) == ptr(d1, j) by {}
                assert forall|j: int, x: int| #[trigger] crate::write_model::newly(d0, d1, first, j, x)
                    == crate::write_model::newly(d0, inode.disk_node@, first, j, x) by {
                    if crate::write_model::newly(d0, d1, first, j, x) {
                        let w = choose|w: int| first <= w < j && ptr(d0, w) == 0 && #[trigger] ptr(d1, w) == x;
                        assert(ptr(inode.disk_node@, w) == x);
                    }
                    if crate::write_model::newly(d0, inode.disk_node@, first, j, x) {
                        let w = choose|w: int| first <= w < j && ptr(d0, w) == 0 && #[trigger] ptr(inode.disk_node@, w) == x;
                        assert(ptr(d1, w) == x);
                    }
                }
            }
            if blocks_sound(disk0, sb, d0) {
                crate::write_model::lemma_done_sound(disk0, d0, self.disk(), inode.disk_node@, sb, inode.inum as int, off as int, n as int, buf@);
            }
        }
        Ok(())
    }
}


/// Reading back what was written: after a successful write of `buf[0 .. n]` at
/// `off`, a read of `n` bytes at `off` into a buffer of at least `n` bytes
/// copies all `n` (they lie before the end of the inode), meets only present
/// blocks that lie on the device, and finds exactly the bytes of `buf`.
pub proof fn lemma_write_read_back(
    d0_disk: Seq<Seq<u8>>,
    d0: DInodeView,
    d1_disk: Seq<Seq<u8>>,
    d1: DInodeView,
    sb: SuperBlock,
    inum: int,
    off: u64,
    n: u64,
    buf: Seq<u8>,
    buf_len: u64,
)
    requires
        sb_valid_spec(sb),
        sb.nblocks * (8 * sb.block_size) <= u64::MAX,
        n > 0,
        buf_len >= n,
        write_met_done(d0_disk, d0, d1_disk, d1, sb, inum, off as int, n as int, buf),
    ensures
        ({
            let bs = sb.block_size as int;
            let first = off as int / bs;
            let nb = blocks_spanned(off as int, n as int, bs);
            &&& off <= d1.size
            &&& bytes_to_read(d1.size, buf_len, off, n) == n
            &&& all_present(d1, first, first + nb - 1)
            &&& reads_ok(d1, sb.nblocks, first, first + nb - 1)
            &&& forall|k: int| 0 <= k < n ==> #[trigger] file_byte(d1_disk, bs, d1, off + k) == buf[k]
        }),
{
    let bs = sb.block_size as int;
    let io = off as int % bs;
    let first = off as int / bs;
    let init_n = bs - io;
    let nr = write_range_count(n as int, io, bs);
    let nb = blocks_spanned(off as int, n as int, bs);
    crate::a_block_support::lemma_sb_bounds(sb);
    vstd::arithmetic::div_mod::lemma_mod_bound(off as int, bs);
    if n < init_n {
        assert(nb == 1) by {
            vstd::arithmetic::div_mod::lemma_fundamental_div_mod_converse(io + n, bs, 0, io + n);
        }
    } else if n == init_n {
        assert(nb == 1) by {
            vstd::arithmetic::div_mod::lemma_fundamental_div_mod_converse(io + n, bs, 1, 0);
        }
    } else {
        let x = n - init_n;
        vstd::arithmetic::div_mod::lemma_fundamental_div_mod(x, bs);
        assert(io + n == (x / bs + 1) * bs + x % bs) by (nonlinear_arith)
            requires
                x == bs * (x / bs) + x % bs,
                io + n == bs + x,
        ;
        vstd::arithmetic::div_mod::lemma_fundamental_div_mod_converse(io + n, bs, x / bs + 1, x % bs);
        assert(nb == nr);
    }
    assert forall|j: int| first <= j <= first + nb - 1 implies #[trigger] ptr(d1, j) != 0 by {}
    assert forall|j: int| first <= j <= first + nb - 1 && all_present(d1, first, j - 1) implies #[trigger] ptr(d1, j) < sb.nblocks by {
        assert(ptr(d1, j) != 0);
        if !(0 <= j < 12) {
            assert(ptr(d1, j) == 0);
        }
    }
}

} // verus!
