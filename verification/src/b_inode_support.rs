//! The inode layer: inodes stored in the inode region, on top of the block layer.
use vstd::prelude::*;
use vstd::relations::{sorted_by, total_ordering};
use crate::types::{
    APIError, DInode, DInodeView, FType, Inode, SuperBlock, DINODE_SIZE, DIRECT_POINTERS,
    SUPERBLOCK_SIZE, dinode_at, superblock_at,
};
use crate::blocks::{Block, Device, zeros};
use crate::a_block_support::{
    sb_usable, sb_fits_device,
    EsFS1, BlockError, ceil_div, inodes_per_block, inode_blocks, sb_valid_spec, bitmap_bit,
    disk_with_bit, bmap_block_of, disk_with_zero_block, lemma_bitmap_block_in_region,
    lemma_sb_bounds,
};
use crate::utils::div_rem;

verus! {

/// Whether inode number `i` may be addressed: a number below `ninodes`, or 0.
pub open spec fn inode_in_range(sb: SuperBlock, i: int) -> bool {
    i < sb.ninodes || i == 0
}

/// Addressing inode `i` needs at least one inode per block (else it divides by zero).
pub open spec fn inode_usable(sb: SuperBlock, i: int) -> bool {
    inode_in_range(sb, i) ==> inodes_per_block(sb) > 0
}

/// The block holding inode `i`.
pub open spec fn inode_block_of(sb: SuperBlock, i: int) -> int {
    sb.inodestart + i / inodes_per_block(sb)
}

/// The byte offset of inode `i` inside its block.
pub open spec fn inode_offset(sb: SuperBlock, i: int) -> int {
    (i % inodes_per_block(sb)) * DINODE_SIZE
}

/// The disk inode `i` as stored on `disk`, if it decodes.
pub open spec fn disk_inode(disk: Seq<Seq<u8>>, sb: SuperBlock, i: int) -> Option<DInodeView> {
    dinode_at(disk[inode_block_of(sb, i)], inode_offset(sb, i))
}

/// `new` is `old` with the encoding of `d` written as inode `i`, every other byte unchanged.
pub open spec fn inode_written(
    old: Seq<Seq<u8>>,
    new: Seq<Seq<u8>>,
    sb: SuperBlock,
    i: int,
    d: DInodeView,
) -> bool {
    let blk = inode_block_of(sb, i);
    let off = inode_offset(sb, i);
    &&& new.len() == old.len()
    &&& forall|b: int| 0 <= b < old.len() && b != blk ==> #[trigger] new[b] == old[b]
    &&& new[blk].len() == old[blk].len()
    &&& dinode_at(new[blk], off) == Some(d)
    &&& forall|k: int|
        0 <= k < old[blk].len() && !(off <= k < off + DINODE_SIZE) ==> #[trigger] new[blk][k]
            == old[blk][k]
}

/// For `0 <= x < n`, the block `x / d` is below the number of blocks `n` needs.
pub proof fn lemma_div_lt_ceil(x: int, n: int, d: int)
    requires
        0 <= x < n,
        d > 0,
    ensures
        0 <= x / d < ceil_div(n, d),
        (x / d + 1) * d <= ceil_div(n, d) * d,
{
    vstd::arithmetic::div_mod::lemma_fundamental_div_mod(n, d);
    vstd::arithmetic::div_mod::lemma_fundamental_div_mod(x, d);
    let q = n / d;
    let r = n % d;
    let q2 = x / d;
    let r2 = x % d;
    assert(0 <= q2 < q + if r == 0 { 0int } else { 1int }) by (nonlinear_arith)
        requires
            n == d * q + r,
            x == d * q2 + r2,
            0 <= r < d,
            0 <= r2 < d,
            0 <= x < n,
            d > 0,
    ;
    let c = ceil_div(n, d);
    assert((q2 + 1) * d <= c * d) by (nonlinear_arith)
        requires
            q2 + 1 <= c,
            d > 0,
    ;
}

/// Where inode `i` lives, for a valid superblock on a device that fits in memory.
pub proof fn lemma_inode_location(sb: SuperBlock, i: int)
    requires
        sb_valid_spec(sb),
        sb.nblocks * (8 * sb.block_size) <= u64::MAX,
        inode_in_range(sb, i),
        inodes_per_block(sb) > 0,
        0 <= i,
    ensures
        sb.inodestart <= inode_block_of(sb, i) < sb.bmapstart,
        0 <= inode_offset(sb, i),
        inode_offset(sb, i) + DINODE_SIZE <= sb.block_size,
        (i / inodes_per_block(sb)) * inodes_per_block(sb) <= i,
        i < (i / inodes_per_block(sb) + 1) * inodes_per_block(sb) <= u64::MAX,
        i % inodes_per_block(sb) == i - (i / inodes_per_block(sb)) * inodes_per_block(sb),
{
    let p = inodes_per_block(sb);
    lemma_sb_bounds(sb);
    vstd::arithmetic::div_mod::lemma_fundamental_div_mod(i, p);
    vstd::arithmetic::div_mod::lemma_fundamental_div_mod(sb.block_size as int, DINODE_SIZE as int);
    let q = i / p;
    let r = i % p;
    assert(q * p == p * q) by (nonlinear_arith);
    let nb = sb.nblocks as int;
    let bs = sb.block_size as int;
    if i < sb.ninodes {
        lemma_div_lt_ceil(i, sb.ninodes as int, p);
        assert(inode_blocks(sb) == ceil_div(sb.ninodes as int, p));
    } else {
        assert(i == 0);
        assert(q == 0) by {
            vstd::arithmetic::div_mod::lemma_div_of0(p);
        }
    }
    assert(q + 1 <= sb.bmapstart - sb.inodestart);
    assert((q + 1) * p <= nb * bs) by (nonlinear_arith)
        requires
            q + 1 <= nb,
            0 <= q,
            0 < p <= bs,
            p * 110 <= bs,
    ;
    assert(nb * bs <= nb * (8 * bs)) by (nonlinear_arith)
        requires
            nb >= 0,
            bs >= 0,
    ;
    assert(i < (q + 1) * p) by (nonlinear_arith)
        requires
            i == p * q + i % p,
            i % p < p,
    ;
    assert(r * 110 + 110 <= bs) by (nonlinear_arith)
        requires
            0 <= r < p,
            p * 110 <= bs,
    ;
}

/// Errors of the inode layer.
#[derive(Debug)]
pub enum InodeError {
    /// Error during initialisation of the file system.
    Init(&'static str),
    /// An inode number out of range.
    Bounds,
    /// Error while allocating or freeing an inode.
    Alloc(&'static str),
    /// Error while truncating an inode.
    Trunc(&'static str),
    /// Error raised by the block layer.
    Block(BlockError),
    /// Error raised by a block or the device.
    API(APIError),
}

/// A block of the inode region, with the range `il ..= ih` of inode numbers it holds.
struct InodeBlock {
    b: Block,
    il: u64,
    ih: u64,
}

/// Inode `i` in the block starting at inode `il` lies at offset `(i - il) * DINODE_SIZE`.
proof fn lemma_in_inode_block(sb: SuperBlock, il: int, i: int)
    requires
        inodes_per_block(sb) > 0,
        il % inodes_per_block(sb) == 0,
        0 <= il <= i < il + inodes_per_block(sb),
    ensures
        inode_block_of(sb, i) == inode_block_of(sb, il),
        inode_offset(sb, i) == (i - il) * DINODE_SIZE,
{
    let p = inodes_per_block(sb);
    vstd::arithmetic::div_mod::lemma_fundamental_div_mod(il, p);
    vstd::arithmetic::div_mod::lemma_fundamental_div_mod_converse(i, p, il / p, i - il);
}

impl InodeBlock {
    spec fn wf(&self, sb: SuperBlock) -> bool {
        let p = inodes_per_block(sb);
        &&& p > 0
        &&& (self.il as int) % p == 0
        &&& self.ih + 1 == self.il + p
        &&& self.b.block_no == inode_block_of(sb, self.il as int)
        &&& self.b@.len() == sb.block_size
        &&& p * DINODE_SIZE <= sb.block_size
    }

    /// Reads the block holding inode `i`; fails when `i` is out of range.
    fn new_from_inode_i(i: u64, fs: &EsFS2) -> (r: Result<InodeBlock, InodeError>)
        requires
            fs.inv(),
            inode_usable(fs.sb(), i as int),
        ensures
            r is Ok <==> inode_in_range(fs.sb(), i as int),
            r matches Ok(ib) ==> {
                &&& ib.wf(fs.sb())
                &&& ib.il <= i <= ib.ih
                &&& ib.b.block_no == inode_block_of(fs.sb(), i as int)
                &&& ib.b@ == fs.disk()[inode_block_of(fs.sb(), i as int)]
            },
            r is Err ==> r matches Err(InodeError::Bounds),
    {
        let sb = fs.bfs.sb_value();
        if i >= sb.ninodes && i != 0 {
            return Err(InodeError::Bounds);
        }
        proof {
            lemma_inode_location(sb, i as int);
        }
        let (inodes_per_block, _) = div_rem(sb.block_size, DINODE_SIZE);
        let (inode_block_num, _) = div_rem(i, inodes_per_block);
        let block = match fs.bfs.b_get(sb.inodestart + inode_block_num) {
            Ok(b) => b,
            Err(e) => return Err(InodeError::Block(e)),
        };
        let il = inode_block_num * inodes_per_block;
        let ih = (inode_block_num + 1) * inodes_per_block - 1;
        proof {
            vstd::arithmetic::div_mod::lemma_mod_multiples_basic(inode_block_num as int, inodes_per_block as int);
            lemma_in_inode_block(sb, il as int, i as int);
            assert(inodes_per_block * DINODE_SIZE <= sb.block_size) by {
                vstd::arithmetic::div_mod::lemma_fundamental_div_mod(sb.block_size as int, DINODE_SIZE as int);
            }
            assert((inode_block_num + 1) * inodes_per_block == il + inodes_per_block) by (nonlinear_arith)
                requires
                    il == inode_block_num * inodes_per_block,
            ;
        }
        Ok(InodeBlock { b: block, il, ih })
    }

    /// Byte offset of inode `i` in this block; fails when the block does not hold it.
    fn calc_off(&self, i: u64, Ghost(sb): Ghost<SuperBlock>) -> (r: Result<u64, InodeError>)
        requires
            self.wf(sb),
        ensures
            r is Ok <==> self.il <= i <= self.ih,
            r matches Ok(off) ==> {
                &&& off == inode_offset(sb, i as int)
                &&& inode_block_of(sb, i as int) == self.b.block_no
                &&& off + DINODE_SIZE <= sb.block_size
            },
            r is Err ==> r matches Err(InodeError::Bounds),
    {
        if i > self.ih || i < self.il {
            return Err(InodeError::Bounds);
        }
        proof {
            lemma_in_inode_block(sb, self.il as int, i as int);
            assert((i - self.il) * DINODE_SIZE + DINODE_SIZE <= inodes_per_block(sb) * DINODE_SIZE) by (nonlinear_arith)
                requires
                    i - self.il < inodes_per_block(sb),
            ;
        }
        Ok((i - self.il) * DINODE_SIZE)
    }

    /// Inode `i`, decoded from this block.
    fn i_get(&self, i: u64, Ghost(sb): Ghost<SuperBlock>) -> (r: Result<Inode, InodeError>)
        requires
            self.wf(sb),
        ensures
            r is Ok <==> self.il <= i <= self.ih && dinode_at(self.b@, inode_offset(sb, i as int)) is Some,
            r matches Ok(ino) ==> ino.inum == i && Some(ino.disk_node@) == dinode_at(self.b@, inode_offset(sb, i as int)),
            r matches Err(InodeError::Bounds) <==> !(self.il <= i <= self.ih),
            r matches Err(InodeError::API(_)) <==> self.il <= i <= self.ih && dinode_at(self.b@, inode_offset(sb, i as int)) is None,
    {
        let off = match self.calc_off(i, Ghost(sb)) {
            Ok(off) => off,
            Err(e) => return Err(e),
        };
        match self.b.read_dinode(off) {
            Ok(dino) => Ok(Inode { inum: i, disk_node: dino }),
            Err(e) => Err(InodeError::API(e)),
        }
    }

    /// Writes `inode` into this block; fails when the block does not hold it.
    fn i_put(&mut self, inode: &Inode, Ghost(sb): Ghost<SuperBlock>) -> (r: Result<(), InodeError>)
        requires
            old(self).wf(sb),
        ensures
            final(self).wf(sb),
            final(self).il == old(self).il,
            final(self).ih == old(self).ih,
            final(self).b.block_no == old(self).b.block_no,
            r is Ok <==> old(self).il <= inode.inum <= old(self).ih,
            r is Ok ==> {
                let off = inode_offset(sb, inode.inum as int);
                &&& final(self).b@.len() == old(self).b@.len()
                &&& dinode_at(final(self).b@, off) == Some(inode.disk_node@)
                &&& forall|k: int| 0 <= k < old(self).b@.len() && !(off <= k < off + DINODE_SIZE) ==> #[trigger] final(self).b@[k] == old(self).b@[k]
            },
            r is Err ==> final(self).b@ == old(self).b@ && (r matches Err(InodeError::Bounds)),
    {
        let off = match self.calc_off(inode.inum, Ghost(sb)) {
            Ok(off) => off,
            Err(e) => return Err(e),
        };
        match self.b.write_dinode(&inode.disk_node, off) {
            Ok(()) => Ok(()),
            Err(e) => Err(InodeError::API(e)),
        }
    }

    /// Writes this block back to disk.
    fn write_back(self, fs: &mut EsFS2) -> (r: Result<(), InodeError>)
        requires
            old(fs).inv(),
            self.b.block_no < old(fs).sb().nblocks,
            self.b@.len() == old(fs).sb().block_size,
        ensures
            final(fs).inv(),
            final(fs).sb() == old(fs).sb(),
            r is Ok,
            final(fs).disk() == old(fs).disk().update(self.b.block_no as int, self.b@),
    {
        match fs.bfs.b_put(&self.b) {
            Ok(()) => Ok(()),
            Err(e) => Err(InodeError::Block(e)),
        }
    }
}

/// Walks the inodes `1 .. ninodes` of a file system in order. It keeps the
/// block of the inode region that holds the inode it is at, and reads the next
/// block only when it walks past the kept one.
pub struct InodeIterator<'a> {
    fs: &'a EsFS2,
    i: u64,
    ib: InodeBlock,
}

impl<'a> InodeIterator<'a> {
    /// The file system walked.
    pub closed spec fn fs(&self) -> EsFS2 {
        *self.fs
    }

    /// The number of the inode the walk is at: zero before the first step,
    /// `ninodes` once it has gone past the last inode.
    pub closed spec fn pos(&self) -> u64 {
        self.i
    }

    /// Well-formedness: the kept block is a block of the inode region as it is
    /// on disk, and it holds the inode the walk is at.
    pub closed spec fn wf(&self) -> bool {
        let sb = self.fs.sb();
        &&& self.fs.inv()
        &&& sb.ninodes > 1
        &&& self.ib.wf(sb)
        &&& self.ib.b@ == self.fs.disk()[self.ib.b.block_no as int]
        &&& self.i <= sb.ninodes
        &&& 1 <= self.i < sb.ninodes ==> self.ib.il <= self.i <= self.ib.ih
    }

    /// A walk over the inodes of `fs`, before the first one.
    pub fn new(fs: &'a EsFS2) -> (it: InodeIterator<'a>)
        requires
            fs.inv(),
            fs.sb().ninodes > 1,
            inodes_per_block(fs.sb()) > 0,
        ensures
            it.wf(),
            it.fs() == *fs,
            it.pos() == 0,
    {
        let ib = match InodeBlock::new_from_inode_i(1, fs) {
            Ok(ib) => ib,
            Err(_) => {
                assert(false);
                InodeBlock { b: Block::new_zero(0, 0), il: 0, ih: 0 }
            },
        };
        InodeIterator { fs, i: 0, ib }
    }

    /// Steps to the next inode and reads it. Gives `None`, and goes past the
    /// last inode, when no inode below `ninodes` is left; also gives `None` when
    /// the bytes of the next inode do not encode an inode.
    pub fn next(&mut self) -> (r: Option<Inode>)
        requires
            old(self).wf(),
        ensures
            ({
                let fs = old(self).fs();
                let sb = fs.sb();
                let p = old(self).pos() + 1;
                &&& final(self).wf()
                &&& final(self).fs() == fs
                &&& final(self).pos() == if p < sb.ninodes {
                    p
                } else {
                    sb.ninodes as int
                }
                &&& (r is Some <==> p < sb.ninodes && disk_inode(fs.disk(), sb, p) is Some)
                &&& r matches Some(ino) ==> ino.inum == p && Some(ino.disk_node@) == disk_inode(fs.disk(), sb, p)
            }),
    {
        let ghost sb = self.fs.sb();
        let ninodes = self.fs.sb_value().ninodes;
        if self.i >= ninodes - 1 {
            self.i = ninodes;
            return None;
        }
        self.i = self.i + 1;
        proof {
            lemma_inode_location(sb, self.i as int);
        }
        match self.ib.i_get(self.i, Ghost(sb)) {
            Ok(inode) => {
                proof {
                    lemma_in_inode_block(sb, self.ib.il as int, self.i as int);
                }
                Some(inode)
            },
            Err(_) => {
                proof {
                    if self.ib.il <= self.i <= self.ib.ih {
                        lemma_in_inode_block(sb, self.ib.il as int, self.i as int);
                    }
                }
                match InodeBlock::new_from_inode_i(self.i, self.fs) {
                    Ok(ib) => {
                        self.ib = ib;
                        match self.ib.i_get(self.i, Ghost(sb)) {
                            Ok(inode) => Some(inode),
                            Err(_) => None,
                        }
                    },
                    Err(_) => None,
                }
            },
        }
    }

    /// Ends the walk, giving the inode it is at together with the block that
    /// holds it; `None` before the first step, once the walk has gone past the
    /// last inode, or when the bytes of the inode do not encode one.
    fn curr(self) -> (r: Option<(Inode, InodeBlock)>)
        requires
            self.wf(),
        ensures
            ({
                let fs = self.fs();
                let sb = fs.sb();
                let p = self.pos() as int;
                &&& (r is Some <==> 1 <= p < sb.ninodes && disk_inode(fs.disk(), sb, p) is Some)
                &&& r matches Some((ino, ib)) ==> {
                    &&& ino.inum == p
                    &&& Some(ino.disk_node@) == disk_inode(fs.disk(), sb, p)
                    &&& ib.wf(sb)
                    &&& ib.il <= p <= ib.ih
                    &&& ib.b.block_no == inode_block_of(sb, p)
                    &&& ib.b@ == fs.disk()[inode_block_of(sb, p)]
                }
            }),
    {
        let ghost sb = self.fs.sb();
        let ninodes = self.fs.sb_value().ninodes;
        if self.i == 0 || self.i >= ninodes {
            return None;
        }
        proof {
            lemma_in_inode_block(sb, self.ib.il as int, self.i as int);
        }
        match self.ib.i_get(self.i, Ghost(sb)) {
            Ok(inode) => Some((inode, self.ib)),
            Err(_) => None,
        }
    }
}

/// The file system type of this layer, under the name the other layers and
/// the tests use for it.
pub type FSName = EsFS2;

/// A file system supporting inode and block operations.
pub struct EsFS2 {
    bfs: EsFS1,
}

impl EsFS2 {
    /// The blocks of the device.
    pub closed spec fn disk(&self) -> Seq<Seq<u8>> {
        self.bfs.disk()
    }

    /// The cached superblock.
    pub closed spec fn sb(&self) -> SuperBlock {
        self.bfs.sb()
    }

    /// The block layer underneath is well formed.
    pub closed spec fn layer_ok(&self) -> bool {
        self.bfs.inv()
    }

    /// Well-formedness: a valid superblock describing the device.
    pub open spec fn inv(&self) -> bool {
        &&& self.layer_ok()
        &&& self.disk().len() == self.sb().nblocks
        &&& forall|i: int|
            0 <= i < self.disk().len() ==> #[trigger] self.disk()[i].len() == self.sb().block_size
        &&& sb_valid_spec(self.sb())
        &&& self.sb().nblocks * (8 * self.sb().block_size) <= u64::MAX
        &&& self.sb().block_size <= usize::MAX
    }
}


impl EsFS2 {
    /// Reads block `i` of the device.
    pub fn b_get(&self, i: u64) -> (r: Result<Block, InodeError>)
        requires
            self.inv(),
        ensures
            r is Ok <==> i < self.sb().nblocks,
            r matches Ok(b) ==> b.block_no == i && b@ == self.disk()[i as int],
            r is Err ==> r matches Err(InodeError::Block(BlockError::API(_))),
    {
        match self.bfs.b_get(i) {
            Ok(b) => Ok(b),
            Err(e) => Err(InodeError::Block(e)),
        }
    }

    /// Writes `b` to block `b.block_no` of the device.
    pub fn b_put(&mut self, b: &Block) -> (r: Result<(), InodeError>)
        requires
            old(self).inv(),
        ensures
            final(self).inv(),
            final(self).sb() == old(self).sb(),
            r is Ok <==> b.block_no < old(self).sb().nblocks && b@.len() == old(self).sb().block_size,
            r is Ok ==> final(self).disk() == old(self).disk().update(b.block_no as int, b@),
            r is Err ==> final(self).disk() == old(self).disk() && r matches Err(InodeError::Block(BlockError::API(_))),
    {
        match self.bfs.b_put(b) {
            Ok(()) => Ok(()),
            Err(e) => Err(InodeError::Block(e)),
        }
    }

    /// Frees data block `i` (see [`EsFS1::b_free`]).
    pub fn b_free(&mut self, i: u64) -> (r: Result<(), InodeError>)
        requires
            old(self).inv(),
        ensures
            final(self).inv(),
            final(self).sb() == old(self).sb(),
            r is Ok <==> i < old(self).sb().ndatablocks && bitmap_bit(old(self).disk(), old(self).sb(), i as int),
            r is Ok ==> final(self).disk() == disk_with_bit(old(self).disk(), old(self).sb(), i as int, false),
            r is Err ==> final(self).disk() == old(self).disk(),
            r matches Err(InodeError::Block(BlockError::Bounds(_))) <==> i >= old(self).sb().ndatablocks,
            r matches Err(InodeError::Block(BlockError::Allocation(_))) <==> i < old(self).sb().ndatablocks && !bitmap_bit(old(self).disk(), old(self).sb(), i as int),
    {
        match self.bfs.b_free(i) {
            Ok(()) => Ok(()),
            Err(e) => Err(InodeError::Block(e)),
        }
    }

    /// Zeroes data block `i` (see [`EsFS1::b_zero`]).
    pub fn b_zero(&mut self, i: u64) -> (r: Result<(), InodeError>)
        requires
            old(self).inv(),
        ensures
            final(self).inv(),
            final(self).sb() == old(self).sb(),
            r is Ok <==> i < old(self).sb().ndatablocks,
            r is Ok ==> final(self).disk() == disk_with_zero_block(old(self).disk(), old(self).sb(), old(self).sb().datastart + i),
            r is Err ==> final(self).disk() == old(self).disk() && r matches Err(InodeError::Block(BlockError::Bounds(_))),
    {
        match self.bfs.b_zero(i) {
            Ok(()) => Ok(()),
            Err(e) => Err(InodeError::Block(e)),
        }
    }

    /// Allocates the free data block with the lowest index (see [`EsFS1::b_alloc`]).
    pub fn b_alloc(&mut self) -> (r: Result<u64, InodeError>)
        requires
            old(self).inv(),
        ensures
            final(self).inv(),
            final(self).sb() == old(self).sb(),
            r is Ok <==> exists|g: int| 0 <= g < old(self).sb().ndatablocks && !bitmap_bit(old(self).disk(), old(self).sb(), g),
            r matches Ok(g) ==> {
                &&& g < old(self).sb().ndatablocks
                &&& !bitmap_bit(old(self).disk(), old(self).sb(), g as int)
                &&& forall|h: int| 0 <= h < g ==> #[trigger] bitmap_bit(old(self).disk(), old(self).sb(), h)
                &&& final(self).disk() == disk_with_zero_block(
                    disk_with_bit(old(self).disk(), old(self).sb(), g as int, true),
                    old(self).sb(),
                    old(self).sb().datastart + g,
                )
            },
            r is Err ==> (r matches Err(InodeError::Block(BlockError::Allocation(_)))) && final(self).disk() == old(self).disk(),
    {
        match self.bfs.b_alloc() {
            Ok(g) => Ok(g),
            Err(e) => Err(InodeError::Block(e)),
        }
    }

    /// The cached superblock, as a value.
    pub fn sb_value(&self) -> (r: SuperBlock)
        ensures
            r == self.sb(),
    {
        self.bfs.sb_value()
    }

    /// The cached superblock.
    pub fn sup_get(&self) -> (r: Result<SuperBlock, InodeError>)
        ensures
            r == Ok::<SuperBlock, InodeError>(self.sb()),
    {
        Ok(self.bfs.sb_value())
    }

    /// Block size of the device.
    pub closed spec fn dev_bs(&self) -> u64 {
        self.bfs.dev_bs()
    }

    /// Number of blocks of the device.
    pub closed spec fn dev_nb(&self) -> u64 {
        self.bfs.dev_nb()
    }

    /// The device holds `dev_nb()` blocks of `dev_bs()` bytes each, whatever
    /// the cached superblock says.
    pub open spec fn dev_ok(&self) -> bool {
        &&& self.disk().len() == self.dev_nb()
        &&& forall|i: int| 0 <= i < self.disk().len() ==> #[trigger] self.disk()[i].len() == self.dev_bs()
        &&& self.dev_nb() > 0 ==> self.dev_bs() <= usize::MAX
    }

    /// Replaces the superblock, in the cache and in block 0 (see
    /// [`EsFS1::sup_put`]): any superblock is taken, and the file system is
    /// well formed afterwards exactly when the new one describes the device.
    pub fn sup_put(&mut self, sup: &SuperBlock) -> (r: Result<(), InodeError>)
        requires
            old(self).dev_ok(),
        ensures
            final(self).dev_ok(),
            final(self).dev_bs() == old(self).dev_bs(),
            final(self).dev_nb() == old(self).dev_nb(),
            final(self).sb() == *sup,
            final(self).inv() <==> sb_fits_device(*sup, old(self).dev_bs(), old(self).dev_nb()),
            r is Ok <==> 0 < old(self).dev_nb() && SUPERBLOCK_SIZE <= old(self).dev_bs(),
            r is Ok ==> final(self).disk() == old(self).disk().update(0, final(self).disk()[0]),
            r is Ok ==> superblock_at(final(self).disk()[0], 0) == *sup,
            r is Ok ==> forall|k: int|
                SUPERBLOCK_SIZE <= k < old(self).dev_bs() ==> #[trigger] final(self).disk()[0][k] == old(self).disk()[0][k],
            r is Err ==> final(self).disk() == old(self).disk(),
    {
        match self.bfs.sup_put(sup) {
            Ok(v) => Ok(v),
            Err(e) => Err(InodeError::Block(e)),
        }
    }

    /// Reads inode `i`. Fails when `i` is out of range or its bytes do not
    /// encode an inode.
    pub fn i_get(&self, i: u64) -> (r: Result<Inode, InodeError>)
        requires
            self.inv(),
            inode_usable(self.sb(), i as int),
        ensures
            r is Ok <==> inode_in_range(self.sb(), i as int) && disk_inode(self.disk(), self.sb(), i as int) is Some,
            r matches Ok(ino) ==> ino.inum == i && Some(ino.disk_node@) == disk_inode(self.disk(), self.sb(), i as int),
            r matches Err(InodeError::Bounds) <==> !inode_in_range(self.sb(), i as int),
            r matches Err(InodeError::API(_)) <==> inode_in_range(self.sb(), i as int) && disk_inode(self.disk(), self.sb(), i as int) is None,
    {
        let inode_block = match InodeBlock::new_from_inode_i(i, self) {
            Ok(ib) => ib,
            Err(e) => return Err(e),
        };
        inode_block.i_get(i, Ghost(self.sb()))
    }

    /// Writes `ino` as inode `ino.inum`. Fails when the number is out of range.
    pub fn i_put(&mut self, ino: &Inode) -> (r: Result<(), InodeError>)
        requires
            old(self).inv(),
            inode_usable(old(self).sb(), ino.inum as int),
        ensures
            final(self).inv(),
            final(self).sb() == old(self).sb(),
            r is Ok <==> inode_in_range(old(self).sb(), ino.inum as int),
            r is Ok ==> inode_written(old(self).disk(), final(self).disk(), old(self).sb(), ino.inum as int, ino.disk_node@),
            r is Err ==> final(self).disk() == old(self).disk() && (r matches Err(InodeError::Bounds)),
    {
        let ghost sb = self.sb();
        let mut inode_block = match InodeBlock::new_from_inode_i(ino.inum, self) {
            Ok(ib) => ib,
            Err(e) => return Err(e),
        };
        proof { lemma_inode_location(sb, ino.inum as int); }
        match inode_block.i_put(ino, Ghost(sb)) {
            Ok(()) => {},
            Err(e) => return Err(e),
        }
        inode_block.write_back(self)
    }
}

/// Reading an inode back after writing it gives what was written, and every
/// other inode reads as before.
pub proof fn lemma_inode_write_read(
    old: Seq<Seq<u8>>,
    new: Seq<Seq<u8>>,
    sb: SuperBlock,
    i: int,
    d: DInodeView,
    j: int,
)
    requires
        sb_valid_spec(sb),
        sb.nblocks * (8 * sb.block_size) <= u64::MAX,
        old.len() == sb.nblocks,
        forall|b: int| 0 <= b < old.len() ==> #[trigger] old[b].len() == sb.block_size,
        0 <= i,
        0 <= j,
        inode_in_range(sb, i),
        inode_in_range(sb, j),
        inodes_per_block(sb) > 0,
        inode_written(old, new, sb, i, d),
    ensures
        disk_inode(new, sb, j) == if j == i {
            Some(d)
        } else {
            disk_inode(old, sb, j)
        },
{
    lemma_inode_location(sb, i);
    lemma_inode_location(sb, j);
    let bi = inode_block_of(sb, i);
    let bj = inode_block_of(sb, j);
    if j != i && bj == bi {
        let p = inodes_per_block(sb);
        vstd::arithmetic::div_mod::lemma_fundamental_div_mod(i, p);
        vstd::arithmetic::div_mod::lemma_fundamental_div_mod(j, p);
        let oi = inode_offset(sb, i);
        let oj = inode_offset(sb, j);
        assert(i % p != j % p);
        assert(oj + 110 <= oi || oi + 110 <= oj) by (nonlinear_arith)
            requires
                oi == (i % p) * 110,
                oj == (j % p) * 110,
                i % p != j % p,
        ;
        assert(crate::types::same_window(new[bj], oj, old[bj], oj, 110));
        crate::types::lemma_dinode_window(new[bj], oj, old[bj], oj);
    }
}


/// The ascending order on `u64`.
pub open spec fn u64_leq() -> spec_fn(u64, u64) -> bool {
    |a: u64, b: u64| a <= b
}

/// The entries of `list` that point into the data region (starting at block
/// `ds`), as data-region indices, in list order.
pub open spec fn data_relative(list: Seq<u64>, ds: u64) -> Seq<u64>
    decreases list.len(),
{
    if list.len() == 0 {
        Seq::empty()
    } else {
        let rest = data_relative(list.drop_last(), ds);
        if list.last() >= ds {
            rest.push((list.last() - ds) as u64)
        } else {
            rest
        }
    }
}

/// How many leading block pointers of a `len`-pointer list hold bytes of a
/// file of `size` bytes, with blocks of `bsz` bytes.
pub open spec fn blocks_in_use(size: u64, len: int, bsz: u64) -> int {
    let c = ceil_div(size as int, bsz as int);
    if c < len {
        c
    } else {
        len
    }
}

/// The data blocks, in ascending order, that freeing the blocks of a file of
/// `size` bytes with block pointers `list` releases.
pub open spec fn blocks_to_free(size: u64, list: Seq<u64>, sb: SuperBlock) -> Seq<u64> {
    data_relative(list.take(blocks_in_use(size, list.len() as int, sb.block_size)), sb.datastart).sort_by(u64_leq())
}

/// The disk after freeing the data blocks of `s` in order, stopping at the
/// first one that lies outside the data region or is not allocated.
pub open spec fn free_all(disk: Seq<Seq<u8>>, sb: SuperBlock, s: Seq<u64>) -> Seq<Seq<u8>>
    decreases s.len(),
{
    if s.len() == 0 {
        disk
    } else if s[0] < sb.ndatablocks && bitmap_bit(disk, sb, s[0] as int) {
        free_all(disk_with_bit(disk, sb, s[0] as int, false), sb, s.drop_first())
    } else {
        disk
    }
}

/// How many leading data blocks of `s` are freed before [`free_all`] stops.
pub open spec fn free_count(disk: Seq<Seq<u8>>, sb: SuperBlock, s: Seq<u64>) -> nat
    decreases s.len(),
{
    if s.len() == 0 {
        0
    } else if s[0] < sb.ndatablocks && bitmap_bit(disk, sb, s[0] as int) {
        1 + free_count(disk_with_bit(disk, sb, s[0] as int, false), sb, s.drop_first())
    } else {
        0
    }
}

/// Calls `<[u64]>::sort` (std) on the vector. std documents it as sorting the
/// slice in ascending order; the vector then holds the same values.
#[verifier::external_body]
fn sort_u64(v: &mut Vec<u64>)
    ensures
        final(v)@.to_multiset() == old(v)@.to_multiset(),
        sorted_by(final(v)@, u64_leq()),
{
    v.sort();
}

/// Pointer `j` of a file of `size` bytes, if it holds bytes of the file, ends
/// at a byte offset that fits in a `u64`.
pub open spec fn end_fits(size: u64, bsz: u64, j: int) -> bool {
    j * bsz < size ==> (j + 1) * bsz <= u64::MAX
}

/// For `k >= 0`: `k * d < n` exactly when `k` is below `n / d` rounded up.
pub proof fn lemma_mul_lt_ceil(k: int, n: int, d: int)
    requires
        0 <= k,
        0 <= n,
        d > 0,
    ensures
        (k * d < n) <==> (k < ceil_div(n, d)),
{
    vstd::arithmetic::div_mod::lemma_fundamental_div_mod(n, d);
    let q = n / d;
    let r = n % d;
    assert((k * d < n) <==> (k < q + if r == 0 { 0int } else { 1int })) by (nonlinear_arith)
        requires
            n == d * q + r,
            0 <= r < d,
            0 <= k,
    ;
}

impl EsFS2 {
    /// Frees the data blocks of a file of `size` bytes whose block pointers are
    /// `bs`: the pointers that hold bytes of the file and point into the data
    /// region, in ascending order. Stops at the first block that cannot be freed.
    pub fn deallocate_valid_blocks(&mut self, size: u64, bs: &[u64]) -> (r: Result<(), InodeError>)
        requires
            old(self).inv(),
            forall|j: int| 0 <= j < bs@.len() ==> #[trigger] end_fits(size, old(self).sb().block_size, j),
        ensures
            final(self).inv(),
            final(self).sb() == old(self).sb(),
            ({
                let s = blocks_to_free(size, bs@, old(self).sb());
                let c = free_count(old(self).disk(), old(self).sb(), s);
                &&& final(self).disk() == free_all(old(self).disk(), old(self).sb(), s)
                &&& (r is Ok <==> c == s.len())
                &&& (r is Err ==> (r matches Err(InodeError::Block(_))))
                &&& (r matches Err(InodeError::Block(BlockError::Bounds(_))) <==> c < s.len() && s[c as int] >= old(self).sb().ndatablocks)
                &&& (r matches Err(InodeError::Block(BlockError::Allocation(_))) <==> c < s.len() && s[c as int] < old(self).sb().ndatablocks && !bitmap_bit(final(self).disk(), old(self).sb(), s[c as int] as int))
            }),
    {
        let sb = self.bfs.sb_value();
        let ghost orig = self.disk();
        let bsz = sb.block_size;
        let ds = sb.datastart;
        let mut b_to_free: Vec<u64> = Vec::new();
        let mut block_end_byte: u64 = 0;
        let mut j: usize = 0;
        while j < bs.len() && block_end_byte < size
            invariant
                j <= bs@.len(),
                block_end_byte == j * bsz,
                bsz == sb.block_size,
                ds == sb.datastart,
                sb == old(self).sb(),
                self.inv(),
                self.sb() == sb,
                self.disk() == orig,
                orig == old(self).disk(),
                forall|k: int| 0 <= k < j ==> #[trigger] (k * bsz) < size,
                forall|j: int| 0 <= j < bs@.len() ==> #[trigger] end_fits(size, sb.block_size, j),
                b_to_free@ == data_relative(bs@.take(j as int), ds),
            decreases bs@.len() - j,
        {
            let b_i = bs[j];
            proof {
                assert(end_fits(size, bsz, j as int));
                assert(bs@.take(j + 1).drop_last() =~= bs@.take(j as int));
            }
            if b_i >= ds {
                b_to_free.push(b_i - ds);
            }
            assert((j + 1) * bsz == j * bsz + bsz) by (nonlinear_arith);
            block_end_byte = block_end_byte + bsz;
            j = j + 1;
        }
        proof {
            lemma_sb_bounds(sb);
            let c = ceil_div(size as int, bsz as int);
            lemma_mul_lt_ceil(j as int, size as int, bsz as int);
            if j < bs@.len() {
                assert(j >= c);
            }
            if j > 0 {
                assert(((j - 1) as int) * bsz < size);
                lemma_mul_lt_ceil((j - 1) as int, size as int, bsz as int);
            }
            assert(j as int == blocks_in_use(size, bs@.len() as int, bsz));
        }
        let ghost t = b_to_free@;
        sort_u64(&mut b_to_free);
        proof {
            let leq = u64_leq();
            assert(total_ordering(leq));
            t.lemma_sort_by_ensures(leq);
            vstd::seq_lib::lemma_sorted_unique(b_to_free@, t.sort_by(leq), leq);
        }
        let ghost s = b_to_free@;
        assert(s == blocks_to_free(size, bs@, sb));
        let n = b_to_free.len();
        assert(s.subrange(0, n as int) =~= s);
        let mut k: usize = 0;
        while k < n
            invariant
                self.inv(),
                self.sb() == sb,
                sb == old(self).sb(),
                orig == old(self).disk(),
                n == s.len(),
                s == b_to_free@,
                s == blocks_to_free(size, bs@, sb),
                k <= n,
                free_all(orig, sb, s) == free_all(self.disk(), sb, s.subrange(k as int, n as int)),
                free_count(orig, sb, s) == k + free_count(self.disk(), sb, s.subrange(k as int, n as int)),
            decreases n - k,
        {
            let ghost cur = self.disk();
            let ghost rest = s.subrange(k as int, n as int);
            assert(rest.drop_first() =~= s.subrange(k + 1, n as int));
            match self.b_free(b_to_free[k]) {
                Ok(()) => {},
                Err(e) => {
                    assert(rest[0] == s[k as int]);
                    assert(free_all(cur, sb, rest) == cur);
                    assert(free_count(cur, sb, rest) == 0);
                    assert(free_count(orig, sb, s) == k);
                    assert(self.disk() == cur);
                    return Err(e);
                },
            }
            k = k + 1;
        }
        assert(s.subrange(n as int, n as int) =~= Seq::<u64>::empty());
        Ok(())
    }
}


/// Twelve zero block pointers.
pub open spec fn no_blocks() -> Seq<u64> {
    Seq::new(12, |j: int| 0u64)
}

/// The disk inode of an unused inode: free, no links, empty, no blocks.
pub open spec fn free_dinode() -> DInodeView {
    DInodeView { ft: FType::TFree, nlink: 0, size: 0, blocks: no_blocks() }
}

/// The disk well-formedness facts that the layers rely on.
pub open spec fn disk_shaped(disk: Seq<Seq<u8>>, sb: SuperBlock) -> bool {
    &&& disk.len() == sb.nblocks
    &&& forall|b: int| 0 <= b < disk.len() ==> #[trigger] disk[b].len() == sb.block_size
}

/// Clearing the bit of data block `g` clears that bit and no other.
pub proof fn lemma_bit_clear(disk: Seq<Seq<u8>>, sb: SuperBlock, g: int)
    requires
        sb_valid_spec(sb),
        disk_shaped(disk, sb),
        0 <= g < sb.ndatablocks,
    ensures
        forall|h: int|
            0 <= h < sb.ndatablocks ==> #[trigger] bitmap_bit(disk_with_bit(disk, sb, g, false), sb, h) == (h != g
                && bitmap_bit(disk, sb, h)),
{
    let dw = disk_with_bit(disk, sb, g, false);
    let bg = bmap_block_of(sb, g);
    let bpb = crate::a_block_support::bits_per_block(sb);
    lemma_bitmap_block_in_region(sb, g);
    assert forall|h: int| 0 <= h < sb.ndatablocks implies #[trigger] bitmap_bit(dw, sb, h) == (h != g && bitmap_bit(disk, sb, h)) by {
        lemma_bitmap_block_in_region(sb, h);
        if bmap_block_of(sb, h) == bg {
            crate::bitmap::lemma_block_with_bit(disk[bg], g % bpb, false, h % bpb);
            if h % bpb == g % bpb {
                vstd::arithmetic::div_mod::lemma_fundamental_div_mod(h, bpb);
                vstd::arithmetic::div_mod::lemma_fundamental_div_mod(g, bpb);
            }
        }
    }
}

/// Freeing never marks a block allocated, and when it gets through the whole
/// list every block of the list is free afterwards.
pub proof fn lemma_free_all_clears(disk: Seq<Seq<u8>>, sb: SuperBlock, s: Seq<u64>)
    requires
        sb_valid_spec(sb),
        disk_shaped(disk, sb),
    ensures
        forall|h: int| 0 <= h < sb.ndatablocks && #[trigger] bitmap_bit(free_all(disk, sb, s), sb, h) ==> bitmap_bit(disk, sb, h),
        free_count(disk, sb, s) == s.len() ==> forall|k: int| 0 <= k < s.len() ==> !#[trigger] bitmap_bit(free_all(disk, sb, s), sb, s[k] as int),
        free_count(disk, sb, s) == s.len() ==> forall|k: int| 0 <= k < s.len() ==> #[trigger] s[k] < sb.ndatablocks,
        forall|h: int| 0 <= h < sb.ndatablocks && !s.contains(h as u64) ==> #[trigger] bitmap_bit(free_all(disk, sb, s), sb, h) == bitmap_bit(disk, sb, h),
    decreases s.len(),
{
    if s.len() > 0 && s[0] < sb.ndatablocks && bitmap_bit(disk, sb, s[0] as int) {
        let g = s[0] as int;
        let d2 = disk_with_bit(disk, sb, g, false);
        lemma_bit_clear(disk, sb, g);
        lemma_bitmap_block_in_region(sb, g);
        let blk = bmap_block_of(sb, g);
        assert(8 * sb.block_size == 8 * disk[blk].len());
        crate::bitmap::lemma_block_with_bit(disk[blk], g % (8 * sb.block_size), false, 0);
        assert(disk_shaped(d2, sb));
        lemma_free_all_clears(d2, sb, s.drop_first());
        let fa = free_all(disk, sb, s);
        assert(fa == free_all(d2, sb, s.drop_first()));
        assert forall|h: int| 0 <= h < sb.ndatablocks && #[trigger] bitmap_bit(fa, sb, h) implies bitmap_bit(disk, sb, h) by {
            assert(bitmap_bit(d2, sb, h));
        }
        assert forall|h: int| 0 <= h < sb.ndatablocks && !s.contains(h as u64) implies #[trigger] bitmap_bit(fa, sb, h) == bitmap_bit(disk, sb, h) by {
            assert(s[0] == g as u64);
            assert(h != g);
            if s.drop_first().contains(h as u64) {
                let x = choose|x: int| 0 <= x < s.drop_first().len() && s.drop_first()[x] == h as u64;
                assert(s[x + 1] == h as u64);
            }
            assert(bitmap_bit(fa, sb, h) == bitmap_bit(d2, sb, h));
        }
        if free_count(disk, sb, s) == s.len() {
            assert(free_count(disk, sb, s) == 1 + free_count(d2, sb, s.drop_first()));
            assert forall|k: int| 0 <= k < s.len() implies !#[trigger] bitmap_bit(fa, sb, s[k] as int) by {
                if k > 0 {
                    assert(s[k] == s.drop_first()[k - 1]);
                } else if bitmap_bit(fa, sb, g) {
                    assert(bitmap_bit(d2, sb, g));
                }
            }
            assert forall|k: int| 0 <= k < s.len() implies #[trigger] s[k] < sb.ndatablocks by {
                if k > 0 {
                    assert(s[k] == s.drop_first()[k - 1]);
                }
            }
        }
    }
}

/// Freeing a list of distinct data blocks that are all allocated gets
/// through the whole list.
pub proof fn lemma_free_count_full(disk: Seq<Seq<u8>>, sb: SuperBlock, s: Seq<u64>)
    requires
        sb_valid_spec(sb),
        disk_shaped(disk, sb),
        s.no_duplicates(),
        forall|k: int| 0 <= k < s.len() ==> #[trigger] s[k] < sb.ndatablocks && bitmap_bit(disk, sb, s[k] as int),
    ensures
        free_count(disk, sb, s) == s.len(),
    decreases s.len(),
{
    if s.len() > 0 {
        let g = s[0] as int;
        assert(s[0] < sb.ndatablocks && bitmap_bit(disk, sb, g));
        let d2 = disk_with_bit(disk, sb, g, false);
        lemma_bit_clear(disk, sb, g);
        lemma_bitmap_block_in_region(sb, g);
        let blk = bmap_block_of(sb, g);
        assert(8 * sb.block_size == 8 * disk[blk].len());
        crate::bitmap::lemma_block_with_bit(disk[blk], g % (8 * sb.block_size), false, 0);
        assert(disk_shaped(d2, sb));
        let t = s.drop_first();
        assert forall|k: int| 0 <= k < t.len() implies #[trigger] t[k] < sb.ndatablocks && bitmap_bit(d2, sb, t[k] as int) by {
            assert(t[k] == s[k + 1]);
            assert(s[k + 1] != s[0]);
            assert(s[k + 1] < sb.ndatablocks && bitmap_bit(disk, sb, s[k + 1] as int));
        }
        assert(t.no_duplicates()) by {
            assert forall|i: int, j: int| 0 <= i < t.len() && 0 <= j < t.len() && i != j implies t[i] != t[j] by {
                assert(t[i] == s[i + 1] && t[j] == s[j + 1]);
            }
        }
        lemma_free_count_full(d2, sb, t);
    }
}

/// The data-region indices of a list of pointers that all lie at or past
/// `ds`: each pointer less `ds`, in order.
pub proof fn lemma_data_relative_all(list: Seq<u64>, ds: u64)
    requires
        forall|i: int| 0 <= i < list.len() ==> #[trigger] list[i] >= ds,
    ensures
        data_relative(list, ds).len() == list.len(),
        forall|i: int| 0 <= i < list.len() ==> #[trigger] data_relative(list, ds)[i] == list[i] - ds,
    decreases list.len(),
{
    if list.len() > 0 {
        let t = list.drop_last();
        assert forall|i: int| 0 <= i < t.len() implies #[trigger] t[i] >= ds by {
            assert(t[i] == list[i]);
        }
        lemma_data_relative_all(t, ds);
        assert(list.last() == list[list.len() - 1]);
    }
}

/// Freeing the blocks of a file whose block pointers are sound and in the
/// data region (see [`crate::write_model::blocks_in_data`]) and whose
/// data blocks are all present gets through all of them.
pub proof fn lemma_free_file_full(disk: Seq<Seq<u8>>, sb: SuperBlock, d: DInodeView)
    requires
        sb_valid_spec(sb),
        disk_shaped(disk, sb),
        crate::write_model::blocks_in_data(disk, sb, d),
        crate::c_dirs_support::data_readable(d, sb),
    ensures
        free_count(disk, sb, blocks_to_free(d.size, d.blocks, sb)) == blocks_to_free(d.size, d.blocks, sb).len(),
{
    let m = blocks_in_use(d.size, d.blocks.len() as int, sb.block_size);
    let l = d.blocks.take(m);
    let ds = sb.datastart;
    assert forall|i: int| 0 <= i < l.len() implies #[trigger] l[i] >= ds && l[i] < ds + sb.ndatablocks
        && bitmap_bit(disk, sb, l[i] - ds) by {
        assert(l[i] == crate::e_inode_rw_support::ptr(d, i));
        assert(crate::e_inode_rw_support::ptr(d, i) != 0);
    }
    lemma_data_relative_all(l, ds);
    let r = data_relative(l, ds);
    assert(r.no_duplicates()) by {
        assert forall|i: int, j: int| 0 <= i < r.len() && 0 <= j < r.len() && i != j implies r[i] != r[j] by {
            assert(l[i] == crate::e_inode_rw_support::ptr(d, i));
            assert(l[j] == crate::e_inode_rw_support::ptr(d, j));
            assert(crate::e_inode_rw_support::ptr(d, i) != 0);
        }
    }
    let leq = u64_leq();
    assert(total_ordering(leq));
    r.lemma_sort_by_ensures(leq);
    let s = r.sort_by(leq);
    assert(s == blocks_to_free(d.size, d.blocks, sb));
    r.lemma_multiset_has_no_duplicates();
    assert forall|x: u64| s.to_multiset().contains(x) implies s.to_multiset().count(x) == 1 by {
        assert(r.to_multiset().contains(x));
    }
    s.lemma_multiset_has_no_duplicates_conv();
    assert forall|k: int| 0 <= k < s.len() implies #[trigger] s[k] < sb.ndatablocks && bitmap_bit(disk, sb, s[k] as int) by {
        broadcast use vstd::seq_lib::group_to_multiset_ensures;
        let x = s[k];
        assert(s.contains(x));
        assert(s.to_multiset().count(x) > 0);
        assert(r.to_multiset().count(x) > 0);
        assert(r.contains(x));
        let i = choose|i: int| 0 <= i < r.len() && r[i] == x;
        assert(r[i] == l[i] - ds);
    }
    lemma_free_count_full(disk, sb, s);
}

/// Freeing the data of a file (as `i_free` and `i_trunc` do) releases exactly
/// the blocks that hold any of its bytes: the bit of the block of every
/// pointer `j` with `j * block_size < size` is cleared, and every other bit
/// of the data region keeps its value.
pub proof fn lemma_free_releases_file_blocks(disk: Seq<Seq<u8>>, sb: SuperBlock, d: DInodeView)
    requires
        sb_valid_spec(sb),
        disk_shaped(disk, sb),
        crate::write_model::blocks_in_data(disk, sb, d),
        crate::c_dirs_support::data_readable(d, sb),
    ensures
        forall|j: int|
            0 <= j < 12 && j * sb.block_size < d.size ==> !#[trigger] bitmap_bit(
                free_all(disk, sb, blocks_to_free(d.size, d.blocks, sb)),
                sb,
                crate::e_inode_rw_support::ptr(d, j) - sb.datastart,
            ),
        forall|h: int|
            0 <= h < sb.ndatablocks && (forall|j: int| 0 <= j < 12 && j * sb.block_size < d.size
                ==> #[trigger] crate::e_inode_rw_support::ptr(d, j) != sb.datastart + h)
                ==> #[trigger] bitmap_bit(free_all(disk, sb, blocks_to_free(d.size, d.blocks, sb)), sb, h)
                == bitmap_bit(disk, sb, h),
{
    let bs = sb.block_size as int;
    let m = blocks_in_use(d.size, d.blocks.len() as int, sb.block_size);
    let l = d.blocks.take(m);
    let ds = sb.datastart;
    let s = blocks_to_free(d.size, d.blocks, sb);
    lemma_free_file_full(disk, sb, d);
    lemma_free_all_clears(disk, sb, s);
    assert forall|i: int| 0 <= i < l.len() implies #[trigger] l[i] >= ds by {
        assert(l[i] == crate::e_inode_rw_support::ptr(d, i));
        assert(crate::e_inode_rw_support::ptr(d, i) != 0);
    }
    lemma_data_relative_all(l, ds);
    let r = data_relative(l, ds);
    let leq = u64_leq();
    assert(total_ordering(leq));
    r.lemma_sort_by_ensures(leq);
    assert(s == r.sort_by(leq));
    assert forall|j: int| 0 <= j < 12 && j * sb.block_size < d.size implies !#[trigger] bitmap_bit(
        free_all(disk, sb, s), sb, crate::e_inode_rw_support::ptr(d, j) - sb.datastart) by {
        broadcast use vstd::seq_lib::group_to_multiset_ensures;
        lemma_mul_lt_ceil(j, d.size as int, bs);
        assert(j < m);
        let x = r[j];
        assert(x == l[j] - ds);
        assert(l[j] == crate::e_inode_rw_support::ptr(d, j));
        assert(r.contains(x));
        assert(r.to_multiset().count(x) > 0);
        assert(s.to_multiset().count(x) > 0);
        assert(s.contains(x));
        let k = choose|k: int| 0 <= k < s.len() && s[k] == x;
        assert(!bitmap_bit(free_all(disk, sb, s), sb, s[k] as int));
    }
    assert forall|h: int|
        0 <= h < sb.ndatablocks && (forall|j: int| 0 <= j < 12 && j * sb.block_size < d.size
            ==> #[trigger] crate::e_inode_rw_support::ptr(d, j) != sb.datastart + h)
        implies #[trigger] bitmap_bit(free_all(disk, sb, s), sb, h) == bitmap_bit(disk, sb, h) by {
        broadcast use vstd::seq_lib::group_to_multiset_ensures;
        if s.contains(h as u64) {
            assert(s.to_multiset().count(h as u64) > 0);
            assert(r.to_multiset().count(h as u64) > 0);
            assert(r.contains(h as u64));
            let i = choose|i: int| 0 <= i < r.len() && r[i] == h as u64;
            assert(r[i] == l[i] - ds);
            assert(l[i] == crate::e_inode_rw_support::ptr(d, i));
            lemma_mul_lt_ceil(i, d.size as int, bs);
            assert(i * sb.block_size < d.size);
            assert(crate::e_inode_rw_support::ptr(d, i) == sb.datastart + h);
            assert(false);
        }
    }
}

/// Freeing data blocks only changes blocks of the bitmap region.
pub proof fn lemma_free_all_frame(disk: Seq<Seq<u8>>, sb: SuperBlock, s: Seq<u64>)
    requires
        sb_valid_spec(sb),
        disk_shaped(disk, sb),
    ensures
        disk_shaped(free_all(disk, sb, s), sb),
        forall|b: int|
            0 <= b < disk.len() && !(sb.bmapstart <= b < sb.datastart) ==> #[trigger] free_all(
                disk,
                sb,
                s,
            )[b] == disk[b],
    decreases s.len(),
{
    if s.len() > 0 && s[0] < sb.ndatablocks && bitmap_bit(disk, sb, s[0] as int) {
        let g = s[0] as int;
        lemma_bitmap_block_in_region(sb, g);
        let d2 = disk_with_bit(disk, sb, g, false);
        let blk = bmap_block_of(sb, g);
        assert(8 * sb.block_size == 8 * disk[blk].len());
        crate::bitmap::lemma_block_with_bit(disk[blk], g % (8 * sb.block_size), false, 0);
        lemma_free_all_frame(d2, sb, s.drop_first());
    }
}

/// Twelve pointers never reach past the end of a `u64` byte offset.
pub proof fn lemma_pointer_ends_fit(sb: SuperBlock, size: u64)
    requires
        sb_valid_spec(sb),
        sb.nblocks * (8 * sb.block_size) <= u64::MAX,
    ensures
        forall|j: int| 0 <= j < 12 ==> #[trigger] end_fits(size, sb.block_size, j),
{
    assert forall|j: int| 0 <= j < 12 implies #[trigger] end_fits(size, sb.block_size, j) by {
        assert((j + 1) * sb.block_size <= sb.nblocks * (8 * sb.block_size)) by (nonlinear_arith)
            requires
                0 <= j < 12,
                sb.nblocks >= 3,
        ;
    }
}

impl EsFS2 {
    /// Frees inode `i` when it has no links left: frees its data blocks (see
    /// [`EsFS2::deallocate_valid_blocks`]) and marks it free with no blocks.
    /// Does nothing when links remain; fails when the inode is already free.
    pub fn i_free(&mut self, i: u64) -> (r: Result<(), InodeError>)
        requires
            old(self).inv(),
            inode_usable(old(self).sb(), i as int),
        ensures
            final(self).inv(),
            final(self).sb() == old(self).sb(),
            r matches Err(InodeError::Bounds) <==> !inode_in_range(old(self).sb(), i as int),
            r matches Err(InodeError::API(_)) <==> inode_in_range(old(self).sb(), i as int)
                && disk_inode(old(self).disk(), old(self).sb(), i as int) is None,
            !inode_in_range(old(self).sb(), i as int) || disk_inode(old(self).disk(), old(self).sb(), i as int) is None
                ==> final(self).disk() == old(self).disk(),
            inode_in_range(old(self).sb(), i as int) ==> match disk_inode(old(self).disk(), old(self).sb(), i as int) {
                Some(d) => if d.nlink > 0 {
                    r is Ok && final(self).disk() == old(self).disk()
                } else if d.ft == FType::TFree {
                    (r matches Err(InodeError::Alloc(_))) && final(self).disk() == old(self).disk()
                } else {
                    let s = blocks_to_free(d.size, d.blocks, old(self).sb());
                    let c = free_count(old(self).disk(), old(self).sb(), s);
                    let fd = free_all(old(self).disk(), old(self).sb(), s);
                    &&& c < s.len() ==> final(self).disk() == fd && (r matches Err(InodeError::Block(_)))
                    &&& (r matches Err(InodeError::Block(BlockError::Bounds(_))) <==> c < s.len() && s[c as int] >= old(self).sb().ndatablocks)
                    &&& (r matches Err(InodeError::Block(BlockError::Allocation(_))) <==> c < s.len() && s[c as int] < old(self).sb().ndatablocks && !bitmap_bit(fd, old(self).sb(), s[c as int] as int))
                    &&& c == s.len() ==> r is Ok && inode_written(fd, final(self).disk(), old(self).sb(), i as int, DInodeView { ft: FType::TFree, nlink: 0, size: d.size, blocks: no_blocks() })
                },
                None => true,
            },
    {
        let ghost sb = self.sb();
        let mut inode_block = match InodeBlock::new_from_inode_i(i, self) {
            Ok(ib) => ib,
            Err(e) => return Err(e),
        };
        let mut inode = match inode_block.i_get(i, Ghost(sb)) {
            Ok(ino) => ino,
            Err(e) => return Err(e),
        };
        if inode.get_nlink() > 0 {
            return Ok(());
        }
        if inode.get_ft() == FType::TFree {
            return Err(InodeError::Alloc("trying to free inode which is already free."));
        }
        proof {
            lemma_pointer_ends_fit(sb, inode.disk_node.size);
            lemma_inode_location(sb, i as int);
        }
        let ghost before = self.disk();
        match self.deallocate_valid_blocks(inode.get_size(), inode.disk_node.direct_blocks.as_slice()) {
            Ok(()) => {},
            Err(e) => return Err(e),
        }
        proof {
            lemma_free_all_frame(before, sb, blocks_to_free(inode.disk_node.size, inode.disk_node.direct_blocks@, sb));
        }
        inode.disk_node.ft = FType::TFree;
        inode.disk_node.direct_blocks = [0u64; 12];
        assert(inode.disk_node.direct_blocks@ =~= no_blocks());
        match inode_block.i_put(&inode, Ghost(sb)) {
            Ok(()) => {},
            Err(e) => return Err(e),
        }
        let r = inode_block.write_back(self);
        r
    }

    /// Truncates `inode` to size zero: checks that it matches what is on disk,
    /// frees its data blocks (see [`EsFS2::deallocate_valid_blocks`]), clears
    /// its block pointers and writes it back.
    pub fn i_trunc(&mut self, inode: &mut Inode) -> (r: Result<(), InodeError>)
        requires
            old(self).inv(),
            inode_usable(old(self).sb(), old(inode).inum as int),
        ensures
            final(self).inv(),
            final(self).sb() == old(self).sb(),
            final(inode).inum == old(inode).inum,
            r matches Err(InodeError::Bounds) <==> !inode_in_range(old(self).sb(), old(inode).inum as int),
            r matches Err(InodeError::API(_)) <==> inode_in_range(old(self).sb(), old(inode).inum as int)
                && disk_inode(old(self).disk(), old(self).sb(), old(inode).inum as int) is None,
            r matches Err(InodeError::Trunc(_)) <==> inode_in_range(old(self).sb(), old(inode).inum as int)
                && disk_inode(old(self).disk(), old(self).sb(), old(inode).inum as int) is Some
                && disk_inode(old(self).disk(), old(self).sb(), old(inode).inum as int) != Some(old(inode).disk_node@),
            !(inode_in_range(old(self).sb(), old(inode).inum as int) && disk_inode(old(self).disk(), old(self).sb(), old(inode).inum as int) == Some(old(inode).disk_node@))
                ==> final(self).disk() == old(self).disk() && *final(inode) == *old(inode),
            inode_in_range(old(self).sb(), old(inode).inum as int) && disk_inode(old(self).disk(), old(self).sb(), old(inode).inum as int) == Some(old(inode).disk_node@) ==> ({
                let d = old(inode).disk_node@;
                let s = blocks_to_free(d.size, d.blocks, old(self).sb());
                let c = free_count(old(self).disk(), old(self).sb(), s);
                let fd = free_all(old(self).disk(), old(self).sb(), s);
                &&& c < s.len() ==> final(self).disk() == fd && (r matches Err(InodeError::Block(_))) && *final(inode) == *old(inode)
                &&& (r matches Err(InodeError::Block(BlockError::Bounds(_))) <==> c < s.len() && s[c as int] >= old(self).sb().ndatablocks)
                &&& (r matches Err(InodeError::Block(BlockError::Allocation(_))) <==> c < s.len() && s[c as int] < old(self).sb().ndatablocks && !bitmap_bit(fd, old(self).sb(), s[c as int] as int))
                &&& c == s.len() ==> {
                    &&& r is Ok
                    &&& final(inode).disk_node@ == DInodeView { ft: d.ft, nlink: d.nlink, size: 0, blocks: no_blocks() }
                    &&& inode_written(fd, final(self).disk(), old(self).sb(), old(inode).inum as int, final(inode).disk_node@)
                }
            }),
    {
        let ghost sb = self.sb();
        let i = inode.get_inum();
        let mut inode_block = match InodeBlock::new_from_inode_i(i, self) {
            Ok(ib) => ib,
            Err(e) => return Err(e),
        };
        let on_disk = match inode_block.i_get(i, Ghost(sb)) {
            Ok(ino) => ino,
            Err(e) => return Err(e),
        };
        if !on_disk.same_as(inode) {
            return Err(InodeError::Trunc("given inode contents do not correspond to what is on disk!"));
        }
        proof {
            lemma_pointer_ends_fit(sb, inode.disk_node.size);
            lemma_inode_location(sb, i as int);
        }
        let ghost before = self.disk();
        match self.deallocate_valid_blocks(inode.get_size(), inode.disk_node.direct_blocks.as_slice()) {
            Ok(()) => {},
            Err(e) => return Err(e),
        }
        proof {
            lemma_free_all_frame(before, sb, blocks_to_free(inode.disk_node.size, inode.disk_node.direct_blocks@, sb));
        }
        inode.disk_node.direct_blocks = [0u64; 12];
        inode.disk_node.size = 0;
        assert(inode.disk_node.direct_blocks@ =~= no_blocks());
        match inode_block.i_put(inode, Ghost(sb)) {
            Ok(()) => {},
            Err(e) => return Err(e),
        }
        inode_block.write_back(self)
    }

    /// A walk over the inodes `1 .. ninodes` of this file system.
    pub fn inode_iter(&self) -> (it: InodeIterator)
        requires
            self.inv(),
            self.sb().ninodes > 1,
        ensures
            it.wf(),
            it.fs() == *self,
            it.pos() == 0,
    {
        InodeIterator::new(self)
    }

    /// Allocates the free inode with the lowest number among `1 .. ninodes`:
    /// gives it kind `ft`, size zero and no blocks (its link count is kept), and
    /// returns its number. Fails when no inode in that range is free.
    pub fn i_alloc(&mut self, ft: FType) -> (r: Result<u64, InodeError>)
        requires
            old(self).inv(),
            forall|j: int| 1 <= j < old(self).sb().ninodes && (forall|k: int| 1 <= k < j ==> #[trigger] used_inode(old(self).disk(), old(self).sb(), k))
                ==> #[trigger] disk_inode(old(self).disk(), old(self).sb(), j) is Some,
        ensures
            final(self).inv(),
            final(self).sb() == old(self).sb(),
            r is Ok <==> exists|j: int| 1 <= j < old(self).sb().ninodes && #[trigger] free_inode(old(self).disk(), old(self).sb(), j),
            r matches Ok(j) ==> {
                &&& 1 <= j < old(self).sb().ninodes
                &&& free_inode(old(self).disk(), old(self).sb(), j as int)
                &&& forall|k: int| 1 <= k < j ==> #[trigger] used_inode(old(self).disk(), old(self).sb(), k)
                &&& inode_written(old(self).disk(), final(self).disk(), old(self).sb(), j as int, DInodeView {
                    ft,
                    nlink: disk_inode(old(self).disk(), old(self).sb(), j as int).unwrap().nlink,
                    size: 0,
                    blocks: no_blocks(),
                })
            },
            r is Err ==> (r matches Err(InodeError::Alloc(_))) && final(self).disk() == old(self).disk(),
    {
        let ghost sb = self.sb();
        let ghost disk = self.disk();
        let ninodes = self.bfs.sb_value().ninodes;
        if ninodes <= 1 {
            return Err(InodeError::Alloc("no more free inodes in system"));
        }
        let mut inode_iter = self.inode_iter();
        loop
            invariant_except_break
                forall|k: int| 1 <= k <= inode_iter.pos() && k < ninodes ==> #[trigger] used_inode(disk, sb, k),
            invariant
                inode_iter.wf(),
                inode_iter.fs().disk() == disk,
                inode_iter.fs().sb() == sb,
                disk == old(self).disk(),
                sb == old(self).sb(),
                ninodes == sb.ninodes,
                forall|j: int| 1 <= j < sb.ninodes && (forall|k: int| 1 <= k < j ==> #[trigger] used_inode(disk, sb, k))
                    ==> #[trigger] disk_inode(disk, sb, j) is Some,
            ensures
                inode_iter.wf(),
                inode_iter.fs().disk() == disk,
                inode_iter.fs().sb() == sb,
                inode_iter.pos() < ninodes ==> 1 <= inode_iter.pos() && free_inode(disk, sb, inode_iter.pos() as int),
                forall|k: int| 1 <= k < inode_iter.pos() ==> #[trigger] used_inode(disk, sb, k),
            decreases ninodes - inode_iter.pos(),
        {
            let ghost p = inode_iter.pos() + 1;
            match inode_iter.next() {
                Some(inode) => {
                    if inode.get_ft() == FType::TFree {
                        assert(free_inode(disk, sb, p));
                        break;
                    }
                    assert(used_inode(disk, sb, p));
                },
                None => {
                    assert(p >= ninodes);
                    break;
                },
            }
        }
        match inode_iter.curr() {
            Some((mut inode, mut inode_block)) => {
                let i = inode.get_inum();
                proof { lemma_inode_location(sb, i as int); }
                inode.disk_node.ft = ft;
                inode.disk_node.direct_blocks = [0u64; 12];
                inode.disk_node.size = 0;
                assert(inode.disk_node.direct_blocks@ =~= no_blocks());
                match inode_block.i_put(&inode, Ghost(sb)) {
                    Ok(()) => {},
                    Err(e) => return Err(e),
                }
                match inode_block.write_back(self) {
                    Ok(()) => {},
                    Err(e) => return Err(e),
                }
                Ok(i)
            },
            None => {
                proof {
                    assert forall|j: int| 1 <= j < sb.ninodes implies !#[trigger] free_inode(old(self).disk(), sb, j) by {
                        assert(used_inode(disk, sb, j));
                    }
                }
                Err(InodeError::Alloc("no more free inodes in system"))
            },
        }
    }
}

/// Inode `j` decodes and is in use.
pub open spec fn used_inode(disk: Seq<Seq<u8>>, sb: SuperBlock, j: int) -> bool {
    disk_inode(disk, sb, j) matches Some(d) && d.ft != FType::TFree
}

/// Inode `j` decodes and is free.
pub open spec fn free_inode(disk: Seq<Seq<u8>>, sb: SuperBlock, j: int) -> bool {
    disk_inode(disk, sb, j) matches Some(d) && d.ft == FType::TFree
}


impl EsFS2 {
    /// Writes a free inode into every inode slot `0 .. ninodes`.
    fn init_inode_region(&mut self) -> (r: Result<(), InodeError>)
        requires
            old(self).inv(),
        ensures
            final(self).inv(),
            final(self).sb() == old(self).sb(),
            r is Ok,
            forall|j: int| 0 <= j < old(self).sb().ninodes ==> #[trigger] disk_inode(final(self).disk(), old(self).sb(), j) == Some(free_dinode()),
            forall|b: int| 0 <= b < old(self).disk().len() && !(old(self).sb().inodestart <= b < old(self).sb().bmapstart)
                ==> #[trigger] final(self).disk()[b] == old(self).disk()[b],
    {
        let ghost sb = self.sb();
        let ninodes = self.bfs.sb_value().ninodes;
        let mut i: u64 = 0;
        while i < ninodes
            invariant
                self.inv(),
                self.sb() == sb,
                sb == old(self).sb(),
                ninodes == sb.ninodes,
                i <= ninodes,
                old(self).disk().len() == sb.nblocks,
                forall|j: int| 0 <= j < i ==> #[trigger] disk_inode(self.disk(), sb, j) == Some(free_dinode()),
                forall|b: int| 0 <= b < old(self).disk().len() && !(sb.inodestart <= b < sb.bmapstart)
                    ==> #[trigger] self.disk()[b] == old(self).disk()[b],
            decreases ninodes - i,
        {
            let inode = Inode {
                inum: i,
                disk_node: DInode { ft: FType::TFree, nlink: 0, size: 0, direct_blocks: [0u64; 12] },
            };
            assert(inode.disk_node@ == free_dinode()) by {
                assert(inode.disk_node.direct_blocks@ =~= no_blocks());
            }
            proof {
                assert(inodes_per_block(sb) > 0);
                lemma_inode_location(sb, i as int);
            }
            let ghost before = self.disk();
            match self.i_put(&inode) {
                Ok(()) => {},
                Err(e) => return Err(e),
            }
            proof {
                assert forall|j: int| 0 <= j < i + 1 implies #[trigger] disk_inode(self.disk(), sb, j) == Some(free_dinode()) by {
                    lemma_inode_write_read(before, self.disk(), sb, i as int, free_dinode(), j);
                }
                assert forall|b: int| 0 <= b < old(self).disk().len() && !(sb.inodestart <= b < sb.bmapstart)
                    implies #[trigger] self.disk()[b] == old(self).disk()[b] by {
                    assert(b != inode_block_of(sb, i as int));
                    assert(self.disk()[b] == before[b]);
                }
            }
            i = i + 1;
        }
        Ok(())
    }

    /// Whether `sb` is a valid superblock (see [`sb_valid_spec`]).
    pub fn sb_valid(sb: &SuperBlock) -> (r: bool)
        ensures
            r == sb_valid_spec(*sb),
    {
        EsFS1::sb_valid(sb)
    }

    /// Creates a file system described by `sb` on a fresh zeroed device, with
    /// the superblock in block 0 and every inode free.
    pub fn mkfs(sb: &SuperBlock) -> (r: Result<EsFS2, InodeError>)
        ensures
            r is Ok <==> sb_usable(*sb),
            r matches Ok(fs) ==> {
                &&& fs.inv()
                &&& fs.sb() == *sb
                &&& superblock_at(fs.disk()[0], 0) == *sb
                &&& forall|j: int| 0 <= j < sb.ninodes ==> #[trigger] disk_inode(fs.disk(), *sb, j) == Some(free_dinode())
                &&& forall|b: int| 1 <= b < sb.nblocks && !(sb.inodestart <= b < sb.bmapstart) ==> #[trigger] fs.disk()[b] == zeros(sb.block_size as nat)
            },
            r is Err ==> r matches Err(InodeError::Block(BlockError::InitError(_))),
    {
        let block_fs = match EsFS1::mkfs(sb) {
            Ok(fs) => fs,
            Err(e) => return Err(InodeError::Block(e)),
        };
        let mut new_fs = EsFS2 { bfs: block_fs };
        match new_fs.init_inode_region() {
            Ok(()) => {},
            Err(e) => return Err(e),
        }
        proof {
            assert(sb.inodestart > 0);
        }
        Ok(new_fs)
    }

    /// Mounts the file system on `dev` (see [`EsFS1::mountfs`]).
    pub fn mountfs(dev: Device) -> (r: Result<EsFS2, InodeError>)
        requires
            dev.well_formed(),
            dev.nb() * (8 * dev.bs()) <= u64::MAX,
        ensures
            r matches Ok(fs) ==> fs.inv() && fs.disk() == dev@ && fs.sb() == superblock_at(dev@[0], 0),
            r is Ok <==> {
                &&& dev.nb() > 0
                &&& SUPERBLOCK_SIZE <= dev.bs()
                &&& sb_valid_spec(superblock_at(dev@[0], 0))
                &&& superblock_at(dev@[0], 0).block_size == dev.bs()
                &&& superblock_at(dev@[0], 0).nblocks == dev.nb()
            },
            r is Err ==> r matches Err(InodeError::Block(_)),
    {
        match EsFS1::mountfs(dev) {
            Ok(bfs) => Ok(EsFS2 { bfs }),
            Err(e) => Err(InodeError::Block(e)),
        }
    }

    /// Gives the device back.
    pub fn unmountfs(self) -> (d: Device)
        requires
            self.inv(),
        ensures
            d.well_formed(),
            d@ == self.disk(),
            d.bs() == self.sb().block_size,
            d.nb() == self.sb().nblocks,
    {
        self.bfs.unmountfs()
    }
}

} // verus!
