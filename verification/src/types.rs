//! The on-disk data types of the file system, their byte layouts, blocks,
//! buffers and the block device.
use vstd::prelude::*;
use vstd::bytes::*;
use crate::codec::{update_bytes, u64_at, u32_at, u16_at, lemma_update_frame, lemma_update_reads_back, lemma_ints_read_back, read_u64_at, read_u32_at, read_u16_at, write_bytes_at, write_u64_at, write_u32_at, write_u16_at};

verus! {

/// Number of direct block pointers held by an inode.
pub const DIRECT_POINTERS: u64 = 12;
/// Maximal length of a directory entry name.
pub const DIRNAME_SIZE: usize = 14;
/// Size in bytes of an encoded disk inode.
pub const DINODE_SIZE: u64 = 110;
/// Size in bytes of an encoded directory entry.
pub const DIRENTRY_SIZE: u64 = 22;
/// Size in bytes of an encoded superblock.
pub const SUPERBLOCK_SIZE: u64 = 56;

/// Errors raised by blocks, buffers and the device.
#[derive(Debug)]
pub enum APIError {
    /// A read or write reaches past the end of a block or buffer.
    BlockInput(&'static str),
    /// The device was asked for a block it does not hold, or given a block of the wrong size.
    ControllerInput(&'static str),
    /// The bytes do not encode a value of the requested type.
    Deserialization(&'static str),
}

/// Layout parameters of a file system, stored at the start of block 0.
#[derive(Clone, Copy, Debug, PartialEq, Eq, Structural)]
pub struct SuperBlock {
    pub block_size: u64,
    pub nblocks: u64,
    pub ninodes: u64,
    pub inodestart: u64,
    pub ndatablocks: u64,
    pub bmapstart: u64,
    pub datastart: u64,
}

/// Kind of an inode.
#[derive(Clone, Copy, Debug, PartialEq, Eq, Structural)]
pub enum FType {
    TFree,
    TFile,
    TDir,
}

/// An inode as stored on disk.
#[derive(Clone, Copy, Debug, PartialEq, Eq)]
pub struct DInode {
    pub ft: FType,
    pub nlink: u16,
    pub size: u64,
    pub direct_blocks: [u64; 12],
}

/// Mathematical value of a [`DInode`].
pub struct DInodeView {
    pub ft: FType,
    pub nlink: u16,
    pub size: u64,
    pub blocks: Seq<u64>,
}

impl View for DInode {
    type V = DInodeView;

    open spec fn view(&self) -> DInodeView {
        DInodeView { ft: self.ft, nlink: self.nlink, size: self.size, blocks: self.direct_blocks@ }
    }
}

/// An inode together with its number.
#[derive(Clone, Copy, Debug, PartialEq, Eq)]
pub struct Inode {
    pub inum: u64,
    pub disk_node: DInode,
}

impl Inode {
    /// An inode with the given fields and direct blocks (the remaining pointers
    /// are zero); `None` when more blocks are given than an inode can hold.
    pub fn new(inum: u64, ft: &FType, nlink: u16, size: u64, blocks: &[u64]) -> (r: Option<Inode>)
        ensures
            r is Some <==> blocks@.len() <= DIRECT_POINTERS,
            r matches Some(ino) ==> {
                &&& ino.inum == inum
                &&& ino.disk_node.ft == *ft
                &&& ino.disk_node.nlink == nlink
                &&& ino.disk_node.size == size
                &&& forall|j: int| 0 <= j < 12 ==> #[trigger] ino.disk_node.direct_blocks@[j] == if j < blocks@.len() {
                    blocks@[j]
                } else {
                    0
                }
            },
    {
        if blocks.len() > 12 {
            return None;
        }
        let mut direct_blocks: [u64; 12] = [0u64; 12];
        let mut j: usize = 0;
        while j < blocks.len()
            invariant
                j <= blocks@.len() <= 12,
                forall|k: int| 0 <= k < 12 ==> #[trigger] direct_blocks@[k] == if k < j {
                    blocks@[k]
                } else {
                    0
                },
            decreases blocks@.len() - j,
        {
            direct_blocks[j] = blocks[j];
            j = j + 1;
        }
        Some(Inode { inum, disk_node: DInode { ft: *ft, nlink, size, direct_blocks } })
    }

    /// The inode number.
    pub fn get_inum(&self) -> (r: u64)
        ensures
            r == self.inum,
    {
        self.inum
    }

    /// The kind of the inode.
    pub fn get_ft(&self) -> (r: FType)
        ensures
            r == self.disk_node.ft,
    {
        self.disk_node.ft
    }

    /// The number of links to the inode.
    pub fn get_nlink(&self) -> (r: u64)
        ensures
            r == self.disk_node.nlink,
    {
        self.disk_node.nlink as u64
    }

    /// The size of the inode's data in bytes.
    pub fn get_size(&self) -> (r: u64)
        ensures
            r == self.disk_node.size,
    {
        self.disk_node.size
    }

    /// Direct block pointer `i`; zero past the last pointer.
    pub fn get_block(&self, i: u64) -> (r: u64)
        ensures
            r == if i < DIRECT_POINTERS {
                self.disk_node.direct_blocks@[i as int]
            } else {
                0
            },
    {
        if i < 12 {
            self.disk_node.direct_blocks[i as usize]
        } else {
            0
        }
    }

    /// Whether two inodes are equal in every field.
    pub fn same_as(&self, other: &Inode) -> (r: bool)
        ensures
            r == (self.inum == other.inum && self.disk_node@ == other.disk_node@),
    {
        if self.inum != other.inum || self.disk_node.ft != other.disk_node.ft || self.disk_node.nlink
            != other.disk_node.nlink || self.disk_node.size != other.disk_node.size {
            return false;
        }
        let mut j: usize = 0;
        while j < 12
            invariant
                j <= 12,
                forall|k: int| 0 <= k < j ==> self.disk_node.direct_blocks@[k]
                    == other.disk_node.direct_blocks@[k],
            decreases 12 - j,
        {
            if self.disk_node.direct_blocks[j] != other.disk_node.direct_blocks[j] {
                return false;
            }
            j = j + 1;
        }
        assert(self.disk_node.direct_blocks@ =~= other.disk_node.direct_blocks@);
        true
    }
}

/// A directory entry: an inode number and a NUL-padded name.
#[derive(Clone, Copy, Debug, PartialEq, Eq)]
pub struct DirEntry {
    pub inum: u64,
    pub name: [u8; 14],
}

/// Mathematical value of a [`DirEntry`].
pub struct DirEntryView {
    pub inum: u64,
    pub name: Seq<u8>,
}

impl View for DirEntry {
    type V = DirEntryView;

    open spec fn view(&self) -> DirEntryView {
        DirEntryView { inum: self.inum, name: self.name@ }
    }
}

/// Tag of an inode kind in its encoding.
pub open spec fn ftype_tag(ft: FType) -> u32 {
    match ft {
        FType::TFree => 0,
        FType::TFile => 1,
        FType::TDir => 2,
    }
}

/// Kind encoded by a tag, if any.
pub open spec fn ftype_of_tag(t: u32) -> Option<FType> {
    if t == 0 {
        Some(FType::TFree)
    } else if t == 1 {
        Some(FType::TFile)
    } else if t == 2 {
        Some(FType::TDir)
    } else {
        None
    }
}

/// The disk inode encoded at `off`: a `u32` kind tag, a `u16` link count, a
/// `u64` size and the direct block pointers as `u64`s, all little-endian.
pub open spec fn dinode_at(s: Seq<u8>, off: int) -> Option<DInodeView> {
    match ftype_of_tag(u32_at(s, off)) {
        Some(ft) => Some(
            DInodeView {
                ft,
                nlink: u16_at(s, off + 4),
                size: u64_at(s, off + 6),
                blocks: Seq::new(12, |j: int| u64_at(s, off + 14 + 8 * j)),
            },
        ),
        None => None,
    }
}

/// The directory entry encoded at `off`: a `u64` inode number and the name bytes.
pub open spec fn dir_entry_at(s: Seq<u8>, off: int) -> DirEntryView {
    DirEntryView { inum: u64_at(s, off), name: s.subrange(off + 8, off + 22) }
}

/// The superblock encoded at `off`: its seven fields as little-endian `u64`s.
pub open spec fn superblock_at(s: Seq<u8>, off: int) -> SuperBlock {
    SuperBlock {
        block_size: u64_at(s, off),
        nblocks: u64_at(s, off + 8),
        ninodes: u64_at(s, off + 16),
        inodestart: u64_at(s, off + 24),
        ndatablocks: u64_at(s, off + 32),
        bmapstart: u64_at(s, off + 40),
        datastart: u64_at(s, off + 48),
    }
}

/// Whether `s` and `t` agree on `n` bytes starting at `a` and `b`.
pub open spec fn same_window(s: Seq<u8>, a: int, t: Seq<u8>, b: int, n: int) -> bool {
    &&& 0 <= a
    &&& 0 <= b
    &&& a + n <= s.len()
    &&& b + n <= t.len()
    &&& forall|k: int| 0 <= k < n ==> #[trigger] s[a + k] == t[b + k]
}

/// Sub-windows of agreeing windows agree as subranges.
pub proof fn lemma_window_subrange(s: Seq<u8>, a: int, t: Seq<u8>, b: int, n: int, c: int, w: int)
    requires
        same_window(s, a, t, b, n),
        0 <= c,
        0 <= w,
        c + w <= n,
    ensures
        s.subrange(a + c, a + c + w) == t.subrange(b + c, b + c + w),
{
    assert forall|k: int| 0 <= k < w implies #[trigger] s.subrange(a + c, a + c + w)[k]
        == t.subrange(b + c, b + c + w)[k] by {
        assert(s[a + (c + k)] == t[b + (c + k)]);
    }
    assert(s.subrange(a + c, a + c + w) =~= t.subrange(b + c, b + c + w));
}

/// Integers read inside windows on which two sequences agree are equal.
pub proof fn lemma_window_ints(s: Seq<u8>, a: int, t: Seq<u8>, b: int, n: int, c: int)
    requires
        same_window(s, a, t, b, n),
        0 <= c,
    ensures
        c + 8 <= n ==> u64_at(s, a + c) == u64_at(t, b + c),
        c + 4 <= n ==> u32_at(s, a + c) == u32_at(t, b + c),
        c + 2 <= n ==> u16_at(s, a + c) == u16_at(t, b + c),
{
    if c + 8 <= n {
        lemma_window_subrange(s, a, t, b, n, c, 8);
    }
    if c + 4 <= n {
        lemma_window_subrange(s, a, t, b, n, c, 4);
    }
    if c + 2 <= n {
        lemma_window_subrange(s, a, t, b, n, c, 2);
    }
}

/// A disk inode depends only on the bytes of its own window.
pub proof fn lemma_dinode_window(s: Seq<u8>, a: int, t: Seq<u8>, b: int)
    requires
        same_window(s, a, t, b, DINODE_SIZE as int),
    ensures
        dinode_at(s, a) == dinode_at(t, b),
{
    lemma_window_ints(s, a, t, b, 110, 0);
    lemma_window_ints(s, a, t, b, 110, 4);
    lemma_window_ints(s, a, t, b, 110, 6);
    assert forall|j: int| 0 <= j < 12 implies #[trigger] u64_at(s, a + 14 + 8 * j) == u64_at(
        t,
        b + 14 + 8 * j,
    ) by {
        lemma_window_ints(s, a, t, b, 110, 14 + 8 * j);
    }
    if dinode_at(s, a) is Some {
        assert(dinode_at(s, a).unwrap().blocks =~= dinode_at(t, b).unwrap().blocks);
    }
}

/// A directory entry depends only on the bytes of its own window.
pub proof fn lemma_dir_entry_window(s: Seq<u8>, a: int, t: Seq<u8>, b: int)
    requires
        same_window(s, a, t, b, DIRENTRY_SIZE as int),
    ensures
        dir_entry_at(s, a) == dir_entry_at(t, b),
{
    lemma_window_ints(s, a, t, b, 22, 0);
    lemma_window_subrange(s, a, t, b, 22, 8, 14);
}

/// A superblock depends only on the bytes of its own window.
pub proof fn lemma_superblock_window(s: Seq<u8>, a: int, t: Seq<u8>, b: int)
    requires
        same_window(s, a, t, b, SUPERBLOCK_SIZE as int),
    ensures
        superblock_at(s, a) == superblock_at(t, b),
{
    lemma_window_ints(s, a, t, b, 56, 0);
    lemma_window_ints(s, a, t, b, 56, 8);
    lemma_window_ints(s, a, t, b, 56, 16);
    lemma_window_ints(s, a, t, b, 56, 24);
    lemma_window_ints(s, a, t, b, 56, 32);
    lemma_window_ints(s, a, t, b, 56, 40);
    lemma_window_ints(s, a, t, b, 56, 48);
}

/// Writing `e` at `off` makes the window at `off` agree with `e`, and leaves the
/// bytes outside it unchanged.
pub proof fn lemma_update_window(s: Seq<u8>, off: int, e: Seq<u8>)
    requires
        0 <= off,
        off + e.len() <= s.len(),
    ensures
        same_window(update_bytes(s, off, e), off, e, 0, e.len() as int),
        update_bytes(s, off, e).len() == s.len(),
        forall|k: int|
            0 <= k < s.len() && !(off <= k < off + e.len()) ==> #[trigger] update_bytes(
                s,
                off,
                e,
            )[k] == s[k],
{
}

/// The encoding of a disk inode, as written by [`encode_dinode`].
pub fn encode_dinode(d: &DInode) -> (e: Vec<u8>)
    ensures
        e@.len() == DINODE_SIZE,
        dinode_at(e@, 0) == Some(d@),
{
    proof {
        lemma_auto_spec_u64_to_from_le_bytes();
        lemma_auto_spec_u32_to_from_le_bytes();
        lemma_auto_spec_u16_to_from_le_bytes();
    }
    let tag: u32 = match d.ft {
        FType::TFree => 0,
        FType::TFile => 1,
        FType::TDir => 2,
    };
    let mut e: Vec<u8> = vec![0u8; 110];
    let ghost e0 = e@;
    write_u32_at(&mut e, 0, tag);
    proof { lemma_ints_read_back(e0, 0, 0, tag, 0); }
    let ghost e1 = e@;
    write_u16_at(&mut e, 4, d.nlink);
    proof {
        lemma_ints_read_back(e1, 4, 0, 0, d.nlink);
        lemma_update_frame(e1, 4, spec_u16_to_le_bytes(d.nlink), 0, 4);
    }
    let ghost e2 = e@;
    write_u64_at(&mut e, 6, d.size);
    proof {
        lemma_ints_read_back(e2, 6, d.size, 0, 0);
        lemma_update_frame(e2, 6, spec_u64_to_le_bytes(d.size), 0, 4);
        lemma_update_frame(e2, 6, spec_u64_to_le_bytes(d.size), 4, 6);
    }
    let mut j: usize = 0;
    while j < 12
        invariant
            j <= 12,
            e@.len() == 110,
            u32_at(e@, 0) == tag,
            u16_at(e@, 4) == d.nlink,
            u64_at(e@, 6) == d.size,
            tag == ftype_tag(d.ft),
            forall|i: int| 0 <= i < j ==> #[trigger] u64_at(e@, 14 + 8 * i) == d.direct_blocks@[i],
        decreases 12 - j,
    {
        let ghost before = e@;
        let off = 14 + 8 * j;
        write_u64_at(&mut e, off, d.direct_blocks[j]);
        proof {
            let b = spec_u64_to_le_bytes(d.direct_blocks@[j as int]);
            lemma_ints_read_back(before, off as int, d.direct_blocks@[j as int], 0, 0);
            lemma_update_frame(before, off as int, b, 0, 4);
            lemma_update_frame(before, off as int, b, 4, 6);
            lemma_update_frame(before, off as int, b, 6, 14);
            assert forall|i: int| 0 <= i < j implies #[trigger] u64_at(e@, 14 + 8 * i)
                == d.direct_blocks@[i] by {
                assert(u64_at(before, 14 + 8 * i) == d.direct_blocks@[i]);
                lemma_update_frame(before, off as int, b, 14 + 8 * i, 14 + 8 * i + 8);
            }
        }
        j = j + 1;
    }
    assert(dinode_at(e@, 0).unwrap().blocks =~= d.direct_blocks@);
    e
}

/// Decodes the disk inode at `off`.
pub fn decode_dinode(s: &[u8], off: usize) -> (r: Result<DInode, APIError>)
    requires
        off + DINODE_SIZE <= s@.len(),
    ensures
        match dinode_at(s@, off as int) {
            Some(v) => r matches Ok(d) && d@ == v,
            None => r matches Err(APIError::Deserialization(_)),
        },
{
    let _len = s.len();
    let tag = read_u32_at(s, off);
    let ft = if tag == 0 {
        FType::TFree
    } else if tag == 1 {
        FType::TFile
    } else if tag == 2 {
        FType::TDir
    } else {
        return Err(APIError::Deserialization("invalid inode kind"));
    };
    let nlink = read_u16_at(s, off + 4);
    let size = read_u64_at(s, off + 6);
    let mut blocks: [u64; 12] = [0u64; 12];
    let mut j: usize = 0;
    while j < 12
        invariant
            j <= 12,
            off + 110 <= s@.len(),
            _len == s@.len(),
            forall|i: int| 0 <= i < j ==> #[trigger] blocks@[i] == u64_at(s@, off + 14 + 8 * i),
        decreases 12 - j,
    {
        blocks[j] = read_u64_at(s, off + 14 + 8 * j);
        j = j + 1;
    }
    let d = DInode { ft, nlink, size, direct_blocks: blocks };
    assert(d@.blocks =~= dinode_at(s@, off as int).unwrap().blocks);
    Ok(d)
}

/// The encoding of a directory entry.
pub fn encode_dir_entry(de: &DirEntry) -> (e: Vec<u8>)
    ensures
        e@.len() == DIRENTRY_SIZE,
        dir_entry_at(e@, 0) == de@,
{
    proof { lemma_auto_spec_u64_to_from_le_bytes(); }
    let mut e: Vec<u8> = vec![0u8; 22];
    let ghost e0 = e@;
    write_u64_at(&mut e, 0, de.inum);
    proof { lemma_ints_read_back(e0, 0, de.inum, 0, 0); }
    let ghost e1 = e@;
    write_bytes_at(&mut e, 8, de.name.as_slice());
    proof {
        lemma_update_frame(e1, 8, de.name@, 0, 8);
        lemma_update_reads_back(e1, 8, de.name@);
        assert(e@.subrange(8, 22) =~= de.name@);
    }
    e
}

/// Decodes the directory entry at `off`.
pub fn decode_dir_entry(s: &[u8], off: usize) -> (de: DirEntry)
    requires
        off + DIRENTRY_SIZE <= s@.len(),
    ensures
        de@ == dir_entry_at(s@, off as int),
{
    let _len = s.len();
    let inum = read_u64_at(s, off);
    let mut name: [u8; 14] = [0u8; 14];
    let mut j: usize = 0;
    while j < 14
        invariant
            j <= 14,
            off + 22 <= s@.len(),
            _len == s@.len(),
            forall|i: int| 0 <= i < j ==> #[trigger] name@[i] == s@[off + 8 + i],
        decreases 14 - j,
    {
        name[j] = s[off + 8 + j];
        j = j + 1;
    }
    let de = DirEntry { inum, name };
    assert(de@.name =~= dir_entry_at(s@, off as int).name);
    de
}

/// The encoding of a superblock.
pub fn encode_superblock(sb: &SuperBlock) -> (e: Vec<u8>)
    ensures
        e@.len() == SUPERBLOCK_SIZE,
        superblock_at(e@, 0) == *sb,
{
    proof { lemma_auto_spec_u64_to_from_le_bytes(); }
    let fields: [u64; 7] = [
        sb.block_size,
        sb.nblocks,
        sb.ninodes,
        sb.inodestart,
        sb.ndatablocks,
        sb.bmapstart,
        sb.datastart,
    ];
    let mut e: Vec<u8> = vec![0u8; 56];
    let mut j: usize = 0;
    while j < 7
        invariant
            j <= 7,
            e@.len() == 56,
            forall|i: int| 0 <= i < j ==> #[trigger] u64_at(e@, 8 * i) == fields@[i],
        decreases 7 - j,
    {
        let ghost before = e@;
        write_u64_at(&mut e, 8 * j, fields[j]);
        proof {
            let b = spec_u64_to_le_bytes(fields@[j as int]);
            lemma_ints_read_back(before, 8 * j as int, fields@[j as int], 0, 0);
            assert forall|i: int| 0 <= i < j implies #[trigger] u64_at(e@, 8 * i) == fields@[i] by {
                assert(u64_at(before, 8 * i) == fields@[i]);
                lemma_update_frame(before, 8 * j as int, b, 8 * i, 8 * i + 8);
            }
        }
        j = j + 1;
    }
    assert(u64_at(e@, 8 * 0int) == fields@[0]);
    assert(u64_at(e@, 8 * 1int) == fields@[1]);
    assert(u64_at(e@, 8 * 2int) == fields@[2]);
    assert(u64_at(e@, 8 * 3int) == fields@[3]);
    assert(u64_at(e@, 8 * 4int) == fields@[4]);
    assert(u64_at(e@, 8 * 5int) == fields@[5]);
    assert(u64_at(e@, 8 * 6int) == fields@[6]);
    e
}

/// Decodes the superblock at `off`.
pub fn decode_superblock(s: &[u8], off: usize) -> (sb: SuperBlock)
    requires
        off + SUPERBLOCK_SIZE <= s@.len(),
    ensures
        sb == superblock_at(s@, off as int),
{
    let _len = s.len();
    SuperBlock {
        block_size: read_u64_at(s, off),
        nblocks: read_u64_at(s, off + 8),
        ninodes: read_u64_at(s, off + 16),
        inodestart: read_u64_at(s, off + 24),
        ndatablocks: read_u64_at(s, off + 32),
        bmapstart: read_u64_at(s, off + 40),
        datastart: read_u64_at(s, off + 48),
    }
}

} // verus!
