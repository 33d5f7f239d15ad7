//! Blocks, byte buffers and an in-memory block device.
use vstd::prelude::*;
use vstd::slice::slice_to_vec;
use crate::codec::update_bytes;
use crate::types::{
    APIError, DInode, DirEntry, SuperBlock, DINODE_SIZE, DIRENTRY_SIZE, SUPERBLOCK_SIZE,
    dinode_at, dir_entry_at, superblock_at, encode_dinode, decode_dinode, encode_dir_entry,
    decode_dir_entry, encode_superblock, decode_superblock,
};

verus! {

/// A sequence of `n` zero bytes.
pub open spec fn zeros(n: nat) -> Seq<u8> {
    Seq::new(n, |i: int| 0u8)
}

/// A vector of `n` zero bytes.
pub fn zero_vec(n: u64) -> (v: Vec<u8>)
    ensures
        v@ == zeros(n as nat),
{
    let mut v: Vec<u8> = Vec::new();
    let mut k: u64 = 0;
    while k < n
        invariant
            k <= n,
            v@ == zeros(k as nat),
        decreases n - k,
    {
        v.push(0u8);
        k = k + 1;
        assert(v@ =~= zeros(k as nat));
    }
    v
}

/// Writes `data` into `v` at `offset`, failing when it does not fit.
fn write_into(v: &mut Vec<u8>, data: &[u8], offset: u64) -> (r: Result<(), APIError>)
    ensures
        r is Ok <==> offset + data@.len() <= old(v)@.len(),
        r is Ok ==> final(v)@ == update_bytes(old(v)@, offset as int, data@),
        r is Err ==> final(v)@ == old(v)@ && r matches Err(APIError::BlockInput(_)),
{
    let len = v.len() as u64;
    let n = data.len() as u64;
    if offset > len || n > len - offset {
        return Err(APIError::BlockInput("data does not fit at this offset"));
    }
    crate::codec::write_bytes_at(v, offset as usize, data);
    Ok(())
}

/// A block of the device, with its number.
pub struct Block {
    pub block_no: u64,
    pub contents: Vec<u8>,
}

impl View for Block {
    type V = Seq<u8>;

    open spec fn view(&self) -> Seq<u8> {
        self.contents@
    }
}

impl Block {
    /// A block of `size` zero bytes.
    pub fn new_zero(block_no: u64, size: u64) -> (b: Block)
        ensures
            b.block_no == block_no,
            b@ == zeros(size as nat),
    {
        Block { block_no, contents: zero_vec(size) }
    }

    /// A block holding `contents`.
    pub fn new(block_no: u64, contents: Vec<u8>) -> (b: Block)
        ensures
            b.block_no == block_no,
            b@ == contents@,
    {
        Block { block_no, contents }
    }

    /// Number of bytes in the block.
    pub fn len(&self) -> (n: u64)
        ensures
            n == self@.len(),
    {
        self.contents.len() as u64
    }

    /// The bytes of the block.
    pub fn contents_as_ref(&self) -> (r: &[u8])
        ensures
            r@ == self@,
    {
        self.contents.as_slice()
    }

    /// Writes `data` at `offset`, failing when it does not fit.
    pub fn write_data(&mut self, data: &[u8], offset: u64) -> (r: Result<(), APIError>)
        ensures
            final(self).block_no == old(self).block_no,
            r is Ok <==> offset + data@.len() <= old(self)@.len(),
            r is Ok ==> final(self)@ == update_bytes(old(self)@, offset as int, data@),
            r is Err ==> final(self)@ == old(self)@ && r matches Err(APIError::BlockInput(_)),
    {
        write_into(&mut self.contents, data, offset)
    }

    /// The byte at `offset`.
    pub fn read_u8(&self, offset: u64) -> (r: Result<u8, APIError>)
        ensures
            r is Ok <==> offset < self@.len(),
            r matches Ok(x) ==> x == self@[offset as int],
            r is Err ==> r matches Err(APIError::BlockInput(_)),
    {
        if offset >= self.contents.len() as u64 {
            return Err(APIError::BlockInput("read past the end of the block"));
        }
        Ok(self.contents[offset as usize])
    }

    /// Sets the byte at `offset`.
    pub fn write_u8(&mut self, offset: u64, x: u8) -> (r: Result<(), APIError>)
        ensures
            final(self).block_no == old(self).block_no,
            r is Ok <==> offset < old(self)@.len(),
            r is Ok ==> final(self)@ == old(self)@.update(offset as int, x),
            r is Err ==> final(self)@ == old(self)@ && r matches Err(APIError::BlockInput(_)),
    {
        if offset >= self.contents.len() as u64 {
            return Err(APIError::BlockInput("write past the end of the block"));
        }
        self.contents[offset as usize] = x;
        Ok(())
    }

    /// The disk inode encoded at `offset`.
    pub fn read_dinode(&self, offset: u64) -> (r: Result<DInode, APIError>)
        ensures
            offset + DINODE_SIZE <= self@.len() && dinode_at(self@, offset as int) is Some
                <==> r is Ok,
            r matches Ok(d) ==> Some(d@) == dinode_at(self@, offset as int),
    {
        let len = self.contents.len() as u64;
        if offset > len || len - offset < DINODE_SIZE {
            return Err(APIError::BlockInput("inode does not fit at this offset"));
        }
        decode_dinode(self.contents.as_slice(), offset as usize)
    }

    /// Writes the encoding of `d` at `offset`.
    pub fn write_dinode(&mut self, d: &DInode, offset: u64) -> (r: Result<(), APIError>)
        ensures
            final(self).block_no == old(self).block_no,
            r is Ok <==> offset + DINODE_SIZE <= old(self)@.len(),
            r is Ok ==> final(self)@.len() == old(self)@.len(),
            r is Ok ==> dinode_at(final(self)@, offset as int) == Some(d@),
            r is Ok ==> forall|k: int| 0 <= k < old(self)@.len() && !(offset <= k < offset + DINODE_SIZE)
                ==> #[trigger] final(self)@[k] == old(self)@[k],
            r is Err ==> final(self)@ == old(self)@,
    {
        let e = encode_dinode(d);
        let ghost old_bytes = self@;
        let r = write_into(&mut self.contents, e.as_slice(), offset);
        proof {
            if r is Ok {
                crate::types::lemma_update_window(old_bytes, offset as int, e@);
                crate::types::lemma_dinode_window(self@, offset as int, e@, 0);
            }
        }
        r
    }

    /// The superblock encoded at `offset`.
    pub fn read_superblock(&self, offset: u64) -> (r: Result<SuperBlock, APIError>)
        ensures
            r is Ok <==> offset + SUPERBLOCK_SIZE <= self@.len(),
            r matches Ok(sb) ==> sb == superblock_at(self@, offset as int),
    {
        let len = self.contents.len() as u64;
        if offset > len || len - offset < SUPERBLOCK_SIZE {
            return Err(APIError::BlockInput("superblock does not fit at this offset"));
        }
        Ok(decode_superblock(self.contents.as_slice(), offset as usize))
    }

    /// Writes the encoding of `sb` at `offset`.
    pub fn write_superblock(&mut self, sb: &SuperBlock, offset: u64) -> (r: Result<
        (),
        APIError,
    >)
        ensures
            final(self).block_no == old(self).block_no,
            r is Ok <==> offset + SUPERBLOCK_SIZE <= old(self)@.len(),
            r is Ok ==> final(self)@.len() == old(self)@.len(),
            r is Ok ==> superblock_at(final(self)@, offset as int) == *sb,
            r is Ok ==> forall|k: int| 0 <= k < old(self)@.len() && !(offset <= k < offset + SUPERBLOCK_SIZE)
                ==> #[trigger] final(self)@[k] == old(self)@[k],
            r is Err ==> final(self)@ == old(self)@,
    {
        let e = encode_superblock(sb);
        let ghost old_bytes = self@;
        let r = write_into(&mut self.contents, e.as_slice(), offset);
        proof {
            if r is Ok {
                crate::types::lemma_update_window(old_bytes, offset as int, e@);
                crate::types::lemma_superblock_window(self@, offset as int, e@, 0);
            }
        }
        r
    }
}

/// A byte buffer used to move data in and out of inodes.
pub struct Buffer {
    contents: Vec<u8>,
}

impl View for Buffer {
    type V = Seq<u8>;

    closed spec fn view(&self) -> Seq<u8> {
        self.contents@
    }
}

impl Buffer {
    /// A buffer of `size` zero bytes.
    pub fn new_zero(size: u64) -> (b: Buffer)
        ensures
            b@ == zeros(size as nat),
    {
        Buffer { contents: zero_vec(size) }
    }

    /// A buffer holding `contents`.
    pub fn new(contents: Vec<u8>) -> (b: Buffer)
        ensures
            b@ == contents@,
    {
        Buffer { contents }
    }

    /// Number of bytes in the buffer.
    pub fn len(&self) -> (n: u64)
        ensures
            n == self@.len(),
    {
        self.contents.len() as u64
    }

    /// The bytes of the buffer.
    pub fn contents_as_ref(&self) -> (r: &[u8])
        ensures
            r@ == self@,
    {
        self.contents.as_slice()
    }

    /// Writes `data` at `offset`, failing when it does not fit.
    pub fn write_data(&mut self, data: &[u8], offset: u64) -> (r: Result<(), APIError>)
        ensures
            r is Ok <==> offset + data@.len() <= old(self)@.len(),
            r is Ok ==> final(self)@ == update_bytes(old(self)@, offset as int, data@),
            r is Err ==> final(self)@ == old(self)@ && r matches Err(APIError::BlockInput(_)),
    {
        write_into(&mut self.contents, data, offset)
    }

    /// The directory entry encoded at `offset`.
    pub fn read_dir_entry(&self, offset: u64) -> (r: Result<DirEntry, APIError>)
        ensures
            r is Ok <==> offset + DIRENTRY_SIZE <= self@.len(),
            r matches Ok(de) ==> de@ == dir_entry_at(self@, offset as int),
    {
        let len = self.contents.len() as u64;
        if offset > len || len - offset < DIRENTRY_SIZE {
            return Err(APIError::BlockInput("entry does not fit at this offset"));
        }
        Ok(decode_dir_entry(self.contents.as_slice(), offset as usize))
    }

    /// Writes the encoding of `de` at `offset`.
    pub fn write_dir_entry(&mut self, de: &DirEntry, offset: u64) -> (r: Result<(), APIError>)
        ensures
            r is Ok <==> offset + DIRENTRY_SIZE <= old(self)@.len(),
            r is Ok ==> final(self)@ == update_bytes(old(self)@, offset as int, final(self)@.subrange(offset as int, offset + DIRENTRY_SIZE)),
            r is Ok ==> dir_entry_at(final(self)@, offset as int) == de@,
            r is Err ==> final(self)@ == old(self)@,
    {
        let e = encode_dir_entry(de);
        let ghost old_bytes = self@;
        let r = write_into(&mut self.contents, e.as_slice(), offset);
        proof {
            if r is Ok {
                crate::types::lemma_update_window(old_bytes, offset as int, e@);
                crate::types::lemma_dir_entry_window(self@, offset as int, e@, 0);
                crate::codec::lemma_update_reads_back(old_bytes, offset as int, e@);
            }
        }
        r
    }
}

/// An in-memory block device: `nblocks` blocks of `block_size` bytes each.
pub struct Device {
    block_size: u64,
    nblocks: u64,
    blocks: Vec<Vec<u8>>,
}

impl View for Device {
    type V = Seq<Seq<u8>>;

    closed spec fn view(&self) -> Seq<Seq<u8>> {
        Seq::new(self.blocks@.len(), |i: int| self.blocks@[i]@)
    }
}

impl Device {
    /// Size of each block in bytes.
    pub closed spec fn bs(&self) -> u64 {
        self.block_size
    }

    /// Number of blocks.
    pub closed spec fn nb(&self) -> u64 {
        self.nblocks
    }

    /// The device holds `nb()` blocks of `bs()` bytes each.
    pub open spec fn well_formed(&self) -> bool {
        &&& self@.len() == self.nb()
        &&& forall|i: int| 0 <= i < self@.len() ==> #[trigger] self@[i].len() == self.bs()
        &&& self.nb() > 0 ==> self.bs() <= usize::MAX
    }

    /// A device of `nblocks` zeroed blocks of `block_size` bytes.
    pub fn new(block_size: u64, nblocks: u64) -> (d: Device)
        ensures
            d.well_formed(),
            d.bs() == block_size,
            d.nb() == nblocks,
            d@ == Seq::new(nblocks as nat, |i: int| zeros(block_size as nat)),
    {
        let mut blocks: Vec<Vec<u8>> = Vec::new();
        let mut k: u64 = 0;
        while k < nblocks
            invariant
                k <= nblocks,
                blocks@.len() == k,
                forall|i: int| 0 <= i < k ==> #[trigger] blocks@[i]@ == zeros(block_size as nat),
            decreases nblocks - k,
        {
            blocks.push(zero_vec(block_size));
            k = k + 1;
        }
        if nblocks > 0 {
            let _l = blocks[0].len();
        }
        let d = Device { block_size, nblocks, blocks };
        assert(d@ =~= Seq::new(nblocks as nat, |i: int| zeros(block_size as nat)));
        d
    }

    /// Size of each block in bytes.
    pub fn block_size(&self) -> (r: u64)
        ensures
            r == self.bs(),
    {
        self.block_size
    }

    /// Number of blocks.
    pub fn nblocks(&self) -> (r: u64)
        ensures
            r == self.nb(),
    {
        self.nblocks
    }

    /// Reads block `i`.
    pub fn read_block(&self, i: u64) -> (r: Result<Block, APIError>)
        requires
            self.well_formed(),
        ensures
            r is Ok <==> i < self.nb(),
            r matches Ok(b) ==> b.block_no == i && b@ == self@[i as int],
            r is Err ==> r matches Err(APIError::ControllerInput(_)),
    {
        if i >= self.nblocks {
            return Err(APIError::ControllerInput("block index out of range"));
        }
        let _n = self.blocks.len();
        let contents = slice_to_vec(self.blocks[i as usize].as_slice());
        Ok(Block { block_no: i, contents })
    }

    /// Writes `b` to the block numbered `b.block_no`.
    pub fn write_block(&mut self, b: &Block) -> (r: Result<(), APIError>)
        requires
            old(self).well_formed(),
        ensures
            final(self).well_formed(),
            final(self).bs() == old(self).bs(),
            final(self).nb() == old(self).nb(),
            r is Ok <==> b.block_no < old(self).nb() && b@.len() == old(self).bs(),
            r is Ok ==> final(self)@ == old(self)@.update(b.block_no as int, b@),
            r is Err ==> final(self)@ == old(self)@ && r matches Err(APIError::ControllerInput(_)),
    {
        if b.block_no >= self.nblocks {
            return Err(APIError::ControllerInput("block index out of range"));
        }
        if b.contents.len() as u64 != self.block_size {
            return Err(APIError::ControllerInput("block size does not match the device"));
        }
        let contents = slice_to_vec(b.contents.as_slice());
        let _n = self.blocks.len();
        self.blocks[b.block_no as usize] = contents;
        assert(self@ =~= old(self)@.update(b.block_no as int, b@));
        Ok(())
    }
}

} // verus!
