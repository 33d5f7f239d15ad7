//! Directories: a directory inode holds entries of a name and an inode number,
//! packed one after the other in its data.
use vstd::prelude::*;
use crate::types::{
    APIError, DInode, DInodeView, DirEntry, DirEntryView, FType, Inode, SuperBlock, DIRENTRY_SIZE,
    DIRNAME_SIZE, DIRECT_POINTERS, SUPERBLOCK_SIZE, superblock_at, dir_entry_at,
};
use crate::blocks::{Block, Buffer, Device, zeros};
use crate::a_block_support::{
    sb_usable, sb_fits_device,
    BlockError, bitmap_bit, ceil_div, disk_with_bit, disk_with_zero_block, inodes_per_block, sb_valid_spec,
};
use crate::b_inode_support::{
    InodeError, blocks_to_free, disk_inode, free_all, free_count, free_dinode, free_inode, inode_in_range, inode_block_of,
    inode_usable, inode_written, no_blocks, used_inode,
};
use crate::e_inode_rw_support::{
    pieces_on_device, EsFS21, InodeRWError, all_present, blocks_spanned, bytes_to_read, file_byte, ptr, reads_ok,
};
use std::collections::VecDeque;
use crate::write_model::{write_meets_ok, write_met_done, blocks_sound, blocks_in_data, held, free_below, missing_ptrs, pointed, write_done, write_range_count, met_sound, meetable, out_of_reach};

verus! {

/// An ASCII letter or digit.
pub open spec fn is_alnum(c: char) -> bool {
    let x = c as u32;
    (48 <= x <= 57) || (65 <= x <= 90) || (97 <= x <= 122)
}

/// A valid name of a directory entry: one to fourteen ASCII letters and
/// digits, or `.`, or `..`.
pub open spec fn valid_dirname(s: Seq<char>) -> bool {
    ||| (1 <= s.len() <= DIRNAME_SIZE && forall|i: int| 0 <= i < s.len() ==> is_alnum(#[trigger] s[i]))
    ||| s == seq!['.']
    ||| s == seq!['.', '.']
}

/// Length of the text held by a NUL-padded name: its bytes up to the first zero.
pub open spec fn name_len(s: Seq<u8>) -> nat
    decreases s.len(),
{
    if s.len() == 0 || s[0] == 0 {
        0
    } else {
        1 + name_len(s.drop_first())
    }
}

/// The text of a NUL-padded name: its bytes up to the first zero, as characters.
pub open spec fn name_text(s: Seq<u8>) -> Seq<char> {
    Seq::new(name_len(s), |i: int| s[i] as char)
}

/// The name bytes of a field as long as `s` holding the characters of `t`,
/// zero after them.
pub open spec fn name_written(s: Seq<u8>, t: Seq<char>) -> Seq<u8> {
    Seq::new(s.len(), |i: int| if i < t.len() { (t[i] as u32) as u8 } else { 0u8 })
}

/// `name_len` is the position of the first zero byte, or the length when there is none.
pub proof fn lemma_name_len(s: Seq<u8>, i: int)
    requires
        0 <= i <= s.len(),
        forall|j: int| 0 <= j < i ==> #[trigger] s[j] != 0,
        i == s.len() || s[i] == 0,
    ensures
        name_len(s) == i,
    decreases i,
{
    if i > 0 {
        assert forall|j: int| 0 <= j < i - 1 implies #[trigger] s.drop_first()[j] != 0 by {
            assert(s[j + 1] != 0);
        }
        lemma_name_len(s.drop_first(), i - 1);
    }
}

/// `String::push`: appends `c` to `s`.
#[verifier::external_body]
fn push_char(s: &mut String, c: char)
    ensures
        final(s)@ == old(s)@.push(c),
{
    s.push(c)
}

/// Whether `c` is an ASCII letter or digit.
fn is_alnum_char(c: char) -> (r: bool)
    ensures
        r == is_alnum(c),
{
    let x = c as u32;
    (48 <= x && x <= 57) || (65 <= x && x <= 90) || (97 <= x && x <= 122)
}

/// Whether `name` is a valid name of a directory entry (see [`valid_dirname`]).
pub fn is_dirname(name: &str) -> (r: bool)
    ensures
        r == valid_dirname(name@),
{
    let n = name.unicode_len();
    if n == 1 || n == 2 {
        let mut all_dots = true;
        let mut i: usize = 0;
        while i < n
            invariant
                n == name@.len(),
                i <= n,
                all_dots == forall|j: int| 0 <= j < i ==> name@[j] == '.',
            decreases n - i,
        {
            if name.get_char(i) != '.' {
                all_dots = false;
            }
            i = i + 1;
        }
        if all_dots {
            proof {
                if n == 1 {
                    assert(name@ =~= seq!['.']);
                } else {
                    assert(name@ =~= seq!['.', '.']);
                }
            }
            return true;
        }
        proof {
            let j = choose|j: int| 0 <= j < n && name@[j] != '.';
            assert(!is_alnum(name@[j]) || name@[j] != '.');
            assert(name@ != seq!['.']) by {
                if n == 1 {
                    assert(seq!['.'][j] == '.');
                }
            }
            assert(name@ != seq!['.', '.']) by {
                if n == 2 {
                    assert(seq!['.', '.'][j] == '.');
                }
            }
        }
    }
    if n < 1 || n > DIRNAME_SIZE {
        proof {
            assert(name@.len() != 1 ==> name@ != seq!['.']);
            assert(name@.len() != 2 ==> name@ != seq!['.', '.']);
        }
        return false;
    }
    proof {
        assert(name@.len() != 1 ==> name@ != seq!['.']);
        assert(name@.len() != 2 ==> name@ != seq!['.', '.']);
    }
    let mut i: usize = 0;
    while i < n
        invariant
            n == name@.len(),
            i <= n,
            1 <= n <= 14,
            name@ != seq!['.'],
            name@ != seq!['.', '.'],
            forall|j: int| 0 <= j < i ==> is_alnum(#[trigger] name@[j]),
        decreases n - i,
    {
        if !is_alnum_char(name.get_char(i)) {
            proof {
                assert(!is_alnum(name@[i as int]));
            }
            return false;
        }
        i = i + 1;
    }
    true
}

/// The data of `d` reads whole: its size fits in memory, and every block that
/// holds a byte of it is present and lies on the device.
pub open spec fn data_readable(d: DInodeView, sb: SuperBlock) -> bool {
    &&& d.size <= usize::MAX
    &&& forall|j: int|
        0 <= j < ceil_div(d.size as int, sb.block_size as int) ==> #[trigger] ptr(d, j) != 0 && ptr(d, j)
            < sb.nblocks
}

/// The bytes of entry `k` of the directory with disk inode `d`.
pub open spec fn entry_bytes(disk: Seq<Seq<u8>>, bs: int, d: DInodeView, k: int) -> Seq<u8> {
    Seq::new(22, |x: int| file_byte(disk, bs, d, k * 22 + x))
}

/// Entry `k` of the directory with disk inode `d`.
pub open spec fn dir_entry(disk: Seq<Seq<u8>>, bs: int, d: DInodeView, k: int) -> DirEntryView {
    dir_entry_at(entry_bytes(disk, bs, d, k), 0)
}

/// The entry encoded in the data of `d` at byte offset `off`.
pub open spec fn entry_at(disk: Seq<Seq<u8>>, bs: int, d: DInodeView, off: int) -> DirEntryView {
    dir_entry_at(Seq::new(22, |x: int| file_byte(disk, bs, d, off + x)), 0)
}

/// The entry a new entry for inode `inum` named `name` holds.
pub open spec fn new_entry(inum: u64, name: Seq<char>) -> DirEntryView {
    DirEntryView { inum, name: name_written(Seq::new(14, |i: int| 0u8), name) }
}

/// Number of whole entries within the size of the directory.
pub open spec fn entry_count(d: DInodeView) -> int {
    d.size as int / 22
}

/// The first entry from `k` on whose name reads as `name`, if any.
pub open spec fn find_name(disk: Seq<Seq<u8>>, bs: int, d: DInodeView, name: Seq<char>, k: int) -> Option<int>
    decreases entry_count(d) - k,
{
    if k < 0 || k >= entry_count(d) {
        None
    } else if name_text(dir_entry(disk, bs, d, k).name) == name {
        Some(k)
    } else {
        find_name(disk, bs, d, name, k + 1)
    }
}

/// The first free entry (inode number zero) from `k` on, if any.
pub open spec fn find_free(disk: Seq<Seq<u8>>, bs: int, d: DInodeView, k: int) -> Option<int>
    decreases entry_count(d) - k,
{
    if k < 0 || k >= entry_count(d) {
        None
    } else if dir_entry(disk, bs, d, k).inum == 0 {
        Some(k)
    } else {
        find_free(disk, bs, d, k + 1)
    }
}

/// The last block holding bytes `off .. off + m` is block `(off + m - 1) / bs`.
proof fn lemma_last_block(off: int, m: int, bs: int)
    requires
        0 <= off,
        m > 0,
        bs > 0,
    ensures
        off / bs + ceil_div(off % bs + m, bs) - 1 == (off + m - 1) / bs,
{
    vstd::arithmetic::div_mod::lemma_fundamental_div_mod(off, bs);
    let c = off % bs;
    let x = c + m;
    vstd::arithmetic::div_mod::lemma_fundamental_div_mod(x, bs);
    vstd::arithmetic::div_mod::lemma_fundamental_div_mod(x - 1, bs);
    vstd::arithmetic::div_mod::lemma_fundamental_div_mod(off + m - 1, bs);
    assert(ceil_div(x, bs) - 1 == (x - 1) / bs) by (nonlinear_arith)
        requires
            x == bs * (x / bs) + x % bs,
            x - 1 == bs * ((x - 1) / bs) + (x - 1) % bs,
            0 <= x % bs < bs,
            0 <= (x - 1) % bs < bs,
            x >= 1,
            bs > 0,
            ceil_div(x, bs) == x / bs + if x % bs == 0 { 0int } else { 1int },
    ;
    assert(off + m - 1 == bs * (off / bs + (x - 1) / bs) + (x - 1) % bs) by (nonlinear_arith)
        requires
            off == bs * (off / bs) + c,
            x - 1 == bs * ((x - 1) / bs) + (x - 1) % bs,
            x == c + m,
    ;
    vstd::arithmetic::div_mod::lemma_fundamental_div_mod_converse(off + m - 1, bs, off / bs + (x - 1) / bs, (x - 1) % bs);
}

/// A readable file reads without meeting a missing block anywhere within its size.
proof fn lemma_readable_reads(d: DInodeView, sb: SuperBlock, off: int, m: int)
    requires
        sb.block_size > 0,
        data_readable(d, sb),
        0 <= off,
        0 <= m,
        off + m <= d.size,
    ensures
        reads_ok(d, sb.nblocks, off / (sb.block_size as int), off / (sb.block_size as int) + blocks_spanned(off, m, sb.block_size as int) - 1),
        forall|k: int| 0 <= k < m ==> #[trigger] all_present(d, off / (sb.block_size as int), (off + k) / (sb.block_size as int)),
        all_present(d, off / (sb.block_size as int), off / (sb.block_size as int) + blocks_spanned(off, m, sb.block_size as int) - 1),
{
    let bs = sb.block_size as int;
    let first = off / bs;
    if m > 0 {
        lemma_last_block(off, m, bs);
        crate::b_inode_support::lemma_div_lt_ceil(off + m - 1, d.size as int, bs);
        assert forall|k: int| 0 <= k < m implies #[trigger] all_present(d, first, (off + k) / bs) by {
            vstd::arithmetic::div_mod::lemma_div_is_ordered(off + k, off + m - 1, bs);
            vstd::arithmetic::div_mod::lemma_div_is_ordered(0, off, bs);
            assert forall|j: int| first <= j <= (off + k) / bs implies #[trigger] ptr(d, j) != 0 by {}
        }
        vstd::arithmetic::div_mod::lemma_div_is_ordered(0, off, bs);
        assert forall|j: int| first <= j <= first + blocks_spanned(off, m, bs) - 1 implies #[trigger] ptr(d, j) != 0 by {}
    }
    assert forall|j: int| first <= j <= first + blocks_spanned(off, m, bs) - 1 && all_present(d, first, j - 1) implies #[trigger] ptr(d, j) < sb.nblocks by {
        vstd::arithmetic::div_mod::lemma_div_is_ordered(0, off, bs);
    }
}

/// The entries read from a buffer that holds the file's bytes from entry `k0` on.
proof fn lemma_entries_from_buffer(disk: Seq<Seq<u8>>, bs: int, d: DInodeView, buf: Seq<u8>, k0: int, i: int)
    requires
        0 <= i,
        (i + 1) * 22 <= buf.len(),
        forall|x: int| 0 <= x < (i + 1) * 22 ==> #[trigger] buf[x] == file_byte(disk, bs, d, k0 * 22 + x),
    ensures
        dir_entry_at(buf, i * 22) == dir_entry(disk, bs, d, k0 + i),
{
    let eb = entry_bytes(disk, bs, d, k0 + i);
    assert forall|x: int| 0 <= x < 22 implies #[trigger] buf[i * 22 + x] == eb[x] by {
        assert(buf[i * 22 + x] == file_byte(disk, bs, d, k0 * 22 + (i * 22 + x)));
        assert(k0 * 22 + (i * 22 + x) == (k0 + i) * 22 + x);
    }
    assert(crate::types::same_window(buf, i * 22, eb, 0, 22));
    crate::types::lemma_dir_entry_window(buf, i * 22, eb, 0);
}

/// Walks the entries of a directory in order, reading its data a few blocks'
/// worth at a time.
pub struct DirEntryIterator<'a> {
    fs: &'a EsFS3,
    inode: &'a Inode,
    d_cache: VecDeque<DirEntry>,
    cap: u64,
    last_de: u64,
}

impl<'a> DirEntryIterator<'a> {
    /// The file system it reads.
    pub closed spec fn fs(&self) -> &'a EsFS3 {
        self.fs
    }

    /// The directory it walks.
    pub closed spec fn inode(&self) -> &'a Inode {
        self.inode
    }

    /// Index of the next entry it gives.
    pub closed spec fn pos(&self) -> int {
        self.last_de - self.d_cache@.len()
    }

    /// Well-formedness: the entries read ahead are the directory's entries from
    /// the next one on.
    pub closed spec fn wf(&self) -> bool {
        let d = self.inode.disk_node@;
        let sb = self.fs.sb();
        &&& self.fs.inv()
        &&& data_readable(d, sb)
        &&& 1 <= self.cap
        &&& self.cap * 22 <= u64::MAX
        &&& self.last_de <= entry_count(d)
        &&& self.d_cache@.len() <= self.last_de
        &&& forall|i: int|
            0 <= i < self.d_cache@.len() ==> (#[trigger] self.d_cache@[i])@ == dir_entry(
                self.fs.disk(),
                sb.block_size as int,
                d,
                self.pos() + i,
            )
    }

    /// An iterator over the entries of directory `inode`; fails when `inode`
    /// is not a directory.
    pub fn new(fs: &'a EsFS3, inode: &'a Inode) -> (r: Result<DirEntryIterator<'a>, DirectoryError>)
        requires
            fs.inv(),
            inode.disk_node.ft == FType::TDir ==> data_readable(inode.disk_node@, fs.sb()),
        ensures
            r is Ok <==> inode.disk_node.ft == FType::TDir,
            r matches Ok(it) ==> it.wf() && it.pos() == 0 && it.fs() == fs && it.inode() == inode,
            r is Err ==> r matches Err(DirectoryError::IllegalInode(_)),
    {
        if inode.get_ft() != FType::TDir {
            return Err(DirectoryError::IllegalInode("not a directory, cannot iterate over it"));
        }
        let sb = fs.ifs.sb_value();
        proof {
            crate::a_block_support::lemma_sb_bounds(sb);
        }
        let n_direntry = sb.block_size / DIRENTRY_SIZE;
        Ok(DirEntryIterator { fs, inode, d_cache: VecDeque::with_capacity((1 + n_direntry) as usize), cap: 1 + n_direntry, last_de: 0 })
    }

    /// The next entry of the directory; `None` past the last whole entry.
    pub fn next(&mut self) -> (r: Option<DirEntry>)
        requires
            old(self).wf(),
        ensures
            final(self).wf(),
            final(self).fs() == old(self).fs(),
            final(self).inode() == old(self).inode(),
            old(self).pos() < entry_count(old(self).inode().disk_node@) ==> ({
                &&& r matches Some(de) && de@ == dir_entry(old(self).fs().disk(), old(self).fs().sb().block_size as int, old(self).inode().disk_node@, old(self).pos())
                &&& final(self).pos() == old(self).pos() + 1
            }),
            old(self).pos() >= entry_count(old(self).inode().disk_node@) ==> r is None && final(self).pos() == old(self).pos(),
    {
        match self.d_cache.pop_front() {
            Some(de) => {
                return Some(de);
            },
            None => {},
        }
        let ghost disk = self.fs.disk();
        let ghost sb = self.fs.sb();
        let ghost d = self.inode.disk_node@;
        let ghost bs = sb.block_size as int;
        proof {
            crate::a_block_support::lemma_sb_bounds(sb);
        }
        let offset = self.last_de * DIRENTRY_SIZE;
        let chunk = self.cap * DIRENTRY_SIZE;
        let mut buffer = Buffer::new_zero(chunk);
        proof {
            assert(offset <= d.size);
            let m = bytes_to_read(d.size, chunk, offset, chunk);
            lemma_readable_reads(d, sb, offset as int, m);
        }
        let bytes_read = match self.fs.ifs.i_read(self.inode, &mut buffer, offset, chunk) {
            Ok(m) => m,
            Err(_) => return None,
        };
        let direntries_read = bytes_read / DIRENTRY_SIZE;
        let ghost k0 = self.last_de as int;
        proof {
            let m = bytes_read as int;
            assert(m <= d.size - k0 * 22);
            assert(m == d.size - k0 * 22 || m == chunk);
            assert((k0 * 22 + m) / 22 == k0 + m / 22) by {
                vstd::arithmetic::div_mod::lemma_fundamental_div_mod(m, 22);
                vstd::arithmetic::div_mod::lemma_fundamental_div_mod_converse(k0 * 22 + m, 22, k0 + m / 22, m % 22);
            }
            vstd::arithmetic::div_mod::lemma_div_is_ordered(k0 * 22 + m, d.size as int, 22);
            if k0 < entry_count(d) {
                assert(d.size >= (k0 + 1) * 22) by {
                    vstd::arithmetic::div_mod::lemma_fundamental_div_mod(d.size as int, 22);
                }
                assert(m >= 22);
            } else {
                assert(d.size < (k0 + 1) * 22) by {
                    vstd::arithmetic::div_mod::lemma_fundamental_div_mod(d.size as int, 22);
                }
                assert(m < 22);
            }
        }
        let ghost fs0 = self.fs;
        let ghost ino0 = self.inode;
        self.last_de = self.last_de + direntries_read;
        let mut i: u64 = 0;
        while i < direntries_read
            invariant
                self.fs == fs0,
                self.inode == ino0,
                fs0.disk() == disk,
                fs0.sb() == sb,
                ino0.disk_node@ == d,
                self.cap == old(self).cap,
                self.last_de == k0 + direntries_read,
                i <= direntries_read,
                direntries_read * 22 <= bytes_read,
                bytes_read <= buffer@.len(),
                self.d_cache@.len() == i,
                forall|x: int| 0 <= x < bytes_read ==> #[trigger] buffer@[x] == file_byte(disk, bs, d, k0 * 22 + x),
                forall|j: int| 0 <= j < i ==> (#[trigger] self.d_cache@[j])@ == dir_entry(disk, bs, d, k0 + j),
            decreases direntries_read - i,
        {
            let de = match buffer.read_dir_entry(i * DIRENTRY_SIZE) {
                Ok(de) => de,
                Err(_) => return None,
            };
            proof {
                lemma_entries_from_buffer(disk, bs, d, buffer@, k0, i as int);
            }
            self.d_cache.push_back(de);
            i = i + 1;
        }
        self.d_cache.pop_front()
    }
}

/// Errors of directory operations.
#[derive(Debug)]
pub enum DirectoryError {
    /// Error during initialisation of the file system.
    Init(&'static str),
    /// No entry of the name looked for.
    ItemNotFound,
    /// The inode is not a directory, or differs from the one on disk.
    IllegalInode(&'static str),
    /// The entry to add is not acceptable.
    IllegalDirEntry(&'static str),
    /// Error raised by the layers underneath.
    Backend(InodeRWError),
    /// Error raised by a block, a buffer or the device.
    API(APIError),
}

/// The file system type of this layer, under the name the other layers and
/// the tests use for it.
pub type FSName = EsFS3;

/// A file system supporting directories.
pub struct EsFS3 {
    ifs: EsFS21,
}

/// The disk inode of the root directory as a new file system holds it.
pub open spec fn root_dinode() -> DInodeView {
    DInodeView { ft: FType::TDir, nlink: 1, size: 0, blocks: no_blocks() }
}

impl EsFS3 {
    /// A directory entry for inode `inum` named `name`, the rest of the name
    /// zero; `None` when `name` is not a valid name.
    pub fn new_de(inum: u64, name: &str) -> (r: Option<DirEntry>)
        ensures
            r is Some <==> valid_dirname(name@),
            r matches Some(de) ==> de.inum == inum && de.name@ == name_written(Seq::new(14, |i: int| 0u8), name@),
    {
        let mut de = DirEntry { inum, name: [0u8; 14] };
        proof {
            assert(de.name@ =~= Seq::new(14, |i: int| 0u8));
        }
        match Self::set_name_str(&mut de, name) {
            Some(()) => Some(de),
            None => None,
        }
    }

    /// The name of `de` as text: its bytes up to the first zero.
    pub fn get_name_str(de: &DirEntry) -> (r: String)
        ensures
            r@ == name_text(de.name@),
    {
        let mut name = String::new();
        let mut i: usize = 0;
        while i < DIRNAME_SIZE && de.name[i] != 0
            invariant
                i <= 14,
                de.name@.len() == 14,
                forall|j: int| 0 <= j < i ==> #[trigger] de.name@[j] != 0,
                name@ == Seq::new(i as nat, |j: int| de.name@[j] as char),
            decreases 14 - i,
        {
            push_char(&mut name, de.name[i] as char);
            i = i + 1;
            assert(name@ =~= Seq::new(i as nat, |j: int| de.name@[j] as char));
        }
        proof {
            lemma_name_len(de.name@, i as int);
        }
        name
    }

    /// Writes the characters of `name` into the name of `de` and zeroes the
    /// rest of it, so that the name of `de` reads as `name`; `None`, changing
    /// nothing, when `name` is not a valid name.
    pub fn set_name_str(de: &mut DirEntry, name: &str) -> (r: Option<()>)
        ensures
            r is Some <==> valid_dirname(name@),
            final(de).inum == old(de).inum,
            r is Some ==> final(de).name@ == name_written(old(de).name@, name@),
            r is Some ==> name_text(final(de).name@) == name@,
            r is None ==> final(de).name@ == old(de).name@,
    {
        if is_dirname(name) {
            let n = name.unicode_len();
            proof {
                lemma_name_round_trip(name@);
            }
            let mut i: usize = 0;
            while i < DIRNAME_SIZE
                invariant
                    n == name@.len(),
                    n <= 14,
                    i <= 14,
                    de.inum == old(de).inum,
                    de.name@.len() == 14,
                    old(de).name@.len() == 14,
                    forall|j: int| 0 <= j < i ==> #[trigger] de.name@[j] == (if j < n { (name@[j] as u32) as u8 } else { 0u8 }),
                decreases 14 - i,
            {
                if i < n {
                    de.name[i] = (name.get_char(i) as u32) as u8;
                } else {
                    de.name[i] = 0;
                }
                i = i + 1;
            }
            assert(de.name@ =~= name_written(old(de).name@, name@));
            assert(name_written(old(de).name@, name@) =~= name_written(Seq::new(14, |j: int| 0u8), name@));
            Some(())
        } else {
            None
        }
    }
}

impl EsFS3 {
    /// The blocks of the device.
    pub closed spec fn disk(&self) -> Seq<Seq<u8>> {
        self.ifs.disk()
    }

    /// The cached superblock.
    pub closed spec fn sb(&self) -> SuperBlock {
        self.ifs.sb()
    }

    /// The layers underneath are well formed.
    pub closed spec fn layer_ok(&self) -> bool {
        self.ifs.inv()
    }

    /// Well-formedness: a valid superblock describing the device.
    pub open spec fn inv(&self) -> bool {
        &&& self.layer_ok()
        &&& self.disk().len() == self.sb().nblocks
        &&& forall|i: int|
            0 <= i < self.disk().len() ==> #[trigger] self.disk()[i].len() == self.sb().block_size
        &&& sb_valid_spec(self.sb())
        &&& self.sb().nblocks * (8 * self.sb().block_size) <= u64::MAX
        &&& self.sb().block_size <= usize::MAX
    }

    /// Creates a file system described by `sb` (as the inode layer does) and
    /// writes the root directory: inode 1, a directory with one link and no
    /// data. Fails when `sb` is not valid, or has no inode 1.
    pub fn mkfs(sb: &SuperBlock) -> (r: Result<EsFS3, DirectoryError>)
        ensures
            r is Ok <==> sb_usable(*sb) && sb.ninodes > 1,
            r matches Ok(fs) ==> {
                &&& fs.inv()
                &&& fs.sb() == *sb
                &&& superblock_at(fs.disk()[0], 0) == *sb
                &&& disk_inode(fs.disk(), *sb, 1) == Some(root_dinode())
                &&& forall|j: int| 0 <= j < sb.ninodes && j != 1 ==> #[trigger] disk_inode(fs.disk(), *sb, j) == Some(free_dinode())
                &&& forall|b: int| 1 <= b < sb.nblocks && !(sb.inodestart <= b < sb.bmapstart) ==> #[trigger] fs.disk()[b] == zeros(sb.block_size as nat)
            },
            !sb_usable(*sb) ==> r matches Err(DirectoryError::Backend(InodeRWError::Inode(InodeError::Block(BlockError::InitError(_))))),
            sb_usable(*sb) && sb.ninodes <= 1 ==> r matches Err(DirectoryError::Backend(InodeRWError::Inode(InodeError::Bounds))),
    {
        let mut ifs = match EsFS21::mkfs(sb) {
            Ok(fs) => fs,
            Err(e) => return Err(DirectoryError::Backend(e)),
        };
        let root = Inode {
            inum: 1,
            disk_node: DInode { ft: FType::TDir, nlink: 1, size: 0, direct_blocks: [0u64; 12] },
        };
        proof {
            assert(root.disk_node.direct_blocks@ =~= no_blocks());
            if sb.ninodes > 1 {
                assert(inodes_per_block(*sb) > 0);
            }
        }
        let ghost d0 = ifs.disk();
        match ifs.i_put(&root) {
            Ok(()) => {},
            Err(e) => return Err(DirectoryError::Backend(e)),
        }
        proof {
            assert forall|j: int| 0 <= j < sb.ninodes && j != 1 implies #[trigger] disk_inode(ifs.disk(), *sb, j) == Some(free_dinode()) by {
                crate::b_inode_support::lemma_inode_write_read(d0, ifs.disk(), *sb, 1, root.disk_node@, j);
                assert(disk_inode(d0, *sb, j) == Some(free_dinode()));
            }
            crate::b_inode_support::lemma_inode_write_read(d0, ifs.disk(), *sb, 1, root.disk_node@, 1);
            crate::b_inode_support::lemma_inode_location(*sb, 1);
            assert forall|b: int| 1 <= b < sb.nblocks && !(sb.inodestart <= b < sb.bmapstart) implies #[trigger] ifs.disk()[b] == zeros(sb.block_size as nat) by {
                assert(d0[b] == zeros(sb.block_size as nat));
            }
            assert(ifs.disk()[0] == d0[0]);
        }
        Ok(EsFS3 { ifs })
    }
}

impl EsFS3 {
    /// Reads block `i` of the device.
    pub fn b_get(&self, i: u64) -> (r: Result<Block, DirectoryError>)
        requires
            self.inv(),
        ensures
            r is Ok <==> i < self.sb().nblocks,
            r matches Ok(b) ==> b.block_no == i && b@ == self.disk()[i as int],
            r is Err ==> r matches Err(DirectoryError::Backend(InodeRWError::Inode(InodeError::Block(BlockError::API(_))))),
    {
        match self.ifs.b_get(i) {
            Ok(v) => Ok(v),
            Err(e) => Err(DirectoryError::Backend(e)),
        }
    }

    /// Writes `b` to block `b.block_no` of the device.
    pub fn b_put(&mut self, b: &Block) -> (r: Result<(), DirectoryError>)
        requires
            old(self).inv(),
        ensures
            final(self).inv(),
            final(self).sb() == old(self).sb(),
            r is Ok <==> b.block_no < old(self).sb().nblocks && b@.len() == old(self).sb().block_size,
            r is Ok ==> final(self).disk() == old(self).disk().update(b.block_no as int, b@),
            r is Err ==> final(self).disk() == old(self).disk() && r matches Err(DirectoryError::Backend(InodeRWError::Inode(InodeError::Block(BlockError::API(_))))),
    {
        match self.ifs.b_put(b) {
            Ok(v) => Ok(v),
            Err(e) => Err(DirectoryError::Backend(e)),
        }
    }

    /// Frees data block `i`.
    pub fn b_free(&mut self, i: u64) -> (r: Result<(), DirectoryError>)
        requires
            old(self).inv(),
        ensures
            final(self).inv(),
            final(self).sb() == old(self).sb(),
            r is Ok <==> i < old(self).sb().ndatablocks && bitmap_bit(old(self).disk(), old(self).sb(), i as int),
            r is Ok ==> final(self).disk() == disk_with_bit(old(self).disk(), old(self).sb(), i as int, false),
            r is Err ==> final(self).disk() == old(self).disk(),
            r matches Err(DirectoryError::Backend(InodeRWError::Inode(InodeError::Block(BlockError::Bounds(_))))) <==> i >= old(self).sb().ndatablocks,
            r matches Err(DirectoryError::Backend(InodeRWError::Inode(InodeError::Block(BlockError::Allocation(_))))) <==> i < old(self).sb().ndatablocks && !bitmap_bit(old(self).disk(), old(self).sb(), i as int),
    {
        match self.ifs.b_free(i) {
            Ok(v) => Ok(v),
            Err(e) => Err(DirectoryError::Backend(e)),
        }
    }

    /// Zeroes data block `i`.
    pub fn b_zero(&mut self, i: u64) -> (r: Result<(), DirectoryError>)
        requires
            old(self).inv(),
        ensures
            final(self).inv(),
            final(self).sb() == old(self).sb(),
            r is Ok <==> i < old(self).sb().ndatablocks,
            r is Ok ==> final(self).disk() == disk_with_zero_block(old(self).disk(), old(self).sb(), old(self).sb().datastart + i),
            r is Err ==> final(self).disk() == old(self).disk() && r matches Err(DirectoryError::Backend(InodeRWError::Inode(InodeError::Block(BlockError::Bounds(_))))),
    {
        match self.ifs.b_zero(i) {
            Ok(v) => Ok(v),
            Err(e) => Err(DirectoryError::Backend(e)),
        }
    }

    /// Allocates the free data block with the lowest index.
    pub fn b_alloc(&mut self) -> (r: Result<u64, DirectoryError>)
        requires
            old(self).inv(),
        ensures
            final(self).inv(),
            final(self).sb() == old(self).sb(),
            r is Ok <==> exists|g: int| 0 <= g < old(self).sb().ndatablocks && !bitmap_bit(old(self).disk(), old(self).sb(), g),
            r matches Ok(g) ==> {
                &&& g < old(self).sb().ndatablocks
                &&& !bitmap_bit(old(self).disk(), old(self).sb(), g as int)
                &&& forall|h: int| 0 <= h < g ==> #[trigger] bitmap_bit(old(self).disk(), old(self).sb(), h)
                &&& final(self).disk() == disk_with_zero_block(
                    disk_with_bit(old(self).disk(), old(self).sb(), g as int, true),
                    old(self).sb(),
                    old(self).sb().datastart + g,
                )
            },
            r is Err ==> (r matches Err(DirectoryError::Backend(InodeRWError::Inode(InodeError::Block(BlockError::Allocation(_)))))) && final(self).disk() == old(self).disk(),
    {
        match self.ifs.b_alloc() {
            Ok(v) => Ok(v),
            Err(e) => Err(DirectoryError::Backend(e)),
        }
    }

    /// The cached superblock.
    pub fn sup_get(&self) -> (r: Result<SuperBlock, DirectoryError>)
        ensures
            r == Ok::<SuperBlock, DirectoryError>(self.sb()),
    {
        match self.ifs.sup_get() {
            Ok(v) => Ok(v),
            Err(e) => Err(DirectoryError::Backend(e)),
        }
    }

    /// Block size of the device.
    pub closed spec fn dev_bs(&self) -> u64 {
        self.ifs.dev_bs()
    }

    /// Number of blocks of the device.
    pub closed spec fn dev_nb(&self) -> u64 {
        self.ifs.dev_nb()
    }

    /// The device holds `dev_nb()` blocks of `dev_bs()` bytes each, whatever
    /// the cached superblock says.
    pub open spec fn dev_ok(&self) -> bool {
        &&& self.disk().len() == self.dev_nb()
        &&& forall|i: int| 0 <= i < self.disk().len() ==> #[trigger] self.disk()[i].len() == self.dev_bs()
        &&& self.dev_nb() > 0 ==> self.dev_bs() <= usize::MAX
    }

    /// Replaces the superblock, in the cache and in block 0 (see
    /// [`EsFS1::sup_put`]): any superblock is taken, and the file system is
    /// well formed afterwards exactly when the new one describes the device.
    pub fn sup_put(&mut self, sup: &SuperBlock) -> (r: Result<(), DirectoryError>)
        requires
            old(self).dev_ok(),
        ensures
            final(self).dev_ok(),
            final(self).dev_bs() == old(self).dev_bs(),
            final(self).dev_nb() == old(self).dev_nb(),
            final(self).sb() == *sup,
            final(self).inv() <==> sb_fits_device(*sup, old(self).dev_bs(), old(self).dev_nb()),
            r is Ok <==> 0 < old(self).dev_nb() && SUPERBLOCK_SIZE <= old(self).dev_bs(),
            r is Ok ==> final(self).disk() == old(self).disk().update(0, final(self).disk()[0]),
            r is Ok ==> superblock_at(final(self).disk()[0], 0) == *sup,
            r is Ok ==> forall|k: int|
                SUPERBLOCK_SIZE <= k < old(self).dev_bs() ==> #[trigger] final(self).disk()[0][k] == old(self).disk()[0][k],
            r is Err ==> final(self).disk() == old(self).disk(),
    {
        match self.ifs.sup_put(sup) {
            Ok(v) => Ok(v),
            Err(e) => Err(DirectoryError::Backend(e)),
        }
    }

    /// Reads inode `i`. Fails when `i` is out of range or its bytes do not
    /// encode an inode.
    pub fn i_get(&self, i: u64) -> (r: Result<Inode, DirectoryError>)
        requires
            self.inv(),
            inode_usable(self.sb(), i as int),
        ensures
            r is Ok <==> inode_in_range(self.sb(), i as int) && disk_inode(self.disk(), self.sb(), i as int) is Some,
            r matches Ok(ino) ==> ino.inum == i && Some(ino.disk_node@) == disk_inode(self.disk(), self.sb(), i as int),
            r matches Err(DirectoryError::Backend(InodeRWError::Inode(InodeError::Bounds))) <==> !inode_in_range(self.sb(), i as int),
            r matches Err(DirectoryError::Backend(InodeRWError::Inode(InodeError::API(_)))) <==> inode_in_range(self.sb(), i as int) && disk_inode(self.disk(), self.sb(), i as int) is None,
    {
        match self.ifs.i_get(i) {
            Ok(v) => Ok(v),
            Err(e) => Err(DirectoryError::Backend(e)),
        }
    }

    /// Writes `ino` as inode `ino.inum`. Fails when the number is out of range.
    pub fn i_put(&mut self, ino: &Inode) -> (r: Result<(), DirectoryError>)
        requires
            old(self).inv(),
            inode_usable(old(self).sb(), ino.inum as int),
        ensures
            final(self).inv(),
            final(self).sb() == old(self).sb(),
            r is Ok <==> inode_in_range(old(self).sb(), ino.inum as int),
            r is Ok ==> inode_written(old(self).disk(), final(self).disk(), old(self).sb(), ino.inum as int, ino.disk_node@),
            r is Err ==> final(self).disk() == old(self).disk() && (r matches Err(DirectoryError::Backend(InodeRWError::Inode(InodeError::Bounds)))),
    {
        match self.ifs.i_put(ino) {
            Ok(v) => Ok(v),
            Err(e) => Err(DirectoryError::Backend(e)),
        }
    }

    /// Frees inode `i` when it has no links left: frees its data blocks (see
    /// [`EsFS2::deallocate_valid_blocks`]) and marks it free with no blocks.
    /// Does nothing when links remain; fails when the inode is already free.
    pub fn i_free(&mut self, i: u64) -> (r: Result<(), DirectoryError>)
        requires
            old(self).inv(),
            inode_usable(old(self).sb(), i as int),
        ensures
            final(self).inv(),
            final(self).sb() == old(self).sb(),
            r matches Err(DirectoryError::Backend(InodeRWError::Inode(InodeError::Bounds))) <==> !inode_in_range(old(self).sb(), i as int),
            r matches Err(DirectoryError::Backend(InodeRWError::Inode(InodeError::API(_)))) <==> inode_in_range(old(self).sb(), i as int)
                && disk_inode(old(self).disk(), old(self).sb(), i as int) is None,
            !inode_in_range(old(self).sb(), i as int) || disk_inode(old(self).disk(), old(self).sb(), i as int) is None
                ==> final(self).disk() == old(self).disk(),
            inode_in_range(old(self).sb(), i as int) ==> match disk_inode(old(self).disk(), old(self).sb(), i as int) {
                Some(d) => if d.nlink > 0 {
                    r is Ok && final(self).disk() == old(self).disk()
                } else if d.ft == FType::TFree {
                    (r matches Err(DirectoryError::Backend(InodeRWError::Inode(InodeError::Alloc(_))))) && final(self).disk() == old(self).disk()
                } else {
                    let s = blocks_to_free(d.size, d.blocks, old(self).sb());
                    let c = free_count(old(self).disk(), old(self).sb(), s);
                    let fd = free_all(old(self).disk(), old(self).sb(), s);
                    &&& c < s.len() ==> final(self).disk() == fd && (r matches Err(DirectoryError::Backend(InodeRWError::Inode(InodeError::Block(_)))))
                    &&& (r matches Err(DirectoryError::Backend(InodeRWError::Inode(InodeError::Block(BlockError::Bounds(_))))) <==> c < s.len() && s[c as int] >= old(self).sb().ndatablocks)
                    &&& (r matches Err(DirectoryError::Backend(InodeRWError::Inode(InodeError::Block(BlockError::Allocation(_))))) <==> c < s.len() && s[c as int] < old(self).sb().ndatablocks && !bitmap_bit(fd, old(self).sb(), s[c as int] as int))
                    &&& c == s.len() ==> r is Ok && inode_written(fd, final(self).disk(), old(self).sb(), i as int, DInodeView { ft: FType::TFree, nlink: 0, size: d.size, blocks: no_blocks() })
                },
                None => true,
            },
    {
        match self.ifs.i_free(i) {
            Ok(v) => Ok(v),
            Err(e) => Err(DirectoryError::Backend(e)),
        }
    }

    /// Truncates `inode` to size zero: checks that it matches what is on disk,
    /// frees its data blocks , clears
    /// its block pointers and writes it back.
    pub fn i_trunc(&mut self, inode: &mut Inode) -> (r: Result<(), DirectoryError>)
        requires
            old(self).inv(),
            inode_usable(old(self).sb(), old(inode).inum as int),
        ensures
            final(self).inv(),
            final(self).sb() == old(self).sb(),
            final(inode).inum == old(inode).inum,
            r matches Err(DirectoryError::Backend(InodeRWError::Inode(InodeError::Bounds))) <==> !inode_in_range(old(self).sb(), old(inode).inum as int),
            r matches Err(DirectoryError::Backend(InodeRWError::Inode(InodeError::API(_)))) <==> inode_in_range(old(self).sb(), old(inode).inum as int)
                && disk_inode(old(self).disk(), old(self).sb(), old(inode).inum as int) is None,
            r matches Err(DirectoryError::Backend(InodeRWError::Inode(InodeError::Trunc(_)))) <==> inode_in_range(old(self).sb(), old(inode).inum as int)
                && disk_inode(old(self).disk(), old(self).sb(), old(inode).inum as int) is Some
                && disk_inode(old(self).disk(), old(self).sb(), old(inode).inum as int) != Some(old(inode).disk_node@),
            !(inode_in_range(old(self).sb(), old(inode).inum as int) && disk_inode(old(self).disk(), old(self).sb(), old(inode).inum as int) == Some(old(inode).disk_node@))
                ==> final(self).disk() == old(self).disk() && *final(inode) == *old(inode),
            inode_in_range(old(self).sb(), old(inode).inum as int) && disk_inode(old(self).disk(), old(self).sb(), old(inode).inum as int) == Some(old(inode).disk_node@) ==> ({
                let d = old(inode).disk_node@;
                let s = blocks_to_free(d.size, d.blocks, old(self).sb());
                let c = free_count(old(self).disk(), old(self).sb(), s);
                let fd = free_all(old(self).disk(), old(self).sb(), s);
                &&& c < s.len() ==> final(self).disk() == fd && (r matches Err(DirectoryError::Backend(InodeRWError::Inode(InodeError::Block(_))))) && *final(inode) == *old(inode)
                &&& (r matches Err(DirectoryError::Backend(InodeRWError::Inode(InodeError::Block(BlockError::Bounds(_))))) <==> c < s.len() && s[c as int] >= old(self).sb().ndatablocks)
                &&& (r matches Err(DirectoryError::Backend(InodeRWError::Inode(InodeError::Block(BlockError::Allocation(_))))) <==> c < s.len() && s[c as int] < old(self).sb().ndatablocks && !bitmap_bit(fd, old(self).sb(), s[c as int] as int))
                &&& c == s.len() ==> {
                    &&& r is Ok
                    &&& final(inode).disk_node@ == DInodeView { ft: d.ft, nlink: d.nlink, size: 0, blocks: no_blocks() }
                    &&& inode_written(fd, final(self).disk(), old(self).sb(), old(inode).inum as int, final(inode).disk_node@)
                }
            }),
    {
        match self.ifs.i_trunc(inode) {
            Ok(v) => Ok(v),
            Err(e) => Err(DirectoryError::Backend(e)),
        }
    }

    /// Allocates the free inode with the lowest number among `1.. ninodes`:
    /// gives it kind `ft`, size zero and no blocks (its link count is kept), and
    /// returns its number. Fails when no inode in that range is free.
    pub fn i_alloc(&mut self, ft: FType) -> (r: Result<u64, DirectoryError>)
        requires
            old(self).inv(),
            forall|j: int| 1 <= j < old(self).sb().ninodes && (forall|k: int| 1 <= k < j ==> #[trigger] used_inode(old(self).disk(), old(self).sb(), k))
                ==> #[trigger] disk_inode(old(self).disk(), old(self).sb(), j) is Some,
        ensures
            final(self).inv(),
            final(self).sb() == old(self).sb(),
            r is Ok <==> exists|j: int| 1 <= j < old(self).sb().ninodes && #[trigger] free_inode(old(self).disk(), old(self).sb(), j),
            r matches Ok(j) ==> {
                &&& 1 <= j < old(self).sb().ninodes
                &&& free_inode(old(self).disk(), old(self).sb(), j as int)
                &&& forall|k: int| 1 <= k < j ==> #[trigger] used_inode(old(self).disk(), old(self).sb(), k)
                &&& inode_written(old(self).disk(), final(self).disk(), old(self).sb(), j as int, DInodeView {
                    ft,
                    nlink: disk_inode(old(self).disk(), old(self).sb(), j as int).unwrap().nlink,
                    size: 0,
                    blocks: no_blocks(),
                })
            },
            r is Err ==> (r matches Err(DirectoryError::Backend(InodeRWError::Inode(InodeError::Alloc(_))))) && final(self).disk() == old(self).disk(),
    {
        match self.ifs.i_alloc(ft) {
            Ok(v) => Ok(v),
            Err(e) => Err(DirectoryError::Backend(e)),
        }
    }

    /// Whether `sb` is a valid superblock.
    pub fn sb_valid(sb: &SuperBlock) -> (r: bool)
        ensures
            r == sb_valid_spec(*sb),
    {
        EsFS21::sb_valid(sb)
    }

    /// Mounts the file system on `dev`.
    pub fn mountfs(dev: Device) -> (r: Result<EsFS3, DirectoryError>)
        requires
            dev.well_formed(),
            dev.nb() * (8 * dev.bs()) <= u64::MAX,
        ensures
            r matches Ok(fs) ==> fs.inv() && fs.disk() == dev@ && fs.sb() == superblock_at(dev@[0], 0),
            r is Ok <==> {
                &&& dev.nb() > 0
                &&& SUPERBLOCK_SIZE <= dev.bs()
                &&& sb_valid_spec(superblock_at(dev@[0], 0))
                &&& superblock_at(dev@[0], 0).block_size == dev.bs()
                &&& superblock_at(dev@[0], 0).nblocks == dev.nb()
            },
            r is Err ==> r matches Err(DirectoryError::Backend(InodeRWError::Inode(InodeError::Block(_)))),
    {
        match EsFS21::mountfs(dev) {
            Ok(ifs) => Ok(EsFS3 { ifs }),
            Err(e) => Err(DirectoryError::Backend(e)),
        }
    }

    /// Gives the device back.
    pub fn unmountfs(self) -> (d: Device)
        requires
            self.inv(),
        ensures
            d.well_formed(),
            d@ == self.disk(),
            d.bs() == self.sb().block_size,
            d.nb() == self.sb().nblocks,
    {
        self.ifs.unmountfs()
    }

    /// Reads up to `n` bytes of the data of `inode` from offset `off` into the
    /// start of `buf`: as many as fit in the buffer and lie before the end of the
    /// inode. Returns how many were read. Fails when `off` lies past the end of
    /// the inode, or a block to read has pointer zero (the bytes of the blocks
    /// before it are then in the buffer).
    pub fn i_read(&self, inode: &Inode, buf: &mut Buffer, off: u64, n: u64) -> (r: Result<u64, DirectoryError>)
        requires
            self.inv(),
            inode.disk_node.size <= usize::MAX,
            off <= inode.disk_node.size ==> ({
                let m = bytes_to_read(inode.disk_node.size, old(buf)@.len() as u64, off, n);
                let first = off / self.sb().block_size;
                reads_ok(inode.disk_node@, self.sb().nblocks, first as int, first + blocks_spanned(off as int, m, self.sb().block_size as int) - 1)
            }),
        ensures
            final(buf)@.len() == old(buf)@.len(),
            off > inode.disk_node.size ==> (r matches Err(DirectoryError::Backend(InodeRWError::RW(_)))) && final(buf)@ == old(buf)@,
            off <= inode.disk_node.size ==> ({
                let bs = self.sb().block_size as int;
                let m = bytes_to_read(inode.disk_node.size, old(buf)@.len() as u64, off, n);
                let first = off / self.sb().block_size;
                let nb = blocks_spanned(off as int, m, bs);
                let d = inode.disk_node@;
                &&& (r is Ok <==> all_present(d, first as int, first + nb - 1))
                &&& (r matches Ok(x) ==> x == m)
                &&& (r is Err ==> r matches Err(DirectoryError::Backend(InodeRWError::RW(_))))
                &&& forall|k: int| 0 <= k < old(buf)@.len() ==> #[trigger] final(buf)@[k] == if k < m && all_present(d, first as int, (off + k) / bs) {
                    file_byte(self.disk(), bs, d, off + k)
                } else {
                    old(buf)@[k]
                }
            }),
    {
        match self.ifs.i_read(inode, buf, off, n) {
            Ok(v) => Ok(v),
            Err(e) => Err(DirectoryError::Backend(e)),
        }
    }

    /// Writes the first `n` bytes of `buf` into the data of `inode` from offset
    /// `off` on, block by block, allocating the lowest free data block for each
    /// piece whose pointer is zero (see [`write_range_count`] for the pieces),
    /// and grows the inode, writing it back, when the bytes end past its size.
    /// Fails, changing nothing, when the buffer holds fewer than `n` bytes
    /// (`RW`), when the bytes would end past the blocks an inode can have
    /// (`OutOfBlocks`), or when `off` lies past the end of the inode (`RW`).
    /// Otherwise fails with `OutOfBlocks` exactly when the pieces reach past the
    /// pointer array or need more blocks than the bitmap has free, and with the
    /// inode layer's `Bounds` when the inode must grow and its number is out of
    /// range. The outcome past the first three checks is stated for an inode
    /// whose block pointers are sound (see [`blocks_sound`]); once the first
    /// three checks pass, the pointers the pieces meet must lie on the device.
    pub fn i_write(&mut self, inode: &mut Inode, buf: &Buffer, off: u64, n: u64) -> (r: Result<(), DirectoryError>)
        requires
            old(self).inv(),
            buf@.len() >= n ==> off + n <= u64::MAX && off + n <= usize::MAX,
            buf@.len() >= n && off + n <= 12 * old(self).sb().block_size && off <= old(inode).disk_node.size && n > 0
                ==> inode_usable(old(self).sb(), old(inode).inum as int),
            buf@.len() >= n && off + n <= 12 * old(self).sb().block_size && off <= old(inode).disk_node.size
                ==> pieces_on_device(old(self).sb(), old(inode).disk_node@, off as int, n as int),
        ensures
            final(self).inv(),
            final(self).sb() == old(self).sb(),
            final(inode).inum == old(inode).inum,
            ({
                let sb = old(self).sb();
                let bs = sb.block_size as int;
                let d0 = old(inode).disk_node@;
                let first = off as int / bs;
                let nr = write_range_count(n as int, off as int % bs, bs);
                let short = first + nr > 12 || missing_ptrs(d0, first, first + nr) > free_below(old(self).disk(), sb, sb.ndatablocks as int);
                let unchanged = final(self).disk() == old(self).disk() && *final(inode) == *old(inode);
                &&& buf@.len() < n ==> (r matches Err(DirectoryError::Backend(InodeRWError::RW(_)))) && unchanged
                &&& buf@.len() >= n && 12 * bs < off + n ==> (r matches Err(DirectoryError::Backend(InodeRWError::OutOfBlocks(_)))) && unchanged
                &&& buf@.len() >= n && off + n <= 12 * bs && d0.size < off ==> (r matches Err(DirectoryError::Backend(InodeRWError::RW(_)))) && unchanged
                &&& buf@.len() >= n && off + n <= 12 * bs && off <= d0.size && n == 0 ==> r is Ok && unchanged
                &&& buf@.len() >= n && off + n <= 12 * bs && off <= d0.size && n > 0
                    && write_meets_ok(old(self).disk(), sb, d0, old(inode).inum as int, off as int, n as int) ==> {
                    &&& (r matches Err(DirectoryError::Backend(InodeRWError::OutOfBlocks(_))) <==> short)
                    &&& (r matches Err(DirectoryError::Backend(InodeRWError::Inode(InodeError::Bounds))) <==> !short && d0.size < off + n
                        && !inode_in_range(sb, old(inode).inum as int))
                    &&& (r is Ok <==> !short && (d0.size < off + n ==> inode_in_range(sb, old(inode).inum as int)))
                    &&& r is Ok ==> write_met_done(old(self).disk(), d0, final(self).disk(), final(inode).disk_node@, sb,
                        old(inode).inum as int, off as int, n as int, buf@)
                }
                &&& buf@.len() >= n && off + n <= 12 * bs && off <= d0.size && n > 0 && blocks_sound(old(self).disk(), sb, d0) ==> {
                    &&& write_meets_ok(old(self).disk(), sb, d0, old(inode).inum as int, off as int, n as int)
                    &&& r is Ok ==> write_done(old(self).disk(), d0, final(self).disk(), final(inode).disk_node@, sb,
                        old(inode).inum as int, off as int, n as int, buf@)
                    &&& r is Err ==> blocks_sound(final(self).disk(), sb, final(inode).disk_node@)
                }
            }),
    {
        match self.ifs.i_write(inode, buf, off, n) {
            Ok(v) => Ok(v),
            Err(e) => Err(DirectoryError::Backend(e)),
        }
    }
}


/// Whether two strings hold the same characters.
pub fn str_eq(a: &str, b: &str) -> (r: bool)
    ensures
        r == (a@ == b@),
{
    let n = a.unicode_len();
    if n != b.unicode_len() {
        return false;
    }
    let mut i: usize = 0;
    while i < n
        invariant
            n == a@.len(),
            n == b@.len(),
            i <= n,
            forall|j: int| 0 <= j < i ==> a@[j] == b@[j],
        decreases n - i,
    {
        if a.get_char(i) != b.get_char(i) {
            return false;
        }
        i = i + 1;
    }
    assert(a@ =~= b@);
    true
}

/// What looking a name up in directory `ino` gives on `disk`, once the
/// directory is known to be consistent: `None` when no entry has the name,
/// else the index of the first entry that has it.
pub open spec fn lookup_index(disk: Seq<Seq<u8>>, sb: SuperBlock, d: DInodeView, name: Seq<char>) -> Option<int> {
    find_name(disk, sb.block_size as int, d, name, 0)
}


/// The blocks a write inside the data of a readable file touches lie on the
/// device.
pub proof fn lemma_readable_pieces(sb: SuperBlock, d: DInodeView, off: int, n: int)
    requires
        sb.block_size > 0,
        data_readable(d, sb),
        off >= 0,
        n > 0,
        off + n <= d.size,
    ensures
        pieces_on_device(sb, d, off, n),
{
    let bs = sb.block_size as int;
    assert forall|j: int| off / bs <= j < off / bs + write_range_count(n, off % bs, bs) implies #[trigger] ptr(d, j) < sb.nblocks by {
        crate::write_model::lemma_pieces_within(off, n, bs, j);
        vstd::arithmetic::div_mod::lemma_div_pos_is_pos(off, bs);
        crate::b_inode_support::lemma_mul_lt_ceil(j, d.size as int, bs);
    }
}

/// A link of `name` to inode `inum` gets past its first checks: the name is
/// valid, and inode `inum` reads and is in use.
pub open spec fn link_ready(disk: Seq<Seq<u8>>, sb: SuperBlock, name: Seq<char>, inum: int) -> bool {
    &&& valid_dirname(name)
    &&& inode_in_range(sb, inum)
    &&& disk_inode(disk, sb, inum) matches Some(t) && t.ft != FType::TFree
}

/// Inode `i` with disk inode `d` is a directory, as it is on disk.
pub open spec fn dir_on_disk(disk: Seq<Seq<u8>>, sb: SuperBlock, i: int, d: DInodeView) -> bool {
    &&& d.ft == FType::TDir
    &&& inode_in_range(sb, i)
    &&& disk_inode(disk, sb, i) == Some(d)
}

/// `t` with its link count set to `n`.
pub open spec fn with_nlink(t: DInodeView, n: int) -> DInodeView {
    DInodeView { ft: t.ft, nlink: n as u16, size: t.size, blocks: t.blocks }
}

/// A write at `off` keeps a readable file readable: its data stays contiguous
/// from the start, every block holding it present on the device.
pub proof fn lemma_write_keeps_readable(
    d0_disk: Seq<Seq<u8>>,
    d0: DInodeView,
    d1_disk: Seq<Seq<u8>>,
    d1: DInodeView,
    sb: SuperBlock,
    inum: int,
    off: int,
    n: int,
    buf: Seq<u8>,
)
    requires
        sb_valid_spec(sb),
        sb.nblocks * (8 * sb.block_size) <= u64::MAX,
        0 <= off <= d0.size,
        n > 0,
        d1.size <= usize::MAX,
        data_readable(d0, sb),
        write_done(d0_disk, d0, d1_disk, d1, sb, inum, off, n, buf),
    ensures
        data_readable(d1, sb),
{
    let bs = sb.block_size as int;
    let first = off / bs;
    let nr = write_range_count(n, off % bs, bs);
    crate::a_block_support::lemma_sb_bounds(sb);
    assert(off + n <= u64::MAX);
    crate::e_inode_rw_support::lemma_write_read_back(d0_disk, d0, d1_disk, d1, sb, inum, off as u64, n as u64, buf, n as u64);
    let nb = blocks_spanned(off, n, bs);
    lemma_last_block(off, n, bs);
    assert forall|j: int| 0 <= j < ceil_div(d1.size as int, bs) implies #[trigger] ptr(d1, j) != 0 && ptr(d1, j) < sb.nblocks by {
        crate::b_inode_support::lemma_mul_lt_ceil(j, d1.size as int, bs);
        crate::b_inode_support::lemma_mul_lt_ceil(j, d0.size as int, bs);
        if j < ceil_div(d0.size as int, bs) {
            assert(ptr(d0, j) != 0);
        } else {
            assert(j * bs < off + n);
            assert(j * bs >= off);
            vstd::arithmetic::div_mod::lemma_fundamental_div_mod(off, bs);
            assert(j >= first) by (nonlinear_arith)
                requires
                    j * bs >= off,
                    off == bs * first + off % bs,
                    off % bs < bs,
                    bs > 0,
            ;
            vstd::arithmetic::div_mod::lemma_fundamental_div_mod(off + n - 1, bs);
            assert(j <= (off + n - 1) / bs) by (nonlinear_arith)
                requires
                    j * bs <= off + n - 1,
                    off + n - 1 == bs * ((off + n - 1) / bs) + (off + n - 1) % bs,
                    0 <= (off + n - 1) % bs,
                    bs > 0,
            ;
            assert(all_present(d1, first, first + nb - 1));
        }
        if !(0 <= j < 12) {
            assert(ptr(d1, j) == 0);
        }
    }
}

/// After a write of the entry bytes `buf[0 .. 22]` at `off`, within or at
/// the end of a readable directory, the bytes at `off` hold the written entry
/// The entry at `off` of a file whose bytes there are those of `buf` is the
/// entry `buf` encodes.
proof fn lemma_entry_at_bytes(disk: Seq<Seq<u8>>, bs: int, d: DInodeView, off: int, buf: Seq<u8>)
    requires
        buf.len() >= 22,
        forall|x: int| 0 <= x < 22 ==> #[trigger] file_byte(disk, bs, d, off + x) == buf[x],
    ensures
        entry_at(disk, bs, d, off) == dir_entry_at(buf, 0),
{
    let eb = Seq::new(22, |x: int| file_byte(disk, bs, d, off + x));
    assert forall|x: int| 0 <= x < 22 implies #[trigger] eb[x] == buf[x] by {}
    assert(crate::types::same_window(eb, 0, buf, 0, 22));
    crate::types::lemma_dir_entry_window(eb, 0, buf, 0);
}

/// and every entry apart from them is as before.
pub proof fn lemma_entry_written(
    d0_disk: Seq<Seq<u8>>,
    d0: DInodeView,
    d1_disk: Seq<Seq<u8>>,
    d1: DInodeView,
    sb: SuperBlock,
    inum: int,
    off: int,
    buf: Seq<u8>,
)
    requires
        sb.block_size > 0,
        0 <= off <= d0.size,
        buf.len() >= 22,
        data_readable(d0, sb),
        write_done(d0_disk, d0, d1_disk, d1, sb, inum, off, 22, buf),
    ensures
        entry_at(d1_disk, sb.block_size as int, d1, off) == dir_entry_at(buf, 0),
        forall|k: int|
            0 <= k < entry_count(d0) && (k * 22 + 22 <= off || off + 22 <= k * 22) ==> #[trigger] dir_entry(d1_disk, sb.block_size as int, d1, k)
                == dir_entry(d0_disk, sb.block_size as int, d0, k),
{
    let bs = sb.block_size as int;
    let eb = Seq::new(22, |x: int| file_byte(d1_disk, bs, d1, off + x));
    assert forall|x: int| 0 <= x < 22 implies #[trigger] eb[x] == buf[x] by {}
    assert(crate::types::same_window(eb, 0, buf, 0, 22));
    crate::types::lemma_dir_entry_window(eb, 0, buf, 0);
    assert forall|k: int| 0 <= k < entry_count(d0) && (k * 22 + 22 <= off || off + 22 <= k * 22) implies #[trigger] dir_entry(d1_disk, bs, d1, k) == dir_entry(d0_disk, bs, d0, k) by {
        let e1 = entry_bytes(d1_disk, bs, d1, k);
        let e0 = entry_bytes(d0_disk, bs, d0, k);
        assert forall|x: int| 0 <= x < 22 implies #[trigger] e1[x] == e0[x] by {
            let p = k * 22 + x;
            vstd::arithmetic::div_mod::lemma_fundamental_div_mod(d0.size as int, 22);
            assert(p < d0.size);
            assert(!(off <= p < off + 22));
            crate::b_inode_support::lemma_div_lt_ceil(p, d0.size as int, bs);
            vstd::arithmetic::div_mod::lemma_div_pos_is_pos(p, bs);
            assert(ptr(d0, p / bs) != 0);
        }
        assert(crate::types::same_window(e1, 0, e0, 0, 22));
        crate::types::lemma_dir_entry_window(e1, 0, e0, 0);
    }
}

/// Writing an inode changes no data block: the soundness and the bytes of a
/// file whose blocks lie in the data region stay.
pub proof fn lemma_inode_put_frame(
    disk: Seq<Seq<u8>>,
    disk2: Seq<Seq<u8>>,
    d: DInodeView,
    sb: SuperBlock,
    inum: int,
    t: DInodeView,
)
    requires
        sb_valid_spec(sb),
        sb.nblocks * (8 * sb.block_size) <= u64::MAX,
        crate::write_model::disk_shape(disk, sb),
        inode_in_range(sb, inum),
        inodes_per_block(sb) > 0,
        0 <= inum,
        blocks_sound(disk, sb, d),
        inode_written(disk, disk2, sb, inum, t),
    ensures
        blocks_sound(disk2, sb, d),
        crate::write_model::disk_shape(disk2, sb),
        forall|p: int| ptr(d, p / (sb.block_size as int)) != 0 ==> #[trigger] file_byte(disk2, sb.block_size as int, d, p) == file_byte(disk, sb.block_size as int, d, p),
{
    let bs = sb.block_size as int;
    crate::b_inode_support::lemma_inode_location(sb, inum);
    let ib = crate::b_inode_support::inode_block_of(sb, inum);
    assert(forall|b: int| 0 <= b < disk.len() && b != ib ==> #[trigger] disk2[b] == disk[b]);
    crate::write_model::lemma_bits_frame(disk, disk2, sb);
    assert forall|p: int| ptr(d, p / bs) != 0 implies #[trigger] file_byte(disk2, bs, d, p) == file_byte(disk, bs, d, p) by {
        let j = p / bs;
        if !(0 <= j < 12) {
            assert(ptr(d, j) == 0);
        }
    }
}

/// The entries of a readable directory depend only on the bytes of its blocks.
pub proof fn lemma_entries_same(disk: Seq<Seq<u8>>, disk2: Seq<Seq<u8>>, d: DInodeView, sb: SuperBlock)
    requires
        sb.block_size > 0,
        data_readable(d, sb),
        forall|p: int| ptr(d, p / (sb.block_size as int)) != 0 ==> #[trigger] file_byte(disk2, sb.block_size as int, d, p) == file_byte(disk, sb.block_size as int, d, p),
    ensures
        forall|k: int| 0 <= k < entry_count(d) ==> #[trigger] dir_entry(disk2, sb.block_size as int, d, k) == dir_entry(disk, sb.block_size as int, d, k),
{
    let bs = sb.block_size as int;
    assert forall|k: int| 0 <= k < entry_count(d) implies #[trigger] dir_entry(disk2, bs, d, k) == dir_entry(disk, bs, d, k) by {
        let e2 = entry_bytes(disk2, bs, d, k);
        let e1 = entry_bytes(disk, bs, d, k);
        assert forall|x: int| 0 <= x < 22 implies #[trigger] e2[x] == e1[x] by {
            let p = k * 22 + x;
            vstd::arithmetic::div_mod::lemma_fundamental_div_mod(d.size as int, 22);
            crate::b_inode_support::lemma_div_lt_ceil(p, d.size as int, bs);
            vstd::arithmetic::div_mod::lemma_div_pos_is_pos(p, bs);
            assert(ptr(d, p / bs) != 0);
        }
        assert(crate::types::same_window(e2, 0, e1, 0, 22));
        crate::types::lemma_dir_entry_window(e2, 0, e1, 0);
    }
}

/// A write into a file leaves alone every allocated block that is not one
/// of the file's own, keeps every allocated block allocated, and takes for
/// the file only blocks that were free.
pub proof fn lemma_write_frame_blocks(
    d0_disk: Seq<Seq<u8>>,
    d0: DInodeView,
    d1_disk: Seq<Seq<u8>>,
    d1: DInodeView,
    sb: SuperBlock,
    inum: int,
    off: int,
    n: int,
    buf: Seq<u8>,
)
    requires
        sb_valid_spec(sb),
        sb.nblocks * (8 * sb.block_size) <= u64::MAX,
        0 <= inum,
        inode_in_range(sb, inum),
        inodes_per_block(sb) > 0,
        write_done(d0_disk, d0, d1_disk, d1, sb, inum, off, n, buf),
    ensures
        forall|b: int| held(d0_disk, sb, b) && !pointed(d0, 0, 12, b)
            ==> #[trigger] d1_disk[b] == d0_disk[b],
        forall|h: int| 0 <= h < sb.ndatablocks && bitmap_bit(d0_disk, sb, h) ==> #[trigger] bitmap_bit(d1_disk, sb, h),
        forall|j: int| 0 <= j < 12 && ptr(d0, j) == 0 && ptr(d1, j) != 0 ==> !bitmap_bit(d0_disk, sb, #[trigger] ptr(d1, j) - sb.datastart),
{
    let bs = sb.block_size as int;
    let first = off / bs;
    let last = first + write_range_count(n, off % bs, bs);
    let ds = sb.datastart as int;
    crate::b_inode_support::lemma_inode_location(sb, inum);
    assert forall|b: int| held(d0_disk, sb, b) && !pointed(d0, 0, 12, b)
        implies #[trigger] d1_disk[b] == d0_disk[b] by {
        if pointed(d1, first, last, b) {
            let j = choose|j: int| first <= j < last && #[trigger] ptr(d1, j) == b;
            if ptr(d0, j) != 0 {
                assert(ptr(d1, j) == ptr(d0, j));
                assert(0 <= j < 12);
                assert(pointed(d0, 0, 12, b));
            } else {
                assert(!bitmap_bit(d0_disk, sb, ptr(d1, j) - ds));
            }
        }
    }
    assert forall|j: int| 0 <= j < 12 && ptr(d0, j) == 0 && ptr(d1, j) != 0 implies !bitmap_bit(d0_disk, sb, #[trigger] ptr(d1, j) - sb.datastart) by {
        if !(first <= j < last) {
            assert(ptr(d1, j) == ptr(d0, j));
        }
    }
}

impl EsFS3 {
    /// Looks `name` up in directory `inode`: gives the inode of the first
    /// entry with that name and the entry's byte offset. Fails when `inode` is
    /// not a directory or differs from the inode on disk, when no entry has the
    /// name, or when an inode cannot be read.
    pub fn dirlookup(&self, inode: &Inode, name: &str) -> (r: Result<(Inode, u64), DirectoryError>)
        requires
            self.inv(),
            inode.disk_node.ft == FType::TDir ==> inode_usable(self.sb(), inode.inum as int),
            inode.disk_node.ft == FType::TDir && inode_in_range(self.sb(), inode.inum as int)
                && disk_inode(self.disk(), self.sb(), inode.inum as int) == Some(inode.disk_node@)
                ==> data_readable(inode.disk_node@, self.sb()),
        ensures
            ({
                let sb = self.sb();
                let disk = self.disk();
                let d = inode.disk_node@;
                let i = inode.inum as int;
                let on_disk = disk_inode(disk, sb, i);
                let is_dir = inode.disk_node.ft == FType::TDir;
                &&& !is_dir ==> (r matches Err(DirectoryError::IllegalInode(_)))
                &&& is_dir && !inode_in_range(sb, i) ==> (r matches Err(DirectoryError::Backend(InodeRWError::Inode(InodeError::Bounds))))
                &&& is_dir && inode_in_range(sb, i) && on_disk is None ==> (r matches Err(DirectoryError::Backend(InodeRWError::Inode(InodeError::API(_)))))
                &&& is_dir && inode_in_range(sb, i) && on_disk is Some && on_disk != Some(d) ==> (r matches Err(DirectoryError::IllegalInode(_)))
                &&& is_dir && inode_in_range(sb, i) && on_disk == Some(d) ==> match lookup_index(disk, sb, d, name@) {
                    None => (r matches Err(DirectoryError::ItemNotFound)),
                    Some(k) => {
                        let e = dir_entry(disk, sb.block_size as int, d, k).inum as int;
                        &&& !inode_in_range(sb, e) ==> (r matches Err(DirectoryError::Backend(InodeRWError::Inode(InodeError::Bounds))))
                        &&& inode_in_range(sb, e) && disk_inode(disk, sb, e) is None ==> (r matches Err(DirectoryError::Backend(InodeRWError::Inode(InodeError::API(_)))))
                        &&& inode_in_range(sb, e) && disk_inode(disk, sb, e) is Some ==> (r matches Ok((ino, off)) && ino.inum == e
                            && Some(ino.disk_node@) == disk_inode(disk, sb, e) && off == k * 22)
                    },
                }
            }),
    {
        if inode.get_ft() != FType::TDir {
            return Err(DirectoryError::IllegalInode("not a directory"));
        }
        let on_disk = match self.ifs.i_get(inode.get_inum()) {
            Ok(ino) => ino,
            Err(e) => return Err(DirectoryError::Backend(e)),
        };
        if !on_disk.same_as(inode) {
            return Err(DirectoryError::IllegalInode("inconsistency on disk"));
        }
        let ghost disk = self.disk();
        let ghost sb = self.sb();
        let ghost d = inode.disk_node@;
        let ghost bs = sb.block_size as int;
        let mut it = match DirEntryIterator::new(self, inode) {
            Ok(it) => it,
            Err(e) => return Err(e),
        };
        let mut de_i: u64 = 0;
        loop
            invariant
                it.wf(),
                it.fs() == self,
                it.inode() == inode,
                it.pos() == de_i,
                self.disk() == disk,
                self.sb() == sb,
                inode.disk_node@ == d,
                bs == sb.block_size,
                self.inv(),
                inodes_per_block(sb) > 0,
                inode.disk_node.ft == FType::TDir,
                inode_in_range(sb, inode.inum as int),
                disk_inode(disk, sb, inode.inum as int) == Some(d),
                lookup_index(disk, sb, d, name@) == find_name(disk, bs, d, name@, de_i as int),
            decreases entry_count(d) - de_i,
        {
            match it.next() {
                Some(de) => {
                    let text = Self::get_name_str(&de);
                    if str_eq(text.as_str(), name) {
                        let offset = de_i * DIRENTRY_SIZE;
                        let ino = match self.ifs.i_get(de.inum) {
                            Ok(ino) => ino,
                            Err(e) => return Err(DirectoryError::Backend(e)),
                        };
                        return Ok((ino, offset));
                    }
                    de_i = de_i + 1;
                },
                None => {
                    return Err(DirectoryError::ItemNotFound);
                },
            }
        }
    }
}


/// The byte offset where a new entry goes in directory `d`: at the first free
/// entry (inode number zero), else at the end of its data.
pub open spec fn link_offset(disk: Seq<Seq<u8>>, bs: int, d: DInodeView) -> int {
    match find_free(disk, bs, d, 0) {
        Some(k) => k * 22,
        None => d.size as int,
    }
}

/// Which names are valid, by characters: a name of one to fourteen
/// characters each of which is a decimal digit (code points 48 to 57, `0` to
/// `9`), an upper-case ASCII letter (65 to 90, `A` to `Z`) or a lower-case
/// ASCII letter (97 to 122, `a` to `z`), or `.` alone, or `..`.
pub proof fn lemma_valid_dirname_chars(s: Seq<char>)
    ensures
        valid_dirname(s) <==> ((1 <= s.len() <= 14 && forall|i: int| 0 <= i < s.len() ==> {
            let x = #[trigger] s[i] as u32;
            ||| 48 <= x <= 57
            ||| 65 <= x <= 90
            ||| 97 <= x <= 122
        }) || s == seq!['.'] || s == seq!['.', '.']),
{
}

/// The first entry with inode number zero, walking from entry `i`, is entry
/// `k` when every entry from `i` up to `k` is in use.
proof fn lemma_find_free_first(disk: Seq<Seq<u8>>, bs: int, d: DInodeView, i: int, k: int)
    requires
        0 <= i <= k < entry_count(d),
        dir_entry(disk, bs, d, k).inum == 0,
        forall|j: int| i <= j < k ==> #[trigger] dir_entry(disk, bs, d, j).inum != 0,
    ensures
        find_free(disk, bs, d, i) == Some(k),
    decreases k - i,
{
    if i < k {
        lemma_find_free_first(disk, bs, d, i + 1, k);
    }
}

/// Walking from entry `i` finds no free entry when every entry from `i` on
/// is in use.
proof fn lemma_find_free_none(disk: Seq<Seq<u8>>, bs: int, d: DInodeView, i: int)
    requires
        0 <= i,
        forall|j: int| i <= j < entry_count(d) ==> #[trigger] dir_entry(disk, bs, d, j).inum != 0,
    ensures
        find_free(disk, bs, d, i) is None,
    decreases entry_count(d) - i,
{
    if i < entry_count(d) {
        lemma_find_free_none(disk, bs, d, i + 1);
    }
}

/// Where linking puts a new entry: into the first entry whose inode number
/// is zero, at 22 bytes per entry before it, so that a freed entry is used
/// again; only when every entry is in use, at the end of the directory.
pub proof fn lemma_link_offset_first_free(disk: Seq<Seq<u8>>, bs: int, d: DInodeView)
    ensures
        forall|k: int|
            0 <= k < entry_count(d) && #[trigger] dir_entry(disk, bs, d, k).inum == 0
                && (forall|j: int| 0 <= j < k ==> #[trigger] dir_entry(disk, bs, d, j).inum != 0)
                ==> link_offset(disk, bs, d) == 22 * k,
        (forall|j: int| 0 <= j < entry_count(d) ==> #[trigger] dir_entry(disk, bs, d, j).inum != 0)
            ==> link_offset(disk, bs, d) == d.size,
{
    assert forall|k: int|
        0 <= k < entry_count(d) && #[trigger] dir_entry(disk, bs, d, k).inum == 0
            && (forall|j: int| 0 <= j < k ==> #[trigger] dir_entry(disk, bs, d, j).inum != 0)
        implies link_offset(disk, bs, d) == 22 * k by {
        lemma_find_free_first(disk, bs, d, 0, k);
    }
    if forall|j: int| 0 <= j < entry_count(d) ==> #[trigger] dir_entry(disk, bs, d, j).inum != 0 {
        lemma_find_free_none(disk, bs, d, 0);
    }
}

impl EsFS3 {
    /// Byte offset of the first free entry of directory `inode` (inode number
    /// zero), or its size when every entry is in use.
    fn free_entry_offset(&self, inode: &Inode) -> (off: u64)
        requires
            self.inv(),
            inode.disk_node.ft == FType::TDir,
            data_readable(inode.disk_node@, self.sb()),
        ensures
            off == link_offset(self.disk(), self.sb().block_size as int, inode.disk_node@),
    {
        let ghost bs = self.sb().block_size as int;
        let ghost d = inode.disk_node@;
        let mut it = match DirEntryIterator::new(self, inode) {
            Ok(it) => it,
            Err(_) => return inode.get_size(),
        };
        let mut de_i: u64 = 0;
        loop
            invariant
                it.wf(),
                it.fs() == self,
                it.inode() == inode,
                it.pos() == de_i,
                inode.disk_node@ == d,
                bs == self.sb().block_size,
                find_free(self.disk(), bs, d, 0) == find_free(self.disk(), bs, d, de_i as int),
            decreases entry_count(d) - de_i,
        {
            match it.next() {
                Some(de) => {
                    if de.inum == 0 {
                        proof {
                            vstd::arithmetic::div_mod::lemma_fundamental_div_mod(d.size as int, 22);
                        }
                        return de_i * DIRENTRY_SIZE;
                    }
                    de_i = de_i + 1;
                },
                None => {
                    return inode.get_size();
                },
            }
        }
    }

    /// Adds an entry `name` for inode `inum` to directory `inode`, at its
    /// first free entry or else at the end of its data, and, unless the entry
    /// links the directory to itself, adds a link to inode `inum`. Gives the
    /// entry's byte offset. Fails, changing nothing, when `name` is not a
    /// valid name, when inode `inum` cannot be read or is free, when the
    /// directory cannot be looked in (see [`EsFS3::dirlookup`]) or already
    /// has the name; fails with `OutOfBlocks` when the entry does not fit.
    /// When the block pointers the entry's write meets can be written through
    /// and are distinct (see [`write_meets_ok`]), and none of them holds the
    /// inode `inum`, the entry, its offset, the new size and the new link are
    /// stated; what else the write changes (the other entries and inodes) is
    /// stated for a directory whose block pointers are all sound (see
    /// [`blocks_sound`]).
    pub fn dirlink(&mut self, inode: &mut Inode, name: &str, inum: u64) -> (r: Result<u64, DirectoryError>)
        requires
            old(self).inv(),
            valid_dirname(name@) ==> inode_usable(old(self).sb(), inum as int),
            link_ready(old(self).disk(), old(self).sb(), name@, inum as int)
                && dir_on_disk(old(self).disk(), old(self).sb(), old(inode).inum as int, old(inode).disk_node@)
                ==> data_readable(old(inode).disk_node@, old(self).sb())
                && old(inode).disk_node.size + DIRENTRY_SIZE <= usize::MAX && pieces_on_device(
                old(self).sb(),
                old(inode).disk_node@,
                link_offset(old(self).disk(), old(self).sb().block_size as int, old(inode).disk_node@),
                22,
            ),
            link_ready(old(self).disk(), old(self).sb(), name@, inum as int)
                && dir_on_disk(old(self).disk(), old(self).sb(), old(inode).inum as int, old(inode).disk_node@)
                && lookup_index(old(self).disk(), old(self).sb(), old(inode).disk_node@, name@) is None && inum != old(inode).inum
                ==> disk_inode(old(self).disk(), old(self).sb(), inum as int).unwrap().nlink < u16::MAX,
        ensures
            final(self).inv(),
            final(self).sb() == old(self).sb(),
            final(inode).inum == old(inode).inum,
            ({
                let sb = old(self).sb();
                let bs = sb.block_size as int;
                let disk0 = old(self).disk();
                let d0 = old(inode).disk_node@;
                let i0 = old(inode).inum as int;
                let tgt = disk_inode(disk0, sb, inum as int);
                let unchanged = final(self).disk() == disk0 && *final(inode) == *old(inode);
                let ready = valid_dirname(name@) && inode_in_range(sb, inum as int) && (tgt matches Some(t) && t.ft != FType::TFree);
                let dir_ok = d0.ft == FType::TDir && inode_in_range(sb, i0) && disk_inode(disk0, sb, i0) == Some(d0);
                let sound = blocks_sound(disk0, sb, d0);
                let off = link_offset(disk0, bs, d0);
                let first = off / bs;
                let nr = write_range_count(22, off % bs, bs);
                let short = off + 22 > 12 * bs || first + nr > 12 || missing_ptrs(d0, first, first + nr) > free_below(disk0, sb, sb.ndatablocks as int);
                &&& !valid_dirname(name@) ==> (r matches Err(DirectoryError::IllegalDirEntry(_))) && unchanged
                &&& valid_dirname(name@) && !inode_in_range(sb, inum as int) ==> (r matches Err(DirectoryError::Backend(InodeRWError::Inode(InodeError::Bounds)))) && unchanged
                &&& valid_dirname(name@) && inode_in_range(sb, inum as int) && tgt is None ==> (r matches Err(DirectoryError::Backend(InodeRWError::Inode(InodeError::API(_))))) && unchanged
                &&& valid_dirname(name@) && inode_in_range(sb, inum as int) && (tgt matches Some(t) && t.ft == FType::TFree) ==> (r matches Err(DirectoryError::IllegalDirEntry(_))) && unchanged
                &&& ready && !dir_ok ==> r is Err && unchanged
                &&& ready && dir_ok && lookup_index(disk0, sb, d0, name@) is Some ==> r is Err && unchanged
                &&& ready && dir_ok && (lookup_index(disk0, sb, d0, name@) matches Some(k) && inode_in_range(sb, dir_entry(disk0, bs, d0, k).inum as int)
                    && disk_inode(disk0, sb, dir_entry(disk0, bs, d0, k).inum as int) is Some) ==> (r matches Err(DirectoryError::IllegalDirEntry(_))) && unchanged
                &&& ready && dir_ok && lookup_index(disk0, sb, d0, name@) is None && write_meets_ok(disk0, sb, d0, i0, off, 22)
                    && (inum != i0 ==> !pointed(d0, first, first + nr, inode_block_of(sb, inum as int))) ==> {
                    let disk1 = final(self).disk();
                    let d1 = final(inode).disk_node@;
                    &&& short ==> (r matches Err(DirectoryError::Backend(InodeRWError::OutOfBlocks(_))))
                    &&& !short ==> (r matches Ok(o) && o == off)
                    &&& !short ==> d1.size == (if d0.size < off + 22 { off + 22 } else { d0.size as int })
                        && d1.ft == d0.ft && d1.nlink == d0.nlink
                    &&& !short ==> entry_at(disk1, bs, d1, off) == new_entry(inum, name@)
                    &&& !short && inum != i0 ==> disk_inode(disk1, sb, inum as int) == Some(with_nlink(tgt.unwrap(), tgt.unwrap().nlink + 1))
                    &&& !short ==> free_below(disk1, sb, sb.ndatablocks as int) + missing_ptrs(d0, first, first + nr) == free_below(disk0, sb, sb.ndatablocks as int)
                    &&& !short && !pointed(d0, first, first + nr, inode_block_of(sb, i0)) ==> disk_inode(disk1, sb, i0) == (if d0.size < off + 22 { Some(d1) } else { Some(d0) })
                    &&& !short ==> met_sound(disk1, sb, d1, first, first + nr)
                    &&& !short ==> forall|j: int| first <= j < first + nr && ptr(d0, j) == 0 ==> sb.datastart <= #[trigger] ptr(d1, j) < sb.datastart + sb.ndatablocks
                    &&& !short ==> forall|j: int| ptr(d0, j) != 0 ==> #[trigger] ptr(d1, j) == ptr(d0, j)
                    &&& !short ==> forall|h: int| 0 <= h < sb.ndatablocks && bitmap_bit(disk0, sb, h) ==> #[trigger] bitmap_bit(disk1, sb, h)
                    &&& !short ==> forall|p: int|
                        0 <= p && !(off <= p < off + 22) && ptr(d0, p / bs) != 0 && out_of_reach(disk0, d0, sb, first, first + nr, p)
                            && ptr(d0, p / bs) != inode_block_of(sb, i0) && ptr(d0, p / bs) != inode_block_of(sb, inum as int)
                            ==> #[trigger] file_byte(disk1, bs, d1, p) == file_byte(disk0, bs, d0, p)
                }
                &&& ready && dir_ok && sound && lookup_index(disk0, sb, d0, name@) is None && short ==> (r matches Err(DirectoryError::Backend(InodeRWError::OutOfBlocks(_))))
                &&& ready && dir_ok && sound && lookup_index(disk0, sb, d0, name@) is None && !short ==> ({
                    let disk1 = final(self).disk();
                    let d1 = final(inode).disk_node@;
                    &&& r matches Ok(o) && o == off
                    &&& d1.size == (if d0.size < off + 22 { off + 22 } else { d0.size as int })
                    &&& d1.ft == d0.ft && d1.nlink == d0.nlink
                    &&& entry_at(disk1, bs, d1, off) == new_entry(inum, name@)
                    &&& forall|k: int| 0 <= k < entry_count(d0) && (k * 22 + 22 <= off || off + 22 <= k * 22) ==> #[trigger] dir_entry(disk1, bs, d1, k) == dir_entry(disk0, bs, d0, k)
                    &&& blocks_sound(disk1, sb, d1)
                    &&& data_readable(d1, sb)
                    &&& disk_inode(disk1, sb, i0) == (if d0.size < off + 22 { Some(d1) } else { Some(d0) })
                    &&& inum != i0 ==> disk_inode(disk1, sb, inum as int) == Some(with_nlink(tgt.unwrap(), tgt.unwrap().nlink + 1))
                    &&& forall|j: int| 0 <= j && inode_in_range(sb, j) && j != i0 && j != inum ==> #[trigger] disk_inode(disk1, sb, j) == disk_inode(disk0, sb, j)
                    &&& forall|b: int| held(disk0, sb, b) && !pointed(d0, 0, 12, b)
                        ==> #[trigger] disk1[b] == disk0[b]
                    &&& forall|h: int| 0 <= h < sb.ndatablocks && bitmap_bit(disk0, sb, h) ==> #[trigger] bitmap_bit(disk1, sb, h)
                    &&& forall|j: int| 0 <= j < 12 && ptr(d0, j) == 0 && ptr(d1, j) != 0 ==> sb.datastart <= #[trigger] ptr(d1, j) < sb.datastart + sb.ndatablocks && !bitmap_bit(disk0, sb, ptr(d1, j) - sb.datastart)
                    &&& forall|j: int| ptr(d0, j) != 0 ==> #[trigger] ptr(d1, j) == ptr(d0, j)
                    &&& free_below(disk1, sb, sb.ndatablocks as int) + missing_ptrs(d0, first, first + nr) == free_below(disk0, sb, sb.ndatablocks as int)
                })
            }),
    {
        let ghost sb = self.sb();
        let ghost bs = sb.block_size as int;
        let ghost disk0 = self.disk();
        let ghost d0 = inode.disk_node@;
        let ghost i0 = inode.inum as int;
        let de = match Self::new_de(inum, name) {
            Some(de) => de,
            None => return Err(DirectoryError::IllegalDirEntry("invalid name")),
        };
        let target = match self.ifs.i_get(inum) {
            Ok(t) => t,
            Err(e) => return Err(DirectoryError::Backend(e)),
        };
        if target.get_ft() == FType::TFree {
            return Err(DirectoryError::IllegalDirEntry("Inode referenced by inum is not in use"));
        }
        match self.dirlookup(inode, name) {
            Ok(_) => return Err(DirectoryError::IllegalDirEntry("already exists in inode")),
            Err(DirectoryError::ItemNotFound) => {},
            Err(e) => return Err(e),
        }
        let mut buf = Buffer::new_zero(DIRENTRY_SIZE);
        match buf.write_dir_entry(&de, 0) {
            Ok(()) => {},
            Err(e) => return Err(DirectoryError::API(e)),
        }
        let offset = self.free_entry_offset(inode);
        proof {
            crate::a_block_support::lemma_sb_bounds(sb);
            if find_free(disk0, bs, d0, 0) is Some {
                lemma_find_free_bound(disk0, bs, d0, 0);
                vstd::arithmetic::div_mod::lemma_fundamental_div_mod(d0.size as int, 22);
            }
            assert(buf@.len() == 22);
        }
        match self.ifs.i_write(inode, &buf, offset, DIRENTRY_SIZE) {
            Ok(()) => {},
            Err(e) => return Err(DirectoryError::Backend(e)),
        }
        let ghost disk1 = self.disk();
        let ghost d1 = inode.disk_node@;
        let ghost sound = blocks_sound(disk0, sb, d0);
        let ghost first = offset as int / bs;
        let ghost io = offset as int % bs;
        let ghost nr = write_range_count(22, io, bs);
        let ghost meets = write_meets_ok(disk0, sb, d0, i0, offset as int, 22)
            && (inum != i0 ==> !pointed(d0, first, first + nr, inode_block_of(sb, inum as int)));
        proof {
            if meets {
                lemma_entry_at_bytes(disk1, bs, d1, offset as int, buf@);
            }
            if sound {
                lemma_entry_written(disk0, d0, disk1, d1, sb, i0, offset as int, buf@);
                lemma_write_keeps_readable(disk0, d0, disk1, d1, sb, i0, offset as int, 22, buf@);
                crate::e_inode_rw_support::lemma_write_read_back(disk0, d0, disk1, d1, sb, i0, offset, 22, buf@, 22);
                lemma_last_block(offset as int, 22, bs);
                lemma_write_frame_blocks(disk0, d0, disk1, d1, sb, i0, offset as int, 22, buf@);
            }
        }
        proof {
            if meets {
                crate::b_inode_support::lemma_inode_location(sb, i0);
                let ib0 = inode_block_of(sb, i0);
                if !pointed(d0, first, first + nr, ib0) {
                    assert(!pointed(d1, first, first + nr, ib0)) by {
                        if pointed(d1, first, first + nr, ib0) {
                            let w = choose|w: int| first <= w < first + nr && #[trigger] ptr(d1, w) == ib0;
                            if ptr(d0, w) != 0 {
                                assert(ptr(d0, w) == ib0);
                                assert(pointed(d0, first, first + nr, ib0));
                            } else {
                                assert(sb.datastart <= ptr(d1, w));
                            }
                        }
                    }
                }
            }
        }
        if inode.get_inum() != inum {
            proof {
                if meets {
                    crate::b_inode_support::lemma_inode_location(sb, inum as int);
                    let ib = inode_block_of(sb, inum as int);
                    assert(!pointed(d1, first, first + nr, ib)) by {
                        if pointed(d1, first, first + nr, ib) {
                            let w = choose|w: int| first <= w < first + nr && #[trigger] ptr(d1, w) == ib;
                            if ptr(d0, w) != 0 {
                                assert(ptr(d0, w) == ib);
                                assert(pointed(d0, first, first + nr, ib));
                            } else {
                                assert(sb.datastart <= ptr(d1, w));
                            }
                        }
                    }
                }
            }
            let mut t = match self.ifs.i_get(inum) {
                Ok(t) => t,
                Err(e) => return Err(DirectoryError::Backend(e)),
            };
            t.disk_node.nlink = t.disk_node.nlink.wrapping_add(1);
            match self.ifs.i_put(&t) {
                Ok(()) => {},
                Err(e) => return Err(DirectoryError::Backend(e)),
            }
            proof {
                if meets {
                    let disk2 = self.disk();
                    let ib = inode_block_of(sb, inum as int);
                    crate::b_inode_support::lemma_inode_write_read(disk1, disk2, sb, inum as int, t.disk_node@, inum as int);
                    crate::write_model::lemma_wr_facts(22, io, bs, 0);
                    vstd::arithmetic::div_mod::lemma_fundamental_div_mod(offset as int, bs);
                    vstd::arithmetic::div_mod::lemma_mod_bound(offset as int, bs);
                    vstd::arithmetic::div_mod::lemma_div_pos_is_pos(offset as int, bs);
                    assert(offset as int == first * bs + io) by (nonlinear_arith)
                        requires
                            offset as int == bs * (offset as int / bs) + offset as int % bs,
                            first == offset as int / bs,
                            io == offset as int % bs,
                    ;
                    assert forall|x: int| 0 <= x < 22 implies #[trigger] file_byte(disk2, bs, d1, offset + x) == buf@[x] by {
                        crate::write_model::lemma_wblock(first, io, bs, nr, 22, x);
                        let b = ptr(d1, (offset + x) / bs) as int;
                        assert(b != ib) by {
                            if b == ib {
                                assert(pointed(d1, first, first + nr, ib));
                            }
                        }
                        assert(file_byte(disk1, bs, d1, offset + x) == buf@[x]);
                    }
                    lemma_entry_at_bytes(disk2, bs, d1, offset as int, buf@);
                    crate::b_inode_support::lemma_inode_write_read(disk1, disk2, sb, inum as int, t.disk_node@, i0);
                    assert(forall|b: int| sb.bmapstart <= b < sb.nblocks ==> #[trigger] disk2[b] == disk1[b]);
                    crate::write_model::lemma_bits_frame(disk1, disk2, sb);
                    crate::write_model::lemma_free_same(disk1, disk2, sb, sb.ndatablocks as int);
                    assert forall|j: int| first <= j < first + nr && #[trigger] ptr(d1, j) != 0 implies meetable(disk2, sb, ptr(d1, j) as int) by {
                        assert(meetable(disk1, sb, ptr(d1, j) as int));
                    }
                    assert forall|p: int|
                        0 <= p && !(offset <= p < offset + 22) && ptr(d0, p / bs) != 0 && out_of_reach(disk0, d0, sb, first, first + nr, p)
                            && ptr(d0, p / bs) != inode_block_of(sb, i0) && ptr(d0, p / bs) != ib implies #[trigger] file_byte(disk2, bs, d1, p)
                            == file_byte(disk0, bs, d0, p) by {
                        assert(file_byte(disk1, bs, d1, p) == file_byte(disk0, bs, d0, p));
                        assert(ptr(d1, p / bs) == ptr(d0, p / bs));
                        let b = ptr(d0, p / bs) as int;
                        if first <= p / bs < first + nr {
                            assert(meetable(disk0, sb, b));
                        }
                        assert(0 <= b < disk1.len());
                        assert(disk2[b] == disk1[b]);
                    }
                }
                if sound {
                    let disk2 = self.disk();
                    assert(t.disk_node@ == with_nlink(disk_inode(disk0, sb, inum as int).unwrap(), disk_inode(disk0, sb, inum as int).unwrap().nlink + 1));
                    lemma_inode_put_frame(disk1, disk2, d1, sb, inum as int, t.disk_node@);
                    lemma_entries_same(disk1, disk2, d1, sb);
                    crate::b_inode_support::lemma_inode_write_read(disk1, disk2, sb, inum as int, t.disk_node@, i0);
                    crate::b_inode_support::lemma_inode_write_read(disk1, disk2, sb, inum as int, t.disk_node@, inum as int);
                    crate::b_inode_support::lemma_inode_location(sb, inum as int);
                    assert(forall|b: int| sb.bmapstart <= b < sb.nblocks ==> #[trigger] disk2[b] == disk1[b]);
                    crate::write_model::lemma_bits_frame(disk1, disk2, sb);
                    crate::write_model::lemma_free_same(disk1, disk2, sb, sb.ndatablocks as int);
                    let eb2 = Seq::new(22, |x: int| file_byte(disk2, bs, d1, offset + x));
                    let eb1 = Seq::new(22, |x: int| file_byte(disk1, bs, d1, offset + x));
                    assert forall|x: int| 0 <= x < 22 implies #[trigger] eb2[x] == eb1[x] by {
                        vstd::arithmetic::div_mod::lemma_div_is_ordered(offset as int, offset + x, bs);
                        vstd::arithmetic::div_mod::lemma_div_is_ordered(offset + x, offset + 21, bs);
                        assert(crate::e_inode_rw_support::ptr(d1, (offset + x) / bs) != 0);
                    }
                    assert(crate::types::same_window(eb2, 0, eb1, 0, 22));
                    crate::types::lemma_dir_entry_window(eb2, 0, eb1, 0);
                    assert forall|j: int| 0 <= j && inode_in_range(sb, j) && j != i0 && j != inum implies #[trigger] disk_inode(disk2, sb, j) == disk_inode(disk0, sb, j) by {
                        crate::b_inode_support::lemma_inode_write_read(disk1, disk2, sb, inum as int, t.disk_node@, j);
                    }
                    assert forall|k: int| 0 <= k < entry_count(d0) && (k * 22 + 22 <= offset || offset + 22 <= k * 22) implies #[trigger] dir_entry(disk2, bs, d1, k) == dir_entry(disk0, bs, d0, k) by {
                        vstd::arithmetic::div_mod::lemma_div_is_ordered(d0.size as int, d1.size as int, 22);
                    }
                }
            }
        }
        Ok(offset)
    }
}

/// A free entry found lies within the directory's whole entries.
pub proof fn lemma_find_free_bound(disk: Seq<Seq<u8>>, bs: int, d: DInodeView, k: int)
    requires
        find_free(disk, bs, d, k) is Some,
    ensures
        ({
            let f = find_free(disk, bs, d, k).unwrap();
            0 <= k <= f < entry_count(d)
        }),
    decreases entry_count(d) - k,
{
    if 0 <= k < entry_count(d) && dir_entry(disk, bs, d, k).inum != 0 {
        lemma_find_free_bound(disk, bs, d, k + 1);
    }
}


/// The text of a valid name written into a zeroed name field is the name.
pub proof fn lemma_name_round_trip(name: Seq<char>)
    requires
        valid_dirname(name),
    ensures
        name_text(name_written(Seq::new(14, |i: int| 0u8), name)) == name,
{
    let w = name_written(Seq::new(14, |i: int| 0u8), name);
    assert(name.len() <= 14) by {
        if name == seq!['.'] {
            assert(name.len() == 1);
        }
        if name == seq!['.', '.'] {
            assert(name.len() == 2);
        }
    }
    assert forall|j: int| 0 <= j < name.len() implies (#[trigger] name[j] as u32) < 128 && name[j] as u32 != 0 by {
        if name == seq!['.'] || name == seq!['.', '.'] {
            assert(name[j] == '.');
        } else {
            assert(is_alnum(name[j]));
        }
    }
    assert forall|j: int| 0 <= j < name.len() implies #[trigger] w[j] != 0 && (w[j] as char) == name[j] by {
        let c = name[j];
        let x = c as u32;
        assert(x < 128 && x != 0);
        let b = x as u8;
        assert(w[j] == b);
        assert(b as char == (b as u32) as char);
        assert((x as u8) as u32 == x) by (bit_vector)
            requires
                x < 128,
        ;
        vstd::utf8::char_u32_cast(c, x);
    }
    crate::c_dirs_support::lemma_name_len(w, name.len() as int);
    assert(name_text(w) =~= name);
}

/// No entry among `k ..` has `name` when the search from `k` finds none.
proof fn lemma_find_name_none(disk: Seq<Seq<u8>>, bs: int, d: DInodeView, name: Seq<char>, k: int, j: int)
    requires
        0 <= k <= j < entry_count(d),
        find_name(disk, bs, d, name, k) is None,
    ensures
        name_text(dir_entry(disk, bs, d, j).name) != name,
    decreases j - k,
{
    if k < j {
        lemma_find_name_none(disk, bs, d, name, k + 1, j);
    }
}

/// The search from `k` finds entry `q` when `q` has `name` and none of `k .. q` has.
proof fn lemma_find_name_at(disk: Seq<Seq<u8>>, bs: int, d: DInodeView, name: Seq<char>, k: int, q: int)
    requires
        0 <= k <= q < entry_count(d),
        name_text(dir_entry(disk, bs, d, q).name) == name,
        forall|j: int| k <= j < q ==> name_text(#[trigger] dir_entry(disk, bs, d, j).name) != name,
    ensures
        find_name(disk, bs, d, name, k) == Some(q),
    decreases q - k,
{
    if k < q {
        lemma_find_name_at(disk, bs, d, name, k + 1, q);
    }
}

/// Looking up a name just linked finds the new entry: when a directory whose
/// size is a whole number of entries had no entry `name`, and `name` was
/// linked at its link offset (the entry there now holds `name`, the entries
/// apart from it are as before, the size grew to cover it), the first entry
/// named `name` is the new one.
pub proof fn lemma_link_then_lookup(
    disk0: Seq<Seq<u8>>,
    d0: DInodeView,
    disk1: Seq<Seq<u8>>,
    d1: DInodeView,
    sb: SuperBlock,
    inum: u64,
    name: Seq<char>,
)
    requires
        sb.block_size > 0,
        d0.size % 22 == 0,
        valid_dirname(name),
        lookup_index(disk0, sb, d0, name) is None,
        entry_at(disk1, sb.block_size as int, d1, link_offset(disk0, sb.block_size as int, d0)) == new_entry(inum, name),
        forall|k: int|
            0 <= k < entry_count(d0) && (k * 22 + 22 <= link_offset(disk0, sb.block_size as int, d0) || link_offset(disk0, sb.block_size as int, d0) + 22 <= k * 22)
                ==> #[trigger] dir_entry(disk1, sb.block_size as int, d1, k) == dir_entry(disk0, sb.block_size as int, d0, k),
        d1.size >= link_offset(disk0, sb.block_size as int, d0) + 22,
    ensures
        lookup_index(disk1, sb, d1, name) == Some(link_offset(disk0, sb.block_size as int, d0) / 22),
        dir_entry(disk1, sb.block_size as int, d1, link_offset(disk0, sb.block_size as int, d0) / 22).inum == inum,
{
    let bs = sb.block_size as int;
    let off = link_offset(disk0, bs, d0);
    if find_free(disk0, bs, d0, 0) is Some {
        lemma_find_free_bound(disk0, bs, d0, 0);
    } else {
        vstd::arithmetic::div_mod::lemma_fundamental_div_mod(d0.size as int, 22);
    }
    let q = off / 22;
    assert(off == q * 22);
    assert(dir_entry(disk1, bs, d1, q) == entry_at(disk1, bs, d1, off));
    lemma_name_round_trip(name);
    assert forall|j: int| 0 <= j < q implies name_text(#[trigger] dir_entry(disk1, bs, d1, j).name) != name by {
        lemma_find_name_none(disk0, bs, d0, name, 0, j);
    }
    vstd::arithmetic::div_mod::lemma_div_is_ordered(off + 22, d1.size as int, 22);
    lemma_find_name_at(disk1, bs, d1, name, 0, q);
}


/// A name found lies within the directory's whole entries.
pub proof fn lemma_find_name_bound(disk: Seq<Seq<u8>>, bs: int, d: DInodeView, name: Seq<char>, k: int)
    requires
        find_name(disk, bs, d, name, k) is Some,
    ensures
        ({
            let f = find_name(disk, bs, d, name, k).unwrap();
            0 <= k <= f < entry_count(d)
        }),
    decreases entry_count(d) - k,
{
    if 0 <= k < entry_count(d) && name_text(dir_entry(disk, bs, d, k).name) != name {
        lemma_find_name_bound(disk, bs, d, name, k + 1);
    }
}

} // verus!
