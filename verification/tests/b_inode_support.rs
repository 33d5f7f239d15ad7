use cplfs::b_inode_support::EsFS2;
use cplfs::types::{FType, Inode, SuperBlock, DINODE_SIZE};

const BLOCK_SIZE: u64 = 255;
const NBLOCKS: u64 = 2000;
const SUPERBLOCK: SuperBlock = SuperBlock {
    block_size: BLOCK_SIZE,
    nblocks: NBLOCKS,
    ninodes: 4,
    inodestart: 1,
    ndatablocks: 1500,
    bmapstart: 3,
    datastart: 4,
};

#[test]
fn inodes_over_multiple_blocks() {
    let mut my_fs = EsFS2::mkfs(&SUPERBLOCK).unwrap();

    let i1 = Inode::new(1, &FType::TFile, 0, 0, &[]).unwrap();
    let i2 = Inode::new(2, &FType::TDir, 1, 0, &[]).unwrap();
    let i3 = Inode::new(3, &FType::TFile, 2, 0, &[]).unwrap();
    let i4 = Inode::new(4, &FType::TFile, 2, 0, &[]).unwrap();
    my_fs.i_put(&i1).unwrap();
    my_fs.i_put(&i2).unwrap();
    my_fs.i_put(&i3).unwrap();
    // assert no more than 4 inodes can be written
    assert!(my_fs.i_put(&i4).is_err());
    // manually read back from disk
    let inodeb1 = my_fs.b_get(SUPERBLOCK.inodestart).unwrap();
    let inodeb2 = my_fs.b_get(SUPERBLOCK.inodestart + 1).unwrap();
    let i1_read = inodeb1.read_dinode(DINODE_SIZE).unwrap();
    assert_eq!(i1_read, i1.disk_node);
    let i2_read = inodeb2.read_dinode(0).unwrap();
    assert_eq!(i2_read, i2.disk_node);
    let i3_read = inodeb2.read_dinode(DINODE_SIZE).unwrap();
    assert_eq!(i3_read, i3.disk_node);
}

#[test]
fn inode_put_then_get() {
    let mut fs = EsFS2::mkfs(&SUPERBLOCK).unwrap();
    let i2 = Inode::new(2, &FType::TFile, 3, 700, &[4, 5, 6]).unwrap();
    let before = fs.i_get(3).unwrap();
    fs.i_put(&i2).unwrap();
    assert_eq!(fs.i_get(2).unwrap(), i2);
    // the other inodes read as before
    assert_eq!(fs.i_get(3).unwrap(), before);
    assert!(fs.i_get(4).is_err());
}

#[test]
fn alloc_picks_lowest_free_inode() {
    let mut fs = EsFS2::mkfs(&SUPERBLOCK).unwrap();
    assert_eq!(fs.i_alloc(FType::TFile).unwrap(), 1);
    assert_eq!(fs.i_alloc(FType::TDir).unwrap(), 2);
    assert_eq!(fs.i_get(2).unwrap().get_ft(), FType::TDir);
    assert_eq!(fs.i_alloc(FType::TFile).unwrap(), 3);
    // no free inode left among 1 .. ninodes
    assert!(fs.i_alloc(FType::TFile).is_err());
}

#[test]
fn free_releases_blocks() {
    let mut fs = EsFS2::mkfs(&SUPERBLOCK).unwrap();
    let g0 = fs.b_alloc().unwrap();
    let g1 = fs.b_alloc().unwrap();
    let ino = Inode::new(1, &FType::TFile, 0, 2 * BLOCK_SIZE, &[SUPERBLOCK.datastart + g0, SUPERBLOCK.datastart + g1]).unwrap();
    fs.i_put(&ino).unwrap();
    fs.i_free(1).unwrap();
    assert_eq!(fs.i_get(1).unwrap().get_ft(), FType::TFree);
    // both blocks are free again, the lowest comes back first
    assert_eq!(fs.b_alloc().unwrap(), g0);
    assert_eq!(fs.b_alloc().unwrap(), g1);
    // freeing a free inode is refused
    assert!(fs.i_free(1).is_err());
}

#[test]
fn free_keeps_linked_inode() {
    let mut fs = EsFS2::mkfs(&SUPERBLOCK).unwrap();
    let ino = Inode::new(1, &FType::TFile, 1, 0, &[]).unwrap();
    fs.i_put(&ino).unwrap();
    fs.i_free(1).unwrap();
    assert_eq!(fs.i_get(1).unwrap(), ino);
}

#[test]
fn trunc_clears_blocks() {
    let mut fs = EsFS2::mkfs(&SUPERBLOCK).unwrap();
    let g0 = fs.b_alloc().unwrap();
    let mut ino = Inode::new(2, &FType::TFile, 1, 10, &[SUPERBLOCK.datastart + g0]).unwrap();
    fs.i_put(&ino).unwrap();
    fs.i_trunc(&mut ino).unwrap();
    assert_eq!(ino.get_size(), 0);
    assert_eq!(ino.get_block(0), 0);
    assert_eq!(fs.i_get(2).unwrap(), ino);
    assert_eq!(fs.b_alloc().unwrap(), g0);
    // an inode that differs from the disk is refused
    let other = Inode::new(2, &FType::TFile, 5, 10, &[]).unwrap();
    let mut other = other;
    assert!(fs.i_trunc(&mut other).is_err());
}

#[test]
fn deallocate_skips_blocks_past_size() {
    let mut fs = EsFS2::mkfs(&SUPERBLOCK).unwrap();
    let g0 = fs.b_alloc().unwrap();
    let g1 = fs.b_alloc().unwrap();
    // a file of one block: only its first pointer is freed
    fs.deallocate_valid_blocks(BLOCK_SIZE, &[SUPERBLOCK.datastart + g1, SUPERBLOCK.datastart + g0]).unwrap();
    assert_eq!(fs.b_alloc().unwrap(), g1);
    assert!(fs.b_alloc().unwrap() != g0);
}

#[test]
fn inode_iterator_walks_all_inodes() {
    let mut fs = EsFS2::mkfs(&SUPERBLOCK).unwrap();
    let i2 = Inode::new(2, &FType::TDir, 1, 0, &[]).unwrap();
    fs.i_put(&i2).unwrap();
    let mut it = fs.inode_iter();
    let a = it.next().unwrap();
    assert_eq!(a.get_inum(), 1);
    assert_eq!(a.get_ft(), FType::TFree);
    let b = it.next().unwrap();
    assert_eq!(b, i2);
    assert_eq!(it.next().unwrap().get_inum(), 3);
    // only inodes below ninodes are visited
    assert!(it.next().is_none());
    assert!(it.next().is_none());
}
