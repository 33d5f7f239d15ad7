use cplfs::a_block_support::{BitmapBlock, BlockError, EsFS1};
use cplfs::blocks::Block;
use cplfs::types::SuperBlock;

// weird block size to make sure inode and bitmap calculations have to work with non whole versions
const BLOCK_SIZE: u64 = 3141;
const NBLOCKS: u64 = 100000;

const SB_DATA_TOO_SMALL: SuperBlock = SuperBlock {
    block_size: BLOCK_SIZE,
    // superblock + inodes + bitmap + data
    nblocks: 1 + 5 + 2 + 1,
    ninodes: 10,
    inodestart: 1,
    bmapstart: 6,
    datastart: 8,
    ndatablocks: 4000,
};

const SB_BITMAP_TOO_SMALL: SuperBlock = SuperBlock {
    block_size: BLOCK_SIZE,
    nblocks: NBLOCKS,
    ninodes: 10,
    inodestart: 1,
    // 2 blocks needed, 1 allocated for bitmap
    bmapstart: 6,
    datastart: 7,
    ndatablocks: 40000,
};

#[test]
fn sb_valid_data_too_small() {
    assert_eq!(EsFS1::sb_valid(&SB_DATA_TOO_SMALL), false);
}

#[test]
fn sb_valid_bitmap_too_small() {
    assert_eq!(EsFS1::sb_valid(&SB_BITMAP_TOO_SMALL), false);
}

#[test]
fn bmapblock() {
    let mut bmb = BitmapBlock { b: Block::new_zero(0, 2) };
    // deallocate while nothing has been allocated
    assert!(bmb.deallocate(10).is_err());
    // allocate a bit, check it is the first one in the block
    assert_eq!(bmb.allocate().unwrap(), 0);
    // allocate all blocks
    for _i in 0..15 {
        bmb.allocate().unwrap();
    }
    // check if allocating another block throws an error as expected
    assert!(bmb.allocate().is_err());
    // deallocate three random blocks, check if they get reallocated in order
    bmb.deallocate(3).unwrap();
    bmb.deallocate(5).unwrap();
    bmb.deallocate(12).unwrap();
    assert_eq!(bmb.allocate().unwrap(), 3);
    assert_eq!(bmb.allocate().unwrap(), 5);
    assert_eq!(bmb.allocate().unwrap(), 12);
}

#[test]
fn trivial_unit_test() {
    assert_eq!(2, 2);
    assert!(true);
}

const BLOCK_SIZE_ALLOC: u64 = 123;
const NBLOCKS_ALLOC: u64 = 2000;
const SUPERBLOCK_ALLOC: SuperBlock = SuperBlock {
    block_size: BLOCK_SIZE_ALLOC,
    nblocks: NBLOCKS_ALLOC,
    ninodes: 0,
    inodestart: 1,
    ndatablocks: 1500,
    bmapstart: 2,
    datastart: 4,
};

// extra allocation test which spans over multiple bitmap blocks, where bitmap
// is shorter than 2 blocks
#[test]
fn allocation() {
    let mut fs = EsFS1::mkfs(&SUPERBLOCK_ALLOC).unwrap();
    for _ in 0..SUPERBLOCK_ALLOC.ndatablocks {
        fs.b_alloc().unwrap();
    }
    for b in SUPERBLOCK_ALLOC.bmapstart..SUPERBLOCK_ALLOC.datastart {
        println!("{:x?}", fs.b_get(b).unwrap().contents_as_ref());
    }
    assert!(fs.b_alloc().is_err());
}

#[test]
fn alloc_free_alloc_gives_same_block() {
    let mut fs = EsFS1::mkfs(&SUPERBLOCK_ALLOC).unwrap();
    let a = fs.b_alloc().unwrap();
    let b = fs.b_alloc().unwrap();
    assert_eq!((a, b), (0, 1));
    fs.b_free(a).unwrap();
    // freeing twice is refused
    assert!(fs.b_free(a).is_err());
    // out of the data region
    assert!(fs.b_free(SUPERBLOCK_ALLOC.ndatablocks).is_err());
    assert_eq!(fs.b_alloc().unwrap(), a);
}

#[test]
fn alloc_zeroes_block() {
    let mut fs = EsFS1::mkfs(&SUPERBLOCK_ALLOC).unwrap();
    let blk = SUPERBLOCK_ALLOC.datastart;
    let mut b = fs.b_get(blk).unwrap();
    b.write_data(&[7u8; 10], 3).unwrap();
    fs.b_put(&b).unwrap();
    assert_eq!(fs.b_get(blk).unwrap().contents_as_ref()[5], 7);
    let g = fs.b_alloc().unwrap();
    assert_eq!(g, 0);
    assert!(fs.b_get(blk).unwrap().contents_as_ref().iter().all(|x| *x == 0));
}

#[test]
fn put_then_get_block() {
    let mut fs = EsFS1::mkfs(&SUPERBLOCK_ALLOC).unwrap();
    let data: Vec<u8> = (0..BLOCK_SIZE_ALLOC).map(|x| (x % 251) as u8).collect();
    let b = Block::new(10, data.clone());
    fs.b_put(&b).unwrap();
    assert_eq!(fs.b_get(10).unwrap().contents_as_ref(), &data[..]);
    // wrong size or out of range is refused
    assert!(fs.b_put(&Block::new(10, vec![0u8; 3])).is_err());
    assert!(fs.b_get(NBLOCKS_ALLOC).is_err());
}

#[test]
fn invalid_superblock_refused_by_mkfs() {
    assert!(EsFS1::mkfs(&SB_DATA_TOO_SMALL).is_err());
    assert!(EsFS1::sb_valid(&SUPERBLOCK_ALLOC));
}

#[test]
fn mount_after_unmount_keeps_blocks() {
    let mut fs = EsFS1::mkfs(&SUPERBLOCK_ALLOC).unwrap();
    fs.b_alloc().unwrap();
    let dev = fs.unmountfs();
    let fs2 = EsFS1::mountfs(dev).unwrap();
    assert_eq!(fs2.sup_get().unwrap(), SUPERBLOCK_ALLOC);
    let mut fs2 = fs2;
    assert_eq!(fs2.b_alloc().unwrap(), 1);
}

#[test]
fn mkfs_refuses_a_device_too_large_to_count() {
    let sb = SuperBlock {
        block_size: 1 << 40,
        nblocks: 1 << 24,
        ninodes: 1,
        inodestart: 1,
        ndatablocks: (1 << 24) - 3,
        bmapstart: 2,
        datastart: 3,
    };
    assert!(EsFS1::sb_valid(&sb));
    assert!(matches!(EsFS1::mkfs(&sb), Err(BlockError::InitError(_))));
}

#[test]
fn div_rem_on_several_integer_types() {
    assert_eq!(cplfs::utils::div_rem(17u64, 5u64), (3, 2));
    assert_eq!(cplfs::utils::div_rem(4096usize, 64usize), (64, 0));
    assert_eq!(cplfs::utils::div_rem(7u8, 9u8), (0, 7));
}

#[test]
fn sup_put_takes_any_superblock_and_can_be_undone() {
    let mut fs = EsFS1::mkfs(&SUPERBLOCK_ALLOC).unwrap();
    // a superblock that does not describe the device is written all the same
    fs.sup_put(&SB_DATA_TOO_SMALL).unwrap();
    assert_eq!(fs.sup_get().unwrap(), SB_DATA_TOO_SMALL);
    let b0 = fs.b_get(0).unwrap();
    assert_eq!(b0.read_superblock(0).unwrap(), SB_DATA_TOO_SMALL);
    // putting the valid one back gives a working file system again
    fs.sup_put(&SUPERBLOCK_ALLOC).unwrap();
    assert_eq!(fs.sup_get().unwrap(), SUPERBLOCK_ALLOC);
    assert_eq!(fs.b_alloc().unwrap(), 0);
}
