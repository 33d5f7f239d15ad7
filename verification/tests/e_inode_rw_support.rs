use cplfs::blocks::Buffer;
use cplfs::e_inode_rw_support::{EsFS21, InodeBlockMutIter, InodeRWError};
use cplfs::types::{FType, Inode, SuperBlock, DIRECT_POINTERS};
use std::ops::Range;

const BLOCK_SIZE: u64 = 255;
const NBLOCKS: u64 = 2000;
const SUPERBLOCK: SuperBlock = SuperBlock {
    block_size: BLOCK_SIZE,
    nblocks: NBLOCKS,
    ninodes: 4,
    inodestart: 1,
    ndatablocks: 1500,
    bmapstart: 3,
    datastart: 4,
};

const C_SUPERBLOCK: SuperBlock = SuperBlock {
    block_size: 1000,
    nblocks: 10,
    ninodes: 8,
    inodestart: 1,
    ndatablocks: 5,
    bmapstart: 4,
    datastart: 5,
};

fn generate_some_data() -> Vec<usize> {
    let mut data = Vec::new();
    for i in 0..40 {
        data.push(i * 123);
    }
    data
}

#[test]
fn test_generate_ranges() {
    let fs = EsFS21::mkfs(&SUPERBLOCK).unwrap();
    let n: usize = 1000;
    let offset: u64 = 500;
    let mut calculated_offset: u64 = 0;
    let mut calculated_n: usize = 0;
    let (ranges, skip_n) = fs.generate_ranges(n, offset as usize);
    calculated_offset += skip_n * BLOCK_SIZE;
    for r in ranges {
        match r {
            Range { start: 0, end: m } => calculated_n += m,
            Range { start: n1, end: n2 } => {
                calculated_offset += n1 as u64;
                let (nn, _) = n2.overflowing_sub(n1);
                calculated_n += nn;
            }
        }
    }
    assert_eq!(offset, calculated_offset);
    assert_eq!(n, calculated_n);
}

#[test]
fn test_generate_write_ranges() {
    let fs = EsFS21::mkfs(&SUPERBLOCK).unwrap();
    let n: u64 = 1000;
    let offset: u64 = 500;
    let mut calculated_n: u64 = 0;
    let (ranges, skip_blocks, init_off) = fs.generate_writing_ranges(n as usize, offset as usize);
    let calculated_offset = (skip_blocks * BLOCK_SIZE) + init_off;
    for r in &ranges {
        match r {
            Range { start: 0, end: m } => calculated_n += *m as u64,
            Range { start: n1, end: n2 } => {
                let (nn, _) = n2.overflowing_sub(*n1);
                calculated_n += nn as u64;
            }
        }
    }
    for i in 0..ranges.len() - 1 {
        let Range { start: _, end: n12 } = ranges.get(i).unwrap();
        let Range { start: n21, end: _ } = ranges.get(i + 1).unwrap();
        assert!(n12 == n21);
    }
    assert_eq!(offset, calculated_offset);
    assert_eq!(n, calculated_n);
}

#[test]
fn test_mut_inode_iter() {
    let mut fs = EsFS21::mkfs(&SUPERBLOCK).unwrap();
    // allocate first block for inode
    fs.b_alloc().unwrap();
    let mut i1 = Inode::new(2, &FType::TDir, 0, 2 * BLOCK_SIZE, &[SUPERBLOCK.datastart]).unwrap();
    // put inode
    fs.i_put(&i1).unwrap();
    let mut inode_mut_iter = InodeBlockMutIter::new(0);
    // check we can automatically allocate blocks until DIRECT_POINTERS
    for _ in 0..DIRECT_POINTERS {
        assert!(inode_mut_iter.next(&mut fs, &mut i1).is_some());
    }
    // check we get no more blocks after DIRECT_POINTERS
    assert!(inode_mut_iter.next(&mut fs, &mut i1).is_none());
    // check the pointers were filled in
    for i in 0..DIRECT_POINTERS {
        assert_eq!(i1.get_block(i), i + SUPERBLOCK.datastart);
    }
}

#[test]
fn test_c_inspired_read() {
    let fs = EsFS21::mkfs(&C_SUPERBLOCK).unwrap();
    // get the root node
    let iroot = fs.i_get(1).unwrap();
    let mut buffer = Buffer::new_zero(1386);
    fs.i_read(&iroot, &mut buffer, 0, 1386).unwrap();
}

#[test]
fn test_i_read() {
    let mut fs = EsFS21::mkfs(&SUPERBLOCK).unwrap();
    // allocate the first two blocks for the inode
    fs.b_alloc().unwrap();
    fs.b_alloc().unwrap();
    // inode size which goes halfway into the second block
    let i1 = Inode::new(
        2,
        &FType::TDir,
        0,
        BLOCK_SIZE + 128,
        &[SUPERBLOCK.datastart, SUPERBLOCK.datastart + 1],
    )
    .unwrap();
    let some_data = generate_some_data();
    // write manually into blocks; 328 bytes
    let serialized_data = bincode::serialize(&some_data).unwrap();
    let mut block1 = fs.b_get(SUPERBLOCK.datastart).unwrap();
    for i in 0..BLOCK_SIZE {
        block1.write_u8(i, serialized_data[i as usize]).unwrap();
    }
    fs.b_put(&block1).unwrap();
    let mut block2 = fs.b_get(SUPERBLOCK.datastart + 1).unwrap();
    for i in 0..73 {
        block2.write_u8(i, serialized_data[(i + BLOCK_SIZE) as usize]).unwrap();
    }
    fs.b_put(&block2).unwrap();
    fs.i_put(&i1).unwrap();
    // read data back
    let mut buffer = Buffer::new_zero(328);
    fs.i_read(&i1, &mut buffer, 0, 328).unwrap();
    let read_data: Vec<usize> = bincode::deserialize(buffer.contents_as_ref()).unwrap();
    assert_eq!(read_data, some_data);
    // offset past end of file
    assert!(fs.i_read(&i1, &mut Buffer::new_zero(20), 2 * BLOCK_SIZE, 10).is_err());
    // read at end of file
    assert_eq!(fs.i_read(&i1, &mut Buffer::new_zero(20), BLOCK_SIZE + 128, 10).unwrap(), 0);
    // read more than buffer can contain
    assert_eq!(fs.i_read(&i1, &mut Buffer::new_zero(20), 0, 100).unwrap(), 20);
    // read just before end of file
    assert_eq!(fs.i_read(&i1, &mut Buffer::new_zero(100), BLOCK_SIZE + 108, 100).unwrap(), 20);
}

#[test]
fn test_i_write() {
    let mut fs = EsFS21::mkfs(&SUPERBLOCK).unwrap();
    // initially the inode contains no data
    let mut i1 = Inode::new(2, &FType::TDir, 0, 0, &[0]).unwrap();
    let some_data = generate_some_data();
    let mut buffer = Buffer::new_zero(328);
    buffer.write_data(&bincode::serialize(&some_data).unwrap(), 0).unwrap();
    fs.i_write(&mut i1, &buffer, 0, 328).unwrap();
    // scenarios that fail leave the data as it was
    // start writing beyond end of file
    assert!(fs.i_write(&mut i1, &Buffer::new_zero(10), 1000, 10).is_err());
    // buffer does not contain as much data as we want to write
    assert!(fs.i_write(&mut i1, &Buffer::new_zero(0), 0, 10).is_err());
    // writing this many bytes would make inode too large
    assert!(fs
        .i_write(&mut i1, &Buffer::new_zero(0), 0, BLOCK_SIZE * (DIRECT_POINTERS + 1))
        .is_err());
    // check size is changed
    assert_eq!(i1.get_size(), 328);
    // check blocks get allocated
    assert!(i1.get_block(0) != 0);
    assert!(i1.get_block(1) != 0);
    let mut read_buffer = Buffer::new_zero(328);
    fs.i_read(&i1, &mut read_buffer, 0, 328).unwrap();
    assert_eq!(buffer.contents_as_ref(), read_buffer.contents_as_ref());
}

#[test]
fn bytes_to_read_is_least_of_three() {
    let fs = EsFS21::mkfs(&SUPERBLOCK).unwrap();
    assert_eq!(fs.calculate_bytes_to_read(100, 50, 10, 70).unwrap(), 50);
    assert_eq!(fs.calculate_bytes_to_read(100, 500, 10, 70).unwrap(), 70);
    assert_eq!(fs.calculate_bytes_to_read(100, 500, 60, 70).unwrap(), 40);
    assert_eq!(fs.calculate_bytes_to_read(100, 500, 100, 70).unwrap(), 0);
    assert!(matches!(fs.calculate_bytes_to_read(100, 500, 101, 70), Err(InodeRWError::RW(_))));
}

#[test]
fn read_ranges_exact() {
    let fs = EsFS21::mkfs(&SUPERBLOCK).unwrap();
    let (ranges, skip) = fs.generate_ranges(600, 300);
    assert_eq!(skip, 1);
    assert_eq!(ranges, vec![45..255, 0..255, 0..135]);
    let (ranges, skip) = fs.generate_ranges(0, 300);
    assert_eq!(skip, 0);
    assert!(ranges.is_empty());
    let (ranges, _) = fs.generate_ranges(210, 45);
    assert_eq!(ranges, vec![45..255]);
}

#[test]
fn write_ranges_exact() {
    let fs = EsFS21::mkfs(&SUPERBLOCK).unwrap();
    let (ranges, skip, init_off) = fs.generate_writing_ranges(600, 300);
    assert_eq!((skip, init_off), (1, 45));
    assert_eq!(ranges, vec![0..210, 210..465, 465..600]);
    // the bytes end exactly at the end of the first block: one piece
    let (ranges, _, _) = fs.generate_writing_ranges(210, 45);
    assert_eq!(ranges, vec![0..210]);
    assert_eq!(fs.generate_writing_ranges(255, 0), (vec![0..255], 0, 0));
    assert_eq!(fs.generate_writing_ranges(10, 245), (vec![0..10], 0, 245));
}

#[test]
fn write_of_one_full_block_allocates_one_block() {
    let mut fs = EsFS21::mkfs(&SUPERBLOCK).unwrap();
    let mut ino = Inode::new(1, &FType::TFile, 1, 0, &[]).unwrap();
    fs.i_put(&ino).unwrap();
    fs.i_write(&mut ino, &Buffer::new_zero(255), 0, 255).unwrap();
    assert_eq!(ino.get_size(), 255);
    assert_ne!(ino.get_block(0), 0);
    assert_eq!(ino.get_block(1), 0);
}

#[test]
fn write_up_to_the_last_pointer_succeeds() {
    let mut fs = EsFS21::mkfs(&SUPERBLOCK).unwrap();
    let mut ino = Inode::new(1, &FType::TFile, 1, 0, &[]).unwrap();
    fs.i_put(&ino).unwrap();
    let full = 12 * BLOCK_SIZE;
    fs.i_write(&mut ino, &Buffer::new_zero(full), 0, full).unwrap();
    assert_eq!(ino.get_size(), full);
    let buf = Buffer::new(vec![9u8; 10]);
    fs.i_write(&mut ino, &buf, full - 10, 10).unwrap();
    assert_eq!(ino.get_size(), full);
    let mut out = Buffer::new_zero(10);
    assert_eq!(fs.i_read(&ino, &mut out, full - 10, 10).unwrap(), 10);
    assert_eq!(out.contents_as_ref(), &[9u8; 10][..]);
}

#[test]
fn write_then_read_back_across_blocks() {
    let mut fs = EsFS21::mkfs(&SUPERBLOCK).unwrap();
    let mut ino = Inode::new(1, &FType::TFile, 1, 0, &[]).unwrap();
    let data: Vec<u8> = (0..700u32).map(|x| (x % 251) as u8).collect();
    let buf = Buffer::new(data.clone());
    fs.i_write(&mut ino, &buf, 0, 700).unwrap();
    assert_eq!(ino.get_size(), 700);
    // overwrite the middle, across a block boundary
    let patch = Buffer::new(vec![7u8; 100]);
    fs.i_write(&mut ino, &patch, 200, 100).unwrap();
    assert_eq!(ino.get_size(), 700);
    let mut out = Buffer::new_zero(700);
    assert_eq!(fs.i_read(&ino, &mut out, 0, 700).unwrap(), 700);
    let mut expected = data.clone();
    for b in expected.iter_mut().skip(200).take(100) {
        *b = 7;
    }
    assert_eq!(out.contents_as_ref(), &expected[..]);
    // the inode on disk grew too
    assert_eq!(fs.i_get(1).unwrap().get_size(), 700);
}

#[test]
fn write_past_pointer_array_is_out_of_blocks() {
    let mut fs = EsFS21::mkfs(&SUPERBLOCK).unwrap();
    let mut ino = Inode::new(1, &FType::TFile, 1, 0, &[]).unwrap();
    let buf = Buffer::new_zero(20);
    let r = fs.i_write(&mut ino, &buf, 0, 12 * BLOCK_SIZE + 1);
    assert!(matches!(r, Err(InodeRWError::RW(_))));
    let big = Buffer::new_zero(12 * BLOCK_SIZE + 1);
    let r = fs.i_write(&mut ino, &big, 0, 12 * BLOCK_SIZE + 1);
    assert!(matches!(r, Err(InodeRWError::OutOfBlocks(_))));
    assert_eq!(ino.get_size(), 0);
}

#[test]
fn read_of_missing_block_fails() {
    let fs = EsFS21::mkfs(&SUPERBLOCK).unwrap();
    let ino = Inode::new(1, &FType::TFile, 1, 300, &[SUPERBLOCK.datastart]).unwrap();
    let mut out = Buffer::new_zero(300);
    assert!(matches!(fs.i_read(&ino, &mut out, 0, 300), Err(InodeRWError::RW(_))));
    // the part in the first block is read
    assert_eq!(fs.i_read(&ino, &mut out, 0, 255).unwrap(), 255);
}

#[test]
fn write_through_a_block_past_the_data_region_reads_back() {
    let mut fs = EsFS21::mkfs(&SUPERBLOCK).unwrap();
    let past = SUPERBLOCK.datastart + SUPERBLOCK.ndatablocks + 10;
    let mut ino = Inode::new(1, &FType::TFile, 1, 0, &[past]).unwrap();
    fs.i_put(&ino).unwrap();
    let buf = Buffer::new(vec![5u8; 10]);
    fs.i_write(&mut ino, &buf, 0, 10).unwrap();
    assert_eq!(ino.get_size(), 10);
    assert_eq!(ino.get_block(0), past);
    let mut out = Buffer::new_zero(10);
    assert_eq!(fs.i_read(&ino, &mut out, 0, 10).unwrap(), 10);
    assert_eq!(out.contents_as_ref(), &[5u8; 10][..]);
}

#[test]
fn write_takes_the_lowest_free_blocks_in_pointer_order() {
    let mut fs = EsFS21::mkfs(&SUPERBLOCK).unwrap();
    let mut ino = Inode::new(1, &FType::TFile, 1, 0, &[]).unwrap();
    fs.i_put(&ino).unwrap();
    fs.i_write(&mut ino, &Buffer::new_zero(3 * BLOCK_SIZE), 0, 3 * BLOCK_SIZE).unwrap();
    for i in 0..3 {
        assert_eq!(ino.get_block(i), SUPERBLOCK.datastart + i);
    }
}

#[test]
fn write_through_odd_pointers_outside_the_write_reads_back() {
    let mut fs = EsFS21::mkfs(&SUPERBLOCK).unwrap();
    // block 0 is a data block that the bitmap does not mark and that the
    // write never meets; block 1 points into the inode region
    let unmarked = SUPERBLOCK.datastart + 7;
    let mut ino = Inode::new(1, &FType::TFile, 1, 2 * BLOCK_SIZE, &[unmarked, 1]).unwrap();
    let buf = Buffer::new(vec![3u8; 20]);
    fs.i_write(&mut ino, &buf, BLOCK_SIZE + 5, 20).unwrap();
    assert_eq!(ino.get_size(), 2 * BLOCK_SIZE);
    let mut out = Buffer::new_zero(20);
    assert_eq!(fs.i_read(&ino, &mut out, BLOCK_SIZE + 5, 20).unwrap(), 20);
    assert_eq!(out.contents_as_ref(), &[3u8; 20][..]);
}
