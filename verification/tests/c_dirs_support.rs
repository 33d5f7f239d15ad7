use cplfs::c_dirs_support::{is_dirname, EsFS3};
use cplfs::blocks::Buffer;
use cplfs::types::{FType, Inode, SuperBlock, DIRENTRY_SIZE};

#[test]
fn test_dirname_regex() {
    assert!(is_dirname("test"));
    assert!(is_dirname("testing123"));
    assert!(is_dirname("verylongnameee"));
    assert!(!is_dirname("verylongnameeee"));
    assert!(is_dirname("."));
    assert!(is_dirname(".."));
    assert!(!is_dirname("exceedinglylongname"));
    assert!(!is_dirname("..."));
    assert!(!is_dirname("namewith."));
    assert!(!is_dirname(""));
}

#[test]
fn c_dirs_support_test_new_de() {
    // verify name error is actually passed on through new_de
    assert!(!EsFS3::new_de(1, "root").is_none());
    assert!(EsFS3::new_de(1, "exceedinglylongname").is_none());
}

const BLOCK_SIZE: u64 = 255;
const NBLOCKS: u64 = 2000;
const SUPERBLOCK: SuperBlock = SuperBlock {
    block_size: BLOCK_SIZE,
    nblocks: NBLOCKS,
    ninodes: 4,
    inodestart: 1,
    ndatablocks: 1500,
    bmapstart: 3,
    datastart: 4,
};

#[test]
fn test_dirlookup() {
    let mut fs = EsFS3::mkfs(&SUPERBLOCK).unwrap();
    fs.b_alloc().unwrap();
    fs.b_alloc().unwrap();
    let mut iroot = Inode::new(
        1,
        &FType::TDir,
        0,
        // initially the inode contains no data
        (1.5 * (BLOCK_SIZE as f32)) as u64,
        &[4, 5],
    )
    .unwrap();
    println!("{:?}", iroot);
    fs.i_put(&iroot).unwrap();
    let i1 = Inode::new(
        2,
        &FType::TFile,
        0,
        // initially the inode contains no data
        0,
        &[0],
    )
    .unwrap();
    fs.i_put(&i1).unwrap();
    // put a directory entry across block boundaries
    println!("{:?}", DIRENTRY_SIZE);
    let mut buffer = Buffer::new_zero(DIRENTRY_SIZE);
    let direntry = EsFS3::new_de(2, "test").unwrap();
    buffer.write_dir_entry(&direntry, 0).unwrap();
    let offset = BLOCK_SIZE - (BLOCK_SIZE % DIRENTRY_SIZE);
    fs.i_write(&mut iroot, &buffer, offset, DIRENTRY_SIZE).unwrap();
    assert_eq!((i1, offset), fs.dirlookup(&iroot, "test").unwrap());
}

#[test]
fn names_read_back() {
    let de = EsFS3::new_de(7, "abc").unwrap();
    assert_eq!(de.inum, 7);
    assert_eq!(EsFS3::get_name_str(&de), "abc");
    let mut de2 = EsFS3::new_de(7, "abcdef").unwrap();
    // a shorter name replaces the whole old one
    EsFS3::set_name_str(&mut de2, "xy").unwrap();
    assert_eq!(EsFS3::get_name_str(&de2), "xy");
    assert!(EsFS3::set_name_str(&mut de2, "a/b").is_none());
    assert_eq!(EsFS3::get_name_str(&de2), "xy");
    assert_eq!(EsFS3::get_name_str(&EsFS3::new_de(1, "..").unwrap()), "..");
}

#[test]
fn link_then_lookup() {
    let mut fs = EsFS3::mkfs(&SUPERBLOCK).unwrap();
    let mut root = fs.i_get(1).unwrap();
    let f = fs.i_alloc(FType::TFile).unwrap();
    assert_eq!(f, 2);
    assert_eq!(fs.dirlink(&mut root, "file", f).unwrap(), 0);
    assert_eq!(fs.dirlink(&mut root, "self", 1).unwrap(), DIRENTRY_SIZE);
    let (ino, off) = fs.dirlookup(&root, "file").unwrap();
    assert_eq!((ino.inum, off), (2, 0));
    // linking added a link to the file, not to the directory linking itself
    assert_eq!(ino.get_nlink(), 1);
    assert_eq!(fs.i_get(1).unwrap().get_nlink(), 1);
    assert_eq!(root.get_size(), 2 * DIRENTRY_SIZE);
    // a second entry of the same name is refused
    assert!(fs.dirlink(&mut root, "file", f).is_err());
    // an invalid name, or a free inode, is refused
    assert!(fs.dirlink(&mut root, "no/slash", f).is_err());
    assert!(fs.dirlink(&mut root, "free", 3).is_err());
    assert!(fs.dirlookup(&root, "absent").is_err());
}

#[test]
fn lookup_refuses_non_directory_and_stale_inode() {
    let mut fs = EsFS3::mkfs(&SUPERBLOCK).unwrap();
    let f = fs.i_alloc(FType::TFile).unwrap();
    let file = fs.i_get(f).unwrap();
    assert!(fs.dirlookup(&file, "x").is_err());
    let mut root = fs.i_get(1).unwrap();
    let stale = root;
    fs.dirlink(&mut root, "x", f).unwrap();
    assert!(fs.dirlookup(&stale, "x").is_err());
}

#[test]
fn mkfs_writes_root() {
    let fs = EsFS3::mkfs(&SUPERBLOCK).unwrap();
    let root = fs.i_get(1).unwrap();
    assert_eq!(root.get_ft(), FType::TDir);
    assert_eq!(root.get_nlink(), 1);
    assert_eq!(root.get_size(), 0);
    let mut sb = SUPERBLOCK;
    sb.ninodes = 1;
    assert!(EsFS3::mkfs(&sb).is_err());
}

#[test]
fn link_into_directory_with_odd_pointers_it_does_not_write() {
    let mut fs = EsFS3::mkfs(&SUPERBLOCK).unwrap();
    let mut root = fs.i_get(1).unwrap();
    let f = fs.i_alloc(FType::TFile).unwrap();
    assert_eq!(fs.dirlink(&mut root, "a", f).unwrap(), 0);
    let b0 = root.disk_node.direct_blocks[0];
    // the root also points at its first block again, and at an unallocated
    // data block, past the block the next entry goes to
    let odd = Inode::new(
        1,
        &FType::TDir,
        root.disk_node.nlink,
        root.get_size(),
        &[b0, 0, 0, 0, 0, b0, 0, SUPERBLOCK.datastart + 600],
    )
    .unwrap();
    fs.i_put(&odd).unwrap();
    let mut root = fs.i_get(1).unwrap();
    assert_eq!(fs.dirlink(&mut root, "b", f).unwrap(), DIRENTRY_SIZE);
    assert_eq!(root.get_size(), 2 * DIRENTRY_SIZE);
    let (ino, off) = fs.dirlookup(&root, "b").unwrap();
    assert_eq!((ino.inum, off), (f, DIRENTRY_SIZE));
    assert_eq!(ino.get_nlink(), 2);
    assert_eq!(fs.dirlookup(&root, "a").unwrap().1, 0);
}
