use cplfs::d_path_support::{EsFS4, PathError};
use cplfs::types::{FType, SuperBlock};

#[test]
fn test_path_regex() {
    assert!(!EsFS4::valid_path(""));
    // assert!(EsFS4::valid_path("."));
    // assert!(EsFS4::valid_path(".."));
    assert!(EsFS4::valid_path("/"));
    assert!(EsFS4::valid_path("./"));
    assert!(EsFS4::valid_path("../"));
    assert!(EsFS4::valid_path("./in35"));
    assert!(!EsFS4::valid_path(".../"));
    assert!(!EsFS4::valid_path("/may/not/end/in/"));
    assert!(EsFS4::valid_path("/verylongnameee/../test/multiple/./level/../deep"));
    assert!(EsFS4::valid_path("./verylongnameee/../test/multiple/./level/../deep"));
    assert!(EsFS4::valid_path("../verylongnameee/../test/multiple/./level/../deep"));
    assert!(!EsFS4::valid_path(".../verylongnameee/../test/multiple/./level/../deep"));
    assert!(!EsFS4::valid_path("../justtoolongname/../test/multiple/./level/../deep"));
    assert!(!EsFS4::valid_path("../exceedinglylongname/../test/multiple/./level/../deep"));
}

#[test]
fn d_path_support_test_new_de() {
    // verify name error is actually passed on through new_de
    assert!(!EsFS4::new_de(1, "root").is_none());
    assert!(EsFS4::new_de(1, "exceedinglylongname").is_none());
}

#[test]
fn test_into_dirnames() {
    assert_eq!(EsFS4::into_dirnames("./in35").unwrap(), vec![".", "in35"]);
}

#[test]
fn dots_alone_are_valid_paths() {
    assert!(EsFS4::valid_path("."));
    assert!(EsFS4::valid_path(".."));
    assert!(!EsFS4::valid_path("//"));
    assert!(!EsFS4::valid_path("a/b"));
    assert_eq!(EsFS4::into_dirnames("/").unwrap().len(), 0);
    assert_eq!(EsFS4::into_dirnames("../a/./b").unwrap(), vec!["..", "a", ".", "b"]);
    assert!(EsFS4::into_dirnames("x").is_none());
}

#[test]
fn split_off_entry() {
    assert_eq!(EsFS4::split_parent_entry("/a/b").unwrap(), ("/a", "b"));
    assert_eq!(EsFS4::split_parent_entry("./a").unwrap(), (".", "a"));
    assert_eq!(EsFS4::split_parent_entry("/a").unwrap(), ("/", "a"));
    assert_eq!(EsFS4::split_parent_entry("..").unwrap(), ("", ".."));
    assert!(EsFS4::split_parent_entry("a").is_none());
}

const SUPERBLOCK: SuperBlock = SuperBlock {
    block_size: 255,
    nblocks: 2000,
    ninodes: 8,
    inodestart: 1,
    ndatablocks: 1500,
    bmapstart: 5,
    datastart: 6,
};

#[test]
fn cwd_round_trip() {
    let mut fs = EsFS4::mkfs(&SUPERBLOCK).unwrap();
    assert_eq!(fs.get_cwd(), "/");
    fs.set_cwd("/a/b/../c/./d").unwrap();
    assert_eq!(fs.get_cwd(), "/a/c/d");
    fs.set_cwd("../x").unwrap();
    assert_eq!(fs.get_cwd(), "/a/c/x");
    let text = fs.get_cwd();
    fs.set_cwd(&text).unwrap();
    assert_eq!(fs.get_cwd(), text);
    assert!(fs.set_cwd("no").is_none());
    assert_eq!(fs.get_cwd(), "/a/c/x");
    fs.set_cwd("/").unwrap();
    assert_eq!(fs.get_cwd(), "/");
    fs.set_cwd("..").unwrap();
    assert_eq!(fs.get_cwd(), "/");
}

#[test]
fn mkdir_resolve_unlink() {
    let mut fs = EsFS4::mkfs(&SUPERBLOCK).unwrap();
    let root = fs.resolve_path(".").unwrap();
    assert_eq!(root.inum, 1);
    assert_eq!(fs.count_entries(&root), Some(2));
    let a = fs.mkdir("./a").unwrap();
    assert_eq!(a.get_ft(), FType::TDir);
    assert_eq!(fs.count_entries(&a), Some(2));
    let b = fs.mkdir("/a/b").unwrap();
    assert_eq!(fs.resolve_path("/a/b").unwrap().inum, b.inum);
    assert_eq!(fs.resolve_path("/a/b/..").unwrap().inum, a.inum);
    assert_eq!(fs.resolve_path("./a/b/../..").unwrap().inum, 1);
    fs.set_cwd("/a").unwrap();
    assert_eq!(fs.resolve_path("./b").unwrap().inum, b.inum);
    assert!(fs.resolve_path("/a/zz").is_err());
    assert!(fs.mkdir("/a/..").is_err());
    // a directory with entries other than . and .. cannot go
    assert!(fs.unlink("/a").is_err());
    fs.unlink("/a/b").unwrap();
    assert!(fs.resolve_path("/a/b").is_err());
    assert!(fs.unlink("/a/.").is_err());
}

#[test]
fn mkfs_root_entries() {
    let fs = EsFS4::mkfs(&SUPERBLOCK).unwrap();
    let root = fs.i_get(1).unwrap();
    assert_eq!(root.get_size(), 44);
    assert_eq!(fs.dirlookup(&root, ".").unwrap().0.inum, 1);
    assert_eq!(fs.dirlookup(&root, "..").unwrap().1, 22);
    let mut sb = SUPERBLOCK;
    sb.ndatablocks = 0;
    sb.nblocks = 6;
    assert!(EsFS4::mkfs(&sb).is_err());
}

#[test]
fn mkdir_and_unlink_keep_link_counts() {
    let mut fs = EsFS4::mkfs(&SUPERBLOCK).unwrap();
    let root_links = fs.i_get(1).unwrap().get_nlink();
    let a = fs.mkdir("./a").unwrap();
    // the new directory's `..` links the parent
    assert_eq!(fs.i_get(1).unwrap().get_nlink(), root_links + 1);
    assert_eq!(a.get_nlink(), 1);
    let a_links = fs.i_get(a.inum).unwrap().get_nlink();
    let b = fs.mkdir("/a/b").unwrap();
    assert_eq!(fs.i_get(a.inum).unwrap().get_nlink(), a_links + 1);
    // the parent has the new entry
    let a_now = fs.i_get(a.inum).unwrap();
    assert_eq!(fs.dirlookup(&a_now, "b").unwrap().0.inum, b.inum);
    fs.unlink("/a/b").unwrap();
    // the last link gone: the inode is freed and the parent lost the link of `..`
    assert_eq!(fs.i_get(b.inum).unwrap().get_ft(), FType::TFree);
    assert_eq!(fs.i_get(a.inum).unwrap().get_nlink(), a_links);
    let a_after = fs.i_get(a.inum).unwrap();
    assert!(fs.dirlookup(&a_after, "b").is_err());
    assert_eq!(fs.count_entries(&a_after), Some(2));
}

#[test]
fn mkdir_fails_without_free_inode() {
    let mut sb = SUPERBLOCK;
    sb.ninodes = 3;
    let mut fs = EsFS4::mkfs(&sb).unwrap();
    fs.mkdir("./a").unwrap();
    // inodes 1 and 2 are in use now
    assert!(fs.mkdir("./b").is_err());
    assert!(fs.resolve_path("./b").is_err());
    // a name that exists cannot be made again
    let mut fs = EsFS4::mkfs(&SUPERBLOCK).unwrap();
    fs.mkdir("./a").unwrap();
    assert!(fs.mkdir("./a").is_err());
}

#[test]
fn unlink_refusals() {
    let mut fs = EsFS4::mkfs(&SUPERBLOCK).unwrap();
    assert!(fs.unlink("./nothing").is_err());
    assert!(fs.unlink("./..").is_err());
    assert!(fs.unlink("bad").is_err());
}

#[test]
fn top_level_paths_have_the_root_as_parent() {
    let mut fs = EsFS4::mkfs(&SUPERBLOCK).unwrap();
    assert_eq!(fs.resolve_path("/").unwrap().inum, 1);
    let a = fs.mkdir("/a").unwrap();
    assert_eq!(fs.resolve_path("/a").unwrap().inum, a.inum);
    let root = fs.i_get(1).unwrap();
    assert_eq!(fs.dirlookup(&root, "a").unwrap().0.inum, a.inum);
    assert_eq!(fs.dirlookup(&a, "..").unwrap().0.inum, 1);
    fs.unlink("/a").unwrap();
    assert!(fs.resolve_path("/a").is_err());
}

#[test]
fn unlinking_the_last_link_of_a_file_frees_it() {
    let mut fs = EsFS4::mkfs(&SUPERBLOCK).unwrap();
    let i = fs.i_alloc(FType::TFile).unwrap();
    let mut root = fs.i_get(1).unwrap();
    fs.dirlink(&mut root, "f", i).unwrap();
    assert_eq!(fs.i_get(i).unwrap().get_nlink(), 1);
    let root_links = fs.i_get(1).unwrap().get_nlink();
    fs.unlink("./f").unwrap();
    assert_eq!(fs.i_get(i).unwrap().get_ft(), FType::TFree);
    assert!(fs.resolve_path("./f").is_err());
    // no `..` to follow: the parent keeps its links
    assert_eq!(fs.i_get(1).unwrap().get_nlink(), root_links);
}

#[test]
fn unlinking_one_of_two_links_keeps_the_file() {
    let mut fs = EsFS4::mkfs(&SUPERBLOCK).unwrap();
    let i = fs.i_alloc(FType::TFile).unwrap();
    let mut root = fs.i_get(1).unwrap();
    fs.dirlink(&mut root, "f", i).unwrap();
    fs.dirlink(&mut root, "g", i).unwrap();
    fs.unlink("/f").unwrap();
    let ino = fs.i_get(i).unwrap();
    assert_eq!(ino.get_ft(), FType::TFile);
    assert_eq!(ino.get_nlink(), 1);
    assert_eq!(fs.resolve_path("/g").unwrap().inum, i);
}

#[test]
fn lookup_messages_name_the_entry() {
    let fs = EsFS4::mkfs(&SUPERBLOCK).unwrap();
    let root = fs.i_get(1).unwrap();
    match fs.lookup_dirname_inode(&root, "zz") {
        Err(PathError::Lookup(m)) => assert_eq!(m, "zz could not be found."),
        _ => panic!("expected a lookup error"),
    }
    // a directory inode that differs from the one on disk
    let mut stale = root;
    stale.disk_node.nlink += 5;
    match fs.lookup_dirname_inode(&stale, "zz") {
        Err(PathError::Lookup(m)) => assert_eq!(m, "zz is not a directory."),
        _ => panic!("expected a lookup error"),
    }
    assert_eq!(fs.lookup_dirname_inode(&root, ".").unwrap().inum, 1);
}

#[test]
fn unlink_from_directory_with_odd_pointers_it_does_not_write() {
    let mut fs = EsFS4::mkfs(&SUPERBLOCK).unwrap();
    let i = fs.i_alloc(FType::TFile).unwrap();
    let mut root = fs.i_get(1).unwrap();
    fs.dirlink(&mut root, "f", i).unwrap();
    fs.dirlink(&mut root, "g", i).unwrap();
    let b0 = root.disk_node.direct_blocks[0];
    let odd = cplfs::types::Inode::new(
        1,
        &FType::TDir,
        root.disk_node.nlink,
        root.get_size(),
        &[b0, 0, 0, b0, 0, 0, 0, 0, 0, 0, 0, SUPERBLOCK.datastart + 50],
    )
    .unwrap();
    fs.i_put(&odd).unwrap();
    fs.unlink("/f").unwrap();
    assert!(fs.resolve_path("/f").is_err());
    let ino = fs.i_get(i).unwrap();
    assert_eq!(ino.get_ft(), FType::TFile);
    assert_eq!(ino.get_nlink(), 1);
    assert_eq!(fs.resolve_path("/g").unwrap().inum, i);
    // the last link goes too: the file is freed
    fs.unlink("/g").unwrap();
    assert!(fs.resolve_path("/g").is_err());
    assert_eq!(fs.i_get(i).unwrap().get_ft(), FType::TFree);
}

#[test]
fn unlinking_a_file_frees_its_blocks_and_keeps_the_others() {
    let mut fs = EsFS4::mkfs(&SUPERBLOCK).unwrap();
    let i = fs.i_alloc(FType::TFile).unwrap();
    let mut file = fs.i_get(i).unwrap();
    let buf = cplfs::blocks::Buffer::new(vec![7u8; 300]);
    fs.i_write(&mut file, &buf, 0, 300).unwrap();
    let b0 = file.disk_node.direct_blocks[0];
    let b1 = file.disk_node.direct_blocks[1];
    let mut root = fs.i_get(1).unwrap();
    fs.dirlink(&mut root, "f", i).unwrap();
    let root_block = fs.i_get(1).unwrap().disk_node.direct_blocks[0];
    let before = fs.b_get(root_block).unwrap();
    fs.unlink("/f").unwrap();
    // the root's block changed only in the cleared entry
    let after = fs.b_get(root_block).unwrap();
    assert_ne!(before.contents_as_ref(), after.contents_as_ref());
    // the file's two blocks are free again: allocation hands them out first
    let first = fs.b_alloc().unwrap() + SUPERBLOCK.datastart;
    let second = fs.b_alloc().unwrap() + SUPERBLOCK.datastart;
    let mut got = [first, second];
    got.sort();
    let mut want = [b0, b1];
    want.sort();
    assert_eq!(got, want);
}

#[test]
fn mkdir_in_directory_with_odd_pointers_it_does_not_write() {
    let mut fs = EsFS4::mkfs(&SUPERBLOCK).unwrap();
    let root = fs.i_get(1).unwrap();
    let b0 = root.disk_node.direct_blocks[0];
    // past the root's one block: the same block again, and an unallocated one
    let odd = cplfs::types::Inode::new(
        1,
        &FType::TDir,
        root.disk_node.nlink,
        root.get_size(),
        &[b0, 0, 0, b0, 0, 0, 0, 0, 0, 0, SUPERBLOCK.datastart + 40],
    )
    .unwrap();
    fs.i_put(&odd).unwrap();
    let d = fs.mkdir("/sub").unwrap();
    assert_eq!(d.get_ft(), FType::TDir);
    assert_eq!(fs.resolve_path("/sub").unwrap().inum, d.inum);
    assert_eq!(fs.resolve_path("/sub/..").unwrap().inum, 1);
    assert_eq!(fs.resolve_path("/sub/.").unwrap().inum, d.inum);
    assert_eq!(fs.i_get(1).unwrap().get_nlink(), root.get_nlink() + 1);
    // the root's own entries are still found
    assert_eq!(fs.resolve_path("/.").unwrap().inum, 1);
    assert_eq!(fs.resolve_path("/..").unwrap().inum, 1);
    // removing the empty directory frees it and gives the root its link back
    fs.unlink("/sub").unwrap();
    assert!(fs.resolve_path("/sub").is_err());
    assert_eq!(fs.i_get(d.inum).unwrap().get_ft(), FType::TFree);
    assert_eq!(fs.i_get(1).unwrap().get_nlink(), root.get_nlink());
}
