# cplfs

A small layered file system over a block device, written in Verus: every
operation of the library carries a contract, and Verus proves the code
against it.

## Layers

- `blocks`, `types`, `codec`, `bitmap`: blocks, buffers and an in-memory
  device; the on-disk encodings of the superblock, disk inodes and directory
  entries; bit operations on bitmap bytes.
- `a_block_support` (`EsFS1`): the superblock, the bitmap of the data region,
  and allocating, freeing and zeroing data blocks.
- `b_inode_support` (`EsFS2`): inodes stored in the inode region; reading,
  writing, allocating, truncating and freeing them.
- `e_inode_rw_support` (`EsFS21`): reading and writing the bytes of an inode,
  allocating the blocks a write needs; `write_model` holds the model of a
  write that its contract and the proofs use.
- `c_dirs_support` (`EsFS3`): directories as arrays of entries; looking names
  up and linking them in.
- `d_path_support` (`EsFS4`): paths resolved from the root or the working
  directory; `mkdir` and `unlink`.

Each layer states its operations over the blocks of the device (`disk()`) and
the superblock (`sb()`), so the contracts of one layer build on those below.
Public proof functions state how operations combine: `lemma_alloc_then_free`,
`lemma_unmount_then_mount`, `lemma_inode_write_read`, `lemma_write_read_back`, `lemma_link_then_lookup`,
`lemma_unlink_then_lookup` and `lemma_cwd_round_trip`; `lemma_pieces_fit` states
that a write that passes its checks never runs past the block pointers of an
inode, and `lemma_pieces_valid` that the pieces of a valid path are valid names.

Writes are stated for any inode whose block pointers the write meets can be
written through and are distinct (`write_meets_ok`); pointers the write does
not meet do not matter. The same holds of linking a name into a directory, of
clearing an entry in `unlink` (and freeing what lost its last link), and of
`mkdir` in a parent whose entries' blocks are allocated (`link_writable`);
what else these leave unchanged is stated for directories whose block
pointers are all sound (`dir_ok`). `sup_put` takes any superblock, and the file
system is well formed afterwards exactly when the new one describes the device
(`sb_fits_device`).

Path operations ask only that the directories they look in can be read
(`resolve_readable`); `lemma_readable_resolve` derives that from every
directory being readable, which `mkfs` ensures and `mkdir` and `unlink` keep.

## Around the library

`app/` keeps a device in an image file, loads and stores it, and gives the
library's error enums `Display` and `std::error::Error`.
