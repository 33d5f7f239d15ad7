//! A small block-device file system, layered as blocks, inodes, inode
//! reading and writing, directories and paths.
pub mod utils;
pub mod codec;
pub mod types;
pub mod blocks;
pub mod bitmap;
pub mod a_block_support;
pub mod b_inode_support;
pub mod e_inode_rw_support;
pub mod write_model;
pub mod c_dirs_support;
pub mod d_path_support;
