//! Block-chained arena pools: growable chains of fixed-capacity blocks that
//! hand out position-stable storage and support cheap checkpoint/rewind.
#![allow(unused_imports)]

pub mod arraylike;
pub mod concat;
pub mod datablock;
pub mod datablock2;
pub mod laws;
pub mod linkedlist;
pub mod linkedlist2;
pub mod pool;
pub mod ptrbased;
pub mod smallobjectpool;
