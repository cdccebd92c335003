//! Verified core of a reader and writer for GameCube and Wii disc images.

pub mod block;
pub mod buffers;
pub mod check;
pub mod ciso;
pub mod crypt;
pub mod disc;
pub mod endian;
pub mod error;
pub mod image;
pub mod laws;
pub mod lfg;
pub mod nkit;
pub mod options;
pub mod order;
pub mod processor;
pub mod removal;
pub mod spans;
pub mod usage;
pub mod wbfs;
pub mod writer;
