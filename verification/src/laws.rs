//! What the operations are for: laws over the bytes and fields that go in and come out.

pub mod ciso;
pub mod classify;
pub mod content;
pub mod delivery;
pub mod errors;
pub mod junk;
pub mod nkit;
pub mod process;
pub mod reading;
pub mod removal;
pub mod wbfs;
