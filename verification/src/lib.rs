//! A FAT32 filesystem library with verified core logic.
//!
//! The library works on an in-memory sector image (`disk::Disk`); moving
//! sectors between that image and a real storage medium is left to the
//! embedder through the `device::BlockDevice` trait. The whole volume
//! must fit in memory, and nothing reaches the medium until the embedder
//! stores the image back (`device::store_image`): the image is the unit
//! of durability, not the single sector write.

pub mod device;
pub mod dir;
pub mod disk;
pub mod entry;
pub mod fat32;
pub mod laws;
pub mod layout;
pub mod namemap;
pub mod utils;

pub use device::BlockDevice;
pub use dir::{Dir, DirEntryType, File, OperationError};
pub use fat32::Fat32;
