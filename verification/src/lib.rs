//! Handle bookkeeping of a FAT volume manager and the gathering of long
//! file names from directory entries.

pub mod fat;
pub mod filesystem;
pub mod handles;
pub mod volume_mgr;
