//! Pieces of the FAT file system driver.

pub mod lfn;
