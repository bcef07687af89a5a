//! The FAT32 file system: on-disk structures and reading.

pub mod cluster;
pub mod dir;
pub mod ebpb;
pub mod fat;
pub mod file;
pub mod fs;
pub mod metadata;
pub mod vfat;

use vstd::prelude::*;

use crate::traits::IoError;

verus! {

/// Why a FAT32 file system could not be opened.
#[derive(Copy, Clone, Debug, PartialEq, Eq, Structural)]
pub enum Error {
    /// Reading the device failed.
    Io(IoError),
    /// The master boot record was refused.
    Mbr(crate::mbr::Error),
    /// The EBPB signature was invalid.
    BadSignature,
    /// No FAT32 partition was found.
    NotFound,
}

} // verus!
