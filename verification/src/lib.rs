//! A small Raspberry Pi operating system core: FAT32 on-disk structures and
//! directory decoding, memory allocators, a round-robin process scheduler and
//! the logic of an interactive shell, each with its contract.

pub mod allocator;
pub mod bytes;
pub mod commands;
pub mod mbr;
pub mod process;
pub mod shell;
pub mod text;
pub mod traits;
pub mod traps;
pub mod vfat;
