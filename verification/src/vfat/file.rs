use vstd::prelude::*;

use crate::traits::{same_sectors, BlockDevice, IoError};
use crate::vfat::vfat::{zeros, VFat};
use crate::vfat::cluster::Cluster;
use crate::vfat::metadata::Metadata;

verus! {

/// Where a seek counts from.
#[derive(Copy, Clone, Debug, PartialEq, Eq, Structural)]
pub enum SeekFrom {
    /// An offset from the start of the file.
    Start(u64),
    /// An offset from the end of the file.
    End(i64),
    /// An offset from the current position.
    Current(i64),
}

/// A file of a FAT32 file system: its directory entry and a read position.
#[derive(Debug)]
pub struct File {
    pub name: String,
    pub first_cluster: Cluster,
    pub metadata: Metadata,
    pub size: u32,
    ptr: u32,
}

/// The number of bytes a read gives: as many as the buffer holds and the
/// file has left after the position.
pub open spec fn read_len(ptr: int, size: int, buf_len: int) -> int {
    if buf_len <= size - ptr {
        buf_len
    } else {
        size - ptr
    }
}

/// The position a seek aims at, over integers.
pub open spec fn seek_target(pos: SeekFrom, ptr: int, size: int) -> int {
    match pos {
        SeekFrom::Start(o) => o as int,
        SeekFrom::End(o) => size + o,
        SeekFrom::Current(o) => ptr + o,
    }
}

/// A position that a seek returned can be used later with `SeekFrom::Start`:
/// if a seek on `earlier` returned `Ok(x)`, then on any later state `later`
/// of the file with the same size (seeks and reads keep the size), seeking
/// to `SeekFrom::Start(x)` succeeds with `Ok(x)` and moves the position to
/// `x`, whatever the position was.
pub proof fn lemma_seek_position_reusable(earlier: File, pos: SeekFrom, x: u64, later: File)
    requires
        0 <= seek_target(pos, earlier.position() as int, earlier.spec_size() as int)
            <= earlier.spec_size(),
        x == seek_target(pos, earlier.position() as int, earlier.spec_size() as int),
        later.spec_size() == earlier.spec_size(),
    ensures
        0 <= seek_target(SeekFrom::Start(x), later.position() as int, later.spec_size() as int)
            <= later.spec_size(),
        seek_target(SeekFrom::Start(x), later.position() as int, later.spec_size() as int) == x,
{
}

impl File {
    #[verifier::type_invariant]
    closed spec fn position_in_file(self) -> bool {
        self.ptr <= self.size
    }

    /// The file's name.
    pub closed spec fn spec_name(&self) -> Seq<char> {
        self.name@
    }

    /// The file's first cluster.
    pub closed spec fn spec_first_cluster(&self) -> Cluster {
        self.first_cluster
    }

    /// The file's metadata.
    pub closed spec fn spec_metadata(&self) -> Metadata {
        self.metadata
    }

    /// The file's size in bytes.
    pub closed spec fn spec_size(&self) -> u32 {
        self.size
    }

    /// The read position.
    pub closed spec fn position(&self) -> u32 {
        self.ptr
    }

    /// A file read from its start.
    pub fn new(name: String, first_cluster: Cluster, metadata: Metadata, size: u32) -> (f: File)
        ensures
            f.spec_name() == name@,
            f.spec_first_cluster() == first_cluster,
            f.spec_metadata() == metadata,
            f.spec_size() == size,
            f.position() == 0,
    {
        File { name, first_cluster, metadata, size, ptr: 0 }
    }

    /// The file's name.
    pub fn name(&self) -> (n: &String)
        ensures
            n@ == self.spec_name(),
    {
        &self.name
    }

    /// The file's metadata.
    pub fn metadata(&self) -> (m: Metadata)
        ensures
            m == self.spec_metadata(),
    {
        self.metadata
    }

    /// The file's size in bytes.
    pub fn size(&self) -> (s: u64)
        ensures
            s == self.spec_size(),
    {
        self.size as u64
    }

    /// Seek to offset `pos` in the file.
    ///
    /// A seek to the end of the file is allowed. A seek _beyond_ the end of
    /// the file returns an `InvalidInput` error.
    ///
    /// If the seek operation completes successfully, this method returns the
    /// new position from the start of the stream. That position can be used
    /// later with SeekFrom::Start.
    ///
    /// # Errors
    ///
    /// Seeking before the start of a file or beyond the end of the file
    /// results in an `InvalidInput` error, and the position is kept.
    pub fn seek(&mut self, pos: SeekFrom) -> (r: Result<u64, IoError>)
        ensures
            final(self).spec_name() == old(self).spec_name(),
            final(self).spec_first_cluster() == old(self).spec_first_cluster(),
            final(self).spec_metadata() == old(self).spec_metadata(),
            final(self).spec_size() == old(self).spec_size(),
            ({
                let t = seek_target(pos, old(self).position() as int, old(self).spec_size() as int);
                if 0 <= t <= old(self).spec_size() {
                    &&& r == Ok::<u64, IoError>(t as u64)
                    &&& final(self).position() == t
                } else {
                    &&& r == Err::<u64, IoError>(IoError::InvalidInput)
                    &&& final(self).position() == old(self).position()
                }
            }),
    {
        let target: i128 = match pos {
            SeekFrom::Start(offset) => offset as i128,
            SeekFrom::End(offset) => self.size as i128 + offset as i128,
            SeekFrom::Current(offset) => self.ptr as i128 + offset as i128,
        };
        if target < 0 || target > self.size as i128 {
            Err(IoError::InvalidInput)
        } else {
            self.ptr = target as u32;
            Ok(target as u64)
        }
    }

    /// Reads from the file's contents `data` (its cluster chain) at the read
    /// position into the front of `buf`: as many bytes as `buf` holds and
    /// the file has left; the position moves past them.
    pub fn read_from(&mut self, data: &[u8], buf: &mut Vec<u8>) -> (n: usize)
        requires
            old(self).position() + (if old(buf)@.len() <= old(self).spec_size() - old(
                self,
            ).position() {
                old(buf)@.len() as int
            } else {
                old(self).spec_size() - old(self).position()
            }) <= data@.len(),
        ensures
            n == (if old(buf)@.len() <= old(self).spec_size() - old(self).position() {
                old(buf)@.len() as int
            } else {
                old(self).spec_size() - old(self).position()
            }),
            final(buf)@ == data@.subrange(
                old(self).position() as int,
                old(self).position() + n,
            ) + old(buf)@.subrange(n as int, old(buf)@.len() as int),
            final(self).position() == old(self).position() + n,
            final(self).spec_name() == old(self).spec_name(),
            final(self).spec_first_cluster() == old(self).spec_first_cluster(),
            final(self).spec_metadata() == old(self).spec_metadata(),
            final(self).spec_size() == old(self).spec_size(),
    {
        proof {
            use_type_invariant(&*self);
        }
        let left = (self.size - self.ptr) as usize;
        let can_read = if buf.len() <= left {
            buf.len()
        } else {
            left
        };
        let start = self.ptr as usize;
        let ghost old_buf = buf@;
        let mut i: usize = 0;
        while i < can_read
            invariant
                i <= can_read <= old_buf.len(),
                start + can_read <= data.len(),
                buf@.len() == old_buf.len(),
                forall|j: int| 0 <= j < i ==> buf@[j] == data@[start + j],
                forall|j: int| i <= j < old_buf.len() ==> buf@[j] == old_buf[j],
            decreases can_read - i,
        {
            buf.set(i, data[start + i]);
            i = i + 1;
        }
        proof {
            assert(buf@ =~= data@.subrange(start as int, start + can_read) + old_buf.subrange(
                can_read as int,
                old_buf.len() as int,
            ));
        }
        self.ptr = self.ptr + can_read as u32;
        can_read
    }

    /// Writing is not supported: the file system is read-only, so nothing is
    /// written.
    pub fn write(&mut self, buf: &[u8]) -> (r: Result<usize, IoError>)
        ensures
            r == Ok::<usize, IoError>(0),
            *final(self) == *old(self),
    {
        Ok(0)
    }

    /// Flushing does nothing on a read-only file system.
    pub fn flush(&mut self) -> (r: Result<(), IoError>)
        ensures
            r == Ok::<(), IoError>(()),
            *final(self) == *old(self),
    {
        Ok(())
    }

    /// Syncing does nothing on a read-only file system.
    pub fn sync(&mut self) -> (r: Result<(), IoError>)
        ensures
            r == Ok::<(), IoError>(()),
            *final(self) == *old(self),
    {
        Ok(())
    }

    /// Reads from the read position into the front of `buf`: the file's
    /// cluster chain is read from the file system, and `read_len` bytes of
    /// it from the position are copied; the position moves past them.
    ///
    /// The chain must end and hold the bytes to copy.
    ///
    /// # Errors
    ///
    /// The errors of reading the chain; the position is then kept.
    pub fn read<D: BlockDevice>(&mut self, vfat: &mut VFat<D>, buf: &mut Vec<u8>) -> (r: Result<
        usize,
        IoError,
    >)
        requires
            old(vfat).geometry_ok(),
            old(vfat).chain_ends(old(self).spec_first_cluster()@ as int),
            old(vfat).chain_fuel(old(self).spec_first_cluster()@ as int) * old(vfat).cluster_size()
                <= usize::MAX,
            old(vfat).chain_result(old(self).spec_first_cluster()@ as int) matches Ok(d) ==> old(
                self,
            ).position() + read_len(
                old(self).position() as int,
                old(self).spec_size() as int,
                old(buf)@.len() as int,
            ) <= d.len(),
        ensures
            old(self).position() <= old(self).spec_size(),
            same_sectors(final(vfat).device, old(vfat).device),
            final(vfat).bytes_per_sector == old(vfat).bytes_per_sector,
            final(vfat).sectors_per_cluster == old(vfat).sectors_per_cluster,
            final(vfat).sectors_per_fat == old(vfat).sectors_per_fat,
            final(vfat).fat_start_sector == old(vfat).fat_start_sector,
            final(vfat).data_start_sector == old(vfat).data_start_sector,
            final(vfat).root_dir_cluster == old(vfat).root_dir_cluster,
            final(self).spec_name() == old(self).spec_name(),
            final(self).spec_first_cluster() == old(self).spec_first_cluster(),
            final(self).spec_metadata() == old(self).spec_metadata(),
            final(self).spec_size() == old(self).spec_size(),
            match old(vfat).chain_result(old(self).spec_first_cluster()@ as int) {
                Ok(d) => {
                    let n = read_len(
                        old(self).position() as int,
                        old(self).spec_size() as int,
                        old(buf)@.len() as int,
                    );
                    &&& r == Ok::<usize, IoError>(n as usize)
                    &&& final(buf)@ == d.subrange(
                        old(self).position() as int,
                        old(self).position() + n,
                    ) + old(buf)@.subrange(n, old(buf)@.len() as int)
                    &&& final(self).position() == old(self).position() + n
                },
                Err(e) => r == Err::<usize, IoError>(e) && final(self).position() == old(
                    self,
                ).position() && final(buf)@ == old(buf)@,
            },
    {
        proof {
            use_type_invariant(&*self);
        }
        let mut data: Vec<u8> = Vec::new();
        match vfat.read_chain(self.first_cluster, &mut data) {
            Ok(_) => {},
            Err(e) => {
                return Err(e);
            },
        }
        proof {
            let d = old(vfat).chain_result(self.first_cluster@ as int)->Ok_0;
            assert(data@ =~= d);
        }
        Ok(self.read_from(data.as_slice(), buf))
    }
}

} // verus!
