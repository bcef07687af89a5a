use vstd::prelude::*;

use crate::bytes::{le16, le32, read_le32};
use crate::mbr::{entry_offset, first_bad_indicator, valid_signature, MasterBootRecord};
use crate::traits::{overwrite_prefix, same_sectors, sector_image, BlockDevice, IoError};
use crate::vfat::cluster::Cluster;
use crate::vfat::ebpb::BiosParameterBlock;
use crate::vfat::fat::{FatEntry, Status};
use crate::vfat::Error;

verus! {

/// `n` zero bytes.
pub open spec fn zeros(n: nat) -> Seq<u8> {
    Seq::new(n, |i: int| 0u8)
}

/// A FAT32 file system on a device: the geometry read from its EBPB.
pub struct VFat<D> {
    pub device: D,
    pub bytes_per_sector: u16,
    pub sectors_per_cluster: u8,
    pub sectors_per_fat: u32,
    pub fat_start_sector: u64,
    pub data_start_sector: u64,
    pub root_dir_cluster: Cluster,
}

/// What reading a cluster chain gives: its bytes, or an error.
pub type ChainResult = Result<Seq<u8>, IoError>;

/// What reading cluster `c` of `me` from byte `offset` into a buffer
/// holding `before`, at `at`, does: `r` is the result and `after` the
/// buffer's bytes. When the offset is within the cluster,
/// `cluster_read_len` bytes of the sectors `touched_sectors` names are
/// copied, from the offset on; on the first of those sectors that cannot
/// be read, its error is returned, after the bytes of the sectors before it
/// were copied. When the offset is past the cluster, nothing is read.
#[verifier::opaque]
pub open spec fn cluster_read<D: BlockDevice>(
    me: VFat<D>,
    c: int,
    offset: int,
    at: int,
    before: Seq<u8>,
    r: Result<usize, IoError>,
    after: Seq<u8>,
) -> bool {
    let room = before.len() - at;
    let n = me.cluster_read_len(offset, room);
    let lo = me.touched_sectors(offset, room).0;
    let hi = me.touched_sectors(offset, room).1;
    let first = me.cluster_sector(c) + lo;
    let w = offset - lo * me.bytes_per_sector;
    if offset >= me.cluster_size() {
        r == Ok::<usize, IoError>(0) && after == before
    } else {
        match me.sectors_data(first, (hi - lo) as nat) {
            Some(d) => {
                &&& r == Ok::<usize, IoError>(n as usize)
                &&& after == before.subrange(0, at) + d.subrange(
                    w,
                    w + n,
                ) + before.subrange(at + n, before.len() as int)
            },
            None => {
                let q = me.readable_prefix(first, (hi - lo) as nat);
                let copied = if q == 0 {
                    0
                } else {
                    (lo + q) * me.bytes_per_sector - offset
                };
                &&& r == Err::<usize, IoError>(me.sectors_error(first, (hi - lo) as nat))
                &&& after == before.subrange(0, at) + (if q == 0 {
                    Seq::<u8>::empty()
                } else {
                    me.sectors_data(first, q)->0.subrange(w, w + copied)
                }) + before.subrange(at + copied, before.len() as int)
            },
        }
    }
}

/// What reading the chain from cluster `c` within `fuel` clusters has
/// written when it fails: the bytes written from the front of the
/// buffer (the clusters read whole, then the readable sectors of a
/// cluster that cannot be read), and how many bytes the buffer has grown
/// by (one cluster per cluster reached).
#[verifier::opaque]
pub open spec fn chain_written<D: BlockDevice>(v: VFat<D>, c: int, fuel: nat) -> (Seq<u8>, nat)
    decreases fuel,
{
    if fuel == 0 || !v.cluster_in_range(c) || v.fat_start_sector + c / (
    v.bytes_per_sector / 4) as int > u64::MAX {
        (Seq::empty(), 0)
    } else {
        match v.cluster_data(c) {
            None => (v.cluster_prefix(c), v.cluster_size()),
            Some(d) => match v.fat_lookup(c) {
                Ok(raw) => {
                    let x = raw % 0x1000_0000;
                    if 2 <= x < 0x0FFF_FFF0 {
                        let rest = chain_written(v, x as int, (fuel - 1) as nat);
                        (d + rest.0, v.cluster_size() + rest.1)
                    } else {
                        (d, v.cluster_size())
                    }
                },
                Err(_) => (d, v.cluster_size()),
            },
        }
    }
}

/// What reading the chain from cluster `c` has written when it fails, as
/// `chain_written` states for the fuel that reads the chain.
#[verifier::opaque]
pub open spec fn chain_failure_written<D: BlockDevice>(v: VFat<D>, c: int) -> (Seq<u8>, nat) {
    chain_written(v, c, v.chain_fuel(c))
}

/// The first partition entry of the MBR sector `s` of FAT32 type (0x0B or
/// 0x0C).
pub open spec fn first_fat_entry(s: Seq<u8>) -> Option<int> {
    if s[entry_offset(0) + 4] == 0x0B || s[entry_offset(0) + 4] == 0x0C {
        Some(0)
    } else if s[entry_offset(1) + 4] == 0x0B || s[entry_offset(1) + 4] == 0x0C {
        Some(1)
    } else if s[entry_offset(2) + 4] == 0x0B || s[entry_offset(2) + 4] == 0x0C {
        Some(2)
    } else if s[entry_offset(3) + 4] == 0x0B || s[entry_offset(3) + 4] == 0x0C {
        Some(3)
    } else {
        None
    }
}

/// `r` is what opening a FAT32 file system on `dev` gives: the MBR is read
/// from sector 0 (its errors as `Mbr`), the first FAT32 partition is found
/// (`NotFound` when there is none), its EBPB is read from the partition's
/// first sector (`BadSignature` when invalid), and the geometry follows:
/// the FAT starts after the reserved sectors, the data after the FATs.
pub open spec fn vfat_opened<D: BlockDevice>(r: Result<VFat<D>, Error>, dev: D) -> bool {
    let s0 = sector_image(dev.sector(0));
    if dev.sector(0) is None {
        r == Err::<VFat<D>, Error>(Error::Mbr(crate::mbr::Error::Io(dev.read_error(0))))
    } else if !valid_signature(s0) {
        r matches Err(e) && e == Error::Mbr(crate::mbr::Error::BadSignature)
    } else {
        match first_bad_indicator(s0) {
            Some(i) => r matches Err(e) && e == Error::Mbr(crate::mbr::Error::UnknownBootIndicator(i)),
            None => match first_fat_entry(s0) {
                None => r matches Err(e) && e == Error::NotFound,
                Some(j) => {
                    let start = le32(s0, entry_offset(j) + 8) as u64;
                    let s1 = sector_image(dev.sector(start));
                    let spf: u32 = if le16(s1, 22) != 0 {
                        le16(s1, 22) as u32
                    } else {
                        le32(s1, 36)
                    };
                    if le16(s1, 510) != 0xAA55 {
                        r matches Err(e) && e == Error::BadSignature
                    } else {
                        &&& r matches Ok(v)
                        &&& same_sectors(v.device, dev)
                        &&& v.bytes_per_sector == le16(s1, 11)
                        &&& v.sectors_per_cluster == s1[13]
                        &&& v.sectors_per_fat == spf
                        &&& v.fat_start_sector == start + le16(s1, 14)
                        &&& v.data_start_sector == start + le16(s1, 14) + spf * s1[16]
                        &&& v.root_dir_cluster@ == le32(s1, 44) % 0x1000_0000
                    }
                },
            },
        }
    }
}

/// Opening a FAT32 file system lays it out as the EBPB says: the FATs start
/// after the reserved sectors of the partition, and the data region (the
/// sectors of cluster 2 onward) starts after all of the FAT copies, each
/// `sectors_per_fat` sectors long; their number is EBPB byte 16. Clusters
/// follow one another there, `sectors_per_cluster` sectors each.
pub proof fn lemma_data_after_all_fats<D: BlockDevice>(r: Result<VFat<D>, Error>, dev: D, v: VFat<D>)
    requires
        vfat_opened(r, dev),
        r == Ok::<VFat<D>, Error>(v),
    ensures
        ({
            let s0 = sector_image(dev.sector(0));
            let j = first_fat_entry(s0)->0;
            let start = le32(s0, entry_offset(j) + 8) as int;
            let s1 = sector_image(dev.sector(start as u64));
            let fats = s1[16] as int;
            &&& first_fat_entry(s0) is Some
            &&& v.fat_start_sector == start + le16(s1, 14)
            &&& v.data_start_sector == v.fat_start_sector + fats * v.sectors_per_fat
            &&& v.cluster_sector(2) == start + le16(s1, 14) + fats * v.sectors_per_fat
            &&& forall|c: int| #[trigger] v.cluster_sector(c + 1) == v.cluster_sector(c) + v.sectors_per_cluster
        }),
{
    let s0 = sector_image(dev.sector(0));
    let j = first_fat_entry(s0)->0;
    let start = le32(s0, entry_offset(j) + 8) as int;
    let s1 = sector_image(dev.sector(start as u64));
    let fats = s1[16] as int;
    let spf = v.sectors_per_fat as int;
    assert(v.data_start_sector == v.fat_start_sector + fats * spf) by (nonlinear_arith)
        requires
            v.data_start_sector == start + le16(s1, 14) + spf * s1[16],
            v.fat_start_sector == start + le16(s1, 14),
            fats == s1[16],
    ;
    assert forall|c: int| #[trigger] v.cluster_sector(c + 1) == v.cluster_sector(c)
        + v.sectors_per_cluster by {
        let n = v.sectors_per_cluster as int;
        assert((c + 1 - 2) * n == (c - 2) * n + n) by (nonlinear_arith);
    }
}

impl<D: BlockDevice> VFat<D> {
    /// Opens the FAT32 file system of the first FAT32 partition of `device`,
    /// as `vfat_opened` states.
    pub fn from(device: D) -> (r: Result<VFat<D>, Error>)
        ensures
            vfat_opened(r, device),
    {
        let ghost dev0 = device;
        let mut device = device;
        let mbr = match MasterBootRecord::from(&mut device) {
            Ok(m) => m,
            Err(e) => {
                return Err(Error::Mbr(e));
            },
        };
        let ghost s0 = sector_image(dev0.sector(0));
        proof {
            assert(mbr.partition_entries@[0].partition_type@ == s0[entry_offset(0) + 4]);
            assert(mbr.partition_entries@[1].partition_type@ == s0[entry_offset(1) + 4]);
            assert(mbr.partition_entries@[2].partition_type@ == s0[entry_offset(2) + 4]);
            assert(mbr.partition_entries@[3].partition_type@ == s0[entry_offset(3) + 4]);
        }
        let start = match mbr.first_fat32() {
            Some(p) => p.relative_sector as u64,
            None => {
                return Err(Error::NotFound);
            },
        };
        proof {
            let j = first_fat_entry(s0)->0;
            assert(mbr.partition_entries@[j].relative_sector == le32(s0, entry_offset(j) + 8));
        }
        let ebpb = match BiosParameterBlock::from(&mut device, start) {
            Ok(b) => b,
            Err(e) => {
                return Err(e);
            },
        };
        let spf = ebpb.sectors_per_fat();
        let fat_start = start + ebpb.reserved_sectors as u64;
        proof {
            assert(spf as u64 * ebpb.num_of_fat as u64 <= 0xffff_ffff * 0xff) by (nonlinear_arith);
        }
        let data_start = fat_start + spf as u64 * ebpb.num_of_fat as u64;
        Ok(
            VFat {
                device,
                bytes_per_sector: ebpb.bytes_per_sector,
                sectors_per_cluster: ebpb.sectors_per_cluster,
                sectors_per_fat: spf,
                fat_start_sector: fat_start,
                data_start_sector: data_start,
                root_dir_cluster: Cluster::from(ebpb.root_dir_cluster_number),
            },
        )
    }

    /// Logical sector `n`: `bytes_per_sector` bytes, the device's sector
    /// over zeros.
    pub open spec fn logical_sector(&self, n: int) -> Option<Seq<u8>> {
        if 0 <= n <= u64::MAX {
            match self.device.sector(n as u64) {
                Some(d) => Some(overwrite_prefix(zeros(self.bytes_per_sector as nat), d)),
                None => None,
            }
        } else {
            None
        }
    }

    /// The error the device reports when logical sector `n` cannot be read.
    pub open spec fn sector_error(&self, n: int) -> IoError {
        self.device.read_error(n as u64)
    }

    /// The error of the first of the `k` logical sectors from `first` that
    /// cannot be read.
    pub open spec fn sectors_error(&self, first: int, k: nat) -> IoError
        decreases k,
    {
        if k == 0 {
            IoError::Device
        } else if self.sectors_data(first, (k - 1) as nat) is None {
            self.sectors_error(first, (k - 1) as nat)
        } else {
            self.sector_error(first + k - 1)
        }
    }

    /// How many of the `k` logical sectors from `first` come before the
    /// first that cannot be read (all `k` when every one can).
    pub open spec fn readable_prefix(&self, first: int, k: nat) -> nat
        decreases k,
    {
        if k == 0 {
            0
        } else if self.sectors_data(first, (k - 1) as nat) is None {
            self.readable_prefix(first, (k - 1) as nat)
        } else if self.logical_sector(first + k - 1) is None {
            (k - 1) as nat
        } else {
            k
        }
    }

    /// The bytes of the `k` logical sectors from `first`, or `None` when one
    /// of them cannot be read.
    pub open spec fn sectors_data(&self, first: int, k: nat) -> Option<Seq<u8>>
        decreases k,
    {
        if k == 0 {
            Some(Seq::empty())
        } else {
            match self.sectors_data(first, (k - 1) as nat) {
                Some(p) => match self.logical_sector(first + k - 1) {
                    Some(s) => Some(p + s),
                    None => None,
                },
                None => None,
            }
        }
    }

    /// The size of a cluster in bytes.
    pub open spec fn cluster_size(&self) -> nat {
        self.bytes_per_sector as nat * self.sectors_per_cluster as nat
    }

    /// The first sector of cluster `c` (data clusters are numbered from 2).
    pub open spec fn cluster_sector(&self, c: int) -> int {
        self.data_start_sector + (c - 2) * self.sectors_per_cluster
    }

    /// Cluster `c` lies where sectors can be numbered: it is a data cluster
    /// (2 or more) whose sectors end within `u64` and `usize`.
    pub open spec fn cluster_in_range(&self, c: int) -> bool {
        &&& c >= 2
        &&& self.cluster_sector(c) + self.sectors_per_cluster <= u64::MAX
        &&& self.cluster_sector(c) + self.sectors_per_cluster <= usize::MAX
    }

    /// The bytes of cluster `c`.
    pub open spec fn cluster_data(&self, c: int) -> Option<Seq<u8>> {
        self.sectors_data(self.cluster_sector(c), self.sectors_per_cluster as nat)
    }

    /// The bytes of cluster `c` before its first sector that cannot be read.
    #[verifier::opaque]
    pub open spec fn cluster_prefix(&self, c: int) -> Seq<u8> {
        let first = self.cluster_sector(c);
        self.sectors_data(first, self.readable_prefix(first, self.sectors_per_cluster as nat))->0
    }

    /// The FAT entry of cluster `c`: the little-endian `u32` at position
    /// `c % (bytes_per_sector / 4)` of FAT sector `c / (bytes_per_sector / 4)`;
    /// `NotFound` past the FAT, the device's error when it fails.
    pub open spec fn fat_lookup(&self, c: int) -> Result<u32, IoError> {
        let eps = self.bytes_per_sector / 4;
        let fi = c / (eps as int);
        if fi >= self.sectors_per_fat {
            Err(IoError::NotFound)
        } else {
            match self.logical_sector(self.fat_start_sector + fi) {
                Some(s) => Ok(le32(s, 4 * (c % (eps as int)))),
                None => Err(self.sector_error(self.fat_start_sector + fi)),
            }
        }
    }

    /// Reading the chain from cluster `c` within `fuel` clusters: the
    /// clusters' bytes in order, following the FAT until an end-of-chain
    /// entry; any other entry that is not the next data cluster is
    /// `InvalidData`. `None` when the chain is longer than `fuel`, or meets a
    /// cluster out of range, which has no sectors.
    pub open spec fn chain(&self, c: int, fuel: nat) -> Option<ChainResult>
        decreases fuel,
    {
        if fuel == 0 || !self.cluster_in_range(c) || self.fat_start_sector + c / (
        self.bytes_per_sector / 4) as int > u64::MAX {
            None
        } else {
            match self.cluster_data(c) {
                None => Some(Err(self.sectors_error(self.cluster_sector(c), self.sectors_per_cluster as nat))),
                Some(d) => match self.fat_lookup(c) {
                    Err(e) => Some(Err(e)),
                    Ok(raw) => {
                        let v = raw % 0x1000_0000;
                        if 2 <= v < 0x0FFF_FFF0 {
                            match self.chain(v as int, (fuel - 1) as nat) {
                                Some(Ok(rest)) => Some(Ok(d + rest)),
                                Some(Err(e)) => Some(Err(e)),
                                None => None,
                            }
                        } else if v >= 0x0FFF_FFF8 {
                            Some(Ok(d))
                        } else {
                            Some(Err(IoError::InvalidData))
                        }
                    },
                },
            }
        }
    }

    /// The chain from cluster `c` ends: some fuel suffices to read it.
    pub open spec fn chain_ends(&self, c: int) -> bool {
        exists|f: nat| #[trigger] self.chain(c, f) is Some
    }

    /// The least fuel that reads the chain from `c`, when it ends.
    pub open spec fn chain_fuel(&self, c: int) -> nat {
        if self.chain_ends(c) {
            choose|f: nat| #[trigger] self.chain(c, f) is Some && (f == 0 || self.chain(c, (f - 1) as nat) is None)
        } else {
            0
        }
    }

    /// What reading the chain from `c` gives, when it ends.
    pub open spec fn chain_result(&self, c: int) -> ChainResult {
        self.chain(c, self.chain_fuel(c))->0
    }

    /// The file system's geometry is usable: sectors hold at least one FAT
    /// entry.
    pub open spec fn geometry_ok(&self) -> bool {
        self.bytes_per_sector >= 4
    }

    /// The number of bytes a read of a cluster from `offset` into `room`
    /// bytes gives: as many as the room holds and the cluster has past the
    /// offset.
    pub open spec fn cluster_read_len(&self, offset: int, room: int) -> int {
        let cs = self.cluster_size() as int;
        if offset >= cs {
            0
        } else if room <= cs - offset {
            room
        } else {
            cs - offset
        }
    }

    /// The sectors of a cluster, counted from its first, that a read from
    /// `offset` into `room` bytes reads: from the one holding `offset` to
    /// the one holding the last byte copied (just the first when nothing is
    /// copied), as a start and an end past the last.
    pub open spec fn touched_sectors(&self, offset: int, room: int) -> (int, int) {
        let bps = self.bytes_per_sector as int;
        let n = self.cluster_read_len(offset, room);
        let lo = offset / bps;
        if n == 0 {
            (lo, lo + 1)
        } else {
            (lo, (offset + n - 1) / bps + 1)
        }
    }

    /// Reads cluster `cluster` from byte `offset` into `buf` at `at`, one
    /// logical sector at a time, as `cluster_read` states: `cluster_read_len`
    /// bytes, those of the sectors `touched_sectors` names, from the offset
    /// on; nothing when the offset is past the cluster.
    ///
    /// # Errors
    ///
    /// The device's error for the first of those sectors that cannot be
    /// read, after the bytes of the sectors before it were copied.
    fn read_cluster(&mut self, cluster: Cluster, offset: usize, buf: &mut Vec<u8>, at: usize) -> (r:
        Result<usize, IoError>)
        requires
            old(self).cluster_in_range(cluster@ as int),
            old(self).bytes_per_sector > 0,
            at <= old(buf)@.len(),
        ensures
            same_sectors(final(self).device, old(self).device),
            final(self).bytes_per_sector == old(self).bytes_per_sector,
            final(self).sectors_per_cluster == old(self).sectors_per_cluster,
            final(self).sectors_per_fat == old(self).sectors_per_fat,
            final(self).fat_start_sector == old(self).fat_start_sector,
            final(self).data_start_sector == old(self).data_start_sector,
            final(self).root_dir_cluster == old(self).root_dir_cluster,
            final(buf)@.len() == old(buf)@.len(),
            cluster_read(*old(self), cluster@ as int, offset as int, at as int, old(buf)@, r, final(buf)@),
            offset == 0 && at + old(self).cluster_size() <= old(buf)@.len() ==> match old(
                self,
            ).cluster_data(cluster@ as int) {
                Some(d) => {
                    &&& r == Ok::<usize, IoError>(old(self).cluster_size() as usize)
                    &&& final(buf)@ == old(buf)@.subrange(0, at as int) + d + old(buf)@.subrange(
                        at + d.len(),
                        old(buf)@.len() as int,
                    )
                },
                None => {
                    &&& r == Err::<usize, IoError>(
                        old(self).sectors_error(
                            old(self).cluster_sector(cluster@ as int),
                            old(self).sectors_per_cluster as nat,
                        ),
                    )
                    &&& final(buf)@ == old(buf)@.subrange(0, at as int) + old(self).cluster_prefix(
                        cluster@ as int,
                    ) + old(buf)@.subrange(
                        at + old(self).cluster_prefix(cluster@ as int).len(),
                        old(buf)@.len() as int,
                    )
                },
            },
    {
        let ghost me = *self;
        let ghost start_buf = buf@;
        let bps = self.bytes_per_sector as usize;
        let spc = self.sectors_per_cluster as usize;
        proof {
            assert(bps * spc <= 0xffff * 0xff) by (nonlinear_arith)
                requires
                    bps <= 0xffff,
                    spc <= 0xff,
            ;
            assert(bps * spc == me.cluster_size()) by (nonlinear_arith)
                requires
                    bps == me.bytes_per_sector,
                    spc == me.sectors_per_cluster,
            ;
        }
        let cs = bps * spc;
        let first = self.data_start_sector + (cluster.cluster_index() as u64 - 2) * (spc as u64);
        proof {
            lemma_whole_cluster(me, cluster@ as int, at as int, start_buf);
            reveal(cluster_read);
        }
        if offset >= cs {
            return Ok(0);
        }
        let room = buf.len() - at;
        let n = if room <= cs - offset {
            room
        } else {
            cs - offset
        };
        let lo = offset / bps;
        let hi = if n == 0 {
            lo + 1
        } else {
            (offset + n - 1) / bps + 1
        };
        let ghost w: int = offset - lo * bps;
        proof {
            lemma_touched(bps as int, spc as int, offset as int, n as int, lo as int, hi as int);
            assert(me.touched_sectors(offset as int, room as int) == (lo as int, hi as int));
        }
        let mut s: usize = lo;
        let mut done: usize = 0;
        proof {
            assert(me.sectors_data(first + lo, 0) == Some(Seq::<u8>::empty()));
            assert(lo * bps + bps <= cs) by (nonlinear_arith)
                requires
                    lo < spc,
                    cs == bps * spc,
            ;
        }
        while s < hi
            invariant
                me == *old(self),
                same_sectors(self.device, old(self).device),
                self.bytes_per_sector == old(self).bytes_per_sector,
                self.sectors_per_cluster == old(self).sectors_per_cluster,
                self.sectors_per_fat == old(self).sectors_per_fat,
                self.fat_start_sector == old(self).fat_start_sector,
                self.data_start_sector == old(self).data_start_sector,
                self.root_dir_cluster == old(self).root_dir_cluster,
                start_buf == old(buf)@,
                start_buf.len() <= usize::MAX,
                at <= start_buf.len(),
                n == me.cluster_read_len(offset as int, start_buf.len() - at),
                me.touched_sectors(offset as int, start_buf.len() - at) == (lo as int, hi as int),
                bps == me.bytes_per_sector,
                spc == me.sectors_per_cluster,
                bps > 0,
                cs == bps * spc,
                cs == me.cluster_size(),
                first == me.cluster_sector(cluster@ as int),
                me.cluster_in_range(cluster@ as int),
                offset < cs,
                at + n <= start_buf.len(),
                n <= cs - offset,
                lo * bps <= offset < lo * bps + bps,
                w == offset - lo * bps,
                lo < hi <= spc,
                n == 0 ==> hi == lo + 1,
                n > 0 ==> (hi - 1) * bps <= offset + n - 1 < hi * bps,
                lo <= s <= hi,
                done <= n,
                s < hi ==> offset + done == (if s == lo {
                    offset as int
                } else {
                    s * bps
                }),
                s == hi ==> done == n,
                me.sectors_data(first + lo, (s - lo) as nat) is Some,
                me.sectors_data(first + lo, (s - lo) as nat)->0.len() == (s - lo) * bps,
                s > lo ==> w + done <= (s - lo) * bps,
                buf@.len() == start_buf.len(),
                forall|k: int| 0 <= k < at ==> #[trigger] buf@[k] == start_buf[k],
                forall|k: int|
                    at <= k < at + done ==> #[trigger] buf@[k] == me.sectors_data(
                        first + lo,
                        (s - lo) as nat,
                    )->0[w + (k - at)],
                forall|k: int| at + done <= k < start_buf.len() ==> #[trigger] buf@[k] == start_buf[k],
            decreases hi - s,
        {
            let ghost d = me.sectors_data(first + lo, (s - lo) as nat)->0;
            proof {
                assert(s * bps + bps <= cs) by (nonlinear_arith)
                    requires
                        s < hi <= spc,
                        cs == bps * spc,
                ;
                assert(lo * bps <= s * bps) by (nonlinear_arith)
                    requires
                        lo <= s,
                ;
                assert((s - lo) * bps == s * bps - lo * bps) by (nonlinear_arith);
            }
            let mut sector: Vec<u8> = vec![0u8; bps];
            proof {
                assert(sector@ =~= zeros(bps as nat));
            }
            match self.device.read_sector(first + s as u64, &mut sector) {
                Ok(_) => {},
                Err(e) => {
                    proof {
                        assert(first + lo + (s - lo) == first + s);
                        lemma_sectors_error(me, first + lo, (s - lo) as nat, (hi - lo) as nat);
                        lemma_sectors_data_none(me, first + lo, (s - lo + 1) as nat, (hi - lo) as nat);
                        assert(e == me.sector_error(first + s));
                        lemma_whole_cluster(me, cluster@ as int, at as int, start_buf);
                        reveal(cluster_read);
                        reveal(VFat::cluster_prefix);
                        lemma_readable_prefix_at(me, first + lo, (s - lo) as nat, (hi - lo) as nat);
                        let q = (s - lo) as nat;
                        let dq = me.sectors_data(first + lo, q)->0;
                        if q > 0 {
                            assert(done == (lo + q) * bps - offset);
                            assert(w + done <= dq.len());
                            assert(buf@ =~= start_buf.subrange(0, at as int) + dq.subrange(w, w + done)
                                + start_buf.subrange(at + done, start_buf.len() as int));
                            if offset == 0 && hi - lo == spc {
                                assert(dq.subrange(w, w + done) =~= dq);
                            }
                        } else {
                            assert(buf@ =~= start_buf.subrange(0, at as int) + Seq::<u8>::empty()
                                + start_buf.subrange(at + done, start_buf.len() as int));
                            assert(dq =~= Seq::<u8>::empty());
                        }
                    }
                    return Err(e);
                },
            }
            proof {
                assert(me.logical_sector(first + s) == Some(sector@));
                assert(first + lo + (s - lo + 1) - 1 == first + s);
                assert(me.sectors_data(first + lo, (s - lo + 1) as nat) == Some(d + sector@));
                assert((s - lo + 1) * bps == (s - lo) * bps + bps) by (nonlinear_arith);
            }
            let within = offset + done - s * bps;
            let upto = if offset + n - s * bps <= bps {
                offset + n - s * bps
            } else {
                bps
            };
            proof {
                assert(within <= upto);
                assert(upto - within <= n - done);
            }
            let ghost before = buf@;
            let mut j: usize = within;
            while j < upto
                invariant
                    within <= j <= upto <= bps,
                    sector@.len() == bps,
                    before.len() <= usize::MAX,
                    at + done + (upto - within) <= before.len(),
                    buf@.len() == before.len(),
                    forall|k: int| 0 <= k < at + done ==> #[trigger] buf@[k] == before[k],
                    forall|k: int|
                        at + done <= k < at + done + (j - within) ==> #[trigger] buf@[k]
                            == sector@[within + (k - at - done)],
                    forall|k: int| at + done + (j - within) <= k < before.len() ==> #[trigger] buf@[k] == before[k],
                decreases upto - j,
            {
                buf.set(at + done + (j - within), sector[j]);
                j = j + 1;
            }
            let ghost d2 = d + sector@;
            let ghost done2: int = done + (upto - within);
            proof {
                assert(w + done == (s - lo) * bps + within);
                assert forall|k: int| at <= k < at + done2 implies #[trigger] buf@[k] == d2[w + (k - at)] by {
                    if k < at + done {
                        assert(before[k] == d[w + (k - at)]);
                    } else {
                        assert(buf@[k] == sector@[within + (k - at - done)]);
                    }
                }
                assert forall|k: int| 0 <= k < at implies #[trigger] buf@[k] == start_buf[k] by {
                    assert(before[k] == start_buf[k]);
                }
                assert forall|k: int| at + done2 <= k < start_buf.len() implies #[trigger] buf@[k] == start_buf[k] by {
                    assert(before[k] == start_buf[k]);
                }
                if s + 1 < hi {
                    assert((s + 1) * bps <= (hi - 1) * bps) by (nonlinear_arith)
                        requires
                            s + 1 <= hi - 1,
                            bps > 0,
                    ;
                    assert((s + 1) * bps == s * bps + bps) by (nonlinear_arith);
                    assert(upto == bps);
                } else {
                    assert(s + 1 == hi);
                    assert((s + 1) * bps == s * bps + bps) by (nonlinear_arith);
                    if n > 0 {
                        assert(upto == offset + n - s * bps);
                    } else {
                        assert(upto == within);
                    }
                }
            }
            done = done + (upto - within);
            s = s + 1;
        }
        proof {
            let d = me.sectors_data(first + lo, (hi - lo) as nat)->0;
            assert(w + n <= d.len());
            assert(buf@ =~= start_buf.subrange(0, at as int) + d.subrange(w, w + n)
                + start_buf.subrange(at + n, start_buf.len() as int));
            reveal(cluster_read);
        }
        Ok(done)
    }

    /// Reads all of the clusters chained from `start` into `buf`, which
    /// grows by one cluster per cluster read: the chain's bytes are written
    /// from the front of `buf`, as `chain_result` states, and their number
    /// returned.
    ///
    /// The chain must end, every cluster on it must be a data cluster
    /// (numbered 2 or more), and the buffer must fit in memory.
    ///
    /// # Errors
    ///
    /// `InvalidData` when a FAT entry is neither the next data cluster nor an
    /// end of chain; `NotFound` when a FAT entry lies past the FAT; the
    /// device's error when reading fails. The buffer then holds, from its
    /// front, what `chain_failure_written` states was written, and has grown
    /// by one cluster per cluster reached.
    #[verifier::rlimit(80)]
    #[verifier::spinoff_prover]
    pub fn read_chain(&mut self, start: Cluster, buf: &mut Vec<u8>) -> (r: Result<usize, IoError>)
        requires
            old(self).geometry_ok(),
            old(self).chain_ends(start@ as int),
            old(buf)@.len() + old(self).chain_fuel(start@ as int) * old(self).cluster_size()
                <= usize::MAX,
        ensures
            same_sectors(final(self).device, old(self).device),
            final(self).bytes_per_sector == old(self).bytes_per_sector,
            final(self).sectors_per_cluster == old(self).sectors_per_cluster,
            final(self).sectors_per_fat == old(self).sectors_per_fat,
            final(self).fat_start_sector == old(self).fat_start_sector,
            final(self).data_start_sector == old(self).data_start_sector,
            final(self).root_dir_cluster == old(self).root_dir_cluster,
            match old(self).chain_result(start@ as int) {
                Ok(d) => {
                    &&& r == Ok::<usize, IoError>(d.len() as usize)
                    &&& final(buf)@ == d + (old(buf)@ + zeros(d.len())).subrange(
                        d.len() as int,
                        (old(buf)@.len() + d.len()) as int,
                    )
                },
                Err(e) => {
                    let w = chain_failure_written(*old(self), start@ as int);
                    &&& r == Err::<usize, IoError>(e)
                    &&& final(buf)@ == w.0 + (old(buf)@ + zeros(w.1)).subrange(
                        w.0.len() as int,
                        (old(buf)@.len() + w.1) as int,
                    )
                },
            },
    {
        let ghost me = *self;
        proof {
            lemma_chain_least(me, start@ as int);
        }
        let ghost f0 = me.chain_fuel(start@ as int);
        proof {
            reveal(chain_failure_written);
        }
        let ghost goal = me.chain_result(start@ as int);
        let ghost old_buf = buf@;
        proof {
            assert(self.bytes_per_sector as usize * self.sectors_per_cluster as usize <= 0xffff
                * 0xff) by (nonlinear_arith);
        }
        let cs = self.bytes_per_sector as usize * self.sectors_per_cluster as usize;
        let mut already: usize = 0;
        let mut current = start;
        let ghost mut fuel: nat = f0;
        let ghost mut got: Seq<u8> = Seq::empty();
        proof {
            assert(cs == me.cluster_size());
            assert(buf@ =~= got + (old_buf + zeros(0)).subrange(0, old_buf.len() as int));
        }
        loop
            invariant
                me == *old(self),
                old_buf == old(buf)@,
                goal == me.chain_result(start@ as int),
                chain_written(me, start@ as int, f0) == chain_failure_written(me, start@ as int),
                me.geometry_ok(),
                same_sectors(self.device, old(self).device),
                self.bytes_per_sector == me.bytes_per_sector,
                self.sectors_per_cluster == me.sectors_per_cluster,
                self.sectors_per_fat == me.sectors_per_fat,
                self.fat_start_sector == me.fat_start_sector,
                self.data_start_sector == me.data_start_sector,
                self.root_dir_cluster == me.root_dir_cluster,
                cs == me.cluster_size(),
                me.chain(current@ as int, fuel) is Some,
                goal == match me.chain(current@ as int, fuel)->0 {
                    Ok(rest) => Ok(got + rest),
                    Err(e) => Err(e),
                },
                already == got.len(),
                chain_written(me, start@ as int, f0) == (
                    got + chain_written(me, current@ as int, fuel).0,
                    (already + chain_written(me, current@ as int, fuel).1) as nat,
                ),
                old_buf.len() + already + fuel * cs <= usize::MAX,
                buf@ == got + (old_buf + zeros(already as nat)).subrange(
                    already as int,
                    old_buf.len() + already,
                ),
            decreases fuel,
        {
            proof {
                lemma_chain_same(me, *self, current@ as int, fuel);
                lemma_chain_written_unfold(me, current@ as int, fuel);
                assert(fuel * cs == cs + (fuel - 1) * cs) by (nonlinear_arith)
                    requires
                        fuel >= 1,
                ;
            }
            let ghost before = buf@;
            let buf_len = buf.len();
            buf.resize(buf_len + cs, 0);
            proof {
                assert(buf@ =~= before + zeros(cs as nat));
            }
            let ghost mid = buf@;
            let ghost pre = *self;
            let n = match self.read_cluster(current, 0, buf, already) {
                Ok(n) => n,
                Err(e) => {
                    proof {
                        let w = chain_written(me, start@ as int, f0);
                        assert(buf@ == w.0 + (old_buf + zeros(w.1)).subrange(
                            w.0.len() as int,
                            (old_buf.len() + w.1) as int,
                        )) by {
                            let p = me.cluster_prefix(current@ as int);
                            lemma_prefix_same(me, pre, current@ as int);
                            lemma_cluster_prefix_len(me, current@ as int);
                            assert(mid =~= got + (old_buf + zeros(got.len())).subrange(
                                got.len() as int,
                                (old_buf.len() + got.len()) as int,
                            ) + zeros(cs as nat));
                            lemma_read_buffer(got, p, old_buf, cs as nat, mid, buf@);
                            assert(chain_written(me, current@ as int, fuel) == (p, cs as nat));
                            assert(w.0 == got + p && w.1 == already + cs);
                        }
                        assert(goal == Err::<Seq<u8>, IoError>(e)) by {
                            assert(me.chain(current@ as int, fuel) == Some(Err::<Seq<u8>, IoError>(e)));
                        }
                    }
                    return Err(e);
                },
            };
            let ghost d = me.cluster_data(current@ as int)->0;
            proof {
                lemma_sectors_data_len(me, me.cluster_sector(current@ as int), me.sectors_per_cluster as nat);
                assert(me.sectors_per_cluster * me.bytes_per_sector == me.cluster_size()) by (nonlinear_arith);
                assert(d.len() == cs);
                assert(mid =~= got + (old_buf + zeros(got.len())).subrange(
                    got.len() as int,
                    (old_buf.len() + got.len()) as int,
                ) + zeros(cs as nat));
                lemma_read_buffer(got, d, old_buf, cs as nat, mid, buf@);
            }
            already = already + n;
            let fat = match self.fat_entry(current) {
                Ok(fat) => fat,
                Err(e) => {
                    proof {
                        let w = chain_written(me, start@ as int, f0);
                        assert(buf@ == w.0 + (old_buf + zeros(w.1)).subrange(
                            w.0.len() as int,
                            (old_buf.len() + w.1) as int,
                        )) by {
                            assert(chain_written(me, current@ as int, fuel) == (d, cs as nat));
                            assert(w.0 == got + d && w.1 == already);
                        }
                        assert(goal == Err::<Seq<u8>, IoError>(e)) by {
                            assert(me.chain(current@ as int, fuel) == Some(Err::<Seq<u8>, IoError>(e)));
                        }
                    }
                    return Err(e);
                },
            };
            let ghost got_prev = got;
            proof {
                got = got + d;
            }
            match fat.status() {
                Status::Data(next) => {
                    proof {
                        let rest = chain_written(me, next@ as int, (fuel - 1) as nat);
                        assert(got_prev + (d + rest.0) =~= got + rest.0);
                        assert(me.chain(next@ as int, (fuel - 1) as nat) is Some);
                        match me.chain(next@ as int, (fuel - 1) as nat)->0 {
                            Ok(rest) => {
                                assert(got_prev + (d + rest) =~= got + rest);
                            },
                            Err(e) => {},
                        }
                    }
                    current = next;
                    proof {
                        fuel = (fuel - 1) as nat;
                    }
                },
                Status::Eoc(_) => {
                    return Ok(already);
                },
                _ => {
                    return Err(IoError::InvalidData);
                },
            }
        }
    }

    /// Returns the FAT entry of `cluster`, read from the FAT sector that
    /// holds it.
    ///
    /// # Errors
    ///
    /// `NotFound` when the entry lies past the FAT; the device's error when
    /// reading fails.
    fn fat_entry(&mut self, cluster: Cluster) -> (r: Result<FatEntry, IoError>)
        requires
            old(self).geometry_ok(),
            old(self).fat_start_sector + (cluster@ as int) / ((old(self).bytes_per_sector / 4) as int)
                <= u64::MAX,
        ensures
            same_sectors(final(self).device, old(self).device),
            final(self).bytes_per_sector == old(self).bytes_per_sector,
            final(self).sectors_per_cluster == old(self).sectors_per_cluster,
            final(self).sectors_per_fat == old(self).sectors_per_fat,
            final(self).fat_start_sector == old(self).fat_start_sector,
            final(self).data_start_sector == old(self).data_start_sector,
            final(self).root_dir_cluster == old(self).root_dir_cluster,
            match old(self).fat_lookup(cluster@ as int) {
                Ok(raw) => r == Ok::<FatEntry, IoError>(FatEntry(raw)),
                Err(e) => r == Err::<FatEntry, IoError>(e),
            },
    {
        let cluster_index = cluster.cluster_index();
        let entries_per_sector = self.bytes_per_sector / 4;
        let fat_index = cluster_index / entries_per_sector as usize;
        let fat_offset = cluster_index % entries_per_sector as usize;
        if fat_index >= self.sectors_per_fat as usize {
            return Err(IoError::NotFound);
        }
        let bps = self.bytes_per_sector as usize;
        let mut sector: Vec<u8> = vec![0u8; bps];
        proof {
            assert(sector@ =~= zeros(bps as nat));
        }
        match self.device.read_sector(self.fat_start_sector + fat_index as u64, &mut sector) {
            Ok(_) => {},
            Err(e) => {
                return Err(e);
            },
        }
        proof {
            assert(fat_offset * 4 + 4 <= bps) by (nonlinear_arith)
                requires
                    fat_offset < entries_per_sector,
                    entries_per_sector == bps / 4,
            ;
        }
        Ok(FatEntry(read_le32(sector.as_slice(), fat_offset * 4)))
    }
}

/// More fuel does not change a chain that ends.
pub proof fn lemma_chain_fuel<D: BlockDevice>(v: VFat<D>, c: int, f: nat, g: nat)
    requires
        v.chain(c, f) is Some,
        f <= g,
    ensures
        v.chain(c, g) == v.chain(c, f),
    decreases f,
{
    if v.cluster_in_range(c) && f > 0 {
        match v.cluster_data(c) {
            None => {},
            Some(d) => match v.fat_lookup(c) {
                Err(e) => {},
                Ok(raw) => {
                    let w = raw % 0x1000_0000;
                    if 2 <= w < 0x0FFF_FFF0 {
                        lemma_chain_fuel(v, w as int, (f - 1) as nat, (g - 1) as nat);
                    }
                },
            },
        }
    }
}

/// A chain that ends has a least fuel that reads it.
pub proof fn lemma_chain_least<D: BlockDevice>(v: VFat<D>, c: int)
    requires
        v.chain_ends(c),
    ensures
        v.chain(c, v.chain_fuel(c)) is Some,
        v.chain_fuel(c) == 0 || v.chain(c, (v.chain_fuel(c) - 1) as nat) is None,
        forall|f: nat| #[trigger] v.chain(c, f) is Some ==> v.chain_fuel(c) <= f,
{
    let f = choose|f: nat| #[trigger] v.chain(c, f) is Some;
    lemma_least_below(v, c, f);
    let g = v.chain_fuel(c);
    assert forall|f: nat| #[trigger] v.chain(c, f) is Some implies g <= f by {
        if f < g {
            lemma_chain_fuel(v, c, f, (g - 1) as nat);
        }
    }
}

proof fn lemma_least_below<D: BlockDevice>(v: VFat<D>, c: int, f: nat)
    requires
        v.chain(c, f) is Some,
    ensures
        exists|g: nat| #[trigger] v.chain(c, g) is Some && (g == 0 || v.chain(c, (g - 1) as nat) is None),
    decreases f,
{
    if f > 0 && v.chain(c, (f - 1) as nat) is Some {
        lemma_least_below(v, c, (f - 1) as nat);
    } else {
        assert(v.chain(c, f) is Some && (f == 0 || v.chain(c, (f - 1) as nat) is None));
    }
}

/// Two devices with the same sectors give the same file system reads.
pub proof fn lemma_chain_same<D: BlockDevice>(v: VFat<D>, w: VFat<D>, c: int, f: nat)
    requires
        same_sectors(v.device, w.device),
        v.bytes_per_sector == w.bytes_per_sector,
        v.sectors_per_cluster == w.sectors_per_cluster,
        v.sectors_per_fat == w.sectors_per_fat,
        v.fat_start_sector == w.fat_start_sector,
        v.data_start_sector == w.data_start_sector,
    ensures
        v.chain(c, f) == w.chain(c, f),
        v.cluster_data(c) == w.cluster_data(c),
        v.fat_lookup(c) == w.fat_lookup(c),
    decreases f,
{
    assert forall|n: int| #[trigger] v.logical_sector(n) == w.logical_sector(n) by {
        if 0 <= n <= u64::MAX {
            assert(v.device.sector(n as u64) == w.device.sector(n as u64));
        }
    }
    assert forall|first: int, k: nat| #[trigger] v.sectors_data(first, k) == w.sectors_data(first, k) by {
        lemma_sectors_data_same(v, w, first, k);
    }
    assert forall|n: int| #[trigger] v.sector_error(n) == w.sector_error(n) by {
        assert(v.device.read_error(n as u64) == w.device.read_error(n as u64));
    }
    assert forall|first: int, k: nat| #[trigger] v.sectors_error(first, k) == w.sectors_error(first, k) by {
        lemma_sectors_error_same(v, w, first, k);
    }

    if f > 0 {
        match v.fat_lookup(c) {
            Ok(raw) => {
                let x = raw % 0x1000_0000;
                lemma_chain_same(v, w, x as int, (f - 1) as nat);
            },
            Err(_) => {},
        }
    }
}

proof fn lemma_sectors_data_same<D: BlockDevice>(v: VFat<D>, w: VFat<D>, first: int, k: nat)
    requires
        forall|n: int| #[trigger] v.logical_sector(n) == w.logical_sector(n),
    ensures
        v.sectors_data(first, k) == w.sectors_data(first, k),
    decreases k,
{
    if k > 0 {
        lemma_sectors_data_same(v, w, first, (k - 1) as nat);
        assert(v.logical_sector(first + k - 1) == w.logical_sector(first + k - 1));
    }
}

proof fn lemma_sectors_data_len<D: BlockDevice>(v: VFat<D>, first: int, k: nat)
    ensures
        v.sectors_data(first, k) matches Some(d) ==> d.len() == k * v.bytes_per_sector,
    decreases k,
{
    if k > 0 {
        lemma_sectors_data_len(v, first, (k - 1) as nat);
        match v.logical_sector(first + k - 1) {
            Some(s) => {
                let dev = v.device.sector((first + k - 1) as u64)->0;
                assert(s == overwrite_prefix(zeros(v.bytes_per_sector as nat), dev));
                assert(s.len() == v.bytes_per_sector);
            },
            None => {},
        }
        assert((k - 1) * v.bytes_per_sector + v.bytes_per_sector == k * v.bytes_per_sector)
            by (nonlinear_arith);
    } else {
        assert(0 * v.bytes_per_sector == 0);
    }
}

proof fn lemma_sectors_data_none<D: BlockDevice>(v: VFat<D>, first: int, k: nat, n: nat)
    requires
        k <= n,
        k > 0,
        v.logical_sector(first + k - 1) is None,
    ensures
        v.sectors_data(first, n) is None,
    decreases n,
{
    if n > k {
        lemma_sectors_data_none(v, first, k, (n - 1) as nat);
    }
}

/// Where a read from `offset` of `n` bytes of a cluster of `spc` sectors of
/// `bps` bytes starts and ends, in sectors.
proof fn lemma_touched(bps: int, spc: int, offset: int, n: int, lo: int, hi: int)
    requires
        bps > 0,
        spc >= 0,
        0 <= offset < bps * spc,
        0 <= n <= bps * spc - offset,
        lo == offset / bps,
        hi == (if n == 0 {
            lo + 1
        } else {
            (offset + n - 1) / bps + 1
        }),
    ensures
        lo * bps <= offset < lo * bps + bps,
        lo < hi <= spc,
        n > 0 ==> (hi - 1) * bps <= offset + n - 1 < hi * bps,
{
    vstd::arithmetic::div_mod::lemma_fundamental_div_mod(offset, bps);
    assert(0 <= offset % bps < bps) by {
        vstd::arithmetic::div_mod::lemma_mod_bound(offset, bps);
    }
    assert(lo * bps == bps * lo) by (nonlinear_arith);
    assert(lo < spc) by (nonlinear_arith)
        requires
            lo * bps <= offset < bps * spc,
            bps > 0,
    ;
    if n > 0 {
        let e = offset + n - 1;
        vstd::arithmetic::div_mod::lemma_fundamental_div_mod(e, bps);
        vstd::arithmetic::div_mod::lemma_mod_bound(e, bps);
        assert((e / bps) * bps == bps * (e / bps)) by (nonlinear_arith);
        assert((hi - 1) * bps + bps == hi * bps) by (nonlinear_arith);
        assert(e / bps < spc) by (nonlinear_arith)
            requires
                (e / bps) * bps <= e < bps * spc,
                bps > 0,
        ;
        assert(lo <= e / bps) by (nonlinear_arith)
            requires
                lo * bps <= offset <= e < (e / bps) * bps + bps,
                bps > 0,
        ;
    }
}

/// A read of a whole cluster from its start: every byte of every sector.
proof fn lemma_whole_cluster<D: BlockDevice>(me: VFat<D>, c: int, at: int, buf: Seq<u8>)
    requires
        me.bytes_per_sector > 0,
    ensures
        at + me.cluster_size() <= buf.len() ==> me.cluster_read_len(0, buf.len() - at)
            == me.cluster_size(),
        me.cluster_size() > 0 ==> me.touched_sectors(0, buf.len() - at).0 == 0,
        me.cluster_size() > 0 && at + me.cluster_size() <= buf.len() ==> me.touched_sectors(
            0,
            buf.len() - at,
        ).1 == me.sectors_per_cluster,
        me.cluster_data(c) matches Some(d) ==> d.len() == me.cluster_size() && d.subrange(0, d.len() as int) == d,
        me.cluster_size() == 0 ==> me.cluster_data(c) == Some(Seq::<u8>::empty()),
{
    let bps = me.bytes_per_sector as int;
    let spc = me.sectors_per_cluster as int;
    assert(me.cluster_size() == bps * spc);
    assert(0int / bps == 0);
    lemma_sectors_data_len(me, me.cluster_sector(c), spc as nat);
    assert(spc * bps == bps * spc) by (nonlinear_arith);
    if let Some(d) = me.cluster_data(c) {
        assert(d.subrange(0, d.len() as int) =~= d);
    }
    if me.cluster_size() == 0 {
        assert(spc == 0) by (nonlinear_arith)
            requires
                bps > 0,
                spc >= 0,
                bps * spc == 0,
        ;
    } else if at + me.cluster_size() <= buf.len() {
        let cs = bps * spc;
        assert((spc - 1) * bps + (bps - 1) == cs - 1) by (nonlinear_arith)
            requires
                cs == bps * spc,
        ;
        vstd::arithmetic::div_mod::lemma_fundamental_div_mod_converse(cs - 1, bps, spc - 1, bps - 1);
    }
}

/// Two views of the same sectors with the same geometry read the same
/// prefix of a cluster.
proof fn lemma_prefix_same<D: BlockDevice>(v: VFat<D>, w: VFat<D>, c: int)
    requires
        same_sectors(v.device, w.device),
        v.bytes_per_sector == w.bytes_per_sector,
        v.sectors_per_cluster == w.sectors_per_cluster,
        v.data_start_sector == w.data_start_sector,
    ensures
        v.cluster_prefix(c) == w.cluster_prefix(c),
{
    assert forall|n: int| #[trigger] v.logical_sector(n) == w.logical_sector(n) by {
        if 0 <= n <= u64::MAX {
            assert(v.device.sector(n as u64) == w.device.sector(n as u64));
        }
    }
    assert forall|first: int, k: nat| #[trigger] v.sectors_data(first, k) == w.sectors_data(first, k) by {
        lemma_sectors_data_same(v, w, first, k);
    }
    lemma_readable_prefix_same(v, w, v.cluster_sector(c), v.sectors_per_cluster as nat);
    reveal(VFat::cluster_prefix);
}

proof fn lemma_readable_prefix_same<D: BlockDevice>(v: VFat<D>, w: VFat<D>, first: int, k: nat)
    requires
        forall|first: int, k: nat| #[trigger] v.sectors_data(first, k) == w.sectors_data(first, k),
        forall|n: int| #[trigger] v.logical_sector(n) == w.logical_sector(n),
    ensures
        v.readable_prefix(first, k) == w.readable_prefix(first, k),
    decreases k,
{
    if k > 0 {
        lemma_readable_prefix_same(v, w, first, (k - 1) as nat);
        assert(v.sectors_data(first, (k - 1) as nat) == w.sectors_data(first, (k - 1) as nat));
        assert(v.logical_sector(first + k - 1) == w.logical_sector(first + k - 1));
    }
}

/// The readable sectors of a run can be read, and are at most the run.
proof fn lemma_readable_prefix_some<D: BlockDevice>(v: VFat<D>, first: int, k: nat)
    ensures
        v.readable_prefix(first, k) <= k,
        v.sectors_data(first, v.readable_prefix(first, k)) is Some,
    decreases k,
{
    if k > 0 {
        lemma_readable_prefix_some(v, first, (k - 1) as nat);
    }
}

/// The readable bytes of a cluster are whole sectors, at most the cluster.
proof fn lemma_cluster_prefix_len<D: BlockDevice>(v: VFat<D>, c: int)
    ensures
        v.cluster_prefix(c).len() <= v.cluster_size(),
{
    reveal(VFat::cluster_prefix);
    let first = v.cluster_sector(c);
    let spc = v.sectors_per_cluster as nat;
    let q = v.readable_prefix(first, spc);
    lemma_readable_prefix_some(v, first, spc);
    lemma_sectors_data_len(v, first, q);
    assert(q * v.bytes_per_sector <= spc * v.bytes_per_sector) by (nonlinear_arith)
        requires
            q <= spc,
    ;
    assert(spc * v.bytes_per_sector == v.bytes_per_sector as nat * v.sectors_per_cluster as nat)
        by (nonlinear_arith)
        requires
            spc == v.sectors_per_cluster as nat,
    ;
}

/// `chain_written` unfolded once, on a chain that ends within `fuel`.
proof fn lemma_chain_written_unfold<D: BlockDevice>(v: VFat<D>, c: int, fuel: nat)
    requires
        v.chain(c, fuel) is Some,
    ensures
        chain_written(v, c, fuel) == match v.cluster_data(c) {
            None => (v.cluster_prefix(c), v.cluster_size()),
            Some(d) => match v.fat_lookup(c) {
                Ok(raw) => {
                    let x = raw % 0x1000_0000;
                    if 2 <= x < 0x0FFF_FFF0 {
                        let rest = chain_written(v, x as int, (fuel - 1) as nat);
                        (d + rest.0, v.cluster_size() + rest.1)
                    } else {
                        (d, v.cluster_size())
                    }
                },
                Err(_) => (d, v.cluster_size()),
            },
        },
{
    reveal(chain_written);
}

/// The buffer after a cluster read into a buffer grown by `cs` bytes: the
/// bytes written so far, then the part `p` of the cluster that was read
/// (all of it, or the sectors before one that cannot be read), then what
/// the grown buffer held.
proof fn lemma_read_buffer(
    got: Seq<u8>,
    p: Seq<u8>,
    old_buf: Seq<u8>,
    cs: nat,
    mid: Seq<u8>,
    buf: Seq<u8>,
)
    requires
        mid == got + (old_buf + zeros(got.len())).subrange(got.len() as int, (old_buf.len() + got.len()) as int)
            + zeros(cs),
        p.len() <= cs,
        buf == mid.subrange(0, got.len() as int) + p + mid.subrange((got.len() + p.len()) as int, mid.len() as int),
    ensures
        buf == (got + p) + (old_buf + zeros(got.len() + cs)).subrange(
            (got.len() + p.len()) as int,
            (old_buf.len() + got.len() + cs) as int,
        ),
{
    let target = (got + p) + (old_buf + zeros(got.len() + cs)).subrange(
        (got.len() + p.len()) as int,
        (old_buf.len() + got.len() + cs) as int,
    );
    assert(buf.len() == target.len());
    assert forall|k: int| 0 <= k < buf.len() implies buf[k] == target[k] by {
        if k < got.len() {
        } else if k < got.len() + p.len() {
        } else if k < old_buf.len() + got.len() {
        } else {
        }
    }
    assert(buf =~= target);
}

/// The first unreadable sector ends the readable prefix of every longer run.
proof fn lemma_readable_prefix_at<D: BlockDevice>(v: VFat<D>, first: int, s: nat, n: nat)
    requires
        s < n,
        v.sectors_data(first, s) is Some,
        v.logical_sector(first + s) is None,
    ensures
        v.readable_prefix(first, n) == s,
    decreases n,
{
    if n > s + 1 {
        lemma_readable_prefix_at(v, first, s, (n - 1) as nat);
        lemma_sectors_data_none(v, first, s + 1, (n - 1) as nat);
    }
}

/// The first unreadable sector decides the error of every longer run.
proof fn lemma_sectors_error<D: BlockDevice>(v: VFat<D>, first: int, s: nat, n: nat)
    requires
        s < n,
        v.sectors_data(first, s) is Some,
        v.logical_sector(first + s) is None,
    ensures
        v.sectors_error(first, n) == v.sector_error(first + s),
    decreases n,
{
    if n > s + 1 {
        lemma_sectors_error(v, first, s, (n - 1) as nat);
        lemma_sectors_data_none(v, first, s + 1, (n - 1) as nat);
    }
}

proof fn lemma_sectors_error_same<D: BlockDevice>(v: VFat<D>, w: VFat<D>, first: int, k: nat)
    requires
        forall|first: int, k: nat| #[trigger] v.sectors_data(first, k) == w.sectors_data(first, k),
        forall|n: int| #[trigger] v.sector_error(n) == w.sector_error(n),
    ensures
        v.sectors_error(first, k) == w.sectors_error(first, k),
    decreases k,
{
    if k > 0 {
        lemma_sectors_error_same(v, w, first, (k - 1) as nat);
        assert(v.sectors_data(first, (k - 1) as nat) == w.sectors_data(first, (k - 1) as nat));
        assert(v.sector_error(first + k - 1) == w.sector_error(first + k - 1));
    }
}

} // verus!
