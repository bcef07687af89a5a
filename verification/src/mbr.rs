use vstd::prelude::*;

use crate::bytes::{le32, read_array, read_le32};
use crate::traits::{same_sectors, sector_image, BlockDevice, IoError};

verus! {

/// The size of the master boot record in bytes.
pub const MBR_SIZE: usize = 512;

/// Why the master boot record was refused.
#[derive(Copy, Clone, Debug, PartialEq, Eq, Structural)]
pub enum Error {
    /// There was an I/O error while reading the MBR.
    Io(IoError),
    /// Partition `.0` (0-indexed) contains an invalid or unknown boot
    /// indicator.
    UnknownBootIndicator(u8),
    /// The MBR magic signature was invalid.
    BadSignature,
}

/// A cylinder-head-sector address.
#[derive(Copy, Clone, Debug)]
pub struct CHS {
    pub head: u8,
    pub sector_and_cylinder: [u8; 2],
}

/// The type byte of a partition.
#[derive(Copy, Clone, Debug)]
pub struct PartitionType(u8);

impl View for PartitionType {
    type V = u8;

    closed spec fn view(&self) -> u8 {
        self.0
    }
}

impl PartitionType {
    /// Whether the partition holds a FAT32 file system: type 0x0B or 0x0C.
    pub fn is_fat(&self) -> (b: bool)
        ensures
            b == (self@ == 0x0B || self@ == 0x0C),
    {
        self.0 == 0x0B || self.0 == 0x0C
    }
}

/// An entry of the partition table.
#[derive(Copy, Clone, Debug)]
pub struct PartitionEntry {
    pub indicator: u8,
    pub starting_chs: CHS,
    pub partition_type: PartitionType,
    pub ending_chs: CHS,
    pub relative_sector: u32,
    pub total_sectors: u32,
}

/// A boot indicator is valid when it is 0x00 (inactive) or 0x80 (bootable).
pub open spec fn valid_indicator(b: u8) -> bool {
    b == 0x00 || b == 0x80
}

impl PartitionEntry {
    /// Whether the boot indicator is valid: 0x00 or 0x80.
    pub fn valid_indicator(&self) -> (b: bool)
        ensures
            b == valid_indicator(self.indicator),
    {
        self.indicator == 0x00 || self.indicator == 0x80
    }
}

/// The master boot record (MBR).
pub struct MasterBootRecord {
    pub bootstrap: [u8; 436],
    pub disk_id: [u8; 10],
    pub partition_entries: [PartitionEntry; 4],
    pub signature: [u8; 2],
}

/// The offset of partition entry `i` in the MBR.
pub open spec fn entry_offset(i: int) -> int {
    446 + 16 * i
}

/// The partition entry `e` is the one encoded at `off` in `s`.
pub open spec fn entry_encoded(e: PartitionEntry, s: Seq<u8>, off: int) -> bool {
    &&& e.indicator == s[off]
    &&& e.starting_chs.head == s[off + 1]
    &&& e.starting_chs.sector_and_cylinder@ == s.subrange(off + 2, off + 4)
    &&& e.partition_type@ == s[off + 4]
    &&& e.ending_chs.head == s[off + 5]
    &&& e.ending_chs.sector_and_cylinder@ == s.subrange(off + 6, off + 8)
    &&& e.relative_sector == le32(s, off + 8)
    &&& e.total_sectors == le32(s, off + 12)
}

/// The MBR `m` is the one encoded in the sector `s`.
pub open spec fn mbr_encoded(m: MasterBootRecord, s: Seq<u8>) -> bool {
    &&& m.bootstrap@ == s.subrange(0, 436)
    &&& m.disk_id@ == s.subrange(436, 446)
    &&& forall|i: int| 0 <= i < 4 ==> entry_encoded(#[trigger] m.partition_entries@[i], s, entry_offset(i))
    &&& m.signature@ == s.subrange(510, 512)
}

/// The MBR's magic signature: bytes 0x55, 0xAA at offset 510.
pub open spec fn valid_signature(s: Seq<u8>) -> bool {
    s[510] == 0x55 && s[511] == 0xAA
}

/// The first partition entry of `s` with an invalid boot indicator.
pub open spec fn first_bad_indicator(s: Seq<u8>) -> Option<u8> {
    if !valid_indicator(s[entry_offset(0)]) {
        Some(0u8)
    } else if !valid_indicator(s[entry_offset(1)]) {
        Some(1u8)
    } else if !valid_indicator(s[entry_offset(2)]) {
        Some(2u8)
    } else if !valid_indicator(s[entry_offset(3)]) {
        Some(3u8)
    } else {
        None
    }
}

/// `r` is what reading the MBR from the sector `s` gives: `BadSignature`
/// when the signature is invalid, else `UnknownBootIndicator(i)` for the
/// first entry `i` with an invalid boot indicator, else the MBR encoded in
/// `s`.
pub open spec fn mbr_parsed(r: Result<MasterBootRecord, Error>, s: Seq<u8>) -> bool {
    if !valid_signature(s) {
        r == Err::<MasterBootRecord, Error>(Error::BadSignature)
    } else {
        match first_bad_indicator(s) {
            Some(i) => r == Err::<MasterBootRecord, Error>(Error::UnknownBootIndicator(i)),
            None => r matches Ok(m) && mbr_encoded(m, s),
        }
    }
}

/// The partition entry encoded at `off` in `s`.
fn parse_entry(s: &[u8], off: usize) -> (e: PartitionEntry)
    requires
        off + 16 <= s@.len(),
    ensures
        entry_encoded(e, s@, off as int),
{
    PartitionEntry {
        indicator: s[off],
        starting_chs: CHS { head: s[off + 1], sector_and_cylinder: read_array(s, off + 2) },
        partition_type: PartitionType(s[off + 4]),
        ending_chs: CHS { head: s[off + 5], sector_and_cylinder: read_array(s, off + 6) },
        relative_sector: read_le32(s, off + 8),
        total_sectors: read_le32(s, off + 12),
    }
}

impl MasterBootRecord {
    /// Decodes the master boot record from the bytes of its sector.
    ///
    /// # Errors
    ///
    /// Returns `BadSignature` if the MBR contains an invalid magic signature.
    /// Returns `UnknownBootIndicator(n)` if partition `n` contains an invalid
    /// boot indicator.
    pub fn parse(sector: &[u8]) -> (r: Result<MasterBootRecord, Error>)
        requires
            sector@.len() == MBR_SIZE,
        ensures
            mbr_parsed(r, sector@),
    {
        let mbr = MasterBootRecord {
            bootstrap: read_array(sector, 0),
            disk_id: read_array(sector, 436),
            partition_entries: [
                parse_entry(sector, 446),
                parse_entry(sector, 462),
                parse_entry(sector, 478),
                parse_entry(sector, 494),
            ],
            signature: read_array(sector, 510),
        };
        proof {
            assert forall|i: int| 0 <= i < 4 implies entry_encoded(
                #[trigger] mbr.partition_entries@[i],
                sector@,
                entry_offset(i),
            ) by {}
        }
        if !mbr.valid_signature() {
            return Err(Error::BadSignature);
        }
        proof {
            assert(mbr.signature@ == sector@.subrange(510, 512));
            assert(mbr.signature@[0] == sector@[510]);
            assert(mbr.signature@[1] == sector@[511]);
        }
        let mut i: usize = 0;
        while i < 4
            invariant
                i <= 4,
                sector@.len() == MBR_SIZE,
                valid_signature(sector@),
                mbr_encoded(mbr, sector@),
                forall|j: int| 0 <= j < i ==> valid_indicator(sector@[entry_offset(j)]),
            decreases 4 - i,
        {
            if !mbr.partition_entries[i].valid_indicator() {
                proof {
                    assert(mbr.partition_entries@[i as int].indicator == sector@[entry_offset(
                        i as int,
                    )]);
                }
                proof {
                    if i > 0 {
                        assert(valid_indicator(sector@[entry_offset(0)]));
                    }
                    if i > 1 {
                        assert(valid_indicator(sector@[entry_offset(1)]));
                    }
                    if i > 2 {
                        assert(valid_indicator(sector@[entry_offset(2)]));
                    }
                }
                return Err(Error::UnknownBootIndicator(i as u8));
            }
            proof {
                assert(mbr.partition_entries@[i as int].indicator == sector@[entry_offset(
                    i as int,
                )]);
            }
            i = i + 1;
        }
        Ok(mbr)
    }

    /// Reads and returns the master boot record (MBR) from sector 0 of
    /// `device`.
    ///
    /// # Errors
    ///
    /// Returns `BadSignature` if the MBR contains an invalid magic signature.
    /// Returns `UnknownBootIndicator(n)` if partition `n` contains an invalid
    /// boot indicator. Returns `Io(err)` if the I/O error `err` occurred while
    /// reading the MBR.
    pub fn from<T: BlockDevice>(device: &mut T) -> (r: Result<MasterBootRecord, Error>)
        ensures
            same_sectors(*final(device), *old(device)),
            match old(device).sector(0) {
                None => r == Err::<MasterBootRecord, Error>(Error::Io(old(device).read_error(0))),
                Some(_) => mbr_parsed(r, sector_image(old(device).sector(0))),
            },
    {
        let mut buf: Vec<u8> = vec![0u8; MBR_SIZE];
        proof {
            assert(buf@ =~= Seq::new(512, |i: int| 0u8));
        }
        match device.read_sector(0, &mut buf) {
            Ok(_) => {},
            Err(e) => {
                return Err(Error::Io(e));
            },
        }
        MasterBootRecord::parse(buf.as_slice())
    }

    /// The first partition entry of FAT32 type (0x0B or 0x0C), if any.
    pub fn first_fat32(&self) -> (r: Option<&PartitionEntry>)
        ensures
            match r {
                Some(e) => exists|i: int|
                    0 <= i < 4 && *e == self.partition_entries@[i] && (e.partition_type@ == 0x0B
                        || e.partition_type@ == 0x0C) && forall|j: int|
                        0 <= j < i ==> !(#[trigger] self.partition_entries@[j].partition_type@
                            == 0x0B || self.partition_entries@[j].partition_type@ == 0x0C),
                None => forall|j: int|
                    0 <= j < 4 ==> !(#[trigger] self.partition_entries@[j].partition_type@ == 0x0B
                        || self.partition_entries@[j].partition_type@ == 0x0C),
            },
    {
        let mut i: usize = 0;
        while i < 4
            invariant
                i <= 4,
                forall|j: int|
                    0 <= j < i ==> !(#[trigger] self.partition_entries@[j].partition_type@ == 0x0B
                        || self.partition_entries@[j].partition_type@ == 0x0C),
            decreases 4 - i,
        {
            if self.partition_entries[i].partition_type.is_fat() {
                return Some(&self.partition_entries[i]);
            }
            i = i + 1;
        }
        None
    }

    /// Whether the magic signature is 0x55, 0xAA.
    fn valid_signature(&self) -> (b: bool)
        ensures
            b == (self.signature@[0] == 0x55 && self.signature@[1] == 0xAA),
    {
        self.signature[0] == 0x55 && self.signature[1] == 0xAA
    }
}

} // verus!
