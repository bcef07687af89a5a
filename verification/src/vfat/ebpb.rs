use vstd::prelude::*;

use crate::bytes::{le16, le32, read_array, read_le16, read_le32};
use crate::traits::{same_sectors, sector_image, BlockDevice};
use crate::vfat::Error;

verus! {

/// The FAT32 BIOS parameter block together with its extension (EBPB), as
/// found in the first sector of a FAT32 partition.
pub struct BiosParameterBlock {
    pub disassemble_to_jump: [u8; 3],
    pub oem_identifier: [u8; 8],
    pub bytes_per_sector: u16,
    pub sectors_per_cluster: u8,
    pub reserved_sectors: u16,
    pub num_of_fat: u8,
    pub max_of_dir_entries: u16,
    pub total_logical_sectors: u16,
    pub media_descriptor_type: u8,
    pub sectors_per_fat: u16,
    pub sectors_per_track: u16,
    pub heads_or_sides: u16,
    pub hidden_sectors: u32,
    pub total_logical_sectors_assist: u32,
    pub sectors_per_fat_assist: u32,
    pub flags: u16,
    pub fat_version_number: u16,
    pub root_dir_cluster_number: u32,
    pub fsinfo_sector_number: u16,
    pub backup_boot_sector_number: u16,
    pub reserved_and_should_be_zero: [u8; 12],
    pub driver_number: u8,
    pub flags_in_windows_nt: u8,
    pub signature: u8,
    pub volume_id_serial_number: u32,
    pub volume_label_string: [u8; 11],
    pub system_identifier_string: [u8; 8],
    pub boot_code: [u8; 420],
    pub bootable_signature: u16,
}

/// The EBPB `b` is the one encoded in the sector `s`.
pub open spec fn ebpb_encoded(b: BiosParameterBlock, s: Seq<u8>) -> bool {
    &&& b.disassemble_to_jump@ == s.subrange(0, 3)
    &&& b.oem_identifier@ == s.subrange(3, 11)
    &&& b.bytes_per_sector == le16(s, 11)
    &&& b.sectors_per_cluster == s[13]
    &&& b.reserved_sectors == le16(s, 14)
    &&& b.num_of_fat == s[16]
    &&& b.max_of_dir_entries == le16(s, 17)
    &&& b.total_logical_sectors == le16(s, 19)
    &&& b.media_descriptor_type == s[21]
    &&& b.sectors_per_fat == le16(s, 22)
    &&& b.sectors_per_track == le16(s, 24)
    &&& b.heads_or_sides == le16(s, 26)
    &&& b.hidden_sectors == le32(s, 28)
    &&& b.total_logical_sectors_assist == le32(s, 32)
    &&& b.sectors_per_fat_assist == le32(s, 36)
    &&& b.flags == le16(s, 40)
    &&& b.fat_version_number == le16(s, 42)
    &&& b.root_dir_cluster_number == le32(s, 44)
    &&& b.fsinfo_sector_number == le16(s, 48)
    &&& b.backup_boot_sector_number == le16(s, 50)
    &&& b.reserved_and_should_be_zero@ == s.subrange(52, 64)
    &&& b.driver_number == s[64]
    &&& b.flags_in_windows_nt == s[65]
    &&& b.signature == s[66]
    &&& b.volume_id_serial_number == le32(s, 67)
    &&& b.volume_label_string@ == s.subrange(71, 82)
    &&& b.system_identifier_string@ == s.subrange(82, 90)
    &&& b.boot_code@ == s.subrange(90, 510)
    &&& b.bootable_signature == le16(s, 510)
}

/// `r` is what reading the EBPB from the sector `s` gives: `BadSignature`
/// unless the bootable signature is 0xAA55, else the EBPB encoded in `s`.
pub open spec fn ebpb_parsed(r: Result<BiosParameterBlock, Error>, s: Seq<u8>) -> bool {
    if le16(s, 510) != 0xAA55 {
        r == Err::<BiosParameterBlock, Error>(Error::BadSignature)
    } else {
        r matches Ok(b) && ebpb_encoded(b, s)
    }
}

impl BiosParameterBlock {
    /// The sectors per FAT: the 16-bit count, or the 32-bit one when that is
    /// zero.
    pub open spec fn spec_sectors_per_fat(&self) -> u32 {
        if self.sectors_per_fat != 0 {
            self.sectors_per_fat as u32
        } else {
            self.sectors_per_fat_assist
        }
    }

    /// Decodes the EBPB from the bytes of its sector.
    ///
    /// # Errors
    ///
    /// If the EBPB signature is invalid, returns an error of `BadSignature`.
    pub fn parse(s: &[u8]) -> (r: Result<BiosParameterBlock, Error>)
        requires
            s@.len() == 512,
        ensures
            ebpb_parsed(r, s@),
    {
        let ebpb = BiosParameterBlock {
            disassemble_to_jump: read_array(s, 0),
            oem_identifier: read_array(s, 3),
            bytes_per_sector: read_le16(s, 11),
            sectors_per_cluster: s[13],
            reserved_sectors: read_le16(s, 14),
            num_of_fat: s[16],
            max_of_dir_entries: read_le16(s, 17),
            total_logical_sectors: read_le16(s, 19),
            media_descriptor_type: s[21],
            sectors_per_fat: read_le16(s, 22),
            sectors_per_track: read_le16(s, 24),
            heads_or_sides: read_le16(s, 26),
            hidden_sectors: read_le32(s, 28),
            total_logical_sectors_assist: read_le32(s, 32),
            sectors_per_fat_assist: read_le32(s, 36),
            flags: read_le16(s, 40),
            fat_version_number: read_le16(s, 42),
            root_dir_cluster_number: read_le32(s, 44),
            fsinfo_sector_number: read_le16(s, 48),
            backup_boot_sector_number: read_le16(s, 50),
            reserved_and_should_be_zero: read_array(s, 52),
            driver_number: s[64],
            flags_in_windows_nt: s[65],
            signature: s[66],
            volume_id_serial_number: read_le32(s, 67),
            volume_label_string: read_array(s, 71),
            system_identifier_string: read_array(s, 82),
            boot_code: read_array(s, 90),
            bootable_signature: read_le16(s, 510),
        };
        if ebpb.bootable_signature != 0xAA55 {
            return Err(Error::BadSignature);
        }
        Ok(ebpb)
    }

    /// Reads the FAT32 extended BIOS parameter block from sector `sector` of
    /// device `device`. A failed read is ignored: the sector is then read as
    /// zeros, whose signature is invalid.
    ///
    /// # Errors
    ///
    /// If the EBPB signature is invalid, returns an error of `BadSignature`.
    pub fn from<T: BlockDevice>(device: &mut T, sector: u64) -> (r: Result<
        BiosParameterBlock,
        Error,
    >)
        ensures
            same_sectors(*final(device), *old(device)),
            ebpb_parsed(r, sector_image(old(device).sector(sector))),
    {
        let mut buf: Vec<u8> = vec![0u8; 512];
        proof {
            assert(buf@ =~= Seq::new(512, |i: int| 0u8));
        }
        let _ = device.read_sector(sector, &mut buf);
        BiosParameterBlock::parse(buf.as_slice())
    }

    /// The number of sectors per FAT: the 16-bit count, or the 32-bit one
    /// when that is zero.
    pub fn sectors_per_fat(&self) -> (n: u32)
        ensures
            n == self.spec_sectors_per_fat(),
    {
        if self.sectors_per_fat != 0 {
            self.sectors_per_fat as u32
        } else {
            self.sectors_per_fat_assist
        }
    }
}

} // verus!
