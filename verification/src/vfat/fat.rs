use vstd::prelude::*;

use crate::vfat::cluster::Cluster;

verus! {

/// The status of a cluster, as its FAT entry records it.
#[derive(Copy, Clone, Debug, PartialEq, Eq, Structural)]
pub enum Status {
    /// The cluster is unused.
    Free,
    /// The cluster is reserved.
    Reserved,
    /// The cluster holds data; the next cluster of its chain is `.0`.
    Data(Cluster),
    /// The cluster is bad (the disk failed there).
    Bad,
    /// The cluster holds data and is the last of its chain; `.0` is the raw
    /// entry.
    Eoc(u32),
}

/// An entry of the file allocation table.
#[derive(Copy, Clone, Debug, PartialEq, Eq, Structural)]
pub struct FatEntry(pub u32);

/// `s` is the status that the FAT entry `raw` records, over its low 28
/// bits: 0 is free, 1 and 0xFFFFFF0-0xFFFFFF6 are reserved, 0xFFFFFF7 is
/// bad, 0xFFFFFF8-0xFFFFFFF end a chain, and any other value is the next
/// cluster.
pub open spec fn is_status_of(s: Status, raw: u32) -> bool {
    let v = raw % 0x1000_0000;
    if v == 0 {
        s == Status::Free
    } else if v == 1 {
        s == Status::Reserved
    } else if 0x0FFF_FFF0 <= v <= 0x0FFF_FFF6 {
        s == Status::Reserved
    } else if v == 0x0FFF_FFF7 {
        s == Status::Bad
    } else if v >= 0x0FFF_FFF8 {
        s == Status::Eoc(raw)
    } else {
        s matches Status::Data(c) && c@ == v
    }
}

impl FatEntry {
    /// Returns the `Status` of the FAT entry `self`.
    pub fn status(&self) -> (s: Status)
        ensures
            is_status_of(s, self.0),
    {
        let raw = self.0;
        assert(raw & 0x0fff_ffffu32 == raw % 0x1000_0000) by (bit_vector);
        let v = raw & 0x0fff_ffff;
        if v == 0 {
            Status::Free
        } else if v == 1 {
            Status::Reserved
        } else if 0x0FFF_FFF0 <= v && v <= 0x0FFF_FFF6 {
            Status::Reserved
        } else if v == 0x0FFF_FFF7 {
            Status::Bad
        } else if v >= 0x0FFF_FFF8 {
            Status::Eoc(self.0)
        } else {
            Status::Data(Cluster::from(v))
        }
    }
}

} // verus!
