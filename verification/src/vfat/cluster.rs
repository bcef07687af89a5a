use vstd::prelude::*;

verus! {

/// A cluster number: FAT32 uses the low 28 bits of a 32-bit value.
#[derive(Copy, Clone, Debug, PartialEq, Eq, Structural)]
pub struct Cluster(u32);

impl View for Cluster {
    type V = u32;

    closed spec fn view(&self) -> u32 {
        self.0
    }
}

impl Cluster {
    /// The cluster numbered by the low 28 bits of `raw_num`.
    pub fn from(raw_num: u32) -> (c: Cluster)
        ensures
            c@ == raw_num % 0x1000_0000,
    {
        assert(raw_num & 0x0fff_ffffu32 == raw_num % 0x1000_0000) by (bit_vector);
        Cluster(raw_num & 0x0fff_ffff)
    }

    /// The cluster's number.
    pub fn cluster_index(&self) -> (i: usize)
        ensures
            i == self@,
    {
        self.0 as usize
    }
}

} // verus!
