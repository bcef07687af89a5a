use vstd::prelude::*;

verus! {

/// Why an input/output operation failed.
#[derive(Copy, Clone, Debug, PartialEq, Eq, Structural)]
pub enum IoError {
    /// The entry looked for does not exist.
    NotFound,
    /// The request is malformed.
    InvalidInput,
    /// The data read is malformed.
    InvalidData,
    /// The device failed to read.
    Device,
    /// Another failure: an entry is not of the kind asked for.
    Other,
}

/// Bytes `k..` of `s`, behind the first `k` bytes of `d`.
pub open spec fn overwrite_prefix(s: Seq<u8>, d: Seq<u8>) -> Seq<u8> {
    let k = if d.len() <= s.len() {
        d.len()
    } else {
        s.len()
    };
    d.subrange(0, k as int) + s.subrange(k as int, s.len() as int)
}

/// The 512 bytes read from a device into a zeroed buffer for a sector whose
/// bytes are `d`: its bytes over the zeros, or zeros when the read fails.
pub open spec fn sector_image(d: Option<Seq<u8>>) -> Seq<u8> {
    match d {
        Some(d) => overwrite_prefix(Seq::new(512, |i: int| 0u8), d),
        None => Seq::new(512, |i: int| 0u8),
    }
}

/// The devices `a` and `b` hold the same sectors.
pub open spec fn same_sectors<D: BlockDevice>(a: D, b: D) -> bool {
    &&& forall|m: u64| #[trigger] a.sector(m) == b.sector(m)
    &&& forall|m: u64| #[trigger] a.read_error(m) == b.read_error(m)
}

/// A device that reads whole sectors.
pub trait BlockDevice {
    /// The bytes of sector `n`, or `None` when reading it fails.
    spec fn sector(&self, n: u64) -> Option<Seq<u8>>;

    /// The error that reading sector `n` reports when it fails.
    spec fn read_error(&self, n: u64) -> IoError;

    /// Reads sector `n` into the front of `buf`: as many of its bytes as fit
    /// are copied, and their number returned; the rest of `buf` is kept. A
    /// failed read changes nothing and reports the device's error for that
    /// sector. Reading never changes the device.
    fn read_sector(&mut self, n: u64, buf: &mut Vec<u8>) -> (r: Result<usize, IoError>)
        ensures
            forall|m: u64| #[trigger] final(self).sector(m) == old(self).sector(m),
            forall|m: u64| #[trigger] final(self).read_error(m) == old(self).read_error(m),
            match old(self).sector(n) {
                Some(d) => {
                    &&& r == Ok::<usize, IoError>(
                        (if d.len() <= old(buf)@.len() {
                            d.len()
                        } else {
                            old(buf)@.len()
                        }) as usize,
                    )
                    &&& final(buf)@ == overwrite_prefix(old(buf)@, d)
                },
                None => r == Err::<usize, IoError>(old(self).read_error(n)) && final(buf)@ == old(
                    buf,
                )@,
            },
    ;
}

/// A disk image held in memory, one vector per sector.
#[derive(Debug)]
pub struct MemoryDevice {
    sectors: Vec<Vec<u8>>,
}

impl MemoryDevice {
    /// The image made of `sectors`.
    pub fn new(sectors: Vec<Vec<u8>>) -> (d: MemoryDevice)
        ensures
            forall|m: u64|
                #[trigger] d.sector(m) == if m < sectors@.len() {
                    Some(sectors@[m as int]@)
                } else {
                    None::<Seq<u8>>
                },
    {
        MemoryDevice { sectors }
    }
}

impl BlockDevice for MemoryDevice {
    /// A sector past the image cannot be read: `Device`.
    open spec fn read_error(&self, n: u64) -> IoError {
        IoError::Device
    }

    closed spec fn sector(&self, n: u64) -> Option<Seq<u8>> {
        if n < self.sectors@.len() {
            Some(self.sectors@[n as int]@)
        } else {
            None
        }
    }

    fn read_sector(&mut self, n: u64, buf: &mut Vec<u8>) -> (r: Result<usize, IoError>) {
        if n >= self.sectors.len() as u64 {
            return Err(IoError::Device);
        }
        let data = &self.sectors[n as usize];
        let k = if data.len() <= buf.len() {
            data.len()
        } else {
            buf.len()
        };
        let ghost old_buf = buf@;
        let mut i: usize = 0;
        while i < k
            invariant
                k <= data@.len(),
                k <= old_buf.len(),
                i <= k,
                buf@.len() == old_buf.len(),
                forall|j: int| 0 <= j < i ==> buf@[j] == data@[j],
                forall|j: int| i <= j < old_buf.len() ==> buf@[j] == old_buf[j],
            decreases k - i,
        {
            buf.set(i, data[i]);
            i = i + 1;
        }
        proof {
            assert(buf@ =~= overwrite_prefix(old_buf, data@));
        }
        Ok(k)
    }
}

} // verus!
