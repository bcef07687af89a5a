use vstd::prelude::*;
use vstd::utf8::{decode_utf8, valid_utf8};

use crate::bytes::{le16, le32, read_le16, read_le32};
use crate::text::{
    str_chars, str_from_utf8, string_from_chars, string_from_utf16, trim_end, trimmed_chars,
    utf16_decode,
};
use crate::traits::{same_sectors, BlockDevice, IoError};
use crate::vfat::vfat::VFat;
use crate::vfat::cluster::Cluster;
use crate::vfat::file::File;
use crate::vfat::metadata::{
    has_bit, Attributes, Date, Metadata, Time, Timestamp, DIRECTORY, LFN,
};

verus! {

/// The size of a directory entry in bytes.
pub const ENTRY_SIZE: usize = 32;

/// The number of UTF-16 units a long file name holds: 13 per entry, 31
/// entries.
pub const LFN_UNITS: usize = 403;

/// A directory of a FAT32 file system.
#[derive(Debug)]
pub struct Dir {
    pub name: String,
    pub first_cluster: Cluster,
    pub metadata: Metadata,
}

/// An entry of a directory: a file or a directory.
#[derive(Debug)]
pub enum Entry {
    File(File),
    Dir(Dir),
}

/// The metadata `m` is the one of the regular directory entry `e`; the
/// access time is midnight.
pub open spec fn metadata_encoded(m: Metadata, e: Seq<u8>) -> bool {
    &&& m.attributes@ == e[11]
    &&& m.created.time@ == le16(e, 14)
    &&& m.created.date@ == le16(e, 16)
    &&& m.accessed.date@ == le16(e, 18)
    &&& m.accessed.time@ == 0
    &&& m.modified.time@ == le16(e, 22)
    &&& m.modified.date@ == le16(e, 24)
}

/// The first cluster of the regular directory entry `e`: its high and low
/// halves, limited to 28 bits.
pub open spec fn first_cluster_of(e: Seq<u8>) -> u32 {
    ((le16(e, 20) * 0x1_0000 + le16(e, 26)) % 0x1000_0000) as u32
}

/// The directory entry `entry` is the one named `name` that the regular
/// entry `e` describes: a directory when its DIRECTORY bit is set, else a
/// file of the size recorded, read from its start.
pub open spec fn entry_encoded(entry: Entry, name: Seq<char>, e: Seq<u8>) -> bool {
    if has_bit(e[11], DIRECTORY) {
        &&& entry matches Entry::Dir(d)
        &&& d.name@ == name
        &&& d.first_cluster@ == first_cluster_of(e)
        &&& metadata_encoded(d.metadata, e)
    } else {
        &&& entry matches Entry::File(f)
        &&& f.spec_name() == name
        &&& f.spec_first_cluster()@ == first_cluster_of(e)
        &&& metadata_encoded(f.spec_metadata(), e)
        &&& f.spec_size() == le32(e, 28)
        &&& f.position() == 0
    }
}

/// A regular (8.3) directory entry.
#[derive(Copy, Clone)]
pub struct VFatRegularDirEntry {
    name: [u8; 8],
    extension: [u8; 3],
    attributes: Attributes,
    reserved_by_windows_nt: u8,
    creation_time_in_tenths: u8,
    create_time: Time,
    create_date: Date,
    access_data: Date,
    first_cluster_number_high: u16,
    modify_time: Time,
    modify_data: Date,
    first_cluster_number_low: u16,
    size_in_bytes: u32,
    raw: Ghost<Seq<u8>>,
}

impl View for VFatRegularDirEntry {
    type V = Seq<u8>;

    /// The 32 bytes the entry was decoded from.
    closed spec fn view(&self) -> Seq<u8> {
        self.raw@
    }
}

impl VFatRegularDirEntry {
    #[verifier::type_invariant]
    closed spec fn decoded(self) -> bool {
        &&& self.raw@.len() == 32
        &&& self.name@ == self.raw@.subrange(0, 8)
        &&& self.extension@ == self.raw@.subrange(8, 11)
        &&& self.attributes@ == self.raw@[11]
        &&& self.create_time@ == le16(self.raw@, 14)
        &&& self.create_date@ == le16(self.raw@, 16)
        &&& self.access_data@ == le16(self.raw@, 18)
        &&& self.first_cluster_number_high == le16(self.raw@, 20)
        &&& self.modify_time@ == le16(self.raw@, 22)
        &&& self.modify_data@ == le16(self.raw@, 24)
        &&& self.first_cluster_number_low == le16(self.raw@, 26)
        &&& self.size_in_bytes == le32(self.raw@, 28)
    }

    /// Decodes the entry of 32 bytes at `off` in `s`.
    pub fn from_bytes(s: &[u8], off: usize) -> (e: VFatRegularDirEntry)
        requires
            off + 32 <= s.len(),
        ensures
            e@ == s@.subrange(off as int, off + 32),
    {
        let ghost raw = s@.subrange(off as int, off + 32);
        let name: [u8; 8] = crate::bytes::read_array(s, off);
        let extension: [u8; 3] = crate::bytes::read_array(s, off + 8);
        proof {
            assert(name@ =~= raw.subrange(0, 8));
            assert(extension@ =~= raw.subrange(8, 11));
            assert forall|k: int| 0 <= k < 32 implies raw[k] == s@[off + k] by {}
        }
        let e = VFatRegularDirEntry {
            name,
            extension,
            attributes: Attributes::from_raw(s[off + 11]),
            reserved_by_windows_nt: s[off + 12],
            creation_time_in_tenths: s[off + 13],
            create_time: Time::from_raw(read_le16(s, off + 14)),
            create_date: Date::from_raw(read_le16(s, off + 16)),
            access_data: Date::from_raw(read_le16(s, off + 18)),
            first_cluster_number_high: read_le16(s, off + 20),
            modify_time: Time::from_raw(read_le16(s, off + 22)),
            modify_data: Date::from_raw(read_le16(s, off + 24)),
            first_cluster_number_low: read_le16(s, off + 26),
            size_in_bytes: read_le32(s, off + 28),
            raw: Ghost(raw),
        };
        e
    }

    /// The entry's metadata: its attributes, and its creation, access (date
    /// only) and modification timestamps.
    pub fn metadata(&self) -> (m: Metadata)
        ensures
            metadata_encoded(m, self@),
    {
        proof {
            use_type_invariant(self);
        }
        Metadata {
            attributes: self.attributes,
            created: Timestamp { date: self.create_date, time: self.create_time },
            accessed: Timestamp { date: self.access_data, time: Time::new() },
            modified: Timestamp { date: self.modify_data, time: self.modify_time },
        }
    }

    /// The entry's first cluster.
    pub fn first_cluster(&self) -> (c: Cluster)
        ensures
            c@ == first_cluster_of(self@),
    {
        proof {
            use_type_invariant(self);
        }
        Cluster::from(
            (self.first_cluster_number_high as u32) * 0x1_0000 + self.first_cluster_number_low as u32,
        )
    }

    /// The entry's short name: the name and the extension as UTF-8 without
    /// trailing white space, joined by a dot when the extension is not
    /// empty; `None` when either is not valid UTF-8.
    pub fn short_name(&self) -> (r: Option<String>)
        ensures
            match short_name(self@) {
                Some(n) => r matches Some(s) && s@ == n,
                None => r is None,
            },
    {
        proof {
            use_type_invariant(self);
        }
        let name = match str_from_utf8(self.name.as_slice()) {
            Ok(n) => n,
            Err(_) => return None,
        };
        let extension = match str_from_utf8(self.extension.as_slice()) {
            Ok(x) => x,
            Err(_) => return None,
        };
        let mut chars = trimmed_chars(name);
        let ext = trimmed_chars(extension);
        if ext.len() > 0 {
            let ghost base = chars@;
            chars.push('.');
            let mut i: usize = 0;
            while i < ext.len()
                invariant
                    i <= ext@.len(),
                    chars@ == base + seq!['.'] + ext@.subrange(0, i as int),
                decreases ext@.len() - i,
            {
                chars.push(ext[i]);
                i = i + 1;
                proof {
                    assert(chars@ =~= base + seq!['.'] + ext@.subrange(0, i as int));
                }
            }
            proof {
                assert(ext@.subrange(0, ext@.len() as int) =~= ext@);
            }
        }
        Some(string_from_chars(chars.as_slice()))
    }

    /// Whether the entry is a directory.
    pub fn is_dir(&self) -> (b: bool)
        ensures
            b == has_bit(self@[11], DIRECTORY),
    {
        proof {
            use_type_invariant(self);
        }
        self.attributes.directory()
    }

    /// The size of the file in bytes.
    pub fn size(&self) -> (s: u32)
        ensures
            s == le32(self@, 28),
    {
        proof {
            use_type_invariant(self);
        }
        self.size_in_bytes
    }
}

/// A long file name directory entry.
#[derive(Copy, Clone)]
pub struct VFatLfnDirEntry {
    sequence_number: u8,
    name_characters: [u16; 5],
    attributes: Attributes,
    lfn_type: u8,
    checksum: u8,
    name_characters_second: [u16; 6],
    always_zero: u16,
    name_characters_third: [u16; 2],
}

/// An entry of unknown kind: only its first byte and attributes are read.
#[derive(Copy, Clone)]
pub struct VFatUnknownDirEntry {
    info: u8,
    _placeholder0: [u8; 10],
    attributes: Attributes,
    _placeholder1: [u8; 20],
}

/// The short name of the regular entry `e`: bytes 0-7 and 8-10 as UTF-8
/// without trailing white space, joined by a dot when the extension is not
/// empty.
pub open spec fn short_name(e: Seq<u8>) -> Option<Seq<char>> {
    let n = e.subrange(0, 8);
    let x = e.subrange(8, 11);
    if valid_utf8(n) && valid_utf8(x) {
        let name = trim_end(decode_utf8(n));
        let ext = trim_end(decode_utf8(x));
        Some(
            if ext.len() > 0 {
                name + seq!['.'] + ext
            } else {
                name
            },
        )
    } else {
        None
    }
}

/// The entry at index `i` of `data`.
pub open spec fn entry_at(data: Seq<u8>, i: int) -> Seq<u8> {
    data.subrange(32 * i, 32 * i + 32)
}

/// The slot of a long file name entry: its sequence number (low 5 bits)
/// minus one.
pub open spec fn lfn_slot(e: Seq<u8>) -> int {
    (e[0] % 32) - 1
}

/// UTF-16 unit `t` (0-12) of the long file name entry `e`: units 0-4 at
/// byte 1, 5-10 at byte 14, 11-12 at byte 28.
pub open spec fn lfn_unit(e: Seq<u8>, t: int) -> u16 {
    if t < 5 {
        le16(e, 1 + 2 * t)
    } else if t < 11 {
        le16(e, 14 + 2 * (t - 5))
    } else {
        le16(e, 28 + 2 * (t - 11))
    }
}

/// The long name buffer after storing the units of entry `e` at its slot.
pub open spec fn lfn_store(lfn: Seq<u16>, e: Seq<u8>) -> Seq<u16> {
    let s = lfn_slot(e);
    Seq::new(
        lfn.len(),
        |p: int|
            if 13 * s <= p < 13 * s + 13 {
                lfn_unit(e, p - 13 * s)
            } else {
                lfn[p]
            },
    )
}

/// The length of the long name in `lfn`: up to its first 0x0000 or 0xFFFF
/// unit.
pub open spec fn lfn_len(lfn: Seq<u16>) -> int
    decreases lfn.len(),
{
    if lfn.len() == 0 || lfn[0] == 0 || lfn[0] == 0xFFFF {
        0
    } else {
        1 + lfn_len(lfn.drop_first())
    }
}

/// The name of the regular entry `e`: the long name gathered in `lfn` when
/// long name entries preceded it, else its short name.
pub open spec fn entry_name(e: Seq<u8>, lfn: Seq<u16>, has_lfn: bool) -> Option<Seq<char>> {
    if has_lfn {
        utf16_decode(lfn.subrange(0, lfn_len(lfn)))
    } else {
        short_name(e)
    }
}

/// Scanning `data` from entry `i`: entries with first byte 0x00 end the
/// scan; 0xE5 marks a deleted entry, skipped; long file name entries
/// (attributes 0x0F) store their units; the first regular entry gives the
/// result, named by `entry_name`. Returns the result (its name and bytes),
/// the index after the last entry read, and whether no long name entry with
/// sequence number 0 was met (such an entry has no slot for its units).
pub open spec fn scan(data: Seq<u8>, i: int, lfn: Seq<u16>, has_lfn: bool) -> (
    Option<(Seq<char>, Seq<u8>)>,
    int,
    bool,
)
    decreases data.len() / 32 - i,
{
    if i < 0 || i >= data.len() / 32 {
        (None, i, true)
    } else {
        let e = entry_at(data, i);
        if e[0] == 0x00 {
            (None, i + 1, true)
        } else if e[0] == 0xE5 {
            scan(data, i + 1, lfn, has_lfn)
        } else if e[11] == LFN {
            if e[0] % 32 == 0 {
                (None, i + 1, false)
            } else {
                scan(data, i + 1, lfn_store(lfn, e), true)
            }
        } else {
            match entry_name(e, lfn, has_lfn) {
                Some(n) => (Some((n, e)), i + 1, true),
                None => (None, i + 1, true),
            }
        }
    }
}

/// An iterator over the entries of a directory, decoded from the bytes of
/// its cluster chain.
#[derive(Debug)]
pub struct VFatIterator {
    data: Vec<u8>,
    pos: usize,
}

impl VFatIterator {
    /// The bytes of the directory.
    pub closed spec fn spec_data(&self) -> Seq<u8> {
        self.data@
    }

    /// The index of the next entry to read.
    pub closed spec fn spec_pos(&self) -> int {
        self.pos as int
    }

    /// The result of the next call of `next`.
    pub open spec fn next_scan(&self) -> (Option<(Seq<char>, Seq<u8>)>, int, bool) {
        scan(self.spec_data(), self.spec_pos(), Seq::new(LFN_UNITS as nat, |p: int| 0u16), false)
    }

    /// An iterator over the entries encoded in `data`, from the first.
    pub fn new(data: Vec<u8>) -> (it: VFatIterator)
        ensures
            it.spec_data() == data@,
            it.spec_pos() == 0,
    {
        VFatIterator { data, pos: 0 }
    }

    /// Whether the next call of `next` would meet a long file name entry with
    /// sequence number 0, which has no slot for its units.
    pub fn next_is_malformed(&self) -> (b: bool)
        ensures
            b == !self.next_scan().2,
    {
        let ghost z = Seq::new(LFN_UNITS as nat, |p: int| 0u16);
        let n = self.data.len() / 32;
        let mut i = self.pos;
        while i < n
            invariant
                n == self.data.len() / 32,
                scan(self.data@, i as int, z, false).2 == self.next_scan().2,
                z == Seq::new(LFN_UNITS as nat, |p: int| 0u16),
            decreases n - i,
        {
            proof {
                assert(i * 32 + 32 <= self.data.len()) by (nonlinear_arith)
                    requires
                        i < n,
                        n == self.data.len() / 32,
                ;
            }
            let off = i * 32;
            proof {
                assert(off + 32 <= self.data@.len()) by (nonlinear_arith)
                    requires
                        i < n,
                        n == self.data@.len() / 32,
                        off == i * 32,
                ;
                assert(entry_at(self.data@, i as int)[0] == self.data@[off as int]);
                assert(entry_at(self.data@, i as int)[11] == self.data@[off + 11]);
            }
            let info = self.data[off];
            if info == 0x00 {
                return false;
            }
            if info != 0xE5 {
                if self.data[off + 11] == LFN {
                    if info % 32 == 0 {
                        return true;
                    }
                } else {
                    return false;
                }
            }
            i = i + 1;
            proof {
                lemma_scan_ok_lfn_free(self.data@, i as int, z, false);
                let e = entry_at(self.data@, i - 1);
                if info != 0xE5 {
                    assert(scan(self.data@, i - 1, z, false).2 == scan(
                        self.data@,
                        i as int,
                        lfn_store(z, e),
                        true,
                    ).2);
                } else {
                    assert(scan(self.data@, i - 1, z, false).2 == scan(self.data@, i as int, z, false).2);
                }
            }
        }
        false
    }

    /// The next entry of the directory, as `scan` states: its name is the
    /// long file name gathered from the long name entries before it, or
    /// else its short name; `None` at the end of the directory, at an entry
    /// whose first byte is 0x00, or when the name is not valid text.
    pub fn next(&mut self) -> (r: Option<Entry>)
        requires
            old(self).next_scan().2,
        ensures
            final(self).spec_data() == old(self).spec_data(),
            final(self).spec_pos() == old(self).next_scan().1,
            match old(self).next_scan().0 {
                Some((name, e)) => r matches Some(entry) && entry_encoded(entry, name, e),
                None => r is None,
            },
    {
        let ghost goal = self.next_scan();
        let mut lfn: Vec<u16> = vec![0u16; LFN_UNITS];
        let mut has_lfn = false;
        let n = self.data.len() / 32;
        proof {
            assert(lfn@ =~= Seq::new(LFN_UNITS as nat, |p: int| 0u16));
        }
        while self.pos < n
            invariant
                n == self.data.len() / 32,
                self.data@ == old(self).spec_data(),
                lfn@.len() == LFN_UNITS,
                scan(self.data@, self.pos as int, lfn@, has_lfn) == goal,
                goal == old(self).next_scan(),
                goal.2,
            decreases n - self.pos,
        {
            let i = self.pos;
            proof {
                assert(i * 32 + 32 <= self.data.len()) by (nonlinear_arith)
                    requires
                        i < n,
                        n == self.data.len() / 32,
                ;
            }
            let off = i * 32;
            proof {
                assert(off + 32 <= self.data@.len()) by (nonlinear_arith)
                    requires
                        i < n,
                        n == self.data@.len() / 32,
                        off == i * 32,
                ;
            }
            let ghost e = entry_at(self.data@, i as int);
            proof {
                assert forall|k: int| 0 <= k < 32 implies e[k] == self.data@[off + k] by {}
            }
            self.pos = self.pos + 1;
            let info = self.data[off];
            if info == 0x00 {
                return None;
            }
            if info == 0xE5 {
                continue;
            }
            if self.data[off + 11] == LFN {
                let slot = (info % 32) as usize - 1;
                let base = slot * 13;
                let ghost before = lfn@;
                let mut t: usize = 0;
                while t < 13
                    invariant
                        t <= 13,
                        slot < 31,
                        base == slot * 13,
                        off + 32 <= self.data.len(),
                        e == entry_at(self.data@, i as int),
                        e.len() == 32,
                        forall|k: int| 0 <= k < 32 ==> e[k] == self.data@[off + k],
                        lfn@.len() == LFN_UNITS,
                        slot == lfn_slot(e),
                        forall|p: int|
                            0 <= p < LFN_UNITS ==> #[trigger] lfn@[p] == if base <= p < base + t {
                                lfn_unit(e, p - base)
                            } else {
                                before[p]
                            },
                    decreases 13 - t,
                {
                    let at = if t < 5 {
                        off + 1 + 2 * t
                    } else if t < 11 {
                        off + 14 + 2 * (t - 5)
                    } else {
                        off + 28 + 2 * (t - 11)
                    };
                    let unit = read_le16(self.data.as_slice(), at);
                    proof {
                        let rel = (at - off) as int;
                        assert(le16(self.data@, at as int) == le16(e, rel));
                    }
                    lfn.set(base + t, unit);
                    t = t + 1;
                }
                proof {
                    assert(lfn@ =~= lfn_store(before, e));
                }
                has_lfn = true;
            } else {
                let entry = VFatRegularDirEntry::from_bytes(self.data.as_slice(), off);
                let name = if has_lfn {
                    let mut len: usize = 0;
                    proof {
                        assert(lfn@.subrange(0, LFN_UNITS as int) =~= lfn@);
                    }
                    while len < LFN_UNITS && lfn[len] != 0 && lfn[len] != 0xFFFF
                        invariant
                            len <= LFN_UNITS,
                            lfn@.len() == LFN_UNITS,
                            lfn_len(lfn@) == len + lfn_len(lfn@.subrange(len as int, LFN_UNITS as int)),
                        decreases LFN_UNITS - len,
                    {
                        proof {
                            assert(lfn@.subrange(len as int, LFN_UNITS as int).drop_first()
                                =~= lfn@.subrange(len + 1, LFN_UNITS as int));
                        }
                        len = len + 1;
                    }
                    let mut units: Vec<u16> = Vec::new();
                    let mut k: usize = 0;
                    while k < len
                        invariant
                            k <= len <= LFN_UNITS,
                            lfn@.len() == LFN_UNITS,
                            units@ == lfn@.subrange(0, k as int),
                        decreases len - k,
                    {
                        units.push(lfn[k]);
                        k = k + 1;
                        proof {
                            assert(units@ =~= lfn@.subrange(0, k as int));
                        }
                    }
                    proof {
                        assert(lfn_len(lfn@.subrange(len as int, LFN_UNITS as int)) == 0);
                    }
                    string_from_utf16(units.as_slice())
                } else {
                    entry.short_name()
                };
                match name {
                    Some(name) => {
                        let first_cluster = entry.first_cluster();
                        let metadata = entry.metadata();
                        if entry.is_dir() {
                            return Some(Entry::Dir(Dir { name, first_cluster, metadata }));
                        } else {
                            return Some(
                                Entry::File(File::new(name, first_cluster, metadata, entry.size())),
                            );
                        }
                    },
                    None => {
                        return None;
                    },
                }
            }
        }
        None
    }
}

/// Whether a scan succeeds does not depend on the long name gathered so far.
proof fn lemma_scan_ok_lfn_free(data: Seq<u8>, i: int, lfn: Seq<u16>, has: bool)
    ensures
        forall|l2: Seq<u16>, h2: bool| #[trigger] scan(data, i, l2, h2).2 == scan(data, i, lfn, has).2,
    decreases data.len() / 32 - i,
{
    if 0 <= i < data.len() / 32 {
        lemma_scan_ok_lfn_free(data, i + 1, lfn, has);
        assert forall|l2: Seq<u16>, h2: bool| #[trigger] scan(data, i, l2, h2).2 == scan(
            data,
            i,
            lfn,
            has,
        ).2 by {
            let e = entry_at(data, i);
            if e[0] != 0x00 && e[0] != 0xE5 && e[11] == LFN && e[0] % 32 != 0 {
                assert(scan(data, i + 1, lfn_store(l2, e), true).2 == scan(data, i + 1, lfn, has).2);
                assert(scan(data, i + 1, lfn_store(lfn, e), true).2 == scan(data, i + 1, lfn, has).2);
            } else if e[0] == 0xE5 {
                assert(scan(data, i + 1, l2, h2).2 == scan(data, i + 1, lfn, has).2);
            }
        }
    }
}

/// The code of `c` in ASCII lower case: letters A-Z map to a-z.
pub open spec fn ascii_lower(c: char) -> int {
    if 'A' <= c <= 'Z' {
        (c as u32) + 32
    } else {
        c as u32 as int
    }
}

/// `a` and `b` are equal up to ASCII case, as `str::eq_ignore_ascii_case`
/// compares them.
pub open spec fn eq_ignore_ascii_case(a: Seq<char>, b: Seq<char>) -> bool {
    &&& a.len() == b.len()
    &&& forall|i: int| 0 <= i < a.len() ==> ascii_lower(#[trigger] a[i]) == ascii_lower(b[i])
}

/// The long name buffer at the start of each entry: all zeros.
pub open spec fn empty_lfn() -> Seq<u16> {
    Seq::new(LFN_UNITS as nat, |p: int| 0u16)
}

/// Looking for the entry named `name` (up to ASCII case) from entry `pos`
/// of `data`, as repeated calls of `next` do: the entry found, if any, and
/// whether no call meets a long name entry with sequence number 0.
pub open spec fn search(data: Seq<u8>, pos: int, name: Seq<char>) -> (
    Option<(Seq<char>, Seq<u8>)>,
    bool,
)
    decreases data.len() / 32 - pos,
{
    let (r, np, ok) = scan(data, pos, empty_lfn(), false);
    if !ok {
        (None, false)
    } else {
        match r {
            None => (None, true),
            Some((n, e)) => if eq_ignore_ascii_case(n, name) {
                (Some((n, e)), true)
            } else if pos < np <= data.len() / 32 {
                search(data, np, name)
            } else {
                (None, true)
            },
        }
    }
}

/// The units of a long name stored as on disk in the `k` long name entries
/// of `data` from index `i`: the entry with sequence number `n` sits at
/// index `i + k - n` and holds units `13 * (n - 1)` to `13 * n` of the name.
pub open spec fn long_name_units(data: Seq<u8>, i: int, k: int) -> Seq<u16> {
    Seq::new(
        (13 * k) as nat,
        |p: int|
            {
                let e = entry_at(data, i + k - 1 - p / 13);
                let t = p % 13;
                // units 0-4 at byte 1, 5-10 at byte 14, 11-12 at byte 28
                let off = if t < 5 {
                    1 + 2 * t
                } else if t < 11 {
                    4 + 2 * t
                } else {
                    6 + 2 * t
                };
                (e[off] + 256 * e[off + 1]) as u16
            },
    )
}

/// Entry `e` is a long name entry holding piece `n` of a name.
pub open spec fn long_name_piece(e: Seq<u8>, n: int) -> bool {
    &&& e[11] == LFN
    &&& e[0] != 0xE5
    &&& e[0] % 32 == n
}

/// The long name buffer while the entries of a `k`-piece long name are read
/// from index `i`, after `j` of them: the pieces read hold their units, the
/// rest of the buffer is zero.
spec fn lfn_partial(data: Seq<u8>, i: int, k: int, j: int) -> Seq<u16> {
    Seq::new(
        LFN_UNITS as nat,
        |p: int|
            if 13 * (k - j) <= p < 13 * k {
                long_name_units(data, i, k)[p]
            } else {
                0u16
            },
    )
}

/// A long name's length is the index of its first 0x0000 or 0xFFFF unit,
/// or all of it.
proof fn lemma_lfn_len_at(s: Seq<u16>, len: int)
    requires
        0 <= len <= s.len(),
        forall|q: int| 0 <= q < len ==> s[q] != 0 && s[q] != 0xFFFF,
        len == s.len() || s[len] == 0 || s[len] == 0xFFFF,
    ensures
        lfn_len(s) == len,
    decreases len,
{
    if len > 0 {
        let t = s.drop_first();
        assert forall|q: int| 0 <= q < len - 1 implies t[q] != 0 && t[q] != 0xFFFF by {
            assert(t[q] == s[q + 1]);
        }
        if len < s.len() {
            assert(t[len - 1] == s[len]);
        }
        lemma_lfn_len_at(t, len - 1);
    }
}

/// Reading the long name entries of a `k`-piece name from the `j`-th on,
/// with the buffer as the earlier ones left it, gives the name.
proof fn lemma_long_name_from(data: Seq<u8>, i: int, k: int, len: int, j: int)
    requires
        0 <= i,
        1 <= k <= 31,
        i + k < data.len() / 32,
        forall|jj: int| 0 <= jj < k ==> long_name_piece(#[trigger] entry_at(data, i + jj), k - jj),
        entry_at(data, i + k)[0] != 0,
        entry_at(data, i + k)[0] != 0xE5,
        entry_at(data, i + k)[11] != LFN,
        0 <= len <= 13 * k,
        forall|q: int|
            0 <= q < len ==> long_name_units(data, i, k)[q] != 0 && long_name_units(data, i, k)[q]
                != 0xFFFF,
        len == 13 * k || long_name_units(data, i, k)[len] == 0 || long_name_units(data, i, k)[len]
            == 0xFFFF,
        0 <= j <= k,
    ensures
        scan(data, i + j, lfn_partial(data, i, k, j), j > 0) == (
            match utf16_decode(long_name_units(data, i, k).subrange(0, len)) {
                Some(n) => Some((n, entry_at(data, i + k))),
                None => None,
            },
            i + k + 1,
            true,
        ),
    decreases k - j,
{
    let u = long_name_units(data, i, k);
    let buf = lfn_partial(data, i, k, j);
    if j == k {
        lemma_lfn_len_at(buf, len);
        assert(buf.subrange(0, len) =~= u.subrange(0, len));
    } else {
        let e = entry_at(data, i + j);
        assert(long_name_piece(e, k - j));
        let s = k - j - 1;
        assert(lfn_slot(e) == s);
        assert forall|p: int| 0 <= p < LFN_UNITS implies #[trigger] lfn_store(buf, e)[p]
            == lfn_partial(data, i, k, j + 1)[p] by {
            if 13 * s <= p < 13 * s + 13 {
                vstd::arithmetic::div_mod::lemma_fundamental_div_mod_converse(p, 13, s, p - 13 * s);
                let t = p - 13 * s;
                let off = if t < 5 {
                    1 + 2 * t
                } else if t < 11 {
                    4 + 2 * t
                } else {
                    6 + 2 * t
                };
                assert(lfn_unit(e, t) == (e[off] + 256 * e[off + 1]) as u16);
            }
        }
        assert(lfn_store(buf, e) =~= lfn_partial(data, i, k, j + 1));
        lemma_long_name_from(data, i, k, len, j + 1);
    }
}

/// A name stored in long name entries is read whole: when `k` long name
/// entries with sequence numbers `k` down to 1 precede a regular entry, the
/// entry's name is the pieces of the entries joined in sequence-number
/// order (piece `n` at units `13 * (n - 1)` to `13 * n`), up to the first
/// 0x0000 or 0xFFFF unit, decoded from UTF-16.
pub proof fn lemma_long_name_read_whole(data: Seq<u8>, i: int, k: int, len: int)
    requires
        0 <= i,
        1 <= k <= 31,
        i + k < data.len() / 32,
        forall|jj: int| 0 <= jj < k ==> long_name_piece(#[trigger] entry_at(data, i + jj), k - jj),
        entry_at(data, i + k)[0] != 0,
        entry_at(data, i + k)[0] != 0xE5,
        entry_at(data, i + k)[11] != LFN,
        0 <= len <= 13 * k,
        forall|q: int|
            0 <= q < len ==> long_name_units(data, i, k)[q] != 0 && long_name_units(data, i, k)[q]
                != 0xFFFF,
        len == 13 * k || long_name_units(data, i, k)[len] == 0 || long_name_units(data, i, k)[len]
            == 0xFFFF,
    ensures
        scan(data, i, empty_lfn(), false) == (
            match utf16_decode(long_name_units(data, i, k).subrange(0, len)) {
                Some(n) => Some((n, entry_at(data, i + k))),
                None => None,
            },
            i + k + 1,
            true,
        ),
{
    assert(lfn_partial(data, i, k, 0) =~= empty_lfn());
    lemma_long_name_from(data, i, k, len, 0);
}

pub proof fn lemma_scan_advances(data: Seq<u8>, i: int, lfn: Seq<u16>, has: bool)
    requires
        0 <= i,
    ensures
        scan(data, i, lfn, has).0 is Some ==> i < scan(data, i, lfn, has).1 <= data.len() / 32,
    decreases data.len() / 32 - i,
{
    if 0 <= i < data.len() / 32 {
        lemma_scan_advances(data, i + 1, lfn, has);
        let e = entry_at(data, i);
        if e[0] != 0x00 && e[0] != 0xE5 && e[11] == LFN && e[0] % 32 != 0 {
            lemma_scan_advances(data, i + 1, lfn_store(lfn, e), true);
        }
    }
}

/// Whether two characters are equal up to ASCII case.
fn lower_eq(x: char, y: char) -> (b: bool)
    ensures
        b == (ascii_lower(x) == ascii_lower(y)),
{
    let xv = x as u32;
    let yv = y as u32;
    let lx = if 65 <= xv && xv <= 90 {
        xv + 32
    } else {
        xv
    };
    let ly = if 65 <= yv && yv <= 90 {
        yv + 32
    } else {
        yv
    };
    lx == ly
}

/// Whether two texts are equal up to ASCII case.
pub fn names_match(a: &str, b: &str) -> (r: bool)
    ensures
        r == eq_ignore_ascii_case(a@, b@),
{
    let x = str_chars(a);
    let y = str_chars(b);
    if x.len() != y.len() {
        return false;
    }
    let mut i: usize = 0;
    while i < x.len()
        invariant
            x@ == a@,
            y@ == b@,
            x@.len() == y@.len(),
            i <= x@.len(),
            forall|j: int| 0 <= j < i ==> ascii_lower(#[trigger] x@[j]) == ascii_lower(y@[j]),
        decreases x@.len() - i,
    {
        if !lower_eq(x[i], y[i]) {
            return false;
        }
        i = i + 1;
    }
    true
}

impl Entry {
    /// The entry's name.
    pub open spec fn spec_name(&self) -> Seq<char> {
        match self {
            Entry::File(f) => f.spec_name(),
            Entry::Dir(d) => d.name@,
        }
    }

    /// The entry's name.
    pub fn name(&self) -> (n: &String)
        ensures
            n@ == self.spec_name(),
    {
        match self {
            Entry::File(f) => f.name(),
            Entry::Dir(d) => &d.name,
        }
    }

    /// The entry's metadata.
    pub fn metadata(&self) -> (m: Metadata)
        ensures
            m == match self {
                Entry::File(f) => f.spec_metadata(),
                Entry::Dir(d) => d.metadata,
            },
    {
        match self {
            Entry::File(f) => f.metadata(),
            Entry::Dir(d) => d.metadata,
        }
    }

    /// Whether the entry is a directory.
    pub fn is_dir(&self) -> (b: bool)
        ensures
            b == self is Dir,
    {
        match self {
            Entry::File(_) => false,
            Entry::Dir(_) => true,
        }
    }
}

impl Dir {
    /// The root directory of `vfat`: named "/", at the root directory
    /// cluster, with zeroed metadata.
    pub fn root<D: BlockDevice>(vfat: &VFat<D>) -> (d: Dir)
        ensures
            d.name@ == seq!['/'],
            d.first_cluster == vfat.root_dir_cluster,
            d.metadata.attributes@ == 0,
            d.metadata.created.date@ == 0 && d.metadata.created.time@ == 0,
            d.metadata.accessed.date@ == 0 && d.metadata.accessed.time@ == 0,
            d.metadata.modified.date@ == 0 && d.metadata.modified.time@ == 0,
    {
        let slash = vec!['/'];
        Dir {
            name: string_from_chars(slash.as_slice()),
            first_cluster: vfat.root_dir_cluster,
            metadata: Metadata::default(),
        }
    }

    /// An iterator over the entries of this directory: its cluster chain
    /// is read from the file system.
    ///
    /// # Errors
    ///
    /// The errors of reading the chain.
    pub fn entries<D: BlockDevice>(&self, vfat: &mut VFat<D>) -> (r: Result<VFatIterator, IoError>)
        requires
            old(vfat).geometry_ok(),
            old(vfat).chain_ends(self.first_cluster@ as int),
            old(vfat).chain_fuel(self.first_cluster@ as int) * old(vfat).cluster_size()
                <= usize::MAX,
        ensures
            same_sectors(final(vfat).device, old(vfat).device),
            final(vfat).bytes_per_sector == old(vfat).bytes_per_sector,
            final(vfat).sectors_per_cluster == old(vfat).sectors_per_cluster,
            final(vfat).sectors_per_fat == old(vfat).sectors_per_fat,
            final(vfat).fat_start_sector == old(vfat).fat_start_sector,
            final(vfat).data_start_sector == old(vfat).data_start_sector,
            final(vfat).root_dir_cluster == old(vfat).root_dir_cluster,
            match old(vfat).chain_result(self.first_cluster@ as int) {
                Ok(d) => r matches Ok(it) && it.spec_data() == d && it.spec_pos() == 0,
                Err(e) => r matches Err(x) && x == e,
            },
    {
        let mut buf: Vec<u8> = Vec::new();
        match vfat.read_chain(self.first_cluster, &mut buf) {
            Ok(_) => {},
            Err(e) => {
                return Err(e);
            },
        }
        proof {
            let d = old(vfat).chain_result(self.first_cluster@ as int)->Ok_0;
            assert(buf@ =~= d);
        }
        Ok(VFatIterator::new(buf))
    }

    /// Finds the entry named `name` in `self` and returns it. Comparison is
    /// case-insensitive (ASCII).
    ///
    /// # Errors
    ///
    /// If no entry with name `name` exists in `self`, an error of `NotFound`
    /// is returned; the errors of reading the directory are returned as they
    /// come.
    pub fn find<D: BlockDevice>(&self, vfat: &mut VFat<D>, name: &str) -> (r: Result<
        Entry,
        IoError,
    >)
        requires
            old(vfat).geometry_ok(),
            old(vfat).chain_ends(self.first_cluster@ as int),
            old(vfat).chain_fuel(self.first_cluster@ as int) * old(vfat).cluster_size()
                <= usize::MAX,
            old(vfat).chain_result(self.first_cluster@ as int) matches Ok(d) ==> search(
                d,
                0,
                name@,
            ).1,
        ensures
            same_sectors(final(vfat).device, old(vfat).device),
            final(vfat).bytes_per_sector == old(vfat).bytes_per_sector,
            final(vfat).sectors_per_cluster == old(vfat).sectors_per_cluster,
            final(vfat).sectors_per_fat == old(vfat).sectors_per_fat,
            final(vfat).fat_start_sector == old(vfat).fat_start_sector,
            final(vfat).data_start_sector == old(vfat).data_start_sector,
            final(vfat).root_dir_cluster == old(vfat).root_dir_cluster,
            match old(vfat).chain_result(self.first_cluster@ as int) {
                Ok(d) => match search(d, 0, name@).0 {
                    Some((n, e)) => r matches Ok(entry) && entry_encoded(entry, n, e),
                    None => r matches Err(x) && x == IoError::NotFound,
                },
                Err(e) => r matches Err(x) && x == e,
            },
    {
        let mut it = match self.entries(vfat) {
            Ok(it) => it,
            Err(e) => {
                return Err(e);
            },
        };
        let ghost d = it.spec_data();
        let ghost goal = search(d, 0, name@);
        loop
            invariant
                it.spec_data() == d,
                old(vfat).chain_result(self.first_cluster@ as int) == Ok::<Seq<u8>, IoError>(d),
                same_sectors(vfat.device, old(vfat).device),
                vfat.bytes_per_sector == old(vfat).bytes_per_sector,
                vfat.sectors_per_cluster == old(vfat).sectors_per_cluster,
                vfat.sectors_per_fat == old(vfat).sectors_per_fat,
                vfat.fat_start_sector == old(vfat).fat_start_sector,
                vfat.data_start_sector == old(vfat).data_start_sector,
                vfat.root_dir_cluster == old(vfat).root_dir_cluster,
                0 <= it.spec_pos(),
                search(d, it.spec_pos(), name@) == goal,
                goal == search(d, 0, name@),
                goal.1,
            decreases d.len() / 32 - it.spec_pos(),
        {
            proof {
                lemma_scan_advances(d, it.spec_pos(), empty_lfn(), false);
                assert(it.next_scan() == scan(d, it.spec_pos(), empty_lfn(), false));
            }
            let ghost pos = it.spec_pos();
            match it.next() {
                None => {
                    return Err(IoError::NotFound);
                },
                Some(entry) => {
                    proof {
                        let (n, e) = scan(d, pos, empty_lfn(), false).0->0;
                        assert(entry.spec_name() == n);
                    }
                    if names_match(entry.name().as_str(), name) {
                        return Ok(entry);
                    }
                },
            }
        }
    }
}

} // verus!
