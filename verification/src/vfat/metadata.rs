use vstd::prelude::*;

verus! {

/// A date as represented in FAT32 on-disk structures.
///
/// Bits 15-9 hold the year minus 1980, bits 8-5 the month and bits 4-0 the
/// day.
#[derive(Copy, Clone, Debug, PartialEq, Eq, Structural)]
pub struct Date(u16);

impl View for Date {
    type V = u16;

    closed spec fn view(&self) -> u16 {
        self.0
    }
}

impl Default for Date {
    fn default() -> (d: Date)
        ensures
            d@ == 0,
    {
        Date(0)
    }
}

impl Date {
    /// The date whose on-disk encoding is `raw`.
    pub fn from_raw(raw: u16) -> (d: Date)
        ensures
            d@ == raw,
    {
        Date(raw)
    }

    /// The year: bits 15-9 plus 1980.
    pub fn year(&self) -> (y: usize)
        ensures
            y == self@ / 512 + 1980,
    {
        let v = self.0;
        assert((v >> 9u16) as usize & 0x7fusize == v / 512) by (bit_vector);
        ((self.0 >> 9) as usize & 0b1111111) + 1980
    }

    /// The month: bits 8-5.
    pub fn month(&self) -> (m: u8)
        ensures
            m == (self@ / 32) % 16,
    {
        let v = self.0;
        assert((v >> 5u16) as u8 & 0xfu8 == (v / 32) % 16) by (bit_vector);
        (self.0 >> 5) as u8 & 0b1111
    }

    /// The day: bits 4-0.
    pub fn day(&self) -> (d: u8)
        ensures
            d == self@ % 32,
    {
        let v = self.0;
        assert(v as u8 & 0x1fu8 == v % 32) by (bit_vector);
        self.0 as u8 & 0b11111
    }
}

/// Time as represented in FAT32 on-disk structures.
///
/// Bits 15-11 hold the hour, bits 10-5 the minute and bits 4-0 the second
/// divided by two.
#[derive(Copy, Clone, Debug, PartialEq, Eq, Structural)]
pub struct Time(u16);

impl View for Time {
    type V = u16;

    closed spec fn view(&self) -> u16 {
        self.0
    }
}

impl Default for Time {
    fn default() -> (t: Time)
        ensures
            t@ == 0,
    {
        Time(0)
    }
}

impl Time {
    /// The time whose on-disk encoding is zero (midnight).
    pub fn new() -> (t: Time)
        ensures
            t@ == 0,
    {
        Time(0)
    }

    /// The time whose on-disk encoding is `raw`.
    pub fn from_raw(raw: u16) -> (t: Time)
        ensures
            t@ == raw,
    {
        Time(raw)
    }

    /// The hour: bits 15-11.
    pub fn hour(&self) -> (h: u8)
        ensures
            h == self@ / 2048,
    {
        let v = self.0;
        assert((v >> 11u16) as u8 & 0x1fu8 == v / 2048) by (bit_vector);
        (self.0 >> 11) as u8 & 0b11111
    }

    /// The minute: bits 10-5.
    pub fn minute(&self) -> (m: u8)
        ensures
            m == (self@ / 32) % 64,
    {
        let v = self.0;
        assert((v >> 5u16) as u8 & 0x3fu8 == (v / 32) % 64) by (bit_vector);
        (self.0 >> 5) as u8 & 0b111111
    }

    /// The second: bits 4-0 times two.
    pub fn second(&self) -> (s: u8)
        ensures
            s == (self@ % 32) * 2,
    {
        let v = self.0;
        assert(v as u8 & 0x1fu8 == v % 32) by (bit_vector);
        ((self.0 as u8) & 0b11111) * 2
    }
}

/// The attribute bit of a read-only entry.
pub const READ_ONLY: u8 = 0x01;

/// The attribute bit of a hidden entry.
pub const HIDDEN: u8 = 0x02;

/// The attribute bit of a system entry.
pub const SYSTEM: u8 = 0x04;

/// The attribute bit of a volume label entry.
pub const VOLUME_ID: u8 = 0x08;

/// The attribute bit of a directory entry.
pub const DIRECTORY: u8 = 0x10;

/// The attribute bit of an entry to archive.
pub const ARCHIVE: u8 = 0x20;

/// The attribute byte of a long file name entry:
/// READ_ONLY | HIDDEN | SYSTEM | VOLUME_ID.
pub const LFN: u8 = 0x0f;

/// Whether bit `mask` is set in `byte`, over integers.
pub open spec fn has_bit(byte: u8, mask: u8) -> bool {
    byte & mask != 0
}

/// File attributes as represented in FAT32 on-disk structures.
#[derive(Copy, Clone, Debug, PartialEq, Eq, Structural)]
pub struct Attributes(u8);

impl View for Attributes {
    type V = u8;

    closed spec fn view(&self) -> u8 {
        self.0
    }
}

impl Default for Attributes {
    fn default() -> (a: Attributes)
        ensures
            a@ == 0,
    {
        Attributes(0)
    }
}

impl Attributes {
    /// The attributes whose on-disk encoding is `raw`.
    pub fn from_raw(raw: u8) -> (a: Attributes)
        ensures
            a@ == raw,
    {
        Attributes(raw)
    }

    /// Whether this is the attribute byte of a long file name entry: exactly
    /// READ_ONLY | HIDDEN | SYSTEM | VOLUME_ID.
    pub fn lfn(&self) -> (b: bool)
        ensures
            b == (self@ == LFN),
    {
        self.0 == LFN
    }

    /// Whether the READ_ONLY bit is set.
    pub fn read_only(&self) -> (b: bool)
        ensures
            b == has_bit(self@, READ_ONLY),
    {
        (self.0 & READ_ONLY) != 0
    }

    /// Whether the HIDDEN bit is set.
    pub fn hidden(&self) -> (b: bool)
        ensures
            b == has_bit(self@, HIDDEN),
    {
        (self.0 & HIDDEN) != 0
    }

    /// Whether the SYSTEM bit is set.
    pub fn system(&self) -> (b: bool)
        ensures
            b == has_bit(self@, SYSTEM),
    {
        (self.0 & SYSTEM) != 0
    }

    /// Whether the VOLUME_ID bit is set.
    pub fn volume_id(&self) -> (b: bool)
        ensures
            b == has_bit(self@, VOLUME_ID),
    {
        (self.0 & VOLUME_ID) != 0
    }

    /// Whether the DIRECTORY bit is set.
    pub fn directory(&self) -> (b: bool)
        ensures
            b == has_bit(self@, DIRECTORY),
    {
        (self.0 & DIRECTORY) != 0
    }

    /// Whether the ARCHIVE bit is set.
    pub fn archive(&self) -> (b: bool)
        ensures
            b == has_bit(self@, ARCHIVE),
    {
        (self.0 & ARCHIVE) != 0
    }
}

/// A structure containing a date and time.
#[derive(Copy, Clone, Debug, PartialEq, Eq, Structural)]
pub struct Timestamp {
    pub date: Date,
    pub time: Time,
}

impl Default for Timestamp {
    fn default() -> (t: Timestamp)
        ensures
            t.date@ == 0,
            t.time@ == 0,
    {
        Timestamp { date: Date(0), time: Time(0) }
    }
}

impl Timestamp {
    /// The calendar year.
    pub fn year(&self) -> (y: usize)
        ensures
            y == self.date@ / 512 + 1980,
    {
        self.date.year()
    }

    /// The month of the year.
    pub fn month(&self) -> (m: u8)
        ensures
            m == (self.date@ / 32) % 16,
    {
        self.date.month()
    }

    /// The day of the month.
    pub fn day(&self) -> (d: u8)
        ensures
            d == self.date@ % 32,
    {
        self.date.day()
    }

    /// The hour of the day.
    pub fn hour(&self) -> (h: u8)
        ensures
            h == self.time@ / 2048,
    {
        self.time.hour()
    }

    /// The minute of the hour.
    pub fn minute(&self) -> (m: u8)
        ensures
            m == (self.time@ / 32) % 64,
    {
        self.time.minute()
    }

    /// The second of the minute.
    pub fn second(&self) -> (s: u8)
        ensures
            s == (self.time@ % 32) * 2,
    {
        self.time.second()
    }
}

/// Metadata for a directory entry.
#[derive(Copy, Clone, Debug, PartialEq, Eq, Structural)]
pub struct Metadata {
    pub attributes: Attributes,
    pub created: Timestamp,
    pub accessed: Timestamp,
    pub modified: Timestamp,
}

impl Default for Metadata {
    fn default() -> (m: Metadata)
        ensures
            m.attributes@ == 0,
            m.created.date@ == 0 && m.created.time@ == 0,
            m.accessed.date@ == 0 && m.accessed.time@ == 0,
            m.modified.date@ == 0 && m.modified.time@ == 0,
    {
        Metadata {
            attributes: Attributes(0),
            created: Timestamp::default(),
            accessed: Timestamp::default(),
            modified: Timestamp::default(),
        }
    }
}

impl Metadata {
    /// Whether the entry is read-only.
    pub fn read_only(&self) -> (b: bool)
        ensures
            b == has_bit(self.attributes@, READ_ONLY),
    {
        self.attributes.read_only()
    }

    /// Whether the entry is hidden.
    pub fn hidden(&self) -> (b: bool)
        ensures
            b == has_bit(self.attributes@, HIDDEN),
    {
        self.attributes.hidden()
    }

    /// The creation timestamp.
    pub fn created(&self) -> (t: Timestamp)
        ensures
            t == self.created,
    {
        self.created
    }

    /// The last access timestamp (the date only; the time is midnight).
    pub fn accessed(&self) -> (t: Timestamp)
        ensures
            t == self.accessed,
    {
        self.accessed
    }

    /// The last modification timestamp.
    pub fn modified(&self) -> (t: Timestamp)
        ensures
            t == self.modified,
    {
        self.modified
    }
}

} // verus!
