use cs140e::commands::{cat_chunk, entry_visible, list_entries, listing_line, CatChunk};
use cs140e::mbr::{Error as MbrError, MasterBootRecord};
use cs140e::traits::{BlockDevice, IoError, MemoryDevice};
use cs140e::vfat::cluster::Cluster;
use cs140e::vfat::dir::{Dir, Entry, VFatIterator};
use cs140e::vfat::ebpb::BiosParameterBlock;
use cs140e::vfat::fat::{FatEntry, Status};
use cs140e::vfat::file::SeekFrom;
use cs140e::vfat::fs::{
    canonicalize, canonicalize_from, change_dir, open, open_dir, open_file, path_components,
    Component, PathParts,
};
use cs140e::vfat::metadata::{Attributes, Date, Time};
use cs140e::vfat::vfat::VFat;
use cs140e::vfat::Error as FsError;

const DATE: u16 = (38 << 9) | (3 << 5) | 15; // 2018-03-15
const TIME: u16 = (13 << 11) | (45 << 5) | 15; // 13:45:30
const MDATE: u16 = (41 << 9) | (12 << 5) | 1; // 2021-12-01
const MTIME: u16 = (9 << 11) | (5 << 5) | 3; // 09:05:06

fn put16(s: &mut [u8], off: usize, v: u16) {
    s[off..off + 2].copy_from_slice(&v.to_le_bytes());
}

fn put32(s: &mut [u8], off: usize, v: u32) {
    s[off..off + 4].copy_from_slice(&v.to_le_bytes());
}

fn mbr_sector(kind: u8, indicator1: u8) -> Vec<u8> {
    let mut s = vec![0u8; 512];
    s[446] = 0x80;
    s[446 + 4] = kind;
    put32(&mut s, 446 + 8, 1);
    put32(&mut s, 446 + 12, 100);
    s[462] = indicator1;
    s[510] = 0x55;
    s[511] = 0xAA;
    s
}

fn ebpb_sector() -> Vec<u8> {
    let mut s = vec![0u8; 512];
    s[0] = 0xEB;
    s[1] = 0x58;
    s[2] = 0x90;
    s[3..11].copy_from_slice(b"MSWIN4.1");
    put16(&mut s, 11, 512);
    s[13] = 1;
    put16(&mut s, 14, 1);
    s[16] = 1;
    put32(&mut s, 36, 1);
    put32(&mut s, 44, 2);
    s[66] = 0x29;
    s[510] = 0x55;
    s[511] = 0xAA;
    s
}

fn entry(name: &[u8; 11], attr: u8, cluster: u32, size: u32) -> Vec<u8> {
    let mut e = vec![0u8; 32];
    e[0..11].copy_from_slice(name);
    e[11] = attr;
    put16(&mut e, 14, TIME);
    put16(&mut e, 16, DATE);
    put16(&mut e, 18, DATE);
    put16(&mut e, 20, (cluster >> 16) as u16);
    put16(&mut e, 22, MTIME);
    put16(&mut e, 24, MDATE);
    put16(&mut e, 26, cluster as u16);
    put32(&mut e, 28, size);
    e
}

fn lfn_entry(seq: u8, name: &str) -> Vec<u8> {
    let mut units: Vec<u16> = name.encode_utf16().collect();
    if units.len() < 13 {
        units.push(0);
    }
    while units.len() < 13 {
        units.push(0xFFFF);
    }
    let mut e = vec![0u8; 32];
    e[0] = seq;
    e[11] = 0x0F;
    for t in 0..13 {
        let off = if t < 5 {
            1 + 2 * t
        } else if t < 11 {
            14 + 2 * (t - 5)
        } else {
            28 + 2 * (t - 11)
        };
        put16(&mut e, off, units[t]);
    }
    e
}

fn hello_text() -> Vec<u8> {
    (0..600u32).map(|i| b'a' + (i % 26) as u8).collect()
}

fn utf8_text() -> Vec<u8> {
    let mut v = vec![b'a'; 1023];
    v.extend_from_slice(&[0xC3, 0xA9, b'b']);
    v
}

/// Sectors: 0 MBR, 1 EBPB, 2 FAT, then one sector per cluster from
/// cluster 2 (sector 3).
fn image() -> Vec<Vec<u8>> {
    let mut fat = vec![0u8; 512];
    let chain: [(usize, u32); 12] = [
        (0, 0x0FFF_FFF8),
        (1, 0x0FFF_FFFF),
        (2, 0x0FFF_FFF8),
        (3, 4),
        (4, 0x0FFF_FFFF),
        (5, 0x0FFF_FFFF),
        (6, 0x0FFF_FFFF),
        (7, 0x0FFF_FFF7),
        (8, 9),
        (9, 10),
        (10, 0x0FFF_FFFF),
        (11, 0x0FFF_FFFF),
    ];
    for (i, v) in chain.iter() {
        put32(&mut fat, 4 * i, *v);
    }

    let mut root: Vec<u8> = Vec::new();
    root.extend(entry(b"HELLO   TXT", 0x20, 3, 600));
    root.extend(lfn_entry(0x41, "long name.txt"));
    root.extend(entry(b"LONGNA~1TXT", 0x21, 0, 0));
    root.extend(entry(b"SUB        ", 0x10, 5, 0));
    root.extend(entry(b"SECRET  TXT", 0x22, 0, 0));
    root.extend(entry(b"BAD     TXT", 0x20, 7, 10));
    root.extend(entry(b"UTF8    TXT", 0x20, 8, 1026));
    root.extend(entry(b"BIN     DAT", 0x20, 11, 10));
    let mut deleted = entry(b"GONE    TXT", 0x20, 0, 0);
    deleted[0] = 0xE5;
    root.extend(deleted);
    root.resize(512, 0);

    let mut sub: Vec<u8> = Vec::new();
    sub.extend(entry(b".          ", 0x10, 5, 0));
    sub.extend(entry(b"..         ", 0x10, 2, 0));
    sub.extend(entry(b"INNER   TXT", 0x20, 6, 5));
    sub.resize(512, 0);

    let hello = hello_text();
    let mut h1 = hello[..512].to_vec();
    h1.resize(512, 0);
    let mut h2 = hello[512..].to_vec();
    h2.resize(512, 0);

    let mut inner = b"inner".to_vec();
    inner.resize(512, 0);

    let utf8 = utf8_text();
    let mut u1 = utf8[..512].to_vec();
    u1.resize(512, 0);
    let mut u2 = utf8[512..1024].to_vec();
    u2.resize(512, 0);
    let mut u3 = utf8[1024..].to_vec();
    u3.resize(512, 0);

    let mut bin = vec![0xFFu8; 10];
    bin.resize(512, 0);

    vec![
        mbr_sector(0x0C, 0x00),
        ebpb_sector(),
        fat,
        root,           // cluster 2
        h1,             // cluster 3
        h2,             // cluster 4
        sub,            // cluster 5
        inner,          // cluster 6
        vec![0u8; 512], // cluster 7
        u1,             // cluster 8
        u2,             // cluster 9
        u3,             // cluster 10
        bin,            // cluster 11
    ]
}

fn fs() -> VFat<MemoryDevice> {
    VFat::from(MemoryDevice::new(image())).unwrap()
}

fn path(absolute: bool, names: &[&str]) -> String {
    let joined = names.join("/");
    if absolute {
        format!("/{}", joined)
    } else {
        joined
    }
}

fn names(mut it: VFatIterator) -> Vec<String> {
    let mut out = Vec::new();
    while let Some(e) = it.next() {
        out.push(e.name().clone());
    }
    out
}

#[test]
fn memory_device_reads_sectors() {
    let mut dev = MemoryDevice::new(vec![vec![1, 2, 3], vec![4]]);
    let mut buf = vec![9u8; 5];
    assert_eq!(dev.read_sector(0, &mut buf), Ok(3));
    assert_eq!(buf, vec![1, 2, 3, 9, 9]);
    let mut small = vec![0u8; 2];
    assert_eq!(dev.read_sector(0, &mut small), Ok(2));
    assert_eq!(small, vec![1, 2]);
    assert_eq!(dev.read_sector(7, &mut buf), Err(IoError::Device));
}

#[test]
fn mbr_parses_partition_table() {
    let s = mbr_sector(0x0C, 0x00);
    let mbr = MasterBootRecord::parse(&s).unwrap();
    assert_eq!(mbr.partition_entries[0].indicator, 0x80);
    assert!(mbr.partition_entries[0].valid_indicator());
    assert!(mbr.partition_entries[0].partition_type.is_fat());
    assert!(!mbr.partition_entries[1].partition_type.is_fat());
    assert_eq!(mbr.partition_entries[0].relative_sector, 1);
    assert_eq!(mbr.partition_entries[0].total_sectors, 100);
    let first = mbr.first_fat32().unwrap();
    assert_eq!(first.relative_sector, 1);
}

#[test]
fn mbr_refuses_bad_signature() {
    let mut s = mbr_sector(0x0C, 0x00);
    s[511] = 0xAB;
    assert!(matches!(MasterBootRecord::parse(&s), Err(MbrError::BadSignature)));
}

#[test]
fn mbr_refuses_unknown_boot_indicator() {
    let s = mbr_sector(0x0C, 0x12);
    assert!(matches!(MasterBootRecord::parse(&s), Err(MbrError::UnknownBootIndicator(1))));
}

#[test]
fn mbr_without_fat32_partition() {
    let s = mbr_sector(0x83, 0x00);
    let mbr = MasterBootRecord::parse(&s).unwrap();
    assert!(mbr.first_fat32().is_none());
    let mut sectors = image();
    sectors[0] = s;
    assert!(matches!(VFat::from(MemoryDevice::new(sectors)), Err(FsError::NotFound)));
}

#[test]
fn mbr_read_from_device() {
    let mut dev = MemoryDevice::new(image());
    let mbr = MasterBootRecord::from(&mut dev).unwrap();
    assert_eq!(mbr.partition_entries[0].relative_sector, 1);
    let mut empty = MemoryDevice::new(vec![]);
    assert!(matches!(MasterBootRecord::from(&mut empty), Err(MbrError::Io(IoError::Device))));
    assert!(matches!(
        VFat::from(MemoryDevice::new(vec![])),
        Err(FsError::Mbr(MbrError::Io(IoError::Device)))
    ));
}

#[test]
fn ebpb_parses_fields() {
    let s = ebpb_sector();
    let b = BiosParameterBlock::parse(&s).unwrap();
    assert_eq!(b.bytes_per_sector, 512);
    assert_eq!(b.sectors_per_cluster, 1);
    assert_eq!(b.reserved_sectors, 1);
    assert_eq!(b.num_of_fat, 1);
    assert_eq!(b.sectors_per_fat, 0);
    assert_eq!(b.sectors_per_fat(), 1);
    assert_eq!(b.root_dir_cluster_number, 2);
    assert_eq!(&b.oem_identifier, b"MSWIN4.1");
    assert_eq!(b.signature, 0x29);
    assert_eq!(b.bootable_signature, 0xAA55);
}

#[test]
fn ebpb_prefers_sixteen_bit_fat_size() {
    let mut s = ebpb_sector();
    put16(&mut s, 22, 7);
    let b = BiosParameterBlock::parse(&s).unwrap();
    assert_eq!(b.sectors_per_fat(), 7);
}

#[test]
fn ebpb_refuses_bad_signature() {
    let mut s = ebpb_sector();
    s[510] = 0;
    assert!(matches!(BiosParameterBlock::parse(&s), Err(FsError::BadSignature)));
    let mut sectors = image();
    sectors[1] = s;
    assert!(matches!(VFat::from(MemoryDevice::new(sectors)), Err(FsError::BadSignature)));
}

#[test]
fn ebpb_read_from_device() {
    let mut dev = MemoryDevice::new(image());
    let b = BiosParameterBlock::from(&mut dev, 1).unwrap();
    assert_eq!(b.root_dir_cluster_number, 2);
}

#[test]
fn metadata_fields() {
    let d = Date::from_raw(DATE);
    assert_eq!((d.year(), d.month(), d.day()), (2018, 3, 15));
    let t = Time::from_raw(TIME);
    assert_eq!((t.hour(), t.minute(), t.second()), (13, 45, 30));
    let midnight = Time::new();
    assert_eq!((midnight.hour(), midnight.minute(), midnight.second()), (0, 0, 0));
    let a = Attributes::from_raw(0x23);
    assert!(a.read_only() && a.hidden() && a.archive());
    assert!(!a.system() && !a.volume_id() && !a.directory() && !a.lfn());
    assert!(Attributes::from_raw(0x0F).lfn());
    assert!(Attributes::from_raw(0x10).directory());
}

#[test]
fn clusters_keep_low_28_bits() {
    assert_eq!(Cluster::from(0xF000_0005).cluster_index(), 5);
    assert_eq!(Cluster::from(17).cluster_index(), 17);
}

#[test]
fn fat_entry_status() {
    assert_eq!(FatEntry(0).status(), Status::Free);
    assert_eq!(FatEntry(1).status(), Status::Reserved);
    assert_eq!(FatEntry(0x0FFF_FFF3).status(), Status::Reserved);
    assert_eq!(FatEntry(0x0FFF_FFF7).status(), Status::Bad);
    assert_eq!(FatEntry(0xFFFF_FFFF).status(), Status::Eoc(0xFFFF_FFFF));
    match FatEntry(0xA000_0009).status() {
        Status::Data(c) => assert_eq!(c.cluster_index(), 9),
        other => panic!("unexpected {:?}", other),
    }
}

#[test]
fn vfat_reads_a_chain() {
    let mut v = fs();
    let mut buf = Vec::new();
    assert_eq!(v.read_chain(Cluster::from(3), &mut buf), Ok(1024));
    assert_eq!(&buf[..600], &hello_text()[..]);
    let mut more = vec![7u8; 3];
    assert_eq!(v.read_chain(Cluster::from(6), &mut more), Ok(512));
    // the buffer grows by a cluster, and the chain is read from its front
    assert_eq!(more.len(), 515);
    assert_eq!(&more[..5], b"inner");
    assert_eq!(&more[512..], &[0, 0, 0]);
}

#[test]
fn vfat_chain_with_bad_cluster() {
    let mut v = fs();
    let mut buf = Vec::new();
    assert_eq!(v.read_chain(Cluster::from(7), &mut buf), Err(IoError::InvalidData));
}

#[test]
fn root_directory_lists_entries() {
    let mut v = fs();
    let root = Dir::root(&v);
    assert_eq!(root.name, "/");
    let it = root.entries(&mut v).unwrap();
    assert_eq!(
        names(it),
        vec!["HELLO.TXT", "long name.txt", "SUB", "SECRET.TXT", "BAD.TXT", "UTF8.TXT", "BIN.DAT"]
    );
}

#[test]
fn find_ignores_ascii_case() {
    let mut v = fs();
    let root = Dir::root(&v);
    match root.find(&mut v, "hello.TXT").unwrap() {
        Entry::File(f) => {
            assert_eq!(f.name(), "HELLO.TXT");
            assert_eq!(f.size(), 600);
        }
        Entry::Dir(_) => panic!("expected a file"),
    }
    assert!(root.find(&mut v, "LONG NAME.TXT").unwrap().is_dir() == false);
    assert!(matches!(root.find(&mut v, "nothing"), Err(IoError::NotFound)));
}

#[test]
fn open_walks_paths() {
    let mut v = fs();
    match open(&mut v, &path(true, &["SUB", "inner.txt"])).unwrap() {
        Entry::File(f) => assert_eq!(f.size(), 5),
        Entry::Dir(_) => panic!("expected a file"),
    }
    let root = open(&mut v, &path(true, &[])).unwrap();
    assert!(root.is_dir());
    assert_eq!(root.name(), "/");
    let parent = open(&mut v, &path(true, &["sub", ".."])).unwrap();
    assert!(parent.is_dir());
    assert!(matches!(open(&mut v, &path(true, &["hello.txt", "x"])), Err(IoError::NotFound)));
    assert!(matches!(open(&mut v, &path(true, &["missing"])), Err(IoError::NotFound)));
}

#[test]
fn open_dir_and_open_file_check_the_kind() {
    let mut v = fs();
    let sub = open_dir(&mut v, &path(true, &["sub"])).unwrap();
    assert_eq!(names(sub.entries(&mut v).unwrap()), vec![".", "..", "INNER.TXT"]);
    assert!(matches!(open_dir(&mut v, &path(true, &["hello.txt"])), Err(IoError::Other)));
    assert!(open_file(&mut v, &path(true, &["hello.txt"])).is_ok());
    assert!(matches!(open_file(&mut v, &path(true, &["sub"])), Err(IoError::Other)));
}

#[test]
fn file_reads_and_seeks() {
    let mut v = fs();
    let mut f = open_file(&mut v, &path(true, &["HELLO.TXT"])).unwrap();
    let mut buf = vec![0u8; 100];
    assert_eq!(f.read(&mut v, &mut buf), Ok(100));
    assert_eq!(&buf[..], &hello_text()[..100]);
    assert_eq!(f.seek(SeekFrom::Start(590)), Ok(590));
    let mut big = vec![0u8; 1024];
    assert_eq!(f.read(&mut v, &mut big), Ok(10));
    assert_eq!(&big[..10], &hello_text()[590..]);
    assert_eq!(f.read(&mut v, &mut big), Ok(0));
    assert_eq!(f.seek(SeekFrom::End(0)), Ok(600));
    assert_eq!(f.seek(SeekFrom::End(1)), Err(IoError::InvalidInput));
    assert_eq!(f.seek(SeekFrom::Current(-600)), Ok(0));
    assert_eq!(f.seek(SeekFrom::Current(-1)), Err(IoError::InvalidInput));
    assert_eq!(f.seek(SeekFrom::Start(601)), Err(IoError::InvalidInput));
    assert_eq!(f.write(b"x"), Ok(0));
    assert_eq!(f.flush(), Ok(()));
    assert_eq!(f.sync(), Ok(()));
}

#[test]
fn canonical_paths() {
    let p = canonicalize(&path(true, &["a", "b", "..", "c"])).unwrap();
    assert!(p.absolute);
    assert_eq!(p.parts, vec!["a", "c"]);
    assert_eq!(p.to_text(), "/a/c");
    let top = canonicalize(&path(true, &["..", ".."])).unwrap();
    assert_eq!(top.to_text(), "/");
    let rel = canonicalize(&path(false, &["x", "y"])).unwrap();
    assert!(!rel.absolute);
    assert_eq!(rel.to_text(), "x/y");
    // `.` inside a path is no component; a leading `.` is, and is refused
    assert_eq!(canonicalize("/a/./b/.").unwrap().to_text(), "/a/b");
    assert!(matches!(canonicalize("./a"), Err(IoError::InvalidInput)));
    assert!(matches!(canonicalize("."), Err(IoError::InvalidInput)));
    assert_eq!(canonicalize("a/../../b").unwrap().to_text(), "b");
    assert_eq!(canonicalize("//a//b/").unwrap().to_text(), "/a/b");
}

#[test]
fn path_components_as_std_splits_them() {
    let cases = [
        "", "/", "//", "a", "/a/b", "a/b/", "a//b", "./a", "././a", ".", "..", "/..", "/./a",
        "a/./b", "a/../b", ".//x", "x/.", "..a/.b/...", " /sp ace",
    ];
    for case in cases.iter() {
        let ours: Vec<String> = path_components(case)
            .iter()
            .map(|c| match c {
                Component::RootDir => "/".to_string(),
                Component::CurDir => ".".to_string(),
                Component::ParentDir => "..".to_string(),
                Component::Normal(n) => format!("n:{}", n),
            })
            .collect();
        let std_parts: Vec<String> = std::path::Path::new(case)
            .components()
            .map(|c| match c {
                std::path::Component::RootDir => "/".to_string(),
                std::path::Component::CurDir => ".".to_string(),
                std::path::Component::ParentDir => "..".to_string(),
                std::path::Component::Normal(n) => format!("n:{}", n.to_str().unwrap()),
                std::path::Component::Prefix(_) => "prefix".to_string(),
            })
            .collect();
        assert_eq!(ours, std_parts, "{:?}", case);
    }
}

#[test]
fn canonicalizing_twice_changes_nothing() {
    let once = canonicalize(&path(true, &["a", "..", "b", "c", ".."])).unwrap();
    let twice = canonicalize(&once.to_text()).unwrap();
    assert_eq!(twice.absolute, once.absolute);
    assert_eq!(twice.parts, once.parts);
}

#[test]
fn change_dir_follows_directories_only() {
    let mut v = fs();
    let root = PathParts { absolute: true, parts: vec![] };
    let sub = change_dir(&mut v, &root, &path(false, &["sub"])).unwrap();
    assert_eq!(sub.to_text(), "/sub");
    let back = change_dir(&mut v, &sub, &path(false, &[".."])).unwrap();
    assert_eq!(back.to_text(), "/");
    assert!(change_dir(&mut v, &root, &path(false, &["hello.txt"])).is_none());
    assert!(change_dir(&mut v, &root, &path(false, &["nowhere"])).is_none());
    let same = change_dir(&mut v, &sub, &path(false, &["."])).unwrap();
    assert_eq!(same.to_text(), "/sub");
}

#[test]
fn listing_lines() {
    let mut v = fs();
    let root = Dir::root(&v);
    let hello = root.find(&mut v, "HELLO.TXT").unwrap();
    assert_eq!(
        listing_line(&hello),
        "-wv\t2018/03/15 13:45:30\t2021/12/01 09:05:06\t600\tHELLO.TXT"
    );
    let sub = root.find(&mut v, "SUB").unwrap();
    assert_eq!(
        listing_line(&sub),
        "dwv\t2018/03/15 13:45:30\t2021/12/01 09:05:06\t0\tSUB/"
    );
    let long = root.find(&mut v, "long name.txt").unwrap();
    assert_eq!(
        listing_line(&long),
        "-rv\t2018/03/15 13:45:30\t2021/12/01 09:05:06\t0\tlong name.txt"
    );
    let root_entry = Entry::Dir(Dir::root(&v));
    assert_eq!(
        listing_line(&root_entry),
        "dwv\t1980/00/00 00:00:00\t1980/00/00 00:00:00\t0\t//"
    );
}

#[test]
fn hidden_and_dot_entries_are_listed_with_all_only() {
    let mut v = fs();
    let root = Dir::root(&v);
    let secret = root.find(&mut v, "secret.txt").unwrap();
    assert!(!entry_visible(&secret, false));
    assert!(entry_visible(&secret, true));
    let sub = open_dir(&mut v, &path(true, &["sub"])).unwrap();
    let dot = sub.find(&mut v, ".").unwrap();
    let dotdot = sub.find(&mut v, "..").unwrap();
    let inner = sub.find(&mut v, "inner.txt").unwrap();
    assert!(!entry_visible(&dot, false));
    assert!(!entry_visible(&dotdot, false));
    assert!(entry_visible(&inner, false));
    assert!(entry_visible(&dot, true));
}

#[test]
fn cat_keeps_characters_whole() {
    let mut v = fs();
    let mut f = open_file(&mut v, &path(true, &["utf8.txt"])).unwrap();
    match cat_chunk(&mut f, &mut v).unwrap() {
        CatChunk::Text(t) => assert_eq!(t, "a".repeat(1023)),
        other => panic!("unexpected {:?}", other),
    }
    match cat_chunk(&mut f, &mut v).unwrap() {
        CatChunk::Text(t) => assert_eq!(t, "éb"),
        other => panic!("unexpected {:?}", other),
    }
    assert!(matches!(cat_chunk(&mut f, &mut v).unwrap(), CatChunk::End));
}

#[test]
fn cat_refuses_invalid_text() {
    let mut v = fs();
    let mut f = open_file(&mut v, &path(true, &["bin.dat"])).unwrap();
    assert!(matches!(cat_chunk(&mut f, &mut v).unwrap(), CatChunk::Invalid));
    assert!(matches!(cat_chunk(&mut f, &mut v).unwrap(), CatChunk::End));
}

#[test]
fn cat_reports_read_errors() {
    let mut v = fs();
    let mut f = open_file(&mut v, &path(true, &["bad.txt"])).unwrap();
    assert!(matches!(cat_chunk(&mut f, &mut v), Err(IoError::InvalidData)));
}

#[test]
fn joining_then_canonicalizing_starts_from_the_directory() {
    let cwd = canonicalize("/a/b").unwrap();
    for arg in ["c/../d", "../..", "/x", "e/./f"] {
        let joined = std::path::Path::new(&cwd.to_text()).join(arg);
        let whole = canonicalize(joined.to_str().unwrap()).unwrap();
        let from = canonicalize_from(cwd.duplicate(), arg).unwrap();
        assert_eq!(whole.to_text(), from.to_text());
    }
}

#[test]
fn device_errors_come_through() {
    // the last cluster (bin.dat's) lies past the end of a truncated image
    let mut sectors = image();
    sectors.pop();
    let mut v = VFat::from(MemoryDevice::new(sectors)).unwrap();
    let mut f = open_file(&mut v, "/bin.dat").unwrap();
    assert!(matches!(cat_chunk(&mut f, &mut v), Err(IoError::Device)));
    let mut buf = Vec::new();
    assert_eq!(v.read_chain(Cluster::from(11), &mut buf), Err(IoError::Device));
    assert!(matches!(open(&mut v, "/bin.dat/x"), Err(IoError::NotFound)));
}

#[test]
fn open_takes_path_text() {
    let mut v = fs();
    // empty pieces and `.` are no components
    match open(&mut v, "//sub/./inner.txt/").unwrap() {
        Entry::File(f) => assert_eq!(f.size(), 5),
        Entry::Dir(_) => panic!("expected a file"),
    }
    // a relative path is walked from the root directory too
    assert!(open(&mut v, "sub").unwrap().is_dir());
    assert!(open_dir(&mut v, "sub/..").is_ok());
}

#[test]
fn seek_position_can_be_used_again_after_reads() {
    let mut v = fs();
    let mut f = open_file(&mut v, &path(true, &["HELLO.TXT"])).unwrap();
    let x = f.seek(SeekFrom::End(-37)).unwrap();
    assert_eq!(x, 563);
    let mut buf = vec![0u8; 20];
    assert_eq!(f.read(&mut v, &mut buf), Ok(20));
    assert_eq!(f.seek(SeekFrom::Current(-500)), Ok(83));
    assert_eq!(f.read(&mut v, &mut buf), Ok(20));
    assert_eq!(f.seek(SeekFrom::Start(x)), Ok(x));
    assert_eq!(f.read(&mut v, &mut buf), Ok(20));
    assert_eq!(&buf[..], &hello_text()[563..583]);
}

#[test]
fn canonical_text_canonicalizes_to_itself() {
    for case in ["/a/b/../c", "a/../../b", "//a//b/", "/..", "", "x/y/./z/", "..a/.b/..."] {
        let once = canonicalize(case).unwrap();
        let text = once.to_text();
        let twice = canonicalize(&text).unwrap();
        assert_eq!(twice.absolute, once.absolute);
        assert_eq!(twice.parts, once.parts);
        assert_eq!(twice.to_text(), text);
    }
}

#[test]
fn ls_lists_visible_entries_in_directory_order() {
    let mut v = fs();
    let root = Dir::root(&v);
    let (lines, malformed) = list_entries(root.entries(&mut v).unwrap(), false);
    assert!(!malformed);
    let stamps = "2018/03/15 13:45:30\t2021/12/01 09:05:06";
    assert_eq!(
        lines,
        vec![
            format!("-wv\t{}\t600\tHELLO.TXT", stamps),
            format!("-rv\t{}\t0\tlong name.txt", stamps),
            format!("dwv\t{}\t0\tSUB/", stamps),
            format!("-wv\t{}\t10\tBAD.TXT", stamps),
            format!("-wv\t{}\t1026\tUTF8.TXT", stamps),
            format!("-wv\t{}\t10\tBIN.DAT", stamps),
        ]
    );
    let (all_lines, _) = list_entries(root.entries(&mut v).unwrap(), true);
    assert_eq!(all_lines.len(), 7);
    assert_eq!(all_lines[3], format!("-wh\t{}\t0\tSECRET.TXT", stamps));
    let sub = open_dir(&mut v, &path(true, &["sub"])).unwrap();
    let (sub_lines, _) = list_entries(sub.entries(&mut v).unwrap(), false);
    assert_eq!(sub_lines, vec![format!("-wv\t{}\t5\tINNER.TXT", stamps)]);
    let (sub_all, _) = list_entries(sub.entries(&mut v).unwrap(), true);
    assert_eq!(sub_all.len(), 3);
    assert_eq!(sub_all[0], format!("dwv\t{}\t0\t./", stamps));
}

#[test]
fn ls_stops_at_a_malformed_long_name_entry() {
    let mut data: Vec<u8> = Vec::new();
    data.extend(entry(b"A       TXT", 0x20, 0, 1));
    data.extend(lfn_entry(0x40, "x"));
    data.extend(entry(b"B       TXT", 0x20, 0, 2));
    let (lines, malformed) = list_entries(VFatIterator::new(data), false);
    assert!(malformed);
    assert_eq!(lines.len(), 1);
    assert!(lines[0].ends_with("\t1\tA.TXT"));
}

#[test]
fn read_chain_failure_leaves_what_was_written() {
    // a cluster that cannot be read: the buffer grew by one cluster and
    // nothing of it was written
    let mut sectors = image();
    sectors.pop();
    let mut v = VFat::from(MemoryDevice::new(sectors)).unwrap();
    let mut buf = vec![1u8, 2, 3];
    assert_eq!(v.read_chain(Cluster::from(11), &mut buf), Err(IoError::Device));
    let mut expect = vec![1u8, 2, 3];
    expect.resize(515, 0);
    assert_eq!(buf, expect);
    // a bad cluster mark after a cluster read whole: that cluster was
    // written over the front of the buffer
    let mut v = fs();
    let mut buf = vec![9u8, 9];
    assert_eq!(v.read_chain(Cluster::from(7), &mut buf), Err(IoError::InvalidData));
    assert_eq!(buf, vec![0u8; 514]);
    // the file's first cluster read whole, then an unreadable second one
    let mut sectors = image();
    sectors.truncate(5);
    let mut v = VFat::from(MemoryDevice::new(sectors)).unwrap();
    let mut buf = Vec::new();
    assert_eq!(v.read_chain(Cluster::from(3), &mut buf), Err(IoError::Device));
    assert_eq!(buf.len(), 1024);
    assert_eq!(&buf[..512], &hello_text()[..512]);
    assert_eq!(&buf[512..], &[0u8; 512][..]);
}
