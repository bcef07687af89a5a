use vstd::prelude::*;
use vstd::utf8::{decode_utf8, valid_utf8};

use crate::text::{str_chars, str_from_utf8, string_from_chars};
use crate::traits::{same_sectors, BlockDevice, IoError};
use crate::vfat::dir::{empty_lfn, entry_encoded, lemma_scan_advances, scan, Entry, VFatIterator};
use crate::vfat::file::{read_len, File, SeekFrom};
use crate::vfat::metadata::{has_bit, Metadata, Timestamp, HIDDEN, READ_ONLY};
use crate::vfat::vfat::VFat;

verus! {

/// The character of decimal digit `d`.
pub open spec fn digit_char(d: int) -> char {
    ((48 + d) as u8) as char
}

/// The decimal digits of `n`, without leading zeros ("0" for zero).
pub open spec fn dec(n: nat) -> Seq<char>
    decreases n,
{
    if n < 10 {
        seq![digit_char(n as int)]
    } else {
        dec(n / 10).push(digit_char((n % 10) as int))
    }
}

/// The decimal digits of `n`, padded on the left with zeros to `w`
/// characters, as the format `{:0>w}` writes them.
pub open spec fn padded(n: nat, w: nat) -> Seq<char> {
    Seq::new(
        if dec(n).len() < w {
            (w - dec(n).len()) as nat
        } else {
            0
        },
        |i: int| '0',
    ) + dec(n)
}

/// A timestamp as `ls` shows it: `YYYY/MM/DD hh:mm:ss`.
pub open spec fn stamp_text(t: Timestamp) -> Seq<char> {
    padded((t.date@ / 512 + 1980) as nat, 4) + seq!['/'] + padded(((t.date@ / 32) % 16) as nat, 2)
        + seq!['/'] + padded((t.date@ % 32) as nat, 2) + seq![' '] + padded(
        (t.time@ / 2048) as nat,
        2,
    ) + seq![':'] + padded(((t.time@ / 32) % 64) as nat, 2) + seq![':'] + padded(
        ((t.time@ % 32) * 2) as nat,
        2,
    )
}

/// The metadata of an entry.
pub open spec fn entry_metadata(e: Entry) -> Metadata {
    match e {
        Entry::File(f) => f.spec_metadata(),
        Entry::Dir(d) => d.metadata,
    }
}

/// The line `ls` shows for an entry: `d` or `-`, `r` (read-only) or `w`,
/// `h` (hidden) or `v`; a tab; the creation and modification timestamps,
/// each followed by a tab; then `0`, a tab and the name with a `/` for a
/// directory, or the size, a tab and the name for a file.
pub open spec fn listing(e: Entry) -> Seq<char> {
    let m = entry_metadata(e);
    seq![
        if e is Dir {
            'd'
        } else {
            '-'
        },
        if has_bit(m.attributes@, READ_ONLY) {
            'r'
        } else {
            'w'
        },
        if has_bit(m.attributes@, HIDDEN) {
            'h'
        } else {
            'v'
        },
        '\t',
    ] + stamp_text(m.created) + seq!['\t'] + stamp_text(m.modified) + seq!['\t'] + match e {
        Entry::Dir(d) => seq!['0', '\t'] + d.name@ + seq!['/'],
        Entry::File(f) => dec(f.spec_size() as nat) + seq!['\t'] + f.spec_name(),
    }
}

/// Whether `ls` shows an entry: always with `-a`; otherwise only when it is
/// not hidden and not named `.` or `..`.
pub open spec fn visible(e: Entry, all: bool) -> bool {
    all || !(has_bit(entry_metadata(e).attributes@, HIDDEN) || e.spec_name() == seq!['.']
        || e.spec_name() == seq!['.', '.'])
}

/// Appends the decimal digits of `n`.
fn push_dec(out: &mut Vec<char>, n: u64)
    ensures
        final(out)@ == old(out)@ + dec(n as nat),
    decreases n,
{
    if n >= 10 {
        push_dec(out, n / 10);
    }
    let d: u8 = (n % 10) as u8;
    out.push((48u8 + d) as char);
    proof {
        if n >= 10 {
            assert(final(out)@ =~= old(out)@ + dec(n as nat));
        } else {
            assert(final(out)@ =~= old(out)@ + dec(n as nat));
        }
    }
}

/// Appends `n` as `padded(n, width)` writes it.
fn push_padded(out: &mut Vec<char>, n: u64, width: usize)
    ensures
        final(out)@ == old(out)@ + padded(n as nat, width as nat),
{
    let mut digits: Vec<char> = Vec::new();
    push_dec(&mut digits, n);
    proof {
        assert(digits@ =~= dec(n as nat));
    }
    let ghost start = out@;
    let mut k: usize = digits.len();
    while k < width
        invariant
            digits@ == dec(n as nat),
            digits@.len() <= k <= (if digits@.len() <= width {
                width as int
            } else {
                digits@.len() as int
            }),
            out@ == start + Seq::new((k - digits@.len()) as nat, |i: int| '0'),
        decreases width - k,
    {
        out.push('0');
        k = k + 1;
        proof {
            assert(out@ =~= start + Seq::new((k - digits@.len()) as nat, |i: int| '0'));
        }
    }
    let ghost zeros = out@;
    let mut i: usize = 0;
    while i < digits.len()
        invariant
            i <= digits@.len(),
            out@ == zeros + digits@.subrange(0, i as int),
        decreases digits@.len() - i,
    {
        out.push(digits[i]);
        i = i + 1;
        proof {
            assert(out@ =~= zeros + digits@.subrange(0, i as int));
        }
    }
    proof {
        assert(digits@.subrange(0, digits@.len() as int) =~= digits@);
        assert(out@ =~= start + padded(n as nat, width as nat));
    }
}

/// Appends the characters of `s`.
fn push_chars(out: &mut Vec<char>, s: &str)
    ensures
        final(out)@ == old(out)@ + s@,
{
    let cs = str_chars(s);
    let ghost start = out@;
    let mut i: usize = 0;
    while i < cs.len()
        invariant
            i <= cs@.len(),
            cs@ == s@,
            out@ == start + cs@.subrange(0, i as int),
        decreases cs@.len() - i,
    {
        out.push(cs[i]);
        i = i + 1;
        proof {
            assert(out@ =~= start + cs@.subrange(0, i as int));
        }
    }
    proof {
        assert(cs@.subrange(0, cs@.len() as int) =~= cs@);
    }
}

/// Appends a timestamp as `stamp_text` writes it.
fn push_stamp(out: &mut Vec<char>, t: Timestamp)
    ensures
        final(out)@ == old(out)@ + stamp_text(t),
{
    let ghost start = out@;
    push_padded(out, t.year() as u64, 4);
    out.push('/');
    push_padded(out, t.month() as u64, 2);
    out.push('/');
    push_padded(out, t.day() as u64, 2);
    out.push(' ');
    push_padded(out, t.hour() as u64, 2);
    out.push(':');
    push_padded(out, t.minute() as u64, 2);
    out.push(':');
    push_padded(out, t.second() as u64, 2);
    proof {
        assert(out@ =~= start + stamp_text(t));
    }
}

/// The line `ls` shows for `entry`, as `listing` states.
#[verifier::rlimit(40)]
pub fn listing_line(entry: &Entry) -> (s: String)
    ensures
        s@ == listing(*entry),
{
    let m = entry.metadata();
    let mut out: Vec<char> = Vec::new();
    out.push(
        if entry.is_dir() {
            'd'
        } else {
            '-'
        },
    );
    out.push(
        if m.read_only() {
            'r'
        } else {
            'w'
        },
    );
    out.push(
        if m.hidden() {
            'h'
        } else {
            'v'
        },
    );
    out.push('\t');
    let ghost head = out@;
    push_stamp(&mut out, m.created());
    out.push('\t');
    push_stamp(&mut out, m.modified());
    out.push('\t');
    let ghost mid = out@;
    match entry {
        Entry::Dir(d) => {
            out.push('0');
            out.push('\t');
            push_chars(&mut out, d.name.as_str());
            out.push('/');
            proof {
                assert(out@ =~= mid + (seq!['0', '\t'] + d.name@ + seq!['/']));
            }
        },
        Entry::File(f) => {
            push_dec(&mut out, f.size());
            out.push('\t');
            push_chars(&mut out, f.name().as_str());
            proof {
                assert(out@ =~= mid + (dec(f.spec_size() as nat) + seq!['\t'] + f.spec_name()));
            }
        },
    }
    proof {
        assert(out@ =~= listing(*entry));
    }
    string_from_chars(out.as_slice())
}

/// Whether `ls` shows `entry`, as `visible` states.
pub fn entry_visible(entry: &Entry, all: bool) -> (b: bool)
    ensures
        b == visible(*entry, all),
{
    if all {
        return true;
    }
    let m = entry.metadata();
    let name = str_chars(entry.name().as_str());
    let dot = name.len() == 1 && name[0] == '.';
    let dotdot = name.len() == 2 && name[0] == '.' && name[1] == '.';
    proof {
        assert(dot == (name@ == seq!['.'])) by {
            if name@.len() == 1 && name@[0] == '.' {
                assert(name@ =~= seq!['.']);
            }
        }
        assert(dotdot == (name@ == seq!['.', '.'])) by {
            if name@.len() == 2 && name@[0] == '.' && name@[1] == '.' {
                assert(name@ =~= seq!['.', '.']);
            }
        }
    }
    !(m.hidden() || dot || dotdot)
}

/// The size of the chunks `cat` reads.
pub const CAT_BUF: usize = 1024;

/// What one read of `cat` gave.
#[derive(Debug)]
pub enum CatChunk {
    /// The file is read to its end.
    End,
    /// Text to show.
    Text(String),
    /// The bytes read are not UTF-8, and not because a character is cut at
    /// the end of the chunk.
    Invalid,
}

/// The longest prefix of `s`, of at most `j` bytes, that is valid UTF-8.
pub open spec fn longest_valid(s: Seq<u8>, j: int) -> int
    decreases j,
{
    if j <= 0 {
        0
    } else if valid_utf8(s.subrange(0, j)) {
        j
    } else {
        longest_valid(s, j - 1)
    }
}

/// The longest valid prefix is the `k` that `valid_up_to` gives.
proof fn lemma_longest_valid(s: Seq<u8>, k: int, j: int)
    requires
        0 <= k <= j <= s.len(),
        valid_utf8(s.subrange(0, k)),
        forall|i: int| k < i <= s.len() ==> !valid_utf8(#[trigger] s.subrange(0, i)),
    ensures
        longest_valid(s, j) == k,
    decreases j,
{
    if j > k {
        lemma_longest_valid(s, k, j - 1);
    }
}

/// Reads the next chunk of `CAT_BUF` bytes of `file` for `cat`: the end of
/// the file when nothing is left; the chunk's text when it is valid UTF-8;
/// `Invalid` when its longest valid prefix leaves four bytes or more;
/// otherwise the text of that prefix, and the position moves back to just
/// after it, so that a character cut at the end of the chunk is read whole
/// next time.
///
/// The file's cluster chain must end and hold the bytes to read.
///
/// # Errors
///
/// The errors of reading the file; the position is then kept.
pub fn cat_chunk<D: BlockDevice>(file: &mut File, vfat: &mut VFat<D>) -> (r: Result<
    CatChunk,
    IoError,
>)
    requires
        old(vfat).geometry_ok(),
        old(vfat).chain_ends(old(file).spec_first_cluster()@ as int),
        old(vfat).chain_fuel(old(file).spec_first_cluster()@ as int) * old(vfat).cluster_size()
            <= usize::MAX,
        old(vfat).chain_result(old(file).spec_first_cluster()@ as int) matches Ok(d) ==> old(file).position() + read_len(
            old(file).position() as int,
            old(file).spec_size() as int,
            CAT_BUF as int,
        ) <= d.len(),
    ensures
        same_sectors(final(vfat).device, old(vfat).device),
        final(vfat).bytes_per_sector == old(vfat).bytes_per_sector,
        final(vfat).sectors_per_cluster == old(vfat).sectors_per_cluster,
        final(vfat).sectors_per_fat == old(vfat).sectors_per_fat,
        final(vfat).fat_start_sector == old(vfat).fat_start_sector,
        final(vfat).data_start_sector == old(vfat).data_start_sector,
        final(vfat).root_dir_cluster == old(vfat).root_dir_cluster,
        final(file).spec_name() == old(file).spec_name(),
        final(file).spec_first_cluster() == old(file).spec_first_cluster(),
        final(file).spec_metadata() == old(file).spec_metadata(),
        final(file).spec_size() == old(file).spec_size(),
        match old(vfat).chain_result(old(file).spec_first_cluster()@ as int) {
            Ok(d) => {
                let p = old(file).position() as int;
                let n = read_len(p, old(file).spec_size() as int, CAT_BUF as int);
                let c = d.subrange(p, p + n);
                let k = longest_valid(c, n);
                if n == 0 {
                    r matches Ok(CatChunk::End) && final(file).position() == p
                } else if valid_utf8(c) {
                    r matches Ok(CatChunk::Text(s)) && s@ == decode_utf8(c) && final(file).position() == p + n
                } else if n - k >= 4 {
                    r matches Ok(CatChunk::Invalid) && final(file).position() == p + n
                } else {
                    r matches Ok(CatChunk::Text(s)) && s@ == decode_utf8(c.subrange(0, k))
                        && final(file).position() == p + k
                }
            },
            Err(e) => r == Err::<CatChunk, IoError>(e) && final(file).position() == old(file).position(),
        },
{
    let mut buf: Vec<u8> = vec![0u8; CAT_BUF];
    let ghost p = file.position() as int;
    let n = match file.read(vfat, &mut buf) {
        Ok(n) => n,
        Err(e) => {
            return Err(e);
        },
    };
    let ghost d = old(vfat).chain_result(old(file).spec_first_cluster()@ as int)->Ok_0;
    if n == 0 {
        return Ok(CatChunk::End);
    }
    buf.truncate(n);
    proof {
        assert(buf@ =~= d.subrange(p, p + n));
    }
    match str_from_utf8(buf.as_slice()) {
        Ok(s) => Ok(CatChunk::Text(s.to_owned())),
        Err(k) => {
            proof {
                lemma_longest_valid(buf@, k as int, n as int);
            }
            if n - k >= 4 {
                Ok(CatChunk::Invalid)
            } else {
                let back: i64 = k as i64 - n as i64;
                let _ = file.seek(SeekFrom::Current(back));
                let ghost c = buf@;
                buf.truncate(k);
                proof {
                    assert(buf@ =~= c.subrange(0, k as int));
                }
                let text = match str_from_utf8(buf.as_slice()) {
                    Ok(t) => t.to_owned(),
                    Err(_) => String::new(),
                };
                Ok(CatChunk::Text(text))
            }
        },
    }
}

/// An entry that the regular directory entry `e` describes under the name
/// `name`; every such entry has the same `listing` and visibility
/// (`lemma_encoded_listing`).
pub open spec fn entry_of(name: Seq<char>, e: Seq<u8>) -> Entry {
    choose|x: Entry| entry_encoded(x, name, e)
}

/// Two entries that the same regular directory entry describes under the
/// same name have the same `ls` line and are shown alike.
pub proof fn lemma_encoded_listing(x: Entry, y: Entry, name: Seq<char>, e: Seq<u8>, all: bool)
    requires
        entry_encoded(x, name, e),
        entry_encoded(y, name, e),
    ensures
        listing(x) == listing(y),
        visible(x, all) == visible(y, all),
{
    let mx = entry_metadata(x);
    let my = entry_metadata(y);
    assert(stamp_text(mx.created) == stamp_text(my.created));
    assert(stamp_text(mx.modified) == stamp_text(my.modified));
}

/// What `ls` lists of the directory bytes `data` from entry `pos`, as
/// successive calls of `next` give the entries: the `listing` of each
/// `visible` entry, in directory order; and whether the listing stopped at
/// a long name entry with sequence number 0, which has no slot for its
/// units.
pub open spec fn dir_listing(data: Seq<u8>, pos: int, all: bool) -> (Seq<Seq<char>>, bool)
    decreases data.len() / 32 - pos,
{
    let s = scan(data, pos, empty_lfn(), false);
    if !s.2 {
        (Seq::empty(), true)
    } else {
        match s.0 {
            Some((name, e)) => if pos < s.1 <= data.len() / 32 {
                let rest = dir_listing(data, s.1, all);
                let x = entry_of(name, e);
                (
                    if visible(x, all) {
                        seq![listing(x)] + rest.0
                    } else {
                        rest.0
                    },
                    rest.1,
                )
            } else {
                (Seq::empty(), false)
            },
            None => (Seq::empty(), false),
        }
    }
}

/// The lines `ls` shows for the remaining entries of `entries`, as
/// `dir_listing` states: one `listing` per `visible` entry, in directory
/// order; and whether a long name entry with sequence number 0 stopped the
/// listing there.
pub fn list_entries(entries: VFatIterator, all: bool) -> (r: (Vec<String>, bool))
    requires
        entries.spec_pos() >= 0,
    ensures
        r.0@.map_values(|s: String| s@) == dir_listing(entries.spec_data(), entries.spec_pos(), all).0,
        r.1 == dir_listing(entries.spec_data(), entries.spec_pos(), all).1,
{
    let ghost data = entries.spec_data();
    let ghost goal = dir_listing(data, entries.spec_pos(), all);
    let mut it = entries;
    let mut lines: Vec<String> = Vec::new();
    loop
        invariant
            data == entries.spec_data(),
            goal == dir_listing(entries.spec_data(), entries.spec_pos(), all),
            it.spec_data() == data,
            it.spec_pos() >= 0,
            goal.1 == dir_listing(data, it.spec_pos(), all).1,
            goal.0 == lines@.map_values(|s: String| s@) + dir_listing(data, it.spec_pos(), all).0,
        decreases data.len() / 32 - it.spec_pos(),
    {
        let ghost pos = it.spec_pos();
        let ghost s = scan(data, pos, empty_lfn(), false);
        proof {
            lemma_scan_advances(data, pos, empty_lfn(), false);
        }
        if it.next_is_malformed() {
            proof {
                assert(lines@.map_values(|s: String| s@) + Seq::<Seq<char>>::empty() =~= lines@.map_values(
                    |s: String| s@,
                ));
            }
            return (lines, true);
        }
        match it.next() {
            None => {
                proof {
                    assert(lines@.map_values(|s: String| s@) + Seq::<Seq<char>>::empty()
                        =~= lines@.map_values(|s: String| s@));
                }
                return (lines, false);
            },
            Some(entry) => {
                let ghost found = s.0->0;
                let ghost name = found.0;
                let ghost e = found.1;
                let ghost rest = dir_listing(data, s.1, all);
                proof {
                    lemma_encoded_listing(entry, entry_of(name, e), name, e, all);
                }
                if entry_visible(&entry, all) {
                    let ghost before = lines@.map_values(|s: String| s@);
                    let line = listing_line(&entry);
                    lines.push(line);
                    proof {
                        assert(lines@.map_values(|s: String| s@) =~= before.push(listing(entry)));
                        assert(before + (seq![listing(entry)] + rest.0) =~= before.push(listing(entry))
                            + rest.0);
                    }
                }
            },
        }
    }
}

} // verus!
