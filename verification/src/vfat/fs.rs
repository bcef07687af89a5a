use vstd::prelude::*;

use crate::traits::{same_sectors, BlockDevice, IoError};
use crate::vfat::dir::{entry_encoded, first_cluster_of, search, Dir, Entry};
use crate::vfat::file::File;
use crate::text::{str_chars, string_from_chars};
use crate::vfat::metadata::{has_bit, DIRECTORY};
use crate::vfat::vfat::VFat;

verus! {

/// A component of a path, as `std::path::Path::components` gives them on
/// Unix.
#[derive(Debug)]
pub enum Component {
    /// The root directory `/`.
    RootDir,
    /// The current directory `.`.
    CurDir,
    /// The parent directory `..`.
    ParentDir,
    /// A name.
    Normal(String),
}

/// A component of a path as the contracts see it.
pub enum PathPart {
    /// The root directory `/`.
    Root,
    /// The current directory `.`.
    Cur,
    /// The parent directory `..`.
    Parent,
    /// A name.
    Name(Seq<char>),
}

impl View for Component {
    type V = PathPart;

    open spec fn view(&self) -> PathPart {
        match self {
            Component::RootDir => PathPart::Root,
            Component::CurDir => PathPart::Cur,
            Component::ParentDir => PathPart::Parent,
            Component::Normal(n) => PathPart::Name(n@),
        }
    }
}

/// The views of the components `cs`.
pub open spec fn parts_of(cs: Seq<Component>) -> Seq<PathPart> {
    cs.map_values(|c: Component| c@)
}

/// The pieces of `p` between slashes, as `str::split('/')` gives them: one
/// more than the number of slashes, some possibly empty.
pub open spec fn split_slash(p: Seq<char>) -> Seq<Seq<char>>
    decreases p.len(),
{
    if p.len() == 0 {
        seq![Seq::empty()]
    } else {
        let w = split_slash(p.drop_last());
        if p.last() == '/' {
            w.push(Seq::empty())
        } else {
            w.update(w.len() - 1, w.last().push(p.last()))
        }
    }
}

/// The component a piece between slashes names, if any: empty pieces and
/// `.` name none, `..` is the parent directory, and any other piece a name.
pub open spec fn piece_parts(n: Seq<char>) -> Seq<PathPart> {
    if n.len() == 0 || n == seq!['.'] {
        Seq::empty()
    } else if n == seq!['.', '.'] {
        seq![PathPart::Parent]
    } else {
        seq![PathPart::Name(n)]
    }
}

/// The components named by the pieces `ps`, in order.
pub open spec fn pieces_parts(ps: Seq<Seq<char>>) -> Seq<PathPart>
    decreases ps.len(),
{
    if ps.len() == 0 {
        Seq::empty()
    } else {
        pieces_parts(ps.drop_last()) + piece_parts(ps.last())
    }
}

/// The components of the Unix path `p`, as `std::path::Path::components`
/// gives them: the root directory for a leading `/`; then the pieces between
/// slashes, where empty pieces and `.` are dropped, `..` is the parent
/// directory and anything else a name; a relative path whose first piece is
/// `.` starts with the current directory.
pub open spec fn unix_components(p: Seq<char>) -> Seq<PathPart> {
    let ps = split_slash(p);
    let head = if p.len() > 0 && p[0] == '/' {
        seq![PathPart::Root]
    } else if ps[0] == seq!['.'] {
        seq![PathPart::Cur]
    } else {
        Seq::empty()
    };
    head + pieces_parts(ps)
}

/// Whether the characters `a` spell `lit`.
fn chars_are(a: &Vec<char>, lit: &[char]) -> (b: bool)
    ensures
        b == (a@ == lit@),
{
    if a.len() != lit.len() {
        return false;
    }
    let mut i: usize = 0;
    while i < a.len()
        invariant
            a@.len() == lit@.len(),
            i <= a@.len(),
            forall|j: int| 0 <= j < i ==> a@[j] == lit@[j],
        decreases a@.len() - i,
    {
        if a[i] != lit[i] {
            return false;
        }
        i = i + 1;
    }
    proof {
        assert(a@ =~= lit@);
    }
    true
}

/// The components of the path `path`, as `unix_components` states.
pub fn path_components(path: &str) -> (cs: Vec<Component>)
    ensures
        parts_of(cs@) == unix_components(path@),
{
    let text = str_chars(path);
    let ghost p = path@;
    let mut pieces: Vec<Vec<char>> = Vec::new();
    let mut cur: Vec<char> = Vec::new();
    let mut i: usize = 0;
    proof {
        assert(p.subrange(0, 0) =~= Seq::<char>::empty());
        assert(pieces@.map_values(|v: Vec<char>| v@).push(cur@) =~= split_slash(p.subrange(0, 0)));
    }
    while i < text.len()
        invariant
            text@ == p,
            i <= p.len(),
            pieces@.map_values(|v: Vec<char>| v@).push(cur@) == split_slash(p.subrange(0, i as int)),
        decreases p.len() - i,
    {
        let ghost before = pieces@.map_values(|v: Vec<char>| v@).push(cur@);
        proof {
            assert(p.subrange(0, i + 1).drop_last() =~= p.subrange(0, i as int));
        }
        if text[i] == '/' {
            let done = cur;
            pieces.push(done);
            cur = Vec::new();
            proof {
                assert(pieces@.map_values(|v: Vec<char>| v@).push(cur@) =~= before.push(
                    Seq::empty(),
                ));
            }
        } else {
            cur.push(text[i]);
            proof {
                assert(pieces@.map_values(|v: Vec<char>| v@).push(cur@) =~= before.update(
                    before.len() - 1,
                    before.last().push(p[i as int]),
                ));
            }
        }
        i = i + 1;
    }
    pieces.push(cur);
    let ghost ps = pieces@.map_values(|v: Vec<char>| v@);
    proof {
        assert(p.subrange(0, p.len() as int) =~= p);
        assert(ps == split_slash(p));
    }
    let dot = ['.'];
    let dotdot = ['.', '.'];
    let mut out: Vec<Component> = Vec::new();
    if text.len() > 0 && text[0] == '/' {
        out.push(Component::RootDir);
    } else if chars_are(&pieces[0], dot.as_slice()) {
        out.push(Component::CurDir);
    }
    proof {
        assert(dot@ =~= seq!['.']);
        assert(dotdot@ =~= seq!['.', '.']);
        assert(ps[0] == pieces@[0]@);
    }
    let ghost head = parts_of(out@);
    proof {
        assert(ps.subrange(0, 0) =~= Seq::<Seq<char>>::empty());
        assert(parts_of(out@) =~= head + pieces_parts(ps.subrange(0, 0)));
    }
    let mut j: usize = 0;
    while j < pieces.len()
        invariant
            j <= ps.len(),
            ps == pieces@.map_values(|v: Vec<char>| v@),
            dot@ == seq!['.'],
            dotdot@ == seq!['.', '.'],
            parts_of(out@) == head + pieces_parts(ps.subrange(0, j as int)),
        decreases ps.len() - j,
    {
        let ghost before = out@;
        proof {
            assert(ps.subrange(0, j + 1).drop_last() =~= ps.subrange(0, j as int));
            assert(ps[j as int] == pieces@[j as int]@);
        }
        let piece = &pieces[j];
        if piece.len() == 0 || chars_are(piece, dot.as_slice()) {
            proof {
                assert(parts_of(out@) =~= head + pieces_parts(ps.subrange(0, j + 1)));
            }
        } else if chars_are(piece, dotdot.as_slice()) {
            out.push(Component::ParentDir);
            proof {
                assert(parts_of(out@) =~= parts_of(before).push(PathPart::Parent));
                assert(parts_of(out@) =~= head + pieces_parts(ps.subrange(0, j + 1)));
            }
        } else {
            out.push(Component::Normal(string_from_chars(piece.as_slice())));
            proof {
                assert(parts_of(out@) =~= parts_of(before).push(PathPart::Name(ps[j as int])));
                assert(parts_of(out@) =~= head + pieces_parts(ps.subrange(0, j + 1)));
            }
        }
        j = j + 1;
    }
    proof {
        assert(ps.subrange(0, ps.len() as int) =~= ps);
    }
    out
}

/// A path as a root flag and a list of names.
#[derive(Debug)]
pub struct PathParts {
    /// The path starts at the root directory.
    pub absolute: bool,
    /// The names, in order.
    pub parts: Vec<String>,
}

/// A path as the contracts see it: whether it is absolute, and its names.
pub type PathView = (bool, Seq<Seq<char>>);

/// One component applied to the path `st`: the root directory restarts the
/// path at `/`, the parent directory drops the last name (if any), a name
/// is appended, and the current directory is refused (`None`).
pub open spec fn canon_step(st: Option<PathView>, c: PathPart) -> Option<PathView> {
    match st {
        None => None,
        Some((abs, parts)) => match c {
            PathPart::Root => Some((true, Seq::empty())),
            PathPart::Cur => None,
            PathPart::Parent => Some(
                (
                    abs,
                    if parts.len() > 0 {
                        parts.drop_last()
                    } else {
                        parts
                    },
                ),
            ),
            PathPart::Name(n) => Some((abs, parts.push(n))),
        },
    }
}

/// The components `cs` applied in order to the path `start`, as
/// `canon_step` states.
pub open spec fn canonical_from(start: PathView, cs: Seq<PathPart>) -> Option<PathView>
    decreases cs.len(),
{
    if cs.len() == 0 {
        Some(start)
    } else {
        canon_step(canonical_from(start, cs.drop_last()), cs.last())
    }
}

/// The canonical form of the components `cs`, from an empty relative path.
pub open spec fn canonical(cs: Seq<PathPart>) -> Option<PathView> {
    canonical_from((false, Seq::empty()), cs)
}

/// The view of a path.
pub open spec fn path_view(p: PathParts) -> PathView {
    (p.absolute, p.parts@.map_values(|s: String| s@))
}

/// The path `start` followed by the components `path`, in canonical form,
/// as `canonical_from` states.
fn canonicalize_parts_from(start: PathParts, path: &Vec<Component>) -> (r: Result<PathParts, IoError>)
    ensures
        match canonical_from(path_view(start), parts_of(path@)) {
            Some(v) => r matches Ok(p) && path_view(p) == v,
            None => r matches Err(e) && e == IoError::InvalidInput,
        },
{
    let ghost st = path_view(start);
    let mut absolute = start.absolute;
    let mut parts: Vec<String> = start.parts;
    let mut i: usize = 0;
    while i < path.len()
        invariant
            i <= path@.len(),
            st == path_view(start),
            canonical_from(st, parts_of(path@).subrange(0, i as int)) == Some(
                (absolute, parts@.map_values(|s: String| s@)),
            ),
        decreases path@.len() - i,
    {
        proof {
            assert(parts_of(path@).subrange(0, i + 1).drop_last() =~= parts_of(path@).subrange(0, i as int));
        }
        match &path[i] {
            Component::RootDir => {
                absolute = true;
                parts = Vec::new();
            },
            Component::CurDir => {
                proof {
                    lemma_canonical_none_stays(st, parts_of(path@), i + 1);
                    assert(parts_of(path@).subrange(0, path@.len() as int) =~= parts_of(path@));
                }
                return Err(IoError::InvalidInput);
            },
            Component::ParentDir => {
                if parts.len() > 0 {
                    let ghost before = parts@;
                    parts.pop();
                    proof {
                        assert(parts@.map_values(|s: String| s@) =~= before.map_values(
                            |s: String| s@,
                        ).drop_last());
                    }
                }
            },
            Component::Normal(name) => {
                let ghost before = parts@;
                parts.push(name.clone());
                proof {
                    assert(parts@.map_values(|s: String| s@) =~= before.map_values(
                        |s: String| s@,
                    ).push(name@));
                }
            },
        }
        proof {
            let c = canonical_from(st, parts_of(path@).subrange(0, i + 1))->0;
            assert(parts@.map_values(|s: String| s@) =~= c.1);
        }
        i = i + 1;
    }
    proof {
        assert(parts_of(path@).subrange(0, path@.len() as int) =~= parts_of(path@));
    }
    Ok(PathParts { absolute, parts })
}

/// The path `start` followed by the path `path`, in canonical form, as
/// `canonical_from` states of the components of `path`: `.` is refused,
/// `..` drops a name, `/` restarts at the root.
pub fn canonicalize_from(start: PathParts, path: &str) -> (r: Result<PathParts, IoError>)
    ensures
        match canonical_from(path_view(start), unix_components(path@)) {
            Some(v) => r matches Ok(p) && path_view(p) == v,
            None => r matches Err(e) && e == IoError::InvalidInput,
        },
{
    let cs = path_components(path);
    canonicalize_parts_from(start, &cs)
}

/// The canonical form of the path `path`, as `canonical` states of its
/// components: `.` is refused, `..` drops a name, `/` restarts at the root.
pub fn canonicalize(path: &str) -> (r: Result<PathParts, IoError>)
    ensures
        match canonical(unix_components(path@)) {
            Some(v) => r matches Ok(p) && path_view(p) == v,
            None => r matches Err(e) && e == IoError::InvalidInput,
        },
{
    let empty = PathParts { absolute: false, parts: Vec::new() };
    proof {
        assert(path_view(empty).1 =~= Seq::<Seq<char>>::empty());
    }
    canonicalize_from(empty, path)
}

/// Once a prefix is refused, every longer prefix is.
proof fn lemma_canonical_none_stays(st: PathView, cs: Seq<PathPart>, k: int)
    requires
        0 <= k <= cs.len(),
        canonical_from(st, cs.subrange(0, k)) is None,
    ensures
        canonical_from(st, cs) is None,
    decreases cs.len() - k,
{
    if k < cs.len() {
        assert(cs.subrange(0, k + 1).drop_last() =~= cs.subrange(0, k));
        lemma_canonical_none_stays(st, cs, k + 1);
    } else {
        assert(cs.subrange(0, k) =~= cs);
    }
}

/// The components `cs` spell the path `(abs, parts)`: the root directory
/// when it is absolute, then one name per part.
pub open spec fn spells(cs: Seq<PathPart>, abs: bool, parts: Seq<Seq<char>>) -> bool {
    if abs {
        &&& cs.len() == parts.len() + 1
        &&& cs[0] is Root
        &&& forall|i: int|
            0 <= i < parts.len() ==> ((#[trigger] cs[i + 1]) matches PathPart::Name(n) && n
                == parts[i])
    } else {
        &&& cs.len() == parts.len()
        &&& forall|i: int|
            0 <= i < parts.len() ==> ((#[trigger] cs[i]) matches PathPart::Name(n) && n
                == parts[i])
    }
}

/// Canonicalizing is idempotent: the components that spell a canonical path
/// canonicalize to that same path.
pub proof fn lemma_canonical_idempotent(
    cs: Seq<PathPart>,
    abs: bool,
    parts: Seq<Seq<char>>,
    cs2: Seq<PathPart>,
)
    requires
        canonical(cs) == Some((abs, parts)),
        spells(cs2, abs, parts),
    ensures
        canonical(cs2) == Some((abs, parts)),
{
    let off: int = if abs {
        1
    } else {
        0
    };
    lemma_spelled_prefix(cs2, abs, parts, cs2.len() as int);
    assert(cs2.subrange(0, cs2.len() as int) =~= cs2);
    assert(parts.subrange(0, parts.len() as int) =~= parts);
}

proof fn lemma_spelled_prefix(cs2: Seq<PathPart>, abs: bool, parts: Seq<Seq<char>>, k: int)
    requires
        spells(cs2, abs, parts),
        (if abs {
            1int
        } else {
            0int
        }) <= k <= cs2.len(),
    ensures
        canonical(cs2.subrange(0, k)) == Some(
            (
                abs,
                parts.subrange(
                    0,
                    k - (if abs {
                        1int
                    } else {
                        0int
                    }),
                ),
            ),
        ),
    decreases k,
{
    let off: int = if abs {
        1
    } else {
        0
    };
    if k == off {
        if abs {
            assert(cs2.subrange(0, 1).drop_last() =~= cs2.subrange(0, 0));
            assert(cs2.subrange(0, 1).last() == cs2[0]);
        }
        assert(parts.subrange(0, 0) =~= Seq::<Seq<char>>::empty());
    } else {
        lemma_spelled_prefix(cs2, abs, parts, k - 1);
        let i = k - 1 - off;
        if abs {
            assert(cs2[i + 1] matches PathPart::Name(n) && n == parts[i]);
        } else {
            assert(cs2[i] matches PathPart::Name(n) && n == parts[i]);
        }
        assert(cs2.subrange(0, k).drop_last() =~= cs2.subrange(0, k - 1));
        assert(cs2.subrange(0, k).last() == cs2[(k - 1 - off) + off]);
        assert(parts.subrange(0, k - 1 - off).push(parts[k - 1 - off]) =~= parts.subrange(
            0,
            k - off,
        ));
    }
}

/// What a walk along a path has reached: `None` for the root directory, or
/// the name and the bytes of the directory entry found.
pub type Reached = Option<(Seq<char>, Seq<u8>)>;

/// The cluster of the directory reached, or `None` when a file was reached.
pub open spec fn dir_cluster<D: BlockDevice>(v: VFat<D>, at: Reached) -> Option<int> {
    match at {
        None => Some(v.root_dir_cluster@ as int),
        Some((n, e)) => if has_bit(e[11], DIRECTORY) {
            Some(first_cluster_of(e) as int)
        } else {
            None
        },
    }
}

/// Looking up `name` in the directory at cluster `c`, as `Dir::find` does:
/// `None` when `find`'s precondition fails (the chain does not end, does
/// not fit in memory, or holds a malformed long name entry on the way).
pub open spec fn find_in<D: BlockDevice>(v: VFat<D>, c: int, name: Seq<char>) -> Option<
    Result<(Seq<char>, Seq<u8>), IoError>,
> {
    if !(v.geometry_ok() && v.chain_ends(c) && v.chain_fuel(c) * v.cluster_size() <= usize::MAX) {
        None
    } else {
        match v.chain_result(c) {
            Ok(d) => if !search(d, 0, name).1 {
                None
            } else {
                match search(d, 0, name).0 {
                    Some(x) => Some(Ok(x)),
                    None => Some(Err(IoError::NotFound)),
                }
            },
            Err(e) => Some(Err(e)),
        }
    }
}

/// The name a component looks up: its name, `.` or `..`.
pub open spec fn lookup_name(c: PathPart) -> Seq<char> {
    match c {
        PathPart::Name(n) => n,
        PathPart::Cur => seq!['.'],
        _ => seq!['.', '.'],
    }
}

/// Walking the components `cs` from `at`, as `open` does: the root
/// directory component is skipped; every other component looks up its name
/// in the directory reached (`NotFound` when a file was reached). `None`
/// when a lookup's precondition fails.
pub open spec fn walk<D: BlockDevice>(v: VFat<D>, at: Reached, cs: Seq<PathPart>) -> Option<
    Result<Reached, IoError>,
>
    decreases cs.len(),
{
    if cs.len() == 0 {
        Some(Ok(at))
    } else if cs[0] is Root {
        walk(v, at, cs.drop_first())
    } else {
        match dir_cluster(v, at) {
            None => Some(Err(IoError::NotFound)),
            Some(c) => match find_in(v, c, lookup_name(cs[0])) {
                None => None,
                Some(Err(e)) => Some(Err(e)),
                Some(Ok(x)) => walk(v, Some(x), cs.drop_first()),
            },
        }
    }
}

/// The entry `entry` is what a walk has reached.
pub open spec fn is_reached<D: BlockDevice>(entry: Entry, at: Reached, v: VFat<D>) -> bool {
    match at {
        None => entry matches Entry::Dir(d) && d.first_cluster == v.root_dir_cluster && d.name@
            == seq!['/'],
        Some((n, e)) => entry_encoded(entry, n, e),
    }
}

/// Devices with the same sectors give the same chains.
proof fn lemma_same_reads<D: BlockDevice>(v: VFat<D>, w: VFat<D>)
    requires
        same_sectors(v.device, w.device),
        v.bytes_per_sector == w.bytes_per_sector,
        v.sectors_per_cluster == w.sectors_per_cluster,
        v.sectors_per_fat == w.sectors_per_fat,
        v.fat_start_sector == w.fat_start_sector,
        v.data_start_sector == w.data_start_sector,
    ensures
        forall|c: int, f: nat| #[trigger] v.chain(c, f) == w.chain(c, f),
        forall|c: int| #[trigger] v.chain_ends(c) == w.chain_ends(c),
        forall|c: int| #[trigger] v.chain_fuel(c) == w.chain_fuel(c),
        forall|c: int| #[trigger] v.chain_result(c) == w.chain_result(c),
{
    assert forall|c: int, f: nat| #[trigger] v.chain(c, f) == w.chain(c, f) by {
        crate::vfat::vfat::lemma_chain_same(v, w, c, f);
    }
    assert forall|c: int| #[trigger] v.chain_ends(c) == w.chain_ends(c) by {
        if v.chain_ends(c) {
            let f = choose|f: nat| #[trigger] v.chain(c, f) is Some;
            assert(w.chain(c, f) is Some);
        }
        if w.chain_ends(c) {
            let f = choose|f: nat| #[trigger] w.chain(c, f) is Some;
            assert(v.chain(c, f) is Some);
        }
    }
    assert forall|c: int| #[trigger] v.chain_fuel(c) == w.chain_fuel(c) by {
        if v.chain_ends(c) {
            crate::vfat::vfat::lemma_chain_least(v, c);
            crate::vfat::vfat::lemma_chain_least(w, c);
            let fv = v.chain_fuel(c);
            let fw = w.chain_fuel(c);
            assert(w.chain(c, fv) is Some);
            assert(v.chain(c, fw) is Some);
        } else {
            assert(!w.chain_ends(c));
        }
    }
}

/// Opens the entry that the components `path` lead to, walking from the
/// root directory as `walk` states: a name looks up that name, `.` and `..`
/// look up the entries so named, and the root directory component is
/// skipped.
///
/// # Errors
///
/// `NotFound` when a component is looked up in a file or is not found; the
/// errors of reading a directory as they come.
fn open_parts<D: BlockDevice>(vfat: &mut VFat<D>, path: &Vec<Component>) -> (r: Result<Entry, IoError>)
    requires
        walk(*old(vfat), None, parts_of(path@)) is Some,
    ensures
        same_sectors(final(vfat).device, old(vfat).device),
        final(vfat).bytes_per_sector == old(vfat).bytes_per_sector,
        final(vfat).sectors_per_cluster == old(vfat).sectors_per_cluster,
        final(vfat).sectors_per_fat == old(vfat).sectors_per_fat,
        final(vfat).fat_start_sector == old(vfat).fat_start_sector,
        final(vfat).data_start_sector == old(vfat).data_start_sector,
        final(vfat).root_dir_cluster == old(vfat).root_dir_cluster,
        match walk(*old(vfat), None, parts_of(path@))->0 {
            Ok(at) => r matches Ok(entry) && is_reached(entry, at, *old(vfat)),
            Err(e) => r matches Err(x) && x == e,
        },
{
    let ghost v0 = *vfat;
    let ghost goal = walk(v0, None, parts_of(path@));
    let mut current = Entry::Dir(Dir::root(vfat));
    let ghost mut at: Reached = None;
    let mut i: usize = 0;
    proof {
        assert(parts_of(path@).subrange(0, path@.len() as int) =~= parts_of(path@));
    }
    while i < path.len()
        invariant
            v0 == *old(vfat),
            goal == walk(v0, None, parts_of(path@)),
            goal is Some,
            i <= path@.len(),
            walk(v0, at, parts_of(path@).subrange(i as int, path@.len() as int)) == goal,
            is_reached(current, at, v0),
            same_sectors(vfat.device, v0.device),
            vfat.bytes_per_sector == v0.bytes_per_sector,
            vfat.sectors_per_cluster == v0.sectors_per_cluster,
            vfat.sectors_per_fat == v0.sectors_per_fat,
            vfat.fat_start_sector == v0.fat_start_sector,
            vfat.data_start_sector == v0.data_start_sector,
            vfat.root_dir_cluster == v0.root_dir_cluster,
        decreases path@.len() - i,
    {
        let ghost rest = parts_of(path@).subrange(i as int, path@.len() as int);
        proof {
            assert(rest[0] == path@[i as int]@);
            assert(rest.drop_first() =~= parts_of(path@).subrange(i + 1, path@.len() as int));
            lemma_same_reads(*vfat, v0);
        }
        let comp = &path[i];
        if let Component::RootDir = comp {
        } else {
            let name: String = match comp {
                Component::Normal(n) => n.clone(),
                Component::CurDir => {
                    let v = vec!['.'];
                    crate::text::string_from_chars(v.as_slice())
                },
                _ => {
                    let v = vec!['.', '.'];
                    crate::text::string_from_chars(v.as_slice())
                },
            };
            proof {
                assert(name@ == lookup_name(comp@));
            }
            let next = match &current {
                Entry::Dir(d) => {
                    proof {
                        assert(dir_cluster(v0, at) == Some(d.first_cluster@ as int));
                    }
                    match d.find(vfat, name.as_str()) {
                        Ok(e) => e,
                        Err(e) => {
                            return Err(e);
                        },
                    }
                },
                Entry::File(_) => {
                    return Err(IoError::NotFound);
                },
            };
            proof {
                let c = dir_cluster(v0, at)->0;
                at = Some(find_in(v0, c, name@)->0->Ok_0);
            }
            current = next;
        }
        i = i + 1;
    }
    Ok(current)
}

/// Opens the entry at the path `path`, walking from the root directory as
/// `walk` states of its components: a name looks up that name, `.` and `..`
/// look up the entries so named, and the root directory is skipped.
///
/// # Errors
///
/// `NotFound` when a component is looked up in a file or is not found; the
/// errors of reading a directory as they come.
pub fn open<D: BlockDevice>(vfat: &mut VFat<D>, path: &str) -> (r: Result<Entry, IoError>)
    requires
        walk(*old(vfat), None, unix_components(path@)) is Some,
    ensures
        same_sectors(final(vfat).device, old(vfat).device),
        final(vfat).bytes_per_sector == old(vfat).bytes_per_sector,
        final(vfat).sectors_per_cluster == old(vfat).sectors_per_cluster,
        final(vfat).sectors_per_fat == old(vfat).sectors_per_fat,
        final(vfat).fat_start_sector == old(vfat).fat_start_sector,
        final(vfat).data_start_sector == old(vfat).data_start_sector,
        final(vfat).root_dir_cluster == old(vfat).root_dir_cluster,
        match walk(*old(vfat), None, unix_components(path@))->0 {
            Ok(at) => r matches Ok(entry) && is_reached(entry, at, *old(vfat)),
            Err(e) => r matches Err(x) && x == e,
        },
{
    let cs = path_components(path);
    open_parts(vfat, &cs)
}

/// Walking the names `names` from `at`: each name is looked up in the
/// directory reached (`NotFound` when a file was reached). `None` when a
/// lookup's precondition fails.
pub open spec fn walk_names<D: BlockDevice>(v: VFat<D>, at: Reached, names: Seq<Seq<char>>) -> Option<
    Result<Reached, IoError>,
>
    decreases names.len(),
{
    if names.len() == 0 {
        Some(Ok(at))
    } else {
        match dir_cluster(v, at) {
            None => Some(Err(IoError::NotFound)),
            Some(c) => match find_in(v, c, names[0]) {
                None => None,
                Some(Err(e)) => Some(Err(e)),
                Some(Ok(x)) => walk_names(v, Some(x), names.drop_first()),
            },
        }
    }
}

/// Walking components that spell a path walks its names.
pub proof fn lemma_walk_spelled<D: BlockDevice>(
    v: VFat<D>,
    at: Reached,
    cs: Seq<PathPart>,
    abs: bool,
    parts: Seq<Seq<char>>,
)
    requires
        spells(cs, abs, parts),
    ensures
        walk(v, at, cs) == walk_names(v, at, parts),
    decreases cs.len(),
{
    if abs {
        assert(spells(cs.drop_first(), false, parts)) by {
            assert forall|i: int| 0 <= i < parts.len() implies ((#[trigger] cs.drop_first()[i])
                matches PathPart::Name(n) && n == parts[i]) by {
                assert(cs.drop_first()[i] == cs[i + 1]);
            }
        }
        lemma_walk_spelled(v, at, cs.drop_first(), false, parts);
    } else if cs.len() > 0 {
        assert(cs[0] matches PathPart::Name(n) && n == parts[0]);
        assert(lookup_name(cs[0]) == parts[0]);
        assert(spells(cs.drop_first(), false, parts.drop_first())) by {
            assert forall|i: int| 0 <= i < parts.drop_first().len() implies ((
            #[trigger] cs.drop_first()[i]) matches PathPart::Name(n) && n
                == parts.drop_first()[i]) by {
                assert(cs.drop_first()[i] == cs[i + 1]);
            }
        }
        match dir_cluster(v, at) {
            None => {},
            Some(c) => match find_in(v, c, parts[0]) {
                Some(Ok(x)) => {
                    lemma_walk_spelled(v, Some(x), cs.drop_first(), false, parts.drop_first());
                },
                _ => {},
            },
        }
    }
}

impl PathParts {
    /// A copy of this path.
    pub fn duplicate(&self) -> (p: PathParts)
        ensures
            path_view(p) == path_view(*self),
    {
        let parts = self.parts.clone();
        proof {
            assert(parts@.map_values(|s: String| s@) =~= self.parts@.map_values(|s: String| s@));
        }
        PathParts { absolute: self.absolute, parts }
    }

    /// The components that spell this path: the root directory when it is
    /// absolute, then its names.
    pub fn components(&self) -> (cs: Vec<Component>)
        ensures
            spells(parts_of(cs@), self.absolute, path_view(*self).1),
    {
        let mut cs: Vec<Component> = Vec::new();
        if self.absolute {
            cs.push(Component::RootDir);
        }
        let off: usize = if self.absolute {
            1
        } else {
            0
        };
        let mut i: usize = 0;
        while i < self.parts.len()
            invariant
                i <= self.parts@.len(),
                off == (if self.absolute {
                    1usize
                } else {
                    0usize
                }),
                cs@.len() == i + off,
                self.absolute ==> parts_of(cs@)[0] is Root,
                forall|j: int|
                    0 <= j < i ==> ((#[trigger] parts_of(cs@)[j + off]) matches PathPart::Name(
                        n,
                    ) && n == self.parts@[j]@),
            decreases self.parts@.len() - i,
        {
            let ghost before = cs@;
            cs.push(Component::Normal(self.parts[i].clone()));
            proof {
                assert(parts_of(cs@)[i + off] == PathPart::Name(self.parts@[i as int]@));
                assert forall|j: int| 0 <= j < i + 1 implies ((#[trigger] parts_of(cs@)[j + off])
                    matches PathPart::Name(n) && n == self.parts@[j]@) by {
                    if j < i {
                        assert(parts_of(cs@)[j + off] == parts_of(before)[j + off]);
                    }
                }
            }
            i = i + 1;
        }
        proof {
            let parts = path_view(*self).1;
            let ps = parts_of(cs@);
            if self.absolute {
                assert forall|j: int| 0 <= j < parts.len() implies ((#[trigger] ps[j + 1])
                    matches PathPart::Name(n) && n == parts[j]) by {
                    assert(ps[j + off] == ps[j + 1]);
                }
            } else {
                assert forall|j: int| 0 <= j < parts.len() implies ((#[trigger] ps[j])
                    matches PathPart::Name(n) && n == parts[j]) by {
                    assert(ps[j + off] == ps[j]);
                }
            }
        }
        cs
    }
}

/// Opens the directory at `path`, as `open` walks to it.
///
/// # Errors
///
/// `Other` when the path names a file; the errors of `open`.
pub fn open_dir<D: BlockDevice>(vfat: &mut VFat<D>, path: &str) -> (r: Result<Dir, IoError>)
    requires
        walk(*old(vfat), None, unix_components(path@)) is Some,
    ensures
        same_sectors(final(vfat).device, old(vfat).device),
        final(vfat).bytes_per_sector == old(vfat).bytes_per_sector,
        final(vfat).sectors_per_cluster == old(vfat).sectors_per_cluster,
        final(vfat).sectors_per_fat == old(vfat).sectors_per_fat,
        final(vfat).fat_start_sector == old(vfat).fat_start_sector,
        final(vfat).data_start_sector == old(vfat).data_start_sector,
        final(vfat).root_dir_cluster == old(vfat).root_dir_cluster,
        match walk(*old(vfat), None, unix_components(path@))->0 {
            Ok(at) => if dir_cluster(*old(vfat), at) is Some {
                r matches Ok(d) && is_reached(Entry::Dir(d), at, *old(vfat))
            } else {
                r == Err::<Dir, IoError>(IoError::Other)
            },
            Err(e) => r == Err::<Dir, IoError>(e),
        },
{
    match open(vfat, path) {
        Ok(Entry::Dir(d)) => Ok(d),
        Ok(Entry::File(_)) => Err(IoError::Other),
        Err(e) => Err(e),
    }
}

/// Opens the file at `path`, as `open` walks to it.
///
/// # Errors
///
/// `Other` when the path names a directory; the errors of `open`.
pub fn open_file<D: BlockDevice>(vfat: &mut VFat<D>, path: &str) -> (r: Result<
    File,
    IoError,
>)
    requires
        walk(*old(vfat), None, unix_components(path@)) is Some,
    ensures
        same_sectors(final(vfat).device, old(vfat).device),
        final(vfat).bytes_per_sector == old(vfat).bytes_per_sector,
        final(vfat).sectors_per_cluster == old(vfat).sectors_per_cluster,
        final(vfat).sectors_per_fat == old(vfat).sectors_per_fat,
        final(vfat).fat_start_sector == old(vfat).fat_start_sector,
        final(vfat).data_start_sector == old(vfat).data_start_sector,
        final(vfat).root_dir_cluster == old(vfat).root_dir_cluster,
        match walk(*old(vfat), None, unix_components(path@))->0 {
            Ok(at) => if dir_cluster(*old(vfat), at) is None {
                r matches Ok(f) && is_reached(Entry::File(f), at, *old(vfat))
            } else {
                r == Err::<File, IoError>(IoError::Other)
            },
            Err(e) => r == Err::<File, IoError>(e),
        },
{
    match open(vfat, path) {
        Ok(Entry::File(f)) => Ok(f),
        Ok(Entry::Dir(_)) => Err(IoError::Other),
        Err(e) => Err(e),
    }
}

/// Where `cd` goes from the directory `cwd` with the path components `arg`:
/// their canonical form from `cwd`, or `cwd` itself when it is refused.
pub open spec fn cd_target(cwd: PathView, arg: Seq<PathPart>) -> PathView {
    match canonical_from(cwd, arg) {
        Some(t) => t,
        None => cwd,
    }
}

/// Changes the directory `cwd` by the path `arg`: the new directory is
/// `cd_target`, answered when it is a directory; `None` when it is not one
/// or cannot be opened.
pub fn change_dir<D: BlockDevice>(vfat: &mut VFat<D>, cwd: &PathParts, arg: &str) -> (r:
    Option<PathParts>)
    requires
        walk_names(*old(vfat), None, cd_target(path_view(*cwd), unix_components(arg@)).1) is Some,
    ensures
        same_sectors(final(vfat).device, old(vfat).device),
        final(vfat).bytes_per_sector == old(vfat).bytes_per_sector,
        final(vfat).sectors_per_cluster == old(vfat).sectors_per_cluster,
        final(vfat).sectors_per_fat == old(vfat).sectors_per_fat,
        final(vfat).fat_start_sector == old(vfat).fat_start_sector,
        final(vfat).data_start_sector == old(vfat).data_start_sector,
        final(vfat).root_dir_cluster == old(vfat).root_dir_cluster,
        ({
            let t = cd_target(path_view(*cwd), unix_components(arg@));
            match walk_names(*old(vfat), None, t.1)->0 {
                Ok(at) => if dir_cluster(*old(vfat), at) is Some {
                    r matches Some(p) && path_view(p) == t
                } else {
                    r is None
                },
                Err(_) => r is None,
            }
        }),
{
    let target = match canonicalize_from(cwd.duplicate(), arg) {
        Ok(p) => p,
        Err(_) => cwd.duplicate(),
    };
    let cs = target.components();
    proof {
        lemma_walk_spelled(*vfat, None, parts_of(cs@), target.absolute, path_view(target).1);
    }
    match open_parts(vfat, &cs) {
        Ok(Entry::Dir(_)) => Some(target),
        _ => None,
    }
}

/// Applying the components `a` and then `b` to a path is applying `b` to
/// what `a` gave.
pub proof fn lemma_canonical_append(st: PathView, a: Seq<PathPart>, b: Seq<PathPart>)
    ensures
        canonical_from(st, a + b) == match canonical_from(st, a) {
            Some(m) => canonical_from(m, b),
            None => None,
        },
    decreases b.len(),
{
    if b.len() == 0 {
        assert(a + b =~= a);
    } else {
        assert((a + b).drop_last() =~= a + b.drop_last());
        assert((a + b).last() == b.last());
        lemma_canonical_append(st, a, b.drop_last());
    }
}

/// Joining components onto a directory and then canonicalizing is
/// canonicalizing them from that directory: the components `a` spell the
/// directory `(abs, parts)`, whose canonical form is itself.
pub proof fn lemma_canonical_join(a: Seq<PathPart>, abs: bool, parts: Seq<Seq<char>>, b: Seq<PathPart>)
    requires
        spells(a, abs, parts),
    ensures
        canonical(a + b) == canonical_from((abs, parts), b),
{
    lemma_spelled_prefix(a, abs, parts, a.len() as int);
    assert(a.subrange(0, a.len() as int) =~= a);
    assert(parts.subrange(0, parts.len() as int) =~= parts);
    lemma_canonical_append((false, Seq::empty()), a, b);
}

/// The text of a path: a leading `/` when it is absolute, then the names
/// separated by `/`.
pub open spec fn path_text(abs: bool, parts: Seq<Seq<char>>) -> Seq<char>
    decreases parts.len(),
{
    if parts.len() == 0 {
        if abs {
            seq!['/']
        } else {
            Seq::empty()
        }
    } else if parts.len() == 1 && !abs {
        parts[0]
    } else {
        let head = path_text(abs, parts.drop_last());
        if head.len() > 0 && head.last() == '/' {
            head + parts.last()
        } else {
            head + seq!['/'] + parts.last()
        }
    }
}

/// A name that a canonical path can hold: not empty, without `/`, and
/// neither `.` nor `..`.
pub open spec fn clean_name(n: Seq<char>) -> bool {
    &&& n.len() > 0
    &&& forall|i: int| 0 <= i < n.len() ==> n[i] != '/'
    &&& n != seq!['.']
    &&& n != seq!['.', '.']
}

/// Every name among the components `cs` is clean.
pub open spec fn names_clean(cs: Seq<PathPart>) -> bool {
    forall|i: int| 0 <= i < cs.len() ==> ((#[trigger] cs[i]) matches PathPart::Name(n) ==> clean_name(n))
}

/// Every part of `parts` is clean.
pub open spec fn parts_clean(parts: Seq<Seq<char>>) -> bool {
    forall|i: int| 0 <= i < parts.len() ==> clean_name(#[trigger] parts[i])
}

/// The pieces between slashes hold no slash, and there is at least one.
proof fn lemma_split_pieces(p: Seq<char>)
    ensures
        split_slash(p).len() >= 1,
        forall|i: int, j: int|
            0 <= i < split_slash(p).len() && 0 <= j < split_slash(p)[i].len() ==> #[trigger] split_slash(p)[i][j]
                != '/',
    decreases p.len(),
{
    if p.len() > 0 {
        lemma_split_pieces(p.drop_last());
    }
}

/// Appending text without a slash extends the last piece.
proof fn lemma_split_no_slash(t: Seq<char>, n: Seq<char>)
    requires
        forall|i: int| 0 <= i < n.len() ==> n[i] != '/',
    ensures
        split_slash(t + n) == split_slash(t).update(
            split_slash(t).len() - 1,
            split_slash(t).last() + n,
        ),
    decreases n.len(),
{
    lemma_split_pieces(t);
    if n.len() == 0 {
        assert(t + n =~= t);
        assert(split_slash(t).last() + n =~= split_slash(t).last());
        assert(split_slash(t).update(split_slash(t).len() - 1, split_slash(t).last())
            =~= split_slash(t));
    } else {
        lemma_split_no_slash(t, n.drop_last());
        assert((t + n).drop_last() =~= t + n.drop_last());
        assert((t + n).last() == n.last());
        assert(split_slash(t).last() + n.drop_last() + seq![n.last()] =~= split_slash(t).last() + n);
        assert((split_slash(t).last() + n.drop_last()).push(n.last()) =~= split_slash(t).last() + n);
        assert(split_slash(t + n) =~= split_slash(t).update(
            split_slash(t).len() - 1,
            split_slash(t).last() + n,
        ));
    }
}

/// The components of pieces joined are the components of each part.
proof fn lemma_pieces_append(a: Seq<Seq<char>>, b: Seq<Seq<char>>)
    ensures
        pieces_parts(a + b) == pieces_parts(a) + pieces_parts(b),
    decreases b.len(),
{
    if b.len() == 0 {
        assert(a + b =~= a);
        assert(pieces_parts(a) + pieces_parts(b) =~= pieces_parts(a));
    } else {
        assert((a + b).drop_last() =~= a + b.drop_last());
        assert((a + b).last() == b.last());
        lemma_pieces_append(a, b.drop_last());
        assert(pieces_parts(a) + pieces_parts(b.drop_last()) + piece_parts(b.last()) =~= pieces_parts(a)
            + (pieces_parts(b.drop_last()) + piece_parts(b.last())));
    }
}

/// Clean parts are names, one component each.
proof fn lemma_pieces_clean(parts: Seq<Seq<char>>)
    requires
        parts_clean(parts),
    ensures
        pieces_parts(parts) == parts.map_values(|n: Seq<char>| PathPart::Name(n)),
    decreases parts.len(),
{
    if parts.len() > 0 {
        lemma_pieces_clean(parts.drop_last());
        assert(clean_name(parts[parts.len() - 1]));
        assert(parts.map_values(|n: Seq<char>| PathPart::Name(n)) =~= parts.drop_last().map_values(
            |n: Seq<char>| PathPart::Name(n),
        ) + seq![PathPart::Name(parts.last())]);
    } else {
        assert(parts.map_values(|n: Seq<char>| PathPart::Name(n)) =~= Seq::<PathPart>::empty());
    }
}

/// The names among the components of any path are clean.
proof fn lemma_components_clean(p: Seq<char>)
    ensures
        names_clean(unix_components(p)),
{
    let ps = split_slash(p);
    lemma_split_pieces(p);
    lemma_pieces_each_clean(ps);
    let head = if p.len() > 0 && p[0] == '/' {
        seq![PathPart::Root]
    } else if ps[0] == seq!['.'] {
        seq![PathPart::Cur]
    } else {
        Seq::empty()
    };
    assert forall|i: int| 0 <= i < unix_components(p).len() implies ((#[trigger] unix_components(
        p,
    )[i]) matches PathPart::Name(n) ==> clean_name(n)) by {
        if i >= head.len() {
            assert(unix_components(p)[i] == pieces_parts(ps)[i - head.len()]);
        }
    }
}

/// The components of slash-free pieces have clean names.
proof fn lemma_pieces_each_clean(ps: Seq<Seq<char>>)
    requires
        forall|i: int, j: int| 0 <= i < ps.len() && 0 <= j < ps[i].len() ==> #[trigger] ps[i][j] != '/',
    ensures
        names_clean(pieces_parts(ps)),
    decreases ps.len(),
{
    if ps.len() > 0 {
        lemma_pieces_each_clean(ps.drop_last());
        let n = ps.last();
        assert forall|j: int| 0 <= j < n.len() implies n[j] != '/' by {
            assert(ps[ps.len() - 1][j] != '/');
        }
        let a = pieces_parts(ps.drop_last());
        let b = piece_parts(n);
        assert forall|i: int| 0 <= i < pieces_parts(ps).len() implies ((#[trigger] pieces_parts(
            ps,
        )[i]) matches PathPart::Name(m) ==> clean_name(m)) by {
            if i < a.len() {
                assert(pieces_parts(ps)[i] == a[i]);
            } else {
                assert(pieces_parts(ps)[i] == b[i - a.len()]);
            }
        }
    }
}

/// Canonicalizing keeps the parts clean when the components' names are.
proof fn lemma_canonical_clean(st: PathView, cs: Seq<PathPart>)
    requires
        parts_clean(st.1),
        names_clean(cs),
    ensures
        canonical_from(st, cs) matches Some(v) ==> parts_clean(v.1),
    decreases cs.len(),
{
    if cs.len() > 0 {
        assert(names_clean(cs.drop_last())) by {
            assert forall|i: int| 0 <= i < cs.drop_last().len() implies ((#[trigger] cs.drop_last()[i]) matches PathPart::Name(n) ==> clean_name(n)) by {
                assert(cs.drop_last()[i] == cs[i]);
            }
        }
        lemma_canonical_clean(st, cs.drop_last());
        assert(cs[cs.len() - 1] == cs.last());
    }
}

/// The text of a path of clean names, split at slashes: an empty piece for
/// the leading `/`, then the names.
proof fn lemma_text_split(abs: bool, parts: Seq<Seq<char>>)
    requires
        parts_clean(parts),
    ensures
        split_slash(path_text(abs, parts)) == (if parts.len() == 0 {
            if abs {
                seq![Seq::<char>::empty(), Seq::<char>::empty()]
            } else {
                seq![Seq::<char>::empty()]
            }
        } else if abs {
            seq![Seq::<char>::empty()] + parts
        } else {
            parts
        }),
        abs ==> path_text(abs, parts).len() > 0 && path_text(abs, parts)[0] == '/',
        !abs && parts.len() > 0 ==> path_text(abs, parts).len() > 0 && path_text(abs, parts)[0]
            == parts[0][0],
        !abs && parts.len() == 0 ==> path_text(abs, parts).len() == 0,
        parts.len() > 0 ==> path_text(abs, parts).len() > 0 && path_text(abs, parts).last() != '/',
    decreases parts.len(),
{
    let e = Seq::<char>::empty();
    if parts.len() == 0 {
        if abs {
            assert(seq!['/'].drop_last() =~= e);
            assert(split_slash(e) == seq![e]);
        }
    } else {
        let n = parts.last();
        assert(clean_name(parts[parts.len() - 1]));
        assert(forall|i: int| 0 <= i < n.len() ==> n[i] != '/');
        if parts.len() == 1 && !abs {
            lemma_split_no_slash(e, n);
            assert(e + n =~= n);
            assert(seq![e].update(0, e + n) =~= parts);
        } else {
            let pl = parts.drop_last();
            assert(parts_clean(pl)) by {
                assert forall|i: int| 0 <= i < pl.len() implies clean_name(#[trigger] pl[i]) by {
                    assert(pl[i] == parts[i]);
                }
            }
            lemma_text_split(abs, pl);
            let head = path_text(abs, pl);
            if head.len() > 0 && head.last() == '/' {
                assert(pl.len() == 0 && abs);
                lemma_split_no_slash(head, n);
                assert(seq![e, e].update(1, e + n) =~= seq![e] + parts);
                assert((head + n)[0] == head[0]);
            } else {
                let hs = head + seq!['/'];
                assert(hs.drop_last() =~= head);
                assert(hs.last() == '/');
                lemma_split_no_slash(hs, n);
                lemma_split_pieces(head);
                assert(split_slash(hs) == split_slash(head).push(e));
                assert(split_slash(hs).update(split_slash(hs).len() - 1, e + n) =~= split_slash(head).push(n));
                if abs {
                    assert((seq![e] + pl).push(n) =~= seq![e] + parts);
                } else {
                    assert(pl.push(n) =~= parts);
                    assert(pl[0] == parts[0]);
                }
                assert((hs + n)[0] == head[0]);
            }
            assert(n.len() > 0);
        }
    }
}

/// Canonicalizing is idempotent on text: the text of a canonical path
/// canonicalizes to that same path.
pub proof fn lemma_canonical_text_idempotent(p: Seq<char>, abs: bool, parts: Seq<Seq<char>>)
    requires
        canonical(unix_components(p)) == Some((abs, parts)),
    ensures
        canonical(unix_components(path_text(abs, parts))) == Some((abs, parts)),
{
    lemma_components_clean(p);
    lemma_canonical_clean((false, Seq::empty()), unix_components(p));
    lemma_text_split(abs, parts);
    let t = path_text(abs, parts);
    let ps = split_slash(t);
    let e = Seq::<char>::empty();
    lemma_pieces_clean(parts);
    let names = parts.map_values(|n: Seq<char>| PathPart::Name(n));
    assert(piece_parts(e) =~= Seq::<PathPart>::empty());
    assert(pieces_parts(seq![e]) =~= Seq::<PathPart>::empty()) by {
        assert(seq![e].drop_last() =~= Seq::<Seq<char>>::empty());
        assert(seq![e].last() == e);
        assert(pieces_parts(Seq::<Seq<char>>::empty()) == Seq::<PathPart>::empty());
        assert(pieces_parts(seq![e]) == pieces_parts(seq![e].drop_last()) + piece_parts(e));
    }
    if parts.len() == 0 {
        if abs {
            assert(pieces_parts(seq![e, e]) =~= Seq::<PathPart>::empty()) by {
                assert(seq![e, e].drop_last() =~= seq![e]);
            }
            assert(unix_components(t) =~= seq![PathPart::Root]);
        } else {
            assert(ps[0] != seq!['.']) by {
                assert(ps[0].len() == 0);
            }
            assert(unix_components(t) =~= Seq::<PathPart>::empty());
        }
    } else {
        if abs {
            lemma_pieces_append(seq![e], parts);
            assert(unix_components(t) =~= seq![PathPart::Root] + names);
        } else {
            assert(clean_name(parts[0]));
            assert(t[0] != '/');
            assert(ps[0] != seq!['.']);
            assert(unix_components(t) =~= names);
        }
    }
    assert(spells(unix_components(t), abs, parts));
    lemma_canonical_idempotent(unix_components(p), abs, parts, unix_components(t));
}

impl PathParts {
    /// The path as text, as `path_text` writes it.
    pub fn to_text(&self) -> (s: String)
        ensures
            s@ == path_text(self.absolute, path_view(*self).1),
    {
        let ghost parts = path_view(*self).1;
        let mut out: Vec<char> = Vec::new();
        if self.absolute {
            out.push('/');
        }
        let mut i: usize = 0;
        proof {
            assert(parts.subrange(0, 0) =~= Seq::<Seq<char>>::empty());
        }
        while i < self.parts.len()
            invariant
                i <= self.parts@.len(),
                parts == path_view(*self).1,
                out@ == path_text(self.absolute, parts.subrange(0, i as int)),
            decreases self.parts@.len() - i,
        {
            let ghost head = out@;
            let needs_slash = if i == 0 && !self.absolute {
                false
            } else {
                !(out.len() > 0 && out[out.len() - 1] == '/')
            };
            if needs_slash {
                out.push('/');
            }
            let cs = str_chars(self.parts[i].as_str());
            let mut j: usize = 0;
            let ghost mid = out@;
            while j < cs.len()
                invariant
                    j <= cs@.len(),
                    out@ == mid + cs@.subrange(0, j as int),
                decreases cs@.len() - j,
            {
                out.push(cs[j]);
                j = j + 1;
                proof {
                    assert(out@ =~= mid + cs@.subrange(0, j as int));
                }
            }
            proof {
                assert(cs@.subrange(0, cs@.len() as int) =~= cs@);
                let pre = parts.subrange(0, i + 1);
                assert(pre.drop_last() =~= parts.subrange(0, i as int));
                assert(pre.last() == parts[i as int]);
                if i == 0 && !self.absolute {
                    assert(head =~= Seq::<char>::empty());
                    assert(out@ =~= parts[0]);
                } else if needs_slash {
                    assert(out@ =~= head + seq!['/'] + pre.last());
                } else {
                    assert(out@ =~= head + pre.last());
                }
            }
            i = i + 1;
        }
        proof {
            assert(parts.subrange(0, parts.len() as int) =~= parts);
        }
        string_from_chars(out.as_slice())
    }
}

} // verus!
