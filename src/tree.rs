//! Tree objects: entry modes, the canonical entry order, and the byte layout
//! of a tree's payload.
use vstd::prelude::*;
use vstd::multiset::Multiset;
use core::cmp::Ordering;
use crate::bytes::{
    append_bytes,
    bytes_eq,
    copy_range,
    find_byte_from,
    first_index,
    lemma_first_index_at,
    lemma_first_index_sound,
};
use crate::object::{Kind, Object};

verus! {

/// The mode of a tree entry.
#[derive(Clone, Copy, Debug, PartialEq, Eq, Structural)]
pub enum Mode {
    Directory,
    Regular,
    Executable,
    Symlink,
}

/// The ASCII text of a mode in a tree record.
pub open spec fn mode_text(m: Mode) -> Seq<u8> {
    match m {
        Mode::Directory => seq![0x34u8, 0x30, 0x30, 0x30, 0x30],
        Mode::Regular => seq![0x31u8, 0x30, 0x30, 0x36, 0x34, 0x34],
        Mode::Executable => seq![0x31u8, 0x30, 0x30, 0x37, 0x35, 0x35],
        Mode::Symlink => seq![0x31u8, 0x32, 0x30, 0x30, 0x30, 0x30],
    }
}

impl Mode {
    /// The mode's text: `40000`, `100644`, `100755` or `120000`.
    pub fn text(&self) -> (r: Vec<u8>)
        ensures
            r@ == mode_text(*self),
    {
        let r = match self {
            Mode::Directory => vec![0x34u8, 0x30, 0x30, 0x30, 0x30],
            Mode::Regular => vec![0x31u8, 0x30, 0x30, 0x36, 0x34, 0x34],
            Mode::Executable => vec![0x31u8, 0x30, 0x30, 0x37, 0x35, 0x35],
            Mode::Symlink => vec![0x31u8, 0x32, 0x30, 0x30, 0x30, 0x30],
        };
        assert(r@ =~= mode_text(*self));
        r
    }
}

/// Whether any of the owner, group or other execute bits is set.
pub fn is_executable(permissions: u32) -> (r: bool)
    ensures
        r == (permissions & 0o111u32 != 0),
{
    permissions & 0o111u32 != 0
}

/// The mode of a directory child: directories first, then symbolic links,
/// then files by their execute bits.
pub fn child_mode(is_dir: bool, is_symlink: bool, permissions: u32) -> (r: Mode)
    ensures
        r == if is_dir {
            Mode::Directory
        } else if is_symlink {
            Mode::Symlink
        } else if permissions & 0o111u32 != 0 {
            Mode::Executable
        } else {
            Mode::Regular
        },
{
    if is_dir {
        Mode::Directory
    } else if is_symlink {
        Mode::Symlink
    } else if is_executable(permissions) {
        Mode::Executable
    } else {
        Mode::Regular
    }
}

/// Whether a child named `name` is the store's own directory, named
/// `reserved`, which a tree never records.
pub fn is_reserved(name: &[u8], reserved: &[u8]) -> (r: bool)
    ensures
        r == (name@ == reserved@),
{
    bytes_eq(name, reserved)
}

/// One child of a tree: its mode, its name and the hash of its object.
#[derive(Debug)]
pub struct TreeEntry {
    pub mode: Mode,
    pub name: Vec<u8>,
    pub hash: [u8; 20],
}

/// Byte-lexicographic order; a proper prefix comes first.
pub open spec fn cmp_bytes(a: Seq<u8>, b: Seq<u8>) -> Ordering
    decreases a.len(),
{
    if a.len() == 0 || b.len() == 0 {
        if a.len() == b.len() {
            Ordering::Equal
        } else if a.len() == 0 {
            Ordering::Less
        } else {
            Ordering::Greater
        }
    } else if a[0] < b[0] {
        Ordering::Less
    } else if a[0] > b[0] {
        Ordering::Greater
    } else {
        cmp_bytes(a.drop_first(), b.drop_first())
    }
}

/// The byte an entry name is compared by at position `n`: its own byte if
/// it has one, else `/` for a directory, else nothing.
pub open spec fn byte_at(name: Seq<u8>, is_dir: bool, n: int) -> Option<u8> {
    if n < name.len() {
        Some(name[n])
    } else if is_dir {
        Some(0x2fu8)
    } else {
        None
    }
}

/// Order of optional bytes: nothing first, then by value.
pub open spec fn cmp_opt(a: Option<u8>, b: Option<u8>) -> Ordering {
    match (a, b) {
        (None, None) => Ordering::Equal,
        (None, Some(_)) => Ordering::Less,
        (Some(_), None) => Ordering::Greater,
        (Some(x), Some(y)) => if x < y {
            Ordering::Less
        } else if x > y {
            Ordering::Greater
        } else {
            Ordering::Equal
        },
    }
}

/// The directory-aware name order: names compare byte by byte over their
/// common length; if that ties, equal lengths are equal, and otherwise the
/// byte at the shorter name's end decides, where a directory reads as if its
/// name ended in `/`.
pub open spec fn name_order(a: Seq<u8>, a_dir: bool, b: Seq<u8>, b_dir: bool) -> Ordering {
    let n = if a.len() <= b.len() {
        a.len() as int
    } else {
        b.len() as int
    };
    let c = cmp_bytes(a.subrange(0, n), b.subrange(0, n));
    if c != Ordering::Equal {
        c
    } else if a.len() == b.len() {
        Ordering::Equal
    } else {
        cmp_opt(byte_at(a, a_dir, n), byte_at(b, b_dir, n))
    }
}

/// The order of two tree entries.
#[verifier::opaque]
pub open spec fn entry_order(a: TreeEntry, b: TreeEntry) -> Ordering {
    name_order(a.name@, a.mode == Mode::Directory, b.name@, b.mode == Mode::Directory)
}

/// Whether no entry of `s` comes after the one that follows it.
pub open spec fn in_tree_order(s: Seq<TreeEntry>) -> bool {
    forall|i: int| 0 <= i < s.len() - 1 ==> #[trigger] entry_order(s[i], s[i + 1]) != Ordering::Greater
}

/// The reverse of an ordering.
pub open spec fn flip(o: Ordering) -> Ordering {
    match o {
        Ordering::Less => Ordering::Greater,
        Ordering::Equal => Ordering::Equal,
        Ordering::Greater => Ordering::Less,
    }
}

proof fn lemma_cmp_bytes_flip(a: Seq<u8>, b: Seq<u8>)
    ensures
        cmp_bytes(b, a) == flip(cmp_bytes(a, b)),
    decreases a.len(),
{
    if a.len() > 0 && b.len() > 0 && a[0] == b[0] {
        lemma_cmp_bytes_flip(a.drop_first(), b.drop_first());
    }
}

/// Swapping two entries reverses their order.
pub proof fn lemma_entry_order_flip(a: TreeEntry, b: TreeEntry)
    ensures
        entry_order(b, a) == flip(entry_order(a, b)),
{
    let n = if a.name@.len() <= b.name@.len() {
        a.name@.len() as int
    } else {
        b.name@.len() as int
    };
    lemma_cmp_bytes_flip(a.name@.subrange(0, n), b.name@.subrange(0, n));
    reveal(entry_order);
}

/// Compares two entries in the directory-aware name order.
pub fn compare_entries(a: &TreeEntry, b: &TreeEntry) -> (r: Ordering)
    ensures
        r == entry_order(*a, *b),
{
    let x = a.name.as_slice();
    let y = b.name.as_slice();
    let n: usize = if x.len() <= y.len() {
        x.len()
    } else {
        y.len()
    };
    assert(x@ == a.name@ && y@ == b.name@);
    assert(x@.subrange(0, n as int) == x@.subrange(0, n as int).subrange(0, n as int));
    let ghost full = cmp_bytes(x@.subrange(0, n as int), y@.subrange(0, n as int));
    let mut i: usize = 0;
    while i < n
        invariant
            i <= n,
            n <= x@.len(),
            n <= y@.len(),
            x@ == a.name@,
            y@ == b.name@,
            n == x@.len() || n == y@.len(),
            full == cmp_bytes(x@.subrange(0, n as int), y@.subrange(0, n as int)),
            full == cmp_bytes(x@.subrange(i as int, n as int), y@.subrange(i as int, n as int)),
        decreases n - i,
    {
        let ghost xs = x@.subrange(i as int, n as int);
        let ghost ys = y@.subrange(i as int, n as int);
        assert(xs.len() > 0 && ys.len() > 0);
        assert(xs[0] == x@[i as int]);
        assert(ys[0] == y@[i as int]);
        if x[i] < y[i] {
            assert(full == Ordering::Less);
            proof {
                reveal(entry_order);
            }
            return Ordering::Less;
        }
        if x[i] > y[i] {
            assert(full == Ordering::Greater);
            proof {
                reveal(entry_order);
            }
            return Ordering::Greater;
        }
        assert(xs.drop_first() =~= x@.subrange(i + 1, n as int));
        assert(ys.drop_first() =~= y@.subrange(i + 1, n as int));
        i = i + 1;
    }
    proof {
        reveal(entry_order);
    }
    if x.len() == y.len() {
        return Ordering::Equal;
    }
    let ca: Option<u8> = if n < x.len() {
        Some(x[n])
    } else if a.mode == Mode::Directory {
        Some(0x2fu8)
    } else {
        None
    };
    let cb: Option<u8> = if n < y.len() {
        Some(y[n])
    } else if b.mode == Mode::Directory {
        Some(0x2fu8)
    } else {
        None
    };
    match (ca, cb) {
        (None, None) => Ordering::Equal,
        (None, Some(_)) => Ordering::Less,
        (Some(_), None) => Ordering::Greater,
        (Some(p), Some(q)) => if p < q {
            Ordering::Less
        } else if p > q {
            Ordering::Greater
        } else {
            Ordering::Equal
        },
    }
}

/// Inserting an entry after all that do not come after it, and before one
/// that does, keeps a sequence in tree order.
proof fn lemma_insert_in_order(s: Seq<TreeEntry>, p: int, e: TreeEntry)
    requires
        0 <= p <= s.len(),
        in_tree_order(s),
        forall|j: int| 0 <= j < p ==> entry_order(s[j], e) != Ordering::Greater,
        p < s.len() ==> entry_order(e, s[p]) == Ordering::Less,
    ensures
        in_tree_order(s.insert(p, e)),
{
    let t = s.insert(p, e);
    assert forall|i: int| 0 <= i < t.len() - 1 implies #[trigger] entry_order(t[i], t[i + 1])
        != Ordering::Greater by {
        if i + 1 < p {
            assert(t[i] == s[i] && t[i + 1] == s[i + 1]);
            assert(entry_order(s[i], s[i + 1]) != Ordering::Greater);
        } else if i + 1 == p {
            assert(t[i] == s[i] && t[i + 1] == e);
            assert(entry_order(s[i], e) != Ordering::Greater);
        } else if i == p {
            assert(t[i] == e && t[i + 1] == s[i]);
        } else {
            let k = i - 1;
            assert(t[i] == s[k] && t[i + 1] == s[k + 1]);
            assert(entry_order(s[k], s[k + 1]) != Ordering::Greater);
        }
    }
}

/// Moving the entry popped off `rest` into `out` keeps their joint contents.
proof fn lemma_move_one(
    out: Seq<TreeEntry>,
    rest: Seq<TreeEntry>,
    p: int,
    e: TreeEntry,
    all: Multiset<TreeEntry>,
)
    requires
        0 <= p <= out.len(),
        out.to_multiset().add(rest.push(e).to_multiset()) == all,
    ensures
        out.insert(p, e).to_multiset().add(rest.to_multiset()) == all,
{
    broadcast use vstd::multiset::group_multiset_axioms;

    vstd::seq_lib::to_multiset_build(rest, e);
    vstd::seq_lib::to_multiset_insert(out, p, e);
    assert(out.insert(p, e).to_multiset().add(rest.to_multiset()) =~= all);
}

/// Puts entries in tree order; the result holds the same entries.
pub fn sort_entries(entries: Vec<TreeEntry>) -> (r: Vec<TreeEntry>)
    ensures
        in_tree_order(r@),
        r@.to_multiset() == entries@.to_multiset(),
{
    broadcast use vstd::multiset::group_multiset_axioms;

    let ghost all = entries@.to_multiset();
    let mut rest = entries;
    let mut out: Vec<TreeEntry> = Vec::new();
    assert(out@.to_multiset() =~= Multiset::<TreeEntry>::empty()) by {
        vstd::seq_lib::to_multiset_len(out@);
    }
    while rest.len() > 0
        invariant
            in_tree_order(out@),
            out@.to_multiset().add(rest@.to_multiset()) == all,
        decreases rest@.len(),
    {
        let ghost before = rest@;
        let e = rest.pop().unwrap();
        assert(before =~= rest@.push(e));
        let mut p: usize = 0;
        while p < out.len()
            invariant
                p <= out@.len(),
                forall|j: int| 0 <= j < p ==> entry_order(out@[j], e) != Ordering::Greater,
            ensures
                p <= out@.len(),
                forall|j: int| 0 <= j < p ==> entry_order(out@[j], e) != Ordering::Greater,
                p < out@.len() ==> entry_order(out@[p as int], e) == Ordering::Greater,
            decreases out@.len() - p,
        {
            if let Ordering::Greater = compare_entries(&out[p], &e) {
                break ;
            }
            p = p + 1;
        }
        let ghost old_out = out@;
        proof {
            if p < out@.len() {
                lemma_entry_order_flip(out@[p as int], e);
            }
        }
        out.insert(p, e);
        proof {
            lemma_insert_in_order(old_out, p as int, e);
            lemma_move_one(old_out, rest@, p as int, e, all);
        }
    }
    proof {
        vstd::seq_lib::to_multiset_len(rest@);
        assert(rest@.to_multiset() =~= Multiset::<TreeEntry>::empty());
        assert(out@.to_multiset() =~= all);
    }
    out
}

/// The record of one entry in a tree payload:
/// `"<mode> <name>\0"` followed by the 20 raw hash bytes.
pub open spec fn entry_record(e: TreeEntry) -> Seq<u8> {
    mode_text(e.mode) + seq![0x20u8] + e.name@ + seq![0u8] + e.hash@
}

/// The records of `s`, in order, with nothing between them.
pub open spec fn records(s: Seq<TreeEntry>) -> Seq<u8>
    decreases s.len(),
{
    if s.len() == 0 {
        Seq::empty()
    } else {
        records(s.drop_last()) + entry_record(s.last())
    }
}

proof fn lemma_records_len(s: Seq<TreeEntry>)
    ensures
        records(s).len() >= s.len(),
    decreases s.len(),
{
    if s.len() > 0 {
        lemma_records_len(s.drop_last());
    }
}

/// The records of `entries`, in the order given.
pub fn tree_payload(entries: &Vec<TreeEntry>) -> (r: Vec<u8>)
    ensures
        r@ == records(entries@),
{
    let mut out: Vec<u8> = Vec::new();
    let mut i: usize = 0;
    while i < entries.len()
        invariant
            i <= entries@.len(),
            out@ == records(entries@.subrange(0, i as int)),
        decreases entries@.len() - i,
    {
        let e = &entries[i];
        let ghost before = out@;
        let mode = e.mode.text();
        append_bytes(&mut out, mode.as_slice());
        out.push(0x20u8);
        append_bytes(&mut out, e.name.as_slice());
        out.push(0u8);
        append_bytes(&mut out, e.hash.as_slice());
        proof {
            let next = entries@.subrange(0, i + 1);
            assert(next.drop_last() =~= entries@.subrange(0, i as int));
            assert(out@ =~= before + entry_record(*e));
        }
        i = i + 1;
    }
    assert(entries@.subrange(0, entries@.len() as int) =~= entries@);
    out
}

/// The tree object for a directory's surviving children: their records in
/// tree order, or `None` when there are none, as a directory with nothing to
/// record is not stored.
pub fn tree_object(entries: Vec<TreeEntry>) -> (r: Option<Object>)
    ensures
        r.is_none() == (entries@.len() == 0),
        r matches Some(o) ==> o.kind == Kind::Tree && o.size_matches() && exists|s: Seq<TreeEntry>|
            in_tree_order(s) && s.to_multiset() == entries@.to_multiset() && o.payload@ == records(
                s,
            ),
{
    let ghost given = entries@;
    let sorted = sort_entries(entries);
    let payload = tree_payload(&sorted);
    proof {
        vstd::seq_lib::to_multiset_len(sorted@);
        vstd::seq_lib::to_multiset_len(given);
        lemma_records_len(sorted@);
    }
    if payload.len() == 0 {
        None
    } else {
        Some(Object::new(Kind::Tree, payload))
    }
}

/// Collects the children of one directory as they are hashed, and yields
/// the directory's tree object.
pub struct TreeBuilder {
    entries: Vec<TreeEntry>,
}

impl View for TreeBuilder {
    type V = Seq<TreeEntry>;

    /// The entries collected so far, in the order they were added.
    closed spec fn view(&self) -> Seq<TreeEntry> {
        self.entries@
    }
}

impl TreeBuilder {
    /// A builder with no entries.
    pub fn new() -> (r: TreeBuilder)
        ensures
            r@ == Seq::<TreeEntry>::empty(),
    {
        TreeBuilder { entries: Vec::new() }
    }

    /// Records a child with its mode and name, given the hash of its object,
    /// or nothing for a subdirectory that had nothing to record; such a
    /// child is left out.
    pub fn add(&mut self, mode: Mode, name: Vec<u8>, hash: Option<[u8; 20]>)
        ensures
            final(self)@ == match hash {
                Some(h) => old(self)@.push((TreeEntry { mode, name, hash: h })),
                None => old(self)@,
            },
    {
        match hash {
            Some(h) => self.entries.push(TreeEntry { mode, name, hash: h }),
            None => {},
        }
    }

    /// The directory's tree object; see `tree_object`.
    pub fn finish(self) -> (r: Option<Object>)
        ensures
            r.is_none() == (self@.len() == 0),
            r matches Some(o) ==> o.kind == Kind::Tree && o.size_matches() && exists|
                s: Seq<TreeEntry>,
            |
                in_tree_order(s) && s.to_multiset() == self@.to_multiset() && o.payload@ == records(
                    s,
                ),
    {
        tree_object(self.entries)
    }
}

/// The records of a sequence are the first entry's record followed by the
/// records of the rest.
proof fn lemma_records_front(s: Seq<TreeEntry>)
    requires
        s.len() > 0,
    ensures
        records(s) == entry_record(s[0]) + records(s.drop_first()),
    decreases s.len(),
{
    if s.len() == 1 {
        assert(s.drop_last() =~= Seq::<TreeEntry>::empty());
        assert(s.drop_first() =~= Seq::<TreeEntry>::empty());
        assert(records(s) =~= entry_record(s[0]) + records(s.drop_first()));
    } else {
        lemma_records_front(s.drop_last());
        assert(s.drop_last().drop_first() =~= s.drop_first().drop_last());
        assert(s.drop_last()[0] == s[0]);
        assert(s.drop_first().last() == s.last());
        assert(records(s) =~= entry_record(s[0]) + records(s.drop_first()));
    }
}

/// What reading back a tree's records should give for `s`: each entry's mode
/// text, name and hash.
pub open spec fn written_records(s: Seq<TreeEntry>) -> Seq<(Seq<u8>, Seq<u8>, Seq<u8>)> {
    s.map_values(|e: TreeEntry| (mode_text(e.mode), e.name@, e.hash@))
}

/// Reading back the records written for entries whose names hold no NUL
/// gives each entry's mode, name and hash, in order.
pub proof fn lemma_records_read_back(s: Seq<TreeEntry>)
    requires
        forall|i: int, j: int| 0 <= i < s.len() && 0 <= j < s[i].name@.len() ==> s[i].name@[j] != 0,
    ensures
        parse_records(records(s)) == Some(written_records(s)),
    decreases s.len(),
{
    if s.len() == 0 {
        assert(written_records(s) =~= Seq::empty());
    } else {
        let e = s[0];
        let tail = s.drop_first();
        assert forall|i: int, j: int| 0 <= i < tail.len() && 0 <= j < tail[i].name@.len() implies tail[i].name@[j] != 0 by {
            assert(tail[i] == s[i + 1]);
        }
        lemma_records_read_back(tail);
        lemma_records_front(s);
        let m = mode_text(e.mode);
        let p = records(s);
        let text = m + seq![0x20u8] + e.name@;
        let z = text.len() as int;
        assert(p =~= text + seq![0u8] + e.hash@ + records(tail));
        assert forall|j: int| 0 <= j < m.len() implies m[j] != 0 && m[j] != 0x20 by {
            match e.mode {
                Mode::Directory => {},
                Mode::Regular => {},
                Mode::Executable => {},
                Mode::Symlink => {},
            }
        }
        assert forall|j: int| 0 <= j < z implies p[j] != 0 by {
            assert(p[j] == text[j]);
            if j > m.len() {
                assert(text[j] == e.name@[j - m.len() - 1]);
            }
        }
        lemma_first_index_at(p, 0, z);
        assert(p.subrange(0, z) =~= text);
        lemma_first_index_at(text, 0x20, m.len() as int);
        assert(text.subrange(0, m.len() as int) =~= m);
        assert(text.subrange(m.len() as int + 1, z) =~= e.name@);
        assert(p.subrange(z + 1, z + 21) =~= e.hash@);
        assert(p.subrange(z + 21, p.len() as int) =~= records(tail));
        assert(written_records(s) =~= seq![(m, e.name@, e.hash@)] + written_records(tail));
    }
}

/// A mode as a listing shows it: left-padded with `0` to six characters.
pub fn padded_mode(mode: &[u8]) -> (r: Vec<u8>)
    ensures
        r@ == Seq::new(
            if mode@.len() < 6 {
                (6 - mode@.len()) as nat
            } else {
                0
            },
            |i: int| 0x30u8,
        ) + mode@,
{
    let mut r: Vec<u8> = Vec::new();
    let mut k: usize = mode.len();
    while k < 6
        invariant
            mode@.len() <= k,
            mode@.len() < 6 ==> k <= 6,
            mode@.len() >= 6 ==> k == mode@.len(),
            r@ == Seq::new((k - mode@.len()) as nat, |i: int| 0x30u8),
        decreases 6 - k,
    {
        r.push(0x30u8);
        k = k + 1;
        assert(r@ =~= Seq::new((k - mode@.len()) as nat, |i: int| 0x30u8));
    }
    assert(r@ =~= Seq::new(
        if mode@.len() < 6 {
            (6 - mode@.len()) as nat
        } else {
            0
        },
        |i: int| 0x30u8,
    ));
    append_bytes(&mut r, mode);
    r
}

/// One record read back from a tree payload, with its mode as written.
#[derive(Debug)]
pub struct TreeRecord {
    pub mode: Vec<u8>,
    pub name: Vec<u8>,
    pub hash: [u8; 20],
}

/// A record as its mode text, name and hash bytes.
pub open spec fn record_view(r: TreeRecord) -> (Seq<u8>, Seq<u8>, Seq<u8>) {
    (r.mode@, r.name@, r.hash@)
}

/// The records of a tree payload, front to back: each is the text up to a
/// NUL, split at its first space into mode and name, then 20 hash bytes.
/// `None` where a record has no NUL, no space before it, or fewer than 20
/// bytes after it.
pub open spec fn parse_records(p: Seq<u8>) -> Option<Seq<(Seq<u8>, Seq<u8>, Seq<u8>)>>
    decreases p.len(),
{
    if p.len() == 0 {
        Some(Seq::empty())
    } else {
        match first_index(p, 0) {
            None => None,
            Some(z) => if !(0 <= z && z + 21 <= p.len()) {
                None
            } else {
                let text = p.subrange(0, z);
                match first_index(text, 0x20) {
                    None => None,
                    Some(q) => match parse_records(p.subrange(z + 21, p.len() as int)) {
                        None => None,
                        Some(rest) => Some(
                            seq![(text.subrange(0, q), text.subrange(q + 1, z), p.subrange(z + 1, z + 21))]
                                + rest,
                        ),
                    },
                }
            },
        }
    }
}

/// Reads the records of a tree payload; see `parse_records`.
pub fn parse_tree_payload(p: &[u8]) -> (r: Option<Vec<TreeRecord>>)
    ensures
        match r {
            Some(v) => parse_records(p@) == Some(v@.map_values(|x: TreeRecord| record_view(x))),
            None => parse_records(p@) == None::<Seq<(Seq<u8>, Seq<u8>, Seq<u8>)>>,
        },
{
    let mut out: Vec<TreeRecord> = Vec::new();
    let mut pos: usize = 0;
    let plen = p.len();
    proof {
        assert(p@.subrange(0, p@.len() as int) =~= p@);
        match parse_records(p@) {
            Some(all) => {
                assert(out@.map_values(|x: TreeRecord| record_view(x)) + all =~= all);
            },
            None => {},
        }
    }
    while pos < p.len()
        invariant
            pos <= p@.len(),
            plen == p@.len(),
            parse_records(p@) == match parse_records(p@.subrange(pos as int, p@.len() as int)) {
                Some(rest) => Some(out@.map_values(|x: TreeRecord| record_view(x)) + rest),
                None => None,
            },
        decreases p@.len() - pos,
    {
        let ghost t = p@.subrange(pos as int, p@.len() as int);
        let z = match find_byte_from(p, 0, pos) {
            None => return None,
            Some(z) => z,
        };
        proof {
            lemma_first_index_sound(t, 0);
        }
        if p.len() - z < 21 {
            return None;
        }
        let text = copy_range(p, pos, z);
        assert(text@ =~= t.subrange(0, z - pos));
        let q = match find_byte_from(text.as_slice(), 0x20, 0) {
            None => {
                assert(text@.subrange(0, text@.len() as int) =~= text@);
                return None;
            },
            Some(q) => q,
        };
        assert(text@.subrange(0, text@.len() as int) =~= text@);
        proof {
            lemma_first_index_sound(text@, 0x20);
        }
        let mode = copy_range(text.as_slice(), 0, q);
        let name = copy_range(text.as_slice(), q + 1, text.len());
        let mut hash = [0u8; 20];
        let mut k: usize = 0;
        while k < 20
            invariant
                k <= 20,
                z + 21 <= p@.len(),
                plen == p@.len(),
                forall|j: int| 0 <= j < k ==> hash@[j] == p@[z + 1 + j],
            decreases 20 - k,
        {
            hash[k] = p[z + 1 + k];
            k = k + 1;
        }
        let ghost hv = p@.subrange(z + 1, z + 21);
        assert(hash@ =~= hv);
        let ghost before = out@;
        out.push(TreeRecord { mode, name, hash });
        proof {
            let zz = z - pos;
            assert(t.subrange(zz + 21, t.len() as int) =~= p@.subrange(z + 21, p@.len() as int));
            assert(t.subrange(zz + 1, zz + 21) =~= hv);
            assert(out@.map_values(|x: TreeRecord| record_view(x)) =~= before.map_values(
                |x: TreeRecord| record_view(x),
            ) + seq![record_view(out@.last())]);
            assert(record_view(out@.last()) == (
                t.subrange(0, zz).subrange(0, q as int),
                t.subrange(0, zz).subrange(q + 1, zz),
                t.subrange(zz + 1, zz + 21),
            ));
            match parse_records(p@.subrange(z + 21, p@.len() as int)) {
                Some(rest) => {
                    assert(seq![record_view(out@.last())] + rest == parse_records(t).unwrap());
                },
                None => {},
            }
        }
        pos = z + 21;
    }
    proof {
        assert(p@.subrange(pos as int, p@.len() as int) =~= Seq::<u8>::empty());
        assert(out@.map_values(|x: TreeRecord| record_view(x)) + Seq::empty() =~= out@.map_values(
            |x: TreeRecord| record_view(x),
        ));
    }
    Some(out)
}

} // verus!
