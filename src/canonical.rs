//! Why tree order is canonical: for names without `/`, the directory-aware
//! order is the byte order of each name with `/` appended to directories, so
//! a set of entries has only one arrangement in tree order.
use vstd::prelude::*;
use core::cmp::Ordering;
use crate::tree::{
    byte_at,
    cmp_bytes,
    cmp_opt,
    entry_order,
    flip,
    in_tree_order,
    lemma_entry_order_flip,
    name_order,
    records,
    Mode,
    TreeEntry,
};

verus! {

/// Whether a name holds no `/`.
pub open spec fn plain_name(n: Seq<u8>) -> bool {
    forall|i: int| 0 <= i < n.len() ==> n[i] != 0x2f
}

/// The bytes an entry sorts by: its name, with `/` appended for a directory.
pub open spec fn sort_key(e: TreeEntry) -> Seq<u8> {
    if e.mode == Mode::Directory {
        e.name@.push(0x2fu8)
    } else {
        e.name@
    }
}

/// Whether the entries of `s` can stand in one tree: no name holds `/`, and
/// entries that share a name are the same entry.
pub open spec fn well_named(s: Seq<TreeEntry>) -> bool {
    &&& forall|i: int| 0 <= i < s.len() ==> plain_name(#[trigger] s[i].name@)
    &&& forall|i: int, j: int|
        0 <= i < s.len() && 0 <= j < s.len() && (#[trigger] s[i]).name@ == (#[trigger] s[j]).name@
            ==> s[i] == s[j]
}

proof fn lemma_cmp_refl(x: Seq<u8>)
    ensures
        cmp_bytes(x, x) == Ordering::Equal,
    decreases x.len(),
{
    if x.len() > 0 {
        lemma_cmp_refl(x.drop_first());
    }
}

proof fn lemma_cmp_equal(x: Seq<u8>, y: Seq<u8>)
    requires
        cmp_bytes(x, y) == Ordering::Equal,
    ensures
        x == y,
    decreases x.len(),
{
    if x.len() > 0 && y.len() > 0 {
        lemma_cmp_equal(x.drop_first(), y.drop_first());
        assert(x =~= seq![x[0]] + x.drop_first());
        assert(y =~= seq![y[0]] + y.drop_first());
    } else {
        assert(x =~= y);
    }
}

proof fn lemma_cmp_trans(x: Seq<u8>, y: Seq<u8>, z: Seq<u8>)
    requires
        cmp_bytes(x, y) != Ordering::Greater,
        cmp_bytes(y, z) != Ordering::Greater,
    ensures
        cmp_bytes(x, z) != Ordering::Greater,
    decreases x.len(),
{
    if x.len() > 0 && y.len() > 0 && z.len() > 0 && x[0] == z[0] {
        lemma_cmp_trans(x.drop_first(), y.drop_first(), z.drop_first());
    }
}

proof fn lemma_cmp_concat(x: Seq<u8>, u: Seq<u8>, y: Seq<u8>, v: Seq<u8>)
    requires
        x.len() == y.len(),
    ensures
        cmp_bytes(x + u, y + v) == if x == y {
            cmp_bytes(u, v)
        } else {
            cmp_bytes(x, y)
        },
    decreases x.len(),
{
    if x.len() == 0 {
        assert(x + u =~= u);
        assert(y + v =~= v);
        assert(x =~= y);
    } else {
        lemma_cmp_concat(x.drop_first(), u, y.drop_first(), v);
        assert((x + u).drop_first() =~= x.drop_first() + u);
        assert((y + v).drop_first() =~= y.drop_first() + v);
        assert(x == y <==> (x[0] == y[0] && x.drop_first() == y.drop_first())) by {
            if x[0] == y[0] && x.drop_first() == y.drop_first() {
                assert forall|i: int| 0 <= i < x.len() implies x[i] == y[i] by {
                    if i > 0 {
                        assert(x[i] == x.drop_first()[i - 1]);
                        assert(y[i] == y.drop_first()[i - 1]);
                    }
                }
                assert(x =~= y);
            }
        }
    }
}

/// For entries with different names without `/`, tree order is the byte
/// order of their sort keys.
pub proof fn lemma_order_is_key_order(a: TreeEntry, b: TreeEntry)
    requires
        plain_name(a.name@),
        plain_name(b.name@),
        a.name@ != b.name@,
    ensures
        entry_order(a, b) == cmp_bytes(sort_key(a), sort_key(b)),
{
    reveal(entry_order);
    let x = a.name@;
    let y = b.name@;
    let ad = a.mode == Mode::Directory;
    let bd = b.mode == Mode::Directory;
    let n = if x.len() <= y.len() {
        x.len() as int
    } else {
        y.len() as int
    };
    let sa: Seq<u8> = if ad {
        seq![0x2fu8]
    } else {
        Seq::empty()
    };
    let sb: Seq<u8> = if bd {
        seq![0x2fu8]
    } else {
        Seq::empty()
    };
    let px = x.subrange(0, n);
    let py = y.subrange(0, n);
    let u = x.subrange(n, x.len() as int) + sa;
    let v = y.subrange(n, y.len() as int) + sb;
    assert(sort_key(a) =~= px + u);
    assert(sort_key(b) =~= py + v);
    lemma_cmp_concat(px, u, py, v);
    if px == py {
        lemma_cmp_refl(px);
        if x.len() == y.len() {
            assert(x =~= px);
            assert(y =~= py);
        } else if x.len() < y.len() {
            assert(u =~= sa);
            assert(v[0] == y[n]);
            assert(y[n] != 0x2f);
            assert(byte_at(y, bd, n) == Some(y[n]));
        } else {
            assert(v =~= sb);
            assert(u[0] == x[n]);
            assert(x[n] != 0x2f);
            assert(byte_at(x, ad, n) == Some(x[n]));
        }
    } else {
        assert(cmp_bytes(px, py) != Ordering::Equal) by {
            if cmp_bytes(px, py) == Ordering::Equal {
                lemma_cmp_equal(px, py);
            }
        }
    }
}

/// Entries with different names without `/` are never tied.
proof fn lemma_order_strict(a: TreeEntry, b: TreeEntry)
    requires
        plain_name(a.name@),
        plain_name(b.name@),
        a.name@ != b.name@,
    ensures
        entry_order(a, b) != Ordering::Equal,
{
    lemma_order_is_key_order(a, b);
    if cmp_bytes(sort_key(a), sort_key(b)) == Ordering::Equal {
        lemma_cmp_equal(sort_key(a), sort_key(b));
        let x = a.name@;
        let y = b.name@;
        if a.mode == Mode::Directory && b.mode != Mode::Directory {
            assert(y[y.len() - 1] == sort_key(b)[y.len() - 1]);
            assert(sort_key(a)[x.len() as int] == 0x2f);
        } else if a.mode != Mode::Directory && b.mode == Mode::Directory {
            assert(x[x.len() - 1] == sort_key(a)[x.len() - 1]);
            assert(sort_key(b)[y.len() as int] == 0x2f);
        } else if a.mode == Mode::Directory {
            assert(x =~= sort_key(a).drop_last());
            assert(y =~= sort_key(b).drop_last());
        }
    }
}

proof fn lemma_order_refl(a: TreeEntry)
    ensures
        entry_order(a, a) == Ordering::Equal,
{
    reveal(entry_order);
    lemma_cmp_refl(a.name@);
    assert(a.name@.subrange(0, a.name@.len() as int) =~= a.name@);
}

proof fn lemma_order_trans(a: TreeEntry, b: TreeEntry, c: TreeEntry)
    requires
        plain_name(a.name@),
        plain_name(b.name@),
        plain_name(c.name@),
        a.name@ == b.name@ ==> a == b,
        b.name@ == c.name@ ==> b == c,
        a.name@ == c.name@ ==> a == c,
        entry_order(a, b) != Ordering::Greater,
        entry_order(b, c) != Ordering::Greater,
    ensures
        entry_order(a, c) != Ordering::Greater,
{
    if a.name@ == c.name@ {
        lemma_order_refl(a);
    } else if a.name@ != b.name@ && b.name@ != c.name@ {
        lemma_order_is_key_order(a, b);
        lemma_order_is_key_order(b, c);
        lemma_order_is_key_order(a, c);
        lemma_cmp_trans(sort_key(a), sort_key(b), sort_key(c));
    }
}

/// In a tree-ordered sequence of well-named entries, no entry comes after a
/// later one.
proof fn lemma_sorted_pair(s: Seq<TreeEntry>, i: int, j: int)
    requires
        in_tree_order(s),
        well_named(s),
        0 <= i < j < s.len(),
    ensures
        entry_order(s[i], s[j]) != Ordering::Greater,
    decreases j - i,
{
    let k = j - 1;
    assert(entry_order(s[k], s[k + 1]) != Ordering::Greater);
    if i < k {
        lemma_sorted_pair(s, i, k);
        lemma_order_trans(s[i], s[k], s[j]);
    }
}

proof fn lemma_well_named_tail(s: Seq<TreeEntry>)
    requires
        s.len() > 0,
        well_named(s),
        in_tree_order(s),
    ensures
        well_named(s.drop_first()),
        in_tree_order(s.drop_first()),
{
    let t = s.drop_first();
    assert forall|i: int| 0 <= i < t.len() implies plain_name(#[trigger] t[i].name@) by {
        assert(t[i] == s[i + 1]);
    }
    assert forall|i: int, j: int|
        0 <= i < t.len() && 0 <= j < t.len() && (#[trigger] t[i]).name@ == (#[trigger] t[j]).name@
            implies t[i] == t[j] by {
        assert(t[i] == s[i + 1] && t[j] == s[j + 1]);
    }
    assert forall|i: int| 0 <= i < t.len() - 1 implies #[trigger] entry_order(t[i], t[i + 1])
        != Ordering::Greater by {
        let k = i + 1;
        assert(t[i] == s[k] && t[i + 1] == s[k + 1]);
        assert(entry_order(s[k], s[k + 1]) != Ordering::Greater);
    }
}

/// Entries of `t` all occur in `s`, so `t` is well named when `s` is.
proof fn lemma_well_named_same_entries(s: Seq<TreeEntry>, t: Seq<TreeEntry>)
    requires
        well_named(s),
        s.to_multiset() == t.to_multiset(),
    ensures
        well_named(t),
{
    broadcast use vstd::seq_lib::to_multiset_contains;

    assert forall|i: int| 0 <= i < t.len() implies s.contains(#[trigger] t[i]) by {
        assert(t.contains(t[i]));
        assert(t.to_multiset().count(t[i]) > 0);
    }
    assert forall|i: int| 0 <= i < t.len() implies plain_name(#[trigger] t[i].name@) by {
        let k = choose|k: int| 0 <= k < s.len() && s[k] == t[i];
        assert(plain_name(s[k].name@));
    }
    assert forall|i: int, j: int|
        0 <= i < t.len() && 0 <= j < t.len() && (#[trigger] t[i]).name@ == (#[trigger] t[j]).name@
            implies t[i] == t[j] by {
        let k = choose|k: int| 0 <= k < s.len() && s[k] == t[i];
        let l = choose|l: int| 0 <= l < s.len() && s[l] == t[j];
        assert(s[k].name@ == s[l].name@);
    }
}

/// Whether no two entries of `s` share a name.
pub open spec fn distinct_names(s: Seq<TreeEntry>) -> bool {
    forall|i: int, j: int|
        0 <= i < s.len() && 0 <= j < s.len() && i != j ==> (#[trigger] s[i]).name@ != (
        #[trigger] s[j]).name@
}

/// In a tree-ordered sequence of entries with distinct names without `/`,
/// sort keys strictly increase: each entry's name, with `/` appended for a
/// directory, is byte-lexicographically before every later one's.
pub proof fn lemma_tree_order_strict_keys(s: Seq<TreeEntry>)
    requires
        in_tree_order(s),
        forall|i: int| 0 <= i < s.len() ==> plain_name(#[trigger] s[i].name@),
        distinct_names(s),
    ensures
        forall|i: int, j: int|
            0 <= i < j < s.len() ==> cmp_bytes(sort_key(#[trigger] s[i]), sort_key(#[trigger] s[j]))
                == Ordering::Less,
{
    assert(well_named(s)) by {
        assert forall|i: int, j: int|
            0 <= i < s.len() && 0 <= j < s.len() && (#[trigger] s[i]).name@ == (
            #[trigger] s[j]).name@ implies s[i] == s[j] by {
            if i != j {
                assert(s[i].name@ != s[j].name@);
            }
        }
    }
    assert forall|i: int, j: int| 0 <= i < j < s.len() implies cmp_bytes(
        sort_key(#[trigger] s[i]),
        sort_key(#[trigger] s[j]),
    ) == Ordering::Less by {
        assert(s[i].name@ != s[j].name@);
        lemma_sorted_pair(s, i, j);
        lemma_order_strict(s[i], s[j]);
        lemma_order_is_key_order(s[i], s[j]);
    }
}

/// Two tree-ordered arrangements of the same entries are the same, when no
/// name holds `/` and no two different entries share a name. So a tree's
/// records, and with them its hash, do not depend on the order in which its
/// children were listed.
pub proof fn lemma_tree_order_canonical(s1: Seq<TreeEntry>, s2: Seq<TreeEntry>)
    requires
        well_named(s1),
        in_tree_order(s1),
        in_tree_order(s2),
        s1.to_multiset() == s2.to_multiset(),
    ensures
        s1 == s2,
        records(s1) == records(s2),
    decreases s1.len(),
{
    broadcast use vstd::seq_lib::to_multiset_contains;
    broadcast use vstd::multiset::group_multiset_axioms;

    lemma_well_named_same_entries(s1, s2);
    vstd::seq_lib::to_multiset_len(s1);
    vstd::seq_lib::to_multiset_len(s2);
    if s1.len() == 0 {
        assert(s1 =~= s2);
    } else {
        let x = s1[0];
        let y = s2[0];
        if x != y {
            assert(s2.to_multiset().count(y) > 0);
            assert(s1.contains(y));
            let k = choose|k: int| 0 <= k < s1.len() && s1[k] == y;
            assert(s1.to_multiset().count(x) > 0);
            assert(s2.contains(x));
            let l = choose|l: int| 0 <= l < s2.len() && s2[l] == x;
            assert(k != 0 && l != 0);
            lemma_sorted_pair(s1, 0, k);
            lemma_sorted_pair(s2, 0, l);
            assert(x.name@ != y.name@) by {
                assert(s1[0].name@ == s1[k].name@ ==> s1[0] == s1[k]);
            }
            lemma_order_strict(x, y);
            lemma_entry_order_flip(x, y);
            assert(false);
        }
        lemma_well_named_tail(s1);
        lemma_well_named_tail(s2);
        vstd::seq_lib::to_multiset_remove(s1, 0);
        vstd::seq_lib::to_multiset_remove(s2, 0);
        assert(s1.remove(0) =~= s1.drop_first());
        assert(s2.remove(0) =~= s2.drop_first());
        lemma_tree_order_canonical(s1.drop_first(), s2.drop_first());
        assert(s1 =~= seq![x] + s1.drop_first());
        assert(s2 =~= seq![y] + s2.drop_first());
    }
}

} // verus!
