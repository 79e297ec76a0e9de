//! Commit objects: a tree, an optional parent, who and when, and a message.
use vstd::prelude::*;
use crate::bytes::append_bytes;
use crate::decimal::{decimal, lemma_decimal_round_trip, push_decimal};
use crate::hexcode::{hex_digit, hex_of, lemma_hex_len, to_hex};
use crate::object::{Kind, Object};

verus! {

/// Who made a commit, and when.
#[derive(Debug)]
pub struct Signature {
    pub name: Vec<u8>,
    pub email: Vec<u8>,
    /// Seconds since the Unix epoch.
    pub seconds: u64,
    /// The time zone offset as written, such as `+0800`.
    pub timezone: Vec<u8>,
}

/// `"tree "`
pub open spec fn tree_label() -> Seq<u8> {
    seq![0x74u8, 0x72, 0x65, 0x65, 0x20]
}

/// `"parent "`
pub open spec fn parent_label() -> Seq<u8> {
    seq![0x70u8, 0x61, 0x72, 0x65, 0x6e, 0x74, 0x20]
}

/// `"author"`
pub open spec fn author_label() -> Seq<u8> {
    seq![0x61u8, 0x75, 0x74, 0x68, 0x6f, 0x72]
}

/// `"committer"`
pub open spec fn committer_label() -> Seq<u8> {
    seq![0x63u8, 0x6f, 0x6d, 0x6d, 0x69, 0x74, 0x74, 0x65, 0x72]
}

/// A signature line: `"<label> <name> <<email>> <seconds> <timezone>\n"`.
pub open spec fn signature_line(label: Seq<u8>, s: Signature) -> Seq<u8> {
    label + seq![0x20u8] + s.name@ + seq![0x20u8, 0x3c] + s.email@ + seq![0x3eu8, 0x20] + decimal(
        s.seconds as nat,
    ) + seq![0x20u8] + s.timezone@ + seq![0x0au8]
}

/// The `parent` line, present only for a commit with a parent.
pub open spec fn parent_line(parent: Option<Seq<u8>>) -> Seq<u8> {
    match parent {
        Some(p) => parent_label() + hex_of(p) + seq![0x0au8],
        None => Seq::empty(),
    }
}

/// A commit payload: the tree line, the parent line if any, the author and
/// committer lines, a blank line, then the message and a newline.
pub open spec fn commit_text(
    tree: Seq<u8>,
    parent: Option<Seq<u8>>,
    who: Signature,
    message: Seq<u8>,
) -> Seq<u8> {
    tree_label() + hex_of(tree) + seq![0x0au8] + parent_line(parent) + signature_line(
        author_label(),
        who,
    ) + signature_line(committer_label(), who) + seq![0x0au8] + message + seq![0x0au8]
}

/// The parent hash as a sequence, if there is one.
pub open spec fn parent_seq(parent: Option<&[u8; 20]>) -> Option<Seq<u8>> {
    match parent {
        Some(p) => Some(p@),
        None => None,
    }
}

fn push_signature(out: &mut Vec<u8>, label: Vec<u8>, who: &Signature)
    ensures
        final(out)@ == old(out)@ + signature_line(label@, *who),
{
    let ghost start = out@;
    append_bytes(out, label.as_slice());
    out.push(0x20u8);
    append_bytes(out, who.name.as_slice());
    out.push(0x20u8);
    out.push(0x3cu8);
    append_bytes(out, who.email.as_slice());
    out.push(0x3eu8);
    out.push(0x20u8);
    push_decimal(out, who.seconds);
    out.push(0x20u8);
    append_bytes(out, who.timezone.as_slice());
    out.push(0x0au8);
    assert(out@ =~= start + signature_line(label@, *who));
}

/// The payload of a commit of `tree`, with `parent` if given, signed by
/// `who` as author and committer, with `message`.
pub fn commit_payload(
    tree: &[u8; 20],
    parent: Option<&[u8; 20]>,
    who: &Signature,
    message: &[u8],
) -> (r: Vec<u8>)
    ensures
        r@ == commit_text(tree@, parent_seq(parent), *who, message@),
{
    let mut out: Vec<u8> = vec![0x74u8, 0x72, 0x65, 0x65, 0x20];
    let tree_hex = to_hex(tree.as_slice());
    append_bytes(&mut out, tree_hex.as_slice());
    out.push(0x0au8);
    let ghost head = out@;
    match parent {
        Some(p) => {
            let label: Vec<u8> = vec![0x70u8, 0x61, 0x72, 0x65, 0x6e, 0x74, 0x20];
            append_bytes(&mut out, label.as_slice());
            let parent_hex = to_hex(p.as_slice());
            append_bytes(&mut out, parent_hex.as_slice());
            out.push(0x0au8);
            assert(label@ =~= parent_label());
        },
        None => {},
    }
    assert(out@ =~= head + parent_line(parent_seq(parent)));
    let author: Vec<u8> = vec![0x61u8, 0x75, 0x74, 0x68, 0x6f, 0x72];
    assert(author@ =~= author_label());
    push_signature(&mut out, author, who);
    let committer: Vec<u8> = vec![0x63u8, 0x6f, 0x6d, 0x6d, 0x69, 0x74, 0x74, 0x65, 0x72];
    assert(committer@ =~= committer_label());
    push_signature(&mut out, committer, who);
    out.push(0x0au8);
    append_bytes(&mut out, message);
    out.push(0x0au8);
    assert(out@ =~= commit_text(tree@, parent_seq(parent), *who, message@));
    out
}

/// Whether `s` holds no newline.
pub open spec fn no_newline(s: Seq<u8>) -> bool {
    forall|k: int| 0 <= k < s.len() ==> s[k] != 0x0a
}

/// Whether a line of `t` starts at `i` with the bytes `p`.
pub open spec fn line_starts_with(t: Seq<u8>, i: int, p: Seq<u8>) -> bool {
    &&& 0 <= i
    &&& i + p.len() <= t.len()
    &&& (i == 0 || t[i - 1] == 0x0a)
    &&& t.subrange(i, i + p.len() as int) == p
}

/// `"hello"`
pub open spec fn hello() -> Seq<u8> {
    seq![0x68u8, 0x65, 0x6c, 0x6c, 0x6f]
}

proof fn lemma_no_newline_concat(a: Seq<u8>, b: Seq<u8>)
    requires
        no_newline(a),
        no_newline(b),
    ensures
        no_newline(a + b),
{
    assert forall|k: int| 0 <= k < (a + b).len() implies (a + b)[k] != 0x0a by {
        if k >= a.len() {
            assert((a + b)[k] == b[k - a.len()]);
        }
    }
}

proof fn lemma_hex_no_newline(s: Seq<u8>)
    ensures
        no_newline(hex_of(s)),
    decreases s.len(),
{
    if s.len() > 0 {
        lemma_hex_no_newline(s.drop_last());
        let d: Seq<u8> = seq![hex_digit(s.last() as int / 16), hex_digit(s.last() as int % 16)];
        assert(no_newline(d));
        lemma_no_newline_concat(hex_of(s.drop_last()), d);
    }
}

/// A signature line holds one newline, at its end, when its parts hold none.
proof fn lemma_signature_line(label: Seq<u8>, who: Signature)
    requires
        no_newline(label),
        no_newline(who.name@),
        no_newline(who.email@),
        no_newline(who.timezone@),
    ensures
        signature_line(label, who).len() > label.len(),
        signature_line(label, who).last() == 0x0a,
        no_newline(signature_line(label, who).drop_last()),
        signature_line(label, who).subrange(0, label.len() as int) == label,
{
    lemma_decimal_round_trip(who.seconds as nat);
    let d = decimal(who.seconds as nat);
    assert(no_newline(d));
    let sp: Seq<u8> = seq![0x20u8];
    let lt: Seq<u8> = seq![0x20u8, 0x3c];
    let gt: Seq<u8> = seq![0x3eu8, 0x20];
    assert(no_newline(sp) && no_newline(lt) && no_newline(gt));
    let x = label + sp + who.name@ + lt + who.email@ + gt + d + sp + who.timezone@;
    lemma_no_newline_concat(label, sp);
    lemma_no_newline_concat(label + sp, who.name@);
    lemma_no_newline_concat(label + sp + who.name@, lt);
    lemma_no_newline_concat(label + sp + who.name@ + lt, who.email@);
    lemma_no_newline_concat(label + sp + who.name@ + lt + who.email@, gt);
    lemma_no_newline_concat(label + sp + who.name@ + lt + who.email@ + gt, d);
    lemma_no_newline_concat(label + sp + who.name@ + lt + who.email@ + gt + d, sp);
    lemma_no_newline_concat(label + sp + who.name@ + lt + who.email@ + gt + d + sp, who.timezone@);
    assert(signature_line(label, who) =~= x + seq![0x0au8]);
    assert(signature_line(label, who).drop_last() =~= x);
    assert(signature_line(label, who).subrange(0, label.len() as int) =~= label);
}

/// A commit of `tree` without a parent and with the message `hello` begins
/// with the line `tree <hex of tree>`, ends with a blank line then `hello`
/// and a newline, and has no line that starts with `parent `, when the
/// author's name, email and time zone hold no newline.
pub proof fn lemma_commit_without_parent(tree: Seq<u8>, who: Signature)
    requires
        no_newline(who.name@),
        no_newline(who.email@),
        no_newline(who.timezone@),
    ensures
        ({
            let t = commit_text(tree, None, who, hello());
            &&& t.subrange(0, 2 * tree.len() as int + 6) == tree_label() + hex_of(tree) + seq![0x0au8]
            &&& t.len() >= 8
            &&& t.subrange(t.len() - 8, t.len() as int) == seq![0x0au8, 0x0a] + hello() + seq![0x0au8]
            &&& forall|i: int| !line_starts_with(t, i, parent_label())
        }),
{
    let t = commit_text(tree, None, who, hello());
    let h = hex_of(tree);
    lemma_hex_len(tree);
    lemma_hex_no_newline(tree);
    lemma_signature_line(author_label(), who);
    lemma_signature_line(committer_label(), who);
    let l1 = tree_label() + h + seq![0x0au8];
    let a = signature_line(author_label(), who);
    let c = signature_line(committer_label(), who);
    let tail: Seq<u8> = seq![0x0au8] + hello() + seq![0x0au8];
    assert(t =~= l1 + a + c + tail);
    let n1 = l1.len() as int;
    let na = n1 + a.len();
    let nc = na + c.len();
    assert(t.subrange(0, 2 * tree.len() as int + 6) =~= l1);
    assert(t.subrange(t.len() - 8, t.len() as int) =~= c.subrange(c.len() - 1, c.len() as int) + tail);
    assert(c.subrange(c.len() - 1, c.len() as int) =~= seq![0x0au8]);
    assert(l1.drop_last() =~= tree_label() + h);
    assert(no_newline(tree_label()));
    lemma_no_newline_concat(tree_label(), h);
    assert(a[0] == author_label()[0]);
    assert(c[0] == committer_label()[0]);
    assert forall|i: int| !line_starts_with(t, i, parent_label()) by {
        lemma_no_parent_line(l1, a, c, tail, i);
    }
}

/// No line of a text made of a line starting with `t`, a line starting
/// with `a`, a line starting with `c`, a blank line and `hello` starts with
/// `parent `.
proof fn lemma_no_parent_line(l1: Seq<u8>, a: Seq<u8>, c: Seq<u8>, tail: Seq<u8>, i: int)
    requires
        l1.len() >= 1 && l1[0] == 0x74 && l1.last() == 0x0a && no_newline(l1.drop_last()),
        a.len() >= 1 && a[0] == 0x61 && a.last() == 0x0a && no_newline(a.drop_last()),
        c.len() >= 1 && c[0] == 0x63 && c.last() == 0x0a && no_newline(c.drop_last()),
        tail == seq![0x0au8] + hello() + seq![0x0au8],
    ensures
        !line_starts_with(l1 + a + c + tail, i, parent_label()),
{
    let t = l1 + a + c + tail;
    let n1 = l1.len() as int;
    let na = n1 + a.len();
    let nc = na + c.len();
    if line_starts_with(t, i, parent_label()) {
        assert(t.subrange(i, i + 7)[0] == parent_label()[0]);
        assert(t[i] == 0x70);
        if i == 0 {
            assert(t[0] == l1[0]);
        } else {
            let j = i - 1;
            if j < n1 - 1 {
                assert(t[j] == l1.drop_last()[j]);
            } else if j == n1 - 1 {
                assert(t[i] == a[0]);
            } else if j < na - 1 {
                assert(t[j] == a.drop_last()[j - n1]);
            } else if j == na - 1 {
                assert(t[i] == c[0]);
            } else if j < nc - 1 {
                assert(t[j] == c.drop_last()[j - na]);
            } else if j == nc - 1 {
                assert(t[i] == tail[0]);
            } else if j == nc {
                assert(t[i] == tail[1]);
            } else {
                assert(t[j] == tail[j - nc]);
            }
        }
    }
}

/// The commit object for `commit_payload` of the same arguments.
pub fn commit_object(
    tree: &[u8; 20],
    parent: Option<&[u8; 20]>,
    who: &Signature,
    message: &[u8],
) -> (r: Object)
    ensures
        r.kind == Kind::Commit,
        r.size_matches(),
        r.payload@ == commit_text(tree@, parent_seq(parent), *who, message@),
{
    Object::new(Kind::Commit, commit_payload(tree, parent, who, message))
}

} // verus!
