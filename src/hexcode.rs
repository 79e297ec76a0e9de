//! Lowercase hexadecimal text for hashes, through the `hex` crate.
use vstd::prelude::*;

verus! {

/// The lowercase hex digit for a nibble.
pub open spec fn hex_digit(n: int) -> u8 {
    if n < 10 {
        (0x30 + n) as u8
    } else {
        (0x61 + n - 10) as u8
    }
}

/// Lowercase hex text of `s`: two digits per byte, high nibble first.
pub open spec fn hex_of(s: Seq<u8>) -> Seq<u8>
    decreases s.len(),
{
    if s.len() == 0 {
        Seq::empty()
    } else {
        hex_of(s.drop_last()) + seq![hex_digit(s.last() as int / 16), hex_digit(s.last() as int % 16)]
    }
}

/// The value of one hex digit of either case.
pub open spec fn hex_value(c: u8) -> Option<int> {
    if 0x30 <= c <= 0x39 {
        Some(c - 0x30)
    } else if 0x61 <= c <= 0x66 {
        Some(c - 0x61 + 10)
    } else if 0x41 <= c <= 0x46 {
        Some(c - 0x41 + 10)
    } else {
        None
    }
}

/// Whether `s` is the hex text of a 20-byte hash (either case).
pub open spec fn is_hash_text(s: Seq<u8>) -> bool {
    s.len() == 40 && forall|i: int| 0 <= i < s.len() ==> (#[trigger] hex_value(s[i])).is_some()
}

/// The byte that the digit pair at `2 * i` of `s` spells.
pub open spec fn hex_pair(s: Seq<u8>, i: int) -> int {
    hex_value(s[2 * i]).unwrap() * 16 + hex_value(s[2 * i + 1]).unwrap()
}

/// Relies on `hex::encode`: two lowercase digits per byte, high nibble first.
#[verifier::external_body]
fn encode_hex(b: &[u8]) -> (r: Vec<u8>)
    ensures
        r@ == hex_of(b@),
{
    hex::encode(b).into_bytes()
}

/// Relies on `hex::decode_to_slice` into 20 bytes: it succeeds exactly on 40
/// hex digits of either case, and each output byte is its digit pair.
#[verifier::external_body]
fn decode_hash(s: &[u8]) -> (r: Option<[u8; 20]>)
    ensures
        r.is_some() == is_hash_text(s@),
        r matches Some(h) ==> forall|i: int| 0 <= i < 20 ==> h@[i] == hex_pair(s@, i),
{
    let mut out = [0u8; 20];
    match hex::decode_to_slice(s, &mut out) {
        Ok(()) => Some(out),
        Err(_) => None,
    }
}

/// Lowercase hex text of `b`.
pub fn to_hex(b: &[u8]) -> (r: Vec<u8>)
    ensures
        r@ == hex_of(b@),
{
    encode_hex(b)
}

/// Reads the 40-digit hex text of a hash; `None` unless `s` is exactly that.
pub fn parse_hash(s: &[u8]) -> (r: Option<[u8; 20]>)
    ensures
        r.is_some() == is_hash_text(s@),
        r matches Some(h) ==> forall|i: int| 0 <= i < 20 ==> h@[i] == hex_pair(s@, i),
{
    decode_hash(s)
}

/// The hex text of `a + b` is that of `a` followed by that of `b`.
pub proof fn lemma_hex_concat(a: Seq<u8>, b: Seq<u8>)
    ensures
        hex_of(a + b) == hex_of(a) + hex_of(b),
    decreases b.len(),
{
    if b.len() == 0 {
        assert(a + b =~= a);
        assert(hex_of(a) + hex_of(b) =~= hex_of(a));
    } else {
        lemma_hex_concat(a, b.drop_last());
        assert((a + b).drop_last() =~= a + b.drop_last());
        assert(hex_of(a + b) =~= hex_of(a) + hex_of(b));
    }
}

/// Hex text has two digits per byte.
pub proof fn lemma_hex_len(s: Seq<u8>)
    ensures
        hex_of(s).len() == 2 * s.len(),
    decreases s.len(),
{
    if s.len() > 0 {
        lemma_hex_len(s.drop_last());
    }
}

/// Reading back the hex text of a 20-byte hash gives that hash.
pub proof fn lemma_hash_text_round_trip(h: Seq<u8>)
    requires
        h.len() == 20,
    ensures
        is_hash_text(hex_of(h)),
        forall|i: int| 0 <= i < 20 ==> hex_pair(hex_of(h), i) == h[i],
{
    lemma_hex_digits(h);
    lemma_hex_len(h);
    let t = hex_of(h);
    assert forall|i: int| 0 <= i < 20 implies hex_pair(t, i) == h[i] by {
        lemma_nibble(h[i]);
    }
    assert forall|j: int| 0 <= j < t.len() implies (#[trigger] hex_value(t[j])).is_some() by {
        let i = j / 2;
        lemma_nibble(h[i]);
        if j % 2 == 0 {
            assert(j == 2 * i);
        } else {
            assert(j == 2 * i + 1);
        }
    }
}

/// Each nibble's digit reads back as that nibble.
proof fn lemma_nibble(b: u8)
    ensures
        hex_value(hex_digit(b as int / 16)) == Some(b as int / 16),
        hex_value(hex_digit(b as int % 16)) == Some(b as int % 16),
        (b as int / 16) * 16 + b as int % 16 == b,
{
}

/// Digit layout of hex text: byte `i` of `s` sits at `2 * i` and `2 * i + 1`.
proof fn lemma_hex_digits(s: Seq<u8>)
    ensures
        forall|i: int|
            0 <= i < s.len() ==> hex_of(s)[2 * i] == hex_digit(s[i] as int / 16) && hex_of(s)[2 * i + 1]
                == hex_digit(s[i] as int % 16),
    decreases s.len(),
{
    lemma_hex_len(s);
    if s.len() > 0 {
        let d = s.drop_last();
        lemma_hex_digits(d);
        lemma_hex_len(d);
        assert forall|i: int| 0 <= i < s.len() implies hex_of(s)[2 * i] == hex_digit(
            s[i] as int / 16,
        ) && hex_of(s)[2 * i + 1] == hex_digit(s[i] as int % 16) by {
            if i < d.len() {
                assert(s[i] == d[i]);
            }
        }
    }
}

} // verus!
