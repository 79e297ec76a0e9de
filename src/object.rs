//! Typed objects: the `"<kind> <size>\0<payload>"` framing, its hash and its
//! compressed stored form, and reading a stored object back.
use vstd::prelude::*;
use crate::bytes::{
    append_bytes,
    bytes_eq,
    copy_range,
    find_byte,
    first_index,
    is_utf8,
    lemma_ascii_is_utf8,
    lemma_first_index_at,
    lemma_first_index_none,
    lemma_first_index_sound,
};
use crate::codec::{inflate_of, sha1_digest, sha1_of, zlib_compress, zlib_decompress, zlib_of};
use crate::decimal::{decimal, decimal_value, lemma_decimal_round_trip, parse_decimal, push_decimal};
use crate::hexcode::{hex_of, lemma_hex_concat, to_hex};

verus! {

/// What an object's payload holds.
#[derive(Clone, Copy, Debug, PartialEq, Eq, Structural)]
pub enum Kind {
    Blob,
    Tree,
    Commit,
}

/// Why an object could not be read or written.
#[derive(Clone, Copy, Debug, PartialEq, Eq, Structural)]
pub enum ObjectError {
    /// No stored object has the requested hash.
    NotFound,
    /// The header has no NUL, is not UTF-8, or has no space in it.
    CorruptHeader,
    /// The header's kind token is not one of the known kinds.
    UnknownKind,
    /// The header's size field is not a decimal number that fits in 64 bits.
    InvalidSize,
    /// The payload is not as long as the declared size.
    SizeMismatch,
    /// The underlying storage or codec failed.
    IoFailure,
}

/// The token that names a kind in a header.
pub open spec fn kind_name(k: Kind) -> Seq<u8> {
    match k {
        Kind::Blob => seq![0x62u8, 0x6c, 0x6f, 0x62],
        Kind::Tree => seq![0x74u8, 0x72, 0x65, 0x65],
        Kind::Commit => seq![0x63u8, 0x6f, 0x6d, 0x6d, 0x69, 0x74],
    }
}

/// The kind that a header token names, if any.
pub open spec fn kind_of_token(t: Seq<u8>) -> Option<Kind> {
    if t == kind_name(Kind::Blob) {
        Some(Kind::Blob)
    } else if t == kind_name(Kind::Tree) {
        Some(Kind::Tree)
    } else if t == kind_name(Kind::Commit) {
        Some(Kind::Commit)
    } else {
        None
    }
}

impl Kind {
    /// The kind's header token: `blob`, `tree` or `commit`.
    pub fn name_bytes(&self) -> (r: Vec<u8>)
        ensures
            r@ == kind_name(*self),
    {
        let r = match self {
            Kind::Blob => vec![0x62u8, 0x6c, 0x6f, 0x62],
            Kind::Tree => vec![0x74u8, 0x72, 0x65, 0x65],
            Kind::Commit => vec![0x63u8, 0x6f, 0x6d, 0x6d, 0x69, 0x74],
        };
        assert(r@ =~= kind_name(*self));
        r
    }

    /// The kind that `token` names, if any.
    pub fn from_token(token: &[u8]) -> (r: Option<Kind>)
        ensures
            r == kind_of_token(token@),
    {
        let blob = Kind::Blob.name_bytes();
        let tree = Kind::Tree.name_bytes();
        let commit = Kind::Commit.name_bytes();
        if bytes_eq(token, blob.as_slice()) {
            Some(Kind::Blob)
        } else if bytes_eq(token, tree.as_slice()) {
            Some(Kind::Tree)
        } else if bytes_eq(token, commit.as_slice()) {
            Some(Kind::Commit)
        } else {
            None
        }
    }
}

/// The header of an object: `"<kind> <size>\0"`.
pub open spec fn header(k: Kind, size: nat) -> Seq<u8> {
    kind_name(k) + seq![0x20u8] + decimal(size) + seq![0u8]
}

/// The bytes that are hashed and compressed for an object: header, then payload.
pub open spec fn framed(k: Kind, payload: Seq<u8>) -> Seq<u8> {
    header(k, payload.len()) + payload
}

/// Builds the header for an object of the given kind and payload size.
pub fn encode_header(kind: Kind, size: u64) -> (r: Vec<u8>)
    ensures
        r@ == header(kind, size as nat),
{
    let mut r = kind.name_bytes();
    r.push(0x20u8);
    push_decimal(&mut r, size);
    r.push(0u8);
    r
}

/// What parsing the front of `s` as a header gives: the kind, the declared
/// size and the header's length including its NUL.
pub open spec fn parse_header_spec(s: Seq<u8>) -> Result<(Kind, u64, int), ObjectError> {
    match first_index(s, 0) {
        None => Err(ObjectError::CorruptHeader),
        Some(n) => {
            let h = s.subrange(0, n);
            if !vstd::utf8::valid_utf8(h) {
                Err(ObjectError::CorruptHeader)
            } else {
                match first_index(h, 0x20) {
                    None => Err(ObjectError::CorruptHeader),
                    Some(q) => match kind_of_token(h.subrange(0, q)) {
                        None => Err(ObjectError::UnknownKind),
                        Some(k) => match decimal_value(h.subrange(q + 1, n)) {
                            None => Err(ObjectError::InvalidSize),
                            Some(v) => Ok((k, v, n + 1)),
                        },
                    },
                }
            }
        },
    }
}

/// What reading an uncompressed object gives: the kind, the declared size and
/// exactly that many payload bytes after the header; bytes past them are not
/// part of the object.
pub open spec fn parse_object_spec(s: Seq<u8>) -> Result<(Kind, u64, Seq<u8>), ObjectError> {
    match parse_header_spec(s) {
        Err(e) => Err(e),
        Ok((k, v, n)) => if s.len() - n < v {
            Err(ObjectError::SizeMismatch)
        } else {
            Ok((k, v, s.subrange(n, n + v)))
        },
    }
}

/// A parsed header.
#[derive(Clone, Copy, Debug, PartialEq, Eq, Structural)]
pub struct Header {
    pub kind: Kind,
    pub size: u64,
    /// Length of the header, its NUL included.
    pub len: usize,
}

/// Parses the header at the front of `s`; see `parse_header_spec`.
pub fn parse_header(s: &[u8]) -> (r: Result<Header, ObjectError>)
    ensures
        match r {
            Ok(h) => parse_header_spec(s@) == Ok::<(Kind, u64, int), ObjectError>(
                (h.kind, h.size, h.len as int),
            ) && h.len <= s@.len(),
            Err(e) => parse_header_spec(s@) == Err::<(Kind, u64, int), ObjectError>(e),
        },
{
    let n = match find_byte(s, 0) {
        None => return Err(ObjectError::CorruptHeader),
        Some(n) => n,
    };
    proof {
        lemma_first_index_sound(s@, 0);
    }
    let slen = s.len();
    assert(n < slen);
    let h = copy_range(s, 0, n);
    if !is_utf8(h.as_slice()) {
        return Err(ObjectError::CorruptHeader);
    }
    let q = match find_byte(h.as_slice(), 0x20) {
        None => return Err(ObjectError::CorruptHeader),
        Some(q) => q,
    };
    proof {
        lemma_first_index_sound(h@, 0x20);
    }
    let token = copy_range(h.as_slice(), 0, q);
    let kind = match Kind::from_token(token.as_slice()) {
        None => return Err(ObjectError::UnknownKind),
        Some(k) => k,
    };
    let digits = copy_range(h.as_slice(), q + 1, n);
    let size = match parse_decimal(digits.as_slice()) {
        None => return Err(ObjectError::InvalidSize),
        Some(v) => v,
    };
    Ok(Header { kind, size, len: n + 1 })
}

/// An object: a kind, the size declared for it, and its payload bytes.
#[derive(Debug)]
pub struct Object {
    pub kind: Kind,
    pub expected_size: u64,
    pub payload: Vec<u8>,
}

/// An object in stored form: its hash and the compressed framing.
#[derive(Debug)]
pub struct StoredObject {
    pub hash: [u8; 20],
    pub data: Vec<u8>,
}

/// Whether `r` is the object that `m` describes, or the same error.
pub open spec fn result_is(
    r: Result<Object, ObjectError>,
    m: Result<(Kind, u64, Seq<u8>), ObjectError>,
) -> bool {
    match r {
        Ok(o) => m == Ok::<(Kind, u64, Seq<u8>), ObjectError>(
            (o.kind, o.expected_size, o.payload@),
        ),
        Err(e) => m == Err::<(Kind, u64, Seq<u8>), ObjectError>(e),
    }
}

/// The hash of an object of kind `k` with payload `p`.
pub open spec fn object_hash(k: Kind, p: Seq<u8>) -> Seq<u8> {
    sha1_of(framed(k, p))
}

/// The stored bytes of an object of kind `k` with payload `p`.
pub open spec fn object_data(k: Kind, p: Seq<u8>) -> Seq<u8> {
    zlib_of(framed(k, p))
}

impl Object {
    /// Whether the payload is as long as the declared size.
    pub open spec fn size_matches(&self) -> bool {
        self.payload@.len() == self.expected_size
    }

    /// An object of the given kind whose declared size is its payload's length.
    pub fn new(kind: Kind, payload: Vec<u8>) -> (r: Object)
        ensures
            r.kind == kind,
            r.payload@ == payload@,
            r.expected_size == payload@.len(),
            r.size_matches(),
    {
        let size = payload.len() as u64;
        Object { kind, expected_size: size, payload }
    }

    /// The header followed by the payload.
    fn frame(&self) -> (r: Vec<u8>)
        requires
            self.size_matches(),
        ensures
            r@ == framed(self.kind, self.payload@),
    {
        let mut r = encode_header(self.kind, self.expected_size);
        append_bytes(&mut r, self.payload.as_slice());
        r
    }

    /// The object's hash, computed without storing anything. Fails with
    /// `SizeMismatch` exactly when the payload is not as long as declared.
    pub fn hash(&self) -> (r: Result<[u8; 20], ObjectError>)
        ensures
            match r {
                Ok(h) => self.size_matches() && h@ == object_hash(self.kind, self.payload@),
                Err(e) => !self.size_matches() && e == ObjectError::SizeMismatch,
            },
    {
        if self.payload.len() as u64 != self.expected_size {
            return Err(ObjectError::SizeMismatch);
        }
        let f = self.frame();
        Ok(sha1_digest(f.as_slice()))
    }

    /// The object's hash and compressed stored form. Succeeds exactly when
    /// the payload is as long as declared, and fails with `SizeMismatch`
    /// otherwise.
    pub fn write(&self) -> (r: Result<StoredObject, ObjectError>)
        ensures
            match r {
                Ok(s) => self.size_matches() && s.hash@ == object_hash(self.kind, self.payload@)
                    && s.data@ == object_data(self.kind, self.payload@),
                Err(e) => !self.size_matches() && e == ObjectError::SizeMismatch,
            },
    {
        if self.payload.len() as u64 != self.expected_size {
            return Err(ObjectError::SizeMismatch);
        }
        let f = self.frame();
        let hash = sha1_digest(f.as_slice());
        match zlib_compress(f.as_slice()) {
            Some(data) => Ok(StoredObject { hash, data }),
            None => Err(ObjectError::IoFailure),
        }
    }
}

/// Reads an uncompressed object; see `parse_object_spec`.
pub fn parse_object(raw: &[u8]) -> (r: Result<Object, ObjectError>)
    ensures
        result_is(r, parse_object_spec(raw@)),
{
    let h = match parse_header(raw) {
        Ok(h) => h,
        Err(e) => return Err(e),
    };
    let rest = raw.len() - h.len;
    if (rest as u64) < h.size {
        return Err(ObjectError::SizeMismatch);
    }
    let end = h.len + h.size as usize;
    let payload = copy_range(raw, h.len, end);
    Ok(Object { kind: h.kind, expected_size: h.size, payload })
}

/// What reading a stored object gives: `parse_object_spec` of what it
/// inflates to, or `IoFailure` where it does not inflate.
pub open spec fn decode_spec(stored: Seq<u8>) -> Result<(Kind, u64, Seq<u8>), ObjectError> {
    match inflate_of(stored) {
        Some(x) => parse_object_spec(x),
        None => Err(ObjectError::IoFailure),
    }
}

/// Reads an object from its stored, compressed form: the same as
/// `parse_object` on what it decompresses to, or `IoFailure` where it does
/// not decompress. On the stored form of an object, that is the object.
pub fn decode_object(stored: &[u8]) -> (r: Result<Object, ObjectError>)
    ensures
        result_is(r, decode_spec(stored@)),
        forall|x: Seq<u8>| #[trigger] zlib_of(x) == stored@ ==> result_is(r, parse_object_spec(x)),
{
    match zlib_decompress(stored) {
        Some(raw) => parse_object(raw.as_slice()),
        None => Err(ObjectError::IoFailure),
    }
}

/// An object's hash and stored bytes depend on its kind and payload alone:
/// writing the same content twice gives the same hash and the same bytes, so
/// it lands at the same place in the store.
pub proof fn lemma_same_content_same_hash(a: &Object, b: &Object)
    requires
        a.kind == b.kind,
        a.payload@ == b.payload@,
    ensures
        object_hash(a.kind, a.payload@) == object_hash(b.kind, b.payload@),
        object_data(a.kind, a.payload@) == object_data(b.kind, b.payload@),
{
}

/// Reading back the framing of an object gives that object: its kind, its
/// payload's length as the declared size, and exactly its payload. Since
/// `Object::write` stores `zlib_of` of the framing and `decode_object` reads
/// `zlib_of(x)` as `x`, a stored object reads back unchanged.
pub proof fn lemma_read_after_write(k: Kind, p: Seq<u8>)
    requires
        p.len() <= u64::MAX,
    ensures
        parse_object_spec(framed(k, p)) == Ok::<(Kind, u64, Seq<u8>), ObjectError>(
            (k, p.len() as u64, p),
        ),
{
    let d = decimal(p.len());
    lemma_decimal_round_trip(p.len());
    let name = kind_name(k);
    let h = name + seq![0x20u8] + d;
    let s = framed(k, p);
    let n = h.len() as int;
    assert(s =~= h + seq![0u8] + p);
    assert forall|j: int| 0 <= j < name.len() implies name[j] != 0 && name[j] != 0x20 && name[j]
        < 0x80 by {
        match k {
            Kind::Blob => {},
            Kind::Tree => {},
            Kind::Commit => {},
        }
    }
    assert forall|j: int| 0 <= j < n implies h[j] != 0 && h[j] < 0x80 by {
        if j > name.len() {
            assert(h[j] == d[j - name.len() - 1]);
        }
    }
    assert forall|j: int| 0 <= j < n implies s[j] != 0 by {
        assert(s[j] == h[j]);
    }
    lemma_first_index_at(s, 0, n);
    assert(s.subrange(0, n) =~= h);
    lemma_ascii_is_utf8(h);
    lemma_first_index_at(h, 0x20, name.len() as int);
    assert(h.subrange(0, name.len() as int) =~= name);
    assert(h.subrange(name.len() as int + 1, n) =~= d);
    match k {
        Kind::Blob => {
            assert(kind_of_token(name) == Some(Kind::Blob));
        },
        Kind::Tree => {
            assert(name != kind_name(Kind::Blob)) by {
                assert(name[0] != kind_name(Kind::Blob)[0]);
            }
            assert(kind_of_token(name) == Some(Kind::Tree));
        },
        Kind::Commit => {
            assert(name != kind_name(Kind::Blob)) by {
                assert(name[0] != kind_name(Kind::Blob)[0]);
            }
            assert(name != kind_name(Kind::Tree)) by {
                assert(name[0] != kind_name(Kind::Tree)[0]);
            }
            assert(kind_of_token(name) == Some(Kind::Commit));
        },
    }
    assert(decimal_value(d) == Some(p.len() as u64));
    assert(s.subrange(n + 1, n + 1 + p.len()) =~= p);
}

/// Whether every byte of `s` is ASCII other than NUL.
pub open spec fn ascii_text(s: Seq<u8>) -> bool {
    forall|j: int| 0 <= j < s.len() ==> 0 < #[trigger] s[j] < 0x80
}

/// Corrupt headers are reported, never read through: bytes with no NUL give
/// `CorruptHeader`, and a known kind followed by a space and an ASCII size
/// field that is not a decimal number within 64 bits gives `InvalidSize`,
/// whatever follows the NUL.
pub proof fn lemma_corrupt_headers(s: Seq<u8>, k: Kind, size: Seq<u8>, rest: Seq<u8>)
    ensures
        (forall|j: int| 0 <= j < s.len() ==> s[j] != 0) ==> parse_object_spec(s) == Err::<
            (Kind, u64, Seq<u8>),
            ObjectError,
        >(ObjectError::CorruptHeader),
        ascii_text(size) && decimal_value(size) is None
            ==> parse_object_spec(kind_name(k) + seq![0x20u8] + size + seq![0u8] + rest) == Err::<
            (Kind, u64, Seq<u8>),
            ObjectError,
        >(ObjectError::InvalidSize),
{
    if forall|j: int| 0 <= j < s.len() ==> s[j] != 0 {
        lemma_first_index_none(s, 0);
    }
    if ascii_text(size) && decimal_value(size) is None {
        let name = kind_name(k);
        let h = name + seq![0x20u8] + size;
        let t = name + seq![0x20u8] + size + seq![0u8] + rest;
        let n = h.len() as int;
        assert(t =~= h + seq![0u8] + rest);
        assert forall|j: int| 0 <= j < name.len() implies name[j] != 0 && name[j] != 0x20
            && name[j] < 0x80 by {
            match k {
                Kind::Blob => {},
                Kind::Tree => {},
                Kind::Commit => {},
            }
        }
        assert forall|j: int| 0 <= j < n implies h[j] != 0 && h[j] < 0x80 by {
            if j > name.len() {
                assert(h[j] == size[j - name.len() - 1]);
            }
        }
        assert forall|j: int| 0 <= j < n implies t[j] != 0 by {
            assert(t[j] == h[j]);
        }
        lemma_first_index_at(t, 0, n);
        assert(t.subrange(0, n) =~= h);
        lemma_ascii_is_utf8(h);
        lemma_first_index_at(h, 0x20, name.len() as int);
        assert(h.subrange(0, name.len() as int) =~= name);
        assert(h.subrange(name.len() as int + 1, n) =~= size);
        match k {
            Kind::Blob => {},
            Kind::Tree => {
                assert(name != kind_name(Kind::Blob)) by {
                    assert(name[0] != kind_name(Kind::Blob)[0]);
                }
            },
            Kind::Commit => {
                assert(name != kind_name(Kind::Blob)) by {
                    assert(name[0] != kind_name(Kind::Blob)[0]);
                }
                assert(name != kind_name(Kind::Tree)) by {
                    assert(name[0] != kind_name(Kind::Tree)[0]);
                }
            },
        }
        assert(kind_of_token(name) == Some(k));
    }
}

/// Where an object lives in the store: a directory named by the first two
/// hex digits of its hash and a file named by the other thirty-eight.
pub struct Location {
    pub dir: Vec<u8>,
    pub file: Vec<u8>,
}

/// The store location of the object with hash `hash`.
pub fn object_location(hash: &[u8; 20]) -> (r: Location)
    ensures
        r.dir@ == hex_of(hash@.subrange(0, 1)),
        r.file@ == hex_of(hash@.subrange(1, 20)),
        r.dir@ + r.file@ == hex_of(hash@),
{
    let h = hash.as_slice();
    let first = copy_range(h, 0, 1);
    let rest = copy_range(h, 1, 20);
    proof {
        lemma_hex_concat(first@, rest@);
        assert(first@ + rest@ =~= hash@);
    }
    Location { dir: to_hex(first.as_slice()), file: to_hex(rest.as_slice()) }
}

} // verus!
