use std::io::Write;
use objstore::decimal::{parse_decimal, push_decimal};
use objstore::hexcode::{parse_hash, to_hex};
use objstore::object::{
    decode_object, encode_header, object_location, parse_header, parse_object, Kind, Object,
    ObjectError,
};

fn blob(payload: &[u8]) -> Object {
    Object::new(Kind::Blob, payload.to_vec())
}

fn hex_str(h: &[u8]) -> String {
    String::from_utf8(to_hex(h)).unwrap()
}

#[test]
fn kind_tokens() {
    assert_eq!(Kind::Blob.name_bytes(), b"blob".to_vec());
    assert_eq!(Kind::Tree.name_bytes(), b"tree".to_vec());
    assert_eq!(Kind::Commit.name_bytes(), b"commit".to_vec());
    assert_eq!(Kind::from_token(b"tree"), Some(Kind::Tree));
    assert_eq!(Kind::from_token(b"commit"), Some(Kind::Commit));
    assert_eq!(Kind::from_token(b"blobs"), None);
    assert_eq!(Kind::from_token(b""), None);
}

#[test]
fn header_layout() {
    assert_eq!(encode_header(Kind::Blob, 11), b"blob 11\0".to_vec());
    assert_eq!(encode_header(Kind::Tree, 0), b"tree 0\0".to_vec());
    assert_eq!(
        encode_header(Kind::Commit, u64::MAX),
        b"commit 18446744073709551615\0".to_vec()
    );
}

#[test]
fn decimal_rendering_and_parsing() {
    let mut out = b"x".to_vec();
    push_decimal(&mut out, 1200);
    assert_eq!(out, b"x1200".to_vec());
    assert_eq!(parse_decimal(b"0"), Some(0));
    assert_eq!(parse_decimal(b"007"), Some(7));
    assert_eq!(parse_decimal(b"18446744073709551615"), Some(u64::MAX));
    assert_eq!(parse_decimal(b"18446744073709551616"), None);
    assert_eq!(parse_decimal(b""), None);
    assert_eq!(parse_decimal(b"-1"), None);
    assert_eq!(parse_decimal(b"12a"), None);
}

#[test]
fn known_blob_hashes() {
    let h = blob(b"hello world\n").hash().unwrap();
    assert_eq!(hex_str(&h), "3b18e512dba79e4c8300dd08aeb37f8e728b8dad");
    let e = blob(b"").hash().unwrap();
    assert_eq!(hex_str(&e), "e69de29bb2d1d6434b8b29ae775ad8c2e48c5391");
}

#[test]
fn same_content_same_hash_and_bytes() {
    let a = blob(b"same bytes").write().unwrap();
    let b = blob(b"same bytes").write().unwrap();
    assert_eq!(a.hash, b.hash);
    assert_eq!(a.data, b.data);
    let la = object_location(&a.hash);
    let lb = object_location(&b.hash);
    assert_eq!(la.dir, lb.dir);
    assert_eq!(la.file, lb.file);
    let t = Object::new(Kind::Tree, b"same bytes".to_vec()).write().unwrap();
    assert_ne!(a.hash, t.hash);
}

#[test]
fn hash_matches_write() {
    let o = blob(b"abc");
    assert_eq!(o.hash().unwrap(), o.write().unwrap().hash);
}

#[test]
fn round_trip_every_kind() {
    for kind in [Kind::Blob, Kind::Tree, Kind::Commit] {
        for payload in [&b""[..], &b"x"[..], &b"bytes with \0 inside\n"[..]] {
            let o = Object::new(kind, payload.to_vec());
            let stored = o.write().unwrap();
            assert_ne!(stored.data, {
                let mut raw = encode_header(kind, payload.len() as u64);
                raw.extend_from_slice(payload);
                raw
            });
            let back = decode_object(&stored.data).unwrap();
            assert_eq!(back.kind, kind);
            assert_eq!(back.expected_size, payload.len() as u64);
            assert_eq!(back.payload, payload.to_vec());
        }
    }
}

#[test]
fn size_mismatch_short_source() {
    let o = Object { kind: Kind::Blob, expected_size: 5, payload: b"abc".to_vec() };
    assert_eq!(o.hash().unwrap_err(), ObjectError::SizeMismatch);
    assert_eq!(o.write().unwrap_err(), ObjectError::SizeMismatch);
}

#[test]
fn size_mismatch_long_source() {
    let o = Object { kind: Kind::Blob, expected_size: 2, payload: b"abc".to_vec() };
    assert_eq!(o.hash().unwrap_err(), ObjectError::SizeMismatch);
    assert_eq!(o.write().unwrap_err(), ObjectError::SizeMismatch);
}

#[test]
fn header_without_nul_is_corrupt() {
    assert_eq!(parse_object(b"blob 3abc").unwrap_err(), ObjectError::CorruptHeader);
    assert_eq!(parse_object(b"").unwrap_err(), ObjectError::CorruptHeader);
}

#[test]
fn non_numeric_size_is_invalid() {
    assert_eq!(parse_object(b"blob abc\0abc").unwrap_err(), ObjectError::InvalidSize);
    assert_eq!(parse_object(b"blob \0").unwrap_err(), ObjectError::InvalidSize);
    assert_eq!(parse_object(b"blob -1\0").unwrap_err(), ObjectError::InvalidSize);
    assert_eq!(
        parse_object(b"blob 18446744073709551616\0").unwrap_err(),
        ObjectError::InvalidSize
    );
}

#[test]
fn header_without_space_is_corrupt() {
    assert_eq!(parse_object(b"blob\0").unwrap_err(), ObjectError::CorruptHeader);
}

#[test]
fn header_that_is_not_utf8_is_corrupt() {
    assert_eq!(parse_object(b"blob \xff3\0abc").unwrap_err(), ObjectError::CorruptHeader);
}

#[test]
fn unknown_kind_token() {
    assert_eq!(parse_object(b"blub 3\0abc").unwrap_err(), ObjectError::UnknownKind);
    assert_eq!(parse_object(b" 3\0abc").unwrap_err(), ObjectError::UnknownKind);
}

#[test]
fn payload_shorter_than_declared() {
    assert_eq!(parse_object(b"blob 5\0abc").unwrap_err(), ObjectError::SizeMismatch);
}

#[test]
fn payload_is_bounded_by_declared_size() {
    let o = parse_object(b"blob 2\0abc").unwrap();
    assert_eq!(o.kind, Kind::Blob);
    assert_eq!(o.expected_size, 2);
    assert_eq!(o.payload, b"ab".to_vec());
}

#[test]
fn header_fields() {
    let h = parse_header(b"tree 12\0rest").unwrap();
    assert_eq!(h.kind, Kind::Tree);
    assert_eq!(h.size, 12);
    assert_eq!(h.len, 8);
}

#[test]
fn undecodable_stored_bytes() {
    assert_eq!(decode_object(b"not zlib at all").unwrap_err(), ObjectError::IoFailure);
}

#[test]
fn hex_text() {
    assert_eq!(to_hex(&[0x00, 0x0f, 0xa5, 0xff]), b"000fa5ff".to_vec());
    assert_eq!(to_hex(&[]), Vec::<u8>::new());
}

#[test]
fn hash_text_parsing() {
    let h = parse_hash(b"3b18e512dba79e4c8300dd08aeb37f8e728b8dad").unwrap();
    assert_eq!(h[0], 0x3b);
    assert_eq!(h[19], 0xad);
    let upper = parse_hash(b"3B18E512DBA79E4C8300DD08AEB37F8E728B8DAD").unwrap();
    assert_eq!(h, upper);
    assert_eq!(parse_hash(b"3b18"), None);
    assert_eq!(parse_hash(b"3b18e512dba79e4c8300dd08aeb37f8e728b8daz"), None);
    assert_eq!(parse_hash(b"3b18e512dba79e4c8300dd08aeb37f8e728b8dad00"), None);
}

#[test]
fn store_location() {
    let h = parse_hash(b"3b18e512dba79e4c8300dd08aeb37f8e728b8dad").unwrap();
    let loc = object_location(&h);
    assert_eq!(loc.dir, b"3b".to_vec());
    assert_eq!(loc.file, b"18e512dba79e4c8300dd08aeb37f8e728b8dad".to_vec());
}

#[test]
fn reads_streams_of_any_compression_level() {
    let mut e = flate2::write::ZlibEncoder::new(Vec::new(), flate2::Compression::best());
    e.write_all(b"blob 5\0hello").unwrap();
    let stored = e.finish().unwrap();
    let o = decode_object(&stored).unwrap();
    assert_eq!(o.kind, Kind::Blob);
    assert_eq!(o.expected_size, 5);
    assert_eq!(o.payload, b"hello".to_vec());
    let mut e = flate2::write::ZlibEncoder::new(Vec::new(), flate2::Compression::none());
    e.write_all(b"tree 1\0").unwrap();
    let stored = e.finish().unwrap();
    assert_eq!(decode_object(&stored).unwrap_err(), ObjectError::SizeMismatch);
}

#[test]
fn write_succeeds_when_sizes_match() {
    for payload in [&b""[..], &b"a"[..], &[0u8; 4096][..]] {
        let stored = blob(payload).write().unwrap();
        assert_eq!(stored.hash, blob(payload).hash().unwrap());
        assert_eq!(decode_object(&stored.data).unwrap().payload, payload.to_vec());
    }
}
