use objstore::commit::{commit_object, commit_payload, Signature};
use objstore::hexcode::to_hex;
use objstore::object::{decode_object, Kind};

fn who() -> Signature {
    Signature {
        name: b"Ann".to_vec(),
        email: b"ann@example.com".to_vec(),
        seconds: 1700000000,
        timezone: b"+0800".to_vec(),
    }
}

#[test]
fn commit_without_parent() {
    let tree = [0x11u8; 20];
    let stored = commit_object(&tree, None, &who(), b"hello").write().unwrap();
    let back = decode_object(&stored.data).unwrap();
    assert_eq!(back.kind, Kind::Commit);
    let text = String::from_utf8(back.payload).unwrap();
    let tree_hex = String::from_utf8(to_hex(&tree)).unwrap();
    assert!(text.starts_with(&format!("tree {}\n", tree_hex)));
    assert!(!text.contains("parent "));
    assert!(text.ends_with("\n\nhello\n"));
}

#[test]
fn commit_payload_exact() {
    let tree = [0xabu8; 20];
    let parent = [0x01u8; 20];
    let payload = commit_payload(&tree, Some(&parent), &who(), b"msg");
    let expected = format!(
        "tree {}\nparent {}\nauthor Ann <ann@example.com> 1700000000 +0800\ncommitter Ann <ann@example.com> 1700000000 +0800\n\nmsg\n",
        "ab".repeat(20),
        "01".repeat(20)
    );
    assert_eq!(String::from_utf8(payload).unwrap(), expected);
}

#[test]
fn empty_message() {
    let payload = commit_payload(&[0u8; 20], None, &who(), b"");
    assert!(String::from_utf8(payload).unwrap().ends_with("+0800\n\n\n"));
}
