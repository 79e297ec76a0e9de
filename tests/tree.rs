use objstore::object::{parse_object, Kind, Object};
use objstore::tree::{
    child_mode, compare_entries, is_executable, is_reserved, padded_mode, parse_tree_payload,
    sort_entries, tree_object, tree_payload, Mode, TreeBuilder, TreeEntry,
};
use std::cmp::Ordering;

fn entry(mode: Mode, name: &str, fill: u8) -> TreeEntry {
    TreeEntry { mode, name: name.as_bytes().to_vec(), hash: [fill; 20] }
}

fn names(v: &[TreeEntry]) -> Vec<String> {
    v.iter().map(|e| String::from_utf8(e.name.clone()).unwrap()).collect()
}

#[test]
fn mode_texts() {
    assert_eq!(Mode::Directory.text(), b"40000".to_vec());
    assert_eq!(Mode::Regular.text(), b"100644".to_vec());
    assert_eq!(Mode::Executable.text(), b"100755".to_vec());
    assert_eq!(Mode::Symlink.text(), b"120000".to_vec());
}

#[test]
fn modes_of_children() {
    assert!(is_executable(0o755));
    assert!(is_executable(0o001));
    assert!(!is_executable(0o644));
    assert_eq!(child_mode(true, false, 0o755), Mode::Directory);
    assert_eq!(child_mode(false, true, 0o777), Mode::Symlink);
    assert_eq!(child_mode(false, false, 0o100755), Mode::Executable);
    assert_eq!(child_mode(false, false, 0o100644), Mode::Regular);
}

#[test]
fn reserved_directory() {
    assert!(is_reserved(b".git", b".git"));
    assert!(!is_reserved(b".github", b".git"));
}

#[test]
fn directory_sorts_after_dotted_file() {
    let sorted = sort_entries(vec![
        entry(Mode::Directory, "bin", 1),
        entry(Mode::Regular, "bin.txt", 2),
    ]);
    assert_eq!(names(&sorted), vec!["bin.txt", "bin"]);
}

#[test]
fn file_sorts_before_longer_name() {
    let sorted = sort_entries(vec![
        entry(Mode::Regular, "bin.txt", 2),
        entry(Mode::Regular, "bin", 1),
    ]);
    assert_eq!(names(&sorted), vec!["bin", "bin.txt"]);
}

#[test]
fn entry_comparisons() {
    let dir_a = entry(Mode::Directory, "a", 0);
    let file_a = entry(Mode::Regular, "a", 0);
    let file_atxt = entry(Mode::Regular, "a.txt", 0);
    let dir_ab = entry(Mode::Directory, "a0", 0);
    assert_eq!(compare_entries(&dir_a, &file_atxt), Ordering::Greater);
    assert_eq!(compare_entries(&file_a, &file_atxt), Ordering::Less);
    assert_eq!(compare_entries(&dir_a, &file_a), Ordering::Equal);
    assert_eq!(compare_entries(&dir_a, &dir_ab), Ordering::Less);
    assert_eq!(compare_entries(&file_atxt, &dir_a), Ordering::Less);
}

#[test]
fn sorting_mixed_children() {
    let sorted = sort_entries(vec![
        entry(Mode::Regular, "zeta", 1),
        entry(Mode::Directory, "foo", 2),
        entry(Mode::Regular, "foo.txt", 3),
        entry(Mode::Regular, "Alpha", 4),
        entry(Mode::Regular, "foo-bar", 5),
        entry(Mode::Directory, "foo0", 6),
    ]);
    assert_eq!(names(&sorted), vec!["Alpha", "foo-bar", "foo.txt", "foo", "foo0", "zeta"]);
}

#[test]
fn empty_directory_has_no_tree() {
    assert!(tree_object(Vec::new()).is_none());
}

#[test]
fn one_entry_payload() {
    let o = tree_object(vec![entry(Mode::Regular, "a", 0xab)]).unwrap();
    assert_eq!(o.kind, Kind::Tree);
    let mut expected = b"100644 a\0".to_vec();
    expected.extend_from_slice(&[0xab; 20]);
    assert_eq!(o.payload, expected);
    assert_eq!(o.expected_size, expected.len() as u64);
}

#[test]
fn payload_follows_tree_order() {
    let o = tree_object(vec![
        entry(Mode::Directory, "bin", 1),
        entry(Mode::Regular, "bin.txt", 2),
    ])
    .unwrap();
    let mut expected = b"100644 bin.txt\0".to_vec();
    expected.extend_from_slice(&[2; 20]);
    expected.extend_from_slice(b"40000 bin\0");
    expected.extend_from_slice(&[1; 20]);
    assert_eq!(o.payload, expected);
}

#[test]
fn tree_object_round_trip() {
    let blob = Object::new(Kind::Blob, b"hello world\n".to_vec()).hash().unwrap();
    let o = tree_object(vec![TreeEntry {
        mode: Mode::Regular,
        name: b"hello.txt".to_vec(),
        hash: blob,
    }])
    .unwrap();
    let stored = o.write().unwrap();
    let back = objstore::object::decode_object(&stored.data).unwrap();
    assert_eq!(back.kind, Kind::Tree);
    assert_eq!(back.payload, o.payload);
    let framed = {
        let mut raw = objstore::object::encode_header(Kind::Tree, o.payload.len() as u64);
        raw.extend_from_slice(&o.payload);
        raw
    };
    assert_eq!(parse_object(&framed).unwrap().payload, o.payload);
}

#[test]
fn payload_reads_back() {
    let entries = vec![entry(Mode::Regular, "a b", 7), entry(Mode::Directory, "d", 9)];
    let payload = tree_payload(&entries);
    let records = parse_tree_payload(&payload).unwrap();
    assert_eq!(records.len(), 2);
    assert_eq!(records[0].mode, b"100644".to_vec());
    assert_eq!(records[0].name, b"a b".to_vec());
    assert_eq!(records[0].hash, [7; 20]);
    assert_eq!(records[1].mode, b"40000".to_vec());
    assert_eq!(records[1].name, b"d".to_vec());
    assert_eq!(records[1].hash, [9; 20]);
}

#[test]
fn malformed_payloads() {
    assert_eq!(parse_tree_payload(b"").unwrap().len(), 0);
    assert!(parse_tree_payload(b"100644 a").is_none());
    assert!(parse_tree_payload(b"100644 a\0short").is_none());
    let mut no_space = b"100644a\0".to_vec();
    no_space.extend_from_slice(&[0; 20]);
    assert!(parse_tree_payload(&no_space).is_none());
}

#[test]
fn listing_modes() {
    assert_eq!(padded_mode(b"40000"), b"040000".to_vec());
    assert_eq!(padded_mode(b"100644"), b"100644".to_vec());
    assert_eq!(padded_mode(b""), b"000000".to_vec());
}

#[test]
fn builder_prunes_empty_subdirectories() {
    let mut inner = TreeBuilder::new();
    inner.add(Mode::Directory, b"empty".to_vec(), None);
    let inner_tree = inner.finish();
    assert!(inner_tree.is_none());
    let mut outer = TreeBuilder::new();
    outer.add(Mode::Directory, b"nested".to_vec(), inner_tree.map(|o| o.hash().unwrap()));
    outer.add(Mode::Directory, b"other".to_vec(), None);
    assert!(outer.finish().is_none());
}

#[test]
fn builder_keeps_surviving_children_in_order() {
    let mut b = TreeBuilder::new();
    b.add(Mode::Directory, b"bin".to_vec(), Some([1; 20]));
    b.add(Mode::Directory, b"gone".to_vec(), None);
    b.add(Mode::Regular, b"bin.txt".to_vec(), Some([2; 20]));
    let o = b.finish().unwrap();
    let direct = tree_object(vec![entry(Mode::Directory, "bin", 1), entry(Mode::Regular, "bin.txt", 2)]).unwrap();
    assert_eq!(o.payload, direct.payload);
}

#[test]
fn listing_order_does_not_change_tree() {
    let a = tree_object(vec![
        entry(Mode::Regular, "b", 1),
        entry(Mode::Directory, "a", 2),
        entry(Mode::Executable, "a.sh", 3),
    ])
    .unwrap();
    let b = tree_object(vec![
        entry(Mode::Executable, "a.sh", 3),
        entry(Mode::Regular, "b", 1),
        entry(Mode::Directory, "a", 2),
    ])
    .unwrap();
    assert_eq!(a.payload, b.payload);
    assert_eq!(a.hash().unwrap(), b.hash().unwrap());
}
