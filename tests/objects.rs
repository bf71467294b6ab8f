use std::io::{Read, Write};

use gitrust::blob::{self, Blob};
use gitrust::error::GitError;
use gitrust::object::{parse_object, parse_record, Object};
use gitrust::store::{get_file_path, hash_object_data, record_of, serialize};
use gitrust::tree::{Tree, TreeEntry};

fn inflate(z: &[u8]) -> Vec<u8> {
    let mut out = Vec::new();
    flate2::read::ZlibDecoder::new(z).read_to_end(&mut out).unwrap();
    out
}

fn deflate(d: &[u8]) -> Vec<u8> {
    let mut e = flate2::write::ZlibEncoder::new(Vec::new(), flate2::Compression::default());
    e.write_all(d).unwrap();
    e.finish().unwrap()
}

fn hello() -> Object {
    Object::Blob(Blob::from_content(b"hello world\n".to_vec()).unwrap())
}

#[test]
fn blob_content_round_trips() {
    for c in [Vec::new(), b"abc".to_vec(), vec![0u8, 255, 10, 0]] {
        let b = Blob::from_content(c.clone()).unwrap();
        assert_eq!(Blob::from_content(b.get_content()).unwrap().get_content(), c);
        assert_eq!(b.get_object_size(), c.len());
        assert_eq!(b.get_object_type(), "blob");
    }
}

#[test]
fn hello_world_blob_hash() {
    let (hash, data) = hash_object_data(&hello());
    assert_eq!(hash, "3b18e512dba79e4c8300dd08aeb37f8e728b8dad");
    assert_eq!(data, b"blob 12\0hello world\n".to_vec());
}

#[test]
fn hashing_twice_gives_same_id() {
    let (h1, _) = hash_object_data(&hello());
    let (h2, _) = hash_object_data(&hello());
    assert_eq!(h1, h2);
    assert_eq!(h1.len(), 40);
}

#[test]
fn empty_blob_hash() {
    let o = Object::Blob(Blob::from_content(Vec::new()).unwrap());
    let (hash, data) = hash_object_data(&o);
    assert_eq!(hash, "e69de29bb2d1d6434b8b29ae775ad8c2e48c5391");
    assert_eq!(data, b"blob 0\0".to_vec());
}

#[test]
fn serialized_record_decompresses_to_record() {
    let (hash, z) = serialize(&hello()).unwrap();
    assert_eq!(hash, "3b18e512dba79e4c8300dd08aeb37f8e728b8dad");
    assert_ne!(z, b"blob 12\0hello world\n".to_vec());
    assert_eq!(inflate(&z), b"blob 12\0hello world\n".to_vec());
}

#[test]
fn serializing_twice_gives_same_bytes() {
    let a = serialize(&hello()).unwrap();
    let b = serialize(&hello()).unwrap();
    assert_eq!(a, b);
}

#[test]
fn store_path_splits_id() {
    assert_eq!(
        get_file_path("3b18e512dba79e4c8300dd08aeb37f8e728b8dad"),
        ".git/objects/3b/18e512dba79e4c8300dd08aeb37f8e728b8dad"
    );
    assert_eq!(blob::get_file_path("ab"), ".git/objects/ab/");
}

#[test]
fn stored_blob_parses_back() {
    let (_, z) = serialize(&hello()).unwrap();
    match parse_object(&z).unwrap() {
        Object::Blob(b) => assert_eq!(b.get_content(), b"hello world\n".to_vec()),
        Object::Tree(_) => panic!("expected a blob"),
    }
}

#[test]
fn corrupt_stream_is_decode_error() {
    assert!(matches!(parse_object(b"not zlib at all"), Err(GitError::Decode)));
}

#[test]
fn record_without_nul_is_decode_error() {
    assert!(matches!(parse_record(b"blob 3abc"), Err(GitError::Decode)));
}

#[test]
fn record_without_space_is_decode_error() {
    assert!(matches!(parse_record(b"blob3\0abc"), Err(GitError::Decode)));
}

#[test]
fn record_with_bad_size_is_decode_error() {
    assert!(matches!(parse_record(b"blob x\0abc"), Err(GitError::Decode)));
    assert!(matches!(parse_record(b"blob \0abc"), Err(GitError::Decode)));
    assert!(matches!(parse_record(b"blob 4\0abc"), Err(GitError::Decode)));
    assert!(matches!(parse_record(b"blob 99999999999999999999999\0abc"), Err(GitError::Decode)));
}

#[test]
fn record_with_leading_zero_size_is_accepted() {
    assert!(matches!(parse_record(b"blob 03\0abc"), Ok(Object::Blob(_))));
}

#[test]
fn commit_and_tag_are_not_implemented() {
    assert!(matches!(parse_record(b"commit 0\0"), Err(GitError::NotImplemented)));
    assert!(matches!(parse_record(b"tag 0\0"), Err(GitError::NotImplemented)));
    assert!(matches!(parse_object(&deflate(b"commit 0\0")), Err(GitError::NotImplemented)));
}

#[test]
fn unknown_type_is_decode_error() {
    assert!(matches!(parse_record(b"blobby 0\0"), Err(GitError::Decode)));
}

fn sample_entries() -> Vec<TreeEntry> {
    vec![
        TreeEntry { mode: 100644, sha1: [0x11; 20], name: "zeta.txt".to_string() },
        TreeEntry { mode: 40000, sha1: [0x00; 20], name: "a dir".to_string() },
        TreeEntry { mode: 100755, sha1: [0xfe; 20], name: "é".to_string() },
    ]
}

#[test]
fn tree_encoding_is_exact() {
    let t = Tree::new(vec![TreeEntry { mode: 100644, sha1: [7; 20], name: "a".to_string() }]);
    let mut expected = b"100644 a\0".to_vec();
    expected.extend_from_slice(&[7; 20]);
    assert_eq!(t.get_content(), expected);
    assert_eq!(t.get_object_type(), "tree");
}

#[test]
fn tree_round_trip_keeps_order() {
    let t = Tree::new(sample_entries());
    let back = Tree::from_content(t.get_content()).unwrap();
    let got = back.entries();
    let want = sample_entries();
    assert_eq!(got.len(), want.len());
    for (g, w) in got.iter().zip(want.iter()) {
        assert_eq!(g.mode, w.mode);
        assert_eq!(g.sha1, w.sha1);
        assert_eq!(g.name, w.name);
    }
}

#[test]
fn empty_tree_content_has_no_entries() {
    assert_eq!(Tree::from_content(Vec::new()).unwrap().entries().len(), 0);
}

#[test]
fn tree_entry_without_space_is_decode_error() {
    assert!(matches!(Tree::from_content(b"100644".to_vec()), Err(GitError::Decode)));
}

#[test]
fn tree_entry_without_nul_is_decode_error() {
    assert!(matches!(Tree::from_content(b"100644 name".to_vec()), Err(GitError::Decode)));
}

#[test]
fn tree_entry_with_short_hash_is_decode_error() {
    let mut d = b"100644 a\0".to_vec();
    d.extend_from_slice(&[1; 19]);
    assert!(matches!(Tree::from_content(d), Err(GitError::Decode)));
}

#[test]
fn tree_entry_with_bad_mode_is_decode_error() {
    let mut d = b"10x644 a\0".to_vec();
    d.extend_from_slice(&[1; 20]);
    assert!(matches!(Tree::from_content(d), Err(GitError::Decode)));
    let mut d = b"99999999999 a\0".to_vec();
    d.extend_from_slice(&[1; 20]);
    assert!(matches!(Tree::from_content(d), Err(GitError::Decode)));
}

#[test]
fn tree_entry_with_invalid_utf8_name_is_decode_error() {
    let mut d = b"100644 \xff\0".to_vec();
    d.extend_from_slice(&[1; 20]);
    assert!(matches!(Tree::from_content(d), Err(GitError::Decode)));
}

#[test]
fn tree_object_round_trips_through_store_bytes() {
    let o = Object::Tree(Tree::new(sample_entries()));
    let rec = record_of(&o);
    let (_, z) = serialize(&o).unwrap();
    assert_eq!(inflate(&z), rec);
    match parse_object(&z).unwrap() {
        Object::Tree(t) => assert_eq!(t.entries().len(), 3),
        Object::Blob(_) => panic!("expected a tree"),
    }
    assert_eq!(o.get_object_type(), "tree");
    assert_eq!(o.get_object_size(), o.get_content().len());
}

#[test]
fn blob_render_requires_utf8() {
    let b = Blob::from_content(b"hi\n".to_vec()).unwrap();
    assert_eq!(b.render(), Some("hi\n".to_string()));
    let b = Blob::from_content(vec![0xff]).unwrap();
    assert_eq!(b.render(), None);
}

#[test]
fn tree_listing_has_no_trailing_newline() {
    let t = Tree::new(vec![
        TreeEntry { mode: 100644, sha1: [0xab; 20], name: "a b".to_string() },
        TreeEntry { mode: 40000, sha1: [0x01; 20], name: "dir".to_string() },
    ]);
    let expected = format!(
        "100644 {}  a b\n040000 {}  dir",
        "ab".repeat(20),
        "01".repeat(20)
    );
    assert_eq!(t.render(), expected);
    assert_eq!(Tree::new(Vec::new()).render(), "");
    let o = Object::Tree(t);
    assert_eq!(o.render(), Some(expected));
}

#[test]
fn tree_entry_line() {
    let e = TreeEntry { mode: 644, sha1: [0x0f; 20], name: "x".to_string() };
    assert_eq!(e.render(), format!("000644 {}  x", "0f".repeat(20)));
}

#[test]
fn tree_lookup_by_name_finds_last() {
    let t = Tree::new(vec![
        TreeEntry { mode: 1, sha1: [0; 20], name: "a".to_string() },
        TreeEntry { mode: 2, sha1: [0; 20], name: "b".to_string() },
        TreeEntry { mode: 3, sha1: [0; 20], name: "a".to_string() },
    ]);
    assert_eq!(t.position_of("a"), Some(2));
    assert_eq!(t.position_of("b"), Some(1));
    assert_eq!(t.position_of("c"), None);
}

#[test]
fn store_path_under_given_root() {
    assert_eq!(
        gitrust::store::path_in_store("/tmp/store", "3b18e5"),
        "/tmp/store/3b/18e5"
    );
}
