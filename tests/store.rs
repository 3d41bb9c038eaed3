use tinygit::error::GitError;
use tinygit::hex::{from_hex, to_hex};
use tinygit::object::{Object, ObjectType};
use tinygit::store::{hash_obj, locate_hex, location, prepare_write, read_stored};

fn blob(data: &[u8]) -> Object {
    Object { kind: ObjectType::Blob, data: data.to_vec() }
}

#[test]
fn empty_blob_header_and_digest() {
    let obj = blob(b"");
    assert_eq!(obj.raw_bytes(), b"blob 0\0".to_vec());
    let digest = hash_obj(&obj);
    assert_eq!(digest.len(), 20);
    assert_eq!(to_hex(&digest), b"e69de29bb2d1d6434b8b29ae775ad8c2e48c5391".to_vec());
}

#[test]
fn empty_blob_stored_and_read_back() {
    let entry = prepare_write(&blob(b"")).unwrap();
    assert_eq!(entry.hex, b"e69de29bb2d1d6434b8b29ae775ad8c2e48c5391".to_vec());
    assert_eq!(entry.dir, b"e6".to_vec());
    assert_eq!(entry.file, b"9de29bb2d1d6434b8b29ae775ad8c2e48c5391".to_vec());
    let back = read_stored(&entry.contents).unwrap();
    assert_eq!(back.kind, ObjectType::Blob);
    assert!(back.data.is_empty());
}

#[test]
fn known_blob_digest() {
    let digest = hash_obj(&blob(b"hello world\n"));
    assert_eq!(to_hex(&digest), b"3b18e512dba79e4c8300dd08aeb37f8e728b8dad".to_vec());
}

#[test]
fn write_then_read_every_kind() {
    for kind in [ObjectType::Blob, ObjectType::Tree, ObjectType::Commit] {
        let data: Vec<u8> = (0..=255u8).chain(0..=255u8).collect();
        let obj = Object { kind, data: data.clone() };
        let entry = prepare_write(&obj).unwrap();
        let back = read_stored(&entry.contents).unwrap();
        assert_eq!(back.kind, kind);
        assert_eq!(back.data, data);
    }
}

#[test]
fn same_object_written_twice() {
    let a = prepare_write(&blob(b"same content")).unwrap();
    let b = prepare_write(&blob(b"same content")).unwrap();
    assert_eq!(a.digest, b.digest);
    assert_eq!(a.dir, b.dir);
    assert_eq!(a.file, b.file);
    assert_eq!(a.contents, b.contents);
}

#[test]
fn kind_changes_digest() {
    let a = hash_obj(&blob(b"x"));
    let b = hash_obj(&Object { kind: ObjectType::Tree, data: b"x".to_vec() });
    assert_ne!(a, b);
}

#[test]
fn truncated_contents_fail() {
    let entry = prepare_write(&blob(b"some payload that compresses")).unwrap();
    let mut cut = entry.contents.clone();
    cut.pop();
    assert_eq!(read_stored(&cut).unwrap_err(), GitError::FormatError);
}

#[test]
fn garbage_contents_fail() {
    assert_eq!(read_stored(b"not zlib at all").unwrap_err(), GitError::FormatError);
}

#[test]
fn raw_split_accepts_exact_header() {
    let obj = Object::from_raw(b"commit 3\0abc").unwrap();
    assert_eq!(obj.kind, ObjectType::Commit);
    assert_eq!(obj.data, b"abc".to_vec());
}

#[test]
fn raw_split_rejects_bad_headers() {
    for raw in [
        &b"blob 4\0abc"[..],
        b"blob 2\0abc",
        b"blob 03\0abc",
        b"blob\0abc",
        b"tag 3\0abc",
        b"blob 3abc",
        b"blob x\0abc",
        b"",
    ] {
        assert_eq!(Object::from_raw(raw).unwrap_err(), GitError::FormatError);
    }
}

#[test]
fn location_splits_hex() {
    let digest = from_hex(b"0123456789abcdef0123456789abcdef01234567").unwrap();
    let (dir, file) = location(&digest);
    assert_eq!(dir, b"01".to_vec());
    assert_eq!(file, b"23456789abcdef0123456789abcdef01234567".to_vec());
}

#[test]
fn locate_hex_checks_text() {
    let (dir, file) = locate_hex(b"e69de29bb2d1d6434b8b29ae775ad8c2e48c5391").unwrap();
    assert_eq!(dir, b"e6".to_vec());
    assert_eq!(file, b"9de29bb2d1d6434b8b29ae775ad8c2e48c5391".to_vec());
    assert_eq!(locate_hex(b"e69de29").unwrap_err(), GitError::NotFound);
    assert_eq!(
        locate_hex(b"E69DE29BB2D1D6434B8B29AE775AD8C2E48C5391").unwrap_err(),
        GitError::NotFound
    );
}

#[test]
fn hex_round_trip() {
    let bytes = vec![0u8, 1, 15, 16, 127, 128, 254, 255];
    let text = to_hex(&bytes);
    assert_eq!(text, b"00010f107f80feff".to_vec());
    assert_eq!(from_hex(&text).unwrap(), bytes);
    assert!(from_hex(b"abc").is_none());
    assert!(from_hex(b"zz").is_none());
}
