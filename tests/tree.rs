use tinygit::error::GitError;
use tinygit::object::{Object, ObjectType};
use tinygit::tree::{from_object, EntryMode, Tree, TreeEntry};

fn entry(mode: EntryMode, name: &[u8], fill: u8) -> TreeEntry {
    TreeEntry { mode, name: name.to_vec(), hash: vec![fill; 20] }
}

#[test]
fn tree_encoding_layout() {
    let t = Tree { entries: vec![entry(EntryMode::Tree, b"src", 7)] };
    let obj = t.as_object();
    assert_eq!(obj.kind, ObjectType::Tree);
    let mut expected = b"40000 src\0".to_vec();
    expected.extend_from_slice(&[7u8; 20]);
    assert_eq!(obj.data, expected);
}

#[test]
fn tree_round_trip_keeps_order() {
    let t = Tree {
        entries: vec![
            entry(EntryMode::NormalFile, b"zeta.txt", 1),
            entry(EntryMode::ExecutableFile, b"run.sh", 2),
            entry(EntryMode::Symlink, b"link", 3),
            entry(EntryMode::Tree, b"a dir", 4),
            entry(EntryMode::NormalFile, b"", 0),
        ],
    };
    let back = from_object(&t.as_object()).unwrap();
    assert_eq!(back.entries.len(), 5);
    for (a, b) in t.entries.iter().zip(back.entries.iter()) {
        assert_eq!(a.mode, b.mode);
        assert_eq!(a.name, b.name);
        assert_eq!(a.hash, b.hash);
    }
}

#[test]
fn empty_tree() {
    let obj = Object { kind: ObjectType::Tree, data: Vec::new() };
    assert!(from_object(&obj).unwrap().entries.is_empty());
}

#[test]
fn unknown_mode_rejected() {
    let mut data = b"100600 f\0".to_vec();
    data.extend_from_slice(&[0u8; 20]);
    let obj = Object { kind: ObjectType::Tree, data };
    assert_eq!(from_object(&obj).unwrap_err(), GitError::FormatError);
}

#[test]
fn truncated_record_rejected() {
    let mut data = b"100644 f\0".to_vec();
    data.extend_from_slice(&[9u8; 19]);
    let obj = Object { kind: ObjectType::Tree, data };
    assert_eq!(from_object(&obj).unwrap_err(), GitError::FormatError);
}

#[test]
fn wrong_kind_rejected() {
    let obj = Object { kind: ObjectType::Blob, data: Vec::new() };
    assert_eq!(from_object(&obj).unwrap_err(), GitError::FormatError);
}
