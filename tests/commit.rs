use tinygit::commit::{from_object, Commit, Timestamp};
use tinygit::error::GitError;
use tinygit::object::{Object, ObjectType};

fn sample(parents: Vec<Vec<u8>>, message: &str) -> Commit {
    Commit {
        tree: vec![0u8; 20],
        parents,
        author: String::from("A U Thor <author@example.com>"),
        author_date: Timestamp { seconds: 1234567890, offset_minutes: 0 },
        committer: String::from("C O Mitter <committer@example.com>"),
        committer_date: Timestamp { seconds: 1234567899, offset_minutes: -330 },
        message: String::from(message),
    }
}

fn same(a: &Commit, b: &Commit) -> bool {
    a.tree == b.tree
        && a.parents == b.parents
        && a.author == b.author
        && a.author_date == b.author_date
        && a.committer == b.committer
        && a.committer_date == b.committer_date
        && a.message == b.message
}

#[test]
fn root_commit_layout_and_round_trip() {
    let c = sample(Vec::new(), "init\n");
    let obj = c.as_object();
    assert_eq!(obj.kind, ObjectType::Commit);
    assert!(obj.data.starts_with(b"tree 0000000000000000000000000000000000000000\n"));
    assert!(obj.data.ends_with(b"\n\ninit\n"));
    let expected = b"tree 0000000000000000000000000000000000000000\n\
author A U Thor <author@example.com> 1234567890 +0000\n\
committer C O Mitter <committer@example.com> 1234567899 -0530\n\
\n\
init\n";
    assert_eq!(obj.data, expected.to_vec());
    let back = from_object(&obj).unwrap();
    assert!(same(&c, &back));
}

#[test]
fn merge_commit_round_trip() {
    let c = sample(vec![vec![0xab; 20], vec![0x01; 20], vec![0xff; 20]], "merge\n\nbody ünïcode\n");
    let obj = c.as_object();
    let text = String::from_utf8(obj.data.clone()).unwrap();
    assert!(text.contains("parent abababababababababababababababababababab\n"));
    let back = from_object(&obj).unwrap();
    assert!(same(&c, &back));
}

#[test]
fn extreme_timestamps_round_trip() {
    let mut c = sample(Vec::new(), "");
    c.author_date = Timestamp { seconds: i64::MIN, offset_minutes: 5999 };
    c.committer_date = Timestamp { seconds: i64::MAX, offset_minutes: -5999 };
    let obj = c.as_object();
    let text = String::from_utf8(obj.data.clone()).unwrap();
    assert!(text.contains(" -9223372036854775808 +9959\n"));
    assert!(text.contains(" 9223372036854775807 -9959\n"));
    let back = from_object(&obj).unwrap();
    assert!(same(&c, &back));
}

fn decode(text: &[u8]) -> Result<Commit, GitError> {
    from_object(&Object { kind: ObjectType::Commit, data: text.to_vec() })
}

#[test]
fn missing_tree_rejected() {
    let text = b"author A 1 +0000\ncommitter B 2 +0000\n\nmsg";
    assert_eq!(decode(text).unwrap_err(), GitError::FormatError);
}

#[test]
fn bad_hex_rejected() {
    let text = b"tree 000000000000000000000000000000000000000g\nauthor A 1 +0000\ncommitter B 2 +0000\n\nmsg";
    assert_eq!(decode(text).unwrap_err(), GitError::FormatError);
}

#[test]
fn bad_timestamp_rejected() {
    let text = b"tree 0000000000000000000000000000000000000000\nauthor A x1 +0000\ncommitter B 2 +0000\n\nmsg";
    assert_eq!(decode(text).unwrap_err(), GitError::FormatError);
    let text = b"tree 0000000000000000000000000000000000000000\nauthor A 1 +0070\ncommitter B 2 +0000\n\nmsg";
    assert_eq!(decode(text).unwrap_err(), GitError::FormatError);
}

#[test]
fn missing_blank_line_rejected() {
    let text = b"tree 0000000000000000000000000000000000000000\nauthor A 1 +0000\ncommitter B 2 +0000\nmsg";
    assert_eq!(decode(text).unwrap_err(), GitError::FormatError);
}

#[test]
fn non_utf8_message_rejected() {
    let text = b"tree 0000000000000000000000000000000000000000\nauthor A 1 +0000\ncommitter B 2 +0000\n\n\xff\xfe";
    assert_eq!(decode(text).unwrap_err(), GitError::EncodingError);
}

#[test]
fn identity_with_spaces_decodes() {
    let text = b"tree 0000000000000000000000000000000000000000\nauthor Jo Q Public 5 <j@x> 17 +0100\ncommitter B 2 -0000\n\nmsg";
    assert_eq!(decode(text).unwrap_err(), GitError::FormatError);
    let text = b"tree 0000000000000000000000000000000000000000\nauthor Jo Q Public 5 <j@x> 17 +0100\ncommitter B 2 +0000\n\nmsg";
    let c = decode(text).unwrap();
    assert_eq!(c.author, "Jo Q Public 5 <j@x>");
    assert_eq!(c.author_date, Timestamp { seconds: 17, offset_minutes: 60 });
    assert_eq!(c.message, "msg");
}

#[test]
fn wrong_kind_commit_rejected() {
    let obj = Object { kind: ObjectType::Blob, data: Vec::new() };
    assert_eq!(from_object(&obj).unwrap_err(), GitError::FormatError);
}

#[test]
fn missing_author_or_committer_rejected() {
    let text = b"tree 0000000000000000000000000000000000000000\ncommitter B 2 +0000\n\nmsg";
    assert_eq!(decode(text).unwrap_err(), GitError::FormatError);
    let text = b"tree 0000000000000000000000000000000000000000\nauthor A 1 +0000\n\nmsg";
    assert_eq!(decode(text).unwrap_err(), GitError::FormatError);
}

#[test]
fn non_utf8_identity_is_format_error() {
    let text = b"tree 0000000000000000000000000000000000000000\nauthor \xff 1 +0000\ncommitter B 2 +0000\n\nmsg";
    assert_eq!(decode(text).unwrap_err(), GitError::FormatError);
}
