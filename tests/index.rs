use tinygit::error::GitError;
use tinygit::index::{Index, IndexEntry};

fn entry(path: &[u8], seed: u32) -> IndexEntry {
    IndexEntry {
        ctime_secs: seed,
        ctime_nanos: seed + 1,
        mtime_secs: seed + 2,
        mtime_nanos: seed + 3,
        dev: 0x0102_0304,
        ino: seed * 7,
        mode: 0o100644,
        uid: 1000,
        gid: 1000,
        size: 0xffff_ffff,
        hash: vec![seed as u8; 20],
        flags: path.len() as u16,
        path: path.to_vec(),
    }
}

#[test]
fn index_layout() {
    let ix = Index { entries: vec![entry(b"a", 1)] };
    let bytes = ix.write();
    assert_eq!(&bytes[0..12], b"DIRC\x00\x00\x00\x02\x00\x00\x00\x01");
    // 62 fixed bytes + 1 path byte, padded to 64
    assert_eq!(bytes.len(), 12 + 64 + 20);
    assert_eq!(bytes[12 + 62], b'a');
    assert!(bytes[12 + 63..12 + 64].iter().all(|b| *b == 0));
}

#[test]
fn index_round_trip() {
    let ix = Index {
        entries: vec![entry(b"README", 3), entry(b"src/lib.rs", 9), entry(b"exactly_two", 11)],
    };
    let bytes = ix.write();
    let back = Index::read(&bytes).unwrap();
    assert_eq!(back.entries.len(), 3);
    for (a, b) in ix.entries.iter().zip(back.entries.iter()) {
        assert_eq!(a.path, b.path);
        assert_eq!(a.hash, b.hash);
        assert_eq!(a.flags, b.flags);
        assert_eq!(a.ino, b.ino);
        assert_eq!(a.size, b.size);
    }
    assert_eq!(back.write(), bytes);
}

#[test]
fn index_padding_lengths() {
    for len in 1..=17usize {
        let path = vec![b'p'; len];
        let bytes = Index { entries: vec![entry(&path, 1)] }.write();
        let entry_len = bytes.len() - 12 - 20;
        assert_eq!(entry_len % 8, 0);
        assert!(entry_len >= 62 + len + 1 && entry_len <= 62 + len + 8);
        assert_eq!(Index::read(&bytes).unwrap().write(), bytes);
    }
}

#[test]
fn empty_index() {
    let bytes = Index { entries: Vec::new() }.write();
    assert_eq!(bytes.len(), 32);
    assert!(Index::read(&bytes).unwrap().entries.is_empty());
}

#[test]
fn bad_magic_rejected() {
    let mut bytes = Index { entries: vec![entry(b"x", 2)] }.write();
    bytes[0] = b'X';
    assert_eq!(Index::read(&bytes).unwrap_err(), GitError::FormatError);
}

#[test]
fn bad_version_rejected() {
    let mut bytes = Index { entries: vec![entry(b"x", 2)] }.write();
    bytes[7] = 3;
    assert_eq!(Index::read(&bytes).unwrap_err(), GitError::FormatError);
}

#[test]
fn bad_checksum_rejected() {
    let mut bytes = Index { entries: vec![entry(b"x", 2)] }.write();
    let last = bytes.len() - 1;
    bytes[last] ^= 1;
    assert_eq!(Index::read(&bytes).unwrap_err(), GitError::FormatError);
}

#[test]
fn truncated_index_rejected() {
    let bytes = Index { entries: vec![entry(b"x", 2)] }.write();
    assert_eq!(Index::read(&bytes[..bytes.len() - 1]).unwrap_err(), GitError::FormatError);
    assert_eq!(Index::read(b"DIRC").unwrap_err(), GitError::FormatError);
}
