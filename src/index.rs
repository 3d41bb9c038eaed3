use vstd::prelude::*;

use crate::error::{GitError, GitResult};
use crate::hex::DIGEST_LEN;
use crate::object::find_byte;
use crate::store::{sha1_digest, sha1_of, slice_range};
use crate::tree::append;

verus! {

/// Big-endian bytes of a 32-bit word.
pub open spec fn be32(v: u32) -> Seq<u8> {
    seq![(v >> 24u32) as u8, ((v >> 16u32) & 0xffu32) as u8, ((v >> 8u32) & 0xffu32) as u8, (v & 0xffu32) as u8]
}

/// Big-endian bytes of a 16-bit word.
pub open spec fn be16(v: u16) -> Seq<u8> {
    seq![(v >> 8u16) as u8, (v & 0xffu16) as u8]
}

/// Words written back to back, each big-endian.
pub open spec fn words_bytes(ws: Seq<u32>) -> Seq<u8> {
    Seq::new(4 * ws.len(), |k: int| be32(ws[k / 4])[k % 4])
}

proof fn lemma_be32_unique(v: u32, w: u32)
    requires
        be32(v) == be32(w),
    ensures
        v == w,
{
    let a = be32(v);
    let b = be32(w);
    assert(a[0] == b[0] && a[1] == b[1] && a[2] == b[2] && a[3] == b[3]);
    assert(((v >> 24u32) as u8 == (w >> 24u32) as u8 && ((v >> 16u32) & 0xffu32) as u8 == ((w
        >> 16u32) & 0xffu32) as u8 && ((v >> 8u32) & 0xffu32) as u8 == ((w >> 8u32) & 0xffu32) as u8
        && (v & 0xffu32) as u8 == (w & 0xffu32) as u8) ==> v == w) by (bit_vector);
}

proof fn lemma_be16_unique(v: u16, w: u16)
    requires
        be16(v) == be16(w),
    ensures
        v == w,
{
    let a = be16(v);
    let b = be16(w);
    assert(a[0] == b[0] && a[1] == b[1]);
    assert(((v >> 8u16) as u8 == (w >> 8u16) as u8 && (v & 0xffu16) as u8 == (w & 0xffu16) as u8)
        ==> v == w) by (bit_vector);
}

/// Reads the big-endian word at `pos`.
fn read_be32(data: &[u8], pos: usize) -> (r: u32)
    requires
        pos + 4 <= data@.len(),
    ensures
        be32(r) == data@.subrange(pos as int, pos + 4),
{
    let b0 = data[pos];
    let b1 = data[pos + 1];
    let b2 = data[pos + 2];
    let b3 = data[pos + 3];
    let v: u32 = (b0 as u32) << 24u32 | (b1 as u32) << 16u32 | (b2 as u32) << 8u32 | (b3 as u32);
    assert((v >> 24u32) as u8 == b0 && ((v >> 16u32) & 0xffu32) as u8 == b1 && ((v >> 8u32)
        & 0xffu32) as u8 == b2 && (v & 0xffu32) as u8 == b3) by (bit_vector)
        requires
            v == (b0 as u32) << 24u32 | (b1 as u32) << 16u32 | (b2 as u32) << 8u32 | (b3 as u32),
    ;
    assert(be32(v) =~= data@.subrange(pos as int, pos + 4));
    v
}

/// Reads the big-endian 16-bit word at `pos`.
fn read_be16(data: &[u8], pos: usize) -> (r: u16)
    requires
        pos + 2 <= data@.len(),
    ensures
        be16(r) == data@.subrange(pos as int, pos + 2),
{
    let b0 = data[pos];
    let b1 = data[pos + 1];
    let v: u16 = (b0 as u16) << 8u16 | (b1 as u16);
    assert((v >> 8u16) as u8 == b0 && (v & 0xffu16) as u8 == b1) by (bit_vector)
        requires
            v == (b0 as u16) << 8u16 | (b1 as u16),
    ;
    assert(be16(v) =~= data@.subrange(pos as int, pos + 2));
    v
}

fn push_be32(out: &mut Vec<u8>, v: u32)
    ensures
        final(out)@ == old(out)@ + be32(v),
{
    out.push((v >> 24u32) as u8);
    out.push(((v >> 16u32) & 0xffu32) as u8);
    out.push(((v >> 8u32) & 0xffu32) as u8);
    out.push((v & 0xffu32) as u8);
    assert(final(out)@ =~= old(out)@ + be32(v));
}

fn push_be16(out: &mut Vec<u8>, v: u16)
    ensures
        final(out)@ == old(out)@ + be16(v),
{
    out.push((v >> 8u16) as u8);
    out.push((v & 0xffu16) as u8);
    assert(final(out)@ =~= old(out)@ + be16(v));
}

/// One staged file: its recorded stat fields, the digest of its contents,
/// its flags and its path.
#[derive(Debug, Clone)]
pub struct IndexEntry {
    pub ctime_secs: u32,
    pub ctime_nanos: u32,
    pub mtime_secs: u32,
    pub mtime_nanos: u32,
    pub dev: u32,
    pub ino: u32,
    pub mode: u32,
    pub uid: u32,
    pub gid: u32,
    pub size: u32,
    /// The 20-byte digest of the staged contents.
    pub hash: Vec<u8>,
    pub flags: u16,
    /// The path, as raw bytes.
    pub path: Vec<u8>,
}

/// The staging index: its entries in file order.
#[derive(Debug, Clone)]
pub struct Index {
    pub entries: Vec<IndexEntry>,
}

/// The value of an index entry: the ten stat words in file order, then the
/// digest, flags and path.
pub struct IndexEntryView {
    pub stat: Seq<u32>,
    pub hash: Seq<u8>,
    pub flags: u16,
    pub path: Seq<u8>,
}

impl IndexEntry {
    pub open spec fn view(&self) -> IndexEntryView {
        IndexEntryView {
            stat: seq![
                self.ctime_secs,
                self.ctime_nanos,
                self.mtime_secs,
                self.mtime_nanos,
                self.dev,
                self.ino,
                self.mode,
                self.uid,
                self.gid,
                self.size,
            ],
            hash: self.hash@,
            flags: self.flags,
            path: self.path@,
        }
    }
}

impl Index {
    pub open spec fn view(&self) -> Seq<IndexEntryView> {
        self.entries@.map_values(|e: IndexEntry| e.view())
    }
}

/// Size of an entry's fixed part: stat words, digest and flags.
pub const ENTRY_FIXED: usize = 62;

/// Number of NUL bytes after a path of `n` bytes: at least one, and enough to
/// make the entry a multiple of eight bytes long.
pub open spec fn pad_len(n: nat) -> nat {
    (8 - ((ENTRY_FIXED + n) % 8)) as nat
}

pub open spec fn zeros(n: nat) -> Seq<u8> {
    Seq::new(n, |i: int| 0u8)
}

pub open spec fn entry_bytes(e: IndexEntryView) -> Seq<u8> {
    words_bytes(e.stat) + e.hash + be16(e.flags) + e.path + zeros(pad_len(e.path.len()))
}

pub open spec fn entry_wf(e: IndexEntryView) -> bool {
    &&& e.stat.len() == 10
    &&& e.hash.len() == DIGEST_LEN
    &&& forall|i: int| 0 <= i < e.path.len() ==> #[trigger] e.path[i] != 0
}

pub open spec fn entries_bytes(es: Seq<IndexEntryView>) -> Seq<u8>
    decreases es.len(),
{
    if es.len() == 0 {
        Seq::empty()
    } else {
        entries_bytes(es.drop_last()) + entry_bytes(es.last())
    }
}

/// The signature `DIRC`.
pub open spec fn magic() -> Seq<u8> {
    seq![68u8, 73u8, 82u8, 67u8]
}

/// The only version this library reads and writes.
pub const INDEX_VERSION: u32 = 2;

/// Everything the checksum covers: signature, version, entry count, entries.
pub open spec fn index_body(es: Seq<IndexEntryView>) -> Seq<u8> {
    magic() + be32(INDEX_VERSION) + be32(es.len() as u32) + entries_bytes(es)
}

/// The whole index file: the body, then the SHA-1 of the body.
pub open spec fn index_file(es: Seq<IndexEntryView>) -> Seq<u8> {
    index_body(es) + sha1_of(index_body(es))
}

pub open spec fn index_wf(es: Seq<IndexEntryView>) -> bool {
    &&& es.len() <= u32::MAX
    &&& forall|i: int| 0 <= i < es.len() ==> entry_wf(#[trigger] es[i])
}

impl IndexEntry {
    fn write_to(&self, out: &mut Vec<u8>)
        ensures
            final(out)@ == old(out)@ + entry_bytes(self.view()),
    {
        let ghost start = old(out)@;
        push_be32(out, self.ctime_secs);
        push_be32(out, self.ctime_nanos);
        push_be32(out, self.mtime_secs);
        push_be32(out, self.mtime_nanos);
        push_be32(out, self.dev);
        push_be32(out, self.ino);
        push_be32(out, self.mode);
        push_be32(out, self.uid);
        push_be32(out, self.gid);
        push_be32(out, self.size);
        proof {
            let v = self.view();
            assert(out@.subrange(start.len() as int, out@.len() as int) =~= words_bytes(v.stat));
            assert(out@ =~= start + words_bytes(v.stat));
        }
        append(out, self.hash.as_slice());
        push_be16(out, self.flags);
        append(out, self.path.as_slice());
        let pad: usize = 8 - (ENTRY_FIXED + self.path.len() % 8) % 8;
        let ghost before_pad = out@;
        let mut i: usize = 0;
        while i < pad
            invariant
                i <= pad,
                out@ == before_pad + zeros(i as nat),
            decreases pad - i,
        {
            out.push(0);
            assert(out@ =~= before_pad + zeros(i as nat + 1));
            i = i + 1;
        }
        proof {
            assert((ENTRY_FIXED + self.path@.len() % 8) % 8 == (ENTRY_FIXED + self.path@.len()) % 8);
            assert(pad == pad_len(self.path@.len()));
            assert(final(out)@ =~= old(out)@ + entry_bytes(self.view()));
        }
    }
}

/// Where the parts of an entry lie.
proof fn lemma_entry_found(data: Seq<u8>, pos: int, e: IndexEntryView)
    requires
        entry_wf(e),
        0 <= pos,
        pos + entry_bytes(e).len() <= data.len(),
        entry_bytes(e) == data.subrange(pos, pos + entry_bytes(e).len()),
    ensures
        ({
            let n = e.path.len() as int;
            &&& entry_bytes(e).len() == ENTRY_FIXED + n + pad_len(e.path.len())
            &&& forall|i: int| 0 <= i < 10 ==> be32(#[trigger] e.stat[i]) == data.subrange(pos + 4 * i, pos + 4 * i + 4)
            &&& data.subrange(pos + 40, pos + 60) == e.hash
            &&& data.subrange(pos + 60, pos + 62) == be16(e.flags)
            &&& data.subrange(pos + 62, pos + 62 + n) == e.path
            &&& forall|j: int| pos + 62 <= j < pos + 62 + n ==> #[trigger] data[j] != 0
            &&& forall|j: int| pos + 62 + n <= j < pos + entry_bytes(e).len() ==> #[trigger] data[j] == 0
        }),
{
    let b = entry_bytes(e);
    let n = e.path.len() as int;
    assert(forall|i: int| 0 <= i < b.len() ==> data[pos + i] == #[trigger] b[i]);
    assert forall|i: int| 0 <= i < 10 implies be32(#[trigger] e.stat[i]) == data.subrange(pos + 4 * i, pos + 4 * i + 4) by {
        assert(b[4 * i] == words_bytes(e.stat)[4 * i]);
        assert(b[4 * i + 1] == words_bytes(e.stat)[4 * i + 1]);
        assert(b[4 * i + 2] == words_bytes(e.stat)[4 * i + 2]);
        assert(b[4 * i + 3] == words_bytes(e.stat)[4 * i + 3]);
        assert((4 * i) / 4 == i && (4 * i + 1) / 4 == i && (4 * i + 2) / 4 == i && (4 * i + 3) / 4 == i);
        assert((4 * i) % 4 == 0 && (4 * i + 1) % 4 == 1 && (4 * i + 2) % 4 == 2 && (4 * i + 3) % 4 == 3);
        assert(be32(e.stat[i]) =~= data.subrange(pos + 4 * i, pos + 4 * i + 4));
    }
    assert(words_bytes(e.stat).len() == 40);
    let w = words_bytes(e.stat);
    assert(b == w + e.hash + be16(e.flags) + e.path + zeros(pad_len(e.path.len())));
    assert((w + e.hash).subrange(40, 60) =~= e.hash);
    assert(b.subrange(40, 60) =~= (w + e.hash).subrange(40, 60));
    assert(data.subrange(pos + 40, pos + 60) =~= b.subrange(40, 60));
    assert((w + e.hash + be16(e.flags)).subrange(60, 62) =~= be16(e.flags));
    assert(b.subrange(60, 62) =~= (w + e.hash + be16(e.flags)).subrange(60, 62));
    assert(data.subrange(pos + 60, pos + 62) =~= b.subrange(60, 62));
    let h = w + e.hash + be16(e.flags) + e.path;
    assert(h.subrange(62, 62 + n) =~= e.path);
    assert(b.subrange(62, 62 + n) =~= h.subrange(62, 62 + n));
    assert(data.subrange(pos + 62, pos + 62 + n) =~= b.subrange(62, 62 + n));
    assert forall|j: int| pos + 62 <= j < pos + 62 + n implies #[trigger] data[j] != 0 by {
        assert(data[j] == b[j - pos]);
        assert(b[j - pos] == e.path[j - pos - 62]);
    }
    assert forall|j: int| pos + 62 + n <= j < pos + b.len() implies #[trigger] data[j] == 0 by {
        assert(data[j] == b[j - pos]);
    }
}

/// Reads the entry at `pos`, which must end by `limit`. Any well-formed
/// entry whose bytes stand there is read back.
#[verifier::rlimit(40)]
fn parse_entry(data: &[u8], pos: usize, limit: usize) -> (r: Option<(IndexEntry, usize)>)
    requires
        pos <= limit <= data@.len(),
    ensures
        r matches Some((e, next)) ==> pos < next <= limit && entry_wf(e.view())
            && data@.subrange(pos as int, next as int) == entry_bytes(e.view()),
        forall|e: IndexEntryView|
            entry_wf(e) && pos + entry_bytes(e).len() <= limit && #[trigger] entry_bytes(e)
                == data@.subrange(pos as int, pos + entry_bytes(e).len()) ==> (r matches Some(
                (x, next),
            ) && x.view() == e && next == pos + entry_bytes(e).len()),
{
    proof {
        assert forall|e: IndexEntryView|
            entry_wf(e) && pos + entry_bytes(e).len() <= limit && #[trigger] entry_bytes(e)
                == data@.subrange(pos as int, pos + entry_bytes(e).len()) implies pos + 62 <= limit by {
            lemma_entry_found(data@, pos as int, e);
        }
    }
    if limit - pos < ENTRY_FIXED {
        return None;
    }
    let mut ws: Vec<u32> = Vec::new();
    let mut i: usize = 0;
    while i < 10
        invariant
            i <= 10,
            ws@.len() == i,
            pos + 62 <= limit <= data@.len(),
            forall|j: int| 0 <= j < i ==> be32(#[trigger] ws@[j]) == data@.subrange(pos + 4 * j, pos + 4 * j + 4),
        decreases 10 - i,
    {
        ws.push(read_be32(data, pos + 4 * i));
        i = i + 1;
    }
    let hash = slice_range(data, pos + 40, pos + 60);
    let flags = read_be16(data, pos + 60);
    let nul = match find_byte(data, pos + 62, 0) {
        Some(j) => j,
        None => {
            proof {
                assert forall|e: IndexEntryView|
                    entry_wf(e) && pos + entry_bytes(e).len() <= limit && #[trigger] entry_bytes(e)
                        == data@.subrange(pos as int, pos + entry_bytes(e).len()) implies false by {
                    lemma_entry_found(data@, pos as int, e);
                    assert(data@[pos + 62 + e.path.len()] == 0);
                }
            }
            return None;
        },
    };
    let n = nul - pos - 62;
    let pad: usize = 8 - (ENTRY_FIXED + n % 8) % 8;
    proof {
        assert((ENTRY_FIXED + n % 8) % 8 == (ENTRY_FIXED + n) % 8);
        assert forall|e: IndexEntryView|
            entry_wf(e) && pos + entry_bytes(e).len() <= limit && #[trigger] entry_bytes(e)
                == data@.subrange(pos as int, pos + entry_bytes(e).len()) implies e.path.len() == n by {
            lemma_entry_found(data@, pos as int, e);
            let m = e.path.len() as int;
            if nul < pos + 62 + m {
                assert(data@[nul as int] != 0);
            }
            assert(data@[pos + 62 + m] == 0);
        }
    }
    if nul >= limit || limit - nul < pad {
        return None;
    }
    let end = nul + pad;
    let mut k: usize = nul;
    while k < end
        invariant
            nul <= k <= end <= limit,
            limit <= data@.len(),
            end == nul + pad,
            pad == pad_len(n as nat),
            n == nul - pos - 62,
            forall|e: IndexEntryView|
                entry_wf(e) && pos + entry_bytes(e).len() <= limit && #[trigger] entry_bytes(e)
                    == data@.subrange(pos as int, pos + entry_bytes(e).len()) ==> e.path.len() == n,
            forall|j: int| nul <= j < k ==> #[trigger] data@[j] == 0,
        decreases end - k,
    {
        if data[k] != 0 {
            proof {
                assert forall|e: IndexEntryView|
                    entry_wf(e) && pos + entry_bytes(e).len() <= limit && #[trigger] entry_bytes(e)
                        == data@.subrange(pos as int, pos + entry_bytes(e).len()) implies false by {
                    lemma_entry_found(data@, pos as int, e);
                }
            }
            return None;
        }
        k = k + 1;
    }
    let path = slice_range(data, pos + 62, nul);
    let e = IndexEntry {
        ctime_secs: ws[0],
        ctime_nanos: ws[1],
        mtime_secs: ws[2],
        mtime_nanos: ws[3],
        dev: ws[4],
        ino: ws[5],
        mode: ws[6],
        uid: ws[7],
        gid: ws[8],
        size: ws[9],
        hash,
        flags,
        path,
    };
    proof {
        let v = e.view();
        assert(v.stat =~= ws@);
        assert forall|j: int| 0 <= j < v.path.len() implies #[trigger] v.path[j] != 0 by {
            assert(v.path[j] == data@[pos + 62 + j]);
        }
        assert forall|k: int| 0 <= k < 40 implies #[trigger] words_bytes(v.stat)[k] == data@[pos + k] by {
            let i = k / 4;
            assert(be32(ws@[i]) == data@.subrange(pos + 4 * i, pos + 4 * i + 4));
            assert(be32(ws@[i])[k % 4] == data@.subrange(pos + 4 * i, pos + 4 * i + 4)[k % 4]);
        }
        assert(data@.subrange(pos as int, end as int) =~= entry_bytes(v));
        assert forall|x: IndexEntryView|
            entry_wf(x) && pos + entry_bytes(x).len() <= limit && #[trigger] entry_bytes(x)
                == data@.subrange(pos as int, pos + entry_bytes(x).len()) implies e.view() == x by {
            lemma_entry_found(data@, pos as int, x);
            assert forall|i: int| 0 <= i < 10 implies x.stat[i] == v.stat[i] by {
                lemma_be32_unique(x.stat[i], v.stat[i]);
            }
            assert(x.stat =~= v.stat);
            lemma_be16_unique(x.flags, flags);
        }
    }
    Some((e, end))
}

/// A prefix of the entries gives a prefix of their bytes.
proof fn lemma_entries_prefix(es: Seq<IndexEntryView>, i: int)
    requires
        0 <= i <= es.len(),
    ensures
        entries_bytes(es.subrange(0, i)).len() <= entries_bytes(es).len(),
        entries_bytes(es).subrange(0, entries_bytes(es.subrange(0, i)).len() as int)
            == entries_bytes(es.subrange(0, i)),
        i == es.len() ==> entries_bytes(es.subrange(0, i)) == entries_bytes(es),
        i < es.len() ==> entries_bytes(es.subrange(0, i + 1)) == entries_bytes(es.subrange(0, i))
            + entry_bytes(es[i]),
    decreases es.len(),
{
    if i < es.len() {
        assert(es.subrange(0, i + 1).drop_last() =~= es.subrange(0, i));
        lemma_entries_prefix(es.drop_last(), i);
        assert(es.drop_last().subrange(0, i) =~= es.subrange(0, i));
        if i + 1 < es.len() {
            lemma_entries_prefix(es.drop_last(), i + 1);
            assert(es.drop_last().subrange(0, i + 1) =~= es.subrange(0, i + 1));
        } else {
            assert(es.subrange(0, i + 1) =~= es);
        }
        let p = entries_bytes(es.drop_last());
        assert(entries_bytes(es) == p + entry_bytes(es.last()));
        assert(entries_bytes(es).subrange(0, entries_bytes(es.subrange(0, i)).len() as int)
            =~= p.subrange(0, entries_bytes(es.subrange(0, i)).len() as int));
    } else {
        assert(es.subrange(0, i) =~= es);
        assert(entries_bytes(es).subrange(0, entries_bytes(es).len() as int) =~= entries_bytes(es));
    }
}

/// Where a reader that has read the first `k` entries of `es` stands.
proof fn lemma_next_entry(data: Seq<u8>, es: Seq<IndexEntryView>, k: int, pos: int, limit: int)
    requires
        index_wf(es),
        index_body(es) == data.subrange(0, limit),
        0 <= limit <= data.len(),
        0 <= k < es.len(),
        pos == 12 + entries_bytes(es.subrange(0, k)).len(),
    ensures
        pos + entry_bytes(es[k]).len() <= limit,
        entry_bytes(es[k]) == data.subrange(pos, pos + entry_bytes(es[k]).len()),
        pos + entry_bytes(es[k]).len() == 12 + entries_bytes(es.subrange(0, k + 1)).len(),
{
    lemma_entries_prefix(es, k);
    lemma_entries_prefix(es, k + 1);
    lemma_entries_prefix(es, es.len() as int);
    lemma_entries_prefix(es.subrange(0, k + 1), k + 1);
    let body = index_body(es);
    let all = entries_bytes(es);
    let pre2 = entries_bytes(es.subrange(0, k + 1));
    lemma_entries_prefix(es, k + 1);
    let pre = entries_bytes(es.subrange(0, k));
    let eb = entry_bytes(es[k]);
    assert(magic().len() == 4);
    assert(body == magic() + be32(INDEX_VERSION) + be32(es.len() as u32) + all);
    assert(body.len() == 12 + all.len());
    assert(forall|j: int| 0 <= j < all.len() ==> body[12 + j] == #[trigger] all[j]);
    assert(pre2.len() == pre.len() + eb.len());
    assert(data.subrange(0, limit).len() == limit);
    assert(body.len() == limit);
    assert(all.subrange(0, pre2.len() as int) == pre2);
    assert(pre2 == pre + eb);
    assert forall|t: int| 0 <= t < eb.len() implies data[pos + t] == #[trigger] eb[t] by {
        assert(pre2.len() <= all.len());
        assert(pos + t < limit);
        assert(data.subrange(0, limit)[pos + t] == data[pos + t]);
        assert(data.subrange(0, limit)[pos + t] == body[pos + t]);
        assert(pos + t - 12 == pre.len() + t);
        assert(body[pos + t] == all[pos + t - 12]);
        assert(all[pre.len() + t] == all.subrange(0, pre2.len() as int)[pre.len() + t]);
        assert(pre2[pre.len() + t] == eb[t]);
    }
    assert(data.subrange(pos, pos + eb.len()) =~= eb);
}

/// Whether two byte strings are equal.
fn bytes_equal(a: &[u8], b: &[u8]) -> (r: bool)
    ensures
        r == (a@ == b@),
{
    if a.len() != b.len() {
        return false;
    }
    let mut i: usize = 0;
    while i < a.len()
        invariant
            i <= a@.len() == b@.len(),
            forall|j: int| 0 <= j < i ==> a@[j] == b@[j],
        decreases a@.len() - i,
    {
        if a[i] != b[i] {
            return false;
        }
        i = i + 1;
    }
    assert(a@ =~= b@);
    true
}

impl Index {
    /// Serialises the index: signature, version 2, entry count, the entries
    /// with their padding, and the SHA-1 checksum of all of that.
    pub fn write(&self) -> (r: Vec<u8>)
        requires
            self.entries@.len() <= u32::MAX,
        ensures
            r@ == index_file(self.view()),
    {
        let mut out: Vec<u8> = Vec::new();
        out.push(68);
        out.push(73);
        out.push(82);
        out.push(67);
        push_be32(&mut out, INDEX_VERSION);
        push_be32(&mut out, self.entries.len() as u32);
        let ghost head = out@;
        let mut i: usize = 0;
        while i < self.entries.len()
            invariant
                i <= self.entries@.len(),
                out@ == head + entries_bytes(self.view().subrange(0, i as int)),
            decreases self.entries@.len() - i,
        {
            self.entries[i].write_to(&mut out);
            proof {
                let v = self.view();
                assert(v.subrange(0, i + 1).drop_last() =~= v.subrange(0, i as int));
                assert(v[i as int] == self.entries@[i as int].view());
                assert(out@ =~= head + entries_bytes(v.subrange(0, i + 1)));
            }
            i = i + 1;
        }
        assert(self.view().subrange(0, i as int) =~= self.view());
        assert(head =~= magic() + be32(INDEX_VERSION) + be32(self.view().len() as u32));
        let sum = sha1_digest(out.as_slice());
        append(&mut out, sum.as_slice());
        out
    }

    /// Parses an index file. Succeeds exactly on the files that `write`
    /// makes of well-formed entries, and then returns those entries; a wrong
    /// signature, version, count, entry, trailing bytes or checksum is a
    /// `FormatError`.
    #[verifier::rlimit(40)]
    pub fn read(data: &[u8]) -> (r: GitResult<Index>)
        ensures
            r matches Ok(ix) ==> index_wf(ix.view()) && index_file(ix.view()) == data@,
            forall|es: Seq<IndexEntryView>|
                index_wf(es) && sha1_of(index_body(es)).len() == DIGEST_LEN && #[trigger] index_file(es)
                    == data@ ==> (r matches Ok(ix) && ix.view() == es),
            r is Err ==> r == Err::<Index, GitError>(GitError::FormatError),
    {
        let n = data.len();
        proof {
            assert forall|es: Seq<IndexEntryView>|
                index_wf(es) && sha1_of(index_body(es)).len() == DIGEST_LEN && #[trigger] index_file(es)
                    == data@ implies ({
                    &&& n >= 32
                    &&& index_body(es) == data@.subrange(0, n - 20)
                    &&& sha1_of(index_body(es)) == data@.subrange(n - 20, n as int)
                    &&& data@.subrange(0, 4) == magic()
                    &&& data@.subrange(4, 8) == be32(INDEX_VERSION)
                    &&& data@.subrange(8, 12) == be32(es.len() as u32)
                }) by {
                let body = index_body(es);
                assert(data@.subrange(0, n - 20) =~= body);
                assert(data@.subrange(n - 20, n as int) =~= sha1_of(body));
                assert(data@.subrange(0, 4) =~= magic());
                assert(data@.subrange(4, 8) =~= be32(INDEX_VERSION));
                assert(data@.subrange(8, 12) =~= be32(es.len() as u32));
            }
        }
        if n < 32 {
            return Err(GitError::FormatError);
        }
        if data[0] != 68 || data[1] != 73 || data[2] != 82 || data[3] != 67 {
            proof {
                assert forall|es: Seq<IndexEntryView>|
                    index_wf(es) && sha1_of(index_body(es)).len() == DIGEST_LEN && #[trigger] index_file(es)
                        == data@ implies false by {
                    assert(data@.subrange(0, 4)[0] == data@[0]);
                    assert(data@.subrange(0, 4)[1] == data@[1]);
                    assert(data@.subrange(0, 4)[2] == data@[2]);
                    assert(data@.subrange(0, 4)[3] == data@[3]);
                }
            }
            return Err(GitError::FormatError);
        }
        let version = read_be32(data, 4);
        let count = read_be32(data, 8);
        proof {
            assert forall|es: Seq<IndexEntryView>|
                index_wf(es) && sha1_of(index_body(es)).len() == DIGEST_LEN && #[trigger] index_file(es)
                    == data@ implies version == INDEX_VERSION && count == es.len() by {
                lemma_be32_unique(version, INDEX_VERSION);
                lemma_be32_unique(count, es.len() as u32);
            }
        }
        if version != INDEX_VERSION {
            return Err(GitError::FormatError);
        }
        let limit = n - 20;
        let mut entries: Vec<IndexEntry> = Vec::new();
        let mut pos: usize = 12;
        let mut i: u32 = 0;
        proof {
            assert(entries@.map_values(|e: IndexEntry| e.view()) =~= Seq::<IndexEntryView>::empty());
            assert(data@.subrange(0, 12) =~= magic() + be32(INDEX_VERSION) + be32(count));
            assert forall|es: Seq<IndexEntryView>|
                index_wf(es) && sha1_of(index_body(es)).len() == DIGEST_LEN && #[trigger] index_file(es)
                    == data@ implies es.subrange(0, 0) == Seq::<IndexEntryView>::empty() by {
                assert(es.subrange(0, 0) =~= Seq::<IndexEntryView>::empty());
            }
        }
        while i < count
            invariant
                12 <= pos <= limit,
                limit == n - 20,
                n == data@.len(),
                n >= 32,
                i <= count,
                entries@.len() == i,
                version == INDEX_VERSION,
                data@.subrange(0, 4) == magic(),
                data@.subrange(4, 8) == be32(version),
                data@.subrange(8, 12) == be32(count),
                forall|j: int| 0 <= j < entries@.len() ==> entry_wf(#[trigger] entries@[j].view()),
                data@.subrange(0, pos as int) == magic() + be32(INDEX_VERSION) + be32(count)
                    + entries_bytes(entries@.map_values(|e: IndexEntry| e.view())),
                forall|es: Seq<IndexEntryView>|
                    index_wf(es) && sha1_of(index_body(es)).len() == DIGEST_LEN && #[trigger] index_file(es)
                        == data@ ==> (count == es.len() && index_body(es) == data@.subrange(0, n - 20)
                        && entries@.map_values(|e: IndexEntry| e.view()) == es.subrange(0, i as int)
                        && pos == 12 + entries_bytes(es.subrange(0, i as int)).len()),
            decreases count - i,
        {
            let ghost before = entries@.map_values(|e: IndexEntry| e.view());
            proof {
                assert forall|es: Seq<IndexEntryView>|
                    index_wf(es) && sha1_of(index_body(es)).len() == DIGEST_LEN && #[trigger] index_file(es)
                        == data@ implies pos + entry_bytes(es[i as int]).len() <= limit && entry_bytes(es[i as int])
                        == data@.subrange(pos as int, pos + entry_bytes(es[i as int]).len()) && entry_wf(es[i as int])
                        && pos + entry_bytes(es[i as int]).len() == 12 + entries_bytes(es.subrange(0, i + 1)).len() by {
                    lemma_next_entry(data@, es, i as int, pos as int, limit as int);
                }
            }
            match parse_entry(data, pos, limit) {
                Some((e, next)) => {
                    entries.push(e);
                    proof {
                        let after = entries@.map_values(|e: IndexEntry| e.view());
                        assert(after =~= before.push(e.view()));
                        assert(after.drop_last() =~= before);
                        assert(data@.subrange(0, next as int) =~= data@.subrange(0, pos as int)
                            + data@.subrange(pos as int, next as int));
                        assert forall|es: Seq<IndexEntryView>|
                            index_wf(es) && sha1_of(index_body(es)).len() == DIGEST_LEN && #[trigger] index_file(es)
                                == data@ implies after == es.subrange(0, i + 1) by {
                            assert(after =~= es.subrange(0, i + 1));
                        }
                        assert forall|j: int| 0 <= j < entries@.len() implies entry_wf(#[trigger] entries@[j].view()) by {
                            if j < i {
                                assert(after[j] == before[j]);
                            }
                        }
                    }
                    pos = next;
                    i = i + 1;
                },
                None => {
                    return Err(GitError::FormatError);
                },
            }
        }
        proof {
            assert forall|es: Seq<IndexEntryView>|
                index_wf(es) && sha1_of(index_body(es)).len() == DIGEST_LEN && #[trigger] index_file(es)
                    == data@ implies pos == limit && es.subrange(0, i as int) == es by {
                lemma_entries_prefix(es, es.len() as int);
                assert(es.subrange(0, i as int) =~= es);
                assert(index_body(es).len() == n - 20);
            }
        }
        if pos != limit {
            return Err(GitError::FormatError);
        }
        let body = slice_range(data, 0, limit);
        let sum = sha1_digest(body.as_slice());
        let stored = slice_range(data, limit, n);
        if !bytes_equal(sum.as_slice(), stored.as_slice()) {
            return Err(GitError::FormatError);
        }
        let ix = Index { entries };
        proof {
            let v = ix.view();
            assert(v.len() == count);
            assert(body@ =~= index_body(v));
            assert(data@ =~= index_file(v));
        }
        Ok(ix)
    }
}

/// Reads an index file and writes it back out. It succeeds only on the file
/// of some well-formed entries, and then what is written is the file itself,
/// byte for byte; a file that does not read gives the reader's error.
pub fn show_index(data: &[u8]) -> (r: GitResult<Vec<u8>>)
    ensures
        r matches Ok(out) ==> out@ == data@,
        r is Ok ==> exists|es: Seq<IndexEntryView>| index_wf(es) && #[trigger] index_file(es)
            == data@,
        forall|es: Seq<IndexEntryView>|
            index_wf(es) && sha1_of(index_body(es)).len() == DIGEST_LEN && #[trigger] index_file(es)
                == data@ ==> r is Ok,
        r is Err ==> r == Err::<Vec<u8>, GitError>(GitError::FormatError),
{
    let ix = Index::read(data)?;
    Ok(ix.write())
}

} // verus!
