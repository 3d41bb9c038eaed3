use vstd::prelude::*;
use vstd::utf8::{decode_utf8, encode_utf8, valid_utf8};

use crate::decimal::{dec_of, dec_value, is_canonical_dec, lemma_canonical_dec_of, lemma_dec_of_canonical, read_dec, write_dec};
use crate::error::{GitError, GitResult};
use crate::hex::{from_hex, hex_of, is_digest_hex, to_hex, DIGEST_LEN};
use crate::object::{find_byte, slice_tail, Object, ObjectType};
use crate::store::slice_range;
use crate::tree::append;

verus! {

/// A point in time with the UTC offset it was recorded in.
#[derive(Debug, Clone, Copy, PartialEq, Eq, Structural)]
pub struct Timestamp {
    /// Seconds since the Unix epoch.
    pub seconds: i64,
    /// Offset from UTC in minutes, east positive.
    pub offset_minutes: i32,
}

/// A history node.
#[derive(Debug, Clone)]
pub struct Commit {
    /// The 20-byte digest of the root tree.
    pub tree: Vec<u8>,
    /// The 20-byte digests of the parents, in order.
    pub parents: Vec<Vec<u8>>,
    pub author: String,
    pub author_date: Timestamp,
    pub committer: String,
    pub committer_date: Timestamp,
    pub message: String,
}

/// The value of a commit.
pub struct CommitView {
    pub tree: Seq<u8>,
    pub parents: Seq<Seq<u8>>,
    pub author: Seq<char>,
    pub author_date: Timestamp,
    pub committer: Seq<char>,
    pub committer_date: Timestamp,
    pub message: Seq<char>,
}

impl Commit {
    pub open spec fn view(&self) -> CommitView {
        CommitView {
            tree: self.tree@,
            parents: self.parents@.map_values(|p: Vec<u8>| p@),
            author: self.author@,
            author_date: self.author_date,
            committer: self.committer@,
            committer_date: self.committer_date,
            message: self.message@,
        }
    }
}

pub open spec fn kw_tree() -> Seq<u8> {
    seq![116u8, 114u8, 101u8, 101u8, 32u8]
}

pub open spec fn kw_parent() -> Seq<u8> {
    seq![112u8, 97u8, 114u8, 101u8, 110u8, 116u8, 32u8]
}

pub open spec fn kw_author() -> Seq<u8> {
    seq![97u8, 117u8, 116u8, 104u8, 111u8, 114u8, 32u8]
}

pub open spec fn kw_committer() -> Seq<u8> {
    seq![99u8, 111u8, 109u8, 109u8, 105u8, 116u8, 116u8, 101u8, 114u8, 32u8]
}

/// `<keyword><40 hex digits>\n`
pub open spec fn digest_line(kw: Seq<u8>, id: Seq<u8>) -> Seq<u8> {
    kw + hex_of(id) + seq![10u8]
}

/// One `parent` line per parent, in order.
pub open spec fn parents_bytes(ps: Seq<Seq<u8>>) -> Seq<u8>
    decreases ps.len(),
{
    if ps.len() == 0 {
        Seq::empty()
    } else {
        parents_bytes(ps.drop_last()) + digest_line(kw_parent(), ps.last())
    }
}

/// Seconds as signed decimal: a `-` before the digits of a negative value.
pub open spec fn seconds_text(s: i64) -> Seq<u8> {
    if s < 0 {
        seq![45u8] + dec_of((-s) as nat)
    } else {
        dec_of(s as nat)
    }
}

/// Two decimal digits of a value below 100.
pub open spec fn two_digits(v: int) -> Seq<u8> {
    seq![(v / 10 + 48) as u8, (v % 10 + 48) as u8]
}

/// An offset as `+HHMM` or `-HHMM`; zero is `+0000`.
pub open spec fn offset_text(m: i32) -> Seq<u8> {
    let a: int = if m < 0 { -m } else { m as int };
    seq![if m < 0 { 45u8 } else { 43u8 }] + two_digits(a / 60) + two_digits(a % 60)
}

/// `<keyword><identity> <seconds> <offset>\n`
pub open spec fn ident_line(kw: Seq<u8>, name: Seq<char>, ts: Timestamp) -> Seq<u8> {
    kw + encode_utf8(name) + seq![32u8] + seconds_text(ts.seconds) + seq![32u8] + offset_text(
        ts.offset_minutes,
    ) + seq![10u8]
}

/// The payload of a commit object.
pub open spec fn commit_bytes(c: CommitView) -> Seq<u8> {
    digest_line(kw_tree(), c.tree) + parents_bytes(c.parents) + ident_line(
        kw_author(),
        c.author,
        c.author_date,
    ) + ident_line(kw_committer(), c.committer, c.committer_date) + seq![10u8] + encode_utf8(
        c.message,
    )
}

/// An offset that fits in `HHMM`.
pub open spec fn timestamp_wf(ts: Timestamp) -> bool {
    -5999 <= ts.offset_minutes <= 5999
}

/// An identity that stays on its line.
pub open spec fn ident_wf(name: Seq<char>) -> bool {
    forall|i: int| 0 <= i < encode_utf8(name).len() ==> #[trigger] encode_utf8(name)[i] != 10
}

/// A commit that can be written and read back.
pub open spec fn commit_wf(c: CommitView) -> bool {
    &&& c.tree.len() == DIGEST_LEN
    &&& forall|i: int| 0 <= i < c.parents.len() ==> (#[trigger] c.parents[i]).len() == DIGEST_LEN
    &&& ident_wf(c.author)
    &&& ident_wf(c.committer)
    &&& timestamp_wf(c.author_date)
    &&& timestamp_wf(c.committer_date)
}

/// Relies on `String::from_utf8`: it accepts exactly the valid UTF-8 byte
/// strings and keeps the characters they encode.
#[verifier::external_body]
fn utf8_string(b: Vec<u8>) -> (r: Option<String>)
    ensures
        r is Some <==> valid_utf8(b@),
        r matches Some(s) ==> s@ == decode_utf8(b@),
{
    String::from_utf8(b).ok()
}

fn push_kw_tree(out: &mut Vec<u8>)
    ensures
        final(out)@ == old(out)@ + kw_tree(),
{
    out.push(116);
    out.push(114);
    out.push(101);
    out.push(101);
    out.push(32);
    assert(final(out)@ =~= old(out)@ + kw_tree());
}

fn push_kw_parent(out: &mut Vec<u8>)
    ensures
        final(out)@ == old(out)@ + kw_parent(),
{
    out.push(112);
    out.push(97);
    out.push(114);
    out.push(101);
    out.push(110);
    out.push(116);
    out.push(32);
    assert(final(out)@ =~= old(out)@ + kw_parent());
}

fn push_kw_author(out: &mut Vec<u8>)
    ensures
        final(out)@ == old(out)@ + kw_author(),
{
    out.push(97);
    out.push(117);
    out.push(116);
    out.push(104);
    out.push(111);
    out.push(114);
    out.push(32);
    assert(final(out)@ =~= old(out)@ + kw_author());
}

fn push_kw_committer(out: &mut Vec<u8>)
    ensures
        final(out)@ == old(out)@ + kw_committer(),
{
    out.push(99);
    out.push(111);
    out.push(109);
    out.push(109);
    out.push(105);
    out.push(116);
    out.push(116);
    out.push(101);
    out.push(114);
    out.push(32);
    assert(final(out)@ =~= old(out)@ + kw_committer());
}

fn push_seconds(out: &mut Vec<u8>, s: i64)
    ensures
        final(out)@ == old(out)@ + seconds_text(s),
{
    if s < 0 {
        out.push(45);
        let mag: u64 = if s == i64::MIN { 9223372036854775808u64 } else { (-s) as u64 };
        write_dec(mag, out);
        assert(final(out)@ =~= old(out)@ + seconds_text(s));
    } else {
        write_dec(s as u64, out);
    }
}

fn push_offset(out: &mut Vec<u8>, m: i32)
    requires
        -5999 <= m <= 5999,
    ensures
        final(out)@ == old(out)@ + offset_text(m),
{
    let a: i32 = if m < 0 { -m } else { m };
    out.push(if m < 0 { 45 } else { 43 });
    let h = (a / 60) as u8;
    let mm = (a % 60) as u8;
    out.push(h / 10 + 48);
    out.push(h % 10 + 48);
    out.push(mm / 10 + 48);
    out.push(mm % 10 + 48);
    assert(final(out)@ =~= old(out)@ + offset_text(m));
}

fn push_ident(out: &mut Vec<u8>, name: &String, ts: Timestamp)
    requires
        timestamp_wf(ts),
    ensures
        final(out)@ == old(out)@ + encode_utf8(name@) + seq![32u8] + seconds_text(ts.seconds)
            + seq![32u8] + offset_text(ts.offset_minutes) + seq![10u8],
{
    append(out, name.as_str().as_bytes());
    out.push(32);
    push_seconds(out, ts.seconds);
    out.push(32);
    push_offset(out, ts.offset_minutes);
    out.push(10);
    assert(final(out)@ =~= old(out)@ + encode_utf8(name@) + seq![32u8] + seconds_text(ts.seconds)
        + seq![32u8] + offset_text(ts.offset_minutes) + seq![10u8]);
}

impl Commit {
    /// Encodes the commit as a commit object: the `tree` line, one `parent`
    /// line per parent, the `author` and `committer` lines, a blank line and
    /// the message.
    pub fn as_object(&self) -> (r: Object)
        requires
            timestamp_wf(self.author_date),
            timestamp_wf(self.committer_date),
        ensures
            r.kind == ObjectType::Commit,
            r.data@ == commit_bytes(self.view()),
    {
        let mut out: Vec<u8> = Vec::new();
        push_kw_tree(&mut out);
        append(&mut out, to_hex(self.tree.as_slice()).as_slice());
        out.push(10);
        let ghost head = out@;
        let mut i: usize = 0;
        while i < self.parents.len()
            invariant
                i <= self.parents@.len(),
                out@ == head + parents_bytes(self.view().parents.subrange(0, i as int)),
            decreases self.parents@.len() - i,
        {
            push_kw_parent(&mut out);
            append(&mut out, to_hex(self.parents[i].as_slice()).as_slice());
            out.push(10);
            proof {
                let ps = self.view().parents;
                assert(ps.subrange(0, i + 1).drop_last() =~= ps.subrange(0, i as int));
                assert(ps[i as int] == self.parents@[i as int]@);
                assert(out@ =~= head + parents_bytes(ps.subrange(0, i + 1)));
            }
            i = i + 1;
        }
        assert(self.view().parents.subrange(0, i as int) =~= self.view().parents);
        push_kw_author(&mut out);
        push_ident(&mut out, &self.author, self.author_date);
        push_kw_committer(&mut out);
        push_ident(&mut out, &self.committer, self.committer_date);
        out.push(10);
        append(&mut out, self.message.as_str().as_bytes());
        assert(out@ =~= commit_bytes(self.view()));
        Object { kind: ObjectType::Commit, data: out }
    }
}


/// Whether `lit` stands in `data` at `pos`.
fn has_at(data: &[u8], pos: usize, lit: &[u8]) -> (r: bool)
    requires
        pos <= data@.len(),
    ensures
        r == (pos + lit@.len() <= data@.len() && data@.subrange(pos as int, pos + lit@.len())
            == lit@),
{
    let n = data.len();
    if n - pos < lit.len() {
        return false;
    }
    let mut i: usize = 0;
    while i < lit.len()
        invariant
            i <= lit@.len(),
            n == data@.len(),
            pos + lit@.len() <= data@.len(),
            forall|j: int| 0 <= j < i ==> data@[pos + j] == #[trigger] lit@[j],
        decreases lit@.len() - i,
    {
        if data[pos + i] != lit[i] {
            assert(data@.subrange(pos as int, pos + lit@.len())[i as int] == data@[pos + i]);
            return false;
        }
        i = i + 1;
    }
    assert(data@.subrange(pos as int, pos + lit@.len()) =~= lit@);
    true
}

/// Reads `<kw><40 hex digits>\n` at `pos`: the digest and the position after
/// the line. Any digest whose line stands at `pos` is read back.
fn parse_digest_line(data: &[u8], pos: usize, kw: &[u8]) -> (r: Option<(Vec<u8>, usize)>)
    requires
        pos <= data@.len(),
    ensures
        r matches Some((id, next)) ==> id@.len() == DIGEST_LEN && pos <= next <= data@.len()
            && data@.subrange(pos as int, next as int) == digest_line(kw@, id@),
        forall|id: Seq<u8>|
            id.len() == DIGEST_LEN && pos + digest_line(kw@, id).len() <= data@.len()
                && #[trigger] digest_line(kw@, id) == data@.subrange(
                pos as int,
                pos + digest_line(kw@, id).len(),
            ) ==> (r matches Some((x, next)) && x@ == id && next == pos + digest_line(
                kw@,
                id,
            ).len()),
{
    proof {
        assert forall|id: Seq<u8>|
            id.len() == DIGEST_LEN && pos + digest_line(kw@, id).len() <= data@.len()
                && #[trigger] digest_line(kw@, id) == data@.subrange(
                pos as int,
                pos + digest_line(kw@, id).len(),
            ) implies ({
                let start = pos + kw@.len();
                &&& data@.subrange(pos as int, start) == kw@
                &&& data@.subrange(start, start + 40) == hex_of(id)
                &&& data@[start + 40] == 10
                &&& digest_line(kw@, id).len() == kw@.len() + 41
            }) by {
            let start = pos + kw@.len();
            crate::hex::lemma_hex_round_trip(id);
            crate::hex::lemma_hex_of_len(id);
            let l = digest_line(kw@, id);
            assert(data@.subrange(pos as int, start) =~= l.subrange(0, kw@.len() as int));
            assert(data@.subrange(start, start + 40) =~= l.subrange(kw@.len() as int, kw@.len() + 40int));
            assert(data@[start + 40] == l[kw@.len() + 40int]);
        }
    }
    let n = data.len();
    if !has_at(data, pos, kw) {
        return None;
    }
    let start = pos + kw.len();
    if n - start < 41 {
        return None;
    }
    if data[start + 40] != 10 {
        return None;
    }
    let text = slice_range(data, start, start + 40);
    match from_hex(text.as_slice()) {
        Some(id) => {
            let next = start + 41;
            proof {
                assert(data@.subrange(pos as int, next as int) =~= digest_line(kw@, id@));
                assert forall|x: Seq<u8>|
                    x.len() == DIGEST_LEN && pos + digest_line(kw@, x).len() <= data@.len()
                        && #[trigger] digest_line(kw@, x) == data@.subrange(
                        pos as int,
                        pos + digest_line(kw@, x).len(),
                    ) implies id@ == x by {
                    crate::hex::lemma_hex_round_trip(x);
                }
            }
            Some((id, next))
        },
        None => {
            proof {
                assert forall|x: Seq<u8>|
                    x.len() == DIGEST_LEN && pos + digest_line(kw@, x).len() <= data@.len()
                        && #[trigger] digest_line(kw@, x) == data@.subrange(
                        pos as int,
                        pos + digest_line(kw@, x).len(),
                    ) implies false by {
                    crate::hex::lemma_hex_round_trip(x);
                }
            }
            None
        },
    }
}

proof fn lemma_seconds_text(s: i64)
    ensures
        seconds_text(s).len() >= 1,
        s < 0 <==> seconds_text(s)[0] == 45,
        forall|i: int| 0 <= i < seconds_text(s).len() ==> #[trigger] seconds_text(s)[i] != 32
            && seconds_text(s)[i] != 10,
{
    if s < 0 {
        lemma_dec_of_canonical((-s) as nat);
        let t = seconds_text(s);
        assert forall|i: int| 0 <= i < t.len() implies #[trigger] t[i] != 32 && t[i] != 10 by {
            if i > 0 {
                assert(t[i] == dec_of((-s) as nat)[i - 1]);
            }
        }
    } else {
        lemma_dec_of_canonical(s as nat);
    }
}

/// Reads signed decimal seconds from `data[a..b]`; exactly the texts that
/// `seconds_text` makes are read, each as the value it was made from.
fn parse_seconds(data: &[u8], a: usize, b: usize) -> (r: Option<i64>)
    requires
        a <= b <= data@.len(),
    ensures
        r matches Some(s) ==> seconds_text(s) == data@.subrange(a as int, b as int),
        forall|s: i64| #[trigger] seconds_text(s) == data@.subrange(a as int, b as int) ==> r
            == Some(s),
{
    let ghost w = data@.subrange(a as int, b as int);
    if a == b {
        proof {
            assert forall|s: i64| #[trigger] seconds_text(s) != w by {
                lemma_seconds_text(s);
            }
        }
        return None;
    }
    if data[a] == 45 {
        let v = read_dec(data, a + 1, b, 9223372036854775808u64);
        proof {
            assert forall|s: i64| #[trigger] seconds_text(s) == w implies s < 0 && v == Some(
                (-s) as u64,
            ) by {
                lemma_seconds_text(s);
                assert(w[0] == 45);
                lemma_dec_of_canonical((-s) as nat);
                assert(data@.subrange(a + 1, b as int) =~= w.subrange(1, w.len() as int));
                assert(seconds_text(s).subrange(1, w.len() as int) =~= dec_of((-s) as nat));
            }
        }
        match v {
            Some(v) => {
                if v == 0 {
                    proof {
                        assert forall|s: i64| #[trigger] seconds_text(s) != w by {
                            if seconds_text(s) == w {
                                assert(s < 0);
                            }
                        }
                    }
                    return None;
                }
                let s: i64 = if v == 9223372036854775808u64 { i64::MIN } else { -(v as i64) };
                proof {
                    lemma_canonical_dec_of(data@.subrange(a + 1, b as int));
                    assert(seconds_text(s) =~= w);
                }
                Some(s)
            },
            None => None,
        }
    } else {
        let v = read_dec(data, a, b, 9223372036854775807u64);
        proof {
            assert forall|s: i64| #[trigger] seconds_text(s) == w implies s >= 0 && v == Some(
                s as u64,
            ) by {
                lemma_seconds_text(s);
                assert(w[0] == data@[a as int]);
                lemma_dec_of_canonical(s as nat);
            }
        }
        match v {
            Some(v) => {
                proof {
                    lemma_canonical_dec_of(w);
                }
                Some(v as i64)
            },
            None => None,
        }
    }
}

/// The characters of an offset's text.
proof fn lemma_offset_text(m: i32)
    requires
        -5999 <= m <= 5999,
    ensures
        ({
            let t = offset_text(m);
            let y: int = if m < 0 { -m } else { m as int };
            &&& t.len() == 5
            &&& t[0] == (if m < 0 { 45u8 } else { 43u8 })
            &&& 48 <= t[1] <= 57 && 48 <= t[2] <= 57 && 48 <= t[3] <= 53 && 48 <= t[4] <= 57
            &&& y == ((t[1] - 48) * 10 + (t[2] - 48)) * 60 + (t[3] - 48) * 10 + (t[4] - 48)
        }),
{
    let y: int = if m < 0 { -m } else { m as int };
    let t = offset_text(m);
    assert(y / 60 < 100 && y % 60 < 60);
    assert(t[1] == (y / 60 / 10 + 48) as u8);
    assert(t[2] == (y / 60 % 10 + 48) as u8);
    assert(t[3] == (y % 60 / 10 + 48) as u8);
    assert(t[4] == (y % 60 % 10 + 48) as u8);
    assert(y / 60 == (y / 60 / 10) * 10 + y / 60 % 10);
    assert(y % 60 == (y % 60 / 10) * 10 + y % 60 % 10);
    assert(y == (y / 60) * 60 + y % 60);
}

/// Reads a `+HHMM` / `-HHMM` offset from `data[a..a+5]`; exactly the texts
/// that `offset_text` makes of an offset that fits are read, each as the
/// offset it was made from.
fn parse_offset(data: &[u8], a: usize) -> (r: Option<i32>)
    requires
        a + 5 <= data@.len(),
    ensures
        r matches Some(m) ==> -5999 <= m <= 5999 && offset_text(m) == data@.subrange(
            a as int,
            a + 5,
        ),
        forall|m: i32|
            -5999 <= m <= 5999 && #[trigger] offset_text(m) == data@.subrange(a as int, a + 5)
                ==> r == Some(m),
{
    let ghost w = data@.subrange(a as int, a + 5);
    let sign = data[a];
    let d0 = data[a + 1];
    let d1 = data[a + 2];
    let d2 = data[a + 3];
    let d3 = data[a + 4];
    proof {
        assert(w[0] == sign && w[1] == d0 && w[2] == d1 && w[3] == d2 && w[4] == d3);
    }
    if (sign != 43 && sign != 45) || d0 < 48 || d0 > 57 || d1 < 48 || d1 > 57 || d2 < 48 || d2
        > 53 || d3 < 48 || d3 > 57 {
        proof {
            assert forall|m: i32| -5999 <= m <= 5999 implies #[trigger] offset_text(m) != w by {
                lemma_offset_text(m);
            }
        }
        return None;
    }
    let x: i32 = ((d0 - 48) as i32 * 10 + (d1 - 48) as i32) * 60 + (d2 - 48) as i32 * 10 + (d3
        - 48) as i32;
    if sign == 45 && x == 0 {
        proof {
            assert forall|m: i32| -5999 <= m <= 5999 implies #[trigger] offset_text(m) != w by {
                lemma_offset_text(m);
            }
        }
        return None;
    }
    let m: i32 = if sign == 45 { -x } else { x };
    proof {
        lemma_offset_text(m);
        assert(offset_text(m) =~= w) by {
            let t = offset_text(m);
            let y: int = x as int;
            assert(y / 60 == (d0 - 48) * 10 + (d1 - 48));
            assert(y % 60 == (d2 - 48) * 10 + (d3 - 48));
        }
        assert forall|n: i32| -5999 <= n <= 5999 && #[trigger] offset_text(n) == w implies n == m by {
            lemma_offset_text(n);
        }
    }
    Some(m)
}

/// The last index in `[start, end)` that holds `b`.
fn rfind_byte(s: &[u8], start: usize, end: usize, b: u8) -> (r: Option<usize>)
    requires
        start <= end <= s@.len(),
    ensures
        r matches Some(i) ==> start <= i < end && s@[i as int] == b && forall|j: int|
            i < j < end ==> #[trigger] s@[j] != b,
        r is None ==> forall|j: int| start <= j < end ==> #[trigger] s@[j] != b,
{
    let mut i: usize = end;
    while i > start
        invariant
            start <= i <= end <= s@.len(),
            forall|j: int| i <= j < end ==> #[trigger] s@[j] != b,
        decreases i - start,
    {
        if s[i - 1] == b {
            return Some(i - 1);
        }
        i = i - 1;
    }
    None
}

/// Where the parts of an identity line lie, as a parser finds them.
proof fn lemma_ident_found(data: Seq<u8>, pos: int, kw: Seq<u8>, name: Seq<char>, ts: Timestamp)
    requires
        ident_wf(name),
        timestamp_wf(ts),
        0 <= pos,
        pos + ident_line(kw, name, ts).len() <= data.len(),
        ident_line(kw, name, ts) == data.subrange(pos, pos + ident_line(kw, name, ts).len()),
    ensures
        ({
            let start = pos + kw.len();
            let sp = start + encode_utf8(name).len();
            let nl = pos + ident_line(kw, name, ts).len() - 1;
            &&& data.subrange(pos, start) == kw
            &&& forall|j: int| start <= j < nl ==> #[trigger] data[j] != 10
            &&& data[nl] == 10
            &&& nl >= start + 8
            &&& nl == sp + seconds_text(ts.seconds).len() + 7
            &&& data[nl - 6] == 32
            &&& data.subrange(nl - 5, nl) == offset_text(ts.offset_minutes)
            &&& data[sp] == 32
            &&& forall|j: int| sp < j < nl - 6 ==> #[trigger] data[j] != 32
            &&& data.subrange(sp + 1, nl - 6) == seconds_text(ts.seconds)
            &&& data.subrange(start, sp) == encode_utf8(name)
        }),
{
    let l = ident_line(kw, name, ts);
    let e = encode_utf8(name);
    let st = seconds_text(ts.seconds);
    let ot = offset_text(ts.offset_minutes);
    let start = pos + kw.len();
    let sp = start + e.len();
    let nl = pos + l.len() - 1;
    lemma_seconds_text(ts.seconds);
    lemma_offset_text(ts.offset_minutes);
    assert(forall|i: int| 0 <= i < l.len() ==> data[pos + i] == #[trigger] l[i]);
    assert(data.subrange(pos, start) =~= kw);
    let k = kw.len() as int;
    assert(l.subrange(k, k + e.len()) =~= e);
    assert(data.subrange(start, sp) =~= l.subrange(k, k + e.len()));
    assert(l.subrange(k + e.len() + 1, k + e.len() + 1 + st.len()) =~= st);
    assert(data.subrange(sp + 1, nl - 6) =~= l.subrange(k + e.len() + 1, k + e.len() + 1 + st.len()));
    assert(l.len() == k + e.len() + st.len() + 8);
    assert(l.subrange(k + e.len() + st.len() + 2, k + e.len() + st.len() + 7) =~= ot);
    assert(data.subrange(nl - 5, nl) =~= l.subrange(k + e.len() + st.len() + 2, k + e.len() + st.len() + 7));
    assert(data[nl] == l[l.len() - 1]);
    assert(data[nl - 6] == l[k + e.len() + st.len() + 1]);
    assert(data[sp] == l[k + e.len()]);
    assert(nl >= start + 8);
    assert forall|j: int| start <= j < nl implies #[trigger] data[j] != 10 by {
        assert(data[j] == l[j - pos]);
        if j < sp {
            assert(l[j - pos] == e[j - start]);
        } else if sp < j < nl - 6 {
            assert(l[j - pos] == st[j - sp - 1]);
        } else if nl - 5 <= j {
            assert(l[j - pos] == ot[j - nl + 5]);
        }
    }
    assert forall|j: int| sp < j < nl - 6 implies #[trigger] data[j] != 32 by {
        assert(data[j] == l[j - pos]);
        assert(l[j - pos] == st[j - sp - 1]);
    }
}

/// Reads `<kw><identity> <seconds> <offset>\n` at `pos`: the identity, the
/// timestamp and the position after the line. Any well-formed identity and
/// timestamp whose line stands at `pos` are read back. An identity that is
/// not UTF-8 is an `EncodingError`; any other failure a `FormatError`.
#[verifier::rlimit(60)]
fn parse_ident_line(data: &[u8], pos: usize, kw: &[u8]) -> (r: GitResult<(String, Timestamp, usize)>)
    requires
        pos <= data@.len(),
    ensures
        r matches Ok((name, ts, next)) ==> pos <= next <= data@.len() && ident_wf(name@)
            && timestamp_wf(ts) && data@.subrange(pos as int, next as int) == ident_line(
            kw@,
            name@,
            ts,
        ),
        forall|name: Seq<char>, ts: Timestamp|
            ident_wf(name) && timestamp_wf(ts) && pos + ident_line(kw@, name, ts).len()
                <= data@.len() && #[trigger] ident_line(kw@, name, ts) == data@.subrange(
                pos as int,
                pos + ident_line(kw@, name, ts).len(),
            ) ==> (r matches Ok((x, y, next)) && x@ == name && y == ts && next == pos
                + ident_line(kw@, name, ts).len()),
        r is Err ==> r == Err::<(String, Timestamp, usize), GitError>(GitError::FormatError)
            || r == Err::<(String, Timestamp, usize), GitError>(GitError::EncodingError),
{
    let n = data.len();
    proof {
        assert forall|name: Seq<char>, ts: Timestamp|
            ident_wf(name) && timestamp_wf(ts) && pos + ident_line(kw@, name, ts).len()
                <= data@.len() && #[trigger] ident_line(kw@, name, ts) == data@.subrange(
                pos as int,
                pos + ident_line(kw@, name, ts).len(),
            ) implies data@.subrange(pos as int, pos + kw@.len()) == kw@ by {
            lemma_ident_found(data@, pos as int, kw@, name, ts);
        }
    }
    if !has_at(data, pos, kw) {
        return Err(GitError::FormatError);
    }
    let start = pos + kw.len();
    let nl = match find_byte(data, start, 10) {
        Some(i) => i,
        None => {
            proof {
                assert forall|name: Seq<char>, ts: Timestamp|
                    ident_wf(name) && timestamp_wf(ts) && pos + ident_line(kw@, name, ts).len()
                        <= data@.len() && #[trigger] ident_line(kw@, name, ts) == data@.subrange(
                        pos as int,
                        pos + ident_line(kw@, name, ts).len(),
                    ) implies false by {
                    lemma_ident_found(data@, pos as int, kw@, name, ts);
                }
            }
            return Err(GitError::FormatError);
        },
    };
    proof {
        assert forall|name: Seq<char>, ts: Timestamp|
            ident_wf(name) && timestamp_wf(ts) && pos + ident_line(kw@, name, ts).len()
                <= data@.len() && #[trigger] ident_line(kw@, name, ts) == data@.subrange(
                pos as int,
                pos + ident_line(kw@, name, ts).len(),
            ) implies nl == pos + ident_line(kw@, name, ts).len() - 1 by {
            lemma_ident_found(data@, pos as int, kw@, name, ts);
            let e = pos + ident_line(kw@, name, ts).len() - 1;
            if nl < e {
                assert(data@[nl as int] != 10);
            }
            assert(data@[e] == 10);
        }
    }
    if nl - start < 8 || data[nl - 6] != 32 {
        proof {
            assert forall|name: Seq<char>, ts: Timestamp|
                ident_wf(name) && timestamp_wf(ts) && pos + ident_line(kw@, name, ts).len()
                    <= data@.len() && #[trigger] ident_line(kw@, name, ts) == data@.subrange(
                    pos as int,
                    pos + ident_line(kw@, name, ts).len(),
                ) implies false by {
                lemma_ident_found(data@, pos as int, kw@, name, ts);
            }
        }
        return Err(GitError::FormatError);
    }
    let offset = parse_offset(data, nl - 5);
    let sp = rfind_byte(data, start, nl - 6, 32);
    proof {
        assert forall|name: Seq<char>, ts: Timestamp|
            ident_wf(name) && timestamp_wf(ts) && pos + ident_line(kw@, name, ts).len()
                <= data@.len() && #[trigger] ident_line(kw@, name, ts) == data@.subrange(
                pos as int,
                pos + ident_line(kw@, name, ts).len(),
            ) implies offset == Some(ts.offset_minutes) && sp == Some(
                (start + encode_utf8(name).len()) as usize,
            ) by {
            lemma_ident_found(data@, pos as int, kw@, name, ts);
            let e = start + encode_utf8(name).len();
            match sp {
                Some(j) => {
                    if j > e {
                        assert(data@[j as int] != 32);
                    }
                    if j < e {
                        assert(data@[e] == 32);
                    }
                },
                None => {
                    assert(data@[e] == 32);
                },
            }
        }
    }
    let offset = match offset {
        Some(m) => m,
        None => return Err(GitError::FormatError),
    };
    let sp = match sp {
        Some(j) => j,
        None => return Err(GitError::FormatError),
    };
    let seconds = parse_seconds(data, sp + 1, nl - 6);
    proof {
        assert forall|name: Seq<char>, ts: Timestamp|
            ident_wf(name) && timestamp_wf(ts) && pos + ident_line(kw@, name, ts).len()
                <= data@.len() && #[trigger] ident_line(kw@, name, ts) == data@.subrange(
                pos as int,
                pos + ident_line(kw@, name, ts).len(),
            ) implies seconds == Some(ts.seconds) by {
            lemma_ident_found(data@, pos as int, kw@, name, ts);
        }
    }
    let seconds = match seconds {
        Some(s) => s,
        None => return Err(GitError::FormatError),
    };
    let ts = Timestamp { seconds, offset_minutes: offset };
    let raw_name = slice_range(data, start, sp);
    let ghost name_bytes = raw_name@;
    let name = match utf8_string(raw_name) {
        Some(s) => s,
        None => {
            proof {
                assert forall|name: Seq<char>, ts: Timestamp|
                    ident_wf(name) && timestamp_wf(ts) && pos + ident_line(kw@, name, ts).len()
                        <= data@.len() && #[trigger] ident_line(kw@, name, ts) == data@.subrange(
                        pos as int,
                        pos + ident_line(kw@, name, ts).len(),
                    ) implies false by {
                    lemma_ident_found(data@, pos as int, kw@, name, ts);
                    vstd::utf8::encode_utf8_valid_utf8(name);
                }
            }
            return Err(GitError::EncodingError);
        },
    };
    let next = nl + 1;
    proof {
        vstd::utf8::decode_utf8_encode_utf8(name_bytes);
        assert(encode_utf8(name@) == name_bytes);
        assert forall|i: int| 0 <= i < encode_utf8(name@).len() implies #[trigger] encode_utf8(
            name@,
        )[i] != 10 by {
            assert(encode_utf8(name@)[i] == data@[start + i]);
        }
        assert(data@[sp as int] == 32);
        assert(data@.subrange(pos as int, next as int) =~= ident_line(kw@, name@, ts));
        assert forall|nm: Seq<char>, t: Timestamp|
            ident_wf(nm) && timestamp_wf(t) && pos + ident_line(kw@, nm, t).len() <= data@.len()
                && #[trigger] ident_line(kw@, nm, t) == data@.subrange(
                pos as int,
                pos + ident_line(kw@, nm, t).len(),
            ) implies name@ == nm && ts == t by {
            lemma_ident_found(data@, pos as int, kw@, nm, t);
            vstd::utf8::encode_utf8_decode_utf8(nm);
        }
    }
    Ok((name, ts, next))
}

/// A prefix of the parents gives a prefix of their lines.
proof fn lemma_parents_prefix(ps: Seq<Seq<u8>>, i: int)
    requires
        0 <= i <= ps.len(),
    ensures
        parents_bytes(ps.subrange(0, i)).len() <= parents_bytes(ps).len(),
        parents_bytes(ps).subrange(0, parents_bytes(ps.subrange(0, i)).len() as int)
            == parents_bytes(ps.subrange(0, i)),
        i == ps.len() ==> parents_bytes(ps.subrange(0, i)) == parents_bytes(ps),
        i < ps.len() ==> parents_bytes(ps.subrange(0, i + 1)) == parents_bytes(ps.subrange(0, i))
            + digest_line(kw_parent(), ps[i]),
    decreases ps.len(),
{
    if i < ps.len() {
        assert(ps.subrange(0, i + 1).drop_last() =~= ps.subrange(0, i));
        lemma_parents_prefix(ps.drop_last(), i);
        assert(ps.drop_last().subrange(0, i) =~= ps.subrange(0, i));
        if i + 1 < ps.len() {
            lemma_parents_prefix(ps.drop_last(), i + 1);
            assert(ps.drop_last().subrange(0, i + 1) =~= ps.subrange(0, i + 1));
        } else {
            assert(ps.subrange(0, i + 1) =~= ps);
        }
        let p = parents_bytes(ps.drop_last());
        assert(parents_bytes(ps) == p + digest_line(kw_parent(), ps.last()));
        assert(parents_bytes(ps).subrange(0, parents_bytes(ps.subrange(0, i)).len() as int)
            =~= p.subrange(0, parents_bytes(ps.subrange(0, i)).len() as int));
    } else {
        assert(ps.subrange(0, i) =~= ps);
        assert(parents_bytes(ps).subrange(0, parents_bytes(ps).len() as int) =~= parents_bytes(ps));
    }
}

/// The part of a commit's payload before the message: its header lines and
/// the blank line.
pub open spec fn head_bytes(c: CommitView) -> Seq<u8> {
    digest_line(kw_tree(), c.tree) + parents_bytes(c.parents) + ident_line(
        kw_author(),
        c.author,
        c.author_date,
    ) + ident_line(kw_committer(), c.committer, c.committer_date) + seq![10u8]
}

/// `data` starts with the header lines and blank line of the well-formed
/// commit `c` (whose message is not looked at).
pub open spec fn head_match(c: CommitView, data: Seq<u8>) -> bool {
    &&& commit_wf(c)
    &&& head_bytes(c).len() <= data.len()
    &&& data.subrange(0, head_bytes(c).len() as int) == head_bytes(c)
}

/// A whole payload starts with its header, and the message follows.
proof fn lemma_full_has_head(c: CommitView, data: Seq<u8>)
    requires
        commit_wf(c),
        commit_bytes(c) == data,
    ensures
        head_match(c, data),
        data.subrange(head_bytes(c).len() as int, data.len() as int) == encode_utf8(c.message),
{
    assert(commit_bytes(c) =~= head_bytes(c) + encode_utf8(c.message));
    assert(data.subrange(0, head_bytes(c).len() as int) =~= head_bytes(c));
    assert(data.subrange(head_bytes(c).len() as int, data.len() as int) =~= encode_utf8(c.message));
}

/// Where the parts of a commit's header lie in a payload that starts with it.
proof fn lemma_head_layout(c: CommitView, data: Seq<u8>)
    requires
        head_match(c, data),
    ensures
        ({
            let a = digest_line(kw_tree(), c.tree).len() as int;
            let p = parents_bytes(c.parents).len() as int;
            let b = ident_line(kw_author(), c.author, c.author_date).len() as int;
            let k = ident_line(kw_committer(), c.committer, c.committer_date).len() as int;
            &&& commit_wf(c)
            &&& head_bytes(c).len() == a + p + b + k + 1
            &&& a + p + b + k + 1 <= data.len()
            &&& data.subrange(0, a) == digest_line(kw_tree(), c.tree)
            &&& data.subrange(a, a + p) == parents_bytes(c.parents)
            &&& data.subrange(a + p, a + p + b) == ident_line(kw_author(), c.author, c.author_date)
            &&& data[a + p] == 97
            &&& data.subrange(a + p + b, a + p + b + k) == ident_line(
                kw_committer(),
                c.committer,
                c.committer_date,
            )
            &&& data[a + p + b + k] == 10
        }),
{
    let d = head_bytes(c);
    let a = digest_line(kw_tree(), c.tree).len() as int;
    let p = parents_bytes(c.parents).len() as int;
    let b = ident_line(kw_author(), c.author, c.author_date).len() as int;
    let k = ident_line(kw_committer(), c.committer, c.committer_date).len() as int;
    let h = data.subrange(0, d.len() as int);
    assert(d.subrange(0, a) =~= digest_line(kw_tree(), c.tree));
    assert(d.subrange(a, a + p) =~= parents_bytes(c.parents));
    assert(d.subrange(a + p, a + p + b) =~= ident_line(kw_author(), c.author, c.author_date));
    assert(ident_line(kw_author(), c.author, c.author_date)[0] == 97);
    assert(d.subrange(a + p + b, a + p + b + k) =~= ident_line(
        kw_committer(),
        c.committer,
        c.committer_date,
    ));
    assert(data.subrange(0, a) =~= h.subrange(0, a));
    assert(data.subrange(a, a + p) =~= h.subrange(a, a + p));
    assert(data.subrange(a + p, a + p + b) =~= h.subrange(a + p, a + p + b));
    assert(data.subrange(a + p + b, a + p + b + k) =~= h.subrange(a + p + b, a + p + b + k));
    assert(data[a + p] == h[a + p]);
    assert(data[a + p + b + k] == h[a + p + b + k]);
}

fn keyword(which: u8) -> (r: Vec<u8>)
    ensures
        which == 0 ==> r@ == kw_tree(),
        which == 1 ==> r@ == kw_parent(),
        which == 2 ==> r@ == kw_author(),
        which == 3 ==> r@ == kw_committer(),
{
    let mut v: Vec<u8> = Vec::new();
    if which == 0 {
        push_kw_tree(&mut v);
    } else if which == 1 {
        push_kw_parent(&mut v);
    } else if which == 2 {
        push_kw_author(&mut v);
    } else {
        push_kw_committer(&mut v);
    }
    assert(which == 0 ==> v@ =~= kw_tree());
    assert(which == 1 ==> v@ =~= kw_parent());
    assert(which == 2 ==> v@ =~= kw_author());
    v
}

/// Where a parser that has read `before` as the first parents of `c`
/// stands: at the next parent line, if a `p` is there.
proof fn lemma_parent_at(data: Seq<u8>, c: CommitView, before: Seq<Seq<u8>>, pos: int)
    requires
        head_match(c, data),
        before.len() <= c.parents.len(),
        before == c.parents.subrange(0, before.len() as int),
        0 <= pos < data.len(),
        data.subrange(0, pos) == digest_line(kw_tree(), c.tree) + parents_bytes(before),
        data[pos] == 112,
    ensures
        ({
            let k = before.len() as int;
            &&& k < c.parents.len()
            &&& pos + digest_line(kw_parent(), c.parents[k]).len() <= data.len()
            &&& data.subrange(pos, pos + digest_line(kw_parent(), c.parents[k]).len())
                == digest_line(kw_parent(), c.parents[k])
        }),
{
    let k = before.len() as int;
    lemma_head_layout(c, data);
    lemma_parents_prefix(c.parents, k);
    let a = digest_line(kw_tree(), c.tree).len() as int;
    let pre = parents_bytes(c.parents.subrange(0, k));
    assert(data.subrange(0, pos).len() == pos);
    assert(pos == a + pre.len());
    if k == c.parents.len() {
        assert(data[pos] == 97);
        assert(false);
    }
    lemma_parents_prefix(c.parents, k + 1);
    let pre2 = parents_bytes(c.parents.subrange(0, k + 1));
    let pp = parents_bytes(c.parents);
    assert(data.subrange(a, a + pp.len()) == pp);
    assert(pp.subrange(0, pre2.len() as int) == pre2);
    assert(data.subrange(pos, pos + digest_line(kw_parent(), c.parents[k]).len())
        =~= pre2.subrange(pre.len() as int, pre2.len() as int));
}

/// Once no `p` follows, a parser has read all the parents of `c` and stands
/// at its author line.
proof fn lemma_parents_end(data: Seq<u8>, c: CommitView, done: Seq<Seq<u8>>, pos: int)
    requires
        head_match(c, data),
        done.len() <= c.parents.len(),
        done == c.parents.subrange(0, done.len() as int),
        0 <= pos <= data.len(),
        data.subrange(0, pos) == digest_line(kw_tree(), c.tree) + parents_bytes(done),
        !(pos < data.len() && data[pos] == 112),
    ensures
        done == c.parents,
        pos + ident_line(kw_author(), c.author, c.author_date).len() <= data.len(),
        data.subrange(pos, pos + ident_line(kw_author(), c.author, c.author_date).len())
            == ident_line(kw_author(), c.author, c.author_date),
{
    let k = done.len() as int;
    lemma_head_layout(c, data);
    lemma_parents_prefix(c.parents, k);
    let a = digest_line(kw_tree(), c.tree).len() as int;
    assert(data.subrange(0, pos).len() == pos);
    if k < c.parents.len() {
        lemma_parents_prefix(c.parents, k + 1);
        let pre2 = parents_bytes(c.parents.subrange(0, k + 1));
        let pp = parents_bytes(c.parents);
        assert(data.subrange(a, a + pp.len()) == pp);
        assert(pp.subrange(0, pre2.len() as int) == pre2);
        assert(data[pos] == pre2[pos - a]);
        assert(false);
    }
    assert(c.parents.subrange(0, k) =~= c.parents);
}

/// Reads the `parent` lines that follow a commit's `tree` line, which ends
/// at `pos`. Any well-formed commit with that tree whose payload `data` is
/// has its parents read back, and is then left at its author line.
fn parse_parents(data: &[u8], pos: usize, kp: &[u8], Ghost(tree): Ghost<Seq<u8>>) -> (r: Option<(Vec<Vec<u8>>, usize)>)
    requires
        pos <= data@.len(),
        kp@ == kw_parent(),
        tree.len() == DIGEST_LEN,
        data@.subrange(0, pos as int) == digest_line(kw_tree(), tree),
    ensures
        r matches Some((ps, end)) ==> end <= data@.len() && (forall|i: int|
            0 <= i < ps@.len() ==> (#[trigger] ps@[i])@.len() == DIGEST_LEN) && data@.subrange(
            0,
            end as int,
        ) == digest_line(kw_tree(), tree) + parents_bytes(ps@.map_values(|p: Vec<u8>| p@)),
        forall|c: CommitView| #[trigger] head_match(c, data@) && c.tree == tree
            ==> (r matches Some((ps, end)) && ps@.map_values(|p: Vec<u8>| p@) == c.parents
            && end + ident_line(kw_author(), c.author, c.author_date).len() <= data@.len()
            && data@.subrange(end as int, end + ident_line(kw_author(), c.author, c.author_date).len())
            == ident_line(kw_author(), c.author, c.author_date)),
{
    let n = data.len();
    let mut pos = pos;
    let mut parents: Vec<Vec<u8>> = Vec::new();
    proof {
        assert(parents@.map_values(|p: Vec<u8>| p@) =~= Seq::<Seq<u8>>::empty());
        assert(data@.subrange(0, pos as int) =~= digest_line(kw_tree(), tree) + parents_bytes(Seq::<Seq<u8>>::empty()));
        assert forall|c: CommitView| #[trigger] head_match(c, data@) && c.tree == tree implies
            c.parents.subrange(0, 0) == Seq::<Seq<u8>>::empty() by {
            assert(c.parents.subrange(0, 0) =~= Seq::<Seq<u8>>::empty());
        }
    }
    while pos < n && data[pos] == 112
        invariant
            pos <= n == data@.len(),
            kp@ == kw_parent(),
            tree.len() == DIGEST_LEN,
            forall|i: int| 0 <= i < parents@.len() ==> (#[trigger] parents@[i])@.len() == DIGEST_LEN,
            data@.subrange(0, pos as int) == digest_line(kw_tree(), tree) + parents_bytes(
                parents@.map_values(|p: Vec<u8>| p@),
            ),
            forall|c: CommitView| #[trigger] head_match(c, data@) && c.tree == tree ==> (
                parents@.len() <= c.parents.len() && parents@.map_values(
                    |p: Vec<u8>| p@,
                ) == c.parents.subrange(0, parents@.len() as int)),
        decreases n - pos,
    {
        let ghost before = parents@.map_values(|p: Vec<u8>| p@);
        let ghost k = parents@.len() as int;
        proof {
            assert forall|c: CommitView| #[trigger] head_match(c, data@) && c.tree == tree
                implies k < c.parents.len() && data@.subrange(
                    pos as int,
                    pos + digest_line(kw_parent(), c.parents[k]).len(),
                ) == digest_line(kw_parent(), c.parents[k]) && pos + digest_line(
                    kw_parent(),
                    c.parents[k],
                ).len() <= data@.len() by {
                lemma_parent_at(data@, c, before, pos as int);
            }
        }
        match parse_digest_line(data, pos, kp) {
            Some((id, next)) => {
                parents.push(id);
                proof {
                    let after = parents@.map_values(|p: Vec<u8>| p@);
                    assert(after.drop_last() =~= before);
                    assert(data@.subrange(0, next as int) =~= data@.subrange(0, pos as int)
                        + data@.subrange(pos as int, next as int));
                    assert forall|c: CommitView| #[trigger] head_match(c, data@) && c.tree == tree
                        implies parents@.len() <= c.parents.len() && after == c.parents.subrange(
                            0,
                            parents@.len() as int,
                        ) by {
                        assert(c.parents[k].len() == DIGEST_LEN);
                        assert(after =~= c.parents.subrange(0, k + 1));
                    }
                }
                pos = next;
            },
            None => {
                proof {
                    assert forall|c: CommitView| #[trigger] head_match(c, data@) && c.tree == tree
                        implies false by {
                        assert(c.parents[k].len() == DIGEST_LEN);
                    }
                }
                return None;
            },
        }
    }
    proof {
        let ghost done = parents@.map_values(|p: Vec<u8>| p@);
        assert forall|c: CommitView| #[trigger] head_match(c, data@) && c.tree == tree implies ({
            &&& done == c.parents
            &&& pos + ident_line(kw_author(), c.author, c.author_date).len() <= data@.len()
            &&& data@.subrange(pos as int, pos + ident_line(kw_author(), c.author, c.author_date).len())
                == ident_line(kw_author(), c.author, c.author_date)
        }) by {
            lemma_parents_end(data@, c, done, pos as int);
        }
    }
    Some((parents, pos))
}

/// Decodes a commit object's payload. Succeeds exactly when the payload is
/// the encoding of some well-formed commit, and then returns that commit.
/// When the header lines and the blank line are those of a well-formed commit
/// but the message bytes after them are not UTF-8, the error is
/// `EncodingError`; every other failure, or an object of another kind, is a
/// `FormatError`.
#[verifier::rlimit(80)]
pub fn from_object(obj: &Object) -> (r: GitResult<Commit>)
    ensures
        r matches Ok(c) ==> obj.kind == ObjectType::Commit && commit_wf(c.view()) && commit_bytes(
            c.view(),
        ) == obj.data@,
        forall|c: CommitView|
            obj.kind == ObjectType::Commit && commit_wf(c) && #[trigger] commit_bytes(c)
                == obj.data@ ==> (r matches Ok(d) && d.view() == c),
        r == Err::<Commit, GitError>(GitError::EncodingError) <==> (obj.kind == ObjectType::Commit
            && exists|c: CommitView|
            #[trigger] head_match(c, obj.data@) && !valid_utf8(
                obj.data@.subrange(head_bytes(c).len() as int, obj.data@.len() as int),
            )),
        r is Err ==> r == Err::<Commit, GitError>(GitError::FormatError) || r == Err::<
            Commit,
            GitError,
        >(GitError::EncodingError),
{
    match obj.kind {
        ObjectType::Commit => {},
        _ => return Err(GitError::FormatError),
    }
    let data = obj.data.as_slice();
    let n = data.len();
    let kt = keyword(0);
    let kp = keyword(1);
    let ka = keyword(2);
    let kc = keyword(3);
    proof {
        assert forall|c: CommitView| commit_wf(c) && #[trigger] commit_bytes(c) == data@ implies
            head_match(c, data@) && valid_utf8(
                data@.subrange(head_bytes(c).len() as int, data@.len() as int),
            ) by {
            lemma_full_has_head(c, data@);
            vstd::utf8::encode_utf8_valid_utf8(c.message);
        }
        assert forall|c: CommitView| #[trigger] head_match(c, data@) implies
            digest_line(kw_tree(), c.tree) == data@.subrange(0, digest_line(kw_tree(), c.tree).len() as int)
        by {
            lemma_head_layout(c, data@);
        }
    }
    let (tree, pos) = match parse_digest_line(data, 0, kt.as_slice()) {
        Some(x) => x,
        None => return Err(GitError::FormatError),
    };
    let ghost p0 = pos;
    let (parents, pos) = match parse_parents(data, pos, kp.as_slice(), Ghost(tree@)) {
        Some(x) => x,
        None => return Err(GitError::FormatError),
    };
    let ghost p1 = pos;
    let ghost pview = parents@.map_values(|p: Vec<u8>| p@);
    proof {
        assert forall|c: CommitView| #[trigger] head_match(c, data@) implies
            p1 == digest_line(kw_tree(), c.tree).len() + parents_bytes(c.parents).len() by {
            lemma_head_layout(c, data@);
            assert(data@.subrange(0, p1 as int).len() == p1);
        }
    }
    let (author, author_date, pos) = match parse_ident_line(data, pos, ka.as_slice()) {
        Ok(x) => x,
        Err(_) => return Err(GitError::FormatError),
    };
    let ghost p2 = pos;
    proof {
        assert forall|c: CommitView| #[trigger] head_match(c, data@) implies ({
            let b0 = digest_line(kw_tree(), c.tree).len() + parents_bytes(c.parents).len();
            &&& author@ == c.author && author_date == c.author_date
            &&& pos == b0 + ident_line(kw_author(), c.author, c.author_date).len()
            &&& pos + ident_line(kw_committer(), c.committer, c.committer_date).len() <= data@.len()
            &&& data@.subrange(pos as int, pos + ident_line(kw_committer(), c.committer, c.committer_date).len())
                == ident_line(kw_committer(), c.committer, c.committer_date)
        }) by {
            lemma_head_layout(c, data@);
        }
    }
    let (committer, committer_date, pos) = match parse_ident_line(data, pos, kc.as_slice()) {
        Ok(x) => x,
        Err(_) => return Err(GitError::FormatError),
    };
    proof {
        assert forall|c: CommitView| #[trigger] head_match(c, data@) implies committer@ == c.committer
            && committer_date == c.committer_date && pos + 1 == head_bytes(c).len() by {
            lemma_head_layout(c, data@);
        }
    }
    if pos >= n || data[pos] != 10 {
        proof {
            assert forall|c: CommitView| #[trigger] head_match(c, data@) implies false by {
                lemma_head_layout(c, data@);
            }
        }
        return Err(GitError::FormatError);
    }
    let ghost mstart = pos + 1;
    let rest = slice_tail(data, pos + 1);
    let ghost rest_bytes = rest@;
    let ghost head = CommitView {
        tree: tree@,
        parents: pview,
        author: author@,
        author_date,
        committer: committer@,
        committer_date,
        message: Seq::empty(),
    };
    proof {
        assert(data@.subrange(0, mstart) =~= data@.subrange(0, p1 as int) + data@.subrange(
            p1 as int,
            p2 as int,
        ) + data@.subrange(p2 as int, pos as int) + seq![10u8]);
        assert(data@.subrange(0, mstart) =~= head_bytes(head));
        assert forall|i: int| 0 <= i < head.parents.len() implies (
            #[trigger] head.parents[i]).len() == DIGEST_LEN by {
            assert(head.parents[i] == parents@[i]@);
        }
        assert(head_match(head, data@));
    }
    let message = match utf8_string(rest) {
        Some(m) => m,
        None => {
            proof {
                assert(head_match(head, data@) && !valid_utf8(
                    data@.subrange(head_bytes(head).len() as int, data@.len() as int),
                ));
            }
            return Err(GitError::EncodingError);
        },
    };
    let c = Commit { tree, parents, author, author_date, committer, committer_date, message };
    proof {
        vstd::utf8::decode_utf8_encode_utf8(rest_bytes);
        assert(c.view().parents == pview);
        assert(commit_bytes(c.view()) =~= head_bytes(head) + rest_bytes);
        assert(data@ =~= data@.subrange(0, mstart) + rest_bytes);
        assert forall|x: CommitView| #[trigger] head_match(x, data@) implies valid_utf8(
            data@.subrange(head_bytes(x).len() as int, data@.len() as int),
        ) by {
            assert(data@.subrange(head_bytes(x).len() as int, data@.len() as int) =~= rest_bytes);
        }
        assert forall|x: CommitView| commit_wf(x) && #[trigger] commit_bytes(x) == data@ implies c.view() == x by {
            lemma_full_has_head(x, data@);
            assert(head_match(x, data@));
            vstd::utf8::encode_utf8_decode_utf8(x.message);
            assert(data@.subrange(head_bytes(x).len() as int, data@.len() as int) =~= rest_bytes);
        }
    }
    Ok(c)
}

/// A digest line followed by anything starts with exactly one digest.
proof fn lemma_digest_line_unique(kw: Seq<u8>, i1: Seq<u8>, x1: Seq<u8>, i2: Seq<u8>, x2: Seq<u8>)
    requires
        i1.len() == DIGEST_LEN,
        i2.len() == DIGEST_LEN,
        digest_line(kw, i1) + x1 == digest_line(kw, i2) + x2,
    ensures
        i1 == i2,
        x1 == x2,
{
    crate::hex::lemma_hex_of_len(i1);
    crate::hex::lemma_hex_of_len(i2);
    crate::hex::lemma_hex_round_trip(i1);
    crate::hex::lemma_hex_round_trip(i2);
    let d = digest_line(kw, i1) + x1;
    let k = kw.len() as int;
    assert(hex_of(i1) =~= d.subrange(k, k + 40));
    assert(hex_of(i2) =~= d.subrange(k, k + 40));
    assert(x1 =~= d.subrange(k + 41, d.len() as int));
    assert(x2 =~= d.subrange(k + 41, d.len() as int));
}

/// The `parent` lines of a non-empty list: the first, then the rest.
proof fn lemma_parents_cons(ps: Seq<Seq<u8>>)
    requires
        ps.len() > 0,
    ensures
        parents_bytes(ps) == digest_line(kw_parent(), ps[0]) + parents_bytes(ps.drop_first()),
    decreases ps.len(),
{
    if ps.len() == 1 {
        assert(ps.drop_last() =~= Seq::<Seq<u8>>::empty());
        assert(ps.drop_first() =~= Seq::<Seq<u8>>::empty());
        assert(parents_bytes(ps) =~= digest_line(kw_parent(), ps[0]) + parents_bytes(ps.drop_first()));
    } else {
        lemma_parents_cons(ps.drop_last());
        assert(ps.drop_first().drop_last() =~= ps.drop_last().drop_first());
        assert(ps.drop_first().last() == ps.last());
        assert(parents_bytes(ps) =~= digest_line(kw_parent(), ps[0]) + parents_bytes(ps.drop_first()));
    }
}

/// `parent` lines followed by a line that starts with `a` determine the
/// parents and what follows them.
proof fn lemma_parents_unique(p1: Seq<Seq<u8>>, r1: Seq<u8>, p2: Seq<Seq<u8>>, r2: Seq<u8>)
    requires
        forall|i: int| 0 <= i < p1.len() ==> (#[trigger] p1[i]).len() == DIGEST_LEN,
        forall|i: int| 0 <= i < p2.len() ==> (#[trigger] p2[i]).len() == DIGEST_LEN,
        r1.len() > 0 && r1[0] == 97,
        r2.len() > 0 && r2[0] == 97,
        parents_bytes(p1) + r1 == parents_bytes(p2) + r2,
    ensures
        p1 == p2,
        r1 == r2,
    decreases p1.len(),
{
    if p1.len() == 0 && p2.len() == 0 {
        assert(parents_bytes(p1) =~= Seq::<u8>::empty());
        assert(parents_bytes(p2) =~= Seq::<u8>::empty());
        assert(p1 =~= p2);
        assert(r1 =~= parents_bytes(p1) + r1);
        assert(r2 =~= parents_bytes(p2) + r2);
    } else if p1.len() == 0 {
        lemma_parents_cons(p2);
        assert(parents_bytes(p1) =~= Seq::<u8>::empty());
        assert((parents_bytes(p1) + r1)[0] == 97);
        assert((parents_bytes(p2) + r2)[0] == 112);
    } else if p2.len() == 0 {
        lemma_parents_cons(p1);
        assert(parents_bytes(p2) =~= Seq::<u8>::empty());
        assert((parents_bytes(p2) + r2)[0] == 97);
        assert((parents_bytes(p1) + r1)[0] == 112);
    } else {
        lemma_parents_cons(p1);
        lemma_parents_cons(p2);
        let t1 = parents_bytes(p1.drop_first()) + r1;
        let t2 = parents_bytes(p2.drop_first()) + r2;
        assert(digest_line(kw_parent(), p1[0]) + t1 =~= parents_bytes(p1) + r1);
        assert(digest_line(kw_parent(), p2[0]) + t2 =~= parents_bytes(p2) + r2);
        lemma_digest_line_unique(kw_parent(), p1[0], t1, p2[0], t2);
        assert forall|i: int| 0 <= i < p1.drop_first().len() implies (#[trigger] p1.drop_first()[i]).len() == DIGEST_LEN by {
            assert(p1.drop_first()[i] == p1[i + 1]);
        }
        assert forall|i: int| 0 <= i < p2.drop_first().len() implies (#[trigger] p2.drop_first()[i]).len() == DIGEST_LEN by {
            assert(p2.drop_first()[i] == p2[i + 1]);
        }
        lemma_parents_unique(p1.drop_first(), r1, p2.drop_first(), r2);
        assert(p1 =~= p2) by {
            assert forall|i: int| 0 <= i < p1.len() implies p1[i] == p2[i] by {
                if i > 0 {
                    assert(p1[i] == p1.drop_first()[i - 1]);
                    assert(p2[i] == p2.drop_first()[i - 1]);
                }
            }
        }
    }
}

proof fn lemma_seconds_text_injective(s1: i64, s2: i64)
    requires
        seconds_text(s1) == seconds_text(s2),
    ensures
        s1 == s2,
{
    lemma_seconds_text(s1);
    lemma_seconds_text(s2);
    if s1 < 0 {
        assert(s2 < 0);
        lemma_dec_of_canonical((-s1) as nat);
        lemma_dec_of_canonical((-s2) as nat);
        assert(dec_of((-s1) as nat) =~= seconds_text(s1).drop_first());
        assert(dec_of((-s2) as nat) =~= seconds_text(s2).drop_first());
    } else {
        assert(s2 >= 0);
        lemma_dec_of_canonical(s1 as nat);
        lemma_dec_of_canonical(s2 as nat);
    }
}

/// An identity line followed by anything determines the identity, the
/// timestamp and what follows.
proof fn lemma_ident_unique(
    kw: Seq<u8>,
    n1: Seq<char>,
    t1: Timestamp,
    x1: Seq<u8>,
    n2: Seq<char>,
    t2: Timestamp,
    x2: Seq<u8>,
)
    requires
        ident_wf(n1),
        ident_wf(n2),
        timestamp_wf(t1),
        timestamp_wf(t2),
        ident_line(kw, n1, t1) + x1 == ident_line(kw, n2, t2) + x2,
    ensures
        n1 == n2,
        t1 == t2,
        x1 == x2,
{
    let d = ident_line(kw, n1, t1) + x1;
    let l1 = ident_line(kw, n1, t1);
    let l2 = ident_line(kw, n2, t2);
    assert(d.subrange(0, l1.len() as int) =~= l1);
    assert(d.subrange(0, l2.len() as int) =~= l2);
    lemma_ident_found(d, 0, kw, n1, t1);
    lemma_ident_found(d, 0, kw, n2, t2);
    let e1 = l1.len() - 1;
    let e2 = l2.len() - 1;
    if e1 < e2 {
        assert(d[e1] != 10);
    }
    if e2 < e1 {
        assert(d[e2] != 10);
    }
    assert(e1 == e2);
    let start = kw.len() as int;
    let sp1 = start + encode_utf8(n1).len();
    let sp2 = start + encode_utf8(n2).len();
    if sp1 < sp2 {
        assert(d[sp2] != 32);
    }
    if sp2 < sp1 {
        assert(d[sp1] != 32);
    }
    assert(sp1 == sp2);
    vstd::utf8::encode_utf8_decode_utf8(n1);
    vstd::utf8::encode_utf8_decode_utf8(n2);
    lemma_seconds_text_injective(t1.seconds, t2.seconds);
    lemma_offset_text(t1.offset_minutes);
    lemma_offset_text(t2.offset_minutes);
    let o1 = offset_text(t1.offset_minutes);
    let o2 = offset_text(t2.offset_minutes);
    assert(o1[0] == o2[0] && o1[1] == o2[1] && o1[2] == o2[2] && o1[3] == o2[3] && o1[4] == o2[4]);
    assert(x1 =~= d.subrange(l1.len() as int, d.len() as int));
    assert(x2 =~= d.subrange(l2.len() as int, d.len() as int));
}

proof fn lemma_commit_assoc(c: CommitView)
    ensures
        commit_bytes(c) == digest_line(kw_tree(), c.tree) + (parents_bytes(c.parents) + (
        ident_line(kw_author(), c.author, c.author_date) + (ident_line(
            kw_committer(),
            c.committer,
            c.committer_date,
        ) + (seq![10u8] + encode_utf8(c.message))))),
{
    let a = digest_line(kw_tree(), c.tree);
    let p = parents_bytes(c.parents);
    let b = ident_line(kw_author(), c.author, c.author_date);
    let k = ident_line(kw_committer(), c.committer, c.committer_date);
    let n = seq![10u8];
    let m = encode_utf8(c.message);
    assert(((((a + p) + b) + k) + n) + m =~= (((a + p) + b) + k) + (n + m));
    assert((((a + p) + b) + k) + (n + m) =~= ((a + p) + b) + (k + (n + m)));
    assert(((a + p) + b) + (k + (n + m)) =~= (a + p) + (b + (k + (n + m))));
    assert((a + p) + (b + (k + (n + m))) =~= a + (p + (b + (k + (n + m)))));
}

/// Well-formed commits with the same payload are the same commit: decoding
/// an encoded commit gives back every field.
pub proof fn lemma_commit_round_trip(a: CommitView, b: CommitView)
    requires
        commit_wf(a),
        commit_wf(b),
        commit_bytes(a) == commit_bytes(b),
    ensures
        a == b,
{
    let ma = seq![10u8] + encode_utf8(a.message);
    let mb = seq![10u8] + encode_utf8(b.message);
    let ca = ident_line(kw_committer(), a.committer, a.committer_date) + ma;
    let cb = ident_line(kw_committer(), b.committer, b.committer_date) + mb;
    let ra = ident_line(kw_author(), a.author, a.author_date) + ca;
    let rb = ident_line(kw_author(), b.author, b.author_date) + cb;
    let pa = parents_bytes(a.parents) + ra;
    let pb = parents_bytes(b.parents) + rb;
    lemma_commit_assoc(a);
    lemma_commit_assoc(b);
    lemma_digest_line_unique(kw_tree(), a.tree, pa, b.tree, pb);
    assert(ra[0] == 97 && rb[0] == 97);
    lemma_parents_unique(a.parents, ra, b.parents, rb);
    lemma_ident_unique(kw_author(), a.author, a.author_date, ca, b.author, b.author_date, cb);
    lemma_ident_unique(kw_committer(), a.committer, a.committer_date, ma, b.committer, b.committer_date, mb);
    assert(encode_utf8(a.message) =~= ma.drop_first());
    assert(encode_utf8(b.message) =~= mb.drop_first());
    vstd::utf8::encode_utf8_decode_utf8(a.message);
    vstd::utf8::encode_utf8_decode_utf8(b.message);
}

} // verus!
