use vstd::prelude::*;

use crate::decimal::{dec_of, dec_value, is_canonical_dec, is_digit, lemma_canonical_dec_of, lemma_dec_of_canonical, read_dec, write_dec};
use crate::error::GitError;

verus! {

/// The kinds of payload that the store holds.
#[derive(Debug, Clone, Copy, PartialEq, Eq, Structural)]
pub enum ObjectType {
    Blob,
    Tree,
    Commit,
}

/// A payload tagged with its kind; `data` excludes the store's header.
#[derive(Debug, Clone)]
pub struct Object {
    pub kind: ObjectType,
    pub data: Vec<u8>,
}

/// The ASCII label of a kind, as written in the header.
pub open spec fn kind_label(k: ObjectType) -> Seq<u8> {
    match k {
        ObjectType::Blob => seq![98u8, 108u8, 111u8, 98u8],
        ObjectType::Tree => seq![116u8, 114u8, 101u8, 101u8],
        ObjectType::Commit => seq![99u8, 111u8, 109u8, 109u8, 105u8, 116u8],
    }
}

/// The header that precedes a payload: `<label> <length>\0`.
pub open spec fn header_of(k: ObjectType, len: nat) -> Seq<u8> {
    kind_label(k) + seq![32u8] + dec_of(len) + seq![0u8]
}

/// The bytes that are hashed and stored for an object: its header, then its
/// payload verbatim.
pub open spec fn raw_of(k: ObjectType, data: Seq<u8>) -> Seq<u8> {
    header_of(k, data.len()) + data
}

/// The header determines its kind and length, and the raw bytes determine the
/// object: distinct objects never share the bytes that are hashed.
pub proof fn lemma_raw_injective(k1: ObjectType, d1: Seq<u8>, k2: ObjectType, d2: Seq<u8>)
    requires
        raw_of(k1, d1) == raw_of(k2, d2),
    ensures
        k1 == k2,
        d1 == d2,
{
    let r = raw_of(k1, d1);
    lemma_raw_layout(k1, d1);
    lemma_raw_layout(k2, d2);
    let l1 = kind_label(k1).len() as int;
    let l2 = kind_label(k2).len() as int;
    if l1 != l2 {
        assert(r[l1] == 32 && r[l2] == 32);
        if l1 < l2 {
            assert(r[l1] == kind_label(k2)[l1]);
        } else {
            assert(r[l2] == kind_label(k1)[l2]);
        }
    }
    if k1 != k2 {
        assert(r[0] == kind_label(k1)[0] && r[0] == kind_label(k2)[0]);
        assert(r[1] == kind_label(k1)[1] && r[1] == kind_label(k2)[1]);
    }
    let n1 = dec_of(d1.len()).len() as int;
    let n2 = dec_of(d2.len()).len() as int;
    if n1 != n2 {
        assert(r[l1 + 1 + n1] == 0 && r[l1 + 1 + n2] == 0);
        if n1 < n2 {
            assert(is_digit(dec_of(d2.len())[n1]));
        } else {
            assert(is_digit(dec_of(d1.len())[n2]));
        }
    }
    assert(dec_of(d1.len()) =~= r.subrange(l1 + 1, l1 + 1 + n1));
    assert(dec_of(d2.len()) =~= r.subrange(l1 + 1, l1 + 1 + n1));
    assert(d1 =~= r.subrange(l1 + 2 + n1, r.len() as int));
    assert(d2 =~= r.subrange(l1 + 2 + n1, r.len() as int));
}

/// Where each part of the raw bytes lies.
proof fn lemma_raw_layout(k: ObjectType, d: Seq<u8>)
    ensures
        ({
            let r = raw_of(k, d);
            let l = kind_label(k).len() as int;
            let n = dec_of(d.len()).len() as int;
            &&& 4 <= l <= 6
            &&& n >= 1
            &&& r.len() == l + n + 2 + d.len()
            &&& forall|i: int| 0 <= i < l ==> #[trigger] r[i] == kind_label(k)[i]
            &&& forall|i: int| 0 <= i < l ==> #[trigger] r[i] != 32 && r[i] != 0
            &&& r[l] == 32
            &&& forall|i: int| 0 <= i < n ==> #[trigger] r[l + 1 + i] == dec_of(d.len())[i]
            &&& forall|i: int| l + 1 <= i < l + 1 + n ==> is_digit(#[trigger] r[i])
            &&& r[l + 1 + n] == 0
            &&& r.subrange(l + 1, l + 1 + n) == dec_of(d.len())
            &&& r.subrange(l + n + 2, r.len() as int) == d
        }),
{
    let r = raw_of(k, d);
    let l = kind_label(k).len() as int;
    let n = dec_of(d.len()).len() as int;
    lemma_dec_of_canonical(d.len());
    assert(r.subrange(l + 1, l + 1 + n) =~= dec_of(d.len()));
    assert(r.subrange(l + n + 2, r.len() as int) =~= d);
    assert forall|i: int| l + 1 <= i < l + 1 + n implies is_digit(#[trigger] r[i]) by {
        assert(r[i] == dec_of(d.len())[i - l - 1]);
    }
}

impl ObjectType {
    /// Appends the kind's label.
    fn write_label(&self, out: &mut Vec<u8>)
        ensures
            final(out)@ == old(out)@ + kind_label(*self),
    {
        match self {
            ObjectType::Blob => {
                out.push(98);
                out.push(108);
                out.push(111);
                out.push(98);
            },
            ObjectType::Tree => {
                out.push(116);
                out.push(114);
                out.push(101);
                out.push(101);
            },
            ObjectType::Commit => {
                out.push(99);
                out.push(111);
                out.push(109);
                out.push(109);
                out.push(105);
                out.push(116);
            },
        }
        assert(final(out)@ =~= old(out)@ + kind_label(*self));
    }

    /// The kind whose label is `s[start..end]`, if any.
    fn from_label(s: &[u8], start: usize, end: usize) -> (r: Option<ObjectType>)
        requires
            start <= end <= s@.len(),
        ensures
            r matches Some(k) ==> kind_label(k) == s@.subrange(start as int, end as int),
            r is None ==> forall|k: ObjectType| kind_label(k) != s@.subrange(start as int, end as int),
    {
        let n = end - start;
        let ghost w = s@.subrange(start as int, end as int);
        if n == 4 && s[start] == 98 && s[start + 1] == 108 && s[start + 2] == 111 && s[start + 3]
            == 98 {
            assert(w =~= kind_label(ObjectType::Blob));
            Some(ObjectType::Blob)
        } else if n == 4 && s[start] == 116 && s[start + 1] == 114 && s[start + 2] == 101
            && s[start + 3] == 101 {
            assert(w =~= kind_label(ObjectType::Tree));
            Some(ObjectType::Tree)
        } else if n == 6 && s[start] == 99 && s[start + 1] == 111 && s[start + 2] == 109
            && s[start + 3] == 109 && s[start + 4] == 105 && s[start + 5] == 116 {
            assert(w =~= kind_label(ObjectType::Commit));
            Some(ObjectType::Commit)
        } else {
            proof {
                assert(w.len() == n);
                assert(kind_label(ObjectType::Blob).len() == 4);
                assert(kind_label(ObjectType::Tree).len() == 4);
                assert(kind_label(ObjectType::Commit).len() == 6);
                if n >= 1 { assert(w[0] == s@[start as int]); }
                if n >= 2 { assert(w[1] == s@[start + 1]); }
                if n >= 3 { assert(w[2] == s@[start + 2]); }
                if n >= 4 { assert(w[3] == s@[start + 3]); }
                if n >= 5 { assert(w[4] == s@[start + 4]); }
                if n >= 6 { assert(w[5] == s@[start + 5]); }
                assert forall|k: ObjectType| kind_label(k) != w by {
                    if kind_label(k) == w {
                        match k {
                            ObjectType::Blob => {
                                assert(w[0] == 98 && w[1] == 108 && w[2] == 111 && w[3] == 98);

                            },
                            ObjectType::Tree => {
                                assert(w[0] == 116 && w[1] == 114 && w[2] == 101 && w[3] == 101);
                            },
                            ObjectType::Commit => {
                                assert(w[0] == 99 && w[1] == 111 && w[2] == 109 && w[3] == 109
                                    && w[4] == 105 && w[5] == 116);
                            },
                        }
                    }
                }
            }
            None
        }
    }
}

/// The first index at or after `start` that holds `b`.
pub fn find_byte(s: &[u8], start: usize, b: u8) -> (r: Option<usize>)
    requires
        start <= s@.len(),
    ensures
        r matches Some(i) ==> start <= i < s@.len() && s@[i as int] == b && forall|j: int|
            start <= j < i ==> #[trigger] s@[j] != b,
        r is None ==> forall|j: int| start <= j < s@.len() ==> #[trigger] s@[j] != b,
{
    let mut i: usize = start;
    while i < s.len()
        invariant
            start <= i <= s@.len(),
            forall|j: int| start <= j < i ==> #[trigger] s@[j] != b,
        decreases s@.len() - i,
    {
        if s[i] == b {
            return Some(i);
        }
        i = i + 1;
    }
    None
}

impl Object {
    /// The header and payload, as hashed and stored.
    pub fn raw_bytes(&self) -> (r: Vec<u8>)
        requires
            self.data@.len() <= u64::MAX,
        ensures
            r@ == raw_of(self.kind, self.data@),
    {
        let mut out: Vec<u8> = Vec::new();
        self.kind.write_label(&mut out);
        out.push(32);
        write_dec(self.data.len() as u64, &mut out);
        out.push(0);
        let mut i: usize = 0;
        let ghost h = out@;
        while i < self.data.len()
            invariant
                i <= self.data@.len(),
                out@ == h + self.data@.subrange(0, i as int),
            decreases self.data@.len() - i,
        {
            out.push(self.data[i]);
            assert(out@ =~= h + self.data@.subrange(0, i as int + 1));
            i = i + 1;
        }
        assert(self.data@.subrange(0, i as int) =~= self.data@);
        assert(out@ =~= raw_of(self.kind, self.data@));
        out
    }

    /// Splits raw stored bytes into header and payload. Succeeds exactly on the
    /// raw bytes of some object, and then returns that object; anything else is
    /// a `FormatError`.
    #[verifier::rlimit(40)]
    pub fn from_raw(raw: &[u8]) -> (r: Result<Object, GitError>)
        ensures
            r matches Ok(o) ==> raw_of(o.kind, o.data@) == raw@,
            forall|k: ObjectType, d: Seq<u8>|
                #[trigger] raw_of(k, d) == raw@ ==> (r matches Ok(o) && o.kind == k && o.data@
                    == d),
            r is Err ==> r == Err::<Object, GitError>(GitError::FormatError),
    {
        let ghost valid = exists|k: ObjectType, d: Seq<u8>| #[trigger] raw_of(k, d) == raw@;
        let ghost (gk, gd) = choose|k: ObjectType, d: Seq<u8>| #[trigger] raw_of(k, d) == raw@;
        proof {
            if valid {
                lemma_raw_positions(raw@, gk, gd);
            }
        }
        let total = raw.len();
        let r = match find_byte(raw, 0, 32) {
            None => Err(GitError::FormatError),
            Some(sp) => {
                let kind = ObjectType::from_label(raw, 0, sp);
                match kind {
                    None => Err(GitError::FormatError),
                    Some(kind) => match find_byte(raw, sp + 1, 0) {
                        None => Err(GitError::FormatError),
                        Some(nul) => match read_dec(raw, sp + 1, nul, u64::MAX) {
                            None => Err(GitError::FormatError),
                            Some(len) => {
                                if len != (total - nul - 1) as u64 {
                                    Err(GitError::FormatError)
                                } else {
                                    let data = slice_tail(raw, nul + 1);
                                    proof {
                                        lemma_canonical_dec_of(raw@.subrange(sp + 1, nul as int));
                                        assert(raw@ =~= raw_of(kind, data@));
                                    }
                                    Ok(Object { kind, data })
                                }
                            },
                        },
                    },
                }
            },
        };
        proof {
            match &r {
                Ok(o) => {
                    assert forall|k: ObjectType, d: Seq<u8>| #[trigger]
                        raw_of(k, d) == raw@ implies o.kind == k && o.data@ == d by {
                        lemma_raw_injective(k, d, o.kind, o.data@);
                    }
                },
                Err(_) => {
                    assert(!valid);
                },
            }
        }
        r
    }
}

/// Where the parts of raw bytes lie, as a parser finds them.
proof fn lemma_raw_positions(raw: Seq<u8>, k: ObjectType, d: Seq<u8>)
    requires
        raw_of(k, d) == raw,
    ensures
        ({
            let l = kind_label(k).len() as int;
            let n = dec_of(d.len()).len() as int;
            &&& raw.len() == l + n + 2 + d.len()
            &&& forall|i: int| 0 <= i < l ==> #[trigger] raw[i] != 32
            &&& raw[l] == 32
            &&& raw.subrange(0, l) == kind_label(k)
            &&& forall|i: int| l + 1 <= i < l + 1 + n ==> #[trigger] raw[i] != 0
            &&& raw[l + 1 + n] == 0
            &&& is_canonical_dec(raw.subrange(l + 1, l + 1 + n))
            &&& dec_value(raw.subrange(l + 1, l + 1 + n)) == d.len()
            &&& raw.subrange(l + n + 2, raw.len() as int) == d
        }),
{
    lemma_raw_layout(k, d);
    lemma_dec_of_canonical(d.len());
    assert(raw.subrange(0, kind_label(k).len() as int) =~= kind_label(k));
}

/// A copy of `s[start..]`.
pub fn slice_tail(s: &[u8], start: usize) -> (r: Vec<u8>)
    requires
        start <= s@.len(),
    ensures
        r@ == s@.subrange(start as int, s@.len() as int),
{
    let mut out: Vec<u8> = Vec::new();
    let mut i: usize = start;
    while i < s.len()
        invariant
            start <= i <= s@.len(),
            out@ == s@.subrange(start as int, i as int),
        decreases s@.len() - i,
    {
        out.push(s[i]);
        assert(out@ =~= s@.subrange(start as int, i as int + 1));
        i = i + 1;
    }
    out
}

} // verus!
