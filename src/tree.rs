use vstd::prelude::*;

use crate::error::{GitError, GitResult};
use crate::hex::DIGEST_LEN;
use crate::object::{find_byte, Object, ObjectType};
use crate::store::slice_range;

verus! {

/// The kind of a directory entry, as its octal mode tells.
#[derive(Debug, Clone, Copy, PartialEq, Eq, Structural)]
pub enum EntryMode {
    NormalFile,
    ExecutableFile,
    Symlink,
    Tree,
}

/// One entry of a directory listing.
#[derive(Debug, Clone)]
pub struct TreeEntry {
    pub mode: EntryMode,
    /// The path component, as raw bytes.
    pub name: Vec<u8>,
    /// The 20-byte digest of the child object.
    pub hash: Vec<u8>,
}

/// A directory listing: entries in the order given.
#[derive(Debug, Clone)]
pub struct Tree {
    pub entries: Vec<TreeEntry>,
}

/// The value of an entry: mode, name and digest.
pub type EntryView = (EntryMode, Seq<u8>, Seq<u8>);

impl TreeEntry {
    pub open spec fn view(&self) -> EntryView {
        (self.mode, self.name@, self.hash@)
    }
}

impl Tree {
    pub open spec fn view(&self) -> Seq<EntryView> {
        self.entries@.map_values(|e: TreeEntry| e.view())
    }
}

/// The octal mode text of an entry mode.
pub open spec fn mode_text(m: EntryMode) -> Seq<u8> {
    match m {
        EntryMode::NormalFile => seq![49u8, 48u8, 48u8, 54u8, 52u8, 52u8],
        EntryMode::ExecutableFile => seq![49u8, 48u8, 48u8, 55u8, 53u8, 53u8],
        EntryMode::Symlink => seq![49u8, 50u8, 48u8, 48u8, 48u8, 48u8],
        EntryMode::Tree => seq![52u8, 48u8, 48u8, 48u8, 48u8],
    }
}

/// An entry that can be written and read back: a name without NUL and a
/// digest of 20 bytes.
pub open spec fn entry_wf(e: EntryView) -> bool {
    &&& e.2.len() == DIGEST_LEN
    &&& forall|i: int| 0 <= i < e.1.len() ==> #[trigger] e.1[i] != 0
}

/// The record of one entry: `<mode> <name>\0<20 digest bytes>`.
pub open spec fn entry_bytes(e: EntryView) -> Seq<u8> {
    mode_text(e.0) + seq![32u8] + e.1 + seq![0u8] + e.2
}

/// The payload of a tree: its records back to back.
pub open spec fn tree_bytes(es: Seq<EntryView>) -> Seq<u8>
    decreases es.len(),
{
    if es.len() == 0 {
        Seq::empty()
    } else {
        tree_bytes(es.drop_last()) + entry_bytes(es.last())
    }
}

pub open spec fn tree_wf(es: Seq<EntryView>) -> bool {
    forall|i: int| 0 <= i < es.len() ==> entry_wf(#[trigger] es[i])
}

proof fn lemma_mode_text(m: EntryMode)
    ensures
        5 <= mode_text(m).len() <= 6,
        forall|i: int| 0 <= i < mode_text(m).len() ==> 48 <= #[trigger] mode_text(m)[i] <= 55,
{
}

/// A prefix of the entries gives a prefix of the payload.
proof fn lemma_tree_bytes_prefix(es: Seq<EntryView>, i: int)
    requires
        0 <= i <= es.len(),
    ensures
        tree_bytes(es.subrange(0, i)).len() <= tree_bytes(es).len(),
        tree_bytes(es).subrange(0, tree_bytes(es.subrange(0, i)).len() as int) == tree_bytes(
            es.subrange(0, i),
        ),
        i == es.len() ==> tree_bytes(es.subrange(0, i)) == tree_bytes(es),
        i < es.len() ==> tree_bytes(es.subrange(0, i + 1)) == tree_bytes(es.subrange(0, i))
            + entry_bytes(es[i]),
    decreases es.len(),
{
    if i < es.len() {
        assert(es.subrange(0, i + 1).drop_last() =~= es.subrange(0, i));
        lemma_tree_bytes_prefix(es.drop_last(), i);
        assert(es.drop_last().subrange(0, i) =~= es.subrange(0, i));
        if i + 1 < es.len() {
            lemma_tree_bytes_prefix(es.drop_last(), i + 1);
            assert(es.drop_last().subrange(0, i + 1) =~= es.subrange(0, i + 1));
        } else {
            assert(es.subrange(0, i + 1) =~= es);
        }
    } else {
        assert(es.subrange(0, i) =~= es);
    }
    assert(tree_bytes(es).subrange(0, tree_bytes(es.subrange(0, i)).len() as int) =~= tree_bytes(
        es.subrange(0, i),
    )) by {
        if i < es.len() {
            let p = tree_bytes(es.drop_last());
            assert(tree_bytes(es) == p + entry_bytes(es.last()));
            assert(p.subrange(0, tree_bytes(es.subrange(0, i)).len() as int) == tree_bytes(
                es.subrange(0, i),
            ));
        }
    }
}

impl EntryMode {
    fn write_text(&self, out: &mut Vec<u8>)
        ensures
            final(out)@ == old(out)@ + mode_text(*self),
    {
        match self {
            EntryMode::NormalFile => {
                out.push(49);
                out.push(48);
                out.push(48);
                out.push(54);
                out.push(52);
                out.push(52);
            },
            EntryMode::ExecutableFile => {
                out.push(49);
                out.push(48);
                out.push(48);
                out.push(55);
                out.push(53);
                out.push(53);
            },
            EntryMode::Symlink => {
                out.push(49);
                out.push(50);
                out.push(48);
                out.push(48);
                out.push(48);
                out.push(48);
            },
            EntryMode::Tree => {
                out.push(52);
                out.push(48);
                out.push(48);
                out.push(48);
                out.push(48);
            },
        }
        assert(final(out)@ =~= old(out)@ + mode_text(*self));
    }

    /// The mode whose octal text is `s[start..end]`, if any.
    fn from_text(s: &[u8], start: usize, end: usize) -> (r: Option<EntryMode>)
        requires
            start <= end <= s@.len(),
        ensures
            r matches Some(m) ==> mode_text(m) == s@.subrange(start as int, end as int),
            r is None ==> forall|m: EntryMode|
                mode_text(m) != s@.subrange(start as int, end as int),
    {
        let n = end - start;
        let ghost w = s@.subrange(start as int, end as int);
        if n == 5 {
            if s[start] == 52 && s[start + 1] == 48 && s[start + 2] == 48 && s[start + 3] == 48
                && s[start + 4] == 48 {
                assert(w =~= mode_text(EntryMode::Tree));
                return Some(EntryMode::Tree);
            }
        } else if n == 6 && s[start] == 49 {
            if s[start + 1] == 48 && s[start + 2] == 48 && s[start + 3] == 54 && s[start + 4] == 52
                && s[start + 5] == 52 {
                assert(w =~= mode_text(EntryMode::NormalFile));
                return Some(EntryMode::NormalFile);
            }
            if s[start + 1] == 48 && s[start + 2] == 48 && s[start + 3] == 55 && s[start + 4] == 53
                && s[start + 5] == 53 {
                assert(w =~= mode_text(EntryMode::ExecutableFile));
                return Some(EntryMode::ExecutableFile);
            }
            if s[start + 1] == 50 && s[start + 2] == 48 && s[start + 3] == 48 && s[start + 4] == 48
                && s[start + 5] == 48 {
                assert(w =~= mode_text(EntryMode::Symlink));
                return Some(EntryMode::Symlink);
            }
        }
        proof {
            assert(w.len() == n);
            assert(mode_text(EntryMode::Tree).len() == 5);
            assert(mode_text(EntryMode::NormalFile).len() == 6);
            assert(mode_text(EntryMode::ExecutableFile).len() == 6);
            assert(mode_text(EntryMode::Symlink).len() == 6);
            if n >= 1 { assert(w[0] == s@[start as int]); }
            if n >= 2 { assert(w[1] == s@[start + 1]); }
            if n >= 3 { assert(w[2] == s@[start + 2]); }
            if n >= 4 { assert(w[3] == s@[start + 3]); }
            if n >= 5 { assert(w[4] == s@[start + 4]); }
            if n >= 6 { assert(w[5] == s@[start + 5]); }
            assert forall|m: EntryMode| mode_text(m) != w by {
                if mode_text(m) == w {
                    match m {
                        EntryMode::NormalFile => {
                            assert(w[0] == 49 && w[1] == 48 && w[2] == 48 && w[3] == 54 && w[4]
                                == 52 && w[5] == 52);
                        },
                        EntryMode::ExecutableFile => {
                            assert(w[0] == 49 && w[1] == 48 && w[2] == 48 && w[3] == 55 && w[4]
                                == 53 && w[5] == 53);
                        },
                        EntryMode::Symlink => {
                            assert(w[0] == 49 && w[1] == 50 && w[2] == 48 && w[3] == 48 && w[4]
                                == 48 && w[5] == 48);
                        },
                        EntryMode::Tree => {
                            assert(w[0] == 52 && w[1] == 48 && w[2] == 48 && w[3] == 48 && w[4]
                                == 48);
                        },
                    }
                }
            }
        }
        None
    }
}


/// Where the parts of an entry's record lie.
proof fn lemma_entry_layout(e: EntryView)
    requires
        entry_wf(e),
    ensures
        ({
            let b = entry_bytes(e);
            let l = mode_text(e.0).len() as int;
            let n = e.1.len() as int;
            &&& b.len() == l + n + 2 + DIGEST_LEN
            &&& b.subrange(0, l) == mode_text(e.0)
            &&& forall|i: int| 0 <= i < l ==> #[trigger] b[i] != 32
            &&& b[l] == 32
            &&& b.subrange(l + 1, l + 1 + n) == e.1
            &&& forall|i: int| l + 1 <= i < l + 1 + n ==> #[trigger] b[i] != 0
            &&& b[l + 1 + n] == 0
            &&& b.subrange(l + n + 2, b.len() as int) == e.2
        }),
{
    let b = entry_bytes(e);
    let l = mode_text(e.0).len() as int;
    let n = e.1.len() as int;
    lemma_mode_text(e.0);
    assert(b.subrange(0, l) =~= mode_text(e.0));
    assert(b.subrange(l + 1, l + 1 + n) =~= e.1);
    assert(b.subrange(l + n + 2, b.len() as int) =~= e.2);
    assert forall|i: int| 0 <= i < l implies #[trigger] b[i] != 32 by {
        assert(b[i] == mode_text(e.0)[i]);
    }
    assert forall|i: int| l + 1 <= i < l + 1 + n implies #[trigger] b[i] != 0 by {
        assert(b[i] == e.1[i - l - 1]);
    }
}

/// What a parser finds where a well-formed entry's record stands at `pos`.
proof fn lemma_entry_found(data: Seq<u8>, pos: int, e: EntryView)
    requires
        entry_wf(e),
        0 <= pos,
        pos + entry_bytes(e).len() <= data.len(),
        entry_bytes(e) == data.subrange(pos, pos + entry_bytes(e).len()),
    ensures
        ({
            let l = mode_text(e.0).len() as int;
            let n = e.1.len() as int;
            &&& forall|j: int| pos <= j < pos + l ==> #[trigger] data[j] != 32
            &&& data[pos + l] == 32
            &&& data.subrange(pos, pos + l) == mode_text(e.0)
            &&& forall|j: int| pos + l + 1 <= j < pos + l + 1 + n ==> #[trigger] data[j] != 0
            &&& data[pos + l + 1 + n] == 0
            &&& data.subrange(pos + l + 1, pos + l + 1 + n) == e.1
            &&& data.subrange(pos + l + n + 2, pos + l + n + 2 + DIGEST_LEN) == e.2
            &&& pos + l + n + 2 + DIGEST_LEN <= data.len()
        }),
{
    lemma_entry_layout(e);
    let b = entry_bytes(e);
    let l = mode_text(e.0).len() as int;
    let n = e.1.len() as int;
    assert(forall|i: int| 0 <= i < b.len() ==> data[pos + i] == #[trigger] b[i]);
    assert forall|j: int| pos <= j < pos + l implies #[trigger] data[j] != 32 by {
        assert(data[j] == b[j - pos]);
    }
    assert forall|j: int| pos + l + 1 <= j < pos + l + 1 + n implies #[trigger] data[j] != 0 by {
        assert(data[j] == b[j - pos]);
    }
    assert(data.subrange(pos, pos + l) =~= b.subrange(0, l));
    assert(data.subrange(pos + l + 1, pos + l + 1 + n) =~= b.subrange(l + 1, l + 1 + n));
    assert(data.subrange(pos + l + n + 2, pos + l + n + 2 + DIGEST_LEN) =~= b.subrange(l + n + 2, b.len() as int));
}

/// Reads the record that starts at `pos`. Returns the entry and the position
/// after it; the record read is exactly the entry's bytes, and any
/// well-formed entry whose bytes stand at `pos` is read back.
fn parse_entry(data: &[u8], pos: usize) -> (r: Option<(TreeEntry, usize)>)
    requires
        pos <= data@.len(),
    ensures
        r matches Some((e, next)) ==> pos < next <= data@.len() && entry_wf(e.view())
            && data@.subrange(pos as int, next as int) == entry_bytes(e.view()),
        forall|e: EntryView|
            entry_wf(e) && pos + entry_bytes(e).len() <= data@.len() && #[trigger] entry_bytes(e)
                == data@.subrange(pos as int, pos + entry_bytes(e).len()) ==> (r matches Some(
                (x, next),
            ) && x.view() == e && next == pos + entry_bytes(e).len()),
{
    let total = data.len();
    let ghost tail = data@.subrange(pos as int, data@.len() as int);
    let sp = match find_byte(data, pos, 32) {
        Some(i) => i,
        None => {
            proof {
                assert forall|e: EntryView|
                    entry_wf(e) && pos + entry_bytes(e).len() <= data@.len() && #[trigger] entry_bytes(e)
                        == data@.subrange(pos as int, pos + entry_bytes(e).len()) implies false by {
                    lemma_entry_layout(e);
                    let l = mode_text(e.0).len() as int;
                    assert(data@[pos + l] == entry_bytes(e)[l]);
                }
            }
            return None;
        },
    };
    let mode = EntryMode::from_text(data, pos, sp);
    let nul = find_byte(data, sp + 1, 0);
    proof {
        assert forall|e: EntryView|
            entry_wf(e) && pos + entry_bytes(e).len() <= data@.len() && #[trigger] entry_bytes(e)
                == data@.subrange(pos as int, pos + entry_bytes(e).len()) implies ({
                &&& sp == pos + mode_text(e.0).len()
                &&& mode == Some(e.0)
                &&& nul == Some((sp + 1 + e.1.len()) as usize)
                &&& data@.subrange(sp + 1, sp + 1 + e.1.len()) == e.1
                &&& data@.subrange(sp + 2 + e.1.len(), sp + 2 + e.1.len() + DIGEST_LEN) == e.2
                &&& sp + 2 + e.1.len() + DIGEST_LEN <= data@.len()
            }) by {
            lemma_entry_found(data@, pos as int, e);
            let l = mode_text(e.0).len() as int;
            let n = e.1.len() as int;
            if sp < pos + l {
                assert(data@[sp as int] != 32);
            }
            assert(sp == pos + l);
            match nul {
                Some(j) => {
                    if j < pos + l + 1 + n {
                        assert(data@[j as int] != 0);
                    }
                },
                None => {},
            }
        }
    }
    let mode = match mode {
        Some(m) => m,
        None => return None,
    };
    let nul = match nul {
        Some(j) => j,
        None => return None,
    };
    if total - nul - 1 < DIGEST_LEN {
        return None;
    }
    let name = slice_range(data, sp + 1, nul);
    let hash = slice_range(data, nul + 1, nul + 1 + DIGEST_LEN);
    let e = TreeEntry { mode, name, hash };
    let next = nul + 1 + DIGEST_LEN;
    proof {
        assert forall|i: int| 0 <= i < e.name@.len() implies #[trigger] e.name@[i] != 0 by {
            assert(e.name@[i] == data@[sp + 1 + i]);
        }
        assert(data@.subrange(pos as int, next as int) =~= entry_bytes(e.view()));
    }
    Some((e, next))
}

/// Decodes a tree object's payload into its entries. Succeeds exactly when
/// the payload is the records of some well-formed entries, and then returns
/// those entries in order; anything else, or an object of another kind, is a
/// `FormatError`.
pub fn from_object(obj: &Object) -> (r: GitResult<Tree>)
    ensures
        r matches Ok(t) ==> obj.kind == ObjectType::Tree && tree_wf(t.view()) && tree_bytes(
            t.view(),
        ) == obj.data@,
        forall|es: Seq<EntryView>|
            obj.kind == ObjectType::Tree && tree_wf(es) && #[trigger] tree_bytes(es) == obj.data@
                ==> (r matches Ok(t) && t.view() == es),
        r is Err ==> r == Err::<Tree, GitError>(GitError::FormatError),
{
    match obj.kind {
        ObjectType::Tree => {},
        _ => return Err(GitError::FormatError),
    }
    let data = obj.data.as_slice();
    let mut entries: Vec<TreeEntry> = Vec::new();
    let mut pos: usize = 0;
    proof {
        assert(entries@.map_values(|e: TreeEntry| e.view()) =~= Seq::<EntryView>::empty());
        assert forall|es: Seq<EntryView>| tree_wf(es) && #[trigger] tree_bytes(es) == data@
            implies es.subrange(0, 0) == Seq::<EntryView>::empty() by {
            assert(es.subrange(0, 0) =~= Seq::<EntryView>::empty());
        }
    }
    while pos < data.len()
        invariant
            pos <= data@.len(),
            data@ == obj.data@,
            obj.kind == ObjectType::Tree,
            tree_wf(entries@.map_values(|e: TreeEntry| e.view())),
            tree_bytes(entries@.map_values(|e: TreeEntry| e.view())) == data@.subrange(0, pos as int),
            forall|es: Seq<EntryView>| tree_wf(es) && #[trigger] tree_bytes(es) == data@ ==> (
                entries@.len() <= es.len() && entries@.map_values(|e: TreeEntry| e.view())
                    == es.subrange(0, entries@.len() as int)),
        decreases data@.len() - pos,
    {
        let ghost before = entries@.map_values(|e: TreeEntry| e.view());
        let ghost n = entries@.len() as int;
        proof {
            assert forall|es: Seq<EntryView>| tree_wf(es) && #[trigger] tree_bytes(es) == data@
                implies n < es.len() && data@.subrange(pos as int, pos + entry_bytes(es[n]).len())
                    == entry_bytes(es[n]) && pos + entry_bytes(es[n]).len() <= data@.len() by {
                lemma_tree_bytes_prefix(es, n);
                assert(tree_bytes(es.subrange(0, n)) == tree_bytes(before));
                if n == es.len() {
                    assert(false);
                }
                lemma_tree_bytes_prefix(es, n + 1);
                let pre2 = tree_bytes(es.subrange(0, n + 1));
                assert(pre2 == tree_bytes(before) + entry_bytes(es[n]));
                assert(data@.subrange(0, pre2.len() as int) == pre2);
                assert(pre2.len() == pos + entry_bytes(es[n]).len());
                assert(data@.subrange(pos as int, pos + entry_bytes(es[n]).len()) =~= pre2.subrange(pos as int, pre2.len() as int));
                assert(pre2.subrange(pos as int, pre2.len() as int) =~= entry_bytes(es[n]));
            }
        }
        match parse_entry(data, pos) {
            Some((e, next)) => {
                entries.push(e);
                proof {
                    let after = entries@.map_values(|e: TreeEntry| e.view());
                    assert(after =~= before.push(e.view()));
                    assert(after.drop_last() =~= before);
                    assert(data@.subrange(0, next as int) =~= data@.subrange(0, pos as int) + data@.subrange(pos as int, next as int));
                    assert forall|es: Seq<EntryView>| tree_wf(es) && #[trigger] tree_bytes(es) == data@
                        implies entries@.len() <= es.len() && after == es.subrange(0, entries@.len() as int) by {
                        assert(entry_wf(es[n]));
                        assert(after =~= es.subrange(0, n + 1));
                    }
                    assert forall|j: int| 0 <= j < after.len() implies entry_wf(#[trigger] after[j]) by {
                        if j < n {
                            assert(after[j] == before[j]);
                        }
                    }
                }
                pos = next;
            },
            None => {
                proof {
                    assert forall|es: Seq<EntryView>| tree_wf(es) && #[trigger] tree_bytes(es) == data@
                        implies false by {
                        assert(entry_wf(es[n]));
                    }
                }
                return Err(GitError::FormatError);
            },
        }
    }
    let t = Tree { entries };
    proof {
        assert(data@.subrange(0, pos as int) =~= data@);
        assert forall|es: Seq<EntryView>| tree_wf(es) && #[trigger] tree_bytes(es) == obj.data@
            implies t.view() == es by {
            let n = entries@.len() as int;
            lemma_tree_bytes_prefix(es, n);
            if n < es.len() {
                lemma_tree_bytes_prefix(es, n + 1);
                lemma_tree_bytes_prefix(es.subrange(0, n + 1), n + 1);
                lemma_entry_layout(es[n]);
                lemma_tree_bytes_prefix(es, es.len() as int);
                lemma_tree_bytes_monotone(es, n + 1);
                assert(false);
            }
            assert(es.subrange(0, n) =~= es);
        }
    }
    Ok(t)
}

/// Longer prefixes of the entries never give a shorter payload.
proof fn lemma_tree_bytes_monotone(es: Seq<EntryView>, i: int)
    requires
        0 <= i <= es.len(),
    ensures
        tree_bytes(es.subrange(0, i)).len() <= tree_bytes(es).len(),
{
    lemma_tree_bytes_prefix(es, i);
}

impl Tree {
    /// Encodes the entries, in the order given, as a tree object.
    pub fn as_object(&self) -> (r: Object)
        ensures
            r.kind == ObjectType::Tree,
            r.data@ == tree_bytes(self.view()),
    {
        let mut out: Vec<u8> = Vec::new();
        let mut i: usize = 0;
        while i < self.entries.len()
            invariant
                i <= self.entries@.len(),
                out@ == tree_bytes(self.view().subrange(0, i as int)),
            decreases self.entries@.len() - i,
        {
            let e = &self.entries[i];
            e.mode.write_text(&mut out);
            out.push(32);
            append(&mut out, e.name.as_slice());
            out.push(0);
            append(&mut out, e.hash.as_slice());
            proof {
                let v = self.view();
                assert(v.subrange(0, i + 1).drop_last() =~= v.subrange(0, i as int));
                assert(v[i as int] == e.view());
                assert(out@ =~= tree_bytes(v.subrange(0, i + 1)));
            }
            i = i + 1;
        }
        assert(self.view().subrange(0, i as int) =~= self.view());
        Object { kind: ObjectType::Tree, data: out }
    }
}

/// Appends a copy of `b`.
pub fn append(out: &mut Vec<u8>, b: &[u8])
    ensures
        final(out)@ == old(out)@ + b@,
{
    let mut i: usize = 0;
    while i < b.len()
        invariant
            i <= b@.len(),
            out@ == old(out)@ + b@.subrange(0, i as int),
        decreases b@.len() - i,
    {
        out.push(b[i]);
        assert(out@ =~= old(out)@ + b@.subrange(0, i as int + 1));
        i = i + 1;
    }
    assert(b@.subrange(0, i as int) =~= b@);
}

/// The payload of a non-empty listing is its first record, then the rest.
proof fn lemma_tree_bytes_cons(es: Seq<EntryView>)
    requires
        es.len() > 0,
    ensures
        tree_bytes(es) == entry_bytes(es[0]) + tree_bytes(es.drop_first()),
    decreases es.len(),
{
    if es.len() == 1 {
        assert(es.drop_last() =~= Seq::<EntryView>::empty());
        assert(es.drop_first() =~= Seq::<EntryView>::empty());
        assert(tree_bytes(es) =~= entry_bytes(es[0]) + tree_bytes(es.drop_first()));
    } else {
        lemma_tree_bytes_cons(es.drop_last());
        assert(es.drop_first().drop_last() =~= es.drop_last().drop_first());
        assert(es.drop_first().last() == es.last());
        assert(tree_bytes(es) =~= entry_bytes(es[0]) + tree_bytes(es.drop_first()));
    }
}

proof fn lemma_mode_text_injective(m1: EntryMode, m2: EntryMode)
    requires
        mode_text(m1) == mode_text(m2),
    ensures
        m1 == m2,
{
    let t = mode_text(m1);
    assert(t[1] == mode_text(m2)[1] && t[3] == mode_text(m2)[3]);
    assert(t.len() == mode_text(m2).len());
}

/// A record followed by anything starts with exactly one well-formed entry.
proof fn lemma_entry_prefix_unique(a: EntryView, b: EntryView, x: Seq<u8>, y: Seq<u8>)
    requires
        entry_wf(a),
        entry_wf(b),
        entry_bytes(a) + x == entry_bytes(b) + y,
    ensures
        a == b,
        x == y,
{
    let d = entry_bytes(a) + x;
    assert(d.subrange(0, entry_bytes(a).len() as int) =~= entry_bytes(a));
    assert(d.subrange(0, entry_bytes(b).len() as int) =~= entry_bytes(b));
    lemma_entry_found(d, 0, a);
    lemma_entry_found(d, 0, b);
    let la = mode_text(a.0).len() as int;
    let lb = mode_text(b.0).len() as int;
    if la < lb {
        assert(d[la] != 32);
    }
    if lb < la {
        assert(d[lb] != 32);
    }
    assert(la == lb);
    lemma_mode_text_injective(a.0, b.0);
    let na = a.1.len() as int;
    let nb = b.1.len() as int;
    if na < nb {
        assert(d[la + 1 + na] != 0);
    }
    if nb < na {
        assert(d[la + 1 + nb] != 0);
    }
    assert(na == nb);
    assert(entry_bytes(a) == entry_bytes(b));
    assert(x =~= d.subrange(entry_bytes(a).len() as int, d.len() as int));
    assert(y =~= d.subrange(entry_bytes(b).len() as int, d.len() as int));
}

/// Well-formed listings with the same payload are the same listing: decoding
/// an encoded tree gives back its entries, in their order.
pub proof fn lemma_tree_round_trip(a: Seq<EntryView>, b: Seq<EntryView>)
    requires
        tree_wf(a),
        tree_wf(b),
        tree_bytes(a) == tree_bytes(b),
    ensures
        a == b,
    decreases a.len(),
{
    if a.len() == 0 {
        if b.len() > 0 {
            lemma_tree_bytes_cons(b);
            lemma_entry_layout(b[0]);
        }
        assert(b =~= a);
    } else {
        lemma_tree_bytes_cons(a);
        lemma_entry_layout(a[0]);
        if b.len() == 0 {
            assert(false);
        }
        lemma_tree_bytes_cons(b);
        assert(entry_wf(a[0]) && entry_wf(b[0]));
        lemma_entry_prefix_unique(a[0], b[0], tree_bytes(a.drop_first()), tree_bytes(b.drop_first()));
        assert(tree_wf(a.drop_first())) by {
            assert forall|i: int| 0 <= i < a.drop_first().len() implies entry_wf(#[trigger] a.drop_first()[i]) by {
                assert(a.drop_first()[i] == a[i + 1]);
            }
        }
        assert(tree_wf(b.drop_first())) by {
            assert forall|i: int| 0 <= i < b.drop_first().len() implies entry_wf(#[trigger] b.drop_first()[i]) by {
                assert(b.drop_first()[i] == b[i + 1]);
            }
        }
        lemma_tree_round_trip(a.drop_first(), b.drop_first());
        assert(a =~= b) by {
            assert forall|i: int| 0 <= i < a.len() implies a[i] == b[i] by {
                if i > 0 {
                    assert(a[i] == a.drop_first()[i - 1]);
                    assert(b[i] == b.drop_first()[i - 1]);
                }
            }
        }
    }
}

} // verus!
