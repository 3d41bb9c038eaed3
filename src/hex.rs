use vstd::prelude::*;

verus! {

/// Number of bytes in an object digest.
pub const DIGEST_LEN: usize = 20;

/// The lowercase hexadecimal digit for a value below 16.
pub open spec fn hex_digit(v: u8) -> u8 {
    if v < 10 { (v + 48) as u8 } else { (v + 87) as u8 }
}

pub open spec fn is_hex_digit(c: u8) -> bool {
    (48 <= c && c <= 57) || (97 <= c && c <= 102)
}

/// The value of a lowercase hexadecimal digit.
pub open spec fn hex_value(c: u8) -> u8 {
    if c <= 57 { (c - 48) as u8 } else { (c - 87) as u8 }
}

/// Two lowercase hexadecimal digits for each byte, most significant first.
pub open spec fn hex_of(b: Seq<u8>) -> Seq<u8>
    decreases b.len(),
{
    if b.len() == 0 {
        Seq::empty()
    } else {
        hex_of(b.drop_last()) + seq![hex_digit(b.last() / 16), hex_digit(b.last() % 16)]
    }
}

/// A string of lowercase hexadecimal digits of even length.
pub open spec fn is_hex_text(s: Seq<u8>) -> bool {
    s.len() % 2 == 0 && forall|i: int| 0 <= i < s.len() ==> is_hex_digit(#[trigger] s[i])
}

/// The textual form of a digest: exactly 40 lowercase hexadecimal digits.
pub open spec fn is_digest_hex(s: Seq<u8>) -> bool {
    s.len() == 2 * DIGEST_LEN && is_hex_text(s)
}

/// The bytes that a string of lowercase hexadecimal digits stands for.
pub open spec fn bytes_of_hex(s: Seq<u8>) -> Seq<u8> {
    Seq::new(
        (s.len() / 2) as nat,
        |i: int| (hex_value(s[2 * i]) * 16 + hex_value(s[2 * i + 1])) as u8,
    )
}

pub proof fn lemma_hex_of_len(b: Seq<u8>)
    ensures
        hex_of(b).len() == 2 * b.len(),
    decreases b.len(),
{
    if b.len() > 0 {
        lemma_hex_of_len(b.drop_last());
    }
}

/// Digit `2i` and `2i+1` of the hex text stand for byte `i`.
pub proof fn lemma_hex_of_index(b: Seq<u8>, i: int)
    requires
        0 <= i < b.len(),
    ensures
        hex_of(b).len() == 2 * b.len(),
        hex_of(b)[2 * i] == hex_digit(b[i] / 16),
        hex_of(b)[2 * i + 1] == hex_digit(b[i] % 16),
    decreases b.len(),
{
    lemma_hex_of_len(b);
    lemma_hex_of_len(b.drop_last());
    if i < b.len() - 1 {
        lemma_hex_of_index(b.drop_last(), i);
    }
}

/// Hex text is well formed and reads back as the bytes it was made from.
pub proof fn lemma_hex_round_trip(b: Seq<u8>)
    ensures
        is_hex_text(hex_of(b)),
        bytes_of_hex(hex_of(b)) == b,
{
    lemma_hex_of_len(b);
    let h = hex_of(b);
    assert forall|j: int| 0 <= j < h.len() implies is_hex_digit(#[trigger] h[j]) by {
        let i = j / 2;
        lemma_hex_of_index(b, i);
        assert(j == 2 * i || j == 2 * i + 1);
    }
    assert forall|i: int| 0 <= i < b.len() implies #[trigger] bytes_of_hex(h)[i] == b[i] by {
        lemma_hex_of_index(b, i);
    }
    assert(bytes_of_hex(h) =~= b);
}

/// Hex text that is well formed is the rendering of the bytes it stands for.
pub proof fn lemma_hex_text_canonical(s: Seq<u8>)
    requires
        is_hex_text(s),
    ensures
        hex_of(bytes_of_hex(s)) == s,
{
    let b = bytes_of_hex(s);
    lemma_hex_of_len(b);
    assert forall|j: int| 0 <= j < s.len() implies #[trigger] hex_of(b)[j] == s[j] by {
        let i = j / 2;
        lemma_hex_of_index(b, i);
        assert(is_hex_digit(s[2 * i]) && is_hex_digit(s[2 * i + 1]));
        assert(j == 2 * i || j == 2 * i + 1);
    }
    assert(hex_of(b) =~= s);
}

fn digit_for(v: u8) -> (r: u8)
    requires
        v < 16,
    ensures
        r == hex_digit(v),
{
    if v < 10 { v + 48 } else { v + 87 }
}

/// Renders bytes as lowercase hexadecimal text, two digits per byte.
pub fn to_hex(b: &[u8]) -> (r: Vec<u8>)
    ensures
        r@ == hex_of(b@),
        r@.len() == 2 * b@.len(),
{
    let mut out: Vec<u8> = Vec::new();
    let mut i: usize = 0;
    while i < b.len()
        invariant
            i <= b.len(),
            out@ == hex_of(b@.subrange(0, i as int)),
        decreases b.len() - i,
    {
        out.push(digit_for(b[i] / 16));
        out.push(digit_for(b[i] % 16));
        assert(b@.subrange(0, i as int + 1).drop_last() =~= b@.subrange(0, i as int));
        i = i + 1;
    }
    assert(b@.subrange(0, b.len() as int) =~= b@);
    proof {
        lemma_hex_of_len(b@);
    }
    out
}

fn value_of_digit(c: u8) -> (r: Option<u8>)
    ensures
        r matches Some(v) <==> is_hex_digit(c),
        r matches Some(v) ==> v == hex_value(c) && v < 16,
{
    if 48 <= c && c <= 57 {
        Some(c - 48)
    } else if 97 <= c && c <= 102 {
        Some(c - 87)
    } else {
        None
    }
}

/// Reads lowercase hexadecimal text back into bytes; `None` where the text has
/// odd length or a character that is not a lowercase hexadecimal digit.
pub fn from_hex(s: &[u8]) -> (r: Option<Vec<u8>>)
    ensures
        r is Some <==> is_hex_text(s@),
        r matches Some(v) ==> v@ == bytes_of_hex(s@) && hex_of(v@) == s@,
{
    if s.len() % 2 != 0 {
        return None;
    }
    let mut out: Vec<u8> = Vec::new();
    let mut i: usize = 0;
    while i < s.len() / 2
        invariant
            s.len() % 2 == 0,
            i <= s.len() / 2,
            out@ == bytes_of_hex(s@).subrange(0, i as int),
            forall|j: int| 0 <= j < 2 * i ==> is_hex_digit(#[trigger] s@[j]),
        decreases s.len() / 2 - i,
    {
        let hi = value_of_digit(s[2 * i]);
        let lo = value_of_digit(s[2 * i + 1]);
        match (hi, lo) {
            (Some(h), Some(l)) => {
                out.push(h * 16 + l);
                assert(out@ =~= bytes_of_hex(s@).subrange(0, i as int + 1));
                i = i + 1;
            },
            _ => {
                assert(!is_hex_digit(s@[2 * i as int]) || !is_hex_digit(s@[2 * i as int + 1]));
                return None;
            },
        }
    }
    assert(out@ =~= bytes_of_hex(s@));
    proof {
        lemma_hex_text_canonical(s@);
    }
    Some(out)
}

} // verus!
