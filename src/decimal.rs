use vstd::prelude::*;

verus! {

pub open spec fn is_digit(c: u8) -> bool {
    48 <= c && c <= 57
}

/// The canonical decimal rendering of a natural number: no leading zero.
pub open spec fn dec_of(n: nat) -> Seq<u8>
    decreases n,
{
    if n < 10 {
        seq![(n + 48) as u8]
    } else {
        dec_of(n / 10) + seq![((n % 10) + 48) as u8]
    }
}

/// The value of a string of decimal digits.
pub open spec fn dec_value(s: Seq<u8>) -> nat
    decreases s.len(),
{
    if s.len() == 0 {
        0
    } else {
        dec_value(s.drop_last()) * 10 + (s.last() - 48) as nat
    }
}

/// A non-empty string of digits without a leading zero (but for "0" itself).
pub open spec fn is_canonical_dec(s: Seq<u8>) -> bool {
    &&& s.len() > 0
    &&& forall|i: int| 0 <= i < s.len() ==> is_digit(#[trigger] s[i])
    &&& (s[0] == 48 ==> s.len() == 1)
}

pub proof fn lemma_dec_of_canonical(n: nat)
    ensures
        is_canonical_dec(dec_of(n)),
        dec_value(dec_of(n)) == n,
        dec_of(n).len() >= 1,
        n >= 10 ==> dec_of(n).len() >= 2,
    decreases n,
{
    if n >= 10 {
        lemma_dec_of_canonical(n / 10);
        let s = dec_of(n);
        assert(s.drop_last() =~= dec_of(n / 10));
        assert(s[0] == dec_of(n / 10)[0]);
        assert(s.last() == ((n % 10) + 48) as u8);
        assert((s.last() - 48) as nat == n % 10);
        assert(n == (n / 10) * 10 + n % 10);
        assert(dec_value(s) == dec_value(dec_of(n / 10)) * 10 + n % 10);
        assert(dec_value(s) == n);
    } else {
        let s = dec_of(n);
        assert(s.drop_last() =~= Seq::<u8>::empty());
        assert(s.last() == (n + 48) as u8);
        assert((s.last() - 48) as nat == n);
        assert(dec_value(s.drop_last()) == 0);
        assert(dec_value(s) == n);
    }
}

pub proof fn lemma_canonical_dec_of(s: Seq<u8>)
    requires
        is_canonical_dec(s),
    ensures
        dec_of(dec_value(s)) == s,
    decreases s.len(),
{
    if s.len() == 1 {
        assert(s.drop_last() =~= Seq::<u8>::empty());
        assert(dec_value(s.drop_last()) == 0);
        assert(dec_value(s) == (s[0] - 48) as nat);
        assert(dec_of(dec_value(s)) =~= s);
    } else {
        let p = s.drop_last();
        assert(p[0] == s[0]);
        lemma_canonical_dec_of(p);
        lemma_dec_positive(s);
        let n = dec_value(s);
        assert(n / 10 == dec_value(p) && n % 10 == (s.last() - 48) as nat);
        assert(dec_of(n) =~= s);
    }
}

proof fn lemma_dec_positive(s: Seq<u8>)
    requires
        is_canonical_dec(s),
        s.len() >= 2,
    ensures
        dec_value(s) >= 10,
    decreases s.len(),
{
    let p = s.drop_last();
    assert(p[0] == s[0]);
    if s.len() > 2 {
        lemma_dec_positive(p);
    } else {
        assert(p.drop_last() =~= Seq::<u8>::empty());
        assert(dec_value(p) >= 1);
    }
}

/// Renders a number in canonical decimal.
pub fn write_dec(n: u64, out: &mut Vec<u8>)
    ensures
        final(out)@ == old(out)@ + dec_of(n as nat),
    decreases n,
{
    if n >= 10 {
        write_dec(n / 10, out);
    }
    out.push((n % 10) as u8 + 48);
    proof {
        if n >= 10 {
            assert(final(out)@ =~= old(out)@ + dec_of(n as nat));
        } else {
            assert(final(out)@ =~= old(out)@ + dec_of(n as nat));
        }
    }
}

/// Reads the canonical decimal number in `s[start..end]`; `None` unless the
/// bytes are canonical decimal with a value of at most `max`.
pub fn read_dec(s: &[u8], start: usize, end: usize, max: u64) -> (r: Option<u64>)
    requires
        start <= end <= s@.len(),
    ensures
        r is Some <==> is_canonical_dec(s@.subrange(start as int, end as int)) && dec_value(
            s@.subrange(start as int, end as int),
        ) <= max,
        r matches Some(n) ==> n as nat == dec_value(s@.subrange(start as int, end as int)),
{
    if start == end {
        return None;
    }
    if s[start] == 48 && end - start > 1 {
        return None;
    }
    let mut v: u64 = 0;
    let mut i: usize = start;
    while i < end
        invariant
            start <= i <= end <= s@.len(),
            v as nat == dec_value(s@.subrange(start as int, i as int)),
            v <= max,
            forall|j: int| start <= j < i ==> is_digit(#[trigger] s@[j]),
        decreases end - i,
    {
        let c = s[i];
        assert(s@.subrange(start as int, i as int + 1).drop_last() =~= s@.subrange(
            start as int,
            i as int,
        ));
        if !(48 <= c && c <= 57) {
            assert(s@.subrange(start as int, end as int)[i - start] == c);
            return None;
        }
        let d = (c - 48) as u64;
        if d > max || v > (max - d) / 10 {
            proof {
                let w = s@.subrange(start as int, end as int);
                assert(v * 10 + d > max) by (nonlinear_arith)
                    requires
                        d > max || v > (max - d) / 10,
                ;
                assert(w.subrange(0, (i + 1 - start) as int) =~= s@.subrange(
                    start as int,
                    i as int + 1,
                ));
                if forall|j: int| 0 <= j < w.len() ==> is_digit(#[trigger] w[j]) {
                    lemma_dec_prefix_le(w, (i + 1 - start) as int);
                }
            }
            return None;
        }
        proof {
            assert(v * 10 + d <= max) by (nonlinear_arith)
                requires v <= (max - d) / 10, d <= max;
        }
        v = v * 10 + d;
        i = i + 1;
    }
    Some(v)
}

/// The value of a digit string is at least the value of any of its prefixes.
proof fn lemma_dec_prefix_le(s: Seq<u8>, k: int)
    requires
        0 <= k <= s.len(),
        forall|i: int| 0 <= i < s.len() ==> is_digit(#[trigger] s[i]),
    ensures
        dec_value(s.subrange(0, k)) <= dec_value(s),
    decreases s.len(),
{
    if k < s.len() {
        assert(s.drop_last().subrange(0, k) =~= s.subrange(0, k));
        lemma_dec_prefix_le(s.drop_last(), k);
    } else {
        assert(s.subrange(0, k) =~= s);
    }
}

} // verus!
