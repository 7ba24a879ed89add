//! Byte-string primitives: substring search, ASCII classification, and
//! canonical decimal numerals, with the lemmas that relate a numeral to its
//! value.
use vstd::prelude::*;

verus! {

/// `p` occurs in `s` starting at position `i`.
pub open spec fn matches_at(s: Seq<u8>, p: Seq<u8>, i: int) -> bool {
    0 <= i && i + p.len() <= s.len() && s.subrange(i, i + p.len()) == p
}

/// `p` occurs somewhere in `s`.
pub open spec fn contains_seq(s: Seq<u8>, p: Seq<u8>) -> bool {
    exists|i: int| matches_at(s, p, i)
}

/// `p` occurs in `s` at `i` — executable check.
pub fn check_match_at(s: &[u8], p: &[u8], i: usize) -> (r: bool)
    requires
        i + p@.len() <= s@.len(),
    ensures
        r == matches_at(s@, p@, i as int),
{
    let slen = s.len();
    let mut k: usize = 0;
    while k < p.len()
        invariant
            i + p@.len() <= s@.len(),
            s@.len() == slen,
            k <= p@.len(),
            forall|m: int| 0 <= m < k ==> s@[i + m] == p@[m],
        decreases p@.len() - k,
    {
        if s[i + k] != p[k] {
            assert(!matches_at(s@, p@, i as int)) by {
                if matches_at(s@, p@, i as int) {
                    assert(s@.subrange(i as int, i + p@.len())[k as int] == p@[k as int]);
                }
            }
            return false;
        }
        k += 1;
    }
    assert(s@.subrange(i as int, i + p@.len()) =~= p@);
    true
}

/// Index of the first occurrence of `p` in `s`, if any.
pub fn find_seq(s: &[u8], p: &[u8]) -> (r: Option<usize>)
    ensures
        match r {
            Some(i) => matches_at(s@, p@, i as int) && (forall|j: int|
                0 <= j < i ==> !matches_at(s@, p@, j)),
            None => !contains_seq(s@, p@),
        },
{
    if p.len() > s.len() {
        return None;
    }
    if p.len() == 0 {
        assert(s@.subrange(0, 0) =~= p@);
        return Some(0);
    }
    let mut i: usize = 0;
    while i <= s.len() - p.len()
        invariant
            p@.len() <= s@.len(),
            i <= s@.len() - p@.len() + 1,
            forall|j: int| 0 <= j < i ==> !matches_at(s@, p@, j),
        decreases s@.len() - p@.len() - i + 1,
    {
        if check_match_at(s, p, i) {
            return Some(i);
        }
        i += 1;
    }
    assert forall|j: int| 0 <= j implies !matches_at(s@, p@, j) by {
        if matches_at(s@, p@, j) {
            assert(j < i);
        }
    }
    None
}

/// Index of the first occurrence of byte `b` in `s` at or after `from`;
/// `s.len()` when there is none.
pub fn find_byte_from(s: &[u8], b: u8, from: usize) -> (r: usize)
    requires
        from <= s@.len(),
    ensures
        from <= r <= s@.len(),
        forall|j: int| from <= j < r ==> s@[j] != b,
        r < s@.len() ==> s@[r as int] == b,
{
    let mut i: usize = from;
    while i < s.len()
        invariant
            from <= i <= s@.len(),
            forall|j: int| from <= j < i ==> s@[j] != b,
        decreases s@.len() - i,
    {
        if s[i] == b {
            return i;
        }
        i += 1;
    }
    i
}

/// ASCII decimal digit.
pub open spec fn is_digit(b: u8) -> bool {
    48 <= b <= 57
}

/// ASCII whitespace accepted between tokens: space, tab, CR, LF.
pub open spec fn is_space(b: u8) -> bool {
    b == 32 || b == 9 || b == 13 || b == 10
}

#[verifier::when_used_as_spec(is_digit)]
pub fn digit(b: u8) -> (r: bool)
    ensures
        r == is_digit(b),
{
    48 <= b && b <= 57
}

#[verifier::when_used_as_spec(is_space)]
pub fn space(b: u8) -> (r: bool)
    ensures
        r == is_space(b),
{
    b == 32 || b == 9 || b == 13 || b == 10
}

/// The canonical decimal numeral of `n`: no leading zeros, most significant
/// digit first.
pub open spec fn dec_bytes(n: nat) -> Seq<u8>
    decreases n,
{
    if n < 10 {
        seq![(48 + n) as u8]
    } else {
        dec_bytes(n / 10).push((48 + n % 10) as u8)
    }
}

/// All of `s` is decimal digits and there is at least one.
pub open spec fn all_digits(s: Seq<u8>) -> bool {
    s.len() > 0 && forall|i: int| 0 <= i < s.len() ==> is_digit(#[trigger] s[i])
}

/// `s` is a canonical numeral: digits, and no leading zero unless it is "0".
pub open spec fn canonical_numeral(s: Seq<u8>) -> bool {
    all_digits(s) && (s.len() == 1 || s[0] != 48)
}

/// The value of a digit string, most significant digit first.
pub open spec fn dec_value(s: Seq<u8>) -> int
    decreases s.len(),
{
    if s.len() == 0 {
        0
    } else {
        dec_value(s.drop_last()) * 10 + (s.last() - 48)
    }
}

pub proof fn lemma_dec_bytes_canonical(n: nat)
    ensures
        canonical_numeral(dec_bytes(n)),
        dec_bytes(n)[0] == 48 ==> n == 0,
    decreases n,
{
    if n >= 10 {
        lemma_dec_bytes_canonical(n / 10);
    }
}

pub proof fn lemma_dec_bytes_value(n: nat)
    ensures
        dec_value(dec_bytes(n)) == n,
    decreases n,
{
    reveal_with_fuel(dec_value, 2);
    if n < 10 {
        assert(dec_bytes(n).drop_last() =~= Seq::<u8>::empty());
        assert(dec_bytes(n).last() == (48 + n) as u8);
        assert(dec_value(dec_bytes(n)) == dec_value(Seq::<u8>::empty()) * 10 + ((48 + n) as u8
            - 48));
    } else {
        lemma_dec_bytes_value(n / 10);
        assert(dec_bytes(n).drop_last() =~= dec_bytes(n / 10));
        assert(dec_bytes(n).last() == (48 + n % 10) as u8);
        assert(dec_value(dec_bytes(n)) == dec_value(dec_bytes(n / 10)) * 10 + ((48 + n % 10) as u8
            - 48));
    }
}

/// A canonical numeral is the numeral of its own value.
pub proof fn lemma_canonical_round_trip(s: Seq<u8>)
    requires
        canonical_numeral(s),
    ensures
        dec_value(s) >= 0,
        dec_bytes(dec_value(s) as nat) == s,
    decreases s.len(),
{
    lemma_dec_value_bounds(s);
    if s.len() == 1 {
        assert(dec_bytes(dec_value(s) as nat) =~= s);
    } else {
        let front = s.drop_last();
        assert(canonical_numeral(front));
        lemma_canonical_round_trip(front);
        lemma_dec_value_bounds(front);
        // front's value is nonzero: its first digit is not '0'
        assert(dec_value(front) > 0) by {
            if dec_value(front) == 0 {
                lemma_dec_value_zero(front);
            }
        }
        let v = dec_value(s);
        assert(v / 10 == dec_value(front) && v % 10 == s.last() - 48) by {
            assert(v == dec_value(front) * 10 + (s.last() - 48));
        }
        assert(dec_bytes(v as nat) =~= s);
    }
}

/// A digit string with value zero is all '0' digits; a canonical one is "0".
proof fn lemma_dec_value_zero(s: Seq<u8>)
    requires
        all_digits(s),
        dec_value(s) == 0,
    ensures
        s[0] == 48,
    decreases s.len(),
{
    lemma_dec_value_bounds(s.drop_last());
    if s.len() > 1 {
        assert(all_digits(s.drop_last()));
        lemma_dec_value_zero(s.drop_last());
        assert(s[0] == s.drop_last()[0]);
    }
}

/// Digit strings have non-negative values; a longer digit string is worth at
/// least as much.
pub proof fn lemma_dec_value_bounds(s: Seq<u8>)
    requires
        forall|i: int| 0 <= i < s.len() ==> is_digit(#[trigger] s[i]),
    ensures
        dec_value(s) >= 0,
        s.len() > 0 ==> dec_value(s) >= dec_value(s.drop_last()),
    decreases s.len(),
{
    if s.len() > 0 {
        assert(forall|i: int|
            0 <= i < s.drop_last().len() ==> is_digit(#[trigger] s.drop_last()[i]));
        lemma_dec_value_bounds(s.drop_last());
    }
}

/// Extending a digit string on the right cannot shrink its value.
pub proof fn lemma_dec_value_prefix(s: Seq<u8>, j: int)
    requires
        forall|i: int| 0 <= i < s.len() ==> is_digit(#[trigger] s[i]),
        0 <= j <= s.len(),
    ensures
        dec_value(s.take(j)) <= dec_value(s),
    decreases s.len() - j,
{
    if j < s.len() {
        lemma_dec_value_prefix(s, j + 1);
        let t = s.take(j + 1);
        assert(forall|i: int| 0 <= i < t.len() ==> is_digit(#[trigger] t[i]));
        lemma_dec_value_bounds(t);
        assert(t.drop_last() =~= s.take(j));
    } else {
        assert(s.take(j) =~= s);
    }
}

/// Parse the canonical decimal numeral in `s[lo..hi]`. Returns the value
/// exactly when that range is the numeral of some `u64`.
pub fn parse_u64_dec(s: &[u8], lo: usize, hi: usize) -> (r: Option<u64>)
    requires
        lo <= hi <= s@.len(),
    ensures
        match r {
            Some(n) => s@.subrange(lo as int, hi as int) == dec_bytes(n as nat),
            None => forall|n: u64| s@.subrange(lo as int, hi as int) != dec_bytes(n as nat),
        },
{
    let ghost sub = s@.subrange(lo as int, hi as int);
    if lo == hi {
        assert forall|n: u64| sub != dec_bytes(n as nat) by {
            lemma_dec_bytes_canonical(n as nat);
        }
        return None;
    }
    if s[lo] == 48 && hi - lo > 1 {
        assert forall|n: u64| sub != dec_bytes(n as nat) by {
            lemma_dec_bytes_canonical(n as nat);
            if sub == dec_bytes(n as nat) {
                assert(sub[0] == 48 && sub.len() > 1);
            }
        }
        return None;
    }
    let mut i: usize = lo;
    let mut val: u64 = 0;
    while i < hi
        invariant
            lo <= i <= hi <= s@.len(),
            val == dec_value(s@.subrange(lo as int, i as int)),
            forall|j: int| lo <= j < i ==> is_digit(#[trigger] s@[j]),
        decreases hi - i,
    {
        let b = s[i];
        if !digit(b) {
            assert forall|n: u64| sub != dec_bytes(n as nat) by {
                lemma_dec_bytes_canonical(n as nat);
                if sub == dec_bytes(n as nat) {
                    assert(is_digit(sub[i - lo]));
                }
            }
            return None;
        }
        let d: u64 = (b - 48) as u64;
        proof {
            assert(s@.subrange(lo as int, i + 1).drop_last() =~= s@.subrange(
                lo as int,
                i as int,
            ));
        }
        if val > (u64::MAX - d) / 10 {
            // the numeral's value exceeds u64::MAX
            assert forall|n: u64| sub != dec_bytes(n as nat) by {
                lemma_dec_bytes_canonical(n as nat);
                if sub == dec_bytes(n as nat) {
                    lemma_dec_bytes_value(n as nat);
                    assert(forall|j: int| 0 <= j < sub.len() ==> is_digit(#[trigger] sub[j]));
                    lemma_dec_value_prefix(sub, i + 1 - lo);
                    assert(sub.take(i + 1 - lo) =~= s@.subrange(lo as int, i + 1));
                    assert(dec_value(s@.subrange(lo as int, i + 1)) == val * 10 + d);
                    assert(val * 10 + d > u64::MAX) by (nonlinear_arith)
                        requires
                            val > (u64::MAX - d) / 10,
                            0 <= d <= 9,
                    ;
                }
            }
            return None;
        }
        val = val * 10 + d;
        i += 1;
    }
    proof {
        assert(sub =~= s@.subrange(lo as int, hi as int));
        assert(canonical_numeral(sub)) by {
            assert(forall|j: int| 0 <= j < sub.len() ==> is_digit(#[trigger] sub[j]));
        }
        lemma_canonical_round_trip(sub);
    }
    Some(val)
}

/// Render `n` as its canonical decimal numeral.
pub fn u64_to_dec(n: u64) -> (r: Vec<u8>)
    ensures
        r@ == dec_bytes(n as nat),
{
    let mut rev: Vec<u8> = Vec::new();
    let mut m: u64 = n;
    let mut done = false;
    while !done
        invariant
            !done ==> dec_bytes(n as nat) == dec_bytes(m as nat) + rev@.reverse(),
            done ==> dec_bytes(n as nat) == rev@.reverse(),
        decreases 2 * m + (if done { 0int } else { 1int }),
    {
        let ghost prev = m as nat;
        let ghost old_rev = rev@;
        let d: u8 = (m % 10) as u8 + 48;
        m = m / 10;
        rev.push(d);
        proof {
            assert(rev@.reverse() =~= seq![d] + old_rev.reverse());
            if prev >= 10 {
                assert(dec_bytes(prev) == dec_bytes(prev / 10).push((48 + prev % 10) as u8));
                assert(dec_bytes(prev / 10).push(d) + old_rev.reverse() =~= dec_bytes(prev / 10)
                    + rev@.reverse());
            } else {
                assert(dec_bytes(prev) =~= seq![d]);
                assert(dec_bytes(n as nat) =~= rev@.reverse());
            }
        }
        if m == 0 {
            done = true;
        }
    }
    let mut out: Vec<u8> = Vec::new();
    let mut i: usize = rev.len();
    while i > 0
        invariant
            i <= rev@.len(),
            out@ == rev@.subrange(i as int, rev@.len() as int).reverse(),
        decreases i,
    {
        i -= 1;
        out.push(rev[i]);
        proof {
            assert(rev@.subrange(i as int, rev@.len() as int).reverse() =~= rev@.subrange(
                i + 1,
                rev@.len() as int,
            ).reverse().push(rev@[i as int]));
        }
    }
    proof {
        assert(rev@.subrange(0, rev@.len() as int) =~= rev@);
    }
    assert(out@ == dec_bytes(n as nat));
    out
}

/// Byte-wise equality of two slices.
pub fn bytes_eq(a: &[u8], b: &[u8]) -> (r: bool)
    ensures
        r == (a@ == b@),
{
    if a.len() != b.len() {
        assert(a@ != b@) by {
            if a@ == b@ {
                assert(a@.len() == b@.len());
            }
        }
        return false;
    }
    let mut i: usize = 0;
    while i < a.len()
        invariant
            i <= a@.len(),
            a@.len() == b@.len(),
            forall|j: int| 0 <= j < i ==> a@[j] == b@[j],
        decreases a@.len() - i,
    {
        if a[i] != b[i] {
            return false;
        }
        i += 1;
    }
    assert(a@ =~= b@);
    true
}

/// Append all of `src` to `dst`.
pub fn append_bytes(dst: &mut Vec<u8>, src: &[u8])
    ensures
        final(dst)@ == old(dst)@ + src@,
{
    let mut i: usize = 0;
    while i < src.len()
        invariant
            i <= src@.len(),
            dst@ == old(dst)@ + src@.subrange(0, i as int),
        decreases src@.len() - i,
    {
        dst.push(src[i]);
        proof {
            assert(src@.subrange(0, i + 1) =~= src@.subrange(0, i as int).push(src@[i as int]));
            assert(dst@ =~= old(dst)@ + src@.subrange(0, i + 1));
        }
        i += 1;
    }
    assert(src@.subrange(0, src@.len() as int) =~= src@);
    assert(dst@ =~= old(dst)@ + src@);
}

/// Copy a slice into a fresh vector.
pub fn copy_bytes(s: &[u8]) -> (r: Vec<u8>)
    ensures
        r@ == s@,
{
    let mut out: Vec<u8> = Vec::new();
    append_bytes(&mut out, s);
    out
}

/// Trim ASCII whitespace from both ends of `s[lo..hi]`, returning the new
/// bounds.
pub fn trim_range(s: &[u8], lo: usize, hi: usize) -> (r: (usize, usize))
    requires
        lo <= hi <= s@.len(),
    ensures
        lo <= r.0 <= r.1 <= hi,
        forall|j: int| lo <= j < r.0 ==> space(#[trigger] s@[j]),
        forall|j: int| r.1 <= j < hi ==> space(#[trigger] s@[j]),
        r.0 < r.1 ==> !space(s@[r.0 as int]) && !space(s@[r.1 - 1]),
        r.0 == r.1 ==> r.1 == hi,
        r.0 < hi ==> !space(s@[r.0 as int]),
{
    let mut a = lo;
    while a < hi && space(s[a])
        invariant
            lo <= a <= hi,
            forall|j: int| lo <= j < a ==> space(#[trigger] s@[j]),
        decreases hi - a,
    {
        a += 1;
    }
    let mut b = hi;
    while b > a && space(s[b - 1])
        invariant
            a <= b <= hi,
            forall|j: int| b <= j < hi ==> space(#[trigger] s@[j]),
        decreases b,
    {
        b -= 1;
    }
    (a, b)
}


} // verus!
