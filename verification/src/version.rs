//! Numeric three-part versions and version requirements.
//!
//! A version is `major.minor.patch`, each component a canonical decimal
//! numeral. A requirement is a conjunction of comparators written with the
//! operators `=`, `>`, `>=`, `<`, `<=`, `~`, `^`, or bare (which means `^`),
//! separated by whitespace or commas; a comparator's minor and patch may be
//! omitted. Matching follows the usual caret/tilde conventions for stable
//! (pre-release-free) versions.
use vstd::prelude::*;

use crate::bytes::{
    dec_bytes, is_digit, is_space, digit, space, parse_u64_dec, lemma_dec_bytes_canonical,
    lemma_dec_bytes_value, u64_to_dec,
};

verus! {

/// ASCII '.'
pub open spec fn dot() -> u8 {
    46
}

#[derive(Clone, Copy, PartialEq, Eq, Structural, Debug)]
pub struct Version {
    pub major: u64,
    pub minor: u64,
    pub patch: u64,
}

/// The canonical rendering "major.minor.patch" of a version.
pub open spec fn version_repr(v: Version) -> Seq<u8> {
    dec_bytes(v.major as nat) + seq![dot()] + dec_bytes(v.minor as nat) + seq![dot()] + dec_bytes(
        v.patch as nat,
    )
}

/// Strict lexicographic order on (major, minor, patch).
pub open spec fn version_lt(a: Version, b: Version) -> bool {
    a.major < b.major || (a.major == b.major && (a.minor < b.minor || (a.minor == b.minor
        && a.patch < b.patch)))
}

impl Version {
    pub fn new(major: u64, minor: u64, patch: u64) -> (r: Version)
        ensures
            r == (Version { major, minor, patch }),
    {
        Version { major, minor, patch }
    }

    /// Strict lexicographic comparison.
    pub fn lt(&self, other: &Version) -> (r: bool)
        ensures
            r == version_lt(*self, *other),
    {
        self.major < other.major || (self.major == other.major && (self.minor < other.minor || (
        self.minor == other.minor && self.patch < other.patch)))
    }

    /// Render as canonical "major.minor.patch" bytes.
    pub fn render(&self) -> (r: Vec<u8>)
        ensures
            r@ == version_repr(*self),
    {
        let mut out = u64_to_dec(self.major);
        out.push(46);
        let mi = u64_to_dec(self.minor);
        let mut k: usize = 0;
        while k < mi.len()
            invariant
                k <= mi@.len(),
                out@ == dec_bytes(self.major as nat) + seq![dot()] + mi@.subrange(0, k as int),
            decreases mi@.len() - k,
        {
            out.push(mi[k]);
            proof {
                assert(mi@.subrange(0, k + 1) =~= mi@.subrange(0, k as int).push(mi@[k as int]));
                assert(out@ =~= dec_bytes(self.major as nat) + seq![dot()] + mi@.subrange(
                    0,
                    k + 1,
                ));
            }
            k += 1;
        }
        out.push(46);
        let pa = u64_to_dec(self.patch);
        let ghost head = dec_bytes(self.major as nat) + seq![dot()] + dec_bytes(self.minor as nat)
            + seq![dot()];
        proof {
            assert(mi@.subrange(0, mi@.len() as int) =~= mi@);
            assert(out@ =~= head);
        }
        let mut k2: usize = 0;
        while k2 < pa.len()
            invariant
                k2 <= pa@.len(),
                out@ == head + pa@.subrange(0, k2 as int),
            decreases pa@.len() - k2,
        {
            out.push(pa[k2]);
            proof {
                assert(pa@.subrange(0, k2 + 1) =~= pa@.subrange(0, k2 as int).push(
                    pa@[k2 as int],
                ));
                assert(out@ =~= head + pa@.subrange(0, k2 + 1));
            }
            k2 += 1;
        }
        proof {
            assert(pa@.subrange(0, pa@.len() as int) =~= pa@);
            assert(out@ =~= version_repr(*self));
        }
        out
    }
}

/// Find the first '.' in `s[from..to]`; `to` when there is none.
fn find_dot(s: &[u8], from: usize, to: usize) -> (r: usize)
    requires
        from <= to <= s@.len(),
    ensures
        from <= r <= to,
        forall|j: int| from <= j < r ==> s@[j] != dot(),
        r < to ==> s@[r as int] == dot(),
{
    let mut i: usize = from;
    while i < to
        invariant
            from <= i <= to,
            forall|j: int| from <= j < i ==> s@[j] != dot(),
        decreases to - i,
    {
        if s[i] == 46 {
            return i;
        }
        i += 1;
    }
    i
}

/// Parse `s[lo..hi]` as a canonical "major.minor.patch" version. Succeeds
/// exactly when that range is the rendering of some version.
pub fn parse_version(s: &[u8], lo: usize, hi: usize) -> (r: Option<Version>)
    requires
        lo <= hi <= s@.len(),
    ensures
        match r {
            Some(v) => s@.subrange(lo as int, hi as int) == version_repr(v),
            None => forall|v: Version| s@.subrange(lo as int, hi as int) != version_repr(v),
        },
{
    let ghost sub = s@.subrange(lo as int, hi as int);
    proof {
        lemma_repr_dots();
    }
    let i = find_dot(s, lo, hi);
    if i == hi {
        assert forall|v: Version| sub != version_repr(v) by {
            if sub == version_repr(v) {
                lemma_version_dot_positions(s@, lo as int, hi as int, v, i as int);
                lemma_dec_bytes_canonical(v.minor as nat);
                assert(sub.len() == version_repr(v).len());
            }
        }
        return None;
    }
    let j = find_dot(s, i + 1, hi);
    if j == hi {
        assert forall|v: Version| sub != version_repr(v) by {
            if sub == version_repr(v) {
                lemma_version_dot_positions(s@, lo as int, hi as int, v, i as int);
                let a = dec_bytes(v.major as nat);
                let b = dec_bytes(v.minor as nat);
                assert(sub[a.len() + 1 + b.len() as int] == dot());
                assert(s@[lo + a.len() + 1 + b.len()] == dot());
            }
        }
        return None;
    }
    let k = find_dot(s, j + 1, hi);
    if k < hi {
        assert forall|v: Version| sub != version_repr(v) by {
            if sub == version_repr(v) {
                lemma_version_dot_positions(s@, lo as int, hi as int, v, i as int);
                lemma_version_second_dot(s@, lo as int, hi as int, v, i as int, j as int);
                let a = dec_bytes(v.major as nat);
                let b = dec_bytes(v.minor as nat);
                let c = dec_bytes(v.patch as nat);
                lemma_dec_bytes_canonical(v.patch as nat);
                assert(sub.len() == version_repr(v).len());
                assert(sub[k - lo] == c[k - lo - (a.len() + 1 + b.len() + 1)]);
                assert(is_digit(sub[k - lo]));
            }
        }
        return None;
    }
    let ma = parse_u64_dec(s, lo, i);
    let mi = parse_u64_dec(s, i + 1, j);
    let pa = parse_u64_dec(s, j + 1, hi);
    match (ma, mi, pa) {
        (Some(ma), Some(mi), Some(pa)) => {
            let v = Version { major: ma, minor: mi, patch: pa };
            proof {
                assert(sub =~= s@.subrange(lo as int, i as int) + seq![dot()] + s@.subrange(
                    i + 1,
                    j as int,
                ) + seq![dot()] + s@.subrange(j + 1, hi as int));
            }
            Some(v)
        },
        _ => {
            assert forall|v: Version| sub != version_repr(v) by {
                if sub == version_repr(v) {
                    lemma_version_dot_positions(s@, lo as int, hi as int, v, i as int);
                    lemma_version_second_dot(s@, lo as int, hi as int, v, i as int, j as int);
                    let a = dec_bytes(v.major as nat);
                    let b = dec_bytes(v.minor as nat);
                    let c = dec_bytes(v.patch as nat);
                    assert(sub.len() == version_repr(v).len());
                    assert forall|t: int| 0 <= t < a.len() implies s@.subrange(
                        lo as int,
                        i as int,
                    )[t] == a[t] by {
                        assert(sub[t] == s@[lo + t]);
                        assert(version_repr(v)[t] == a[t]);
                    }
                    assert(s@.subrange(lo as int, i as int) =~= a);
                    assert forall|t: int| 0 <= t < b.len() implies s@.subrange(i + 1, j as int)[t]
                        == b[t] by {
                        assert(sub[i + 1 + t - lo] == s@[i + 1 + t]);
                        assert(version_repr(v)[a.len() + 1 + t] == b[t]);
                    }
                    assert(s@.subrange(i + 1, j as int) =~= b);
                    assert forall|t: int| 0 <= t < c.len() implies s@.subrange(j + 1, hi as int)[t]
                        == c[t] by {
                        assert(sub[j + 1 + t - lo] == s@[j + 1 + t]);
                        assert(version_repr(v)[a.len() + 1 + b.len() + 1 + t] == c[t]);
                    }
                    assert(s@.subrange(j + 1, hi as int) =~= c);
                }
            }
            None
        },
    }
}

/// A rendered numeral never contains a dot.
proof fn lemma_repr_dots()
    ensures
        forall|n: nat, t: int|
            0 <= t < dec_bytes(n).len() ==> #[trigger] dec_bytes(n)[t] != dot(),
{
    assert forall|n: nat, t: int|
        0 <= t < dec_bytes(n).len() implies #[trigger] dec_bytes(n)[t] != dot() by {
        lemma_dec_bytes_canonical(n);
        assert(is_digit(dec_bytes(n)[t]));
    }
}

/// In `s[lo..hi] == version_repr(v)`, the first dot of the range sits right
/// after the major numeral.
proof fn lemma_version_dot_positions(s: Seq<u8>, lo: int, hi: int, v: Version, i: int)
    requires
        0 <= lo <= hi <= s.len(),
        s.subrange(lo, hi) == version_repr(v),
        lo <= i <= hi,
        forall|j: int| lo <= j < i ==> s[j] != dot(),
        i < hi ==> s[i] == dot(),
    ensures
        i == lo + dec_bytes(v.major as nat).len(),
{
    lemma_repr_dots();
    lemma_dec_bytes_canonical(v.major as nat);
    lemma_dec_bytes_canonical(v.minor as nat);
    lemma_dec_bytes_canonical(v.patch as nat);
    let sub = s.subrange(lo, hi);
    let a = dec_bytes(v.major as nat);
    assert(sub.len() == version_repr(v).len());
    assert(a.len() < sub.len());
    assert(sub[a.len() as int] == dot());
    assert(s[lo + a.len()] == sub[a.len() as int]);
    if i < lo + a.len() {
        assert(sub[i - lo] == a[i - lo]);
        assert(sub[i - lo] != dot());
        assert(s[i] == sub[i - lo]);
    }
}

/// Likewise, the second dot sits right after the minor numeral.
proof fn lemma_version_second_dot(s: Seq<u8>, lo: int, hi: int, v: Version, i: int, j: int)
    requires
        0 <= lo <= hi <= s.len(),
        s.subrange(lo, hi) == version_repr(v),
        i == lo + dec_bytes(v.major as nat).len(),
        i + 1 <= j <= hi,
        forall|t: int| i + 1 <= t < j ==> s[t] != dot(),
        j < hi ==> s[j] == dot(),
    ensures
        j == i + 1 + dec_bytes(v.minor as nat).len(),
{
    lemma_repr_dots();
    lemma_dec_bytes_canonical(v.major as nat);
    lemma_dec_bytes_canonical(v.minor as nat);
    lemma_dec_bytes_canonical(v.patch as nat);
    let sub = s.subrange(lo, hi);
    let a = dec_bytes(v.major as nat);
    let b = dec_bytes(v.minor as nat);
    assert(sub.len() == version_repr(v).len());
    assert(a.len() + 1 + b.len() < sub.len());
    assert(sub[a.len() + 1 + b.len() as int] == dot());
    assert(s[lo + a.len() + 1 + b.len()] == sub[a.len() + 1 + b.len() as int]);
    if j < i + 1 + b.len() {
        assert(sub[j - lo] == b[j - lo - a.len() - 1]);
        assert(s[j] == sub[j - lo]);
    }
}

/// A byte string renders at most one version.
pub proof fn lemma_version_repr_injective(v1: Version, v2: Version)
    requires
        version_repr(v1) == version_repr(v2),
    ensures
        v1 == v2,
{
    lemma_repr_dots();
    lemma_dec_bytes_canonical(v1.major as nat);
    lemma_dec_bytes_canonical(v1.minor as nat);
    lemma_dec_bytes_canonical(v1.patch as nat);
    lemma_dec_bytes_canonical(v2.major as nat);
    lemma_dec_bytes_canonical(v2.minor as nat);
    lemma_dec_bytes_canonical(v2.patch as nat);
    let s = version_repr(v1);
    let a1 = dec_bytes(v1.major as nat);
    let a2 = dec_bytes(v2.major as nat);
    let i = a1.len() as int;
    assert(s.subrange(0, s.len() as int) =~= s);
    lemma_version_dot_positions(s, 0, s.len() as int, v1, i);
    lemma_version_dot_positions(s, 0, s.len() as int, v2, i);
    assert(a1.len() == a2.len());
    assert forall|t: int| 0 <= t < a1.len() implies a1[t] == a2[t] by {
        assert(s[t] == a1[t]);
        assert(s[t] == a2[t]);
    }
    assert(a1 =~= a2);
    lemma_dec_bytes_value(v1.major as nat);
    lemma_dec_bytes_value(v2.major as nat);
    let b1 = dec_bytes(v1.minor as nat);
    let b2 = dec_bytes(v2.minor as nat);
    let j = i + 1 + b1.len() as int;
    lemma_version_second_dot(s, 0, s.len() as int, v1, i, j);
    lemma_version_second_dot(s, 0, s.len() as int, v2, i, j);
    assert(b1.len() == b2.len());
    assert forall|t: int| 0 <= t < b1.len() implies b1[t] == b2[t] by {
        assert(s[i + 1 + t] == b1[t]);
        assert(s[i + 1 + t] == b2[t]);
    }
    assert(b1 =~= b2);
    lemma_dec_bytes_value(v1.minor as nat);
    lemma_dec_bytes_value(v2.minor as nat);
    let c1 = dec_bytes(v1.patch as nat);
    let c2 = dec_bytes(v2.patch as nat);
    assert(c1.len() == c2.len());
    assert forall|t: int| 0 <= t < c1.len() implies c1[t] == c2[t] by {
        assert(s[j + 1 + t] == c1[t]);
        assert(s[j + 1 + t] == c2[t]);
    }
    assert(c1 =~= c2);
    lemma_dec_bytes_value(v1.patch as nat);
    lemma_dec_bytes_value(v2.patch as nat);
}

#[derive(Clone, Copy, PartialEq, Eq, Structural, Debug)]
pub enum Op {
    Exact,
    Greater,
    GreaterEq,
    Less,
    LessEq,
    Tilde,
    Caret,
}

/// One comparator of a requirement; minor and patch may be left open.
#[derive(Clone, Copy, Debug)]
pub struct Comparator {
    pub op: Op,
    pub major: u64,
    pub minor: Option<u64>,
    pub patch: Option<u64>,
}

/// Comparator match on a stable version: `=` and the orderings compare only
/// the components that are present; `~` fixes major (and minor when present)
/// and lets patch grow; `^` permits compatible upgrades, treating a zero
/// major (and zero minor) as its own compatibility series.
pub open spec fn cmp_matches(c: Comparator, v: Version) -> bool {
    match c.op {
        Op::Exact => matches_exact(c, v),
        Op::Greater => matches_greater(c, v),
        Op::GreaterEq => matches_exact(c, v) || matches_greater(c, v),
        Op::Less => matches_less(c, v),
        Op::LessEq => matches_exact(c, v) || matches_less(c, v),
        Op::Tilde => matches_tilde(c, v),
        Op::Caret => matches_caret(c, v),
    }
}

pub open spec fn matches_exact(c: Comparator, v: Version) -> bool {
    v.major == c.major && (match c.minor {
        Some(mi) => v.minor == mi,
        None => true,
    }) && (match c.patch {
        Some(pa) => v.patch == pa,
        None => true,
    })
}

pub open spec fn matches_greater(c: Comparator, v: Version) -> bool {
    if v.major != c.major {
        v.major > c.major
    } else {
        match c.minor {
            None => false,
            Some(mi) => if v.minor != mi {
                v.minor > mi
            } else {
                match c.patch {
                    None => false,
                    Some(pa) => v.patch > pa,
                }
            },
        }
    }
}

pub open spec fn matches_less(c: Comparator, v: Version) -> bool {
    if v.major != c.major {
        v.major < c.major
    } else {
        match c.minor {
            None => false,
            Some(mi) => if v.minor != mi {
                v.minor < mi
            } else {
                match c.patch {
                    None => false,
                    Some(pa) => v.patch < pa,
                }
            },
        }
    }
}

pub open spec fn matches_tilde(c: Comparator, v: Version) -> bool {
    v.major == c.major && (match c.minor {
        Some(mi) => v.minor == mi,
        None => true,
    }) && (match c.patch {
        Some(pa) => v.patch >= pa,
        None => true,
    })
}

pub open spec fn matches_caret(c: Comparator, v: Version) -> bool {
    v.major == c.major && (match (c.minor, c.patch) {
        (None, _) => true,
        (Some(mi), None) => if c.major > 0 {
            v.minor >= mi
        } else {
            v.minor == mi
        },
        (Some(mi), Some(pa)) => if c.major > 0 {
            v.minor > mi || (v.minor == mi && v.patch >= pa)
        } else if mi > 0 {
            v.minor == mi && v.patch >= pa
        } else {
            v.minor == mi && v.patch == pa
        },
    })
}

impl Comparator {
    pub fn matches_version(&self, v: &Version) -> (r: bool)
        ensures
            r == cmp_matches(*self, *v),
    {
        match self.op {
            Op::Exact => self.exact_matches(v),
            Op::Greater => self.greater_matches(v),
            Op::GreaterEq => self.exact_matches(v) || self.greater_matches(v),
            Op::Less => self.less_matches(v),
            Op::LessEq => self.exact_matches(v) || self.less_matches(v),
            Op::Tilde => {
                let minor_ok = match self.minor {
                    Some(mi) => v.minor == mi,
                    None => true,
                };
                let patch_ok = match self.patch {
                    Some(pa) => v.patch >= pa,
                    None => true,
                };
                v.major == self.major && minor_ok && patch_ok
            },
            Op::Caret => {
                if v.major != self.major {
                    false
                } else {
                    match (self.minor, self.patch) {
                        (None, _) => true,
                        (Some(mi), None) => if self.major > 0 {
                            v.minor >= mi
                        } else {
                            v.minor == mi
                        },
                        (Some(mi), Some(pa)) => if self.major > 0 {
                            v.minor > mi || (v.minor == mi && v.patch >= pa)
                        } else if mi > 0 {
                            v.minor == mi && v.patch >= pa
                        } else {
                            v.minor == mi && v.patch == pa
                        },
                    }
                }
            },
        }
    }

    fn exact_matches(&self, v: &Version) -> (r: bool)
        ensures
            r == matches_exact(*self, *v),
    {
        let minor_ok = match self.minor {
            Some(mi) => v.minor == mi,
            None => true,
        };
        let patch_ok = match self.patch {
            Some(pa) => v.patch == pa,
            None => true,
        };
        v.major == self.major && minor_ok && patch_ok
    }

    fn greater_matches(&self, v: &Version) -> (r: bool)
        ensures
            r == matches_greater(*self, *v),
    {
        if v.major != self.major {
            v.major > self.major
        } else {
            match self.minor {
                None => false,
                Some(mi) => if v.minor != mi {
                    v.minor > mi
                } else {
                    match self.patch {
                        None => false,
                        Some(pa) => v.patch > pa,
                    }
                },
            }
        }
    }

    fn less_matches(&self, v: &Version) -> (r: bool)
        ensures
            r == matches_less(*self, *v),
    {
        if v.major != self.major {
            v.major < self.major
        } else {
            match self.minor {
                None => false,
                Some(mi) => if v.minor != mi {
                    v.minor < mi
                } else {
                    match self.patch {
                        None => false,
                        Some(pa) => v.patch < pa,
                    }
                },
            }
        }
    }
}

/// Separator between comparators: whitespace or comma.
pub open spec fn is_sep(b: u8) -> bool {
    is_space(b) || b == 44
}

fn sep(b: u8) -> (r: bool)
    ensures
        r == is_sep(b),
{
    space(b) || b == 44
}

/// Length of the operator prefix a token starts with; 0 for a bare token.
pub open spec fn spec_op_len(s: Seq<u8>) -> int {
    if s.len() == 0 {
        0
    } else if s[0] == 62 || s[0] == 60 {
        if s.len() >= 2 && s[1] == 61 {
            2
        } else {
            1
        }
    } else if s[0] == 61 || s[0] == 126 || s[0] == 94 {
        1
    } else {
        0
    }
}

/// The operator a token is written with; a bare token means caret.
pub open spec fn spec_op_of(s: Seq<u8>) -> Op {
    if s.len() == 0 {
        Op::Caret
    } else if s[0] == 61 {
        Op::Exact
    } else if s[0] == 62 {
        if s.len() >= 2 && s[1] == 61 {
            Op::GreaterEq
        } else {
            Op::Greater
        }
    } else if s[0] == 60 {
        if s.len() >= 2 && s[1] == 61 {
            Op::LessEq
        } else {
            Op::Less
        }
    } else if s[0] == 126 {
        Op::Tilde
    } else {
        Op::Caret
    }
}

/// The version part of a comparator: major, optionally ".minor", optionally
/// ".patch", each a canonical numeral.
pub open spec fn version_part(s: Seq<u8>, c: Comparator) -> bool {
    part_shape(s, c.major, c.minor, c.patch)
}

/// `s` is exactly the comparator `c` written out.
pub open spec fn is_comparator_token(s: Seq<u8>, c: Comparator) -> bool {
    c.op == spec_op_of(s) && version_part(s.skip(spec_op_len(s)), c)
}

/// If a dot-free stretch of length `alen` is followed by a dot, the first dot
/// found from `lo` is exactly at `lo + alen`.
proof fn lemma_first_dot_pos(s: Seq<u8>, lo: int, hi: int, alen: int, i: int)
    requires
        0 <= lo,
        0 <= alen,
        lo + alen < hi <= s.len(),
        forall|t: int| 0 <= t < alen ==> #[trigger] s[lo + t] != dot(),
        s[lo + alen] == dot(),
        lo <= i <= hi,
        forall|j: int| lo <= j < i ==> s[j] != dot(),
        i < hi ==> s[i] == dot(),
    ensures
        i == lo + alen,
{
    if i < lo + alen {
        assert(s[lo + (i - lo)] != dot());
    }
    if i > lo + alen {
        assert(s[lo + alen] != dot());
    }
}

/// Shape of a comparator's version part with the given components: major,
/// optionally ".minor", optionally ".patch", each a canonical numeral.
pub open spec fn part_shape(s: Seq<u8>, ma: u64, mi: Option<u64>, pa: Option<u64>) -> bool {
    match (mi, pa) {
        (None, None) => s == dec_bytes(ma as nat),
        (Some(m), None) => s == dec_bytes(ma as nat) + seq![dot()] + dec_bytes(m as nat),
        (Some(m), Some(p)) => s == dec_bytes(ma as nat) + seq![dot()] + dec_bytes(m as nat)
            + seq![dot()] + dec_bytes(p as nat),
        (None, Some(_)) => false,
    }
}

/// Parse `s[lo..hi]` as a version part. Succeeds exactly when the range has
/// the shape of some component triple.
#[verifier::rlimit(100)]
fn parse_version_part(s: &[u8], lo: usize, hi: usize) -> (r: Option<
    (u64, Option<u64>, Option<u64>),
>)
    requires
        lo <= hi <= s@.len(),
    ensures
        match r {
            Some(t) => part_shape(s@.subrange(lo as int, hi as int), t.0, t.1, t.2) && !(t.1
                is None && t.2 is Some),
            None => forall|ma: u64, mi: Option<u64>, pa: Option<u64>|
                !part_shape(s@.subrange(lo as int, hi as int), ma, mi, pa),
        },
{
    let ghost sub = s@.subrange(lo as int, hi as int);
    proof {
        lemma_repr_dots();
    }
    let i = find_dot(s, lo, hi);
    if i == hi {
        // no dot: the whole range must be the major numeral
        match parse_u64_dec(s, lo, hi) {
            Some(ma) => {
                return Some((ma, None, None));
            },
            None => {
                assert forall|ma: u64, mi: Option<u64>, pa: Option<u64>|
                    !part_shape(sub, ma, mi, pa) by {
                    if part_shape(sub, ma, mi, pa) {
                        lemma_dec_bytes_canonical(ma as nat);
                        let a = dec_bytes(ma as nat);
                        if mi is Some {
                            let b = dec_bytes(mi.unwrap() as nat);
                            if pa is Some {
                                let pc = dec_bytes(pa.unwrap() as nat);
                                assert(sub.len() == a.len() + 1 + b.len() + 1 + pc.len());
                            } else {
                                assert(sub.len() == a.len() + 1 + b.len());
                            }
                            assert(sub[a.len() as int] == dot());
                            assert(s@[lo + a.len()] == sub[a.len() as int]);
                        }
                    }
                }
                return None;
            },
        }
    }
    // at least one dot: the major numeral runs up to it
    let ma_opt = parse_u64_dec(s, lo, i);
    proof {
        assert forall|ma: u64, mi: Option<u64>, pa: Option<u64>|
            part_shape(sub, ma, mi, pa) implies mi is Some && i == lo + dec_bytes(
            ma as nat,
        ).len() by {
            lemma_dec_bytes_canonical(ma as nat);
            let a = dec_bytes(ma as nat);
            if mi is None {
                assert(sub[i - lo] == a[i - lo]);
                assert(s@[i as int] == sub[i - lo]);
            } else {
                assert forall|t: int| 0 <= t < a.len() implies #[trigger] s@[lo + t]
                    != dot() by {
                    assert(sub[t] == a[t]);
                    assert(s@[lo + t] == sub[t]);
                }
                assert(s@[lo + a.len() as int] == sub[a.len() as int]);
                lemma_first_dot_pos(s@, lo as int, hi as int, a.len() as int, i as int);
            }
        }
    }
    if ma_opt.is_none() {
        assert forall|ma: u64, mi: Option<u64>, pa: Option<u64>|
            !part_shape(sub, ma, mi, pa) by {
            if part_shape(sub, ma, mi, pa) {
                let a = dec_bytes(ma as nat);
                assert(s@.subrange(lo as int, i as int) =~= a);
            }
        }
        return None;
    }
    let ma = ma_opt.unwrap();
    let j = find_dot(s, i + 1, hi);
    if j == hi {
        // one dot: major.minor
        match parse_u64_dec(s, i + 1, hi) {
            Some(mi) => {
                proof {
                    assert(sub =~= s@.subrange(lo as int, i as int) + seq![dot()] + s@.subrange(
                        i + 1,
                        hi as int,
                    ));
                }
                return Some((ma, Some(mi), None));
            },
            None => {
                assert forall|ma2: u64, mi: Option<u64>, pa: Option<u64>|
                    !part_shape(sub, ma2, mi, pa) by {
                    if part_shape(sub, ma2, mi, pa) {
                        let a = dec_bytes(ma2 as nat);
                        let b = dec_bytes(mi.unwrap() as nat);
                        lemma_dec_bytes_canonical(mi.unwrap() as nat);
                        if pa is Some {
                            // a second dot would have been found
                            assert(sub[a.len() + 1 + b.len() as int] == dot());
                            assert(s@[lo + a.len() + 1 + b.len()] == sub[a.len() + 1
                                + b.len() as int]);
                        } else {
                            assert forall|t: int| 0 <= t < b.len() implies s@.subrange(
                                i + 1,
                                hi as int,
                            )[t] == b[t] by {
                                assert(sub[a.len() + 1 + t] == b[t]);
                                assert(sub[i + 1 + t - lo] == s@[i + 1 + t]);
                            }
                            assert(s@.subrange(i + 1, hi as int) =~= b);
                        }
                    }
                }
                return None;
            },
        }
    }
    // two dots: major.minor.patch; a third dot is malformed
    proof {
        assert forall|ma2: u64, mi: Option<u64>, pa: Option<u64>|
            part_shape(sub, ma2, mi, pa) implies pa is Some && j == i + 1 + dec_bytes(
            mi.unwrap() as nat,
        ).len() by {
            let a = dec_bytes(ma2 as nat);
            let b = dec_bytes(mi.unwrap() as nat);
            lemma_dec_bytes_canonical(mi.unwrap() as nat);
            if pa is None {
                // shape major.minor has no second dot, yet one was found
                assert(sub[j - lo] == b[j - lo - (a.len() + 1)]);
                assert(s@[j as int] == sub[j - lo]);
            } else {
                assert forall|t: int| 0 <= t < b.len() implies #[trigger] s@[i + 1 + t]
                    != dot() by {
                    assert(sub[a.len() + 1 + t] == b[t]);
                    assert(sub[i + 1 + t - lo] == s@[i + 1 + t]);
                }
                assert(s@[i + 1 + b.len() as int] == sub[a.len() + 1 + b.len() as int]);
                lemma_first_dot_pos(s@, i + 1, hi as int, b.len() as int, j as int);
            }
        }
    }
    let k = find_dot(s, j + 1, hi);
    if k < hi {
        assert forall|ma2: u64, mi: Option<u64>, pa: Option<u64>|
            !part_shape(sub, ma2, mi, pa) by {
            if part_shape(sub, ma2, mi, pa) {
                let a = dec_bytes(ma2 as nat);
                let b = dec_bytes(mi.unwrap() as nat);
                let pc = dec_bytes(pa.unwrap() as nat);
                lemma_dec_bytes_canonical(pa.unwrap() as nat);
                assert(sub[k - lo] == pc[k - lo - (a.len() + 1 + b.len() + 1)]);
                assert(s@[k as int] == sub[k - lo]);
            }
        }
        return None;
    }
    let mi_opt = parse_u64_dec(s, i + 1, j);
    let pa_opt = parse_u64_dec(s, j + 1, hi);
    match (mi_opt, pa_opt) {
        (Some(mi), Some(pa)) => {
            proof {
                assert(sub =~= s@.subrange(lo as int, i as int) + seq![dot()] + s@.subrange(
                    i + 1,
                    j as int,
                ) + seq![dot()] + s@.subrange(j + 1, hi as int));
            }
            Some((ma, Some(mi), Some(pa)))
        },
        _ => {
            assert forall|ma2: u64, mi: Option<u64>, pa: Option<u64>|
                !part_shape(sub, ma2, mi, pa) by {
                if part_shape(sub, ma2, mi, pa) {
                    let a = dec_bytes(ma2 as nat);
                    let b = dec_bytes(mi.unwrap() as nat);
                    let pc = dec_bytes(pa.unwrap() as nat);
                    assert forall|t: int| 0 <= t < b.len() implies s@.subrange(i + 1, j as int)[t]
                        == b[t] by {
                        assert(sub[a.len() + 1 + t] == b[t]);
                        assert(sub[i + 1 + t - lo] == s@[i + 1 + t]);
                    }
                    assert(s@.subrange(i + 1, j as int) =~= b);
                    assert forall|t: int| 0 <= t < pc.len() implies s@.subrange(
                        j + 1,
                        hi as int,
                    )[t] == pc[t] by {
                        assert(sub[a.len() + 1 + b.len() + 1 + t] == pc[t]);
                        assert(sub[j + 1 + t - lo] == s@[j + 1 + t]);
                    }
                    assert(s@.subrange(j + 1, hi as int) =~= pc);
                }
            }
            None
        },
    }
}

/// Parse the comparator in `s[lo..hi]`. Succeeds exactly when that range is
/// some comparator written out.
pub fn parse_comparator(s: &[u8], lo: usize, hi: usize) -> (r: Option<Comparator>)
    requires
        lo <= hi <= s@.len(),
    ensures
        match r {
            Some(c) => is_comparator_token(s@.subrange(lo as int, hi as int), c),
            None => forall|c: Comparator|
                !is_comparator_token(s@.subrange(lo as int, hi as int), c),
        },
{
    let ghost sub = s@.subrange(lo as int, hi as int);
    if lo == hi {
        assert forall|c: Comparator| !is_comparator_token(sub, c) by {
            if is_comparator_token(sub, c) {
                lemma_dec_bytes_canonical(c.major as nat);
                assert(sub.skip(0) =~= sub);
            }
        }
        return None;
    }
    let b0 = s[lo];
    let oplen: usize = if b0 == 62 || b0 == 60 {
        if lo + 1 < hi && s[lo + 1] == 61 {
            2
        } else {
            1
        }
    } else if b0 == 61 || b0 == 126 || b0 == 94 {
        1
    } else {
        0
    };
    let op = if b0 == 61 {
        Op::Exact
    } else if b0 == 62 {
        if oplen == 2 {
            Op::GreaterEq
        } else {
            Op::Greater
        }
    } else if b0 == 60 {
        if oplen == 2 {
            Op::LessEq
        } else {
            Op::Less
        }
    } else if b0 == 126 {
        Op::Tilde
    } else {
        Op::Caret
    };
    proof {
        assert(sub[0] == s@[lo as int]);
        assert(sub.len() >= 2 ==> sub[1] == s@[lo + 1]);
        assert(oplen == spec_op_len(sub));
        assert(op == spec_op_of(sub));
    }
    let vs = lo + oplen;
    proof {
        assert(sub.skip(spec_op_len(sub)) =~= s@.subrange(vs as int, hi as int));
    }
    match parse_version_part(s, vs, hi) {
        Some((ma, mi, pa)) => {
            let c = Comparator { op, major: ma, minor: mi, patch: pa };
            Some(c)
        },
        None => {
            assert forall|c: Comparator| !is_comparator_token(sub, c) by {
                if is_comparator_token(sub, c) {
                    assert(!part_shape(
                        s@.subrange(vs as int, hi as int),
                        c.major,
                        c.minor,
                        c.patch,
                    ));
                }
            }
            None
        },
    }
}

/// First index at or after `i` that ends a token: a separator or the end.
pub open spec fn token_end(s: Seq<u8>, i: int) -> int
    decreases s.len() - i,
    when 0 <= i <= s.len()
{
    if i == s.len() {
        i
    } else if is_sep(s[i]) {
        i
    } else {
        token_end(s, i + 1)
    }
}

pub proof fn lemma_token_end(s: Seq<u8>, i: int)
    requires
        0 <= i <= s.len(),
    ensures
        i <= token_end(s, i) <= s.len(),
        forall|j: int| i <= j < token_end(s, i) ==> !is_sep(#[trigger] s[j]),
        token_end(s, i) < s.len() ==> is_sep(s[token_end(s, i)]),
    decreases s.len() - i,
{
    if i < s.len() && !is_sep(s[i]) {
        lemma_token_end(s, i + 1);
    }
}

/// The maximal separator-free token ranges of `s`, from position `i` on,
/// in order.
pub open spec fn token_ranges(s: Seq<u8>, i: int) -> Seq<(int, int)>
    decreases s.len() - i,
    when 0 <= i <= s.len()
    via token_ranges_dec
{
    if i == s.len() {
        Seq::empty()
    } else if is_sep(s[i]) {
        token_ranges(s, i + 1)
    } else {
        seq![(i, token_end(s, i))] + token_ranges(s, token_end(s, i))
    }
}

#[via_fn]
proof fn token_ranges_dec(s: Seq<u8>, i: int) {
    if 0 <= i < s.len() && !is_sep(s[i]) {
        lemma_token_end(s, i);
    }
}

/// A requirement: the conjunction of its comparators.
#[derive(Clone, Debug)]
pub struct VersionReq {
    pub comparators: Vec<Comparator>,
}

pub open spec fn req_matches(r: VersionReq, v: Version) -> bool {
    forall|k: int| 0 <= k < r.comparators@.len() ==> cmp_matches(#[trigger] r.comparators@[k], v)
}

impl VersionReq {
    /// A stable version satisfies the requirement when it satisfies every
    /// comparator.
    pub fn matches_version(&self, v: &Version) -> (r: bool)
        ensures
            r == req_matches(*self, *v),
    {
        let mut k: usize = 0;
        while k < self.comparators.len()
            invariant
                k <= self.comparators@.len(),
                forall|t: int| 0 <= t < k ==> cmp_matches(#[trigger] self.comparators@[t], *v),
            decreases self.comparators@.len() - k,
        {
            if !self.comparators[k].matches_version(v) {
                return false;
            }
            k += 1;
        }
        true
    }
}

/// No comparator is written in `s`.
pub open spec fn no_comparator(s: Seq<u8>) -> bool {
    forall|c: Comparator| !is_comparator_token(s, c)
}

/// Parse the requirement written in `s[lo..hi]`: one or more comparators
/// separated by whitespace or commas. Fails exactly when there is no token
/// at all or some token is not a comparator.
pub fn parse_version_req(s: &[u8], lo: usize, hi: usize) -> (r: Option<VersionReq>)
    requires
        lo <= hi <= s@.len(),
    ensures
        ({
            let sub = s@.subrange(lo as int, hi as int);
            let toks = token_ranges(sub, 0);
            match r {
                Some(req) => toks.len() > 0 && req.comparators@.len() == toks.len() && (forall|
                    k: int,
                |
                    0 <= k < toks.len() ==> is_comparator_token(
                        sub.subrange((#[trigger] toks[k]).0, toks[k].1),
                        req.comparators@[k],
                    )),
                None => toks.len() == 0 || (exists|k: int|
                    0 <= k < toks.len() && no_comparator(
                        sub.subrange((#[trigger] toks[k]).0, toks[k].1),
                    )),
            }
        }),
{
    let ghost sub = s@.subrange(lo as int, hi as int);
    let ghost toks = token_ranges(sub, 0);
    let mut comps: Vec<Comparator> = Vec::new();
    let mut cur: usize = lo;
    proof {
        assert(toks.skip(0) =~= toks);
    }
    while cur < hi
        invariant
            lo <= cur <= hi,
            comps@.len() <= toks.len(),
            token_ranges(sub, cur - lo) == toks.skip(comps@.len() as int),
            forall|k: int|
                0 <= k < comps@.len() ==> is_comparator_token(
                    sub.subrange((#[trigger] toks[k]).0, toks[k].1),
                    comps@[k],
                ),
        decreases hi - cur,
    {
        if sep(s[cur]) {
            proof {
                assert(sub[cur - lo] == s@[cur as int]);
                assert(token_ranges(sub, cur - lo) == token_ranges(sub, cur + 1 - lo));
            }
            cur += 1;
        } else {
            let mut e: usize = cur + 1;
            proof {
                assert(sub[cur - lo] == s@[cur as int]);
            }
            while e < hi && !sep(s[e])
                invariant
                    cur < e <= hi,
                    forall|j: int| cur <= j < e ==> !is_sep(#[trigger] s@[j]),
                decreases hi - e,
            {
                e += 1;
            }
            proof {
                lemma_token_end(sub, cur - lo);
                let te = token_end(sub, cur - lo);
                assert forall|j: int| cur - lo <= j < e - lo implies !is_sep(
                    #[trigger] sub[j],
                ) by {
                    assert(sub[j] == s@[lo + j]);
                }
                if e < hi {
                    assert(sub[e - lo] == s@[e as int]);
                    assert(is_sep(sub[e - lo]));
                }
                if te < e - lo {
                    assert(!is_sep(sub[te]));
                }
                if e - lo < te {
                    assert(!is_sep(sub[e - lo]));
                }
                assert(te == e - lo);
                assert(token_ranges(sub, cur - lo) == seq![((cur - lo) as int, te)]
                    + token_ranges(sub, te));
                let k = comps@.len() as int;
                assert(toks.skip(k)[0] == toks[k]);
                assert(toks[k] == ((cur - lo) as int, (e - lo) as int));
                assert(sub.subrange(cur - lo, e - lo) =~= s@.subrange(cur as int, e as int));
            }
            match parse_comparator(s, cur, e) {
                Some(c) => {
                    proof {
                        let k = comps@.len() as int;
                        assert(toks.skip(k + 1) =~= toks.skip(k).skip(1));
                        assert(toks.skip(k).skip(1) =~= token_ranges(sub, e - lo));
                    }
                    comps.push(c);
                    cur = e;
                },
                None => {
                    proof {
                        let k = comps@.len() as int;
                        assert(0 <= k < toks.len() && no_comparator(
                            sub.subrange(toks[k].0, toks[k].1),
                        ));
                    }
                    return None;
                },
            }
        }
    }
    proof {
        assert(token_ranges(sub, hi - lo) =~= Seq::<(int, int)>::empty());
        assert(toks.skip(comps@.len() as int).len() == 0);
        assert(comps@.len() == toks.len());
    }
    if comps.len() == 0 {
        return None;
    }
    Some(VersionReq { comparators: comps })
}

} // verus!
