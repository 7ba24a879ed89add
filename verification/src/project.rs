//! Project-file discovery: import remappings and the project root. These sit
//! at the interface boundary of the toolchain core: the embedding process
//! reads the files and directory listings, and the decisions are taken here.
use vstd::prelude::*;

use crate::bytes::{bytes_eq, copy_bytes, find_byte_from, is_space, trim_range};

verus! {

/// One import remapping: sources under `prefix` resolve under `target`.
#[derive(Debug)]
pub struct Remapping {
    pub prefix: Vec<u8>,
    pub target: Vec<u8>,
}

/// Two remappings with the same prefix and target are the same mapping.
pub open spec fn same_remapping(a: Remapping, b: Remapping) -> bool {
    a.prefix@ == b.prefix@ && a.target@ == b.target@
}

/// No two entries of `v` are the same mapping.
pub open spec fn distinct_remappings(v: Seq<Remapping>) -> bool {
    forall|k1: int, k2: int|
        0 <= k1 < k2 < v.len() ==> !same_remapping(#[trigger] v[k1], #[trigger] v[k2])
}

/// The (prefix, target) pairs of a remapping list.
pub open spec fn remap_pairs(v: Seq<Remapping>) -> Seq<(Seq<u8>, Seq<u8>)> {
    v.map_values(|rm: Remapping| (rm.prefix@, rm.target@))
}

// --- Deterministic scanning specs ----------------------------------------

/// First index of byte `b` at or after `from`; the length when absent.
pub open spec fn first_byte_at(s: Seq<u8>, b: u8, from: int) -> int
    decreases s.len() - from,
    when 0 <= from <= s.len()
{
    if from >= s.len() {
        s.len() as int
    } else if s[from] == b {
        from
    } else {
        first_byte_at(s, b, from + 1)
    }
}

pub proof fn lemma_first_byte_char(s: Seq<u8>, b: u8, from: int)
    requires
        0 <= from <= s.len(),
    ensures
        from <= first_byte_at(s, b, from) <= s.len(),
        forall|j: int| from <= j < first_byte_at(s, b, from) ==> s[j] != b,
        first_byte_at(s, b, from) < s.len() ==> s[first_byte_at(s, b, from)] == b,
    decreases s.len() - from,
{
    if from < s.len() && s[from] != b {
        lemma_first_byte_char(s, b, from + 1);
    }
}

/// Any index with the first-occurrence properties is `first_byte_at`.
pub proof fn lemma_first_byte_unique(s: Seq<u8>, b: u8, from: int, r: int)
    requires
        0 <= from <= r <= s.len(),
        forall|j: int| from <= j < r ==> s[j] != b,
        r < s.len() ==> s[r] == b,
    ensures
        r == first_byte_at(s, b, from),
{
    lemma_first_byte_char(s, b, from);
    let fb = first_byte_at(s, b, from);
    if r < fb {
        assert(s[r] != b);
    }
    if fb < r {
        assert(s[fb] != b);
    }
}

/// First non-whitespace index in `[i, hi)`; `hi` when it is all whitespace.
pub open spec fn skip_sp(s: Seq<u8>, i: int, hi: int) -> int
    decreases hi - i,
    when 0 <= i <= hi <= s.len()
{
    if i >= hi || !is_space(s[i]) {
        i
    } else {
        skip_sp(s, i + 1, hi)
    }
}

pub proof fn lemma_skip_sp_unique(s: Seq<u8>, lo: int, hi: int, r: int)
    requires
        0 <= lo <= r <= hi <= s.len(),
        forall|j: int| lo <= j < r ==> is_space(#[trigger] s[j]),
        r < hi ==> !is_space(s[r]),
    ensures
        r == skip_sp(s, lo, hi),
    decreases r - lo,
{
    if lo < r {
        lemma_skip_sp_unique(s, lo + 1, hi, r);
    }
}

/// One past the last non-whitespace index in `[lo, i)`; `lo` when it is all
/// whitespace.
pub open spec fn rstrip_sp(s: Seq<u8>, lo: int, i: int) -> int
    decreases i - lo,
    when 0 <= lo <= i <= s.len()
{
    if i <= lo || !is_space(s[i - 1]) {
        i
    } else {
        rstrip_sp(s, lo, i - 1)
    }
}

pub proof fn lemma_rstrip_sp_unique(s: Seq<u8>, lo: int, hi: int, r: int)
    requires
        0 <= lo <= r <= hi <= s.len(),
        forall|j: int| r <= j < hi ==> is_space(#[trigger] s[j]),
        r > lo ==> !is_space(s[r - 1]),
    ensures
        r == rstrip_sp(s, lo, hi),
    decreases hi - r,
{
    if r < hi {
        lemma_rstrip_sp_unique(s, lo, hi - 1, r);
    }
}

/// First non-quote index in `[i, hi)`.
pub open spec fn skip_q(s: Seq<u8>, i: int, hi: int) -> int
    decreases hi - i,
    when 0 <= i <= hi <= s.len()
{
    if i >= hi || s[i] != 34 {
        i
    } else {
        skip_q(s, i + 1, hi)
    }
}

pub proof fn lemma_skip_q_unique(s: Seq<u8>, lo: int, hi: int, r: int)
    requires
        0 <= lo <= r <= hi <= s.len(),
        forall|j: int| lo <= j < r ==> s[j] == 34,
        r < hi ==> s[r] != 34,
    ensures
        r == skip_q(s, lo, hi),
    decreases r - lo,
{
    if lo < r {
        lemma_skip_q_unique(s, lo + 1, hi, r);
    }
}

/// One past the last non-quote index in `[lo, i)`.
pub open spec fn rstrip_q(s: Seq<u8>, lo: int, i: int) -> int
    decreases i - lo,
    when 0 <= lo <= i <= s.len()
{
    if i <= lo || s[i - 1] != 34 {
        i
    } else {
        rstrip_q(s, lo, i - 1)
    }
}

pub proof fn lemma_rstrip_q_unique(s: Seq<u8>, lo: int, hi: int, r: int)
    requires
        0 <= lo <= r <= hi <= s.len(),
        forall|j: int| r <= j < hi ==> s[j] == 34,
        r > lo ==> s[r - 1] != 34,
    ensures
        r == rstrip_q(s, lo, hi),
    decreases hi - r,
{
    if r < hi {
        lemma_rstrip_q_unique(s, lo, hi - 1, r);
    }
}

/// What one line of a remappings document denotes: trimmed, it must consist
/// of a prefix and a target joined by exactly one '='; both sides trimmed.
pub open spec fn line_remap(s: Seq<u8>, lo: int, hi: int) -> Option<(Seq<u8>, Seq<u8>)> {
    let tl = skip_sp(s, lo, hi);
    let th = rstrip_sp(s, tl, hi);
    let eq = first_byte_at(s, 61, tl);
    if eq >= th {
        None
    } else if first_byte_at(s, 61, eq + 1) < th {
        None
    } else {
        let pl = skip_sp(s, tl, eq);
        let ph = rstrip_sp(s, pl, eq);
        let gl = skip_sp(s, eq + 1, th);
        let gh = rstrip_sp(s, gl, th);
        Some((s.subrange(pl, ph), s.subrange(gl, gh)))
    }
}

/// The remappings a remappings.txt document denotes, from byte `cur` on:
/// one pair per line that `line_remap` accepts, in line order.
pub open spec fn txt_remaps(s: Seq<u8>, cur: int) -> Seq<(Seq<u8>, Seq<u8>)>
    decreases s.len() - cur,
    when 0 <= cur <= s.len()
    via txt_remaps_dec
{
    if cur >= s.len() {
        Seq::empty()
    } else {
        let le = first_byte_at(s, 10, cur);
        let head = match line_remap(s, cur, le) {
            Some(p) => seq![p],
            None => Seq::empty(),
        };
        head + txt_remaps(
            s,
            if le < s.len() {
                le + 1
            } else {
                le
            },
        )
    }
}

#[via_fn]
proof fn txt_remaps_dec(s: Seq<u8>, cur: int) {
    if 0 <= cur < s.len() {
        lemma_first_byte_char(s, 10, cur);
    }
}

/// "[remappings]"
pub open spec fn bracket_remappings() -> Seq<u8> {
    seq![91u8, 114, 101, 109, 97, 112, 112, 105, 110, 103, 115, 93]
}

/// The remappings a foundry.toml document denotes, from byte `cur` on:
/// inside the `[remappings]` section, each line (one layer of quotes
/// stripped) that `line_remap` accepts is a pair; any other `[section]`
/// header ends the section.
pub open spec fn toml_remaps(s: Seq<u8>, cur: int, in_block: bool) -> Seq<(Seq<u8>, Seq<u8>)>
    decreases s.len() - cur,
    when 0 <= cur <= s.len()
    via toml_remaps_dec
{
    if cur >= s.len() {
        Seq::empty()
    } else {
        let le = first_byte_at(s, 10, cur);
        let nxt = if le < s.len() {
            le + 1
        } else {
            le
        };
        let tl = skip_sp(s, cur, le);
        let th = rstrip_sp(s, tl, le);
        if tl < th && s[tl] == 91 {
            toml_remaps(s, nxt, s.subrange(tl, th) == bracket_remappings())
        } else if in_block {
            let ql = skip_q(s, tl, th);
            let qh = rstrip_q(s, ql, th);
            (match line_remap(s, ql, qh) {
                Some(p) => seq![p],
                None => Seq::empty(),
            }) + toml_remaps(s, nxt, in_block)
        } else {
            toml_remaps(s, nxt, in_block)
        }
    }
}

#[via_fn]
proof fn toml_remaps_dec(s: Seq<u8>, cur: int, in_block: bool) {
    if 0 <= cur < s.len() {
        lemma_first_byte_char(s, 10, cur);
    }
}

/// The pair occurs in the list.
pub open spec fn pair_in(ps: Seq<(Seq<u8>, Seq<u8>)>, p: (Seq<u8>, Seq<u8>)) -> bool {
    exists|i: int| 0 <= i < ps.len() && ps[i] == p
}

/// The list with later duplicates dropped: each pair keeps its first
/// occurrence only.
pub open spec fn dedup_first(ps: Seq<(Seq<u8>, Seq<u8>)>) -> Seq<(Seq<u8>, Seq<u8>)>
    decreases ps.len(),
{
    if ps.len() == 0 {
        Seq::empty()
    } else {
        let d = dedup_first(ps.drop_last());
        if pair_in(d, ps.last()) {
            d
        } else {
            d.push(ps.last())
        }
    }
}

// --- The parsers ----------------------------------------------------------

/// Copy `s[lo..hi]` into a fresh vector.
fn copy_range(s: &[u8], lo: usize, hi: usize) -> (r: Vec<u8>)
    requires
        lo <= hi <= s@.len(),
    ensures
        r@ == s@.subrange(lo as int, hi as int),
{
    let mut out: Vec<u8> = Vec::new();
    let mut i = lo;
    while i < hi
        invariant
            lo <= i <= hi,
            out@ == s@.subrange(lo as int, i as int),
        decreases hi - i,
    {
        out.push(s[i]);
        proof {
            assert(s@.subrange(lo as int, i + 1) =~= s@.subrange(lo as int, i as int).push(
                s@[i as int],
            ));
        }
        i += 1;
    }
    out
}

/// Parse one line of a remappings file — exactly `line_remap`.
fn parse_remapping_line(s: &[u8], lo: usize, hi: usize) -> (r: Option<Remapping>)
    requires
        lo <= hi <= s@.len(),
    ensures
        match r {
            Some(rm) => line_remap(s@, lo as int, hi as int) == Some((rm.prefix@, rm.target@)),
            None => line_remap(s@, lo as int, hi as int) is None,
        },
{
    let (tl, th) = trim_range(s, lo, hi);
    proof {
        lemma_skip_sp_unique(s@, lo as int, hi as int, tl as int);
        lemma_rstrip_sp_unique(s@, tl as int, hi as int, th as int);
    }
    let eq = find_byte_from(s, 61, tl);
    proof {
        lemma_first_byte_unique(s@, 61, tl as int, eq as int);
    }
    if eq >= th {
        return None;
    }
    // a second '=' disqualifies the line
    let eq2 = find_byte_from(s, 61, eq + 1);
    proof {
        lemma_first_byte_unique(s@, 61, eq + 1, eq2 as int);
    }
    if eq2 < th {
        return None;
    }
    let (pl, ph) = trim_range(s, tl, eq);
    let (gl, gh) = trim_range(s, eq + 1, th);
    proof {
        lemma_skip_sp_unique(s@, tl as int, eq as int, pl as int);
        lemma_rstrip_sp_unique(s@, pl as int, eq as int, ph as int);
        lemma_skip_sp_unique(s@, eq + 1, th as int, gl as int);
        lemma_rstrip_sp_unique(s@, gl as int, th as int, gh as int);
    }
    Some(Remapping { prefix: copy_range(s, pl, ph), target: copy_range(s, gl, gh) })
}

/// Parse "prefix=target" lines from a remappings.txt document: in line
/// order, one mapping per line that splits on exactly one '=', both sides
/// trimmed; every other line is skipped. Empty input yields nothing.
pub fn parse_remappings_txt(content: &[u8]) -> (r: Vec<Remapping>)
    ensures
        remap_pairs(r@) == txt_remaps(content@, 0),
{
    let mut out: Vec<Remapping> = Vec::new();
    let mut cur: usize = 0;
    proof {
        assert(remap_pairs(out@) + txt_remaps(content@, 0) =~= txt_remaps(content@, 0));
    }
    while cur < content.len()
        invariant
            cur <= content@.len(),
            txt_remaps(content@, 0) == remap_pairs(out@) + txt_remaps(content@, cur as int),
        decreases content@.len() - cur,
    {
        let ghost pairs0 = remap_pairs(out@);
        let le = find_byte_from(content, 10, cur);
        proof {
            lemma_first_byte_unique(content@, 10, cur as int, le as int);
        }
        match parse_remapping_line(content, cur, le) {
            Some(rm) => {
                let ghost p = (rm.prefix@, rm.target@);
                out.push(rm);
                proof {
                    assert(remap_pairs(out@) =~= pairs0.push(p));
                    assert(txt_remaps(content@, cur as int) =~= seq![p] + txt_remaps(
                        content@,
                        if le < content@.len() {
                            le + 1
                        } else {
                            le as int
                        },
                    ));
                    assert(pairs0.push(p) + txt_remaps(
                        content@,
                        if le < content@.len() {
                            le + 1
                        } else {
                            le as int
                        },
                    ) =~= pairs0 + txt_remaps(content@, cur as int));
                }
            },
            None => {
                proof {
                    assert(txt_remaps(content@, cur as int) =~= Seq::empty() + txt_remaps(
                        content@,
                        if le < content@.len() {
                            le + 1
                        } else {
                            le as int
                        },
                    ));
                }
            },
        }
        cur = if le < content.len() {
            le + 1
        } else {
            le
        };
    }
    proof {
        assert(txt_remaps(content@, cur as int) =~= Seq::<(Seq<u8>, Seq<u8>)>::empty());
        assert(remap_pairs(out@) =~= txt_remaps(content@, 0));
    }
    out
}

/// Parse the `[remappings]` block of a foundry.toml document — exactly the
/// mappings `toml_remaps` denotes.
pub fn parse_foundry_toml(content: &[u8]) -> (r: Vec<Remapping>)
    ensures
        remap_pairs(r@) == toml_remaps(content@, 0, false),
{
    let header: Vec<u8> = vec![91, 114, 101, 109, 97, 112, 112, 105, 110, 103, 115, 93];
    proof {
        assert(header@ =~= bracket_remappings());
    }
    let mut out: Vec<Remapping> = Vec::new();
    let mut in_block = false;
    let mut cur: usize = 0;
    proof {
        assert(remap_pairs(out@) + toml_remaps(content@, 0, false) =~= toml_remaps(
            content@,
            0,
            false,
        ));
    }
    while cur < content.len()
        invariant
            cur <= content@.len(),
            toml_remaps(content@, 0, false) == remap_pairs(out@) + toml_remaps(
                content@,
                cur as int,
                in_block,
            ),
            header@ == bracket_remappings(),
        decreases content@.len() - cur,
    {
        let ghost pairs0 = remap_pairs(out@);
        let ghost block0 = in_block;
        let le = find_byte_from(content, 10, cur);
        proof {
            lemma_first_byte_unique(content@, 10, cur as int, le as int);
        }
        let (tl, th) = trim_range(content, cur, le);
        proof {
            lemma_skip_sp_unique(content@, cur as int, le as int, tl as int);
            lemma_rstrip_sp_unique(content@, tl as int, le as int, th as int);
        }
        let ghost nxt: int = if le < content@.len() {
            le + 1
        } else {
            le as int
        };
        if tl < th && content[tl] == 91 {
            let seg = copy_range(content, tl, th);
            in_block = bytes_eq(seg.as_slice(), header.as_slice());
            proof {
                assert(toml_remaps(content@, cur as int, block0) =~= toml_remaps(
                    content@,
                    nxt,
                    in_block,
                ));
            }
        } else if in_block {
            // strip one layer of quotes around the trimmed line
            let (ql, qh) = strip_quotes(content, tl, th);
            proof {
                lemma_skip_q_unique(content@, tl as int, th as int, ql as int);
                lemma_rstrip_q_unique(content@, ql as int, th as int, qh as int);
            }
            match parse_remapping_line(content, ql, qh) {
                Some(rm) => {
                    let ghost p = (rm.prefix@, rm.target@);
                    out.push(rm);
                    proof {
                        assert(remap_pairs(out@) =~= pairs0.push(p));
                        assert(toml_remaps(content@, cur as int, block0) =~= seq![p]
                            + toml_remaps(content@, nxt, in_block));
                        assert(pairs0.push(p) + toml_remaps(content@, nxt, in_block) =~= pairs0
                            + toml_remaps(content@, cur as int, block0));
                    }
                },
                None => {
                    proof {
                        assert(toml_remaps(content@, cur as int, block0) =~= Seq::empty()
                            + toml_remaps(content@, nxt, in_block));
                    }
                },
            }
        } else {
            proof {
                assert(toml_remaps(content@, cur as int, block0) =~= toml_remaps(
                    content@,
                    nxt,
                    in_block,
                ));
            }
        }
        cur = if le < content.len() {
            le + 1
        } else {
            le
        };
    }
    proof {
        assert(toml_remaps(content@, cur as int, in_block) =~= Seq::<(Seq<u8>, Seq<u8>)>::empty());
        assert(remap_pairs(out@) =~= toml_remaps(content@, 0, false));
    }
    out
}

/// Strip '"' bytes from both ends of `s[lo..hi]`.
fn strip_quotes(s: &[u8], lo: usize, hi: usize) -> (r: (usize, usize))
    requires
        lo <= hi <= s@.len(),
    ensures
        lo <= r.0 <= r.1 <= hi,
        forall|j: int| lo <= j < r.0 ==> s@[j] == 34,
        forall|j: int| r.1 <= j < hi ==> s@[j] == 34,
        r.0 < hi ==> s@[r.0 as int] != 34,
        r.1 > r.0 ==> s@[r.1 - 1] != 34,
{
    let mut a = lo;
    while a < hi && s[a] == 34
        invariant
            lo <= a <= hi,
            forall|j: int| lo <= j < a ==> s@[j] == 34,
        decreases hi - a,
    {
        a += 1;
    }
    let mut b = hi;
    while b > a && s[b - 1] == 34
        invariant
            a <= b <= hi,
            forall|j: int| b <= j < hi ==> s@[j] == 34,
        decreases b,
    {
        b -= 1;
    }
    (a, b)
}

/// Whether a project-root directory listing holds a hardhat config file
/// ("hardhat.config.js" or "hardhat.config.ts").
pub fn has_hardhat_config(files: &Vec<Vec<u8>>) -> (r: bool)
    ensures
        r == (exists|k: int|
            0 <= k < files@.len() && (#[trigger] files@[k]@ == hardhat_js() || files@[k]@
                == hardhat_ts())),
{
    let js: Vec<u8> = vec![
        104, 97, 114, 100, 104, 97, 116, 46, 99, 111, 110, 102, 105, 103, 46, 106, 115,
    ];
    let ts: Vec<u8> = vec![
        104, 97, 114, 100, 104, 97, 116, 46, 99, 111, 110, 102, 105, 103, 46, 116, 115,
    ];
    let mut k: usize = 0;
    while k < files.len()
        invariant
            k <= files@.len(),
            forall|j: int|
                0 <= j < k ==> !(#[trigger] files@[j]@ == hardhat_js() || files@[j]@
                    == hardhat_ts()),
        decreases files@.len() - k,
    {
        if bytes_eq(files[k].as_slice(), js.as_slice()) || bytes_eq(
            files[k].as_slice(),
            ts.as_slice(),
        ) {
            return true;
        }
        k += 1;
    }
    false
}

/// "hardhat.config.js"
pub open spec fn hardhat_js() -> Seq<u8> {
    seq![104u8, 97, 114, 100, 104, 97, 116, 46, 99, 111, 110, 102, 105, 103, 46, 106, 115]
}

/// "hardhat.config.ts"
pub open spec fn hardhat_ts() -> Seq<u8> {
    seq![104u8, 97, 114, 100, 104, 97, 116, 46, 99, 111, 110, 102, 105, 103, 46, 116, 115]
}

/// "@"
pub open spec fn hardhat_prefix() -> Seq<u8> {
    seq![64u8]
}

/// "node_modules/@"
pub open spec fn hardhat_target() -> Seq<u8> {
    seq![110u8, 111, 100, 101, 95, 109, 111, 100, 117, 108, 101, 115, 47, 64]
}

/// The combined inputs of `parse_remappings`, before duplicates drop.
pub open spec fn combined_remaps(txt: Seq<u8>, toml: Seq<u8>, hardhat: bool) -> Seq<
    (Seq<u8>, Seq<u8>),
> {
    txt_remaps(txt, 0) + toml_remaps(toml, 0, false) + (if hardhat {
        seq![(hardhat_prefix(), hardhat_target())]
    } else {
        Seq::empty()
    })
}

/// Combine the remappings of remappings.txt and foundry.toml, first source
/// first, dropping every later duplicate mapping; a hardhat project
/// contributes the "@=node_modules/@" mapping last.
pub fn parse_remappings(txt: &[u8], toml: &[u8], hardhat: bool) -> (r: Vec<Remapping>)
    ensures
        remap_pairs(r@) == dedup_first(combined_remaps(txt@, toml@, hardhat)),
        distinct_remappings(r@),
        hardhat ==> exists|k: int|
            0 <= k < r@.len() && (#[trigger] r@[k]).prefix@ == hardhat_prefix() && r@[k].target@
                == hardhat_target(),
{
    let ghost txtp = txt_remaps(txt@, 0);
    let ghost tomlp = toml_remaps(toml@, 0, false);
    let mut all: Vec<Remapping> = Vec::new();
    let from_txt = parse_remappings_txt(txt);
    proof {
        assert(txtp.take(0) =~= Seq::<(Seq<u8>, Seq<u8>)>::empty());
        assert(dedup_first(txtp.take(0)) =~= remap_pairs(all@));
    }
    let mut i: usize = 0;
    while i < from_txt.len()
        invariant
            i <= from_txt@.len(),
            remap_pairs(from_txt@) == txtp,
            distinct_remappings(all@),
            remap_pairs(all@) == dedup_first(txtp.take(i as int)),
        decreases from_txt@.len() - i,
    {
        proof {
            assert(txtp.take(i + 1).drop_last() =~= txtp.take(i as int));
            assert(txtp.take(i + 1).last() == (from_txt@[i as int].prefix@,
            from_txt@[i as int].target@));
        }
        push_unique(&mut all, &from_txt[i]);
        i += 1;
    }
    proof {
        assert(txtp.take(txtp.len() as int) =~= txtp);
        assert((txtp + tomlp).take(txtp.len() as int) =~= txtp);
    }
    let from_toml = parse_foundry_toml(toml);
    let mut j: usize = 0;
    while j < from_toml.len()
        invariant
            j <= from_toml@.len(),
            remap_pairs(from_toml@) == tomlp,
            distinct_remappings(all@),
            remap_pairs(all@) == dedup_first((txtp + tomlp).take(txtp.len() + j)),
        decreases from_toml@.len() - j,
    {
        proof {
            assert((txtp + tomlp).take(txtp.len() + j + 1).drop_last() =~= (txtp + tomlp).take(
                txtp.len() + j,
            ));
            assert((txtp + tomlp).take(txtp.len() + j + 1).last() == (
            from_toml@[j as int].prefix@,
            from_toml@[j as int].target@,
            ));
        }
        push_unique(&mut all, &from_toml[j]);
        j += 1;
    }
    proof {
        assert((txtp + tomlp).take(txtp.len() + tomlp.len() as int) =~= txtp + tomlp);
    }
    if hardhat {
        let prefix: Vec<u8> = vec![64];
        let target: Vec<u8> = vec![110, 111, 100, 101, 95, 109, 111, 100, 117, 108, 101, 115, 47,
            64];
        let rm = Remapping { prefix, target };
        proof {
            assert(rm.prefix@ =~= hardhat_prefix());
            assert(rm.target@ =~= hardhat_target());
            assert(combined_remaps(txt@, toml@, hardhat).drop_last() =~= txtp + tomlp);
            assert(combined_remaps(txt@, toml@, hardhat).last() == (
            hardhat_prefix(),
            hardhat_target(),
            ));
        }
        push_unique(&mut all, &rm);
        assert(exists|k: int|
            0 <= k < all@.len() && (#[trigger] all@[k]).prefix@ == hardhat_prefix()
                && all@[k].target@ == hardhat_target());
    } else {
        proof {
            assert(combined_remaps(txt@, toml@, hardhat) =~= txtp + tomlp);
        }
    }
    all
}

/// Append a copy of `rm` unless an equal mapping is already present — the
/// step of a first-occurrence-wins duplicates drop.
fn push_unique(all: &mut Vec<Remapping>, rm: &Remapping)
    requires
        distinct_remappings(old(all)@),
    ensures
        distinct_remappings(final(all)@),
        remap_pairs(final(all)@) == (if pair_in(
            remap_pairs(old(all)@),
            (rm.prefix@, rm.target@),
        ) {
            remap_pairs(old(all)@)
        } else {
            remap_pairs(old(all)@).push((rm.prefix@, rm.target@))
        }),
        exists|k: int| 0 <= k < final(all)@.len() && same_remapping(#[trigger] final(all)@[k], *rm),
        forall|k: int| 0 <= k < old(all)@.len() ==> final(all)@[k] == #[trigger] old(all)@[k],
        final(all)@.len() >= old(all)@.len(),
{
    let mut k: usize = 0;
    while k < all.len()
        invariant
            k <= all@.len(),
            forall|j: int| 0 <= j < k ==> !same_remapping(#[trigger] all@[j], *rm),
        decreases all@.len() - k,
    {
        if bytes_eq(all[k].prefix.as_slice(), rm.prefix.as_slice()) && bytes_eq(
            all[k].target.as_slice(),
            rm.target.as_slice(),
        ) {
            assert(same_remapping(all@[k as int], *rm));
            assert(remap_pairs(all@)[k as int] == (rm.prefix@, rm.target@));
            return;
        }
        k += 1;
    }
    proof {
        assert forall|j: int|
            0 <= j < remap_pairs(all@).len() implies #[trigger] remap_pairs(all@)[j] != (
        rm.prefix@,
        rm.target@,
        ) by {
            assert(!same_remapping(all@[j], *rm));
        }
    }
    let ghost pairs0 = remap_pairs(all@);
    let copy = Remapping { prefix: copy_bytes(rm.prefix.as_slice()), target: copy_bytes(
        rm.target.as_slice(),
    ) };
    all.push(copy);
    proof {
        assert(same_remapping(all@[all@.len() - 1], *rm));
        assert(remap_pairs(all@) =~= pairs0.push((rm.prefix@, rm.target@)));
    }
}

/// The project root over the ancestors of a source file.
///
/// `dirs[i]` are the directories from the file's own upward to the
/// filesystem root, and `has_marker[i]` says whether one of the recognised
/// project files sits in `dirs[i]`. The root is the marked directory nearest
/// the filesystem root — the last marked entry.
pub fn find_project_root(dirs: &Vec<Vec<u8>>, has_marker: &Vec<bool>) -> (r: Option<Vec<u8>>)
    requires
        dirs@.len() == has_marker@.len(),
    ensures
        match r {
            Some(d) => exists|i: int|
                {
                    &&& 0 <= i < dirs@.len()
                    &&& #[trigger] has_marker@[i]
                    &&& d@ == dirs@[i]@
                    &&& forall|j: int| i < j < dirs@.len() ==> !has_marker@[j]
                },
            None => forall|i: int| 0 <= i < has_marker@.len() ==> !(#[trigger] has_marker@[i]),
        },
{
    let mut i: usize = dirs.len();
    while i > 0
        invariant
            i <= dirs@.len(),
            forall|j: int| i <= j < dirs@.len() ==> !(#[trigger] has_marker@[j]),
        decreases i,
    {
        i -= 1;
        if has_marker[i] {
            return Some(copy_bytes(dirs[i].as_slice()));
        }
    }
    None
}

} // verus!
