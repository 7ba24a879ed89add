//! The version resolver: a source file's pragma classified Exact or Range,
//! the rolling cache scanned for the best satisfying binary, and the
//! never-block resolution state machine with its detached exact-version
//! fetch.
use vstd::prelude::*;

use crate::bytes::{
    contains_seq, copy_bytes, digit, find_byte_from, find_seq, is_digit, is_space, matches_at,
    space, trim_range,
};
use crate::manager::{SolcManager, cache_filename, cache_filename_bytes, path_join, solc_prefix};
use crate::version::{
    Version, VersionReq, is_comparator_token, no_comparator, parse_version, parse_version_req,
    req_matches, token_ranges, version_lt, version_repr,
};

verus! {

/// "pragma solidity"
pub open spec fn pragma_marker() -> Seq<u8> {
    seq![112u8, 114, 97, 103, 109, 97, 32, 115, 111, 108, 105, 100, 105, 116, 121]
}

/// A source file's version constraint: pinned to one version, or a range.
#[derive(Debug)]
pub enum Pragma {
    Exact(Version),
    Range(VersionReq),
}

/// Why no constraint came out of a source file.
#[derive(Clone, Copy, PartialEq, Eq, Structural, Debug)]
pub enum PragmaError {
    /// No "pragma solidity" declaration in the file.
    NoPragma,
    /// A declaration was found but its version expression is malformed.
    PragmaParse,
}

/// `[a, b)` is the version expression of the first pragma declaration of
/// `s`: what follows the first "pragma solidity" on its line, trimmed, with
/// trailing semicolons stripped.
pub open spec fn pragma_rest_at(s: Seq<u8>, idx: int, stop: int, th: int, a: int, b: int) -> bool {
    &&& matches_at(s, pragma_marker(), idx)
    &&& (forall|j: int| 0 <= j < idx ==> !matches_at(s, pragma_marker(), j))
    &&& idx + 15 <= stop <= s.len()
    &&& (forall|j: int| idx + 15 <= j < stop ==> s[j] != 10)
    &&& (stop < s.len() ==> s[stop] == 10)
    &&& idx + 15 <= a <= th <= stop
    &&& (forall|j: int| idx + 15 <= j < a ==> is_space(#[trigger] s[j]))
    &&& (forall|j: int| th <= j < stop ==> is_space(#[trigger] s[j]))
    &&& (a < th ==> !is_space(s[a]) && !is_space(s[th - 1]))
    &&& a <= b <= th
    &&& (forall|j: int| b <= j < th ==> s[j] == 59)
    &&& (b > a ==> s[b - 1] != 59)
}

pub open spec fn is_pragma_rest(s: Seq<u8>, a: int, b: int) -> bool {
    exists|idx: int, stop: int, th: int| pragma_rest_at(s, idx, stop, th, a, b)
}

/// The expression contains an equality anchor: a '=' not preceded by an
/// ordering, tilde, caret or another '=' character.
pub open spec fn has_eq_anchor(s: Seq<u8>, a: int, b: int) -> bool {
    exists|t: int|
        a <= t < b && #[trigger] s[t] == 61 && (t == a || !(s[t - 1] == 60 || s[t - 1] == 62 || s[
            t - 1] == 126 || s[t - 1] == 94 || s[t - 1] == 61))
}

/// The first whitespace-delimited token of `[a, b)` spans `[t0, t1)` and
/// its first digit sits at `d`.
pub open spec fn exact_token(s: Seq<u8>, a: int, b: int, t0: int, t1: int, d: int) -> bool {
    &&& a <= t0 <= b
    &&& (forall|j: int| a <= j < t0 ==> is_space(#[trigger] s[j]))
    &&& t0 < b
    &&& !is_space(s[t0])
    &&& t0 <= t1 <= b
    &&& (forall|j: int| t0 <= j < t1 ==> !is_space(#[trigger] s[j]))
    &&& (t1 < b ==> is_space(s[t1]))
    &&& t0 <= d <= t1
    &&& (forall|j: int| t0 <= j < d ==> !is_digit(#[trigger] s[j]))
    &&& (d < t1 ==> is_digit(s[d]))
}

/// The requirement written in `[a, b)`: every whitespace-or-comma-separated
/// token is one of its comparators, in order, and there is at least one.
pub open spec fn range_parses(s: Seq<u8>, a: int, b: int, req: VersionReq) -> bool {
    let sub = s.subrange(a, b);
    let toks = token_ranges(sub, 0);
    &&& toks.len() > 0
    &&& req.comparators@.len() == toks.len()
    &&& (forall|k: int|
        0 <= k < toks.len() ==> is_comparator_token(
            sub.subrange((#[trigger] toks[k]).0, toks[k].1),
            req.comparators@[k],
        ))
}

/// No requirement is written in `[a, b)`.
pub open spec fn range_malformed(s: Seq<u8>, a: int, b: int) -> bool {
    let sub = s.subrange(a, b);
    let toks = token_ranges(sub, 0);
    toks.len() == 0 || (exists|k: int|
        0 <= k < toks.len() && no_comparator(sub.subrange((#[trigger] toks[k]).0, toks[k].1)))
}

/// Extract the version constraint a source file declares.
///
/// The first "pragma solidity" declaration decides. An expression with an
/// equality anchor pins an exact version: the first token, its leading
/// non-digits stripped, must render a version. Anything else is a range
/// over comparators. No declaration at all is `NoPragma`; a declaration
/// whose expression cannot be read is `PragmaParse`.
pub fn extract_pragma(content: &[u8]) -> (r: Result<Pragma, PragmaError>)
    ensures
        r == Err::<Pragma, PragmaError>(PragmaError::NoPragma) <==> !contains_seq(
            content@,
            pragma_marker(),
        ),
        match r {
            Ok(Pragma::Exact(v)) => exists|a: int, b: int|
                #[trigger] is_pragma_rest(content@, a, b) && has_eq_anchor(content@, a, b) && (
                exists|t0: int, t1: int, d: int|
                    exact_token(content@, a, b, t0, t1, d) && content@.subrange(d, t1)
                        == version_repr(v)),
            Ok(Pragma::Range(req)) => exists|a: int, b: int|
                #[trigger] is_pragma_rest(content@, a, b) && !has_eq_anchor(content@, a, b)
                    && range_parses(content@, a, b, req),
            Err(PragmaError::PragmaParse) => exists|a: int, b: int|
                #[trigger] is_pragma_rest(content@, a, b) && (if has_eq_anchor(content@, a, b) {
                    (forall|t0: int, t1: int, d: int|
                        exact_token(content@, a, b, t0, t1, d) ==> (forall|v: Version|
                            content@.subrange(d, t1) != version_repr(v))) || a == b
                } else {
                    range_malformed(content@, a, b)
                }),
            Err(PragmaError::NoPragma) => true,
        },
{
    let n = content.len();
    let marker: Vec<u8> = vec![112, 114, 97, 103, 109, 97, 32, 115, 111, 108, 105, 100, 105, 116,
        121];
    proof {
        assert(marker@ =~= pragma_marker());
    }
    let idx = match find_seq(content, marker.as_slice()) {
        Some(i) => i,
        None => {
            return Err(PragmaError::NoPragma);
        },
    };
    let start = idx + 15;
    let stop = find_byte_from(content, 10, start);
    let (tl, th) = trim_range(content, start, stop);
    let mut b: usize = th;
    while b > tl && content[b - 1] == 59
        invariant
            tl <= b <= th,
            forall|j: int| b <= j < th ==> content@[j] == 59,
        decreases b,
    {
        b -= 1;
    }
    let ghost ga = tl as int;
    let ghost gb = b as int;
    proof {
        assert(pragma_rest_at(content@, idx as int, stop as int, th as int, ga, gb));
        assert(is_pragma_rest(content@, ga, gb));
    }
    // classify: an equality anchor anywhere means an exact pin
    let mut anchor = false;
    let mut t: usize = tl;
    while t < b && !anchor
        invariant
            tl <= t <= b <= content@.len(),
            anchor ==> has_eq_anchor(content@, ga, gb),
            !anchor ==> forall|j: int|
                ga <= j < t ==> !(#[trigger] content@[j] == 61 && (j == ga || !(content@[j - 1]
                    == 60 || content@[j - 1] == 62 || content@[j - 1] == 126 || content@[j - 1]
                    == 94 || content@[j - 1] == 61))),
        decreases b - t + (if anchor {
            0int
        } else {
            1int
        }),
    {
        if content[t] == 61 && (t == tl || !(content[t - 1] == 60 || content[t - 1] == 62
            || content[t - 1] == 126 || content[t - 1] == 94 || content[t - 1] == 61)) {
            anchor = true;
        } else {
            t += 1;
        }
    }
    if anchor {
        // first token, leading non-digits stripped
        let mut t0: usize = tl;
        while t0 < b && space(content[t0])
            invariant
                tl <= t0 <= b,
                forall|j: int| ga <= j < t0 ==> is_space(#[trigger] content@[j]),
            decreases b - t0,
        {
            t0 += 1;
        }
        if t0 == b {
            // the expression is semicolons and spaces only; with the trim
            // in force this means it is empty
            assert(ga == gb || !is_space(content@[ga]));
            return Err(PragmaError::PragmaParse);
        }
        let mut t1: usize = t0;
        while t1 < b && !space(content[t1])
            invariant
                t0 <= t1 <= b,
                forall|j: int| t0 <= j < t1 ==> !is_space(#[trigger] content@[j]),
            decreases b - t1,
        {
            t1 += 1;
        }
        let mut d: usize = t0;
        while d < t1 && !digit(content[d])
            invariant
                t0 <= d <= t1,
                forall|j: int| t0 <= j < d ==> !is_digit(#[trigger] content@[j]),
            decreases t1 - d,
        {
            d += 1;
        }
        proof {
            assert(exact_token(content@, ga, gb, t0 as int, t1 as int, d as int));
        }
        match parse_version(content, d, t1) {
            Some(v) => Ok(Pragma::Exact(v)),
            None => {
                assert forall|u0: int, u1: int, ud: int|
                    exact_token(content@, ga, gb, u0, u1, ud) implies (forall|v: Version|
                    content@.subrange(ud, u1) != version_repr(v)) by {
                    assert(u0 == t0 as int) by {
                        if u0 < t0 {
                            assert(is_space(content@[u0]));
                        }
                        if u0 > t0 {
                            assert(is_space(content@[t0 as int]));
                        }
                    }
                    assert(u1 == t1 as int) by {
                        if u1 < t1 {
                            assert(is_space(content@[u1]));
                        }
                        if u1 > t1 && t1 < b {
                            assert(!is_space(content@[t1 as int]));
                        }
                    }
                    assert(ud == d as int) by {
                        if ud < d {
                            assert(is_digit(content@[ud]));
                        }
                        if ud > d && d < t1 {
                            assert(!is_digit(content@[d as int]));
                        }
                    }
                }
                Err(PragmaError::PragmaParse)
            },
        }
    } else {
        match parse_version_req(content, tl, b) {
            Some(req) => {
                proof {
                    assert(content@.subrange(ga, gb) == content@.subrange(tl as int, b as int));
                }
                Ok(Pragma::Range(req))
            },
            None => {
                proof {
                    assert(range_malformed(content@, ga, gb));
                }
                Err(PragmaError::PragmaParse)
            },
        }
    }
}

/// Extract the first pragma declaration as a range requirement, whatever
/// its operators; a declaration that does not tokenize into comparators is
/// an error.
pub fn extract_pragma_version(content: &[u8]) -> (r: Result<VersionReq, PragmaError>)
    ensures
        r == Err::<VersionReq, PragmaError>(PragmaError::NoPragma) <==> !contains_seq(
            content@,
            pragma_marker(),
        ),
        match r {
            Ok(req) => exists|a: int, b: int|
                #[trigger] is_pragma_rest(content@, a, b) && range_parses(content@, a, b, req),
            Err(PragmaError::PragmaParse) => exists|a: int, b: int|
                #[trigger] is_pragma_rest(content@, a, b) && range_malformed(content@, a, b),
            Err(PragmaError::NoPragma) => true,
        },
{
    let n = content.len();
    let marker: Vec<u8> = vec![112, 114, 97, 103, 109, 97, 32, 115, 111, 108, 105, 100, 105, 116,
        121];
    proof {
        assert(marker@ =~= pragma_marker());
    }
    let idx = match find_seq(content, marker.as_slice()) {
        Some(i) => i,
        None => {
            return Err(PragmaError::NoPragma);
        },
    };
    let start = idx + 15;
    let stop = find_byte_from(content, 10, start);
    let (tl, th) = trim_range(content, start, stop);
    let mut b: usize = th;
    while b > tl && content[b - 1] == 59
        invariant
            tl <= b <= th,
            forall|j: int| b <= j < th ==> content@[j] == 59,
        decreases b,
    {
        b -= 1;
    }
    proof {
        assert(pragma_rest_at(content@, idx as int, stop as int, th as int, tl as int, b as int));
        assert(is_pragma_rest(content@, tl as int, b as int));
    }
    match parse_version_req(content, tl, b) {
        Some(req) => Ok(req),
        None => Err(PragmaError::PragmaParse),
    }
}

/// The greatest version among the rolling-cache files "solc-X.Y.Z" that
/// satisfies the requirement, with the index of its file.
pub fn best_cached_match(listing: &Vec<Vec<u8>>, req: &VersionReq) -> (r: Option<(Version, usize)>)
    ensures
        match r {
            Some(pair) => {
                &&& pair.1 < listing@.len()
                &&& listing@[pair.1 as int]@ == solc_prefix() + version_repr(pair.0)
                &&& req_matches(*req, pair.0)
                &&& (forall|j: int, w: Version| #![trigger listing@[j], version_repr(w)]
                    0 <= j < listing@.len() && (listing@[j])@ == solc_prefix()
                        + version_repr(w) && req_matches(*req, w) ==> !version_lt(pair.0, w))
            },
            None => forall|j: int, w: Version| #![trigger listing@[j], version_repr(w)]
                0 <= j < listing@.len() ==> !((listing@[j])@ == solc_prefix()
                    + version_repr(w) && req_matches(*req, w)),
        },
{
    let mut best: Option<(Version, usize)> = None;
    let mut i: usize = 0;
    while i < listing.len()
        invariant
            i <= listing@.len(),
            match best {
                Some(pair) => {
                    &&& pair.1 < i
                    &&& listing@[pair.1 as int]@ == solc_prefix() + version_repr(pair.0)
                    &&& req_matches(*req, pair.0)
                    &&& (forall|j: int, w: Version| #![trigger listing@[j], version_repr(w)]
                        0 <= j < i && (listing@[j])@ == solc_prefix() + version_repr(w)
                            && req_matches(*req, w) ==> !version_lt(pair.0, w))
                },
                None => forall|j: int, w: Version| #![trigger listing@[j], version_repr(w)]
                    0 <= j < i ==> !((listing@[j])@ == solc_prefix() + version_repr(w)
                        && req_matches(*req, w)),
            },
        decreases listing@.len() - i,
    {
        let name = &listing[i];
        let prefix: Vec<u8> = vec![115, 111, 108, 99, 45];
        proof {
            assert(prefix@ =~= solc_prefix());
        }
        let parsed: Option<Version> = if name.len() > 5 && crate::bytes::check_match_at(
            name.as_slice(),
            prefix.as_slice(),
            0,
        ) {
            parse_version(name.as_slice(), 5, name.len())
        } else {
            None
        };
        let mut this: Option<Version> = None;
        match parsed {
            Some(v) => {
                if req.matches_version(&v) {
                    this = Some(v);
                    proof {
                        assert(name@ =~= name@.subrange(0, 5) + name@.subrange(
                            5,
                            name@.len() as int,
                        ));
                        assert(name@ == solc_prefix() + version_repr(v));
                    }
                }
            },
            None => {},
        }
        proof {
            assert forall|w: Version|
                (#[trigger] listing@[i as int])@ == solc_prefix() + version_repr(w)
                    && req_matches(*req, w) implies this == Some(w) by {
                assert(name@.subrange(5, name@.len() as int) =~= version_repr(w));
                assert(name@.len() > 5) by {
                    crate::bytes::lemma_dec_bytes_canonical(w.major as nat);
                }
                assert(name@.subrange(0, 5) =~= solc_prefix());
                match parsed {
                    Some(v) => {
                        crate::version::lemma_version_repr_injective(v, w);
                    },
                    None => {},
                }
            }
        }
        match (best, this) {
            (None, Some(v)) => {
                best = Some((v, i));
            },
            (Some(pair), Some(v)) => {
                if pair.0.lt(&v) {
                    best = Some((v, i));
                }
            },
            _ => {},
        }
        i += 1;
    }
    best
}

/// The greatest catalog version that satisfies the requirement and whose
/// binary the rolling cache holds, as its version bytes: the catalog-driven
/// twin of `best_cached_match`.
pub fn match_cached_solc_version(
    manager: &SolcManager,
    req: &VersionReq,
    listing: &Vec<Vec<u8>>,
) -> (r: Option<Vec<u8>>)
    ensures
        match r {
            Some(out) => exists|i: int, v: Version|
                #![trigger manager.list.builds@[i], version_repr(v)]
                {
                    &&& 0 <= i < manager.list.builds@.len()
                    &&& (manager.list.builds@[i]).version@ == version_repr(v)
                    &&& out@ == version_repr(v)
                    &&& req_matches(*req, v)
                    &&& cached_name(listing@, v)
                    &&& (forall|j: int, w: Version|
                        #![trigger manager.list.builds@[j], version_repr(w)]
                        0 <= j < manager.list.builds@.len() && (
                        manager.list.builds@[j]).version@ == version_repr(w)
                            && req_matches(*req, w) && cached_name(listing@, w) ==> !version_lt(
                            v,
                            w,
                        ))
                },
            None => forall|j: int, w: Version|
                #![trigger manager.list.builds@[j], version_repr(w)]
                0 <= j < manager.list.builds@.len() ==> !((
                manager.list.builds@[j]).version@ == version_repr(w) && req_matches(
                    *req,
                    w,
                ) && cached_name(listing@, w)),
        },
{
    let mut best: Option<Version> = None;
    let mut i: usize = 0;
    while i < manager.list.builds.len()
        invariant
            i <= manager.list.builds@.len(),
            match best {
                Some(v) => {
                    &&& (exists|t: int|
                        0 <= t < i && (#[trigger] manager.list.builds@[t]).version@
                            == version_repr(v))
                    &&& req_matches(*req, v)
                    &&& cached_name(listing@, v)
                    &&& (forall|j: int, w: Version|
                        #![trigger manager.list.builds@[j], version_repr(w)]
                        0 <= j < i && (manager.list.builds@[j]).version@
                            == version_repr(w) && req_matches(*req, w) && cached_name(listing@, w)
                            ==> !version_lt(v, w))
                },
                None => forall|j: int, w: Version|
                    #![trigger manager.list.builds@[j], version_repr(w)]
                    0 <= j < i ==> !((manager.list.builds@[j]).version@
                        == version_repr(w) && req_matches(*req, w) && cached_name(listing@, w)),
            },
        decreases manager.list.builds@.len() - i,
    {
        let rel = &manager.list.builds[i];
        proof {
            assert(rel.version@.subrange(0, rel.version@.len() as int) =~= rel.version@);
        }
        let parsed = parse_version(rel.version.as_slice(), 0, rel.version.len());
        let cached = manager.get_binary_path(rel.version.as_slice(), listing).is_some();
        let mut this: Option<Version> = None;
        match parsed {
            Some(v) => {
                if req.matches_version(&v) && cached {
                    this = Some(v);
                    proof {
                        assert(cached_name(listing@, v));
                    }
                }
            },
            None => {},
        }
        proof {
            assert forall|w: Version|
                (#[trigger] manager.list.builds@[i as int]).version@ == version_repr(w)
                    && req_matches(*req, w) && cached_name(listing@, w) implies this == Some(
                w,
            ) by {
                match parsed {
                    Some(v) => {
                        crate::version::lemma_version_repr_injective(v, w);
                        assert(cached);
                    },
                    None => {},
                }
            }
        }
        match (best, this) {
            (None, Some(v)) => {
                best = Some(v);
            },
            (Some(bv), Some(v)) => {
                if bv.lt(&v) {
                    best = Some(v);
                }
            },
            _ => {},
        }
        i += 1;
    }
    match best {
        Some(v) => Some(v.render()),
        None => None,
    }
}

/// The rolling listing holds the file of version `v`.
pub open spec fn cached_name(listing: Seq<Vec<u8>>, v: Version) -> bool {
    exists|t: int|
        0 <= t < listing.len() && (#[trigger] listing[t])@ == solc_prefix() + version_repr(v)
}

// --- The resolution state machine ---------------------------------------

/// Why a resolution ends without a binary.
#[derive(Clone, Copy, PartialEq, Eq, Structural, Debug)]
pub enum ResolveFailure {
    NoPragma,
    PragmaParse,
    /// No cached binary matched and no system binary exists.
    ToolchainNotFound,
}

/// How a resolution ends: a local executable path, or a typed failure.
#[derive(Debug)]
pub enum ResolveOutcome {
    UseBinary(Vec<u8>),
    Fail(ResolveFailure),
}

/// Where a resolution stands.
#[derive(Debug)]
pub enum ResolveState {
    /// An exact pin: waiting to hear whether its cache file exists.
    ExactProbe { version: Version, path: Vec<u8> },
    /// A range: waiting for the rolling cache listing.
    RangeScan { req: VersionReq },
    /// Waiting for the system-binary lookup.
    SystemLookup,
    /// Terminal.
    Finished { outcome: ResolveOutcome },
}

/// What the embedding process reports back.
#[derive(Debug)]
pub enum ResolveEvent {
    ExactPresent(bool),
    RollingListing(Vec<Vec<u8>>),
    SystemSolc(Option<Vec<u8>>),
}

/// What the embedding process must do next.
#[derive(Debug)]
pub enum ResolveAction {
    /// Check whether this exact-pin cache file exists.
    ProbeExact { path: Vec<u8> },
    /// List the rolling cache directory.
    ListRolling,
    /// Spawn the detached fetch of this version, and look for a system
    /// binary for the present request; the fetch only serves future ones.
    SpawnFetchAndProbeSystem { version: Version },
    /// Look for a system binary.
    ProbeSystem,
    /// The resolution is decided.
    Deliver { outcome: ResolveOutcome },
    /// Nothing: the event did not apply.
    Wait,
}

/// Start resolving a constraint: an exact pin probes its exact-pin cache
/// file; a range asks for the rolling listing.
pub fn resolve_start(pragma: Pragma, exact_dir: &[u8], windows: bool) -> (r: (
    ResolveState,
    ResolveAction,
))
    ensures
        match pragma {
            Pragma::Exact(v) => {
                let p = exact_dir@ + seq![47u8] + cache_filename_bytes(version_repr(v), windows);
                &&& r.0 matches ResolveState::ExactProbe { version, path } && version == v
                    && path@ == p
                &&& r.1 matches ResolveAction::ProbeExact { path } && path@ == p
            },
            Pragma::Range(req) => {
                &&& r.0 matches ResolveState::RangeScan { req: q } && q == req
                &&& r.1 is ListRolling
            },
        },
{
    match pragma {
        Pragma::Exact(v) => {
            let rendered = v.render();
            let name = cache_filename(rendered.as_slice(), windows);
            let path = path_join(exact_dir, name.as_slice());
            let probe = copy_bytes(path.as_slice());
            (
                ResolveState::ExactProbe { version: v, path },
                ResolveAction::ProbeExact { path: probe },
            )
        },
        Pragma::Range(req) => (ResolveState::RangeScan { req }, ResolveAction::ListRolling),
    }
}

/// One step of resolution. An exact pin returns its cached file on a hit;
/// on a miss it spawns the detached fetch and falls back for this request.
/// A range returns the greatest satisfying cached binary, else falls back.
/// The system lookup decides between the system binary and failure. The
/// current request never waits for a download.
pub fn resolve_step(roll_dir: &[u8], state: ResolveState, event: ResolveEvent) -> (r: (
    ResolveState,
    ResolveAction,
))
    ensures
        match (state, event) {
            (ResolveState::ExactProbe { version, path }, ResolveEvent::ExactPresent(hit)) => if hit {
                r.0 matches ResolveState::Finished { outcome: ResolveOutcome::UseBinary(p) } && p@
                    == path@ && (r.1 matches ResolveAction::Deliver {
                    outcome: ResolveOutcome::UseBinary(p2),
                } && p2@ == path@)
            } else {
                r.0 is SystemLookup && (r.1 matches ResolveAction::SpawnFetchAndProbeSystem {
                    version: v,
                } && v == version)
            },
            (ResolveState::RangeScan { req }, ResolveEvent::RollingListing(names)) => if (
            exists|j: int, w: Version| #![trigger names@[j], version_repr(w)]
                0 <= j < names@.len() && (names@[j])@ == solc_prefix() + version_repr(w)
                    && req_matches(req, w)) {
                exists|v: Version|
                    {
                        &&& r.0 matches ResolveState::Finished {
                            outcome: ResolveOutcome::UseBinary(p),
                        } && p@ == roll_dir@ + seq![47u8] + solc_prefix() + #[trigger] version_repr(
                            v,
                        )
                        &&& (r.1 matches ResolveAction::Deliver {
                            outcome: ResolveOutcome::UseBinary(p2),
                        } && p2@ == roll_dir@ + seq![47u8] + solc_prefix() + version_repr(v))
                        &&& req_matches(req, v)
                        &&& cached_name(names@, v)
                        &&& (forall|j: int, w: Version| #![trigger names@[j], version_repr(w)]
                            0 <= j < names@.len() && (names@[j])@ == solc_prefix() + version_repr(
                                w,
                            ) && req_matches(req, w) ==> !version_lt(v, w))
                    }
            } else {
                r.0 is SystemLookup && r.1 is ProbeSystem
            },
            (ResolveState::SystemLookup, ResolveEvent::SystemSolc(found)) => match found {
                Some(p) => r.0 matches ResolveState::Finished {
                    outcome: ResolveOutcome::UseBinary(q),
                } && q@ == p@ && (r.1 matches ResolveAction::Deliver {
                    outcome: ResolveOutcome::UseBinary(q2),
                } && q2@ == p@),
                None => r.0 matches ResolveState::Finished {
                    outcome: ResolveOutcome::Fail(f),
                } && f == ResolveFailure::ToolchainNotFound && (r.1
                    matches ResolveAction::Deliver { outcome: ResolveOutcome::Fail(f2) } && f2
                    == ResolveFailure::ToolchainNotFound),
            },
            _ => r.1 is Wait,
        },
{
    match (state, event) {
        (ResolveState::ExactProbe { version, path }, ResolveEvent::ExactPresent(hit)) => {
            if hit {
                let p2 = copy_bytes(path.as_slice());
                (
                    ResolveState::Finished { outcome: ResolveOutcome::UseBinary(path) },
                    ResolveAction::Deliver { outcome: ResolveOutcome::UseBinary(p2) },
                )
            } else {
                (ResolveState::SystemLookup, ResolveAction::SpawnFetchAndProbeSystem { version })
            }
        },
        (ResolveState::RangeScan { req }, ResolveEvent::RollingListing(names)) => {
            match best_cached_match(&names, &req) {
                Some(pair) => {
                    let name = cache_filename(pair.0.render().as_slice(), false);
                    let p = path_join(roll_dir, name.as_slice());
                    let p2 = copy_bytes(p.as_slice());
                    (
                        ResolveState::Finished { outcome: ResolveOutcome::UseBinary(p) },
                        ResolveAction::Deliver { outcome: ResolveOutcome::UseBinary(p2) },
                    )
                },
                None => (ResolveState::SystemLookup, ResolveAction::ProbeSystem),
            }
        },
        (ResolveState::SystemLookup, ResolveEvent::SystemSolc(found)) => {
            match found {
                Some(p) => {
                    let q2 = copy_bytes(p.as_slice());
                    (
                        ResolveState::Finished { outcome: ResolveOutcome::UseBinary(p) },
                        ResolveAction::Deliver { outcome: ResolveOutcome::UseBinary(q2) },
                    )
                },
                None => (
                    ResolveState::Finished {
                        outcome: ResolveOutcome::Fail(ResolveFailure::ToolchainNotFound),
                    },
                    ResolveAction::Deliver {
                        outcome: ResolveOutcome::Fail(ResolveFailure::ToolchainNotFound),
                    },
                ),
            }
        },
        (other, _) => (other, ResolveAction::Wait),
    }
}

// --- The detached exact-version fetch ------------------------------------

/// Where the detached fetch of one exact version stands.
#[derive(Clone, Copy, PartialEq, Eq, Structural, Debug)]
pub enum ExactFetchState {
    /// Waiting for the catalog manifest download.
    FetchList,
    /// Manifest fetched; waiting for the version lookup in it.
    Lookup,
    /// Waiting for the binary download.
    FetchBinary,
    /// Binary downloaded; waiting for its integrity check.
    Check,
    /// The verified binary is installed in the exact-pin cache.
    Installed,
    /// Terminal failure: the manifest was unreadable or the version is
    /// unknown to the catalog. Never retried.
    Abandoned,
}

/// What the embedding process reports back to the detached fetch.
#[derive(Clone, Copy, PartialEq, Eq, Structural, Debug)]
pub enum ExactFetchEvent {
    /// Whether the manifest download completed.
    ListFetched(bool),
    /// The manifest did not parse.
    ListUnreadable,
    /// Whether the catalog lists the pinned version.
    Located(bool),
    /// Whether the binary download completed.
    BinFetched(bool),
    /// Whether the binary's digest matched the catalog hash.
    BinVerified(bool),
}

/// What the embedding process must do next for the detached fetch.
#[derive(Clone, Copy, PartialEq, Eq, Structural, Debug)]
pub enum ExactFetchAction {
    /// Download the manifest again after the retry delay.
    RetryFetchList,
    /// Parse the manifest and look the pinned version up.
    ParseAndLookup,
    /// Download the release binary.
    DownloadBinary,
    /// Download the binary again after the retry delay.
    RetryDownloadBinary,
    /// Verify the downloaded binary.
    VerifyBinary,
    /// Delete the corrupt download, then download again after the delay.
    DeleteThenRetryBinary,
    /// Verification passed: mark the binary executable and usable.
    MarkUsable,
    /// Stop: a terminal state was reached or the event did not apply.
    Stop,
}

/// The transition relation of the detached fetch: manifest fetch retries
/// forever; an unreadable manifest or an unknown version is terminal, not
/// retried; the binary fetch retries forever; a failed check deletes
/// before retrying; only a passed check marks the binary usable.
pub open spec fn exact_fetch_step_spec(s: ExactFetchState, e: ExactFetchEvent) -> (
    ExactFetchState,
    ExactFetchAction,
) {
    match (s, e) {
        (ExactFetchState::FetchList, ExactFetchEvent::ListFetched(true)) => (
            ExactFetchState::Lookup,
            ExactFetchAction::ParseAndLookup,
        ),
        (ExactFetchState::FetchList, ExactFetchEvent::ListFetched(false)) => (
            ExactFetchState::FetchList,
            ExactFetchAction::RetryFetchList,
        ),
        (ExactFetchState::Lookup, ExactFetchEvent::ListUnreadable) => (
            ExactFetchState::Abandoned,
            ExactFetchAction::Stop,
        ),
        (ExactFetchState::Lookup, ExactFetchEvent::Located(true)) => (
            ExactFetchState::FetchBinary,
            ExactFetchAction::DownloadBinary,
        ),
        (ExactFetchState::Lookup, ExactFetchEvent::Located(false)) => (
            ExactFetchState::Abandoned,
            ExactFetchAction::Stop,
        ),
        (ExactFetchState::FetchBinary, ExactFetchEvent::BinFetched(true)) => (
            ExactFetchState::Check,
            ExactFetchAction::VerifyBinary,
        ),
        (ExactFetchState::FetchBinary, ExactFetchEvent::BinFetched(false)) => (
            ExactFetchState::FetchBinary,
            ExactFetchAction::RetryDownloadBinary,
        ),
        (ExactFetchState::Check, ExactFetchEvent::BinVerified(true)) => (
            ExactFetchState::Installed,
            ExactFetchAction::MarkUsable,
        ),
        (ExactFetchState::Check, ExactFetchEvent::BinVerified(false)) => (
            ExactFetchState::FetchBinary,
            ExactFetchAction::DeleteThenRetryBinary,
        ),
        (s, _) => (s, ExactFetchAction::Stop),
    }
}

/// Take one step of the detached fetch.
pub fn exact_fetch_step(s: ExactFetchState, e: ExactFetchEvent) -> (r: (
    ExactFetchState,
    ExactFetchAction,
))
    ensures
        r == exact_fetch_step_spec(s, e),
{
    match (s, e) {
        (ExactFetchState::FetchList, ExactFetchEvent::ListFetched(true)) => (
            ExactFetchState::Lookup,
            ExactFetchAction::ParseAndLookup,
        ),
        (ExactFetchState::FetchList, ExactFetchEvent::ListFetched(false)) => (
            ExactFetchState::FetchList,
            ExactFetchAction::RetryFetchList,
        ),
        (ExactFetchState::Lookup, ExactFetchEvent::ListUnreadable) => (
            ExactFetchState::Abandoned,
            ExactFetchAction::Stop,
        ),
        (ExactFetchState::Lookup, ExactFetchEvent::Located(true)) => (
            ExactFetchState::FetchBinary,
            ExactFetchAction::DownloadBinary,
        ),
        (ExactFetchState::Lookup, ExactFetchEvent::Located(false)) => (
            ExactFetchState::Abandoned,
            ExactFetchAction::Stop,
        ),
        (ExactFetchState::FetchBinary, ExactFetchEvent::BinFetched(true)) => (
            ExactFetchState::Check,
            ExactFetchAction::VerifyBinary,
        ),
        (ExactFetchState::FetchBinary, ExactFetchEvent::BinFetched(false)) => (
            ExactFetchState::FetchBinary,
            ExactFetchAction::RetryDownloadBinary,
        ),
        (ExactFetchState::Check, ExactFetchEvent::BinVerified(true)) => (
            ExactFetchState::Installed,
            ExactFetchAction::MarkUsable,
        ),
        (ExactFetchState::Check, ExactFetchEvent::BinVerified(false)) => (
            ExactFetchState::FetchBinary,
            ExactFetchAction::DeleteThenRetryBinary,
        ),
        (other, _) => (other, ExactFetchAction::Stop),
    }
}

/// The actions a detached fetch takes on a sequence of events.
pub open spec fn exact_fetch_run(s: ExactFetchState, events: Seq<ExactFetchEvent>) -> Seq<
    ExactFetchAction,
>
    decreases events.len(),
{
    if events.len() == 0 {
        Seq::empty()
    } else {
        seq![exact_fetch_step_spec(s, events.first()).1] + exact_fetch_run(
            exact_fetch_step_spec(s, events.first()).0,
            events.drop_first(),
        )
    }
}

/// An action of the detached fetch that downloads the binary.
pub open spec fn is_binary_download(a: ExactFetchAction) -> bool {
    a is DownloadBinary || a is RetryDownloadBinary || a is DeleteThenRetryBinary
}

/// Terminal states act no further.
pub proof fn lemma_exact_fetch_terminal(s: ExactFetchState, events: Seq<ExactFetchEvent>)
    requires
        s is Abandoned || s is Installed,
    ensures
        forall|k: int|
            0 <= k < exact_fetch_run(s, events).len() ==> #[trigger] exact_fetch_run(s, events)[k]
                == ExactFetchAction::Stop,
    decreases events.len(),
{
    if events.len() > 0 {
        lemma_exact_fetch_terminal(s, events.drop_first());
    }
}

/// A version the catalog does not list is a terminal lookup failure: the
/// fetch stops and never downloads a binary, whatever comes after.
pub proof fn lemma_unknown_version_terminal(events: Seq<ExactFetchEvent>)
    requires
        events.len() >= 2,
        events[0] == ExactFetchEvent::ListFetched(true),
        events[1] == ExactFetchEvent::Located(false),
    ensures
        forall|k: int|
            0 <= k < exact_fetch_run(ExactFetchState::FetchList, events).len()
                ==> !is_binary_download(
                #[trigger] exact_fetch_run(ExactFetchState::FetchList, events)[k],
            ),
{
    let e1 = events.drop_first();
    let e2 = e1.drop_first();
    assert(events.first() == events[0] && e1.first() == events[1]);
    assert(exact_fetch_run(ExactFetchState::FetchList, events) == seq![
        ExactFetchAction::ParseAndLookup,
    ] + exact_fetch_run(ExactFetchState::Lookup, e1));
    assert(exact_fetch_run(ExactFetchState::Lookup, e1) == seq![ExactFetchAction::Stop]
        + exact_fetch_run(ExactFetchState::Abandoned, e2));
    lemma_exact_fetch_terminal(ExactFetchState::Abandoned, e2);
    assert forall|k: int|
        0 <= k < exact_fetch_run(ExactFetchState::FetchList, events).len() implies
        !is_binary_download(
        #[trigger] exact_fetch_run(ExactFetchState::FetchList, events)[k],
    ) by {
        if k >= 2 {
            assert(exact_fetch_run(ExactFetchState::FetchList, events)[k] == exact_fetch_run(
                ExactFetchState::Abandoned,
                e2,
            )[k - 2]);
        }
    }
}

/// Only a passed integrity check marks the exact-pin binary usable.
pub proof fn lemma_exact_fetch_mark_needs_verification(s: ExactFetchState, e: ExactFetchEvent)
    ensures
        exact_fetch_step_spec(s, e).1 == ExactFetchAction::MarkUsable ==> s
            == ExactFetchState::Check && e == ExactFetchEvent::BinVerified(true),
{
}

} // verus!
