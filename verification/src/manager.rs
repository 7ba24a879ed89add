//! The toolchain manager: the rolling binary cache reconciled against the
//! catalog's latest-per-minor set, the exact-pin cache swept by age, and
//! the download–verify–mark loop that guards every cache write.
//!
//! Filesystem probes, directory listings, downloads and deletions are
//! performed by the embedding process; each decision about them is taken
//! here, against values it hands in.
use vstd::prelude::*;

use crate::bytes::{append_bytes, bytes_eq, check_match_at, copy_bytes};
use crate::catalog::{SolcList, SolcRelease, parses_to, same_minor};
use crate::version::{Version, version_lt};

verus! {

/// "solc-": the cache filename prefix.
pub open spec fn solc_prefix() -> Seq<u8> {
    seq![115u8, 111, 108, 99, 45]
}

/// ".exe"
pub open spec fn exe_suffix() -> Seq<u8> {
    seq![46u8, 101, 120, 101]
}

/// The cache file name that holds a version: "solc-<version>", with ".exe"
/// appended on Windows.
pub open spec fn cache_filename_bytes(version: Seq<u8>, windows: bool) -> Seq<u8> {
    if windows {
        solc_prefix() + version + exe_suffix()
    } else {
        solc_prefix() + version
    }
}

/// Render the cache file name of a version.
pub fn cache_filename(version: &[u8], windows: bool) -> (r: Vec<u8>)
    ensures
        r@ == cache_filename_bytes(version@, windows),
{
    let mut out: Vec<u8> = vec![115, 111, 108, 99, 45];
    append_bytes(&mut out, version);
    if windows {
        out.push(46);
        out.push(101);
        out.push(120);
        out.push(101);
        proof {
            assert(out@ =~= solc_prefix() + version@ + exe_suffix());
        }
    } else {
        proof {
            assert(out@ =~= solc_prefix() + version@);
        }
    }
    out
}

/// `dir`/`name` joined with a single '/'.
pub fn path_join(dir: &[u8], name: &[u8]) -> (r: Vec<u8>)
    ensures
        r@ == dir@ + seq![47u8] + name@,
{
    let mut out = copy_bytes(dir);
    out.push(47);
    append_bytes(&mut out, name);
    proof {
        assert(out@ =~= dir@ + seq![47u8] + name@);
    }
    out
}

/// A rolling-cache entry: "solc-" followed by anything.
pub open spec fn is_rolling_name(name: Seq<u8>) -> bool {
    name.len() >= 5 && name.subrange(0, 5) == solc_prefix()
}

/// The version a rolling-cache file name claims to hold.
pub open spec fn rolling_suffix(name: Seq<u8>) -> Seq<u8> {
    name.skip(5)
}

/// The suffix is one of the kept versions.
pub open spec fn suffix_kept(b: Seq<SolcRelease>, keep: Seq<usize>, suffix: Seq<u8>) -> bool {
    exists|k: int| 0 <= k < keep.len() && (#[trigger] b[keep[k] as int]).version@ == suffix
}

/// The manager: the rolling cache directory and the catalog snapshot it is
/// reconciled against.
pub struct SolcManager {
    /// The rolling cache directory.
    pub cache_dir: Vec<u8>,
    /// The catalog snapshot.
    pub list: SolcList,
}

/// Thirty days, in seconds: how long an unused exact-pin binary is kept.
pub const RETENTION_SECS: u64 = 2592000;

impl SolcManager {
    pub fn new(cache_dir: Vec<u8>, list: SolcList) -> (r: SolcManager)
        ensures
            r.cache_dir == cache_dir,
            r.list == list,
    {
        SolcManager { cache_dir, list }
    }

    /// The reconciliation target: the catalog's latest release per minor
    /// series, as indices into the catalog. The embedding process ensures
    /// each is cached (the state machine below) and then deletes what
    /// `clean_old_versions` names.
    pub fn ensure_latest_versions(&self) -> (r: Vec<usize>)
        ensures
            forall|k: int|
                0 <= k < r@.len() ==> r@[k] < self.list.builds@.len() && (exists|v: Version|
                    parses_to(self.list.builds@[r@[k] as int].version@, v)),
            forall|k1: int, k2: int, v1: Version, v2: Version|
                0 <= k1 < k2 < r@.len() && #[trigger] parses_to(
                    self.list.builds@[r@[k1] as int].version@,
                    v1,
                ) && #[trigger] parses_to(self.list.builds@[r@[k2] as int].version@, v2)
                    ==> !same_minor(v1, v2),
            forall|k: int, v: Version, i: int, w: Version|
                0 <= k < r@.len() && #[trigger] parses_to(
                    self.list.builds@[r@[k] as int].version@,
                    v,
                ) && 0 <= i < self.list.builds@.len() && #[trigger] parses_to(
                    self.list.builds@[i].version@,
                    w,
                ) && same_minor(v, w) ==> !version_lt(v, w),
            forall|i: int, w: Version|
                0 <= i < self.list.builds@.len() && #[trigger] parses_to(
                    self.list.builds@[i].version@,
                    w,
                ) ==> (exists|k: int, v: Version|
                    0 <= k < r@.len() && #[trigger] parses_to(
                        self.list.builds@[r@[k] as int].version@,
                        v,
                    ) && same_minor(v, w)),
            forall|k: int, v: Version, t: int|
                0 <= k < r@.len() && #[trigger] parses_to(
                    self.list.builds@[r@[k] as int].version@,
                    v,
                ) && 0 <= t < r@[k] ==> !(#[trigger] parses_to(
                    self.list.builds@[t].version@,
                    v,
                )),
    {
        self.list.latest_per_minor()
    }

    /// The path of a cached version, when the rolling directory listing
    /// shows its file; no probe beyond the listing, and no re-verification.
    pub fn get_binary_path(&self, version: &[u8], listing: &Vec<Vec<u8>>) -> (r: Option<Vec<u8>>)
        ensures
            match r {
                Some(p) => (exists|i: int|
                    0 <= i < listing@.len() && (#[trigger] listing@[i])@ == solc_prefix()
                        + version@) && p@ == self.cache_dir@ + seq![47u8] + solc_prefix()
                    + version@,
                None => forall|i: int|
                    0 <= i < listing@.len() ==> (#[trigger] listing@[i])@ != solc_prefix()
                        + version@,
            },
    {
        let name = cache_filename(version, false);
        let mut i: usize = 0;
        while i < listing.len()
            invariant
                i <= listing@.len(),
                name@ == solc_prefix() + version@,
                forall|j: int|
                    0 <= j < i ==> (#[trigger] listing@[j])@ != solc_prefix() + version@,
            decreases listing@.len() - i,
        {
            if bytes_eq(listing[i].as_slice(), name.as_slice()) {
                return Some(path_join(self.cache_dir.as_slice(), name.as_slice()));
            }
            i += 1;
        }
        None
    }

    /// The rolling-cache files reconciliation must delete: every "solc-"
    /// file whose version suffix is not among the kept releases. Other
    /// files are left alone.
    pub fn clean_old_versions(&self, keep: &Vec<usize>, listing: &Vec<Vec<u8>>) -> (r: Vec<
        Vec<u8>,
    >)
        requires
            forall|k: int| 0 <= k < keep@.len() ==> #[trigger] keep@[k] < self.list.builds@.len(),
        ensures
            forall|j: int|
                0 <= j < r@.len() ==> {
                    &&& (exists|i: int|
                        0 <= i < listing@.len() && (#[trigger] listing@[i])@ == (
                        #[trigger] r@[j])@)
                    &&& is_rolling_name(r@[j]@)
                    &&& !suffix_kept(self.list.builds@, keep@, rolling_suffix(r@[j]@))
                },
            forall|i: int|
                0 <= i < listing@.len() && is_rolling_name((#[trigger] listing@[i])@)
                    && !suffix_kept(self.list.builds@, keep@, rolling_suffix(listing@[i]@)) ==> (
                exists|j: int| 0 <= j < r@.len() && (#[trigger] r@[j])@ == listing@[i]@),
    {
        let prefix: Vec<u8> = vec![115, 111, 108, 99, 45];
        let mut out: Vec<Vec<u8>> = Vec::new();
        let mut i: usize = 0;
        while i < listing.len()
            invariant
                i <= listing@.len(),
                forall|j: int|
                    0 <= j < out@.len() ==> {
                        &&& (exists|t: int|
                            0 <= t < listing@.len() && (#[trigger] listing@[t])@ == (
                            #[trigger] out@[j])@)
                        &&& is_rolling_name(out@[j]@)
                        &&& !suffix_kept(self.list.builds@, keep@, rolling_suffix(out@[j]@))
                    },
                forall|t: int|
                    0 <= t < i && is_rolling_name((#[trigger] listing@[t])@) && !suffix_kept(
                        self.list.builds@,
                        keep@,
                        rolling_suffix(listing@[t]@),
                    ) ==> (exists|j: int| 0 <= j < out@.len() && (#[trigger] out@[j])@
                        == listing@[t]@),
            decreases listing@.len() - i,
        {
            let ghost out0 = out@;
            let name = &listing[i];
            let rolling = name.len() >= 5 && check_match_at(name.as_slice(), prefix.as_slice(), 0);
            proof {
                assert(rolling == is_rolling_name(name@));
            }
            if rolling {
                // is the suffix one of the kept versions?
                let mut kept = false;
                let mut k: usize = 0;
                while k < keep.len() && !kept
                    invariant
                        k <= keep@.len(),
                        forall|t: int| 0 <= t < keep@.len() ==> #[trigger] keep@[t]
                            < self.list.builds@.len(),
                        !kept ==> forall|t: int|
                            0 <= t < k ==> (#[trigger] self.list.builds@[keep@[t] as int]).version@
                                != name@.skip(5),
                        kept ==> suffix_kept(self.list.builds@, keep@, name@.skip(5)),
                    decreases keep@.len() - k + (if kept {
                        0int
                    } else {
                        1int
                    }),
                {
                    let suffix_eq = eq_from(self.list.builds[keep[k]].version.as_slice(), name
                        .as_slice(), 5);
                    if suffix_eq {
                        kept = true;
                    } else {
                        k += 1;
                    }
                }
                if !kept {
                    proof {
                        assert(rolling_suffix(name@) == name@.skip(5));
                        assert(!suffix_kept(self.list.builds@, keep@, rolling_suffix(name@)));
                    }
                    out.push(copy_bytes(name.as_slice()));
                }
            }
            proof {
                let b = self.list.builds@;
                assert forall|j: int| 0 <= j < out@.len() implies {
                    &&& (exists|t: int|
                        0 <= t < listing@.len() && (#[trigger] listing@[t])@ == (
                        #[trigger] out@[j])@)
                    &&& is_rolling_name(out@[j]@)
                    &&& !suffix_kept(b, keep@, rolling_suffix(out@[j]@))
                } by {
                    if j < out0.len() {
                        assert(out@[j] == out0[j]);
                        let t = choose|t: int|
                            0 <= t < listing@.len() && (#[trigger] listing@[t])@ == (out0[j])@;
                        assert((listing@[t])@ == (out@[j])@);
                    } else {
                        assert(out@[j]@ == listing@[i as int]@);
                        assert((listing@[i as int])@ == (out@[j])@);
                    }
                }
                assert forall|t: int|
                    0 <= t < i + 1 && is_rolling_name((#[trigger] listing@[t])@) && !suffix_kept(
                        b,
                        keep@,
                        rolling_suffix(listing@[t]@),
                    ) implies (exists|j: int| 0 <= j < out@.len() && (#[trigger] out@[j])@
                        == listing@[t]@) by {
                    if t == i {
                        assert((out@[out@.len() - 1])@ == listing@[t]@);
                    } else {
                        let j = choose|j: int|
                            0 <= j < out0.len() && (#[trigger] out0[j])@ == listing@[t]@;
                        assert((out@[j])@ == listing@[t]@);
                    }
                }
            }
            i += 1;
        }
        out
    }
}

/// `v` equals `name` from byte `from` on.
fn eq_from(v: &[u8], name: &[u8], from: usize) -> (r: bool)
    requires
        from <= name@.len(),
    ensures
        r == (v@ == name@.skip(from as int)),
{
    let ghost tail = name@.skip(from as int);
    if v.len() != name.len() - from {
        assert(v@ != tail) by {
            if v@ == tail {
                assert(v@.len() == tail.len());
            }
        }
        return false;
    }
    let mut i: usize = 0;
    while i < v.len()
        invariant
            i <= v@.len(),
            v@.len() == name@.len() - from,
            forall|j: int| 0 <= j < i ==> v@[j] == name@[from + j],
        decreases v@.len() - i,
    {
        if v[i] != name[from + i] {
            assert(v@ != tail) by {
                if v@ == tail {
                    assert(v@[i as int] == tail[i as int]);
                }
            }
            return false;
        }
        i += 1;
    }
    assert(v@ =~= tail);
    true
}

/// An exact-pin cache entry not touched for more than the retention
/// period; a timestamp in the future counts as fresh.
pub open spec fn expired(entry: (Vec<u8>, u64), now: u64) -> bool {
    entry.1 <= now && now - entry.1 > RETENTION_SECS
}

/// The exact-pin files the retention sweep must delete, as indices into
/// `entries`, which pairs each file name with its modification time in
/// seconds: exactly those whose age exceeds the retention period.
pub fn clean_unused_exact_versions(entries: &Vec<(Vec<u8>, u64)>, now: u64) -> (r: Vec<usize>)
    ensures
        forall|j: int|
            0 <= j < r@.len() ==> #[trigger] r@[j] < entries@.len() && expired(
                entries@[r@[j] as int],
                now,
            ),
        forall|i: int|
            0 <= i < entries@.len() && expired(#[trigger] entries@[i], now) ==> (exists|j: int|
                0 <= j < r@.len() && #[trigger] r@[j] == i),
{
    let mut out: Vec<usize> = Vec::new();
    let mut i: usize = 0;
    while i < entries.len()
        invariant
            i <= entries@.len(),
            forall|j: int|
                0 <= j < out@.len() ==> #[trigger] out@[j] < i && expired(
                    entries@[out@[j] as int],
                    now,
                ),
            forall|t: int|
                0 <= t < i && expired(#[trigger] entries@[t], now) ==> (exists|j: int|
                    0 <= j < out@.len() && #[trigger] out@[j] == t),
        decreases entries@.len() - i,
    {
        let ghost out0 = out@;
        let modified = entries[i].1;
        if modified <= now && now - modified > RETENTION_SECS {
            out.push(i);
        }
        proof {
            assert forall|t: int|
                0 <= t < i + 1 && expired(#[trigger] entries@[t], now) implies (exists|j: int|
                    0 <= j < out@.len() && #[trigger] out@[j] == t) by {
                if t == i {
                    assert(out@[out@.len() - 1] == t);
                } else {
                    let j = choose|j: int| 0 <= j < out0.len() && #[trigger] out0[j] == t;
                    assert(out@[j] == t);
                }
            }
        }
        i += 1;
    }
    out
}

/// A name deleted by reconciliation.
pub open spec fn named_deleted(deleted: Seq<Vec<u8>>, name: Seq<u8>) -> bool {
    exists|j: int| 0 <= j < deleted.len() && (#[trigger] deleted[j])@ == name
}

/// Reconciliation leaves the rolling cache holding exactly the kept set.
///
/// Take any directory listing of the rolling cache after every kept
/// release's file was ensured, and the deletion set `clean_old_versions`
/// names for it. Then among the "solc-" files, the survivors are exactly
/// the kept versions: every surviving rolling file holds a kept version,
/// and every kept version's file survives.
pub proof fn lemma_rolling_reconciliation(
    b: Seq<SolcRelease>,
    keep: Seq<usize>,
    listing: Seq<Vec<u8>>,
    deleted: Seq<Vec<u8>>,
)
    requires
        forall|j: int|
            0 <= j < deleted.len() ==> is_rolling_name((#[trigger] deleted[j])@) && !suffix_kept(
                b,
                keep,
                rolling_suffix(deleted[j]@),
            ),
        forall|i: int|
            0 <= i < listing.len() && is_rolling_name((#[trigger] listing[i])@) && !suffix_kept(
                b,
                keep,
                rolling_suffix(listing[i]@),
            ) ==> named_deleted(deleted, listing[i]@),
        forall|k: int|
            0 <= k < keep.len() ==> (exists|i: int|
                0 <= i < listing.len() && (#[trigger] listing[i])@ == solc_prefix() + (
                #[trigger] b[keep[k] as int]).version@),
    ensures
        forall|i: int|
            0 <= i < listing.len() && is_rolling_name((#[trigger] listing[i])@) && !named_deleted(
                deleted,
                listing[i]@,
            ) ==> suffix_kept(b, keep, rolling_suffix(listing[i]@)),
        forall|k: int|
            0 <= k < keep.len() ==> (exists|i: int|
                0 <= i < listing.len() && (#[trigger] listing[i])@ == solc_prefix() + (
                #[trigger] b[keep[k] as int]).version@) && !named_deleted(
                deleted,
                solc_prefix() + b[keep[k] as int].version@,
            ),
{
    assert forall|k: int| 0 <= k < keep.len() implies (exists|i: int|
        0 <= i < listing.len() && (#[trigger] listing[i])@ == solc_prefix() + (
        #[trigger] b[keep[k] as int]).version@) && !named_deleted(
        deleted,
        solc_prefix() + b[keep[k] as int].version@,
    ) by {
        let name = solc_prefix() + b[keep[k] as int].version@;
        assert(rolling_suffix(name) =~= b[keep[k] as int].version@);
        assert(suffix_kept(b, keep, rolling_suffix(name)));
        if named_deleted(deleted, name) {
            let j = choose|j: int| 0 <= j < deleted.len() && (#[trigger] deleted[j])@ == name;
            assert(!suffix_kept(b, keep, rolling_suffix(deleted[j]@)));
        }
    }
}

// --- The download–verify–mark state machine ------------------------------

/// Where an ensure-release run stands.
#[derive(Clone, Copy, PartialEq, Eq, Structural, Debug)]
pub enum EnsureState {
    /// Waiting to hear whether the cache file exists.
    Probe,
    /// The file exists; waiting for its integrity check.
    CheckExisting,
    /// Waiting for a download to finish.
    Fetch,
    /// Freshly downloaded; waiting for its integrity check.
    CheckFresh,
    /// A verified binary is in place.
    Done { downloaded: bool },
}

/// What the embedding process reports back.
#[derive(Clone, Copy, PartialEq, Eq, Structural, Debug)]
pub enum EnsureEvent {
    /// Whether the cache file exists.
    Present(bool),
    /// Whether the file's digest matched the catalog's hash.
    Verified(bool),
    /// Whether the download completed.
    Fetched(bool),
}

/// What the embedding process must do next.
#[derive(Clone, Copy, PartialEq, Eq, Structural, Debug)]
pub enum EnsureAction {
    /// Verify the existing file against the catalog hash.
    VerifyExisting,
    /// Download the release to its cache path.
    Download,
    /// Delete the corrupt file, then download after the retry delay.
    DeleteThenDownload,
    /// Download again after the retry delay.
    RetryDownload,
    /// Verify the fresh download.
    VerifyFresh,
    /// Verification passed: mark the file executable and usable.
    MarkUsable,
    /// The existing file verified: nothing to do.
    AlreadyUsable,
    /// No work: the run is finished or the event did not apply.
    Idle,
}

/// The transition relation: probe, then verify or fetch; fetch retries
/// forever; a failed check deletes before any retry; only a passed check
/// marks the binary usable.
pub open spec fn ensure_step_spec(s: EnsureState, e: EnsureEvent) -> (EnsureState, EnsureAction) {
    match (s, e) {
        (EnsureState::Probe, EnsureEvent::Present(true)) => (
            EnsureState::CheckExisting,
            EnsureAction::VerifyExisting,
        ),
        (EnsureState::Probe, EnsureEvent::Present(false)) => (
            EnsureState::Fetch,
            EnsureAction::Download,
        ),
        (EnsureState::CheckExisting, EnsureEvent::Verified(true)) => (
            EnsureState::Done { downloaded: false },
            EnsureAction::AlreadyUsable,
        ),
        (EnsureState::CheckExisting, EnsureEvent::Verified(false)) => (
            EnsureState::Fetch,
            EnsureAction::DeleteThenDownload,
        ),
        (EnsureState::Fetch, EnsureEvent::Fetched(true)) => (
            EnsureState::CheckFresh,
            EnsureAction::VerifyFresh,
        ),
        (EnsureState::Fetch, EnsureEvent::Fetched(false)) => (
            EnsureState::Fetch,
            EnsureAction::RetryDownload,
        ),
        (EnsureState::CheckFresh, EnsureEvent::Verified(true)) => (
            EnsureState::Done { downloaded: true },
            EnsureAction::MarkUsable,
        ),
        (EnsureState::CheckFresh, EnsureEvent::Verified(false)) => (
            EnsureState::Fetch,
            EnsureAction::DeleteThenDownload,
        ),
        (s, _) => (s, EnsureAction::Idle),
    }
}

/// Take one step of the ensure-release machine.
pub fn ensure_step(s: EnsureState, e: EnsureEvent) -> (r: (EnsureState, EnsureAction))
    ensures
        r == ensure_step_spec(s, e),
{
    match (s, e) {
        (EnsureState::Probe, EnsureEvent::Present(true)) => (
            EnsureState::CheckExisting,
            EnsureAction::VerifyExisting,
        ),
        (EnsureState::Probe, EnsureEvent::Present(false)) => (
            EnsureState::Fetch,
            EnsureAction::Download,
        ),
        (EnsureState::CheckExisting, EnsureEvent::Verified(true)) => (
            EnsureState::Done { downloaded: false },
            EnsureAction::AlreadyUsable,
        ),
        (EnsureState::CheckExisting, EnsureEvent::Verified(false)) => (
            EnsureState::Fetch,
            EnsureAction::DeleteThenDownload,
        ),
        (EnsureState::Fetch, EnsureEvent::Fetched(true)) => (
            EnsureState::CheckFresh,
            EnsureAction::VerifyFresh,
        ),
        (EnsureState::Fetch, EnsureEvent::Fetched(false)) => (
            EnsureState::Fetch,
            EnsureAction::RetryDownload,
        ),
        (EnsureState::CheckFresh, EnsureEvent::Verified(true)) => (
            EnsureState::Done { downloaded: true },
            EnsureAction::MarkUsable,
        ),
        (EnsureState::CheckFresh, EnsureEvent::Verified(false)) => (
            EnsureState::Fetch,
            EnsureAction::DeleteThenDownload,
        ),
        (other, _) => (other, EnsureAction::Idle),
    }
}

/// The actions a run takes on a sequence of events.
pub open spec fn ensure_run(s: EnsureState, events: Seq<EnsureEvent>) -> Seq<EnsureAction>
    decreases events.len(),
{
    if events.len() == 0 {
        Seq::empty()
    } else {
        seq![ensure_step_spec(s, events.first()).1] + ensure_run(
            ensure_step_spec(s, events.first()).0,
            events.drop_first(),
        )
    }
}

/// The state a run ends in.
pub open spec fn ensure_state_after(s: EnsureState, events: Seq<EnsureEvent>) -> EnsureState
    decreases events.len(),
{
    if events.len() == 0 {
        s
    } else {
        ensure_state_after(ensure_step_spec(s, events.first()).0, events.drop_first())
    }
}

/// An action that goes to the network.
pub open spec fn is_download_action(a: EnsureAction) -> bool {
    a is Download || a is DeleteThenDownload || a is RetryDownload
}

/// A finished run takes no further action of any kind.
pub proof fn lemma_done_is_idle(d: bool, events: Seq<EnsureEvent>)
    ensures
        forall|k: int|
            0 <= k < ensure_run(EnsureState::Done { downloaded: d }, events).len()
                ==> ensure_run(EnsureState::Done { downloaded: d }, events)[k]
                == EnsureAction::Idle,
    decreases events.len(),
{
    if events.len() > 0 {
        lemma_done_is_idle(d, events.drop_first());
    }
}

/// A release whose cache file already exists and verifies is reconciled
/// without a single network request: run the machine a second time over a
/// cache the first run left intact, and no download action ever comes.
pub proof fn lemma_cached_release_skips_network(events: Seq<EnsureEvent>)
    requires
        events.len() >= 2,
        events[0] == EnsureEvent::Present(true),
        events[1] == EnsureEvent::Verified(true),
    ensures
        forall|k: int|
            0 <= k < ensure_run(EnsureState::Probe, events).len() ==> !is_download_action(
                #[trigger] ensure_run(EnsureState::Probe, events)[k],
            ),
{
    let e1 = events.drop_first();
    let e2 = e1.drop_first();
    assert(ensure_run(EnsureState::Probe, events) == seq![EnsureAction::VerifyExisting]
        + ensure_run(EnsureState::CheckExisting, e1));
    assert(e1.first() == events[1]);
    assert(ensure_run(EnsureState::CheckExisting, e1) == seq![EnsureAction::AlreadyUsable]
        + ensure_run(EnsureState::Done { downloaded: false }, e2));
    lemma_done_is_idle(false, e2);
    assert forall|k: int| 0 <= k < ensure_run(EnsureState::Probe, events).len() implies
        !is_download_action(#[trigger] ensure_run(EnsureState::Probe, events)[k]) by {
        if k >= 2 {
            assert(ensure_run(EnsureState::Probe, events)[k] == ensure_run(
                EnsureState::Done { downloaded: false },
                e2,
            )[k - 2]);
        }
    }
}

/// The machine marks a binary usable only on the passed check of a fresh
/// download, and reports an existing binary usable only on its passed
/// check: nothing unverified is ever marked.
pub proof fn lemma_mark_needs_verification(s: EnsureState, e: EnsureEvent)
    ensures
        ensure_step_spec(s, e).1 == EnsureAction::MarkUsable ==> s == EnsureState::CheckFresh && e
            == EnsureEvent::Verified(true),
        ensure_step_spec(s, e).1 == EnsureAction::AlreadyUsable ==> s
            == EnsureState::CheckExisting && e == EnsureEvent::Verified(true),
{
}

/// A cache path pre-seeded with garbage under a version's file name is
/// detected as corrupt, deleted, re-fetched, and only the verified
/// replacement is marked usable.
pub proof fn lemma_corrupt_entry_replaced()
    ensures
        ensure_run(
            EnsureState::Probe,
            seq![
                EnsureEvent::Present(true),
                EnsureEvent::Verified(false),
                EnsureEvent::Fetched(true),
                EnsureEvent::Verified(true),
            ],
        ) =~= seq![
            EnsureAction::VerifyExisting,
            EnsureAction::DeleteThenDownload,
            EnsureAction::VerifyFresh,
            EnsureAction::MarkUsable,
        ],
        ensure_state_after(
            EnsureState::Probe,
            seq![
                EnsureEvent::Present(true),
                EnsureEvent::Verified(false),
                EnsureEvent::Fetched(true),
                EnsureEvent::Verified(true),
            ],
        ) == (EnsureState::Done { downloaded: true }),
{
    let events = seq![
        EnsureEvent::Present(true),
        EnsureEvent::Verified(false),
        EnsureEvent::Fetched(true),
        EnsureEvent::Verified(true),
    ];
    let e1 = events.drop_first();
    let e2 = e1.drop_first();
    let e3 = e2.drop_first();
    let e4 = e3.drop_first();
    assert(events.first() == events[0]);
    assert(e1.first() == events[1] && e2.first() == events[2] && e3.first() == events[3]);
    assert(e4.len() == 0);
    assert(ensure_run(EnsureState::Probe, events) == seq![EnsureAction::VerifyExisting]
        + ensure_run(EnsureState::CheckExisting, e1));
    assert(ensure_run(EnsureState::CheckExisting, e1) == seq![EnsureAction::DeleteThenDownload]
        + ensure_run(EnsureState::Fetch, e2));
    assert(ensure_run(EnsureState::Fetch, e2) == seq![EnsureAction::VerifyFresh] + ensure_run(
        EnsureState::CheckFresh,
        e3,
    ));
    assert(ensure_run(EnsureState::CheckFresh, e3) == seq![EnsureAction::MarkUsable] + ensure_run(
        EnsureState::Done { downloaded: true },
        e4,
    ));
    assert(ensure_run(EnsureState::Done { downloaded: true }, e4) =~= Seq::<
        EnsureAction,
    >::empty());
    assert(ensure_run(EnsureState::Probe, events) =~= seq![
        EnsureAction::VerifyExisting,
        EnsureAction::DeleteThenDownload,
        EnsureAction::VerifyFresh,
        EnsureAction::MarkUsable,
    ]);
    assert(ensure_state_after(EnsureState::Probe, events) == ensure_state_after(
        EnsureState::CheckExisting,
        e1,
    ));
    assert(ensure_state_after(EnsureState::CheckExisting, e1) == ensure_state_after(
        EnsureState::Fetch,
        e2,
    ));
    assert(ensure_state_after(EnsureState::Fetch, e2) == ensure_state_after(
        EnsureState::CheckFresh,
        e3,
    ));
    assert(ensure_state_after(EnsureState::CheckFresh, e3) == ensure_state_after(
        EnsureState::Done { downloaded: true },
        e4,
    ));
}

} // verus!
