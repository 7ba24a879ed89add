use solc_toolchain::catalog::{SolcList, SolcRelease};
use solc_toolchain::manager::{
    cache_filename, clean_unused_exact_versions, ensure_step, EnsureAction, EnsureEvent,
    EnsureState, SolcManager, RETENTION_SECS,
};
use solc_toolchain::version::Version;

fn release(version: &str) -> SolcRelease {
    SolcRelease {
        path: format!("solc-linux-amd64-v{}+commit.abc", version).into_bytes(),
        version: version.as_bytes().to_vec(),
        build: b"commit.abc".to_vec(),
        long_version: format!("{}+commit.abc", version).into_bytes(),
        keccak256: Vec::new(),
        sha256: b"0x00".to_vec(),
        urls: Vec::new(),
    }
}

fn catalog(versions: &[&str]) -> SolcList {
    SolcList {
        builds: versions.iter().map(|v| release(v)).collect(),
        releases: Vec::new(),
        latest_release: None,
    }
}

#[test]
fn latest_per_minor_keeps_greatest_patch_of_each_series() {
    // two minor series with three patches each
    let list = catalog(&["0.7.0", "0.7.4", "0.7.2", "0.8.1", "0.8.9", "0.8.3"]);
    let mut latest: Vec<&[u8]> = list
        .latest_per_minor()
        .into_iter()
        .map(|i| list.builds[i].version.as_slice())
        .collect();
    latest.sort();
    assert_eq!(latest, vec![b"0.7.4".as_slice(), b"0.8.9".as_slice()]);
}

#[test]
fn latest_per_minor_skips_unparsable_versions() {
    let list = catalog(&["0.8.1", "not-a-version", "0.8.2"]);
    let latest = list.latest_per_minor();
    assert_eq!(latest.len(), 1);
    assert_eq!(list.builds[latest[0]].version, b"0.8.2".to_vec());
}

#[test]
fn by_version_is_last_write_wins() {
    let list = catalog(&["0.8.1", "0.8.2", "0.8.1"]);
    assert_eq!(list.by_version(b"0.8.1"), Some(2));
    assert_eq!(list.by_version(b"0.8.2"), Some(1));
    assert_eq!(list.by_version(b"0.8.9"), None);
}

#[test]
fn reconciliation_deletes_exactly_the_stale_rolling_files() {
    let list = catalog(&["0.7.0", "0.7.4", "0.8.1", "0.8.9"]);
    let manager = SolcManager::new(b"/cache/solc".to_vec(), list);
    let keep = manager.ensure_latest_versions();
    // after ensuring, the rolling cache holds the two targets plus leftovers
    let listing: Vec<Vec<u8>> = vec![
        b"solc-0.7.4".to_vec(),
        b"solc-0.8.9".to_vec(),
        b"solc-0.7.0".to_vec(),
        b"solc-0.8.1".to_vec(),
        b"list.json".to_vec(),
    ];
    let mut doomed = manager.clean_old_versions(&keep, &listing);
    doomed.sort();
    assert_eq!(doomed, vec![b"solc-0.7.0".to_vec(), b"solc-0.8.1".to_vec()]);
    // the cache then holds exactly the two greatest-patch versions
    let survivors: Vec<&Vec<u8>> = listing
        .iter()
        .filter(|n| n.starts_with(b"solc-") && !doomed.contains(n))
        .collect();
    assert_eq!(survivors.len(), 2);
    assert!(survivors.contains(&&b"solc-0.7.4".to_vec()));
    assert!(survivors.contains(&&b"solc-0.8.9".to_vec()));
}

#[test]
fn get_binary_path_is_a_pure_listing_lookup() {
    let manager = SolcManager::new(b"/cache/solc".to_vec(), catalog(&["0.8.1"]));
    let listing = vec![b"solc-0.8.1".to_vec()];
    assert_eq!(
        manager.get_binary_path(b"0.8.1", &listing),
        Some(b"/cache/solc/solc-0.8.1".to_vec())
    );
    assert_eq!(manager.get_binary_path(b"0.8.2", &listing), None);
}

#[test]
fn cache_filenames_encode_the_version() {
    assert_eq!(cache_filename(b"0.8.19", false), b"solc-0.8.19".to_vec());
    assert_eq!(cache_filename(b"0.8.19", true), b"solc-0.8.19.exe".to_vec());
}

#[test]
fn retention_sweep_removes_only_entries_past_thirty_days() {
    let day = 86400u64;
    let now = 365 * day;
    let entries: Vec<(Vec<u8>, u64)> = vec![
        (b"solc-0.8.1".to_vec(), now - 31 * day),
        (b"solc-0.8.2".to_vec(), now - 29 * day),
        (b"solc-0.8.3".to_vec(), now + day), // clock skew: counts as fresh
    ];
    let doomed = clean_unused_exact_versions(&entries, now);
    assert_eq!(doomed, vec![0usize]);
    assert!(now - entries[0].1 > RETENTION_SECS);
    assert!(now - entries[1].1 < RETENTION_SECS);
}

#[test]
fn cached_release_is_reconciled_without_network() {
    // first run installed and verified the file; the second run probes,
    // verifies, and is done without any download action
    let (s1, a1) = ensure_step(EnsureState::Probe, EnsureEvent::Present(true));
    assert_eq!(a1, EnsureAction::VerifyExisting);
    let (s2, a2) = ensure_step(s1, EnsureEvent::Verified(true));
    assert_eq!(a2, EnsureAction::AlreadyUsable);
    assert_eq!(s2, EnsureState::Done { downloaded: false });
    // and a finished run stays idle
    let (s3, a3) = ensure_step(s2, EnsureEvent::Present(true));
    assert_eq!(a3, EnsureAction::Idle);
    assert_eq!(s3, EnsureState::Done { downloaded: false });
}

#[test]
fn corrupt_cache_entry_is_deleted_and_replaced() {
    let (s1, a1) = ensure_step(EnsureState::Probe, EnsureEvent::Present(true));
    assert_eq!(a1, EnsureAction::VerifyExisting);
    let (s2, a2) = ensure_step(s1, EnsureEvent::Verified(false));
    assert_eq!(a2, EnsureAction::DeleteThenDownload);
    let (s3, a3) = ensure_step(s2, EnsureEvent::Fetched(true));
    assert_eq!(a3, EnsureAction::VerifyFresh);
    let (s4, a4) = ensure_step(s3, EnsureEvent::Verified(true));
    assert_eq!(a4, EnsureAction::MarkUsable);
    assert_eq!(s4, EnsureState::Done { downloaded: true });
}

#[test]
fn failed_download_retries_and_never_marks_unverified() {
    let (s1, a1) = ensure_step(EnsureState::Probe, EnsureEvent::Present(false));
    assert_eq!(a1, EnsureAction::Download);
    let (s2, a2) = ensure_step(s1, EnsureEvent::Fetched(false));
    assert_eq!(a2, EnsureAction::RetryDownload);
    let (s3, a3) = ensure_step(s2, EnsureEvent::Fetched(true));
    assert_eq!(a3, EnsureAction::VerifyFresh);
    let (_s4, a4) = ensure_step(s3, EnsureEvent::Verified(false));
    assert_eq!(a4, EnsureAction::DeleteThenDownload);
}

#[test]
fn manifest_parse_reads_records_and_rejects_missing_fields() {
    let doc = br#"{
        "builds": [
            {"path": "solc-linux-amd64-v0.8.19+commit.7dd6d404",
             "version": "0.8.19", "build": "commit.7dd6d404",
             "longVersion": "0.8.19+commit.7dd6d404",
             "sha256": "0xabcdef", "urls": ["dl://one"]}
        ],
        "releases": {"0.8.19": "solc-linux-amd64-v0.8.19+commit.7dd6d404"},
        "latest_release": "0.8.19"
    }"#;
    let list = SolcList::parse(doc).unwrap();
    assert_eq!(list.builds.len(), 1);
    assert_eq!(list.builds[0].version, b"0.8.19".to_vec());
    assert_eq!(list.builds[0].sha256, b"0xabcdef".to_vec());
    assert_eq!(list.builds[0].urls, vec![b"dl://one".to_vec()]);
    assert_eq!(list.releases.len(), 1);
    assert_eq!(list.latest_release, Some(b"0.8.19".to_vec()));

    let missing = br#"{"builds": [{"version": "0.8.19", "build": "c", "longVersion": "l"}]}"#;
    assert!(SolcList::parse(missing).is_err());
    assert!(SolcList::parse(b"not json").is_err());
    // keccak256, sha256 and urls are optional
    let minimal = br#"{"builds": [{"path": "p", "version": "0.8.1", "build": "b", "longVersion": "l"}]}"#;
    let list2 = SolcList::parse(minimal).unwrap();
    assert_eq!(list2.builds[0].sha256, Vec::<u8>::new());
    assert_eq!(list2.builds[0].urls.len(), 0);
}

#[test]
fn version_renders_canonically() {
    let v = Version { major: 1, minor: 22, patch: 333 };
    assert_eq!(v.render(), b"1.22.333".to_vec());
    assert_eq!(Version { major: 0, minor: 0, patch: 0 }.render(), b"0.0.0".to_vec());
}

#[test]
fn latest_per_minor_ties_resolve_to_the_first_record() {
    // two records carry the same greatest version: the first of them wins
    let list = catalog(&["0.8.3", "0.8.9", "0.8.9", "0.8.1"]);
    let latest = list.latest_per_minor();
    assert_eq!(latest, vec![1usize]);
}
