use solc_toolchain::catalog::{SolcList, SolcRelease};
use solc_toolchain::manager::SolcManager;
use solc_toolchain::switcher::{
    best_cached_match, exact_fetch_step, extract_pragma, match_cached_solc_version, resolve_start,
    resolve_step, ExactFetchAction, ExactFetchEvent, ExactFetchState, Pragma, ResolveAction,
    ResolveEvent, ResolveFailure, ResolveOutcome, ResolveState,
};
use solc_toolchain::version::Version;

fn release(version: &str) -> SolcRelease {
    SolcRelease {
        path: format!("solc-linux-amd64-v{}+commit.abc", version).into_bytes(),
        version: version.as_bytes().to_vec(),
        build: b"commit.abc".to_vec(),
        long_version: format!("{}+commit.abc", version).into_bytes(),
        keccak256: Vec::new(),
        sha256: b"0x00".to_vec(),
        urls: Vec::new(),
    }
}

#[test]
fn rolling_cache_scan_picks_greatest_satisfying_version() {
    let listing: Vec<Vec<u8>> = vec![
        b"solc-0.8.10".to_vec(),
        b"solc-0.8.19".to_vec(),
        b"solc-0.8.21".to_vec(),
    ];
    let req = match extract_pragma(b"pragma solidity ^0.8.0;\n").unwrap() {
        Pragma::Range(req) => req,
        _ => panic!("expected a range"),
    };
    let (v, idx) = best_cached_match(&listing, &req).unwrap();
    assert_eq!(v, Version { major: 0, minor: 8, patch: 21 });
    assert_eq!(idx, 2);
}

#[test]
fn resolve_range_returns_best_cached_binary() {
    let pragma = extract_pragma(b"pragma solidity ^0.8.0;\n").unwrap();
    let (state, action) = resolve_start(pragma, b"/cache/solc-exact", false);
    assert!(matches!(action, ResolveAction::ListRolling));
    let listing = vec![
        b"solc-0.8.10".to_vec(),
        b"solc-0.8.19".to_vec(),
        b"solc-0.8.21".to_vec(),
    ];
    let (state2, action2) =
        resolve_step(b"/cache/solc", state, ResolveEvent::RollingListing(listing));
    match action2 {
        ResolveAction::Deliver { outcome: ResolveOutcome::UseBinary(p) } => {
            assert_eq!(p, b"/cache/solc/solc-0.8.21".to_vec());
        }
        other => panic!("expected a delivery, got {:?}", other),
    }
    assert!(matches!(
        state2,
        ResolveState::Finished { outcome: ResolveOutcome::UseBinary(_) }
    ));
}

#[test]
fn resolve_range_falls_back_to_system_then_fails() {
    let pragma = extract_pragma(b"pragma solidity ^0.9.0;\n").unwrap();
    let (state, _) = resolve_start(pragma, b"/exact", false);
    let listing = vec![b"solc-0.8.21".to_vec()];
    let (state2, action2) =
        resolve_step(b"/roll", state, ResolveEvent::RollingListing(listing));
    assert!(matches!(action2, ResolveAction::ProbeSystem));
    let (state3, action3) = resolve_step(b"/roll", state2, ResolveEvent::SystemSolc(None));
    match (state3, action3) {
        (
            ResolveState::Finished { outcome: ResolveOutcome::Fail(f1) },
            ResolveAction::Deliver { outcome: ResolveOutcome::Fail(f2) },
        ) => {
            assert_eq!(f1, ResolveFailure::ToolchainNotFound);
            assert_eq!(f2, ResolveFailure::ToolchainNotFound);
        }
        other => panic!("expected toolchain-not-found, got {:?}", other),
    }
}

#[test]
fn resolve_exact_hit_uses_the_pinned_binary() {
    let pragma = extract_pragma(b"pragma solidity =0.8.19;\n").unwrap();
    let (state, action) = resolve_start(pragma, b"/exact", false);
    match action {
        ResolveAction::ProbeExact { path } => {
            assert_eq!(path, b"/exact/solc-0.8.19".to_vec());
        }
        other => panic!("expected an exact probe, got {:?}", other),
    }
    let (_state2, action2) = resolve_step(b"/roll", state, ResolveEvent::ExactPresent(true));
    match action2 {
        ResolveAction::Deliver { outcome: ResolveOutcome::UseBinary(p) } => {
            assert_eq!(p, b"/exact/solc-0.8.19".to_vec());
        }
        other => panic!("expected a delivery, got {:?}", other),
    }
}

#[test]
fn resolve_exact_miss_spawns_fetch_and_degrades_to_system() {
    let pragma = extract_pragma(b"pragma solidity =0.8.19;\n").unwrap();
    let (state, _) = resolve_start(pragma, b"/exact", false);
    let (state2, action2) = resolve_step(b"/roll", state, ResolveEvent::ExactPresent(false));
    match action2 {
        ResolveAction::SpawnFetchAndProbeSystem { version } => {
            assert_eq!(version, Version { major: 0, minor: 8, patch: 19 });
        }
        other => panic!("expected a detached fetch, got {:?}", other),
    }
    let (_state3, action3) = resolve_step(
        b"/roll",
        state2,
        ResolveEvent::SystemSolc(Some(b"/usr/bin/solc".to_vec())),
    );
    match action3 {
        ResolveAction::Deliver { outcome: ResolveOutcome::UseBinary(p) } => {
            assert_eq!(p, b"/usr/bin/solc".to_vec());
        }
        other => panic!("expected the system binary, got {:?}", other),
    }
}

#[test]
fn catalog_driven_match_intersects_requirement_and_cache() {
    let list = SolcList {
        builds: vec![release("0.8.10"), release("0.8.19"), release("0.8.21"), release("0.9.0")],
        releases: Vec::new(),
        latest_release: None,
    };
    let manager = SolcManager::new(b"/cache/solc".to_vec(), list);
    let req = match extract_pragma(b"pragma solidity ^0.8.0;\n").unwrap() {
        Pragma::Range(req) => req,
        _ => panic!("expected a range"),
    };
    // 0.8.21 satisfies but is not cached; the best cached match is 0.8.19
    let listing = vec![b"solc-0.8.10".to_vec(), b"solc-0.8.19".to_vec(), b"solc-0.9.0".to_vec()];
    assert_eq!(
        match_cached_solc_version(&manager, &req, &listing),
        Some(b"0.8.19".to_vec())
    );
    let empty: Vec<Vec<u8>> = Vec::new();
    assert_eq!(match_cached_solc_version(&manager, &req, &empty), None);
}

#[test]
fn unknown_exact_version_is_terminal_and_never_downloads() {
    let (s1, a1) = exact_fetch_step(ExactFetchState::FetchList, ExactFetchEvent::ListFetched(false));
    assert_eq!(a1, ExactFetchAction::RetryFetchList);
    let (s2, a2) = exact_fetch_step(s1, ExactFetchEvent::ListFetched(true));
    assert_eq!(a2, ExactFetchAction::ParseAndLookup);
    let (s3, a3) = exact_fetch_step(s2, ExactFetchEvent::Located(false));
    assert_eq!(a3, ExactFetchAction::Stop);
    assert_eq!(s3, ExactFetchState::Abandoned);
    let (s4, a4) = exact_fetch_step(s3, ExactFetchEvent::ListFetched(true));
    assert_eq!(a4, ExactFetchAction::Stop);
    assert_eq!(s4, ExactFetchState::Abandoned);
}

#[test]
fn located_exact_version_downloads_verifies_and_marks() {
    let (s1, a1) = exact_fetch_step(ExactFetchState::Lookup, ExactFetchEvent::Located(true));
    assert_eq!(a1, ExactFetchAction::DownloadBinary);
    let (s2, a2) = exact_fetch_step(s1, ExactFetchEvent::BinFetched(true));
    assert_eq!(a2, ExactFetchAction::VerifyBinary);
    let (s3, a3) = exact_fetch_step(s2, ExactFetchEvent::BinVerified(false));
    assert_eq!(a3, ExactFetchAction::DeleteThenRetryBinary);
    let (s4, a4) = exact_fetch_step(s3, ExactFetchEvent::BinFetched(true));
    assert_eq!(a4, ExactFetchAction::VerifyBinary);
    let (s5, a5) = exact_fetch_step(s4, ExactFetchEvent::BinVerified(true));
    assert_eq!(a5, ExactFetchAction::MarkUsable);
    assert_eq!(s5, ExactFetchState::Installed);
}
