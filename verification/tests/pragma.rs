use solc_toolchain::switcher::{extract_pragma, extract_pragma_version, Pragma, PragmaError};
use solc_toolchain::version::Version;

#[test]
fn exact_pragma_is_classified_exact() {
    let src = b"// SPDX-License-Identifier: MIT\npragma solidity =0.8.19;\ncontract C {}\n";
    match extract_pragma(src).unwrap() {
        Pragma::Exact(v) => {
            assert_eq!(v, Version { major: 0, minor: 8, patch: 19 });
        }
        Pragma::Range(_) => panic!("expected an exact pin"),
    }
}

#[test]
fn caret_pragma_is_classified_range() {
    let src = b"pragma solidity ^0.8.0;\n";
    match extract_pragma(src).unwrap() {
        Pragma::Range(req) => {
            assert!(req.matches_version(&Version { major: 0, minor: 8, patch: 0 }));
            assert!(req.matches_version(&Version { major: 0, minor: 8, patch: 21 }));
            assert!(!req.matches_version(&Version { major: 0, minor: 9, patch: 0 }));
            assert!(!req.matches_version(&Version { major: 1, minor: 0, patch: 0 }));
        }
        Pragma::Exact(_) => panic!("expected a range"),
    }
}

#[test]
fn conjunction_pragma_is_classified_range() {
    let src = b"pragma solidity >=0.8.7 <0.9.0;\n";
    match extract_pragma(src).unwrap() {
        Pragma::Range(req) => {
            assert!(req.matches_version(&Version { major: 0, minor: 8, patch: 7 }));
            assert!(req.matches_version(&Version { major: 0, minor: 8, patch: 99 }));
            assert!(!req.matches_version(&Version { major: 0, minor: 8, patch: 6 }));
            assert!(!req.matches_version(&Version { major: 0, minor: 9, patch: 0 }));
        }
        Pragma::Exact(_) => panic!("expected a range"),
    }
}

#[test]
fn missing_pragma_is_no_pragma() {
    let src = b"contract C { function f() public {} }\n";
    assert_eq!(extract_pragma(src).unwrap_err(), PragmaError::NoPragma);
}

#[test]
fn malformed_pragma_is_parse_error() {
    let src = b"pragma solidity nonsense;\n";
    assert_eq!(extract_pragma(src).unwrap_err(), PragmaError::PragmaParse);
}

#[test]
fn exact_version_with_garbage_token_fails() {
    let src = b"pragma solidity =not.a.version;\n";
    assert_eq!(extract_pragma(src).unwrap_err(), PragmaError::PragmaParse);
}

#[test]
fn greater_equal_anchor_stays_range() {
    // '=' inside ">=" is no equality anchor
    let src = b"pragma solidity >=0.8.7;\n";
    match extract_pragma(src).unwrap() {
        Pragma::Range(req) => {
            assert!(req.matches_version(&Version { major: 1, minor: 0, patch: 0 }));
            assert!(!req.matches_version(&Version { major: 0, minor: 8, patch: 6 }));
        }
        Pragma::Exact(_) => panic!("expected a range"),
    }
}

#[test]
fn extract_pragma_version_reads_requirement() {
    let src = b"pragma solidity ~0.8.2;\n";
    let req = extract_pragma_version(src).unwrap();
    assert!(req.matches_version(&Version { major: 0, minor: 8, patch: 9 }));
    assert!(!req.matches_version(&Version { major: 0, minor: 9, patch: 0 }));
}

#[test]
fn tilde_and_comparison_semantics() {
    let src = b"pragma solidity ~1.2.3;\n";
    let req = extract_pragma_version(src).unwrap();
    assert!(req.matches_version(&Version { major: 1, minor: 2, patch: 3 }));
    assert!(req.matches_version(&Version { major: 1, minor: 2, patch: 9 }));
    assert!(!req.matches_version(&Version { major: 1, minor: 3, patch: 0 }));
}

#[test]
fn bare_requirement_means_caret() {
    let src = b"pragma solidity 0.8.1;\n";
    match extract_pragma(src).unwrap() {
        Pragma::Range(req) => {
            assert!(req.matches_version(&Version { major: 0, minor: 8, patch: 5 }));
            assert!(!req.matches_version(&Version { major: 0, minor: 9, patch: 0 }));
        }
        Pragma::Exact(_) => panic!("expected a range"),
    }
}
