use solc_toolchain::bytes::{find_seq, parse_u64_dec, u64_to_dec};
use solc_toolchain::fetch::{download_url, sha256_hex, verify_sha256};
use solc_toolchain::platform::{get_platform_id, Arch, Platform, OS};
use solc_toolchain::project::{
    find_project_root, has_hardhat_config, parse_foundry_toml, parse_remappings,
    parse_remappings_txt,
};
use solc_toolchain::position::{byte_offset_to_position, position_to_byte_offset, TextPosition};
use solc_toolchain::text::extract_identifier_at;
use solc_toolchain::version::parse_version;

#[test]
fn platform_detection_maps_host_names() {
    let p = Platform::detect(b"linux", b"x86_64").unwrap();
    assert_eq!(p, Platform { os: OS::Linux, arch: Arch::Amd64 });
    assert_eq!(p.id(), b"linux-amd64".to_vec());
    let m = Platform::detect(b"macos", b"aarch64").unwrap();
    assert_eq!(m.id(), b"macosx-aarch64".to_vec());
    assert!(Platform::detect(b"plan9", b"x86_64").is_none());
    assert!(Platform::detect(b"linux", b"riscv64").is_none());
    assert_eq!(get_platform_id(b"windows", b"x86_64"), Some(b"windows-amd64".to_vec()));
    assert_eq!(get_platform_id(b"linux", b"mips"), None);
}

#[test]
fn executable_and_basename_rendering() {
    let w = Platform { os: OS::Windows, arch: Arch::Amd64 };
    let l = Platform { os: OS::Linux, arch: Arch::Amd64 };
    assert_eq!(w.executable_name(b"solc-0.8.1"), b"solc-0.8.1.exe".to_vec());
    assert_eq!(l.executable_name(b"solc-0.8.1"), b"solc-0.8.1".to_vec());
    assert_eq!(
        l.solc_binary_basename(b"0.8.19", b"commit.7dd6d404"),
        b"solc-linux-amd64-v0.8.19+commit.7dd6d404".to_vec()
    );
}

#[test]
fn download_urls_join_base_platform_and_path() {
    assert_eq!(
        download_url(b"https://binaries.soliditylang.org", b"linux-amd64", b"solc-x"),
        b"https://binaries.soliditylang.org/linux-amd64/solc-x".to_vec()
    );
}

#[test]
fn digest_of_a_file_verifies_and_others_fail() {
    let data = b"some downloaded binary contents";
    let good = sha256_hex(data);
    assert!(verify_sha256(data, &good).is_ok());
    // case-insensitive comparison
    let upper: Vec<u8> = good.iter().map(|b| b.to_ascii_uppercase()).collect();
    assert!(verify_sha256(data, &upper).is_ok());
    let mut bad = good.clone();
    let last = bad.len() - 1;
    bad[last] = if bad[last] == b'0' { b'1' } else { b'0' };
    assert!(verify_sha256(data, &bad).is_err());
    assert!(verify_sha256(data, b"0xdeadbeef").is_err());
    assert!(verify_sha256(data, b"").is_err());
}

#[test]
fn sha256_known_answer() {
    assert_eq!(
        sha256_hex(b"abc"),
        b"0xba7816bf8f01cfea414140de5dae2223b00361a396177a9cb410ff61f20015ad".to_vec()
    );
    assert_eq!(
        sha256_hex(b""),
        b"0xe3b0c44298fc1c149afbf4c8996fb92427ae41e4649b934ca495991b7852b855".to_vec()
    );
}

#[test]
fn version_parsing_accepts_canonical_triples_only() {
    let ok = parse_version(b"0.8.19", 0, 6).unwrap();
    assert_eq!((ok.major, ok.minor, ok.patch), (0, 8, 19));
    assert!(parse_version(b"01.2.3", 0, 6).is_none());
    assert!(parse_version(b"1.2", 0, 3).is_none());
    assert!(parse_version(b"1.2.3.4", 0, 7).is_none());
    assert!(parse_version(b"1.2.x", 0, 5).is_none());
    assert!(parse_version(b"", 0, 0).is_none());
}

#[test]
fn numerals_round_trip() {
    assert_eq!(u64_to_dec(0), b"0".to_vec());
    assert_eq!(u64_to_dec(90210), b"90210".to_vec());
    assert_eq!(parse_u64_dec(b"90210", 0, 5), Some(90210));
    assert_eq!(parse_u64_dec(b"007", 0, 3), None);
    assert_eq!(parse_u64_dec(b"18446744073709551615", 0, 20), Some(u64::MAX));
    assert_eq!(parse_u64_dec(b"18446744073709551616", 0, 20), None);
}

#[test]
fn substring_search_finds_first_occurrence() {
    assert_eq!(find_seq(b"abcabc", b"bc"), Some(1));
    assert_eq!(find_seq(b"abc", b"zz"), None);
    assert_eq!(find_seq(b"abc", b""), Some(0));
}

#[test]
fn remappings_txt_lines_split_on_single_equals() {
    let rms = parse_remappings_txt(b"@oz/=lib/oz/\nnot a mapping\n a = b \nx=y=z\n");
    assert_eq!(rms.len(), 2);
    assert_eq!(rms[0].prefix, b"@oz/".to_vec());
    assert_eq!(rms[0].target, b"lib/oz/".to_vec());
    assert_eq!(rms[1].prefix, b"a".to_vec());
    assert_eq!(rms[1].target, b"b".to_vec());
}

#[test]
fn foundry_toml_remappings_block_is_honoured() {
    let toml = b"[profile.default]\nsrc = \"src\"\n[remappings]\n\"@oz/=lib/oz/\"\nds/=lib/ds/\n[other]\nq=r\n";
    let rms = parse_foundry_toml(toml);
    assert_eq!(rms.len(), 2);
    assert_eq!(rms[0].prefix, b"@oz/".to_vec());
    assert_eq!(rms[1].prefix, b"ds/".to_vec());
}

#[test]
fn combined_remappings_dedup_and_hardhat_default() {
    let rms = parse_remappings(b"a=b\n", b"[remappings]\na=b\nc=d\n", true);
    assert_eq!(rms.len(), 3);
    assert!(rms.iter().any(|r| r.prefix == b"@".to_vec() && r.target == b"node_modules/@".to_vec()));
    let no_hardhat = parse_remappings(b"a=b\n", b"", false);
    assert_eq!(no_hardhat.len(), 1);
}

#[test]
fn hardhat_config_detection() {
    let files = vec![b"package.json".to_vec(), b"hardhat.config.ts".to_vec()];
    assert!(has_hardhat_config(&files));
    assert!(!has_hardhat_config(&vec![b"foundry.toml".to_vec()]));
}

#[test]
fn project_root_is_the_outermost_marked_ancestor() {
    let dirs = vec![
        b"/home/u/proj/contracts".to_vec(),
        b"/home/u/proj".to_vec(),
        b"/home/u".to_vec(),
        b"/home".to_vec(),
    ];
    let marks = vec![false, true, true, false];
    assert_eq!(find_project_root(&dirs, &marks), Some(b"/home/u".to_vec()));
    let none = vec![false, false, false, false];
    assert_eq!(find_project_root(&dirs, &none), None);
}

#[test]
fn identifier_extraction_around_an_offset() {
    let src = b"contract Foo { uint256 total_supply; }";
    assert_eq!(extract_identifier_at(src, 10), Some(b"Foo".to_vec()));
    assert_eq!(extract_identifier_at(src, 25), Some(b"total_supply".to_vec()));
    assert_eq!(extract_identifier_at(src, 13), None); // a space between tokens
    assert_eq!(extract_identifier_at(src, 9999), None);
}

#[test]
fn byte_offsets_and_positions_convert_both_ways() {
    let src = b"contract C {\n  uint x;\n}";
    let p = byte_offset_to_position(src, 15);
    assert_eq!(p, TextPosition { line: 1, character: 2 });
    assert_eq!(position_to_byte_offset(src, p), Some(15));
    // the newline byte belongs to its line
    assert_eq!(byte_offset_to_position(src, 12), TextPosition { line: 0, character: 12 });
    // past the end: the position after the last line
    assert_eq!(byte_offset_to_position(src, 999), TextPosition { line: 3, character: 0 });
    // a column past the line's end resolves to nothing
    assert_eq!(position_to_byte_offset(src, TextPosition { line: 0, character: 13 }), None);
    // a line the text does not have resolves to nothing
    assert_eq!(position_to_byte_offset(src, TextPosition { line: 9, character: 0 }), None);
}
