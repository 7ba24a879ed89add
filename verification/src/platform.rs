//! Host platform detection and the distribution path segment it renders to.
use vstd::prelude::*;

use crate::bytes::{append_bytes, bytes_eq, copy_bytes};

verus! {

/// Operating systems the distribution serves binaries for.
#[derive(Clone, Copy, PartialEq, Eq, Structural, Debug)]
pub enum OS {
    Linux,
    MacOS,
    Windows,
}

/// CPU architectures the distribution serves binaries for.
#[derive(Clone, Copy, PartialEq, Eq, Structural, Debug)]
pub enum Arch {
    Amd64,
    Aarch64,
}

/// Combined platform target (OS + Arch).
#[derive(Clone, Copy, PartialEq, Eq, Structural, Debug)]
pub struct Platform {
    pub os: OS,
    pub arch: Arch,
}

/// "linux" | "macosx" | "windows" — the OS half of the path segment.
pub open spec fn os_segment(os: OS) -> Seq<u8> {
    match os {
        OS::Linux => seq![108u8, 105, 110, 117, 120],
        OS::MacOS => seq![109u8, 97, 99, 111, 115, 120],
        OS::Windows => seq![119u8, 105, 110, 100, 111, 119, 115],
    }
}

/// "amd64" | "aarch64" — the architecture half of the path segment.
pub open spec fn arch_segment(arch: Arch) -> Seq<u8> {
    match arch {
        Arch::Amd64 => seq![97u8, 109, 100, 54, 52],
        Arch::Aarch64 => seq![97u8, 97, 114, 99, 104, 54, 52],
    }
}

/// The canonical distribution path segment, e.g. "linux-amd64".
pub open spec fn platform_id_bytes(p: Platform) -> Seq<u8> {
    os_segment(p.os) + seq![45u8] + arch_segment(p.arch)
}

/// What a host OS name ("linux", "macos", "windows") maps to.
pub open spec fn os_of_name(name: Seq<u8>) -> Option<OS> {
    if name == seq![108u8, 105, 110, 117, 120] {
        Some(OS::Linux)
    } else if name == seq![109u8, 97, 99, 111, 115] {
        Some(OS::MacOS)
    } else if name == seq![119u8, 105, 110, 100, 111, 119, 115] {
        Some(OS::Windows)
    } else {
        None
    }
}

/// What a host architecture name ("x86_64", "aarch64") maps to.
pub open spec fn arch_of_name(name: Seq<u8>) -> Option<Arch> {
    if name == seq![120u8, 56, 54, 95, 54, 52] {
        Some(Arch::Amd64)
    } else if name == seq![97u8, 97, 114, 99, 104, 54, 52] {
        Some(Arch::Aarch64)
    } else {
        None
    }
}

impl Platform {
    /// Map the host's OS and architecture names, as `std::env::consts` spells
    /// them ("linux"/"macos"/"windows", "x86_64"/"aarch64"), to a platform;
    /// an unsupported host on either axis maps to nothing.
    pub fn detect(os_name: &[u8], arch_name: &[u8]) -> (r: Option<Platform>)
        ensures
            r == (match (os_of_name(os_name@), arch_of_name(arch_name@)) {
                (Some(os), Some(arch)) => Some(Platform { os, arch }),
                _ => None::<Platform>,
            }),
    {
        let linux: Vec<u8> = vec![108, 105, 110, 117, 120];
        let macos: Vec<u8> = vec![109, 97, 99, 111, 115];
        let windows: Vec<u8> = vec![119, 105, 110, 100, 111, 119, 115];
        let x86_64: Vec<u8> = vec![120, 56, 54, 95, 54, 52];
        let aarch64: Vec<u8> = vec![97, 97, 114, 99, 104, 54, 52];
        let os_opt: Option<OS> = if bytes_eq(os_name, linux.as_slice()) {
            Some(OS::Linux)
        } else if bytes_eq(os_name, macos.as_slice()) {
            Some(OS::MacOS)
        } else if bytes_eq(os_name, windows.as_slice()) {
            Some(OS::Windows)
        } else {
            None
        };
        let arch_opt: Option<Arch> = if bytes_eq(arch_name, x86_64.as_slice()) {
            Some(Arch::Amd64)
        } else if bytes_eq(arch_name, aarch64.as_slice()) {
            Some(Arch::Aarch64)
        } else {
            None
        };
        match (os_opt, arch_opt) {
            (Some(os), Some(arch)) => Some(Platform { os, arch }),
            _ => None,
        }
    }

    /// The distribution path segment, e.g. "linux-amd64"; macOS renders as
    /// "macosx".
    pub fn id(&self) -> (r: Vec<u8>)
        ensures
            r@ == platform_id_bytes(*self),
    {
        let mut out: Vec<u8> = match self.os {
            OS::Linux => vec![108, 105, 110, 117, 120],
            OS::MacOS => vec![109, 97, 99, 111, 115, 120],
            OS::Windows => vec![119, 105, 110, 100, 111, 119, 115],
        };
        out.push(45);
        let arch: Vec<u8> = match self.arch {
            Arch::Amd64 => vec![97, 109, 100, 54, 52],
            Arch::Aarch64 => vec![97, 97, 114, 99, 104, 54, 52],
        };
        append_bytes(&mut out, arch.as_slice());
        proof {
            assert(out@ =~= platform_id_bytes(*self));
        }
        out
    }

    /// The distribution's binary file name: "solc-<id>-v<version>+<build>".
    pub fn solc_binary_basename(&self, version: &[u8], build: &[u8]) -> (r: Vec<u8>)
        ensures
            r@ == seq![115u8, 111, 108, 99, 45] + platform_id_bytes(*self) + seq![45u8, 118]
                + version@ + seq![43u8] + build@,
    {
        let mut out: Vec<u8> = vec![115, 111, 108, 99, 45];
        let id = self.id();
        append_bytes(&mut out, id.as_slice());
        out.push(45);
        out.push(118);
        append_bytes(&mut out, version);
        out.push(43);
        append_bytes(&mut out, build);
        proof {
            assert(out@ =~= seq![115u8, 111, 108, 99, 45] + platform_id_bytes(*self) + seq![
                45u8,
                118,
            ] + version@ + seq![43u8] + build@);
        }
        out
    }

    /// The executable name for this platform: ".exe" is appended on Windows.
    pub fn executable_name(&self, base: &[u8]) -> (r: Vec<u8>)
        ensures
            r@ == (if self.os is Windows {
                base@ + seq![46u8, 101, 120, 101]
            } else {
                base@
            }),
    {
        let mut out = copy_bytes(base);
        match self.os {
            OS::Windows => {
                out.push(46);
                out.push(101);
                out.push(120);
                out.push(101);
                proof {
                    assert(out@ =~= base@ + seq![46u8, 101, 120, 101]);
                }
            },
            _ => {},
        }
        out
    }
}

/// The path segment of the host named by `os_name`/`arch_name`, when that
/// host is supported.
pub fn get_platform_id(os_name: &[u8], arch_name: &[u8]) -> (r: Option<Vec<u8>>)
    ensures
        r is Some <==> (os_of_name(os_name@) is Some && arch_of_name(arch_name@) is Some),
        r is Some ==> r.unwrap()@ == platform_id_bytes(
            Platform {
                os: os_of_name(os_name@).unwrap(),
                arch: arch_of_name(arch_name@).unwrap(),
            },
        ),
{
    match Platform::detect(os_name, arch_name) {
        Some(p) => Some(p.id()),
        None => None,
    }
}

} // verus!
