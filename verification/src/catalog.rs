//! The release catalog: the remote manifest parsed into release records,
//! with its two derived views — latest release per minor series, and lookup
//! by exact version.
//!
//! The manifest document is JSON; it is taken apart through trusted
//! wrappers around serde_json, and everything derived from the resulting
//! plain records is verified.
use vstd::prelude::*;

use crate::version::{Version, version_repr, version_lt, parse_version, lemma_version_repr_injective};

verus! {

/// One release record of the manifest.
#[derive(Debug)]
pub struct SolcRelease {
    /// Relative download path of the binary.
    pub path: Vec<u8>,
    /// The release version, e.g. "0.8.19".
    pub version: Vec<u8>,
    /// Build identifier, e.g. "commit.7dd6d404".
    pub build: Vec<u8>,
    /// The long version string.
    pub long_version: Vec<u8>,
    /// Keccak-256 content hash, "0x"-prefixed hex; may be empty.
    pub keccak256: Vec<u8>,
    /// SHA-256 content hash, "0x"-prefixed hex; may be empty.
    pub sha256: Vec<u8>,
    /// Alternate download URLs.
    pub urls: Vec<Vec<u8>>,
}

/// The parsed manifest.
#[derive(Debug)]
pub struct SolcList {
    /// All release records, in manifest order.
    pub builds: Vec<SolcRelease>,
    /// The manifest's version-to-filename map, as given.
    pub releases: Vec<(Vec<u8>, Vec<u8>)>,
    /// The version the manifest marks latest, if any.
    pub latest_release: Option<Vec<u8>>,
}

/// The manifest could not be deserialized, a mandatory field of a release
/// record (path, version, build, longVersion) is missing or not a string,
/// or an optional member (urls, releases, latest_release) has the wrong
/// shape.
#[derive(Clone, Copy, PartialEq, Eq, Structural, Debug)]
pub struct ParseError {}

/// `s` is the rendering of version `v`.
pub open spec fn parses_to(s: Seq<u8>, v: Version) -> bool {
    s == version_repr(v)
}

/// `v` and `w` belong to the same minor series.
pub open spec fn same_minor(v: Version, w: Version) -> bool {
    v.major == w.major && v.minor == w.minor
}

/// The selection is linked: each selected index lies below `n` and its
/// record's version renders `vers`'s entry.
pub open spec fn lpm_linked(b: Seq<SolcRelease>, n: int, sel: Seq<usize>, vers: Seq<Version>) -> bool {
    sel.len() == vers.len() && (forall|k: int|
        0 <= k < sel.len() ==> #[trigger] sel[k] < n && parses_to(
            b[sel[k] as int].version@,
            vers[k],
        ))
}

/// No two selected versions share a minor series.
pub open spec fn lpm_distinct(vers: Seq<Version>) -> bool {
    forall|k1: int, k2: int|
        0 <= k1 < k2 < vers.len() ==> !same_minor(#[trigger] vers[k1], #[trigger] vers[k2])
}

/// Every selected version is greatest in its series among the first `n`
/// records that parse.
pub open spec fn lpm_max(b: Seq<SolcRelease>, n: int, vers: Seq<Version>) -> bool {
    forall|k: int, t: int, w: Version|
        0 <= k < vers.len() && 0 <= t < n && #[trigger] parses_to(b[t].version@, w) && same_minor(
            #[trigger] vers[k],
            w,
        ) ==> !version_lt(vers[k], w)
}

/// Every series with a parseable record among the first `n` is represented.
pub open spec fn lpm_complete(b: Seq<SolcRelease>, n: int, vers: Seq<Version>) -> bool {
    forall|t: int, w: Version|
        0 <= t < n && #[trigger] parses_to(b[t].version@, w) ==> (exists|k: int|
            0 <= k < vers.len() && same_minor(#[trigger] vers[k], w))
}

/// Each selected index is the first record carrying its winning version:
/// no earlier record renders the same version.
pub open spec fn lpm_first(b: Seq<SolcRelease>, sel: Seq<usize>, vers: Seq<Version>) -> bool {
    forall|k: int, t: int|
        0 <= k < sel.len() && 0 <= t < sel[k] ==> !parses_to(
            (#[trigger] b[t]).version@,
            #[trigger] vers[k],
        )
}

/// One step of the latest-per-minor scan preserves the five invariants.
proof fn lemma_lpm_step(
    b: Seq<SolcRelease>,
    i: usize,
    sel0: Seq<usize>,
    vers0: Seq<Version>,
    sel1: Seq<usize>,
    vers1: Seq<Version>,
    v: Version,
    k: int,
    found: bool,
)
    requires
        i < b.len(),
        lpm_linked(b, i as int, sel0, vers0),
        lpm_distinct(vers0),
        lpm_max(b, i as int, vers0),
        lpm_complete(b, i as int, vers0),
        lpm_first(b, sel0, vers0),
        parses_to(b[i as int].version@, v),
        found ==> 0 <= k < vers0.len() && same_minor(vers0[k], v),
        !found ==> (forall|t: int| 0 <= t < vers0.len() ==> !same_minor(#[trigger] vers0[t], v)),
        found && version_lt(vers0[k], v) ==> sel1 == sel0.update(k, i) && vers1 == vers0.update(
            k,
            v,
        ),
        found && !version_lt(vers0[k], v) ==> sel1 == sel0 && vers1 == vers0,
        !found ==> sel1 == sel0.push(i) && vers1 == vers0.push(v),
    ensures
        lpm_linked(b, i + 1, sel1, vers1),
        lpm_distinct(vers1),
        lpm_max(b, i + 1, vers1),
        lpm_complete(b, i + 1, vers1),
        lpm_first(b, sel1, vers1),
{
    assert(lpm_linked(b, i + 1, sel1, vers1)) by {
        assert(sel1.len() == vers1.len());
        assert forall|kk: int| 0 <= kk < sel1.len() implies #[trigger] sel1[kk] < i + 1
            && parses_to(b[sel1[kk] as int].version@, vers1[kk]) by {
            if found && version_lt(vers0[k], v) && kk == k {
                assert(sel1[kk] == i && vers1[kk] == v);
            } else if !found && kk == sel0.len() {
                assert(sel1[kk] == i && vers1[kk] == v);
            } else {
                assert(parses_to(b[sel0[kk] as int].version@, vers0[kk]));
                assert(sel0[kk] < i);
                assert(sel1[kk] == sel0[kk] && vers1[kk] == vers0[kk]);
            }
        }
    }
    assert forall|k1: int, k2: int| 0 <= k1 < k2 < vers1.len() implies !same_minor(
        #[trigger] vers1[k1],
        #[trigger] vers1[k2],
    ) by {
        assert(k1 < vers0.len() ==> vers1[k1] == vers0[k1] || same_minor(vers1[k1], vers0[k1]));
        if k2 < vers0.len() {
            assert(!same_minor(vers0[k1], vers0[k2]));
        } else {
            // k2 is a pushed entry: no earlier entry shares v's series
            assert(!same_minor(vers0[k1], v));
        }
    }
    assert forall|kk: int, t: int, w: Version|
        0 <= kk < vers1.len() && 0 <= t < i + 1 && #[trigger] parses_to(b[t].version@, w)
            && same_minor(#[trigger] vers1[kk], w) implies !version_lt(vers1[kk], w) by {
        if t == i {
            lemma_version_repr_injective(v, w);
            assert(w == v);
            if found && kk == k {
            } else if kk < vers0.len() {
                // vers1[kk] is an untouched entry in a different series
                assert(vers1[kk] == vers0[kk]);
                if found {
                    assert(same_minor(vers0[k], v));
                }
            }
        } else {
            if found && kk == k && version_lt(vers0[k], v) {
                assert(same_minor(vers0[k], w));
                assert(!version_lt(vers0[k], w));
            } else {
                assert(vers1[kk] == vers0[kk]);
                assert(!version_lt(vers0[kk], w));
            }
        }
    }
    assert forall|t: int, w: Version|
        0 <= t < i + 1 && #[trigger] parses_to(b[t].version@, w) implies (exists|kk: int|
            0 <= kk < vers1.len() && same_minor(#[trigger] vers1[kk], w)) by {
        if t == i {
            lemma_version_repr_injective(v, w);
            if found {
                assert(same_minor(vers1[k], w));
            } else {
                assert(same_minor(vers1[vers1.len() - 1], w));
            }
        } else {
            let kk = choose|kk: int|
                0 <= kk < vers0.len() && same_minor(#[trigger] vers0[kk], w);
            assert(same_minor(vers1[kk], w));
        }
    }
    assert forall|kk: int, t: int|
        0 <= kk < sel1.len() && 0 <= t < sel1[kk] implies !parses_to(
        (#[trigger] b[t]).version@,
        #[trigger] vers1[kk],
    ) by {
        if found && version_lt(vers0[k], v) && kk == k {
            // a record below i rendering v would contradict the strict upgrade
            if parses_to(b[t].version@, v) {
                assert(same_minor(vers0[k], v));
                assert(!version_lt(vers0[k], v));
            }
        } else if !found && kk == sel0.len() {
            // a record below i rendering v would have put v's series in the selection
            if parses_to(b[t].version@, v) {
                let kx = choose|kx: int| 0 <= kx < vers0.len() && same_minor(
                    #[trigger] vers0[kx],
                    v,
                );
                assert(!same_minor(vers0[kx], v));
            }
        } else {
            assert(sel1[kk] == sel0[kk] && vers1[kk] == vers0[kk]);
            assert(!parses_to(b[t].version@, vers0[kk]));
        }
    }
}

impl SolcList {
    /// The indices of the latest parseable release of each minor series:
    /// at most one per series, each the greatest of its series, one for
    /// every series that has a parseable release at all. Records whose
    /// version does not parse are skipped.
    pub fn latest_per_minor(&self) -> (r: Vec<usize>)
        ensures
            forall|k: int|
                0 <= k < r@.len() ==> r@[k] < self.builds@.len() && (exists|v: Version|
                    parses_to(self.builds@[r@[k] as int].version@, v)),
            forall|k1: int, k2: int, v1: Version, v2: Version|
                0 <= k1 < k2 < r@.len() && #[trigger] parses_to(
                    self.builds@[r@[k1] as int].version@,
                    v1,
                ) && #[trigger] parses_to(self.builds@[r@[k2] as int].version@, v2)
                    ==> !same_minor(v1, v2),
            forall|k: int, v: Version, i: int, w: Version|
                0 <= k < r@.len() && #[trigger] parses_to(self.builds@[r@[k] as int].version@, v)
                    && 0 <= i < self.builds@.len() && #[trigger] parses_to(
                    self.builds@[i].version@,
                    w,
                ) && same_minor(v, w) ==> !version_lt(v, w),
            forall|i: int, w: Version|
                0 <= i < self.builds@.len() && #[trigger] parses_to(self.builds@[i].version@, w)
                    ==> (exists|k: int, v: Version|
                    0 <= k < r@.len() && #[trigger] parses_to(
                        self.builds@[r@[k] as int].version@,
                        v,
                    ) && same_minor(v, w)),
            forall|k: int, v: Version, t: int|
                0 <= k < r@.len() && #[trigger] parses_to(self.builds@[r@[k] as int].version@, v)
                    && 0 <= t < r@[k] ==> !(#[trigger] parses_to(self.builds@[t].version@, v)),
    {
        let ghost b = self.builds@;
        let mut sel: Vec<usize> = Vec::new();
        let mut vers: Vec<Version> = Vec::new();
        let mut i: usize = 0;
        while i < self.builds.len()
            invariant
                i <= b.len(),
                lpm_linked(b, i as int, sel@, vers@),
                lpm_distinct(vers@),
                lpm_max(b, i as int, vers@),
                lpm_complete(b, i as int, vers@),
                lpm_first(b, sel@, vers@),
            decreases b.len() - i,
        {
            let rel = &self.builds[i];
            match parse_version(rel.version.as_slice(), 0, rel.version.len()) {
                Some(v) => {
                    proof {
                        assert(rel.version@.subrange(0, rel.version@.len() as int)
                            =~= rel.version@);
                        assert(parses_to(b[i as int].version@, v));
                    }
                    let mut k: usize = 0;
                    let mut found = false;
                    while k < vers.len() && !found
                        invariant
                            k <= vers@.len(),
                            !found ==> forall|t: int|
                                0 <= t < k ==> !same_minor(#[trigger] vers@[t], v),
                            found ==> k < vers@.len() && same_minor(vers@[k as int], v),
                        decreases vers@.len() - k + (if found {
                            0int
                        } else {
                            1int
                        }),
                    {
                        if vers[k].major == v.major && vers[k].minor == v.minor {
                            found = true;
                        } else {
                            k += 1;
                        }
                    }
                    let ghost vers0 = vers@;
                    let ghost sel0 = sel@;
                    if found {
                        if vers[k].lt(&v) {
                            sel.set(k, i);
                            vers.set(k, v);
                        }
                    } else {
                        sel.push(i);
                        vers.push(v);
                    }
                    proof {
                        lemma_lpm_step(b, i, sel0, vers0, sel@, vers@, v, k as int, found);
                    }
                },
                None => {
                    proof {
                        assert(rel.version@.subrange(0, rel.version@.len() as int)
                            =~= rel.version@);
                        assert forall|w: Version|
                            0 <= i < b.len() implies !parses_to(b[i as int].version@, w) by {}
                    }
                },
            }
            i += 1;
        }
        proof {
            assert forall|k: int, v2: Version|
                0 <= k < sel@.len() && #[trigger] parses_to(b[sel@[k] as int].version@, v2) implies
                v2 == vers@[k] by {
                assert(parses_to(b[sel@[k] as int].version@, vers@[k]));
                lemma_version_repr_injective(vers@[k], v2);
            }
            assert forall|k: int| 0 <= k < sel@.len() implies sel@[k] < b.len() && (exists|
                v: Version,
            | parses_to(b[sel@[k] as int].version@, v)) by {
                assert(parses_to(b[sel@[k] as int].version@, vers@[k]));
            }
            assert forall|k: int, v: Version, t: int|
                0 <= k < sel@.len() && #[trigger] parses_to(b[sel@[k] as int].version@, v) && 0
                    <= t < sel@[k] implies !(#[trigger] parses_to(b[t].version@, v)) by {
                assert(v == vers@[k]);
                assert(!parses_to((b[t]).version@, vers@[k]));
            }
            assert forall|t: int, w: Version|
                0 <= t < b.len() && #[trigger] parses_to(b[t].version@, w) implies (exists|
                k: int,
                v: Version,
            |
                0 <= k < sel@.len() && #[trigger] parses_to(b[sel@[k] as int].version@, v)
                    && same_minor(v, w)) by {
                let kk = choose|kk: int|
                    0 <= kk < vers@.len() && same_minor(#[trigger] vers@[kk], w);
                assert(parses_to(b[sel@[kk] as int].version@, vers@[kk]) && same_minor(
                    vers@[kk],
                    w,
                ));
            }
        }
        sel
    }

    /// Look an exact version string up among the releases. Duplicate
    /// versions in the manifest resolve to the last record, mirroring a
    /// last-write-wins map build.
    pub fn by_version(&self, version: &[u8]) -> (r: Option<usize>)
        ensures
            match r {
                Some(i) => i < self.builds@.len() && self.builds@[i as int].version@ == version@
                    && (forall|j: int|
                    i < j < self.builds@.len() ==> (#[trigger] self.builds@[j]).version@
                        != version@),
                None => forall|j: int|
                    0 <= j < self.builds@.len() ==> (#[trigger] self.builds@[j]).version@
                        != version@,
            },
    {
        let mut i: usize = self.builds.len();
        while i > 0
            invariant
                i <= self.builds@.len(),
                forall|j: int|
                    i <= j < self.builds@.len() ==> (#[trigger] self.builds@[j]).version@
                        != version@,
            decreases i,
        {
            i -= 1;
            if crate::bytes::bytes_eq(self.builds[i].version.as_slice(), version) {
                return Some(i);
            }
        }
        None
    }
}

// --- The JSON boundary: trusted wrappers around serde_json -------------
//
// A parsed manifest is modeled by a ghost JSON tree, so that the wrappers
// below can say exactly what they hand back and `SolcList::parse` can carry
// an exact contract over the raw bytes.

/// The ghost model of a JSON value. Object members are listed in the
/// map's iteration order; numbers are not inspected by this library and
/// carry no payload.
pub enum JsonVal {
    Null,
    Bool(bool),
    Number,
    Str(Seq<u8>),
    Arr(Seq<JsonVal>),
    Obj(Seq<(Seq<u8>, JsonVal)>),
}

/// What the bytes parse to as a JSON document, if they are one. The
/// document a byte string denotes is a function of the bytes alone.
pub uninterp spec fn json_doc_of(bytes: Seq<u8>) -> Option<JsonVal>;

/// What an opaque JSON value holds.
pub uninterp spec fn json_model(v: serde_json::Value) -> JsonVal;

/// The value of the first member named `key`, if any.
pub open spec fn obj_lookup(pairs: Seq<(Seq<u8>, JsonVal)>, key: Seq<u8>) -> Option<JsonVal>
    decreases pairs.len(),
{
    if pairs.len() == 0 {
        None
    } else if pairs.first().0 == key {
        Some(pairs.first().1)
    } else {
        obj_lookup(pairs.drop_first(), key)
    }
}

/// The string value of member `key` of an object value, if the value is an
/// object, the member is present, and its value is a string.
pub open spec fn field_str(m: JsonVal, key: Seq<u8>) -> Option<Seq<u8>> {
    match m {
        JsonVal::Obj(pairs) => match obj_lookup(pairs, key) {
            Some(JsonVal::Str(b)) => Some(b),
            _ => None,
        },
        _ => None,
    }
}

/// The member `key` of an object value, if present.
pub open spec fn field_of(m: JsonVal, key: Seq<u8>) -> Option<JsonVal> {
    match m {
        JsonVal::Obj(pairs) => obj_lookup(pairs, key),
        _ => None,
    }
}

#[verifier::external_type_specification]
#[verifier::external_body]
pub struct ExJsonValue(serde_json::Value);

/// Relies on serde_json::from_slice::<Value>: parses a JSON document, or
/// nothing when the bytes are not one; what a byte string parses to is
/// determined by the bytes.
#[verifier::external_body]
fn json_parse(bytes: &[u8]) -> (r: Option<serde_json::Value>)
    ensures
        r is Some <==> json_doc_of(bytes@) is Some,
        r is Some ==> json_model(r.unwrap()) == json_doc_of(bytes@).unwrap(),
{
    serde_json::from_slice(bytes).ok()
}

/// Relies on serde_json::Value::get: looks the member up when the value is
/// an object (member keys are unique there, so the first match is the
/// match); anything else, or an absent member, is nothing.
#[verifier::external_body]
fn json_get<'a>(v: &'a serde_json::Value, key: &[u8]) -> (r: Option<&'a serde_json::Value>)
    ensures
        match r {
            Some(x) => field_of(json_model(*v), key@) == Some(json_model(*x)),
            None => field_of(json_model(*v), key@) is None,
        },
{
    v.get(core::str::from_utf8(key).ok()?)
}

/// Relies on serde_json::Value::as_str: the bytes of a string value, and
/// nothing for any other kind of value.
#[verifier::external_body]
fn json_str(v: &serde_json::Value) -> (r: Option<Vec<u8>>)
    ensures
        match r {
            Some(b) => json_model(*v) == JsonVal::Str(b@),
            None => !(json_model(*v) is Str),
        },
{
    v.as_str().map(|s| s.as_bytes().to_vec())
}

/// Relies on serde_json::Value::as_array: the elements of an array value,
/// in order, and nothing for any other kind of value.
#[verifier::external_body]
fn json_array<'a>(v: &'a serde_json::Value) -> (r: Option<&'a Vec<serde_json::Value>>)
    ensures
        match r {
            Some(a) => json_model(*v) matches JsonVal::Arr(items) && a@.len() == items.len() && (
            forall|i: int| 0 <= i < items.len() ==> json_model(#[trigger] a@[i]) == items[i]),
            None => !(json_model(*v) is Arr),
        },
{
    v.as_array()
}

/// Relies on serde_json::Value::as_object and serde_json::Map::iter: the
/// members of an object value, in the map's iteration order, and nothing
/// for any other kind of value.
#[verifier::external_body]
fn json_entries(v: &serde_json::Value) -> (r: Option<Vec<(Vec<u8>, serde_json::Value)>>)
    ensures
        match r {
            Some(es) => json_model(*v) matches JsonVal::Obj(pairs) && es@.len() == pairs.len() && (
            forall|i: int|
                0 <= i < pairs.len() ==> (#[trigger] es@[i]).0@ == pairs[i].0 && json_model(
                    es@[i].1,
                ) == pairs[i].1),
            None => !(json_model(*v) is Obj),
        },
{
    let obj = v.as_object()?;
    Some(obj.iter().map(|(key, val)| (key.as_bytes().to_vec(), val.clone())).collect())
}

/// Relies on serde_json::Value::is_null.
#[verifier::external_body]
fn json_is_null(v: &serde_json::Value) -> (r: bool)
    ensures
        r == (json_model(*v) is Null),
{
    v.is_null()
}

// --- The member keys of the manifest ------------------------------------

/// "path"
pub open spec fn key_path() -> Seq<u8> {
    seq![112u8, 97, 116, 104]
}

/// "version"
pub open spec fn key_version() -> Seq<u8> {
    seq![118u8, 101, 114, 115, 105, 111, 110]
}

/// "build"
pub open spec fn key_build() -> Seq<u8> {
    seq![98u8, 117, 105, 108, 100]
}

/// "longVersion"
pub open spec fn key_long_version() -> Seq<u8> {
    seq![108u8, 111, 110, 103, 86, 101, 114, 115, 105, 111, 110]
}

/// "keccak256"
pub open spec fn key_keccak256() -> Seq<u8> {
    seq![107u8, 101, 99, 99, 97, 107, 50, 53, 54]
}

/// "sha256"
pub open spec fn key_sha256() -> Seq<u8> {
    seq![115u8, 104, 97, 50, 53, 54]
}

/// "urls"
pub open spec fn key_urls() -> Seq<u8> {
    seq![117u8, 114, 108, 115]
}

/// "builds"
pub open spec fn key_builds() -> Seq<u8> {
    seq![98u8, 117, 105, 108, 100, 115]
}

/// "releases"
pub open spec fn key_releases() -> Seq<u8> {
    seq![114u8, 101, 108, 101, 97, 115, 101, 115]
}

/// "latest_release"
pub open spec fn key_latest_release() -> Seq<u8> {
    seq![108u8, 97, 116, 101, 115, 116, 95, 114, 101, 108, 101, 97, 115, 101]
}

/// A mandatory string member of a release record: exactly `field_str`.
fn record_str(v: &serde_json::Value, key: &[u8]) -> (r: Result<Vec<u8>, ParseError>)
    ensures
        match r {
            Ok(b) => field_str(json_model(*v), key@) == Some(b@),
            Err(_) => field_str(json_model(*v), key@) is None,
        },
{
    match json_get(v, key) {
        Some(field) => match json_str(field) {
            Some(bytes) => Ok(bytes),
            None => Err(ParseError {}),
        },
        None => Err(ParseError {}),
    }
}

/// An optional string member: its bytes, or empty when it is absent or no
/// string.
fn record_str_or_empty(v: &serde_json::Value, key: &[u8]) -> (r: Vec<u8>)
    ensures
        r@ == (match field_str(json_model(*v), key@) {
            Some(b) => b,
            None => Seq::<u8>::empty(),
        }),
{
    match json_get(v, key) {
        Some(field) => match json_str(field) {
            Some(bytes) => bytes,
            None => Vec::new(),
        },
        None => Vec::new(),
    }
}

/// The record's "urls" member is absent, or an array of strings.
pub open spec fn urls_ok(m: JsonVal) -> bool {
    match field_of(m, key_urls()) {
        None => true,
        Some(JsonVal::Arr(items)) => forall|i: int|
            0 <= i < items.len() ==> (#[trigger] items[i]) is Str,
        Some(_) => false,
    }
}

/// A well-formed release record: the four mandatory members are strings,
/// and the URL list, when present, is an array of strings.
pub open spec fn record_ok(m: JsonVal) -> bool {
    &&& field_str(m, key_path()) is Some
    &&& field_str(m, key_version()) is Some
    &&& field_str(m, key_build()) is Some
    &&& field_str(m, key_long_version()) is Some
    &&& urls_ok(m)
}

/// `rel` holds exactly what record `m` says: the mandatory strings, the
/// optional hashes (empty when absent or no string), and the URL list in
/// order (empty when absent).
pub open spec fn record_matches(rel: SolcRelease, m: JsonVal) -> bool {
    &&& field_str(m, key_path()) == Some(rel.path@)
    &&& field_str(m, key_version()) == Some(rel.version@)
    &&& field_str(m, key_build()) == Some(rel.build@)
    &&& field_str(m, key_long_version()) == Some(rel.long_version@)
    &&& rel.keccak256@ == (match field_str(m, key_keccak256()) {
        Some(b) => b,
        None => Seq::<u8>::empty(),
    })
    &&& rel.sha256@ == (match field_str(m, key_sha256()) {
        Some(b) => b,
        None => Seq::<u8>::empty(),
    })
    &&& (match field_of(m, key_urls()) {
        None => rel.urls@.len() == 0,
        Some(JsonVal::Arr(items)) => rel.urls@.len() == items.len() && (forall|i: int|
            0 <= i < items.len() ==> items[i] == JsonVal::Str((#[trigger] rel.urls@[i])@)),
        Some(_) => false,
    })
}

impl SolcRelease {
    /// Build one release record from its JSON object: succeeds exactly on a
    /// well-formed record, and then holds what the record says.
    fn from_json(v: &serde_json::Value) -> (r: Result<SolcRelease, ParseError>)
        ensures
            match r {
                Ok(rel) => record_ok(json_model(*v)) && record_matches(rel, json_model(*v)),
                Err(_) => !record_ok(json_model(*v)),
            },
    {
        let ghost m = json_model(*v);
        let kp: Vec<u8> = vec![112, 97, 116, 104];
        let kv: Vec<u8> = vec![118, 101, 114, 115, 105, 111, 110];
        let kb: Vec<u8> = vec![98, 117, 105, 108, 100];
        let kl: Vec<u8> = vec![108, 111, 110, 103, 86, 101, 114, 115, 105, 111, 110];
        let kk: Vec<u8> = vec![107, 101, 99, 99, 97, 107, 50, 53, 54];
        let ks: Vec<u8> = vec![115, 104, 97, 50, 53, 54];
        let ku: Vec<u8> = vec![117, 114, 108, 115];
        proof {
            assert(kp@ =~= key_path());
            assert(kv@ =~= key_version());
            assert(kb@ =~= key_build());
            assert(kl@ =~= key_long_version());
            assert(kk@ =~= key_keccak256());
            assert(ks@ =~= key_sha256());
            assert(ku@ =~= key_urls());
        }
        let path = match record_str(v, kp.as_slice()) {
            Ok(p) => p,
            Err(e) => {
                return Err(e);
            },
        };
        let version = match record_str(v, kv.as_slice()) {
            Ok(p) => p,
            Err(e) => {
                return Err(e);
            },
        };
        let build = match record_str(v, kb.as_slice()) {
            Ok(p) => p,
            Err(e) => {
                return Err(e);
            },
        };
        let long_version = match record_str(v, kl.as_slice()) {
            Ok(p) => p,
            Err(e) => {
                return Err(e);
            },
        };
        let keccak256 = record_str_or_empty(v, kk.as_slice());
        let sha256 = record_str_or_empty(v, ks.as_slice());
        let mut urls: Vec<Vec<u8>> = Vec::new();
        match json_get(v, ku.as_slice()) {
            Some(list) => match json_array(list) {
                Some(items) => {
                    let ghost model_items = json_model(*list)->Arr_0;
                    proof {
                        assert(field_of(m, key_urls()) == Some(JsonVal::Arr(model_items)));
                    }
                    let mut i: usize = 0;
                    while i < items.len()
                        invariant
                            i <= items@.len(),
                            items@.len() == model_items.len(),
                            forall|t: int|
                                0 <= t < items@.len() ==> json_model(#[trigger] items@[t])
                                    == model_items[t],
                            urls@.len() == i,
                            forall|t: int|
                                0 <= t < i ==> model_items[t] == JsonVal::Str(
                                    (#[trigger] urls@[t])@,
                                ),
                        decreases items@.len() - i,
                    {
                        match json_str(&items[i]) {
                            Some(u) => {
                                urls.push(u);
                            },
                            None => {
                                assert(!(model_items[i as int] is Str));
                                return Err(ParseError {});
                            },
                        }
                        i += 1;
                    }
                    proof {
                        assert forall|t: int|
                            0 <= t < model_items.len() implies (#[trigger] model_items[t])
                            is Str by {
                            assert(model_items[t] == JsonVal::Str((urls@[t])@));
                        }
                    }
                },
                None => {
                    return Err(ParseError {});
                },
            },
            None => {},
        }
        let rel = SolcRelease { path, version, build, long_version, keccak256, sha256, urls };
        proof {
            assert(record_ok(m));
            assert(record_matches(rel, m));
        }
        Ok(rel)
    }
}

/// The manifest's builds array, if the document is an object carrying one.
pub open spec fn builds_of(doc: JsonVal) -> Option<Seq<JsonVal>> {
    match field_of(doc, key_builds()) {
        Some(JsonVal::Arr(items)) => Some(items),
        _ => None,
    }
}

/// The manifest's releases map, if acceptable: absent means empty, and a
/// present member must be an object.
pub open spec fn releases_of(doc: JsonVal) -> Option<Seq<(Seq<u8>, JsonVal)>> {
    match field_of(doc, key_releases()) {
        None => Some(Seq::empty()),
        Some(JsonVal::Obj(pairs)) => Some(pairs),
        Some(_) => None,
    }
}

/// The manifest's latest-release marker, if acceptable: absent or null
/// means none, and a present member must otherwise be a string.
pub open spec fn latest_of(doc: JsonVal) -> Option<Option<Seq<u8>>> {
    match field_of(doc, key_latest_release()) {
        None => Some(None),
        Some(JsonVal::Null) => Some(None),
        Some(JsonVal::Str(b)) => Some(Some(b)),
        Some(_) => None,
    }
}

/// A well-formed manifest document: a builds array of well-formed records,
/// an acceptable releases map whose values are strings, and an acceptable
/// latest-release marker.
pub open spec fn manifest_ok(doc: JsonVal) -> bool {
    &&& builds_of(doc) is Some
    &&& (forall|i: int|
        0 <= i < builds_of(doc).unwrap().len() ==> record_ok(#[trigger] builds_of(doc).unwrap()[i]))
    &&& releases_of(doc) is Some
    &&& (forall|i: int|
        0 <= i < releases_of(doc).unwrap().len() ==> (#[trigger] releases_of(doc).unwrap()[i]).1
            is Str)
    &&& latest_of(doc) is Some
}

/// `list` holds exactly what the document says: one release per builds
/// record in order, the releases map's pairs in order, and the marker.
pub open spec fn manifest_matches(list: SolcList, doc: JsonVal) -> bool {
    &&& list.builds@.len() == builds_of(doc).unwrap().len()
    &&& (forall|i: int|
        0 <= i < list.builds@.len() ==> record_matches(
            #[trigger] list.builds@[i],
            builds_of(doc).unwrap()[i],
        ))
    &&& list.releases@.len() == releases_of(doc).unwrap().len()
    &&& (forall|i: int|
        0 <= i < list.releases@.len() ==> (#[trigger] list.releases@[i]).0@ == releases_of(
            doc,
        ).unwrap()[i].0 && releases_of(doc).unwrap()[i].1 == JsonVal::Str(list.releases@[i].1@))
    &&& (match list.latest_release {
        Some(b) => latest_of(doc) == Some(Some(b@)),
        None => latest_of(doc) == Some(None::<Seq<u8>>),
    })
}

impl SolcList {
    /// Parse the manifest document. This succeeds exactly when the bytes
    /// are a JSON document with a well-formed builds array, releases map
    /// and latest-release marker, and then the list holds what the
    /// document says, record for record and in order.
    pub fn parse(bytes: &[u8]) -> (r: Result<SolcList, ParseError>)
        ensures
            r is Ok <==> json_doc_of(bytes@) is Some && manifest_ok(json_doc_of(bytes@).unwrap()),
            r is Ok ==> manifest_matches(r.unwrap(), json_doc_of(bytes@).unwrap()),
    {
        let kb: Vec<u8> = vec![98, 117, 105, 108, 100, 115];
        let kr: Vec<u8> = vec![114, 101, 108, 101, 97, 115, 101, 115];
        let kl: Vec<u8> = vec![108, 97, 116, 101, 115, 116, 95, 114, 101, 108, 101, 97, 115, 101];
        proof {
            assert(kb@ =~= key_builds());
            assert(kr@ =~= key_releases());
            assert(kl@ =~= key_latest_release());
        }
        let doc = match json_parse(bytes) {
            Some(d) => d,
            None => {
                return Err(ParseError {});
            },
        };
        let ghost dm = json_model(doc);
        let mut builds: Vec<SolcRelease> = Vec::new();
        match json_get(&doc, kb.as_slice()) {
            Some(list) => match json_array(list) {
                Some(items) => {
                    let ghost model_items = json_model(*list)->Arr_0;
                    proof {
                        assert(builds_of(dm) == Some(model_items));
                    }
                    let mut i: usize = 0;
                    while i < items.len()
                        invariant
                            i <= items@.len(),
                            items@.len() == model_items.len(),
                            forall|t: int|
                                0 <= t < items@.len() ==> json_model(#[trigger] items@[t])
                                    == model_items[t],
                            builds@.len() == i,
                            forall|t: int|
                                0 <= t < i ==> record_ok(#[trigger] model_items[t])
                                    && record_matches(builds@[t], model_items[t]),
                        decreases items@.len() - i,
                    {
                        match SolcRelease::from_json(&items[i]) {
                            Ok(rel) => {
                                builds.push(rel);
                            },
                            Err(e) => {
                                assert(!record_ok(model_items[i as int]));
                                return Err(e);
                            },
                        }
                        i += 1;
                    }
                },
                None => {
                    return Err(ParseError {});
                },
            },
            None => {
                return Err(ParseError {});
            },
        }
        let mut releases: Vec<(Vec<u8>, Vec<u8>)> = Vec::new();
        match json_get(&doc, kr.as_slice()) {
            Some(map) => match json_entries(map) {
                Some(entries) => {
                    let ghost model_pairs = json_model(*map)->Obj_0;
                    proof {
                        assert(releases_of(dm) == Some(model_pairs));
                    }
                    let mut i: usize = 0;
                    while i < entries.len()
                        invariant
                            i <= entries@.len(),
                            entries@.len() == model_pairs.len(),
                            forall|t: int|
                                0 <= t < entries@.len() ==> (#[trigger] entries@[t]).0@
                                    == model_pairs[t].0 && json_model(entries@[t].1)
                                    == model_pairs[t].1,
                            releases@.len() == i,
                            forall|t: int|
                                0 <= t < i ==> (#[trigger] releases@[t]).0@ == model_pairs[t].0
                                    && model_pairs[t].1 == JsonVal::Str(releases@[t].1@),
                        decreases entries@.len() - i,
                    {
                        match json_str(&entries[i].1) {
                            Some(p) => {
                                let key = crate::bytes::copy_bytes(entries[i].0.as_slice());
                                releases.push((key, p));
                            },
                            None => {
                                assert(!(model_pairs[i as int].1 is Str));
                                return Err(ParseError {});
                            },
                        }
                        i += 1;
                    }
                },
                None => {
                    return Err(ParseError {});
                },
            },
            None => {},
        }
        let latest_release = match json_get(&doc, kl.as_slice()) {
            Some(field) => {
                if json_is_null(field) {
                    None
                } else {
                    match json_str(field) {
                        Some(b) => Some(b),
                        None => {
                            return Err(ParseError {});
                        },
                    }
                }
            },
            None => None,
        };
        let list = SolcList { builds, releases, latest_release };
        proof {
            assert forall|i: int|
                0 <= i < builds_of(dm).unwrap().len() implies record_ok(
                #[trigger] builds_of(dm).unwrap()[i],
            ) by {
                assert(record_matches(list.builds@[i], builds_of(dm).unwrap()[i]));
            }
            assert forall|i: int|
                0 <= i < releases_of(dm).unwrap().len() implies (
            #[trigger] releases_of(dm).unwrap()[i]).1 is Str by {
                assert(releases_of(dm).unwrap()[i].1 == JsonVal::Str(list.releases@[i].1@));
            }
            assert(manifest_ok(dm));
            assert(manifest_matches(list, dm));
        }
        Ok(list)
    }
}

} // verus!
