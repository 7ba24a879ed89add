//! Download verification: streaming SHA-256 digests, their hex rendering,
//! and the integrity check a fetched binary must pass before it is used.
//! The network transfer itself is the embedding process's job; everything
//! that decides whether its result is trusted lives here.
use vstd::prelude::*;

use crate::bytes::append_bytes;

verus! {

/// The SHA-256 digest (32 bytes) of a byte sequence.
pub uninterp spec fn sha256_of(data: Seq<u8>) -> Seq<u8>;

/// The bytes a digest stream has absorbed so far.
pub uninterp spec fn stream_contents(s: Sha256Stream) -> Seq<u8>;

/// An incremental SHA-256 digest, fed in chunks.
#[verifier::external_body]
pub struct Sha256Stream {
    inner: sha2::Sha256,
}

impl Sha256Stream {
    /// Relies on sha2::Digest::new: a fresh digest has absorbed nothing.
    #[verifier::external_body]
    pub fn new() -> (r: Sha256Stream)
        ensures
            stream_contents(r) == Seq::<u8>::empty(),
    {
        Sha256Stream { inner: <sha2::Sha256 as sha2::Digest>::new() }
    }

    /// Relies on sha2::Digest::update: absorbs the chunk after what came
    /// before.
    #[verifier::external_body]
    pub fn update(&mut self, chunk: &[u8])
        ensures
            stream_contents(*final(self)) == stream_contents(*old(self)) + chunk@,
    {
        sha2::Digest::update(&mut self.inner, chunk);
    }

    /// Relies on sha2::Digest::finalize: the SHA-256 digest of everything
    /// absorbed, 32 bytes long.
    #[verifier::external_body]
    pub fn finalize(self) -> (r: Vec<u8>)
        ensures
            r@ == sha256_of(stream_contents(self)),
            r@.len() == 32,
    {
        let out = <sha2::Sha256 as sha2::Digest>::finalize(self.inner);
        out.to_vec()
    }
}

/// Lowercase hex digit of a nibble.
pub open spec fn hex_digit(n: u8) -> u8 {
    if n < 10 {
        (48 + n) as u8
    } else {
        (87 + n) as u8
    }
}

/// Lowercase hex rendering of a byte string, two digits per byte.
pub open spec fn hex_lower(data: Seq<u8>) -> Seq<u8>
    decreases data.len(),
{
    if data.len() == 0 {
        Seq::empty()
    } else {
        seq![hex_digit(data.first() / 16), hex_digit((data.first() % 16) as u8)] + hex_lower(
            data.drop_first(),
        )
    }
}

/// ASCII lowercasing of one byte.
pub open spec fn lower_byte(b: u8) -> u8 {
    if 65 <= b <= 90 {
        (b + 32) as u8
    } else {
        b
    }
}

/// ASCII lowercasing of a byte string.
pub open spec fn lower_bytes(s: Seq<u8>) -> Seq<u8> {
    s.map_values(|b: u8| lower_byte(b))
}

/// "0x" followed by the lowercase hex digest of `data`.
pub open spec fn digest_hex(data: Seq<u8>) -> Seq<u8> {
    seq![48u8, 120] + hex_lower(sha256_of(data))
}

/// An expected-hash string matches `data` when, lowercased, it is exactly
/// the "0x"-prefixed lowercase hex of `data`'s SHA-256 digest.
pub open spec fn digest_matches(data: Seq<u8>, expected: Seq<u8>) -> bool {
    lower_bytes(expected) == digest_hex(data)
}

/// Render `data` as lowercase hex.
pub fn hex_encode(data: &[u8]) -> (r: Vec<u8>)
    ensures
        r@ == hex_lower(data@),
{
    let mut out: Vec<u8> = Vec::new();
    let mut i: usize = 0;
    proof {
        assert(data@.skip(0) =~= data@);
    }
    while i < data.len()
        invariant
            i <= data@.len(),
            hex_lower(data@) == out@ + hex_lower(data@.skip(i as int)),
            out@.len() == 2 * i,
        decreases data@.len() - i,
    {
        let b = data[i];
        let hi = b / 16;
        let lo = b % 16;
        let hd: u8 = if hi < 10 {
            48 + hi
        } else {
            87 + hi
        };
        let ld: u8 = if lo < 10 {
            48 + lo
        } else {
            87 + lo
        };
        out.push(hd);
        out.push(ld);
        proof {
            let rest = data@.skip(i as int);
            assert(rest.first() == data@[i as int]);
            assert(rest.drop_first() =~= data@.skip(i + 1));
            assert(hex_lower(rest) == seq![hex_digit(rest.first() / 16), hex_digit(
                (rest.first() % 16) as u8,
            )] + hex_lower(data@.skip(i + 1)));
            assert(out@ + hex_lower(data@.skip(i + 1)) =~= out@.subrange(0, out@.len() - 2)
                + hex_lower(rest));
        }
        i += 1;
    }
    proof {
        assert(data@.skip(data@.len() as int) =~= Seq::<u8>::empty());
        assert(out@ =~= hex_lower(data@));
    }
    out
}

/// The SHA-256 digest of `data`, absorbed in fixed-size chunks.
pub fn sha256_digest(data: &[u8]) -> (r: Vec<u8>)
    ensures
        r@ == sha256_of(data@),
        r@.len() == 32,
{
    let mut stream = Sha256Stream::new();
    let mut i: usize = 0;
    while i < data.len()
        invariant
            i <= data@.len(),
            stream_contents(stream) == data@.subrange(0, i as int),
        decreases data@.len() - i,
    {
        let end = if data.len() - i > 8192 {
            i + 8192
        } else {
            data.len()
        };
        let chunk = vstd::slice::slice_subrange(data, i, end);
        stream.update(chunk);
        proof {
            assert(data@.subrange(0, i as int) + data@.subrange(i as int, end as int)
                =~= data@.subrange(0, end as int));
        }
        i = end;
    }
    proof {
        assert(data@.subrange(0, data@.len() as int) =~= data@);
    }
    stream.finalize()
}

/// "0x" followed by the lowercase hex SHA-256 digest of `data`.
pub fn sha256_hex(data: &[u8]) -> (r: Vec<u8>)
    ensures
        r@ == digest_hex(data@),
{
    let digest = sha256_digest(data);
    let mut out: Vec<u8> = vec![48, 120];
    let hex = hex_encode(digest.as_slice());
    append_bytes(&mut out, hex.as_slice());
    proof {
        assert(out@ =~= digest_hex(data@));
    }
    out
}

/// A downloaded file failed its integrity check.
#[derive(Clone, Copy, PartialEq, Eq, Structural, Debug)]
pub struct IntegrityError {}

/// Verify `data` against an expected digest string: success exactly when
/// `expected`, compared case-insensitively, is the "0x"-prefixed lowercase
/// hex SHA-256 digest of `data`.
pub fn verify_sha256(data: &[u8], expected: &[u8]) -> (r: Result<(), IntegrityError>)
    ensures
        r is Ok <==> digest_matches(data@, expected@),
{
    let want = sha256_hex(data);
    if expected.len() != want.len() {
        assert(!digest_matches(data@, expected@)) by {
            assert(lower_bytes(expected@).len() == expected@.len());
        }
        return Err(IntegrityError {});
    }
    let mut i: usize = 0;
    while i < expected.len()
        invariant
            i <= expected@.len(),
            expected@.len() == want@.len(),
            want@ == digest_hex(data@),
            forall|j: int| 0 <= j < i ==> lower_byte(#[trigger] expected@[j]) == want@[j],
        decreases expected@.len() - i,
    {
        let b = expected[i];
        let lb: u8 = if 65 <= b && b <= 90 {
            b + 32
        } else {
            b
        };
        if lb != want[i] {
            assert(!digest_matches(data@, expected@)) by {
                assert(lower_bytes(expected@)[i as int] == lower_byte(expected@[i as int]));
            }
            return Err(IntegrityError {});
        }
        i += 1;
    }
    assert(digest_matches(data@, expected@)) by {
        assert(lower_bytes(expected@).len() == expected@.len());
        assert forall|j: int| 0 <= j < expected@.len() implies lower_bytes(expected@)[j]
            == digest_hex(data@)[j] by {
            assert(lower_bytes(expected@)[j] == lower_byte(expected@[j]));
        }
        assert(lower_bytes(expected@) =~= digest_hex(data@));
    }
    Ok(())
}

/// Hex digits never need lowercasing: the canonical digest string matches
/// itself, so verifying a file against the hex digest just computed from it
/// always succeeds; a string that differs after lowercasing always fails.
pub proof fn lemma_verify_own_digest(data: Seq<u8>)
    ensures
        digest_matches(data, digest_hex(data)),
        forall|other: Seq<u8>|
            lower_bytes(other) != lower_bytes(digest_hex(data)) ==> !digest_matches(data, other),
{
    lemma_hex_lower_fixed(sha256_of(data));
    let d = digest_hex(data);
    assert forall|j: int| 0 <= j < d.len() implies lower_bytes(d)[j] == d[j] by {
        assert(lower_bytes(d)[j] == lower_byte(d[j]));
        if j >= 2 {
            assert(d[j] == hex_lower(sha256_of(data))[j - 2]);
        }
    }
    assert(lower_bytes(d) =~= d);
}

/// Lowercase hex output contains only digits and 'a'..'f', all fixed points
/// of lowercasing.
proof fn lemma_hex_lower_fixed(s: Seq<u8>)
    ensures
        forall|j: int|
            0 <= j < hex_lower(s).len() ==> lower_byte(#[trigger] hex_lower(s)[j]) == hex_lower(
                s,
            )[j],
    decreases s.len(),
{
    if s.len() > 0 {
        lemma_hex_lower_fixed(s.drop_first());
        assert forall|j: int|
            0 <= j < hex_lower(s).len() implies lower_byte(#[trigger] hex_lower(s)[j])
            == hex_lower(s)[j] by {
            if j >= 2 {
                assert(hex_lower(s)[j] == hex_lower(s.drop_first())[j - 2]);
            }
        }
    }
}

/// The URL a release is fetched from: `{base}/{platform_id}/{path}`.
pub fn download_url(base: &[u8], platform_id: &[u8], path: &[u8]) -> (r: Vec<u8>)
    ensures
        r@ == base@ + seq![47u8] + platform_id@ + seq![47u8] + path@,
{
    let mut out: Vec<u8> = Vec::new();
    append_bytes(&mut out, base);
    out.push(47);
    append_bytes(&mut out, platform_id);
    out.push(47);
    append_bytes(&mut out, path);
    proof {
        assert(out@ =~= base@ + seq![47u8] + platform_id@ + seq![47u8] + path@);
    }
    out
}

} // verus!
