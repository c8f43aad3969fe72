//! Integrity checks: digests, their text form and how they are compared.

use crate::engine::task::{Checksum, ChecksumAlgo};
use crate::text;
use digest::Digest;
use vstd::prelude::*;

verus! {

/// The SHA-256 digest of `data`.
pub uninterp spec fn sha256_of(data: Seq<u8>) -> Seq<u8>;

/// The SHA-1 digest of `data`.
pub uninterp spec fn sha1_of(data: Seq<u8>) -> Seq<u8>;

/// The MD5 digest of `data`.
pub uninterp spec fn md5_of(data: Seq<u8>) -> Seq<u8>;

/// `sha2::Sha256`, by `Digest::digest`: 32 bytes that depend on `data` alone.
#[verifier::external_body]
fn sha256(data: &[u8]) -> (digest: Vec<u8>)
    ensures
        digest@ == sha256_of(data@),
        digest@.len() == 32,
{
    sha2::Sha256::digest(data).to_vec()
}

/// `sha1::Sha1`, by `Digest::digest`: 20 bytes that depend on `data` alone.
#[verifier::external_body]
fn sha1(data: &[u8]) -> (digest: Vec<u8>)
    ensures
        digest@ == sha1_of(data@),
        digest@.len() == 20,
{
    sha1::Sha1::digest(data).to_vec()
}

/// `md5::Md5`, by `Digest::digest`: 16 bytes that depend on `data` alone.
#[verifier::external_body]
fn md5(data: &[u8]) -> (digest: Vec<u8>)
    ensures
        digest@ == md5_of(data@),
        digest@.len() == 16,
{
    md5::Md5::digest(data).to_vec()
}

/// The character of the hexadecimal digit `d`, in lower case.
pub open spec fn hex_char(d: int) -> char {
    if d < 10 {
        (48 + d) as char
    } else {
        (87 + d) as char
    }
}

/// `data` in hexadecimal: two lower-case digits for each byte, the high one
/// first.
pub open spec fn hex_of(data: Seq<u8>) -> Seq<char> {
    Seq::new(
        2 * data.len(),
        |i: int|
            if i % 2 == 0 {
                hex_char(data[i / 2] as int / 16)
            } else {
                hex_char(data[i / 2] as int % 16)
            },
    )
}

/// `hex::encode`: the bytes in hexadecimal, two lower-case digits each.
#[verifier::external_body]
fn hex_encode(data: &[u8]) -> (s: String)
    ensures
        s@ == hex_of(data@),
{
    hex::encode(data)
}

/// The digest of `data` under the given algorithm.
pub open spec fn digest_of(algorithm: ChecksumAlgo, data: Seq<u8>) -> Seq<u8> {
    match algorithm {
        ChecksumAlgo::Sha256 => sha256_of(data),
        ChecksumAlgo::Sha1 => sha1_of(data),
        ChecksumAlgo::Md5 => md5_of(data),
    }
}

/// The number of bytes in a digest of the given algorithm.
pub open spec fn digest_len(algorithm: ChecksumAlgo) -> nat {
    match algorithm {
        ChecksumAlgo::Sha256 => 32,
        ChecksumAlgo::Sha1 => 20,
        ChecksumAlgo::Md5 => 16,
    }
}

/// The expected text stands for this digest, in whatever case it is written.
pub open spec fn accepts(expected: Seq<char>, digest: Seq<u8>) -> bool {
    text::unicode_lowercase(expected) == hex_of(digest)
}

/// What is said of a digest that was not expected.
pub open spec fn mismatch(expected: Seq<char>, digest: Seq<u8>) -> Seq<char> {
    "Checksum mismatch: expected "@ + expected + " got "@ + hex_of(digest)
}

/// The digest of `data` under the given algorithm.
pub fn compute_digest(algorithm: ChecksumAlgo, data: &[u8]) -> (digest: Vec<u8>)
    ensures
        digest@ == digest_of(algorithm, data@),
        digest@.len() == digest_len(algorithm),
{
    match algorithm {
        ChecksumAlgo::Sha256 => sha256(data),
        ChecksumAlgo::Sha1 => sha1(data),
        ChecksumAlgo::Md5 => md5(data),
    }
}

proof fn lemma_hex_is_lower(data: Seq<u8>)
    ensures
        vstd::utf8::is_ascii_chars(hex_of(data)),
        text::ascii_lowered(hex_of(data)) == hex_of(data),
{
    let s = hex_of(data);
    assert forall|i: int| 0 <= i < s.len() implies {
        &&& (#[trigger] s[i] as u32) < 128
        &&& text::ascii_lower(s[i]) == s[i]
    } by {
        let d = if i % 2 == 0 {
            data[i / 2] as int / 16
        } else {
            data[i / 2] as int % 16
        };
        assert(0 <= d < 16);
        assert(s[i] == hex_char(d));
    }
    assert(text::ascii_lowered(s) =~= s);
}

/// Compare a digest with the expected text.
pub fn check_digest(expected: &str, digest: &[u8]) -> (r: Result<(), String>)
    ensures
        r is Ok <==> accepts(expected@, digest@),
        vstd::utf8::is_ascii_chars(expected@) ==> (r is Ok <==> text::ascii_lowered(expected@)
            == hex_of(digest@)),
        r matches Err(message) ==> message@ == mismatch(expected@, digest@),
{
    let actual: String = hex_encode(digest);
    let lowered: String = actual.as_str().to_lowercase();
    let wanted: String = expected.to_lowercase();
    proof {
        lemma_hex_is_lower(digest@);
    }
    if lowered == wanted {
        Ok(())
    } else {
        let mut message: String = "Checksum mismatch: expected ".to_string();
        message.append(expected);
        message.append(" got ");
        message.append(actual.as_str());
        Err(message)
    }
}

/// Verify that `data` has the expected checksum.
pub fn verify_checksum(data: &[u8], checksum: &Checksum) -> (r: Result<(), String>)
    ensures
        r is Ok <==> accepts(checksum@.value, digest_of(checksum@.algorithm, data@)),
        r matches Err(message) ==> message@ == mismatch(
            checksum@.value,
            digest_of(checksum@.algorithm, data@),
        ),
        vstd::utf8::is_ascii_chars(checksum@.value) ==> (r is Ok <==> text::ascii_lowered(
            checksum@.value,
        ) == hex_of(digest_of(checksum@.algorithm, data@))),
{
    let digest = compute_digest(checksum.algorithm, data);
    check_digest(checksum.value.as_str(), digest.as_slice())
}

/// Two digests have the same text only if they are the same.
pub proof fn hex_is_injective(a: Seq<u8>, b: Seq<u8>)
    requires
        hex_of(a) == hex_of(b),
    ensures
        a == b,
{
    assert(hex_of(a).len() == 2 * a.len());
    assert(hex_of(b).len() == 2 * b.len());
    assert forall|i: int| 0 <= i < a.len() implies a[i] == b[i] by {
        let x = a[i] as int;
        let y = b[i] as int;
        assert(hex_of(a)[2 * i] == hex_char(x / 16));
        assert(hex_of(b)[2 * i] == hex_char(y / 16));
        assert(hex_of(a)[2 * i + 1] == hex_char(x % 16));
        assert(hex_of(b)[2 * i + 1] == hex_char(y % 16));
        lemma_hex_char(x / 16, y / 16);
        lemma_hex_char(x % 16, y % 16);
    }
    assert(a =~= b);
}

proof fn lemma_hex_char(x: int, y: int)
    requires
        0 <= x < 16,
        0 <= y < 16,
        hex_char(x) == hex_char(y),
    ensures
        x == y,
{
    assert(hex_char(x) as u32 == (if x < 10 {
        48 + x
    } else {
        87 + x
    }));
    assert(hex_char(y) as u32 == (if y < 10 {
        48 + y
    } else {
        87 + y
    }));
}

/// A checksum is that of the algorithm it names: each algorithm has its own digest, of
/// its own length, and the checksum is accepted exactly if it is that digest in
/// hexadecimal, two digits for a byte, the high one first.
pub proof fn a_checksum_is_of_its_algorithm(algorithm: ChecksumAlgo, data: Seq<u8>)
    ensures
        digest_of(ChecksumAlgo::Sha256, data) == sha256_of(data),
        digest_of(ChecksumAlgo::Sha1, data) == sha1_of(data),
        digest_of(ChecksumAlgo::Md5, data) == md5_of(data),
        digest_len(ChecksumAlgo::Sha256) == 32,
        digest_len(ChecksumAlgo::Sha1) == 20,
        digest_len(ChecksumAlgo::Md5) == 16,
        hex_of(data).len() == 2 * data.len(),
        forall|i: int|
            0 <= i < data.len() ==> {
                let byte = #[trigger] data[i];
                let high = hex_value(hex_of(data)[2 * i]);
                let low = hex_value(hex_of(data)[2 * i + 1]);
                0 <= high < 16 && 0 <= low < 16 && byte == 16 * high + low
            },
        forall|expected: Seq<char>|
            #[trigger] accepts(expected, data) <==> text::unicode_lowercase(expected) == hex_of(
                data,
            ),
        forall|expected: Seq<char>| #[trigger]
            mismatch(expected, data) == "Checksum mismatch: expected "@ + expected + " got "@
                + hex_of(data),
{
    assert forall|i: int| 0 <= i < data.len() implies {
        let byte = #[trigger] data[i];
        let high = hex_value(hex_of(data)[2 * i]);
        let low = hex_value(hex_of(data)[2 * i + 1]);
        0 <= high < 16 && 0 <= low < 16 && byte == 16 * high + low
    } by {
        let x = data[i] as int;
        assert((2 * i) / 2 == i && (2 * i) % 2 == 0 && (2 * i + 1) / 2 == i && (2 * i + 1) % 2
            == 1);
        assert(hex_of(data)[2 * i] == hex_char(x / 16));
        assert(hex_of(data)[2 * i + 1] == hex_char(x % 16));
        assert(0 <= x / 16 < 16 && 0 <= x % 16 < 16);
    }
}

/// The value of a hexadecimal digit in lower case.
pub open spec fn hex_value(c: char) -> int {
    if '0' as u32 <= c as u32 <= '9' as u32 {
        c as u32 - '0' as u32
    } else if 'a' as u32 <= c as u32 <= 'f' as u32 {
        c as u32 - 'a' as u32 + 10
    } else {
        16
    }
}

} // verus!
