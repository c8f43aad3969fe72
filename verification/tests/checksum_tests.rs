use rude_core::engine::checksum::{check_digest, compute_digest, verify_checksum};
use rude_core::engine::task::{Checksum, ChecksumAlgo};

const SHA256_ABC: &str = "ba7816bf8f01cfea414140de5dae2223b00361a396177a9cb410ff61f20015ad";
const SHA1_ABC: &str = "a9993e364706816aba3e25717850c26c9cd0d89d";
const MD5_ABC: &str = "900150983cd24fb0d6963f7d28e17f72";

fn checksum(algorithm: ChecksumAlgo, value: &str) -> Checksum {
    Checksum { algorithm, value: value.to_string() }
}

#[test]
fn known_digests_are_accepted() {
    assert!(verify_checksum(b"abc", &checksum(ChecksumAlgo::Sha256, SHA256_ABC)).is_ok());
    assert!(verify_checksum(b"abc", &checksum(ChecksumAlgo::Sha1, SHA1_ABC)).is_ok());
    assert!(verify_checksum(b"abc", &checksum(ChecksumAlgo::Md5, MD5_ABC)).is_ok());
    let upper = SHA256_ABC.to_uppercase();
    assert!(verify_checksum(b"abc", &checksum(ChecksumAlgo::Sha256, &upper)).is_ok());
}

#[test]
fn other_digests_are_refused() {
    let e = verify_checksum(b"abd", &checksum(ChecksumAlgo::Md5, MD5_ABC)).unwrap_err();
    assert_eq!(
        e,
        "Checksum mismatch: expected 900150983cd24fb0d6963f7d28e17f72 got \
         4911e516e5aa21d327512e0c8b197616"
    );
    assert!(verify_checksum(b"abc", &checksum(ChecksumAlgo::Sha1, MD5_ABC)).is_err());
}

#[test]
fn digests_have_their_length() {
    assert_eq!(compute_digest(ChecksumAlgo::Sha256, b"").len(), 32);
    assert_eq!(compute_digest(ChecksumAlgo::Sha1, b"").len(), 20);
    assert_eq!(compute_digest(ChecksumAlgo::Md5, b"").len(), 16);
}

#[test]
fn digests_are_compared_as_text() {
    assert!(check_digest("00fFa1", &[0x00, 0xff, 0xa1]).is_ok());
    assert_eq!(
        check_digest("00", &[0xff]).unwrap_err(),
        "Checksum mismatch: expected 00 got ff"
    );
}
