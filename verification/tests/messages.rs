//! What errors say.

use wiivci_core::error::{DiscFault, Error, KeyFault, LimitFault};

#[test]
fn key_errors_name_the_key() {
    let err = Error::InvalidKey { name: "Wii common", reason: KeyFault::Length(8) };
    assert!(err.message().contains("Wii common"));
    assert!(err
        .message()
        .ends_with("expected 16 raw bytes or 32 hex chars, got 8 bytes"));
    assert_eq!(
        KeyFault::Fingerprint.message(),
        "MD5 fingerprint does not match the retail key"
    );
    assert_eq!(KeyFault::RawLength(3).message(), "expected 16 bytes, got 3");
}

#[test]
fn disc_errors_give_the_numbers() {
    assert_eq!(
        DiscFault::RaggedContent(17).message(),
        "non-hashed content ciphertext length 17 is not a multiple of the AES block size (16)"
    );
    assert_eq!(
        DiscFault::CertSignature(0xABC).message(),
        "certificate chain has unexpected signature type 0xabc"
    );
    assert_eq!(
        DiscFault::ContentHash { id: 0x1A, index: 3 }.message(),
        "content 0000001a (index 3) failed TMD hash verification \u{2014} corrupted or tampered download"
    );
    assert_eq!(
        DiscFault::FilePastContent { path: "a/b".to_string(), end: 20, content_len: 10 }.message(),
        "file a/b extends past its content (20 > 10)"
    );
    assert_eq!(
        DiscFault::NotGameCube("x.iso".to_string()).message(),
        "'x.iso' is not a GameCube disc"
    );
}

#[test]
fn limit_errors_give_the_place() {
    let message = LimitFault::DiscPatch { start: 0x8000, end: 0x8004 }.message();
    assert!(message.starts_with("disc patch at 0x8000..0x8004"), "{message}");
    let message = LimitFault::Edit { partition: 1, offset: 16, len: 4, group: 7 }.message();
    assert!(message.contains("hash group 7"), "{message}");
    let message = Error::FormatLimit(LimitFault::TooManyRanges(70)).message();
    assert!(message.contains("70"), "{message}");
}

#[test]
fn other_errors_carry_their_report() {
    assert!(Error::Io("disk full".to_string()).message().contains("disk full"));
    assert!(Error::MissingFile("code/cos.xml".to_string())
        .message()
        .contains("code/cos.xml"));
    assert!(Error::Other("failed".to_string()).message().contains("failed"));
}
