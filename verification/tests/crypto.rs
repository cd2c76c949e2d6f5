use sha2::{Digest, Sha256};

use svarog_p4k::crypto::{
    decrypt, decrypt_in_place, encrypt, encrypt_reader_to_writer, signature_metadata_bytes,
    signature_metadata_sha256, DecryptReader, EncryptWriter,
};
use svarog_p4k::error::IoErrorKind;
use svarog_p4k::Error;

#[test]
fn test_decrypt_empty() {
    let result = decrypt(&[]).unwrap();
    assert!(result.is_empty());
}

#[test]
fn test_decrypt_invalid_length() {
    let mut data = vec![0u8; 15]; // Not a multiple of 16
    assert!(decrypt_in_place(&mut data).is_err());
    assert_eq!(data, vec![0u8; 15]);
    assert!(decrypt(&data).is_err());
}

#[test]
fn test_encrypt_decrypt_roundtrip() {
    let original = b"p4k encrypted payload";
    let encrypted = encrypt(original).unwrap();
    assert_ne!(encrypted, original);
    assert_eq!(encrypted.len() % 16, 0);
    let decrypted = decrypt(&encrypted).unwrap();
    assert_eq!(&decrypted[..original.len()], original);
    assert!(decrypted[original.len()..].iter().all(|&byte| byte == 0));
}

#[test]
fn test_decrypt_preserves_trailing_zeroes_and_padding() {
    let original = b"payload with real zeroes\0\0";
    let encrypted = encrypt(original).unwrap();
    let decrypted = decrypt(&encrypted).unwrap();
    assert_eq!(&decrypted[..original.len()], original);
    assert_eq!(decrypted.len(), encrypted.len());
}

#[test]
fn test_encrypt_matches_dump_cbc_chain() {
    let original = b"0123456789ABCDEF0123456789ABCDEF";
    let encrypted = encrypt(original).unwrap();
    let expected = [
        0xFC, 0xBA, 0x3C, 0xF3, 0x73, 0xF0, 0xE0, 0x49, 0x97, 0xAE, 0xD1, 0xAA, 0x45, 0x9B, 0x7F,
        0xCC, 0xEC, 0x17, 0x1E, 0x23, 0xAD, 0x89, 0x70, 0x17, 0xED, 0x6E, 0xC9, 0x64, 0x78, 0xA7,
        0x0B, 0xB8,
    ];
    assert_eq!(encrypted, expected);
    assert_eq!(decrypt(&encrypted).unwrap(), original);

    let mut in_place = encrypted.clone();
    assert_eq!(decrypt_in_place(&mut in_place).unwrap(), original.len());
    assert_eq!(in_place, original);
}

#[test]
fn streaming_encrypt_matches_buffer_encrypt() {
    let cases: &[&[u8]] = &[
        b"",
        b"partial block",
        b"0123456789ABCDEF",
        b"0123456789ABCDEFtail",
        b"0123456789ABCDEF0123456789ABCDEF0123456789ABCDEF",
    ];

    for case in cases {
        let expected = encrypt(case).unwrap();
        let mut actual = Vec::new();
        let written = encrypt_reader_to_writer(case, &mut actual);
        assert_eq!(written, actual.len() as u64);
        assert_eq!(actual, expected);
    }
}

#[test]
fn streaming_encrypt_writer_matches_buffer_encrypt() {
    let original = b"streamed encrypted writer payload with split writes";
    let expected = encrypt(original).unwrap();
    let mut writer = EncryptWriter::new(Vec::new());
    assert_eq!(writer.write(&original[..7]), 7);
    assert_eq!(writer.write(&original[7..31]), 24);
    assert_eq!(writer.write(&original[31..]), original.len() - 31);
    let (actual, written) = writer.finish();
    assert_eq!(written, actual.len() as u64);
    assert_eq!(actual, expected);
}

#[test]
fn streaming_decrypt_matches_buffer_decrypt() {
    let cases: &[&[u8]] = &[
        b"",
        b"partial block",
        b"0123456789ABCDEF",
        b"0123456789ABCDEFtail",
        b"0123456789ABCDEF0123456789ABCDEF0123456789ABCDEF",
    ];

    for case in cases {
        let encrypted = encrypt(case).unwrap();
        let expected = decrypt(&encrypted).unwrap();
        let mut actual = Vec::new();
        let mut reader = DecryptReader::new(&encrypted);
        reader.read_to_end(&mut actual).unwrap();
        assert_eq!(actual, expected);
    }
}

#[test]
fn streaming_decrypt_hands_out_what_is_asked_for() {
    let encrypted = encrypt(b"0123456789ABCDEFtail").unwrap();
    let mut reader = DecryptReader::new(&encrypted);
    let mut out = Vec::new();
    assert_eq!(reader.read(&mut out, 5).unwrap(), 5);
    assert_eq!(reader.read(&mut out, 13).unwrap(), 13);
    assert_eq!(out, b"0123456789ABCDEFta");
    assert_eq!(reader.read(&mut out, 100).unwrap(), 14);
    assert_eq!(out.len(), 32);
    assert_eq!(reader.read(&mut out, 100).unwrap(), 0);
}

#[test]
fn streaming_decrypt_rejects_partial_cipher_block() {
    let data = vec![0u8; 15];
    let mut reader = DecryptReader::new(&data);
    let mut output = Vec::new();
    let err = reader.read_to_end(&mut output).unwrap_err();
    match err {
        Error::Io { kind, .. } => assert_eq!(kind, IoErrorKind::InvalidData),
        other => panic!("unexpected error {other:?}"),
    }
}

#[test]
fn signature_metadata_digest_matches_dump_field_order() {
    let digest = signature_metadata_sha256("Data\\Textures/Ship.DDS", 0x1234_ABCD, 42, 9000, true);

    let mut manual = Sha256::new();
    manual.update(0x1234_ABCDu32.to_le_bytes());
    manual.update(42u64.to_le_bytes());
    manual.update(9000u64.to_le_bytes());
    manual.update(b"data/textures/ship.dds");
    assert_eq!(digest, <[u8; 32]>::from(manual.finalize()));
}

#[test]
fn signature_metadata_digest_can_preserve_name_bytes() {
    let normalized =
        signature_metadata_sha256("Data\\Textures/Ship.DDS", 0x1234_ABCD, 42, 9000, true);
    let raw = signature_metadata_sha256("Data\\Textures/Ship.DDS", 0x1234_ABCD, 42, 9000, false);
    assert_ne!(normalized, raw);
}

#[test]
fn signature_metadata_lowercase_mode_does_not_full_normalize_path() {
    let digest =
        signature_metadata_sha256("Data\\.//Foo/../Bar.DDS   ", 0x1111_2222, 33, 44, true);

    let mut manual = Sha256::new();
    manual.update(0x1111_2222u32.to_le_bytes());
    manual.update(33u64.to_le_bytes());
    manual.update(44u64.to_le_bytes());
    manual.update(b"data/.//foo/../bar.dds   ");
    assert_eq!(digest, <[u8; 32]>::from(manual.finalize()));

    let mut fully_normalized = Sha256::new();
    fully_normalized.update(0x1111_2222u32.to_le_bytes());
    fully_normalized.update(33u64.to_le_bytes());
    fully_normalized.update(44u64.to_le_bytes());
    fully_normalized.update(b"data/bar.dds");
    assert_ne!(digest, <[u8; 32]>::from(fully_normalized.finalize()));
}

#[test]
fn signature_metadata_bytes_stand_in_signing_order() {
    let bytes = signature_metadata_bytes("A\\B.X", 0x0403_0201, 5, 6, false);
    assert_eq!(
        bytes,
        [
            1, 2, 3, 4, 5, 0, 0, 0, 0, 0, 0, 0, 6, 0, 0, 0, 0, 0, 0, 0, b'A', b'\\', b'B', b'.',
            b'X'
        ]
    );
}
