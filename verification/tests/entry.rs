use std::path::PathBuf;

use svarog_p4k::datetime::{
    civil_from_days, dos_datetime_from_unix_secs, dos_datetime_to_unix_secs,
};
use svarog_p4k::zip::CompressionMethod;
use svarog_p4k::P4kEntry;

fn named(name: &str) -> P4kEntry {
    P4kEntry::new(
        name.to_string(),
        0,
        0,
        CompressionMethod::Store,
        false,
        0,
        0,
        0,
    )
}

#[test]
fn test_output_path_normalization() {
    let entry = P4kEntry::new(
        r"Data\Objects\test.cgf".to_string(),
        0,
        0,
        CompressionMethod::Store,
        false,
        0,
        0,
        0,
    );

    let path = entry.output_path();
    assert_eq!(PathBuf::from(path), PathBuf::from("Data/Objects/test.cgf"));
}

#[test]
fn test_is_dir() {
    let dir_entry = P4kEntry::new(
        "Data/Objects/".to_string(),
        0,
        0,
        CompressionMethod::Store,
        false,
        0,
        0,
        0,
    );
    assert!(dir_entry.is_dir());

    let file_entry = P4kEntry::new(
        "Data/Objects/test.cgf".to_string(),
        0,
        0,
        CompressionMethod::Store,
        false,
        0,
        0,
        0,
    );
    assert!(!file_entry.is_dir());
}

#[test]
fn test_extension() {
    let entry = P4kEntry::new(
        "test.dds".to_string(),
        0,
        0,
        CompressionMethod::Store,
        false,
        0,
        0,
        0,
    );
    assert_eq!(entry.extension().as_deref(), Some("dds"));
}

#[test]
fn extensions_are_those_of_the_last_component() {
    for name in [
        "test.dds",
        "a.b/c",
        "a.b/c.d.e",
        ".hidden",
        "a/.hidden",
        "a/.hidden.txt",
        "a/b.",
        "a/..",
        "a.x/..",
        "a.x/.",
        "a.x/./",
        "dir.ext/",
        "",
        "/",
        "a\\b.c",
        "\u{e9}.\u{fc}",
    ] {
        let expected = PathBuf::from(name)
            .extension()
            .map(|e| e.to_str().unwrap().to_string());
        assert_eq!(named(name).extension(), expected, "{name:?}");
    }
}

#[test]
fn getters_give_what_the_entry_was_made_with() {
    let entry = P4kEntry::new(
        "Data\\x.bin".to_string(),
        1,
        2,
        CompressionMethod::Zstd,
        true,
        3,
        0x5821_0000,
        4,
    );
    assert_eq!(entry.name(), "Data\\x.bin");
    assert_eq!(entry.compressed_size(), 1);
    assert_eq!(entry.uncompressed_size(), 2);
    assert_eq!(entry.compression_method(), CompressionMethod::Zstd);
    assert!(entry.is_encrypted());
    assert_eq!(entry.local_header_offset(), 3);
    assert_eq!(entry.dos_datetime(), 0x5821_0000);
    assert_eq!(entry.crc32(), 4);
    assert_eq!(entry.output_path(), "Data/x.bin");
    // 2024-01-01 00:00:00
    assert_eq!(entry.last_modified(), Some(1_704_067_200));
}

#[test]
fn dos_times_of_known_seconds() {
    assert_eq!(dos_datetime_from_unix_secs(315_532_800), (0, 0x0021));
    assert_eq!(
        dos_datetime_from_unix_secs(1_704_067_199),
        (0xBF7D, 0x579F)
    );
    assert_eq!(dos_datetime_from_unix_secs(1_704_067_200), (0, 0x5821));
}

#[test]
fn days_are_civil_dates() {
    assert_eq!(civil_from_days(0), (1970, 1, 1));
    assert_eq!(civil_from_days(365), (1971, 1, 1));
    assert_eq!(civil_from_days(11_016), (2000, 2, 29));
    assert_eq!(civil_from_days(11_017), (2000, 3, 1));
    assert_eq!(civil_from_days(47_540), (2100, 2, 28));
    assert_eq!(civil_from_days(47_541), (2100, 3, 1));
}

#[test]
fn dos_times_keep_even_seconds() {
    for seconds in [315_532_800u64, 951_782_400, 1_704_067_198, 1_704_067_200] {
        let (time, date) = dos_datetime_from_unix_secs(seconds);
        let packed = (date as u32) << 16 | time as u32;
        assert_eq!(dos_datetime_to_unix_secs(packed), Some(seconds));
    }
    // No month.
    // The 29th of February of 2024 and of 2023, and the 30th of February of 2023.
    assert_eq!(dos_datetime_to_unix_secs(0x585D_0000), Some(1_709_164_800));
    assert_eq!(dos_datetime_to_unix_secs(0x565D_0000), None);
    assert_eq!(dos_datetime_to_unix_secs(0x565E_0000), None);
    let impossible = P4kEntry::new(
        "a".to_string(),
        0,
        0,
        CompressionMethod::Store,
        false,
        0,
        0x565E_0000,
        0,
    );
    assert_eq!(impossible.last_modified(), None);
    assert_eq!(dos_datetime_to_unix_secs(0), None);
}
