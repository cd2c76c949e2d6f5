use svarog_p4k::compare::{normalize_path, DiffStatus};
use svarog_p4k::zip::CompressionMethod;
use svarog_p4k::{
    compare_archives, is_cryxml_extension, is_text_file, FileComparisonResult, P4kArchive,
    P4kBuilder, P4kComparisonResult, P4kWriterOptions,
};

#[test]
fn test_is_text_file() {
    assert!(is_text_file("file.xml"));
    assert!(is_text_file("FILE.XML"));
    assert!(is_text_file("path/to/file.json"));
    assert!(is_text_file("material.mtl"));
    assert!(is_text_file("script.lua"));

    assert!(!is_text_file("texture.dds"));
    assert!(!is_text_file("model.cgf"));
    assert!(!is_text_file("audio.wem"));
}

#[test]
fn test_is_cryxml_extension() {
    assert!(is_cryxml_extension("material.mtl"));
    assert!(is_cryxml_extension("character.cdf"));
    assert!(is_cryxml_extension("FILE.MTL"));

    assert!(!is_cryxml_extension("file.xml"));
    assert!(!is_cryxml_extension("file.txt"));
}

#[test]
fn test_normalize_path() {
    assert_eq!(
        normalize_path("Data/Objects/test.xml"),
        "data\\objects\\test.xml"
    );
    assert_eq!(
        normalize_path("DATA\\OBJECTS\\TEST.XML"),
        "data\\objects\\test.xml"
    );
}

#[test]
fn test_comparison_result_methods() {
    let result = P4kComparisonResult {
        added: vec![FileComparisonResult {
            path: "new.xml".to_string(),
            status: DiffStatus::Added,
            size_old: None,
            size_new: Some(100),
            crc_old: None,
            crc_new: Some(0x12345678),
        }],
        removed: vec![],
        modified: vec![],
        old_count: 10,
        new_count: 11,
    };

    assert_eq!(result.total_changes(), 1);
    assert!(!result.is_identical());

    let empty_result = P4kComparisonResult {
        added: vec![],
        removed: vec![],
        modified: vec![],
        old_count: 10,
        new_count: 10,
    };

    assert_eq!(empty_result.total_changes(), 0);
    assert!(empty_result.is_identical());
}

fn image(files: &[(&str, &[u8])]) -> Vec<u8> {
    let mut builder = P4kBuilder::with_options(P4kWriterOptions {
        compression: CompressionMethod::Store,
        ..Default::default()
    });
    for (name, data) in files {
        builder.add_bytes(name, data).unwrap();
    }
    let mut bytes = Vec::new();
    builder.write_to(&mut bytes).unwrap();
    bytes
}

#[test]
fn archives_differ_in_added_removed_and_modified_files() {
    let old_bytes = image(&[
        ("Data/Same.bin", b"same"),
        ("Data/Changed.bin", b"one"),
        ("Data/Gone.bin", b"gone"),
    ]);
    let new_bytes = image(&[
        ("data/same.BIN", b"same"),
        ("Data/changed.bin", b"two"),
        ("Data/New.bin", b"brand new"),
    ]);
    let old = P4kArchive::from_bytes("old.p4k", &old_bytes).unwrap();
    let new = P4kArchive::from_bytes("new.p4k", &new_bytes).unwrap();

    let result = compare_archives(&old, &new);
    assert_eq!(result.old_count, 3);
    assert_eq!(result.new_count, 3);
    assert_eq!(result.total_changes(), 3);
    assert!(!result.is_identical());

    assert_eq!(result.added.len(), 1);
    assert_eq!(result.added[0].status, DiffStatus::Added);
    assert_eq!(result.added[0].size_old, None);
    assert_eq!(result.added[0].size_new, Some(9));
    assert_eq!(result.removed.len(), 1);
    assert_eq!(result.removed[0].status, DiffStatus::Removed);
    assert_eq!(result.removed[0].size_old, Some(4));
    assert_eq!(result.removed[0].crc_new, None);
    assert_eq!(result.modified.len(), 1);
    assert_eq!(result.modified[0].status, DiffStatus::Modified);
    assert_ne!(result.modified[0].crc_old, result.modified[0].crc_new);

    let swapped = compare_archives(&new, &old);
    assert_eq!(swapped.added.len(), result.removed.len());
    assert_eq!(swapped.added[0].size_new, result.removed[0].size_old);
    assert_eq!(swapped.removed[0].size_old, result.added[0].size_new);
    assert_eq!(swapped.modified.len(), result.modified.len());

    assert!(compare_archives(&old, &old).is_identical());
}

#[test]
fn extensions_are_told_whatever_the_case() {
    for name in ["Data/FILE.XML", "Hero.MTL", "notes.Txt", "texture.DDS", "Model.CGF", "X"] {
        let lower = name.to_lowercase();
        assert_eq!(is_text_file(name), is_text_file(&lower));
        assert_eq!(is_cryxml_extension(name), is_cryxml_extension(&lower));
        assert!(!is_cryxml_extension(name) || is_text_file(name));
    }
    assert!(is_text_file("Hero.MTL"));
    assert!(!is_text_file("texture.DDS"));
}
