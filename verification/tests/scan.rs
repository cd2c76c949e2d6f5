use svarog_p4k::scan::{
    find_content_end, find_content_end_scalar, find_eocd64_locator_signature, find_eocd_signature,
};

#[test]
fn test_find_content_end_all_zeros() {
    let data = vec![0u8; 1000];
    assert_eq!(find_content_end(&data), 0);
}

#[test]
fn test_find_content_end_no_zeros() {
    let data = vec![1u8; 1000];
    assert_eq!(find_content_end(&data), 1000);
}

#[test]
fn test_find_content_end_trailing_zeros() {
    let mut data = vec![1u8; 500];
    data.extend(vec![0u8; 500]);
    assert_eq!(find_content_end(&data), 500);
}

#[test]
fn test_find_content_end_small() {
    let data = [1, 2, 3, 0, 0];
    assert_eq!(find_content_end(&data), 3);
}

#[test]
fn test_find_content_end_empty() {
    let data: [u8; 0] = [];
    assert_eq!(find_content_end(&data), 0);
}

#[test]
fn test_find_content_end_single_nonzero() {
    let mut data = vec![0u8; 1000];
    data[500] = 1;
    assert_eq!(find_content_end(&data), 501);
}

#[test]
fn test_find_eocd_signature() {
    let mut data = vec![0u8; 1000];
    // Insert EOCD signature at position 500
    data[500] = 0x50;
    data[501] = 0x4b;
    data[502] = 0x05;
    data[503] = 0x06;

    assert_eq!(find_eocd_signature(&data, 0, 1000), Some(500));
    assert_eq!(find_eocd_signature(&data, 0, 500), None);
    assert_eq!(find_eocd_signature(&data, 501, 1000), None);
}

#[test]
fn test_find_eocd64_locator_signature() {
    let mut data = vec![0u8; 1000];
    // Insert EOCD64 locator signature
    data[500] = 0x50;
    data[501] = 0x4b;
    data[502] = 0x06;
    data[503] = 0x07;

    assert_eq!(find_eocd64_locator_signature(&data, 0, 1000), Some(500));
}

#[test]
fn signatures_are_found_from_the_end() {
    let mut data = vec![0u8; 64];
    for at in [8, 40] {
        data[at..at + 4].copy_from_slice(&[0x50, 0x4b, 0x05, 0x06]);
        data[at + 4..at + 8].copy_from_slice(&[0x50, 0x4b, 0x06, 0x07]);
    }
    assert_eq!(find_eocd_signature(&data, 0, 64), Some(40));
    assert_eq!(find_eocd_signature(&data, 0, 43), Some(8));
    assert_eq!(find_eocd_signature(&data, 9, 43), None);
    assert_eq!(find_eocd64_locator_signature(&data, 0, 64), Some(44));
    assert_eq!(find_eocd64_locator_signature(&data, 0, 47), Some(12));
}

#[test]
fn test_scalar_consistency() {
    // Test that scalar gives same results
    let mut data = vec![0u8; 200];
    data[100] = 42;
    data[150] = 1;

    let scalar_result = find_content_end_scalar(&data);
    let simd_result = find_content_end(&data);

    assert_eq!(scalar_result, simd_result);
    assert_eq!(simd_result, 151);
}
