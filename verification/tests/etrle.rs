use sti_codec::etrle::EtrleDecoder;
use sti_codec::types::StiError;

#[test]
fn test_etrle_simple_decompression() {
    let decoder = EtrleDecoder::new(4, 2);

    // Test data: 2 transparent, 2 non-transparent (values 1,2), end row
    //           1 transparent, 3 non-transparent (values 3,4,5), end row
    let compressed = vec![
        0x82, // 2 transparent pixels
        0x02, 1, 2, // 2 non-transparent pixels
        0x00, // end of row
        0x81, // 1 transparent pixel
        0x03, 3, 4, 5, // 3 non-transparent pixels
        0x00, // end of row
    ];

    let result = decoder.decompress(&compressed).unwrap();
    assert_eq!(result, vec![0, 0, 1, 2, 0, 3, 4, 5]);
}

#[test]
fn test_etrle_compression() {
    let decoder = EtrleDecoder::new(4, 2);
    let pixel_data = vec![0, 0, 1, 2, 0, 3, 4, 5];

    let compressed = decoder.compress(&pixel_data).unwrap();
    let decompressed = decoder.decompress(&compressed).unwrap();

    assert_eq!(pixel_data, decompressed);
}

#[test]
fn test_etrle_all_transparent() {
    let decoder = EtrleDecoder::new(3, 1);
    let compressed = vec![0x83, 0x00]; // 3 transparent pixels, end row

    let result = decoder.decompress(&compressed).unwrap();
    assert_eq!(result, vec![0, 0, 0]);
}

#[test]
fn test_etrle_no_transparent() {
    let decoder = EtrleDecoder::new(3, 1);
    let compressed = vec![0x03, 1, 2, 3, 0x00]; // 3 non-transparent pixels, end row

    let result = decoder.decompress(&compressed).unwrap();
    assert_eq!(result, vec![1, 2, 3]);
}

#[test]
fn test_etrle_compression_exact_bytes() {
    let decoder = EtrleDecoder::new(4, 2);
    let pixel_data = vec![0, 0, 1, 2, 0, 3, 4, 5];

    let compressed = decoder.compress(&pixel_data).unwrap();
    assert_eq!(compressed, vec![0x82, 0x02, 1, 2, 0x00, 0x81, 0x03, 3, 4, 5, 0x00]);
}

#[test]
fn test_etrle_truncated_input_padded() {
    // Input ends before the rows are complete: the rest is padded with
    // the transparent value.
    let decoder = EtrleDecoder::new(4, 2);
    let compressed = vec![0x02, 7, 8];
    let result = decoder.decompress(&compressed).unwrap();
    assert_eq!(result, vec![7, 8, 0, 0, 0, 0, 0, 0]);
}

#[test]
fn test_etrle_transparent_run_exceeds_row() {
    let decoder = EtrleDecoder::new(4, 1);
    let compressed = vec![0x85, 0x00]; // 5 transparent pixels on a 4-wide row
    match decoder.decompress(&compressed) {
        Err(StiError::Decompression(_)) => {}
        other => panic!("expected a decompression error, got {:?}", other),
    }
}

#[test]
fn test_etrle_literal_run_exceeds_input() {
    let decoder = EtrleDecoder::new(8, 1);
    let compressed = vec![0x03, 1]; // promises 3 literal bytes, delivers 1
    match decoder.decompress(&compressed) {
        Err(StiError::Decompression(_)) => {}
        other => panic!("expected a decompression error, got {:?}", other),
    }
}

#[test]
fn test_etrle_compress_wrong_size() {
    let decoder = EtrleDecoder::new(4, 2);
    let pixel_data = vec![1, 2, 3]; // not 4 * 2 bytes
    match decoder.compress(&pixel_data) {
        Err(StiError::InvalidFormat(_)) => {}
        other => panic!("expected a format error, got {:?}", other),
    }
}

#[test]
fn test_etrle_long_run_split_at_127() {
    // A run longer than 127 pixels is split into several control bytes.
    let decoder = EtrleDecoder::new(300, 1);
    let pixel_data = vec![0u8; 300];
    let compressed = decoder.compress(&pixel_data).unwrap();
    assert_eq!(compressed, vec![0x80 | 127, 0x80 | 127, 0x80 | 46, 0x00]);
    let decompressed = decoder.decompress(&compressed).unwrap();
    assert_eq!(decompressed, pixel_data);
}
