use sti_codec::parser::StiParser;
use sti_codec::types::{StiError, StiFlags, StiHeader};

fn put_u32(buf: &mut [u8], at: usize, v: u32) {
    buf[at..at + 4].copy_from_slice(&v.to_le_bytes());
}

fn put_u16(buf: &mut [u8], at: usize, v: u16) {
    buf[at..at + 2].copy_from_slice(&v.to_le_bytes());
}

#[test]
fn test_header_parsing() {
    // Create a minimal valid STI header
    let mut header_data = vec![0u8; 64];
    header_data[0..4].copy_from_slice(b"STCI");

    // Set flags for 8-bit indexed format
    header_data[16] = 0x28;

    let header = StiParser::parse_header(&header_data).unwrap();

    assert_eq!(header.signature, [b'S', b'T', b'C', b'I']);
    assert_eq!(header.flags.indexed, true);
}

#[test]
fn test_header_round_trip_indexed() {
    let mut header = StiHeader::default();
    header.flags = StiFlags::from_bits(0x28); // indexed, run-length compressed
    header.original_size = 1234;
    header.compressed_size = 567;
    header.transparent_color = 3;
    header.palette_colors = 256;
    header.num_images = 7;
    header.red_depth = 8;
    header.green_depth = 8;
    header.blue_depth = 8;
    header.color_depth = 8;
    header.app_data_size = 32;

    let bytes = StiParser::write_header(&header);
    assert_eq!(bytes.len(), 64);
    let decoded = StiParser::parse_header(&bytes).unwrap();
    assert_eq!(decoded.signature, header.signature);
    assert_eq!(decoded.original_size, header.original_size);
    assert_eq!(decoded.compressed_size, header.compressed_size);
    assert_eq!(decoded.transparent_color, header.transparent_color);
    assert_eq!(decoded.flags, header.flags);
    assert_eq!(decoded.palette_colors, 256);
    assert_eq!(decoded.num_images, 7);
    assert_eq!(decoded.red_depth, 8);
    assert_eq!(decoded.color_depth, 8);
    assert_eq!(decoded.app_data_size, 32);
    // Fields of the other layout come back normalized to zero.
    assert_eq!(decoded.width, 0);
    assert_eq!(decoded.height, 0);
}

#[test]
fn test_header_round_trip_rgb() {
    let mut header = StiHeader::default();
    header.flags = StiFlags::from_bits(0x04); // rgb
    header.width = 640;
    header.height = 480;
    header.red_mask = 0xF800;
    header.green_mask = 0x07E0;
    header.blue_mask = 0x001F;
    header.red_depth = 5;
    header.green_depth = 6;
    header.blue_depth = 5;
    header.color_depth = 16;

    let bytes = StiParser::write_header(&header);
    let decoded = StiParser::parse_header(&bytes).unwrap();
    assert_eq!(decoded.width, 640);
    assert_eq!(decoded.height, 480);
    assert_eq!(decoded.red_mask, 0xF800);
    assert_eq!(decoded.green_mask, 0x07E0);
    assert_eq!(decoded.blue_mask, 0x001F);
    assert_eq!(decoded.red_depth, 5);
    assert_eq!(decoded.green_depth, 6);
    assert_eq!(decoded.blue_depth, 5);
    assert_eq!(decoded.color_depth, 16);
}

#[test]
fn test_short_buffer_fails() {
    // Shorter than 64 bytes: always an error, never a panic.
    match StiParser::parse(&[]) {
        Err(StiError::Io(_)) => {}
        other => panic!("expected an I/O error, got {:?}", other),
    }
    let mut short = vec![0u8; 32];
    short[0..4].copy_from_slice(b"STCI");
    match StiParser::parse(&short) {
        Err(StiError::Io(_)) => {}
        other => panic!("expected an I/O error, got {:?}", other),
    }
    match StiParser::parse(&[1, 2, 3, 4, 5]) {
        Err(StiError::InvalidFormat(_)) => {}
        other => panic!("expected a format error, got {:?}", other),
    }
}

#[test]
fn test_bad_signature_fails() {
    let mut data = vec![0u8; 64];
    data[0..4].copy_from_slice(b"XTCI");
    data[16] = 0x08;
    match StiParser::parse(&data) {
        Err(StiError::InvalidFormat(_)) => {}
        other => panic!("expected a format error, got {:?}", other),
    }
}

#[test]
fn test_conflicting_flags_fail() {
    // Both RGB and indexed set.
    let mut data = vec![0u8; 64];
    data[0..4].copy_from_slice(b"STCI");
    data[16] = 0x0C;
    match StiParser::parse(&data) {
        Err(StiError::InvalidFormat(_)) => {}
        other => panic!("expected a format error, got {:?}", other),
    }
    // Neither set.
    data[16] = 0x00;
    match StiParser::parse(&data) {
        Err(StiError::InvalidFormat(_)) => {}
        other => panic!("expected a format error, got {:?}", other),
    }
}

/// A complete indexed container: header, grey-ramp palette, one 4x2
/// image compressed as two run-length rows.
fn indexed_fixture() -> Vec<u8> {
    let payload: Vec<u8> = vec![0x82, 0x02, 1, 2, 0x00, 0x81, 0x03, 3, 4, 5, 0x00];
    let mut data = vec![0u8; 64];
    data[0..4].copy_from_slice(b"STCI");
    put_u32(&mut data, 4, 8); // original size: 4 * 2 pixels
    put_u32(&mut data, 8, payload.len() as u32);
    put_u32(&mut data, 12, 0); // transparent colour
    put_u32(&mut data, 16, 0x28); // indexed, run-length compressed
    put_u32(&mut data, 24, 256); // palette colours
    put_u16(&mut data, 28, 1); // one image
    data[30] = 8;
    data[31] = 8;
    data[32] = 8;
    data[44] = 8; // colour depth
    put_u32(&mut data, 45, 0); // no app data
    for i in 0..256u32 {
        data.extend_from_slice(&[i as u8, i as u8, i as u8]);
    }
    let mut sub = vec![0u8; 16];
    put_u32(&mut sub, 0, 0); // data offset
    put_u32(&mut sub, 4, payload.len() as u32); // data size
    put_u16(&mut sub, 12, 2); // height
    put_u16(&mut sub, 14, 4); // width
    data.extend_from_slice(&sub);
    data.extend_from_slice(&payload);
    data
}

#[test]
fn test_parse_indexed_scenario() {
    let data = indexed_fixture();
    let sti = StiParser::parse(&data).unwrap();
    assert!(sti.is_8bit());
    assert!(!sti.is_16bit());
    assert_eq!(sti.header.num_images, 1);
    assert_eq!(sti.images.len(), 1);
    let image = &sti.images[0];
    assert_eq!(image.width, 4);
    assert_eq!(image.height, 2);
    // The run-length payload decodes to two rows [0,0,1,2] and [0,3,4,5].
    assert_eq!(image.decompressed_data.as_ref().unwrap(), &vec![0, 0, 1, 2, 0, 3, 4, 5]);
    let palette = sti.palette.as_ref().unwrap();
    assert_eq!(palette.len(), 256);
    assert_eq!(palette[7], [7, 7, 7]);
}

#[test]
fn test_parse_truncated_payload_fails() {
    let mut data = indexed_fixture();
    data.truncate(data.len() - 4);
    match StiParser::parse(&data) {
        Err(StiError::Io(_)) => {}
        other => panic!("expected an I/O error, got {:?}", other),
    }
}

#[test]
fn test_parse_bad_run_length_payload_fails() {
    // A transparent run of 5 on a 4-pixel-wide image violates the row.
    let mut data = indexed_fixture();
    let payload_start = data.len() - 11;
    data[payload_start] = 0x85;
    match StiParser::parse(&data) {
        Err(StiError::Decompression(_)) => {}
        other => panic!("expected a decompression error, got {:?}", other),
    }
}

#[test]
fn test_parse_write_round_trip_indexed() {
    let data = indexed_fixture();
    let sti = StiParser::parse(&data).unwrap();
    let written = StiParser::write(&sti).unwrap();
    assert_eq!(written, data);
}

#[test]
fn test_write_16bit_requires_image() {
    let mut sti = sti_codec::types::StiFile::new();
    sti.header.flags.rgb = true;
    match StiParser::write(&sti) {
        Err(StiError::InvalidFormat(_)) => {}
        other => panic!("expected a format error, got {:?}", other),
    }
}

#[test]
fn test_write_unknown_format_fails() {
    let sti = sti_codec::types::StiFile::new();
    match StiParser::write(&sti) {
        Err(StiError::UnsupportedFormat(_)) => {}
        other => panic!("expected an unsupported-format error, got {:?}", other),
    }
}

#[test]
fn test_parse_animation_records() {
    let mut data = indexed_fixture();
    // Declare 32 bytes of app data: two animation records.
    put_u32(&mut data, 45, 32);
    let mut rec = vec![0u8; 16];
    rec[8] = 5; // frame count
    rec[9] = 2;
    data.extend_from_slice(&rec);
    rec[8] = 0;
    rec[9] = 0;
    data.extend_from_slice(&rec);
    let sti = StiParser::parse(&data).unwrap();
    assert_eq!(sti.animation_data.len(), 2);
    assert_eq!(sti.animation_data[0].frame_count, 5);
    assert_eq!(sti.animation_data[0].unknown2, 2);
    assert_eq!(sti.animation_data[1].frame_count, 0);
}
