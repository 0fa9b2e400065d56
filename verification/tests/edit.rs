use sti_codec::edit::{
    add_image, compress_sti_images, convert_editable_to_sti_file, convert_sti_to_editable,
    remove_images, reorder_images, save_editable_to_bytes, update_sti_header_sizes,
    validate_image_data, EditableImage, EditableStiFile,
};
use sti_codec::parser::StiParser;
use sti_codec::types::StiError;

fn indexed_editable(images: Vec<EditableImage>) -> EditableStiFile {
    EditableStiFile {
        file_path: String::new(),
        is_8bit: true,
        is_16bit: false,
        palette: Some((0..=255u8).map(|i| [i, i, i]).collect()),
        images,
        transparent_color: 0,
        flags: 0,
    }
}

fn three_image_container() -> sti_codec::types::StiFile {
    let editable = indexed_editable(vec![
        EditableImage { width: 1, height: 1, data: vec![10] },
        EditableImage { width: 1, height: 1, data: vec![20] },
        EditableImage { width: 1, height: 1, data: vec![30] },
    ]);
    convert_editable_to_sti_file(&editable).unwrap()
}

#[test]
fn test_from_editable_indexed() {
    let sti = three_image_container();
    assert!(sti.is_8bit());
    assert_eq!(sti.header.num_images, 3);
    assert_eq!(sti.header.palette_colors, 256);
    assert_eq!(sti.header.color_depth, 8);
    assert!(sti.header.flags.etrle_compressed);
    // Multi-image files keep zero dimensions in the main header.
    assert_eq!(sti.header.width, 0);
    assert_eq!(sti.header.height, 0);
    assert_eq!(sti.images.len(), 3);
    assert_eq!(sti.images[1].decompressed_data.as_ref().unwrap(), &vec![20]);
    let sub = sti.images[1].header.as_ref().unwrap();
    assert_eq!((sub.width, sub.height), (1, 1));
}

#[test]
fn test_from_editable_single_image_mirrors_dimensions() {
    let editable = indexed_editable(vec![EditableImage {
        width: 4,
        height: 2,
        data: vec![0, 0, 1, 2, 0, 3, 4, 5],
    }]);
    let sti = convert_editable_to_sti_file(&editable).unwrap();
    assert_eq!(sti.header.width, 4);
    assert_eq!(sti.header.height, 2);
}

#[test]
fn test_from_editable_requires_palette() {
    let mut editable = indexed_editable(vec![]);
    editable.palette = None;
    match convert_editable_to_sti_file(&editable) {
        Err(StiError::InvalidFormat(_)) => {}
        other => panic!("expected a format error, got {:?}", other),
    }
}

#[test]
fn test_to_editable_round_trip() {
    let sti = three_image_container();
    let editable = convert_sti_to_editable(&sti).unwrap();
    assert!(editable.is_8bit);
    assert!(!editable.is_16bit);
    assert_eq!(editable.images.len(), 3);
    assert_eq!(editable.images[2].data, vec![30]);
    assert_eq!(editable.palette.as_ref().unwrap().len(), 256);
}

#[test]
fn test_compress_recomputes_offsets() {
    let editable = indexed_editable(vec![
        EditableImage { width: 4, height: 2, data: vec![0, 0, 1, 2, 0, 3, 4, 5] },
        EditableImage { width: 2, height: 1, data: vec![9, 9] },
    ]);
    let mut sti = convert_editable_to_sti_file(&editable).unwrap();
    compress_sti_images(&mut sti).unwrap();
    let first = sti.images[0].header.as_ref().unwrap();
    let second = sti.images[1].header.as_ref().unwrap();
    // Offsets are cumulative from the start of the image-data section.
    assert_eq!(first.data_offset, 0);
    assert_eq!(first.data_size, sti.images[0].raw_data.len() as u32);
    assert_eq!(second.data_offset, first.data_offset + first.data_size);
    assert_eq!(second.data_size, sti.images[1].raw_data.len() as u32);
    assert_eq!(sti.images[0].raw_data, vec![0x82, 0x02, 1, 2, 0x00, 0x81, 0x03, 3, 4, 5, 0x00]);
}

#[test]
fn test_update_sizes() {
    let editable = indexed_editable(vec![EditableImage {
        width: 4,
        height: 2,
        data: vec![0, 0, 1, 2, 0, 3, 4, 5],
    }]);
    let mut sti = convert_editable_to_sti_file(&editable).unwrap();
    compress_sti_images(&mut sti).unwrap();
    update_sti_header_sizes(&mut sti).unwrap();
    assert_eq!(sti.header.original_size, 8);
    assert_eq!(sti.header.compressed_size, 11);
}

#[test]
fn test_save_and_parse_indexed() {
    let editable = indexed_editable(vec![
        EditableImage { width: 4, height: 2, data: vec![0, 0, 1, 2, 0, 3, 4, 5] },
        EditableImage { width: 2, height: 1, data: vec![9, 9] },
    ]);
    let bytes = save_editable_to_bytes(&editable).unwrap();
    let parsed = StiParser::parse(&bytes).unwrap();
    assert_eq!(parsed.images.len(), 2);
    assert_eq!(
        parsed.images[0].decompressed_data.as_ref().unwrap(),
        &vec![0, 0, 1, 2, 0, 3, 4, 5]
    );
    assert_eq!(parsed.images[1].decompressed_data.as_ref().unwrap(), &vec![9, 9]);
}

#[test]
fn test_16bit_round_trip() {
    // A 16-bit container's single image round-trips through the editable
    // snapshot, the write path and the parser with identical pixel bytes.
    let pixels: Vec<u8> = vec![0x1F, 0x00, 0xE0, 0x07, 0x00, 0xF8, 0xFF, 0xFF];
    let editable = EditableStiFile {
        file_path: String::new(),
        is_8bit: false,
        is_16bit: true,
        palette: None,
        images: vec![EditableImage { width: 2, height: 2, data: pixels.clone() }],
        transparent_color: 0,
        flags: 0,
    };
    let bytes = save_editable_to_bytes(&editable).unwrap();
    let parsed = StiParser::parse(&bytes).unwrap();
    assert!(parsed.is_16bit());
    assert_eq!(parsed.images.len(), 1);
    assert_eq!(parsed.images[0].decompressed_data.as_ref().unwrap(), &pixels);
    let back = convert_sti_to_editable(&parsed).unwrap();
    assert_eq!(back.images[0].data, pixels);
}

#[test]
fn test_remove_image_renumbers() {
    // Removing image index 1 from a 3-image container re-numbers the
    // remaining images and updates the count.
    let mut sti = three_image_container();
    remove_images(&mut sti, &vec![1]).unwrap();
    assert_eq!(sti.images.len(), 2);
    assert_eq!(sti.header.num_images, 2);
    assert_eq!(sti.images[0].decompressed_data.as_ref().unwrap(), &vec![10]);
    assert_eq!(sti.images[1].decompressed_data.as_ref().unwrap(), &vec![30]);
}

#[test]
fn test_remove_all_images_rejected() {
    let mut sti = three_image_container();
    match remove_images(&mut sti, &vec![0, 1, 2]) {
        Err(StiError::InvalidFormat(msg)) => {
            assert!(msg.contains("Cannot remove all images"));
        }
        other => panic!("expected a format error, got {:?}", other),
    }
    // The failure touched nothing.
    assert_eq!(sti.images.len(), 3);
    assert_eq!(sti.header.num_images, 3);
}

#[test]
fn test_remove_rejects_bad_indices() {
    let mut sti = three_image_container();
    match remove_images(&mut sti, &vec![5]) {
        Err(StiError::InvalidFormat(_)) => {}
        other => panic!("expected a format error, got {:?}", other),
    }
    match remove_images(&mut sti, &vec![0, 0]) {
        Err(StiError::InvalidFormat(_)) => {}
        other => panic!("expected a format error, got {:?}", other),
    }
    assert_eq!(sti.images.len(), 3);
}

#[test]
fn test_reorder_images() {
    let mut sti = three_image_container();
    reorder_images(&mut sti, &vec![2, 0, 1]).unwrap();
    assert_eq!(sti.images[0].decompressed_data.as_ref().unwrap(), &vec![30]);
    assert_eq!(sti.images[1].decompressed_data.as_ref().unwrap(), &vec![10]);
    assert_eq!(sti.images[2].decompressed_data.as_ref().unwrap(), &vec![20]);
}

#[test]
fn test_reorder_rejects_invalid_orders() {
    let mut sti = three_image_container();
    match reorder_images(&mut sti, &vec![0, 1]) {
        Err(StiError::InvalidFormat(_)) => {}
        other => panic!("expected a format error, got {:?}", other),
    }
    match reorder_images(&mut sti, &vec![0, 1, 3]) {
        Err(StiError::InvalidFormat(_)) => {}
        other => panic!("expected a format error, got {:?}", other),
    }
    match reorder_images(&mut sti, &vec![0, 1, 1]) {
        Err(StiError::InvalidFormat(_)) => {}
        other => panic!("expected a format error, got {:?}", other),
    }
    assert_eq!(sti.images[0].decompressed_data.as_ref().unwrap(), &vec![10]);
}

#[test]
fn test_add_image_at_position() {
    let mut sti = three_image_container();
    let pos = add_image(
        &mut sti,
        EditableImage { width: 1, height: 1, data: vec![40] },
        Some(1),
    )
    .unwrap();
    assert_eq!(pos, 1);
    assert_eq!(sti.images.len(), 4);
    assert_eq!(sti.header.num_images, 4);
    assert_eq!(sti.images[1].decompressed_data.as_ref().unwrap(), &vec![40]);
    assert_eq!(sti.images[2].decompressed_data.as_ref().unwrap(), &vec![20]);
    // A position past the end is clamped to the end.
    let pos = add_image(
        &mut sti,
        EditableImage { width: 1, height: 1, data: vec![50] },
        Some(99),
    )
    .unwrap();
    assert_eq!(pos, 4);
}

#[test]
fn test_add_image_rejects_bad_data_size() {
    let mut sti = three_image_container();
    match add_image(&mut sti, EditableImage { width: 2, height: 2, data: vec![1, 2, 3] }, None) {
        Err(StiError::InvalidFormat(_)) => {}
        other => panic!("expected a format error, got {:?}", other),
    }
    assert_eq!(sti.images.len(), 3);
}

#[test]
fn test_validate_image_data() {
    assert!(validate_image_data(&EditableImage { width: 2, height: 2, data: vec![0; 4] }).is_ok());
    assert!(validate_image_data(&EditableImage { width: 2, height: 2, data: vec![0; 8] }).is_ok());
    match validate_image_data(&EditableImage { width: 2, height: 2, data: vec![0; 5] }) {
        Err(StiError::InvalidFormat(_)) => {}
        other => panic!("expected a format error, got {:?}", other),
    }
}
