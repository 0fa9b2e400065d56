use sti_codec::edit::{convert_editable_to_sti_file, EditableImage, EditableStiFile};
use sti_codec::info::{export_rgb, get_image_data, StiFileInfo};
use sti_codec::types::StiError;

fn indexed_container() -> sti_codec::types::StiFile {
    let editable = EditableStiFile {
        file_path: String::new(),
        is_8bit: true,
        is_16bit: false,
        palette: Some((0..=255u8).map(|i| [i, i.wrapping_mul(2), i.wrapping_mul(3)]).collect()),
        images: vec![
            EditableImage { width: 2, height: 1, data: vec![1, 2] },
            EditableImage { width: 1, height: 1, data: vec![7] },
        ],
        transparent_color: 0,
        flags: 0,
    };
    convert_editable_to_sti_file(&editable).unwrap()
}

#[test]
fn test_file_info() {
    let sti = indexed_container();
    let info = StiFileInfo::from_file(&sti);
    assert!(info.is_8bit);
    assert!(!info.is_16bit);
    assert!(info.is_animated);
    assert!(info.is_compressed);
    assert_eq!(info.num_images, 2);
    // Indexed files report the first image's dimensions.
    assert_eq!(info.width, 2);
    assert_eq!(info.height, 1);
    assert_eq!(info.file_size, 0);
}

#[test]
fn test_get_image_data() {
    let sti = indexed_container();
    let data = get_image_data(&sti, 1).unwrap();
    assert_eq!(data.width, 1);
    assert_eq!(data.height, 1);
    assert_eq!(data.data, vec![7]);
    assert_eq!(data.palette.as_ref().unwrap()[7], [7, 14, 21]);
    match get_image_data(&sti, 2) {
        Err(StiError::InvalidFormat(_)) => {}
        other => panic!("expected a format error, got {:?}", other),
    }
}

#[test]
fn test_export_rgb_indexed() {
    let sti = indexed_container();
    let rgb = export_rgb(&sti, 0).unwrap();
    // Pixels 1 and 2 through the palette [i, 2i, 3i].
    assert_eq!(rgb, vec![1, 2, 3, 2, 4, 6]);
}

#[test]
fn test_export_rgb_16bit() {
    let editable = EditableStiFile {
        file_path: String::new(),
        is_8bit: false,
        is_16bit: true,
        palette: None,
        // Pure red, green, blue and white in RGB565, little-endian.
        images: vec![EditableImage {
            width: 2,
            height: 2,
            data: vec![0x00, 0xF8, 0xE0, 0x07, 0x1F, 0x00, 0xFF, 0xFF],
        }],
        transparent_color: 0,
        flags: 0,
    };
    let sti = convert_editable_to_sti_file(&editable).unwrap();
    let rgb = export_rgb(&sti, 0).unwrap();
    assert_eq!(rgb, vec![248, 0, 0, 0, 252, 0, 0, 0, 248, 248, 252, 248]);
}
