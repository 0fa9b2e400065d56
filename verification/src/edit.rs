//! The edit/save pipeline: the externally editable snapshot of a
//! container, the conversions to and from it, recompression and
//! size/offset recomputation on save, and the structural edit operations.

use vstd::prelude::*;

use crate::etrle::{spec_compress, EtrleDecoder};
use crate::parser::{payload_bytes, spec_write, StiParser};
use crate::types::{
    copy_bytes, copy_palette, spec_flags_bits, spec_flags_from_bits, spec_signature, FileModel,
    HeaderModel, ImageModel, StiError, StiErrorKind, StiFile, StiFlags, StiHeader, StiImage,
    StiPalette, StiResult, StiSubImageHeader,
};

verus! {

/// One image of an editable snapshot: its dimensions and raw pixel bytes
/// (palette indices for 8-bit files, packed little-endian RGB565 pairs for
/// 16-bit files).
#[derive(Debug)]
pub struct EditableImage {
    pub width: u16,
    pub height: u16,
    pub data: Vec<u8>,
}

/// Mathematical view of an [`EditableImage`].
pub ghost struct EditableImageModel {
    pub width: u16,
    pub height: u16,
    pub data: Seq<u8>,
}

impl View for EditableImage {
    type V = EditableImageModel;

    open spec fn view(&self) -> EditableImageModel {
        EditableImageModel { width: self.width, height: self.height, data: self.data@ }
    }
}

impl Clone for EditableImage {
    /// A deep copy with the same view.
    fn clone(&self) -> (r: Self)
        ensures
            r@ == self@,
    {
        EditableImage { width: self.width, height: self.height, data: copy_bytes(&self.data) }
    }
}

/// An editable snapshot of a container: palette, per-image pixel bytes,
/// dimensions, transparent colour and flags, without the internal
/// compressed representations.
#[derive(Debug)]
pub struct EditableStiFile {
    /// Path of the file the snapshot came from; informational only.
    pub file_path: String,
    pub is_8bit: bool,
    pub is_16bit: bool,
    /// Present for 8-bit files: RGB triplets.
    pub palette: Option<Vec<[u8; 3]>>,
    pub images: Vec<EditableImage>,
    pub transparent_color: u32,
    /// The raw 32-bit flags field.
    pub flags: u32,
}

/// Mathematical view of an [`EditableStiFile`]; the palette flattened as
/// in [`FileModel`].
pub ghost struct EditableModel {
    pub file_path: Seq<char>,
    pub is_8bit: bool,
    pub is_16bit: bool,
    pub palette: Option<Seq<u8>>,
    pub images: Seq<EditableImageModel>,
    pub transparent_color: u32,
    pub flags: u32,
}

impl View for EditableStiFile {
    type V = EditableModel;

    open spec fn view(&self) -> EditableModel {
        EditableModel {
            file_path: self.file_path@,
            is_8bit: self.is_8bit,
            is_16bit: self.is_16bit,
            palette: match self.palette {
                Some(p) => Some(crate::types::spec_palette_bytes(p@)),
                None => None,
            },
            images: self.images@.map_values(|im: EditableImage| im@),
            transparent_color: self.transparent_color,
            flags: self.flags,
        }
    }
}

/// What converting a container to its editable snapshot returns: the
/// decompressed pixel bytes of every image; a format error when any image
/// has no decompressed data.
pub open spec fn spec_to_editable(m: FileModel) -> Result<EditableModel, StiErrorKind> {
    if exists|i: int| 0 <= i < m.images.len() && m.images[i].decompressed_data is None {
        Err(StiErrorKind::InvalidFormat)
    } else {
        Ok(
            EditableModel {
                file_path: Seq::empty(),
                is_8bit: m.header.flags.indexed && !m.header.flags.rgb,
                is_16bit: m.header.flags.rgb && !m.header.flags.indexed,
                palette: m.palette,
                images: Seq::new(
                    m.images.len(),
                    |i: int|
                        EditableImageModel {
                            width: m.images[i].width,
                            height: m.images[i].height,
                            data: m.images[i].decompressed_data->Some_0,
                        },
                ),
                transparent_color: m.header.transparent_color,
                flags: spec_flags_bits(m.header.flags),
            },
        )
    }
}

/// Converts a container to its editable snapshot, exposing each image's
/// decompressed pixel bytes. Fails with a format error exactly when an
/// image has no decompressed data.
pub fn convert_sti_to_editable(sti_file: &StiFile) -> (r: StiResult<EditableStiFile>)
    ensures
        match r {
            Ok(e) => spec_to_editable(sti_file@) == Ok::<EditableModel, StiErrorKind>(e@),
            Err(e) => spec_to_editable(sti_file@) == Err::<EditableModel, StiErrorKind>(e.kind()),
        },
{
    let ghost m = sti_file@;
    let mut editable_images: Vec<EditableImage> = Vec::new();
    let mut i: usize = 0;
    while i < sti_file.images.len()
        invariant
            i <= sti_file.images.len(),
            m == sti_file@,
            editable_images@.len() == i,
            forall|j: int| 0 <= j < i ==> m.images[j].decompressed_data is Some,
            forall|j: int|
                0 <= j < i ==> editable_images@[j]@ == (EditableImageModel {
                    width: m.images[j].width,
                    height: m.images[j].height,
                    data: m.images[j].decompressed_data->Some_0,
                }),
        decreases sti_file.images.len() - i,
    {
        let image = &sti_file.images[i];
        match &image.decompressed_data {
            Some(pixel_data) => {
                editable_images.push(
                    EditableImage {
                        width: image.width,
                        height: image.height,
                        data: copy_bytes(pixel_data),
                    },
                );
            },
            None => {
                proof {
                    assert(m.images[i as int].decompressed_data is None);
                }
                return Err(StiError::InvalidFormat("Image data not decompressed".to_string()));
            },
        }
        i = i + 1;
    }
    let palette = match &sti_file.palette {
        Some(p) => Some(copy_palette(p)),
        None => None,
    };
    let r = EditableStiFile {
        file_path: String::new(),
        is_8bit: sti_file.is_8bit(),
        is_16bit: sti_file.is_16bit(),
        palette,
        images: editable_images,
        transparent_color: sti_file.header.transparent_color,
        flags: sti_file.header.flags.bits(),
    };
    proof {
        let e = spec_to_editable(m)->Ok_0;
        assert(r@.images =~= e.images);
        assert(r@.file_path =~= e.file_path);
        assert(r@ == e);
    }
    Ok(r)
}

/// The given palette bytes padded (or cut) to the 768-byte on-disk image:
/// missing trailing entries become zero.
pub open spec fn spec_pad_palette(p: Seq<u8>) -> Seq<u8> {
    Seq::new(
        768,
        |i: int|
            if i < p.len() {
                p[i]
            } else {
                0u8
            },
    )
}

/// What reconstructing a container from an editable snapshot returns. The
/// header shape follows `is_8bit`/`is_16bit`; an 8-bit snapshot needs a
/// palette and turns run-length compression on; sub-headers carry
/// placeholder offsets and sizes until the write path recomputes them.
/// Fails with a format error when an 8-bit snapshot has no palette or when
/// the image count does not fit the header's 16-bit field.
pub open spec fn spec_from_editable(e: EditableModel) -> Result<FileModel, StiErrorKind> {
    if e.is_8bit {
        if e.palette is None {
            Err(StiErrorKind::InvalidFormat)
        } else if e.images.len() > 0xFFFF {
            Err(StiErrorKind::InvalidFormat)
        } else {
            Ok(
                FileModel {
                    header: HeaderModel {
                        signature: spec_signature(),
                        original_size: 0,
                        compressed_size: 0,
                        transparent_color: e.transparent_color,
                        flags: StiFlags {
                            indexed: true,
                            rgb: false,
                            etrle_compressed: true,
                            ..spec_flags_from_bits(e.flags)
                        },
                        height: if e.images.len() == 1 {
                            e.images[0].height
                        } else {
                            0
                        },
                        width: if e.images.len() == 1 {
                            e.images[0].width
                        } else {
                            0
                        },
                        red_mask: 0,
                        green_mask: 0,
                        blue_mask: 0,
                        alpha_mask: 0,
                        red_depth: 0,
                        green_depth: 0,
                        blue_depth: 0,
                        alpha_depth: 0,
                        palette_colors: 256,
                        num_images: e.images.len() as u16,
                        color_depth: 8,
                        app_data_size: 0,
                    },
                    palette: Some(spec_pad_palette(e.palette->Some_0)),
                    images: Seq::new(
                        e.images.len(),
                        |i: int|
                            ImageModel {
                                header: Some(
                                    StiSubImageHeader {
                                        data_offset: 0,
                                        data_size: 0,
                                        offset_x: 0,
                                        offset_y: 0,
                                        height: e.images[i].height,
                                        width: e.images[i].width,
                                    },
                                ),
                                raw_data: Seq::empty(),
                                decompressed_data: Some(e.images[i].data),
                                width: e.images[i].width,
                                height: e.images[i].height,
                            },
                    ),
                    animation_data: Seq::empty(),
                },
            )
        }
    } else if e.is_16bit {
        Ok(
            FileModel {
                header: HeaderModel {
                    signature: spec_signature(),
                    original_size: 0,
                    compressed_size: 0,
                    transparent_color: e.transparent_color,
                    flags: StiFlags {
                        rgb: true,
                        indexed: false,
                        ..spec_flags_from_bits(e.flags)
                    },
                    height: if e.images.len() >= 1 {
                        e.images[0].height
                    } else {
                        0
                    },
                    width: if e.images.len() >= 1 {
                        e.images[0].width
                    } else {
                        0
                    },
                    red_mask: 0,
                    green_mask: 0,
                    blue_mask: 0,
                    alpha_mask: 0,
                    red_depth: 0,
                    green_depth: 0,
                    blue_depth: 0,
                    alpha_depth: 0,
                    palette_colors: 0,
                    num_images: 1,
                    color_depth: 16,
                    app_data_size: 0,
                },
                palette: None,
                images: Seq::new(
                    e.images.len(),
                    |i: int|
                        ImageModel {
                            header: None,
                            raw_data: Seq::empty(),
                            decompressed_data: Some(e.images[i].data),
                            width: e.images[i].width,
                            height: e.images[i].height,
                        },
                ),
                animation_data: Seq::empty(),
            },
        )
    } else {
        Ok(
            FileModel {
                header: HeaderModel {
                    signature: spec_signature(),
                    original_size: 0,
                    compressed_size: 0,
                    transparent_color: e.transparent_color,
                    flags: spec_flags_from_bits(e.flags),
                    height: 0,
                    width: 0,
                    red_mask: 0,
                    green_mask: 0,
                    blue_mask: 0,
                    alpha_mask: 0,
                    red_depth: 0,
                    green_depth: 0,
                    blue_depth: 0,
                    alpha_depth: 0,
                    palette_colors: 0,
                    num_images: 0,
                    color_depth: 0,
                    app_data_size: 0,
                },
                palette: None,
                images: Seq::new(
                    e.images.len(),
                    |i: int|
                        ImageModel {
                            header: None,
                            raw_data: Seq::empty(),
                            decompressed_data: Some(e.images[i].data),
                            width: e.images[i].width,
                            height: e.images[i].height,
                        },
                ),
                animation_data: Seq::empty(),
            },
        )
    }
}

/// Reconstructs a container from an editable snapshot, inferring the
/// header shape from `is_8bit`/`is_16bit` and deriving per-image
/// sub-headers with placeholder offsets and sizes. Fails with a format
/// error exactly when an 8-bit snapshot lacks a palette or the image
/// count does not fit the header's 16-bit field.
pub fn convert_editable_to_sti_file(editable: &EditableStiFile) -> (r: StiResult<StiFile>)
    ensures
        match r {
            Ok(f) => spec_from_editable(editable@) == Ok::<FileModel, StiErrorKind>(f@),
            Err(e) => spec_from_editable(editable@) == Err::<FileModel, StiErrorKind>(e.kind()),
        },
{
    let ghost e = editable@;
    let mut header = StiHeader::default();
    header.transparent_color = editable.transparent_color;
    header.flags = StiFlags::from_bits(editable.flags);
    let mut palette: Option<StiPalette> = None;
    if editable.is_8bit {
        let given = match &editable.palette {
            Some(p) => p,
            None => {
                return Err(
                    StiError::InvalidFormat("8-bit STI file requires a palette".to_string()),
                );
            },
        };
        if editable.images.len() > 0xFFFF {
            return Err(
                StiError::InvalidFormat(
                    "image count does not fit the 16-bit header field".to_string(),
                ),
            );
        }
        header.flags.indexed = true;
        header.flags.rgb = false;
        header.flags.etrle_compressed = true;
        header.palette_colors = 256;
        header.num_images = editable.images.len() as u16;
        header.color_depth = 8;
        if editable.images.len() == 1 {
            header.width = editable.images[0].width;
            header.height = editable.images[0].height;
        }
        // Pad or cut the given palette to exactly 256 colours.
        let mut pal: StiPalette = Vec::new();
        let mut i: usize = 0;
        while i < 256
            invariant
                i <= 256,
                pal@.len() == i,
                e == editable@,
                editable.palette == Some(*given),
                e.palette is Some,
                forall|j: int, k: int|
                    0 <= j < i && 0 <= k < 3 ==> pal@[j]@[k] == (if 3 * j + k
                        < e.palette->Some_0.len() {
                        e.palette->Some_0[3 * j + k]
                    } else {
                        0u8
                    }),
            decreases 256 - i,
        {
            if i < given.len() {
                pal.push(given[i]);
                proof {
                    assert forall|k: int| 0 <= k < 3 implies pal@[i as int]@[k] == (if 3 * (
                    i as int) + k < e.palette->Some_0.len() {
                        e.palette->Some_0[3 * (i as int) + k]
                    } else {
                        0u8
                    }) by {
                        assert(e.palette->Some_0[3 * (i as int) + k] == given@[i as int]@[k]);
                    }
                }
            } else {
                pal.push([0u8, 0u8, 0u8]);
                proof {
                    assert(3 * (i as int) >= 3 * given@.len());
                    assert(e.palette->Some_0.len() == 3 * given@.len());
                }
            }
            i = i + 1;
        }
        proof {
            assert(crate::types::spec_palette_bytes(pal@) =~= spec_pad_palette(
                e.palette->Some_0,
            )) by {
                assert forall|x: int|
                    0 <= x < 768 implies crate::types::spec_palette_bytes(pal@)[x]
                    == spec_pad_palette(e.palette->Some_0)[x] by {
                    let j = x / 3;
                    let k = x % 3;
                    assert(x == 3 * j + k && 0 <= j < 256 && 0 <= k < 3) by (nonlinear_arith)
                        requires
                            0 <= x < 768,
                            j == x / 3,
                            k == x % 3,
                    ;
                    assert(pal@[j]@[k] == (if 3 * j + k < e.palette->Some_0.len() {
                        e.palette->Some_0[3 * j + k]
                    } else {
                        0u8
                    }));
                }
            }
        }
        palette = Some(pal);
    } else if editable.is_16bit {
        header.flags.rgb = true;
        header.flags.indexed = false;
        header.color_depth = 16;
        header.num_images = 1;
        if editable.images.len() >= 1 {
            header.width = editable.images[0].width;
            header.height = editable.images[0].height;
        }
    }
    // Images: decompressed data only; the write path fills raw data and
    // real sub-header offsets and sizes.
    let mut images: Vec<StiImage> = Vec::new();
    let mut i: usize = 0;
    let is_8bit = editable.is_8bit;
    while i < editable.images.len()
        invariant
            i <= editable.images.len(),
            e == editable@,
            is_8bit == e.is_8bit,
            images@.len() == i,
            forall|j: int|
                0 <= j < i ==> images@[j]@ == (ImageModel {
                    header: if e.is_8bit {
                        Some(
                            StiSubImageHeader {
                                data_offset: 0,
                                data_size: 0,
                                offset_x: 0,
                                offset_y: 0,
                                height: e.images[j].height,
                                width: e.images[j].width,
                            },
                        )
                    } else {
                        None
                    },
                    raw_data: Seq::empty(),
                    decompressed_data: Some(e.images[j].data),
                    width: e.images[j].width,
                    height: e.images[j].height,
                }),
        decreases editable.images.len() - i,
    {
        let editable_image = &editable.images[i];
        let sub_header = if is_8bit {
            Some(
                StiSubImageHeader {
                    data_offset: 0,
                    data_size: 0,
                    offset_x: 0,
                    offset_y: 0,
                    height: editable_image.height,
                    width: editable_image.width,
                },
            )
        } else {
            None
        };
        images.push(
            StiImage {
                header: sub_header,
                raw_data: Vec::new(),
                decompressed_data: Some(copy_bytes(&editable_image.data)),
                width: editable_image.width,
                height: editable_image.height,
            },
        );
        i = i + 1;
    }
    let r = StiFile { header, palette, images, animation_data: Vec::new() };
    proof {
        let m = spec_from_editable(e)->Ok_0;
        assert(r@.images =~= m.images);
        assert(r@.animation_data =~= m.animation_data);
        assert(r@.header == m.header);
        assert(r@ == m);
    }
    Ok(r)
}

/// What the write path's per-image pass over `imgs[i..]` returns, with
/// `cum` bytes of payload already laid out before it. For each image with
/// decompressed data: the raw payload becomes the run-length compression
/// of the pixels (when `rle`) or a copy of them, its sub-header's
/// `data_size` becomes the raw length and its `data_offset` the running
/// payload total. An image without decompressed data passes through
/// untouched and advances nothing. Fails with a format error when pixels
/// do not match their image's dimensions (compressing only) or when the
/// running total would leave the sub-header's 32-bit fields.
pub open spec fn spec_compress_from(
    imgs: Seq<ImageModel>,
    i: int,
    cum: int,
    rle: bool,
) -> Result<Seq<ImageModel>, StiErrorKind>
    decreases imgs.len() - i,
{
    if i >= imgs.len() {
        Ok(Seq::empty())
    } else {
        let im = imgs[i];
        match im.decompressed_data {
            None => match spec_compress_from(imgs, i + 1, cum, rle) {
                Err(k) => Err(k),
                Ok(rest) => Ok(seq![im] + rest),
            },
            Some(dec) => {
                if rle && dec.len() != im.width * im.height {
                    Err(StiErrorKind::InvalidFormat)
                } else {
                    let raw = if rle {
                        spec_compress(dec, im.width as nat, im.height as nat)
                    } else {
                        dec
                    };
                    if cum + raw.len() > 0xFFFF_FFFF {
                        Err(StiErrorKind::InvalidFormat)
                    } else {
                        let im2 = ImageModel {
                            raw_data: raw,
                            header: match im.header {
                                Some(sh) => Some(
                                    StiSubImageHeader {
                                        data_size: raw.len() as u32,
                                        data_offset: cum as u32,
                                        ..sh
                                    },
                                ),
                                None => None,
                            },
                            ..im
                        };
                        match spec_compress_from(imgs, i + 1, cum + raw.len(), rle) {
                            Err(k) => Err(k),
                            Ok(rest) => Ok(seq![im2] + rest),
                        }
                    }
                }
            },
        }
    }
}

/// What the write path's recompression pass returns for a whole
/// container: 8-bit run-length files are compressed with cumulative
/// offsets, uncompressed 8-bit files copy their pixels with the same
/// offset bookkeeping, and 16-bit files copy their pixels verbatim.
pub open spec fn spec_compress_images(m: FileModel) -> Result<FileModel, StiErrorKind> {
    if StiFile::spec_is_8bit(m) && m.header.flags.etrle_compressed {
        match spec_compress_from(m.images, 0, 0, true) {
            Err(k) => Err(k),
            Ok(imgs) => Ok(FileModel { images: imgs, ..m }),
        }
    } else if StiFile::spec_is_16bit(m) {
        Ok(
            FileModel {
                images: Seq::new(
                    m.images.len(),
                    |i: int|
                        match m.images[i].decompressed_data {
                            Some(dec) => ImageModel { raw_data: dec, ..m.images[i] },
                            None => m.images[i],
                        },
                ),
                ..m
            },
        )
    } else {
        match spec_compress_from(m.images, 0, 0, false) {
            Err(k) => Err(k),
            Ok(imgs) => Ok(FileModel { images: imgs, ..m }),
        }
    }
}

/// Prefixes already-processed images onto the result of processing the
/// rest.
pub open spec fn prepend_result(
    pre: Seq<ImageModel>,
    r: Result<Seq<ImageModel>, StiErrorKind>,
) -> Result<Seq<ImageModel>, StiErrorKind> {
    match r {
        Ok(s) => Ok(pre + s),
        Err(k) => Err(k),
    }
}

/// Recompresses every image's payload and recomputes each sub-header's
/// size and cumulative offset, as the write path requires. On error the
/// container is left unchanged.
pub fn compress_sti_images(sti_file: &mut StiFile) -> (r: StiResult<()>)
    ensures
        match r {
            Ok(()) => spec_compress_images(old(sti_file)@) == Ok::<FileModel, StiErrorKind>(
                final(sti_file)@,
            ),
            Err(e) => spec_compress_images(old(sti_file)@) == Err::<FileModel, StiErrorKind>(
                e.kind(),
            ) && final(sti_file)@ == old(sti_file)@,
        },
{
    let ghost m = old(sti_file)@;
    let is8 = sti_file.is_8bit();
    let is16 = sti_file.is_16bit();
    let rle_mode = is8 && sti_file.header.flags.etrle_compressed;
    if is16 {
        // 16-bit files carry their pixels raw: copy decompressed to raw.
        let mut images: Vec<StiImage> = Vec::new();
        let mut i: usize = 0;
        while i < sti_file.images.len()
            invariant
                i <= sti_file.images.len(),
                m == sti_file@,
                images@.len() == i,
                forall|j: int|
                    0 <= j < i ==> images@[j]@ == (match m.images[j].decompressed_data {
                        Some(dec) => ImageModel { raw_data: dec, ..m.images[j] },
                        None => m.images[j],
                    }),
            decreases sti_file.images.len() - i,
        {
            let image = &sti_file.images[i];
            match &image.decompressed_data {
                Some(dec) => {
                    images.push(
                        StiImage {
                            header: image.header,
                            raw_data: copy_bytes(dec),
                            decompressed_data: Some(copy_bytes(dec)),
                            width: image.width,
                            height: image.height,
                        },
                    );
                },
                None => {
                    images.push(image.clone());
                },
            }
            i = i + 1;
        }
        sti_file.images = images;
        proof {
            let m2 = spec_compress_images(m)->Ok_0;
            assert(sti_file@.images =~= m2.images);
            assert(sti_file@ == m2);
        }
        return Ok(());
    }
    let rle = rle_mode;
    let mut images: Vec<StiImage> = Vec::new();
    let mut cum: u32 = 0;
    let mut i: usize = 0;
    proof {
        assert(Seq::<ImageModel>::empty() + spec_compress_from(m.images, 0, 0, rle)->Ok_0
            =~= spec_compress_from(m.images, 0, 0, rle)->Ok_0);
        assert(images@.map_values(|im: StiImage| im@) =~= Seq::<ImageModel>::empty());
    }
    while i < sti_file.images.len()
        invariant
            i <= sti_file.images.len(),
            m == sti_file@,
            m == old(sti_file)@,
            rle == (StiFile::spec_is_8bit(m) && m.header.flags.etrle_compressed),
            !StiFile::spec_is_16bit(m),
            images@.len() == i,
            spec_compress_from(m.images, 0, 0, rle) == prepend_result(
                images@.map_values(|im: StiImage| im@),
                spec_compress_from(m.images, i as int, cum as int, rle),
            ),
        decreases sti_file.images.len() - i,
    {
        let ghost pre = images@.map_values(|im: StiImage| im@);
        let ghost cum0 = cum as int;
        let image = &sti_file.images[i];
        let new_image: StiImage;
        match &image.decompressed_data {
            Some(dec) => {
                let raw: Vec<u8>;
                if rle {
                    let encoder = EtrleDecoder::new(image.width, image.height);
                    match encoder.compress(dec.as_slice()) {
                        Ok(c) => {
                            raw = c;
                        },
                        Err(e) => {
                            proof {
                                assert(spec_compress_from(m.images, i as int, cum0, rle)
                                    == Err::<Seq<ImageModel>, StiErrorKind>(
                                    StiErrorKind::InvalidFormat,
                                ));
                                assert(spec_compress_images(m) == Err::<FileModel, StiErrorKind>(
                                    StiErrorKind::InvalidFormat,
                                ));
                                assert(sti_file@ == m);
                            }
                            return Err(e);
                        },
                    }
                } else {
                    raw = copy_bytes(dec);
                }
                if raw.len() > (0xFFFF_FFFFu32 - cum) as usize {
                    proof {
                        assert(spec_compress_from(m.images, i as int, cum0, rle) == Err::<
                            Seq<ImageModel>,
                            StiErrorKind,
                        >(StiErrorKind::InvalidFormat));
                        assert(spec_compress_images(m) == Err::<FileModel, StiErrorKind>(
                            StiErrorKind::InvalidFormat,
                        ));
                        assert(sti_file@ == m);
                    }
                    return Err(
                        StiError::InvalidFormat(
                            "image payload leaves the 32-bit offset range".to_string(),
                        ),
                    );
                }
                let size = raw.len() as u32;
                let header = match &image.header {
                    Some(sh) => Some(
                        StiSubImageHeader { data_size: size, data_offset: cum, ..*sh },
                    ),
                    None => None,
                };
                new_image = StiImage {
                    header,
                    raw_data: raw,
                    decompressed_data: Some(copy_bytes(dec)),
                    width: image.width,
                    height: image.height,
                };
                cum = cum + size;
            },
            None => {
                new_image = image.clone();
            },
        }
        let ghost nm = new_image@;
        images.push(new_image);
        i = i + 1;
        proof {
            assert(images@.map_values(|im: StiImage| im@) =~= pre + seq![nm]);
            let tail_res = spec_compress_from(m.images, i as int, cum as int, rle);
            if tail_res is Ok {
                assert(pre + (seq![nm] + tail_res->Ok_0) =~= (pre + seq![nm]) + tail_res->Ok_0);
            }
        }
    }
    proof {
        assert(spec_compress_from(m.images, i as int, cum as int, rle) == Ok::<
            Seq<ImageModel>,
            StiErrorKind,
        >(Seq::empty()));
        assert(images@.map_values(|im: StiImage| im@) + Seq::<ImageModel>::empty()
            =~= images@.map_values(|im: StiImage| im@));
    }
    sti_file.images = images;
    proof {
        let m2 = spec_compress_images(m)->Ok_0;
        assert(sti_file@ == m2);
    }
    Ok(())
}

/// `payload_bytes` over a sequence with one image in front, taken from
/// position 1 on, is `payload_bytes` over the rest.
proof fn lemma_payload_shift(a: ImageModel, rest: Seq<ImageModel>, k: int)
    requires
        1 <= k <= rest.len() + 1,
    ensures
        payload_bytes(seq![a] + rest, k) == payload_bytes(rest, k - 1),
    decreases rest.len() + 1 - k,
{
    let s = seq![a] + rest;
    if k <= rest.len() {
        assert(s[k] == rest[k - 1]);
        lemma_payload_shift(a, rest, k + 1);
    }
}

/// The write path's per-image pass produces strictly cumulative,
/// contiguous sub-headers: each image's `data_size` is its raw payload
/// length, and its `data_offset` is `cum` plus the total length of the
/// payloads laid out before it.
proof fn lemma_compress_from_offsets(imgs: Seq<ImageModel>, i: int, cum: int, rle: bool)
    requires
        0 <= i <= imgs.len(),
        spec_compress_from(imgs, i, cum, rle) is Ok,
        forall|j: int| i <= j < imgs.len() ==> imgs[j].decompressed_data is Some,
        forall|j: int| i <= j < imgs.len() ==> imgs[j].header is Some,
        0 <= cum,
    ensures
        ({
            let out = spec_compress_from(imgs, i, cum, rle)->Ok_0;
            &&& out.len() == imgs.len() - i
            &&& forall|k: int| 0 <= k < out.len() ==> out[k].header is Some
            &&& forall|k: int|
                0 <= k < out.len() ==> out[k].header->Some_0.data_size == out[k].raw_data.len()
            &&& forall|k: int|
                0 <= k < out.len() ==> out[k].header->Some_0.data_offset == cum + payload_bytes(
                    out,
                    0,
                ).len() - payload_bytes(out, k).len()
        }),
    decreases imgs.len() - i,
{
    let out = spec_compress_from(imgs, i, cum, rle)->Ok_0;
    if i < imgs.len() {
        let im = imgs[i];
        let dec = im.decompressed_data->Some_0;
        let raw = if rle {
            spec_compress(dec, im.width as nat, im.height as nat)
        } else {
            dec
        };
        let sh = im.header->Some_0;
        let im2 = ImageModel {
            raw_data: raw,
            header: Some(
                StiSubImageHeader {
                    data_size: raw.len() as u32,
                    data_offset: cum as u32,
                    ..sh
                },
            ),
            ..im
        };
        let cum2 = cum + raw.len();
        lemma_compress_from_offsets(imgs, i + 1, cum2, rle);
        let rest = spec_compress_from(imgs, i + 1, cum2, rle)->Ok_0;
        assert(out == seq![im2] + rest);
        assert(out[0] == im2);
        assert(payload_bytes(out, 0) == out[0].raw_data + payload_bytes(out, 1));
        lemma_payload_shift(im2, rest, 1);
        assert forall|k: int| 1 <= k < out.len() implies payload_bytes(out, k) == payload_bytes(
            rest,
            k - 1,
        ) by {
            lemma_payload_shift(im2, rest, k);
        }
        assert forall|k: int| 0 <= k < out.len() implies out[k].header->Some_0.data_offset == cum
            + payload_bytes(out, 0).len() - payload_bytes(out, k).len() by {
            if k == 0 {
                assert(payload_bytes(out, 0).len() == raw.len() + payload_bytes(rest, 0).len());
            } else {
                assert(out[k] == rest[k - 1]);
                assert(rest[k - 1].header->Some_0.data_offset == cum2 + payload_bytes(
                    rest,
                    0,
                ).len() - payload_bytes(rest, k - 1).len());
                assert(payload_bytes(out, 0).len() == raw.len() + payload_bytes(rest, 0).len());
                assert(payload_bytes(out, k).len() == payload_bytes(rest, k - 1).len());
            }
        }
    }
}

/// Offsets law of the write path: on any container whose images all carry
/// sub-headers and decompressed data (as the save pipeline produces), the
/// recompression pass yields sub-headers whose offsets start at zero and
/// are strictly cumulative and contiguous — `offset[k] + size[k] ==
/// offset[k+1]` — with each `data_size` the image's raw payload length
/// and the last image's `offset + size` equal to the total payload
/// length.
pub proof fn lemma_assembler_offsets_contiguous(m: FileModel)
    requires
        !StiFile::spec_is_16bit(m),
        spec_compress_images(m) is Ok,
        forall|j: int| 0 <= j < m.images.len() ==> m.images[j].decompressed_data is Some,
        forall|j: int| 0 <= j < m.images.len() ==> m.images[j].header is Some,
    ensures
        ({
            let out = spec_compress_images(m)->Ok_0.images;
            &&& out.len() == m.images.len()
            &&& forall|k: int| 0 <= k < out.len() ==> out[k].header is Some
            &&& forall|k: int|
                0 <= k < out.len() ==> out[k].header->Some_0.data_size == out[k].raw_data.len()
            &&& (out.len() > 0 ==> out[0].header->Some_0.data_offset == 0)
            &&& forall|k: int|
                0 <= k < out.len() - 1 ==> out[k].header->Some_0.data_offset
                    + out[k].header->Some_0.data_size == out[k + 1].header->Some_0.data_offset
            &&& (out.len() > 0 ==> out[out.len() - 1].header->Some_0.data_offset + out[out.len()
                - 1].header->Some_0.data_size == payload_bytes(out, 0).len())
        }),
{
    let rle = m.header.flags.etrle_compressed && StiFile::spec_is_8bit(m);
    lemma_compress_from_offsets(m.images, 0, 0, rle);
    let out = spec_compress_images(m)->Ok_0.images;
    assert(out == spec_compress_from(m.images, 0, 0, rle)->Ok_0);
    assert forall|k: int| 0 <= k < out.len() - 1 implies out[k].header->Some_0.data_offset
        + out[k].header->Some_0.data_size == out[k + 1].header->Some_0.data_offset by {
        assert(payload_bytes(out, k) == out[k].raw_data + payload_bytes(out, k + 1));
    }
    if out.len() > 0 {
        assert(payload_bytes(out, out.len() - 1) == out[out.len() - 1].raw_data + payload_bytes(
            out,
            out.len() as int,
        ));
        assert(payload_bytes(out, out.len() as int) == Seq::<u8>::empty());
    }
}

/// Field-by-field account of the write path's per-image pass when every
/// image carries decompressed data: dimensions, sub-header placement
/// hints and decompressed pixels pass through; the raw payload becomes
/// the pixels' compression (or a copy), with matching pixel counts when
/// compressing.
proof fn lemma_compress_from_fields(imgs: Seq<ImageModel>, i: int, cum: int, rle: bool)
    requires
        0 <= i <= imgs.len(),
        spec_compress_from(imgs, i, cum, rle) is Ok,
        forall|j: int| 0 <= j < imgs.len() ==> imgs[j].decompressed_data is Some,
    ensures
        ({
            let out = spec_compress_from(imgs, i, cum, rle)->Ok_0;
            &&& out.len() == imgs.len() - i
            &&& forall|k: int|
                0 <= k < out.len() ==> out[k].width == imgs[i + k].width && out[k].height
                    == imgs[i + k].height
            &&& forall|k: int|
                0 <= k < out.len() ==> out[k].decompressed_data == imgs[i
                    + k].decompressed_data
            &&& forall|k: int|
                0 <= k < out.len() ==> out[k].raw_data == (if rle {
                    spec_compress(
                        imgs[i + k].decompressed_data->Some_0,
                        imgs[i + k].width as nat,
                        imgs[i + k].height as nat,
                    )
                } else {
                    imgs[i + k].decompressed_data->Some_0
                })
            &&& forall|k: int|
                0 <= k < out.len() ==> (imgs[i + k].header is Some <==> out[k].header is Some)
            &&& forall|k: int|
                0 <= k < out.len() && imgs[i + k].header is Some
                    ==> out[k].header->Some_0.width == imgs[i + k].header->Some_0.width
                    && out[k].header->Some_0.height == imgs[i + k].header->Some_0.height
                    && out[k].header->Some_0.offset_x == imgs[i + k].header->Some_0.offset_x
                    && out[k].header->Some_0.offset_y == imgs[i + k].header->Some_0.offset_y
            &&& (rle ==> forall|j: int|
                i <= j < imgs.len() ==> imgs[j].decompressed_data->Some_0.len() == imgs[j].width
                    * imgs[j].height)
        }),
    decreases imgs.len() - i,
{
    if i < imgs.len() {
        let im = imgs[i];
        let dec = im.decompressed_data->Some_0;
        let raw = if rle {
            spec_compress(dec, im.width as nat, im.height as nat)
        } else {
            dec
        };
        lemma_compress_from_fields(imgs, i + 1, cum + raw.len(), rle);
        let rest = spec_compress_from(imgs, i + 1, cum + raw.len(), rle)->Ok_0;
        let out = spec_compress_from(imgs, i, cum, rle)->Ok_0;
        assert(out.len() == 1 + rest.len());
        assert forall|k: int| 1 <= k < out.len() implies out[k] == rest[k - 1] by {}
    }
}

/// Total raw payload length of `imgs[i..]`.
pub open spec fn sum_raw(imgs: Seq<ImageModel>, i: int) -> int
    decreases imgs.len() - i,
{
    if i >= imgs.len() {
        0
    } else {
        imgs[i].raw_data.len() + sum_raw(imgs, i + 1)
    }
}

/// Total decompressed payload length of `imgs[i..]`; images without
/// decompressed data count nothing.
pub open spec fn sum_dec(imgs: Seq<ImageModel>, i: int) -> int
    decreases imgs.len() - i,
{
    if i >= imgs.len() {
        0
    } else {
        (match imgs[i].decompressed_data {
            Some(d) => d.len(),
            None => 0,
        }) + sum_dec(imgs, i + 1)
    }
}

proof fn lemma_sum_raw_nonneg(imgs: Seq<ImageModel>, i: int)
    ensures
        sum_raw(imgs, i) >= 0,
    decreases imgs.len() - i,
{
    if i < imgs.len() {
        lemma_sum_raw_nonneg(imgs, i + 1);
    }
}

proof fn lemma_sum_dec_nonneg(imgs: Seq<ImageModel>, i: int)
    ensures
        sum_dec(imgs, i) >= 0,
    decreases imgs.len() - i,
{
    if i < imgs.len() {
        lemma_sum_dec_nonneg(imgs, i + 1);
    }
}

/// What recomputing the header's sizes returns: for 8-bit files the sums
/// of the raw and decompressed payload lengths, for 16-bit files the
/// first image's raw length for both; a format error when a sum leaves
/// the 32-bit fields.
pub open spec fn spec_update_sizes(m: FileModel) -> Result<FileModel, StiErrorKind> {
    if StiFile::spec_is_8bit(m) {
        if sum_raw(m.images, 0) > 0xFFFF_FFFF || sum_dec(m.images, 0) > 0xFFFF_FFFF {
            Err(StiErrorKind::InvalidFormat)
        } else {
            Ok(
                FileModel {
                    header: HeaderModel {
                        compressed_size: sum_raw(m.images, 0) as u32,
                        original_size: sum_dec(m.images, 0) as u32,
                        ..m.header
                    },
                    ..m
                },
            )
        }
    } else if StiFile::spec_is_16bit(m) {
        if m.images.len() == 0 {
            Ok(m)
        } else if m.images[0].raw_data.len() > 0xFFFF_FFFF {
            Err(StiErrorKind::InvalidFormat)
        } else {
            Ok(
                FileModel {
                    header: HeaderModel {
                        compressed_size: m.images[0].raw_data.len() as u32,
                        original_size: m.images[0].raw_data.len() as u32,
                        ..m.header
                    },
                    ..m
                },
            )
        }
    } else {
        Ok(m)
    }
}

/// Recomputes the header's `original_size` and `compressed_size` from the
/// images' payloads. On error the container is left unchanged.
pub fn update_sti_header_sizes(sti_file: &mut StiFile) -> (r: StiResult<()>)
    ensures
        match r {
            Ok(()) => spec_update_sizes(old(sti_file)@) == Ok::<FileModel, StiErrorKind>(
                final(sti_file)@,
            ),
            Err(e) => spec_update_sizes(old(sti_file)@) == Err::<FileModel, StiErrorKind>(e.kind())
                && final(sti_file)@ == old(sti_file)@,
        },
{
    let ghost m = old(sti_file)@;
    if sti_file.is_8bit() {
        let mut total_compressed: u64 = 0;
        let mut total_original: u64 = 0;
        let mut i: usize = 0;
        while i < sti_file.images.len()
            invariant
                i <= sti_file.images.len(),
                m == sti_file@,
                m == old(sti_file)@,
                StiFile::spec_is_8bit(m),
                total_compressed <= 0xFFFF_FFFF,
                total_original <= 0xFFFF_FFFF,
                sum_raw(m.images, 0) == total_compressed + sum_raw(m.images, i as int),
                sum_dec(m.images, 0) == total_original + sum_dec(m.images, i as int),
            decreases sti_file.images.len() - i,
        {
            let image = &sti_file.images[i];
            let raw_len = image.raw_data.len();
            if raw_len as u64 > 0xFFFF_FFFFu64 - total_compressed {
                proof {
                    lemma_sum_raw_nonneg(m.images, i as int + 1);
                    lemma_sum_dec_nonneg(m.images, 0);
                }
                return Err(
                    StiError::InvalidFormat(
                        "total payload size leaves the 32-bit header fields".to_string(),
                    ),
                );
            }
            total_compressed = total_compressed + raw_len as u64;
            match &image.decompressed_data {
                Some(dec) => {
                    let dec_len = dec.len();
                    if dec_len as u64 > 0xFFFF_FFFFu64 - total_original {
                        proof {
                            lemma_sum_raw_nonneg(m.images, 0);
                            lemma_sum_dec_nonneg(m.images, i as int + 1);
                        }
                        return Err(
                            StiError::InvalidFormat(
                                "total pixel size leaves the 32-bit header fields".to_string(),
                            ),
                        );
                    }
                    total_original = total_original + dec_len as u64;
                },
                None => {},
            }
            i = i + 1;
        }
        sti_file.header.compressed_size = total_compressed as u32;
        sti_file.header.original_size = total_original as u32;
        proof {
            let m2 = spec_update_sizes(m)->Ok_0;
            assert(sti_file@ == m2);
        }
        Ok(())
    } else if sti_file.is_16bit() {
        if sti_file.images.len() == 0 {
            return Ok(());
        }
        let data_size = sti_file.images[0].raw_data.len();
        if data_size as u64 > 0xFFFF_FFFFu64 {
            return Err(
                StiError::InvalidFormat(
                    "payload size leaves the 32-bit header fields".to_string(),
                ),
            );
        }
        sti_file.header.compressed_size = data_size as u32;
        sti_file.header.original_size = data_size as u32;
        proof {
            let m2 = spec_update_sizes(m)->Ok_0;
            assert(sti_file@ == m2);
        }
        Ok(())
    } else {
        Ok(())
    }
}

/// What the whole save pipeline returns for an editable snapshot: the
/// on-disk bytes of the reconstructed, recompressed container with its
/// header sizes and sub-header offsets recomputed.
pub open spec fn spec_save(e: EditableModel) -> Result<Seq<u8>, StiErrorKind> {
    match spec_from_editable(e) {
        Err(k) => Err(k),
        Ok(m) => match spec_compress_images(m) {
            Err(k) => Err(k),
            Ok(m2) => match spec_update_sizes(m2) {
                Err(k) => Err(k),
                Ok(m3) => spec_write(m3),
            },
        },
    }
}

/// Round-trip law of the save pipeline, indexed case: whenever saving an
/// 8-bit snapshot succeeds, parsing the saved bytes succeeds and gives
/// back every image's pixels, dimensions, and the padded palette.
pub proof fn lemma_save_parses_back_8bit(e: EditableModel)
    requires
        e.is_8bit,
        spec_save(e) is Ok,
    ensures
        crate::parser::spec_parse(spec_save(e)->Ok_0) is Ok,
        ({
            let f = crate::parser::spec_parse(spec_save(e)->Ok_0)->Ok_0;
            &&& f.images.len() == e.images.len()
            &&& forall|i: int|
                0 <= i < e.images.len() ==> f.images[i].decompressed_data == Some(
                    e.images[i].data,
                )
            &&& forall|i: int|
                0 <= i < e.images.len() ==> f.images[i].width == e.images[i].width
                    && f.images[i].height == e.images[i].height
            &&& f.palette == Some(spec_pad_palette(e.palette->Some_0))
        }),
{
    let m1 = spec_from_editable(e)->Ok_0;
    let m2 = spec_compress_images(m1)->Ok_0;
    let m3 = spec_update_sizes(m2)->Ok_0;
    assert(StiFile::spec_is_8bit(m1) && m1.header.flags.etrle_compressed);
    assert(forall|j: int| 0 <= j < m1.images.len() ==> m1.images[j].decompressed_data is Some);
    assert(forall|j: int| 0 <= j < m1.images.len() ==> m1.images[j].header is Some);
    lemma_compress_from_fields(m1.images, 0, 0, true);
    lemma_compress_from_offsets(m1.images, 0, 0, true);
    let out = spec_compress_from(m1.images, 0, 0, true)->Ok_0;
    assert(m2.images == out);
    assert(m3.images == m2.images);
    assert(m3.header.flags == m1.header.flags && m3.header.signature == m1.header.signature
        && m3.header.num_images == m1.header.num_images && m3.header.app_data_size
        == m1.header.app_data_size);
    assert forall|j: int| #![trigger out[j]]
        0 <= j < out.len() implies (match crate::etrle::spec_decompress(
        out[j].raw_data,
        out[j].width as nat,
        out[j].height as nat,
    ) {
        Some(s) => out[j].decompressed_data == Some(s),
        None => false,
    }) by {
        let dec = m1.images[j].decompressed_data->Some_0;
        let w = m1.images[j].width;
        let h = m1.images[j].height;
        crate::etrle::lemma_etrle_round_trip(dec, w as nat, h as nat);
    }
    assert(crate::parser::spec_writable_indexed(m3));
    crate::parser::lemma_write_parse_round_trip_indexed(m3);
    let f = crate::parser::spec_parse(spec_save(e)->Ok_0)->Ok_0;
    assert(f.images == m3.images);
    assert forall|i: int| 0 <= i < e.images.len() implies f.images[i].decompressed_data == Some(
        e.images[i].data,
    ) && f.images[i].width == e.images[i].width && f.images[i].height == e.images[i].height by {
        assert(m1.images[i].decompressed_data == Some(e.images[i].data));
        assert(m1.images[i].width == e.images[i].width);
    }
}

/// Round-trip law of the save pipeline, 16-bit case: whenever saving a
/// 16-bit snapshot of one image whose byte count matches its dimensions
/// succeeds, parsing the saved bytes gives the pixels back.
pub proof fn lemma_save_parses_back_16bit(e: EditableModel)
    requires
        !e.is_8bit,
        e.is_16bit,
        e.images.len() == 1,
        e.images[0].data.len() == 2 * (e.images[0].width as int) * (e.images[0].height as int),
        spec_save(e) is Ok,
    ensures
        crate::parser::spec_parse(spec_save(e)->Ok_0) is Ok,
        ({
            let f = crate::parser::spec_parse(spec_save(e)->Ok_0)->Ok_0;
            &&& f.images.len() == 1
            &&& f.images[0].decompressed_data == Some(e.images[0].data)
            &&& f.images[0].width == e.images[0].width
            &&& f.images[0].height == e.images[0].height
            &&& f.palette is None
        }),
{
    let m1 = spec_from_editable(e)->Ok_0;
    let m2 = spec_compress_images(m1)->Ok_0;
    let m3 = spec_update_sizes(m2)->Ok_0;
    assert(StiFile::spec_is_16bit(m1));
    assert(m2.images.len() == 1);
    assert(m2.images[0] == (ImageModel { raw_data: e.images[0].data, ..m1.images[0] }));
    assert(m3.images == m2.images);
    assert(crate::parser::spec_writable_16bit(m3));
    crate::parser::lemma_write_parse_round_trip_16bit(m3);
}

/// Runs the save pipeline on an editable snapshot: reconstructs the
/// container, recompresses every image, recomputes header sizes and
/// sub-header offsets, and encodes the exact on-disk bytes.
pub fn save_editable_to_bytes(editable: &EditableStiFile) -> (r: StiResult<Vec<u8>>)
    ensures
        match r {
            Ok(v) => spec_save(editable@) == Ok::<Seq<u8>, StiErrorKind>(v@),
            Err(e) => spec_save(editable@) == Err::<Seq<u8>, StiErrorKind>(e.kind()),
        },
{
    let mut sti_file = match convert_editable_to_sti_file(editable) {
        Ok(f) => f,
        Err(e) => {
            return Err(e);
        },
    };
    match compress_sti_images(&mut sti_file) {
        Ok(()) => {},
        Err(e) => {
            return Err(e);
        },
    }
    match update_sti_header_sizes(&mut sti_file) {
        Ok(()) => {},
        Err(e) => {
            return Err(e);
        },
    }
    StiParser::write(&sti_file)
}

/// Whether an editable image's byte count matches its dimensions: one
/// byte per pixel (indexed) or two (16-bit).
pub open spec fn spec_valid_image_data(im: EditableImageModel) -> bool {
    im.data.len() == im.width * im.height || im.data.len() == (im.width * im.height) * 2
}

/// Checks that an editable image's byte count matches its dimensions.
pub fn validate_image_data(image_data: &EditableImage) -> (r: StiResult<()>)
    ensures
        r is Ok <==> spec_valid_image_data(image_data@),
        r matches Err(e) ==> e.kind() == StiErrorKind::InvalidFormat,
{
    proof {
        assert(image_data.width * image_data.height <= 0xFFFF * 0xFFFF) by (nonlinear_arith)
            requires
                image_data.width <= 0xFFFF,
                image_data.height <= 0xFFFF,
        ;
    }
    let pixels = (image_data.width as u64) * (image_data.height as u64);
    let len = image_data.data.len() as u64;
    if len == pixels || len == 2 * pixels {
        Ok(())
    } else {
        Err(StiError::InvalidFormat("Invalid image data size".to_string()))
    }
}

/// What inserting an image returns: the image (with a placeholder
/// sub-header for indexed files) inserted at the given position, clamped
/// to the end, and the image count updated. Fails with a format error
/// when the pixel bytes do not match the dimensions or the new count
/// leaves the header's 16-bit field.
pub open spec fn spec_add_image(
    m: FileModel,
    im: EditableImageModel,
    position: Option<usize>,
) -> Result<(FileModel, int), StiErrorKind> {
    if !spec_valid_image_data(im) {
        Err(StiErrorKind::InvalidFormat)
    } else if m.images.len() + 1 > 0xFFFF {
        Err(StiErrorKind::InvalidFormat)
    } else {
        let pos = match position {
            Some(p) => if p as int > m.images.len() {
                m.images.len() as int
            } else {
                p as int
            },
            None => m.images.len() as int,
        };
        let new_image = ImageModel {
            header: if m.header.flags.indexed && !m.header.flags.rgb {
                Some(
                    StiSubImageHeader {
                        data_offset: 0,
                        data_size: 0,
                        offset_x: 0,
                        offset_y: 0,
                        height: im.height,
                        width: im.width,
                    },
                )
            } else {
                None
            },
            raw_data: Seq::empty(),
            decompressed_data: Some(im.data),
            width: im.width,
            height: im.height,
        };
        Ok(
            (
                FileModel {
                    header: HeaderModel {
                        num_images: (m.images.len() + 1) as u16,
                        ..m.header
                    },
                    images: m.images.insert(pos, new_image),
                    ..m
                },
                pos,
            ),
        )
    }
}

/// Inserts a new image at the given position (clamped to the end; the end
/// when absent) and updates the image count. Returns the position used.
/// On error the container is left unchanged.
pub fn add_image(sti_file: &mut StiFile, image_data: EditableImage, position: Option<usize>) -> (r:
    StiResult<usize>)
    ensures
        match r {
            Ok(idx) => spec_add_image(old(sti_file)@, image_data@, position) == Ok::<
                (FileModel, int),
                StiErrorKind,
            >((final(sti_file)@, idx as int)),
            Err(e) => spec_add_image(old(sti_file)@, image_data@, position) == Err::<
                (FileModel, int),
                StiErrorKind,
            >(e.kind()) && final(sti_file)@ == old(sti_file)@,
        },
{
    let ghost m = old(sti_file)@;
    match validate_image_data(&image_data) {
        Ok(()) => {},
        Err(e) => {
            return Err(e);
        },
    }
    if sti_file.images.len() >= 0xFFFF {
        return Err(
            StiError::InvalidFormat("image count does not fit the 16-bit header field".to_string()),
        );
    }
    let new_image = if sti_file.is_8bit() {
        StiImage {
            header: Some(
                StiSubImageHeader {
                    data_offset: 0,
                    data_size: 0,
                    offset_x: 0,
                    offset_y: 0,
                    height: image_data.height,
                    width: image_data.width,
                },
            ),
            raw_data: Vec::new(),
            decompressed_data: Some(image_data.data),
            width: image_data.width,
            height: image_data.height,
        }
    } else {
        StiImage {
            header: None,
            raw_data: Vec::new(),
            decompressed_data: Some(image_data.data),
            width: image_data.width,
            height: image_data.height,
        }
    };
    let insert_pos = match position {
        Some(p) => if p > sti_file.images.len() {
            sti_file.images.len()
        } else {
            p
        },
        None => sti_file.images.len(),
    };
    sti_file.images.insert(insert_pos, new_image);
    let count = sti_file.images.len();
    sti_file.header.num_images = count as u16;
    proof {
        let (m2, pos) = spec_add_image(m, image_data@, position)->Ok_0;
        assert(sti_file@.images =~= m2.images);
        assert(sti_file@ == m2);
    }
    Ok(insert_pos)
}

/// The images kept after removing the listed indices, in their original
/// order, considered from position `j` on.
pub open spec fn spec_remove_kept(imgs: Seq<ImageModel>, idxs: Seq<usize>, j: int) -> Seq<
    ImageModel,
>
    decreases imgs.len() - j,
{
    if j >= imgs.len() {
        Seq::empty()
    } else if idxs.contains(j as usize) {
        spec_remove_kept(imgs, idxs, j + 1)
    } else {
        seq![imgs[j]] + spec_remove_kept(imgs, idxs, j + 1)
    }
}

/// What removing a set of image indices returns: the remaining images
/// re-numbered in order and the image count updated; a no-op for an empty
/// list. Fails with a format error on an out-of-range index, a duplicate
/// index, or an attempt to remove every image.
pub open spec fn spec_remove_images(m: FileModel, idxs: Seq<usize>) -> Result<
    FileModel,
    StiErrorKind,
> {
    if idxs.len() == 0 {
        Ok(m)
    } else if exists|k: int| 0 <= k < idxs.len() && idxs[k] as int >= m.images.len() {
        Err(StiErrorKind::InvalidFormat)
    } else if exists|k1: int, k2: int| 0 <= k1 < k2 < idxs.len() && idxs[k1] == idxs[k2] {
        Err(StiErrorKind::InvalidFormat)
    } else if idxs.len() >= m.images.len() {
        Err(StiErrorKind::InvalidFormat)
    } else {
        let kept = spec_remove_kept(m.images, idxs, 0);
        if kept.len() > 0xFFFF {
            Err(StiErrorKind::InvalidFormat)
        } else {
            Ok(
                FileModel {
                    header: HeaderModel { num_images: kept.len() as u16, ..m.header },
                    images: kept,
                    ..m
                },
            )
        }
    }
}

/// Whether `v` holds `x`, by linear scan.
fn contains_index(v: &Vec<usize>, x: usize) -> (r: bool)
    ensures
        r == v@.contains(x),
{
    let mut k: usize = 0;
    while k < v.len()
        invariant
            k <= v.len(),
            forall|j: int| 0 <= j < k ==> v@[j] != x,
        decreases v.len() - k,
    {
        if v[k] == x {
            return true;
        }
        k = k + 1;
    }
    proof {
        assert(!v@.contains(x));
    }
    false
}

/// Removes the images at the given indices, re-numbering the remaining
/// images and updating the image count; an empty list is a no-op.
/// Rejects out-of-range indices, duplicate indices and removing every
/// image, leaving the container unchanged.
pub fn remove_images(sti_file: &mut StiFile, indices: &Vec<usize>) -> (r: StiResult<()>)
    ensures
        match r {
            Ok(()) => spec_remove_images(old(sti_file)@, indices@) == Ok::<
                FileModel,
                StiErrorKind,
            >(final(sti_file)@),
            Err(e) => spec_remove_images(old(sti_file)@, indices@) == Err::<
                FileModel,
                StiErrorKind,
            >(e.kind()) && final(sti_file)@ == old(sti_file)@,
        },
{
    let ghost m = old(sti_file)@;
    if indices.len() == 0 {
        return Ok(());
    }
    // Out-of-range indices.
    let mut k: usize = 0;
    while k < indices.len()
        invariant
            k <= indices.len(),
            m == sti_file@,
            forall|j: int| 0 <= j < k ==> (indices@[j] as int) < m.images.len(),
        decreases indices.len() - k,
    {
        if indices[k] >= sti_file.images.len() {
            return Err(StiError::InvalidFormat("Invalid index for removal".to_string()));
        }
        k = k + 1;
    }
    // Duplicate indices.
    let mut k1: usize = 0;
    while k1 < indices.len()
        invariant
            k1 <= indices.len(),
            m == sti_file@,
            forall|a: int, b: int| 0 <= a < b < indices@.len() && a < k1 ==> indices@[a]
                != indices@[b],
        decreases indices.len() - k1,
    {
        let mut k2: usize = k1 + 1;
        while k2 < indices.len()
            invariant
                k1 < k2 <= indices.len(),
                m == sti_file@,
                forall|b: int| k1 < b < k2 ==> indices@[k1 as int] != indices@[b],
            decreases indices.len() - k2,
        {
            if indices[k1] == indices[k2] {
                return Err(StiError::InvalidFormat("Duplicate index in removal list".to_string()));
            }
            k2 = k2 + 1;
        }
        k1 = k1 + 1;
    }
    // Never remove every image.
    if indices.len() >= sti_file.images.len() {
        return Err(StiError::InvalidFormat("Cannot remove all images from STI file".to_string()));
    }
    // Keep the images whose index is not listed, in order.
    let mut kept: Vec<StiImage> = Vec::new();
    let mut j: usize = 0;
    proof {
        assert(Seq::<ImageModel>::empty() + spec_remove_kept(m.images, indices@, 0)
            =~= spec_remove_kept(m.images, indices@, 0));
        assert(kept@.map_values(|im: StiImage| im@) =~= Seq::<ImageModel>::empty());
    }
    while j < sti_file.images.len()
        invariant
            j <= sti_file.images.len(),
            m == sti_file@,
            m == old(sti_file)@,
            spec_remove_kept(m.images, indices@, 0) == kept@.map_values(|im: StiImage| im@)
                + spec_remove_kept(m.images, indices@, j as int),
        decreases sti_file.images.len() - j,
    {
        let ghost pre = kept@.map_values(|im: StiImage| im@);
        if !contains_index(indices, j) {
            kept.push(sti_file.images[j].clone());
            proof {
                assert(kept@.map_values(|im: StiImage| im@) =~= pre + seq![m.images[j as int]]);
                assert((pre + seq![m.images[j as int]]) + spec_remove_kept(
                    m.images,
                    indices@,
                    j + 1,
                ) =~= pre + (seq![m.images[j as int]] + spec_remove_kept(
                    m.images,
                    indices@,
                    j + 1,
                )));
            }
        }
        j = j + 1;
    }
    proof {
        assert(kept@.map_values(|im: StiImage| im@) + Seq::<ImageModel>::empty() =~= kept@
            .map_values(|im: StiImage| im@));
    }
    if kept.len() > 0xFFFF {
        return Err(
            StiError::InvalidFormat("image count does not fit the 16-bit header field".to_string()),
        );
    }
    let count = kept.len();
    sti_file.images = kept;
    sti_file.header.num_images = count as u16;
    proof {
        let m2 = spec_remove_images(m, indices@)->Ok_0;
        assert(sti_file@ == m2);
    }
    Ok(())
}

/// What reordering the images returns: image `k` becomes the old image
/// `order[k]`. Fails with a format error when the list's length differs
/// from the image count, an index is out of range, or an index repeats.
pub open spec fn spec_reorder_images(m: FileModel, order: Seq<usize>) -> Result<
    FileModel,
    StiErrorKind,
> {
    if order.len() != m.images.len() {
        Err(StiErrorKind::InvalidFormat)
    } else if exists|k: int| 0 <= k < order.len() && order[k] as int >= m.images.len() {
        Err(StiErrorKind::InvalidFormat)
    } else if exists|k1: int, k2: int| 0 <= k1 < k2 < order.len() && order[k1] == order[k2] {
        Err(StiErrorKind::InvalidFormat)
    } else {
        Ok(
            FileModel {
                images: Seq::new(order.len(), |k: int| m.images[order[k] as int]),
                ..m
            },
        )
    }
}

/// Reorders the images so that position `k` holds the old image
/// `new_order[k]`. Rejects a list of the wrong length, out-of-range
/// indices and duplicates, leaving the container unchanged.
pub fn reorder_images(sti_file: &mut StiFile, new_order: &Vec<usize>) -> (r: StiResult<()>)
    ensures
        match r {
            Ok(()) => spec_reorder_images(old(sti_file)@, new_order@) == Ok::<
                FileModel,
                StiErrorKind,
            >(final(sti_file)@),
            Err(e) => spec_reorder_images(old(sti_file)@, new_order@) == Err::<
                FileModel,
                StiErrorKind,
            >(e.kind()) && final(sti_file)@ == old(sti_file)@,
        },
{
    let ghost m = old(sti_file)@;
    if new_order.len() != sti_file.images.len() {
        return Err(
            StiError::InvalidFormat("New order length doesn't match image count".to_string()),
        );
    }
    let mut k: usize = 0;
    while k < new_order.len()
        invariant
            k <= new_order.len(),
            m == sti_file@,
            new_order@.len() == m.images.len(),
            forall|j: int| 0 <= j < k ==> (new_order@[j] as int) < m.images.len(),
        decreases new_order.len() - k,
    {
        if new_order[k] >= sti_file.images.len() {
            return Err(StiError::InvalidFormat("Invalid index in new order".to_string()));
        }
        k = k + 1;
    }
    let mut k1: usize = 0;
    while k1 < new_order.len()
        invariant
            k1 <= new_order.len(),
            m == sti_file@,
            new_order@.len() == m.images.len(),
            forall|a: int, b: int| 0 <= a < b < new_order@.len() && a < k1 ==> new_order@[a]
                != new_order@[b],
        decreases new_order.len() - k1,
    {
        let mut k2: usize = k1 + 1;
        while k2 < new_order.len()
            invariant
                k1 < k2 <= new_order.len(),
                m == sti_file@,
                new_order@.len() == m.images.len(),
                forall|b: int| k1 < b < k2 ==> new_order@[k1 as int] != new_order@[b],
            decreases new_order.len() - k2,
        {
            if new_order[k1] == new_order[k2] {
                return Err(StiError::InvalidFormat("Duplicate index in new order".to_string()));
            }
            k2 = k2 + 1;
        }
        k1 = k1 + 1;
    }
    let mut reordered: Vec<StiImage> = Vec::new();
    let mut k: usize = 0;
    while k < new_order.len()
        invariant
            k <= new_order.len(),
            m == sti_file@,
            m == old(sti_file)@,
            new_order@.len() == m.images.len(),
            forall|j: int| 0 <= j < new_order@.len() ==> (new_order@[j] as int) < m.images.len(),
            reordered@.len() == k,
            forall|j: int| 0 <= j < k ==> reordered@[j]@ == m.images[new_order@[j] as int],
        decreases new_order.len() - k,
    {
        reordered.push(sti_file.images[new_order[k]].clone());
        k = k + 1;
    }
    sti_file.images = reordered;
    proof {
        let m2 = spec_reorder_images(m, new_order@)->Ok_0;
        assert(sti_file@.images =~= m2.images);
        assert(sti_file@ == m2);
    }
    Ok(())
}

} // verus!
