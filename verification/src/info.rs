//! Query surface over a parsed container: summary information, per-image
//! pixel extraction, and conversion of an image to a 24-bit RGB buffer
//! for export.

use vstd::prelude::*;

use crate::types::{
    copy_bytes, copy_palette, FileModel, StiError, StiErrorKind, StiFile, StiResult,
};

verus! {

/// Summary information about a container, as shown to a caller opening a
/// file. `file_size` is filled in by the caller that read the file.
#[derive(Debug, Clone, Copy, PartialEq, Eq, Structural)]
pub struct StiFileInfo {
    pub width: u16,
    pub height: u16,
    pub num_images: u16,
    pub is_16bit: bool,
    pub is_8bit: bool,
    pub is_animated: bool,
    pub is_compressed: bool,
    pub file_size: u64,
}

/// The summary of a container model: 16-bit files report the header's
/// dimensions, indexed files the first image's; `file_size` starts at
/// zero.
pub open spec fn spec_file_info(m: FileModel) -> StiFileInfo {
    StiFileInfo {
        width: if StiFile::spec_is_16bit(m) {
            m.header.width
        } else if m.images.len() > 0 {
            m.images[0].width
        } else {
            0
        },
        height: if StiFile::spec_is_16bit(m) {
            m.header.height
        } else if m.images.len() > 0 {
            m.images[0].height
        } else {
            0
        },
        num_images: m.header.num_images,
        is_16bit: StiFile::spec_is_16bit(m),
        is_8bit: StiFile::spec_is_8bit(m),
        is_animated: m.header.num_images > 1,
        is_compressed: m.header.flags.etrle_compressed || m.header.flags.zlib_compressed,
        file_size: 0,
    }
}

impl StiFileInfo {
    /// The summary of a container, with `file_size` left at zero for the
    /// caller to fill.
    pub fn from_file(sti_file: &StiFile) -> (r: Self)
        ensures
            r == spec_file_info(sti_file@),
    {
        let (width, height) = if sti_file.is_16bit() {
            (sti_file.header.width, sti_file.header.height)
        } else if sti_file.images.len() > 0 {
            (sti_file.images[0].width, sti_file.images[0].height)
        } else {
            (0u16, 0u16)
        };
        StiFileInfo {
            width,
            height,
            num_images: sti_file.header.num_images,
            is_16bit: sti_file.is_16bit(),
            is_8bit: sti_file.is_8bit(),
            is_animated: sti_file.is_animated(),
            is_compressed: sti_file.is_compressed(),
            file_size: 0,
        }
    }
}

/// One image's decompressed pixels together with the file's palette, as
/// handed to a caller displaying the image.
#[derive(Debug)]
pub struct StiImageData {
    pub width: u16,
    pub height: u16,
    /// Decompressed pixel bytes: palette indices or packed RGB565 pairs.
    pub data: Vec<u8>,
    /// The file's palette, for indexed files.
    pub palette: Option<Vec<[u8; 3]>>,
}

/// Extracts one image's decompressed pixels and the file's palette.
/// Fails with a format error exactly when the index is out of bounds or
/// the image holds no decompressed data.
pub fn get_image_data(sti_file: &StiFile, image_index: usize) -> (r: StiResult<StiImageData>)
    ensures
        match r {
            Ok(d) => {
                &&& (image_index as int) < sti_file@.images.len()
                &&& sti_file@.images[image_index as int].decompressed_data is Some
                &&& d.width == sti_file@.images[image_index as int].width
                &&& d.height == sti_file@.images[image_index as int].height
                &&& d.data@ == sti_file@.images[image_index as int].decompressed_data->Some_0
                &&& (match d.palette {
                    Some(p) => sti_file@.palette == Some(crate::types::spec_palette_bytes(p@)),
                    None => sti_file@.palette is None,
                })
            },
            Err(e) => e.kind() == StiErrorKind::InvalidFormat && ((image_index as int)
                >= sti_file@.images.len() || sti_file@.images[image_index as int].decompressed_data
                is None),
        },
{
    if image_index >= sti_file.images.len() {
        return Err(StiError::InvalidFormat("Image index out of bounds".to_string()));
    }
    let image = &sti_file.images[image_index];
    let pixel_data = match &image.decompressed_data {
        Some(d) => copy_bytes(d),
        None => {
            return Err(StiError::InvalidFormat("Image data not decompressed".to_string()));
        },
    };
    let palette = match &sti_file.palette {
        Some(p) => Some(copy_palette(p)),
        None => None,
    };
    Ok(StiImageData { width: image.width, height: image.height, data: pixel_data, palette })
}

/// The 24-bit RGB expansion of one RGB565 pixel: each channel scaled to
/// its high bits.
pub open spec fn spec_rgb565_channel(v: u16, c: int) -> u8 {
    if c == 0 {
        (((v >> 11) & 0x1F) << 3) as u8
    } else if c == 1 {
        (((v >> 5) & 0x3F) << 2) as u8
    } else {
        ((v & 0x1F) << 3) as u8
    }
}

/// The RGB565 value of pixel `i`: two little-endian bytes.
pub open spec fn spec_rgb565_at(pix: Seq<u8>, i: int) -> u16 {
    (pix[2 * i] as u16) | ((pix[2 * i + 1] as u16) << 8)
}

/// What converting image `idx` of a container to a 24-bit RGB buffer
/// returns. Indexed pixels go through the palette; 16-bit pixels are
/// unpacked from little-endian RGB565 pairs (a trailing odd byte is
/// dropped). Fails with a format error when the index is out of bounds,
/// the image has no decompressed data, or an indexed file has no complete
/// palette.
pub open spec fn spec_export_rgb(m: FileModel, idx: int) -> Result<Seq<u8>, StiErrorKind> {
    if idx >= m.images.len() {
        Err(StiErrorKind::InvalidFormat)
    } else {
        match m.images[idx].decompressed_data {
            None => Err(StiErrorKind::InvalidFormat),
            Some(pix) => {
                if m.header.flags.indexed && !m.header.flags.rgb {
                    match m.palette {
                        None => Err(StiErrorKind::InvalidFormat),
                        Some(pal) => {
                            if pal.len() != 768 {
                                Err(StiErrorKind::InvalidFormat)
                            } else {
                                Ok(
                                    Seq::new(
                                        (pix.len() * 3) as nat,
                                        |i: int| pal[3 * (pix[i / 3] as int) + i % 3],
                                    ),
                                )
                            }
                        },
                    }
                } else {
                    Ok(
                        Seq::new(
                            ((pix.len() / 2) * 3) as nat,
                            |i: int| spec_rgb565_channel(spec_rgb565_at(pix, i / 3), i % 3),
                        ),
                    )
                }
            },
        }
    }
}

/// Converts one image to a 24-bit RGB buffer for export: palette lookup
/// for indexed files, RGB565 unpacking for 16-bit files.
pub fn export_rgb(sti_file: &StiFile, image_index: usize) -> (r: StiResult<Vec<u8>>)
    ensures
        match r {
            Ok(v) => spec_export_rgb(sti_file@, image_index as int) == Ok::<Seq<u8>, StiErrorKind>(
                v@,
            ),
            Err(e) => spec_export_rgb(sti_file@, image_index as int) == Err::<
                Seq<u8>,
                StiErrorKind,
            >(e.kind()),
        },
{
    let ghost m = sti_file@;
    if image_index >= sti_file.images.len() {
        return Err(StiError::InvalidFormat("Image index out of bounds".to_string()));
    }
    let image = &sti_file.images[image_index];
    let pixel_data = match &image.decompressed_data {
        Some(d) => d,
        None => {
            return Err(StiError::InvalidFormat("Image data not decompressed".to_string()));
        },
    };
    let ghost pix = pixel_data@;
    if sti_file.is_8bit() {
        let palette = match &sti_file.palette {
            Some(p) => p,
            None => {
                return Err(StiError::InvalidFormat("8-bit image missing palette".to_string()));
            },
        };
        if palette.len() != 256 {
            return Err(
                StiError::InvalidFormat("8-bit STI palette must hold 256 colours".to_string()),
            );
        }
        let mut rgb: Vec<u8> = Vec::new();
        let mut p: usize = 0;
        while p < pixel_data.len()
            invariant
                p <= pixel_data.len(),
                m == sti_file@,
                pix == pixel_data@,
                palette@.len() == 256,
                m.palette == Some(crate::types::spec_palette_bytes(palette@)),
                rgb@.len() == 3 * p,
                forall|i: int, c: int|
                    0 <= i < p && 0 <= c < 3 ==> rgb@[3 * i + c] == palette@[pix[i] as int]@[c],
            decreases pixel_data.len() - p,
        {
            let color = palette[pixel_data[p] as usize];
            rgb.push(color[0]);
            rgb.push(color[1]);
            rgb.push(color[2]);
            p = p + 1;
        }
        proof {
            let e = spec_export_rgb(m, image_index as int)->Ok_0;
            assert forall|i: int| 0 <= i < 3 * pix.len() implies rgb@[i] == e[i] by {
                let j = i / 3;
                let c = i % 3;
                assert(i == 3 * j + c && 0 <= j < pix.len() && 0 <= c < 3) by (nonlinear_arith)
                    requires
                        0 <= i < 3 * pix.len(),
                        j == i / 3,
                        c == i % 3,
                ;
                assert(rgb@[3 * j + c] == palette@[pix[j] as int]@[c]);
                assert(e[i] == crate::types::spec_palette_bytes(palette@)[3 * (pix[j] as int) + c]);
                assert(crate::types::spec_palette_bytes(palette@)[3 * (pix[j] as int) + c]
                    == palette@[pix[j] as int]@[c]) by {
                    assert((3 * (pix[j] as int) + c) / 3 == pix[j] as int && (3 * (pix[j] as int)
                        + c) % 3 == c) by (nonlinear_arith)
                        requires
                            0 <= c < 3,
                            0 <= pix[j] as int,
                    ;
                }
            }
            assert(rgb@ =~= e);
        }
        Ok(rgb)
    } else {
        // 16-bit: unpack little-endian RGB565 pairs to 24-bit RGB.
        let mut rgb: Vec<u8> = Vec::new();
        let npix = pixel_data.len() / 2;
        let mut p: usize = 0;
        while p < npix
            invariant
                p <= npix,
                npix == pixel_data.len() / 2,
                m == sti_file@,
                pix == pixel_data@,
                rgb@.len() == 3 * p,
                forall|i: int, c: int|
                    0 <= i < p && 0 <= c < 3 ==> rgb@[3 * i + c] == spec_rgb565_channel(
                        spec_rgb565_at(pix, i),
                        c,
                    ),
            decreases npix - p,
        {
            proof {
                assert(2 * p + 1 < pix.len()) by (nonlinear_arith)
                    requires
                        p < npix,
                        npix == pix.len() / 2,
                ;
            }
            let rgb565: u16 = (pixel_data[2 * p] as u16) | ((pixel_data[2 * p + 1] as u16) << 8);
            rgb.push((((rgb565 >> 11) & 0x1F) << 3) as u8);
            rgb.push((((rgb565 >> 5) & 0x3F) << 2) as u8);
            rgb.push(((rgb565 & 0x1F) << 3) as u8);
            p = p + 1;
        }
        proof {
            let e = spec_export_rgb(m, image_index as int)->Ok_0;
            assert forall|i: int| 0 <= i < 3 * (pix.len() / 2) implies rgb@[i] == e[i] by {
                let j = i / 3;
                let c = i % 3;
                assert(i == 3 * j + c && 0 <= j < pix.len() / 2 && 0 <= c < 3) by (nonlinear_arith)
                    requires
                        0 <= i < 3 * (pix.len() / 2),
                        j == i / 3,
                        c == i % 3,
                ;
                assert(rgb@[3 * j + c] == spec_rgb565_channel(spec_rgb565_at(pix, j), c));
            }
            assert(rgb@ =~= e);
        }
        Ok(rgb)
    }
}

} // verus!
