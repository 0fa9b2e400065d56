//! Data model of an STI container: errors, format flags, the 64-byte header,
//! per-image sub-headers, animation records, images and the whole file, each
//! with a mathematical view used by the codec's contracts.

use vstd::prelude::*;

verus! {

/// Error type of the codec.
#[derive(Debug)]
pub enum StiError {
    /// Structurally invalid input: bad signature, contradictory flags,
    /// missing palette, wrong-sized pixel payload.
    InvalidFormat(String),
    /// The input buffer ended before a read completed.
    Io(String),
    /// A run-length stream violated its row bounds.
    Decompression(String),
    /// Neither the 16-bit nor the 8-bit layout was recognized.
    UnsupportedFormat(String),
}

/// The kind of a [`StiError`], for contracts that pin which error is returned
/// without fixing the message text.
#[derive(Debug, Clone, Copy, PartialEq, Eq, Structural)]
pub enum StiErrorKind {
    InvalidFormat,
    Io,
    Decompression,
    UnsupportedFormat,
}

impl StiError {
    /// The kind of this error.
    pub open spec fn kind(&self) -> StiErrorKind {
        match self {
            StiError::InvalidFormat(_) => StiErrorKind::InvalidFormat,
            StiError::Io(_) => StiErrorKind::Io,
            StiError::Decompression(_) => StiErrorKind::Decompression,
            StiError::UnsupportedFormat(_) => StiErrorKind::UnsupportedFormat,
        }
    }
}

pub type StiResult<T> = Result<T, StiError>;

/// The six format flags decoded from one 32-bit little-endian field.
#[derive(Debug, Clone, Copy, PartialEq, Eq, Structural)]
pub struct StiFlags {
    /// bit 0
    pub transparent: bool,
    /// bit 1
    pub alpha: bool,
    /// bit 2: 16-bit RGB file
    pub rgb: bool,
    /// bit 3: 8-bit indexed file
    pub indexed: bool,
    /// bit 4
    pub zlib_compressed: bool,
    /// bit 5: run-length compressed payload
    pub etrle_compressed: bool,
}

/// The flags encoded by a 32-bit field: one flag per bit, low to high.
pub open spec fn spec_flags_from_bits(v: u32) -> StiFlags {
    StiFlags {
        transparent: v & 0x01 != 0,
        alpha: v & 0x02 != 0,
        rgb: v & 0x04 != 0,
        indexed: v & 0x08 != 0,
        zlib_compressed: v & 0x10 != 0,
        etrle_compressed: v & 0x20 != 0,
    }
}

/// The 32-bit field encoding a set of flags: the sum of the set bits.
pub open spec fn spec_flags_bits(f: StiFlags) -> u32 {
    ((if f.transparent { 0x01int } else { 0int }) + (if f.alpha { 0x02int } else { 0int })
        + (if f.rgb { 0x04int } else { 0int }) + (if f.indexed { 0x08int } else { 0int })
        + (if f.zlib_compressed { 0x10int } else { 0int }) + (if f.etrle_compressed {
        0x20int
    } else {
        0int
    })) as u32
}

impl StiFlags {
    /// Decodes the six flags from a 32-bit field.
    pub fn from_bits(v: u32) -> (r: StiFlags)
        ensures
            r == spec_flags_from_bits(v),
    {
        StiFlags {
            transparent: v & 0x01 != 0,
            alpha: v & 0x02 != 0,
            rgb: v & 0x04 != 0,
            indexed: v & 0x08 != 0,
            zlib_compressed: v & 0x10 != 0,
            etrle_compressed: v & 0x20 != 0,
        }
    }

    /// Encodes the six flags into a 32-bit field.
    pub fn bits(&self) -> (r: u32)
        ensures
            r == spec_flags_bits(*self),
    {
        let mut flags: u32 = 0;
        if self.transparent {
            flags = flags + 0x01;
        }
        if self.alpha {
            flags = flags + 0x02;
        }
        if self.rgb {
            flags = flags + 0x04;
        }
        if self.indexed {
            flags = flags + 0x08;
        }
        if self.zlib_compressed {
            flags = flags + 0x10;
        }
        if self.etrle_compressed {
            flags = flags + 0x20;
        }
        flags
    }
}

impl vstd::std_specs::convert::FromSpecImpl<u32> for StiFlags {
    open spec fn obeys_from_spec() -> bool {
        true
    }

    open spec fn from_spec(v: u32) -> StiFlags {
        spec_flags_from_bits(v)
    }
}

impl From<u32> for StiFlags {
    /// Decodes the six flags from a 32-bit field.
    fn from(v: u32) -> (r: StiFlags) {
        StiFlags::from_bits(v)
    }
}

/// Decoding the bits written for a set of flags gives the flags back.
pub proof fn lemma_flags_round_trip(f: StiFlags)
    ensures
        spec_flags_from_bits(spec_flags_bits(f)) == f,
{
    let t: u32 = if f.transparent { 1 } else { 0 };
    let a: u32 = if f.alpha { 1 } else { 0 };
    let r: u32 = if f.rgb { 1 } else { 0 };
    let i: u32 = if f.indexed { 1 } else { 0 };
    let z: u32 = if f.zlib_compressed { 1 } else { 0 };
    let e: u32 = if f.etrle_compressed { 1 } else { 0 };
    let v = spec_flags_bits(f);
    assert(v == t + 2 * a + 4 * r + 8 * i + 16 * z + 32 * e);
    assert((t + 2 * a + 4 * r + 8 * i + 16 * z + 32 * e) as u32 & 0x01 == t) by (bit_vector)
        requires
            t < 2 && a < 2 && r < 2 && i < 2 && z < 2 && e < 2,
    ;
    assert((t + 2 * a + 4 * r + 8 * i + 16 * z + 32 * e) as u32 & 0x02 == 2 * a) by (bit_vector)
        requires
            t < 2 && a < 2 && r < 2 && i < 2 && z < 2 && e < 2,
    ;
    assert((t + 2 * a + 4 * r + 8 * i + 16 * z + 32 * e) as u32 & 0x04 == 4 * r) by (bit_vector)
        requires
            t < 2 && a < 2 && r < 2 && i < 2 && z < 2 && e < 2,
    ;
    assert((t + 2 * a + 4 * r + 8 * i + 16 * z + 32 * e) as u32 & 0x08 == 8 * i) by (bit_vector)
        requires
            t < 2 && a < 2 && r < 2 && i < 2 && z < 2 && e < 2,
    ;
    assert((t + 2 * a + 4 * r + 8 * i + 16 * z + 32 * e) as u32 & 0x10 == 16 * z) by (bit_vector)
        requires
            t < 2 && a < 2 && r < 2 && i < 2 && z < 2 && e < 2,
    ;
    assert((t + 2 * a + 4 * r + 8 * i + 16 * z + 32 * e) as u32 & 0x20 == 32 * e) by (bit_vector)
        requires
            t < 2 && a < 2 && r < 2 && i < 2 && z < 2 && e < 2,
    ;
}

/// The four signature bytes of a valid container: the ASCII tag "STCI".
pub open spec fn spec_signature() -> Seq<u8> {
    seq![0x53u8, 0x54u8, 0x43u8, 0x49u8]
}

/// The 64-byte main header. Which conditional fields are meaningful is
/// determined by `flags`: the RGB variant uses `height`/`width` and the
/// colour masks and depths; the indexed variant uses `palette_colors`,
/// `num_images` and the first three depths. Fields outside the decoded
/// variant are zero after a decode.
#[derive(Debug, Clone, Copy)]
pub struct StiHeader {
    /// Must equal the tag "STCI".
    pub signature: [u8; 4],
    /// Decompressed payload size in bytes.
    pub original_size: u32,
    /// On-disk payload size in bytes.
    pub compressed_size: u32,
    /// Transparent palette index (8-bit files).
    pub transparent_color: u32,
    /// Format flags.
    pub flags: StiFlags,
    /// Image height (16-bit files only).
    pub height: u16,
    /// Image width (16-bit files only).
    pub width: u16,
    pub red_mask: u32,
    pub green_mask: u32,
    pub blue_mask: u32,
    pub alpha_mask: u32,
    pub red_depth: u8,
    pub green_depth: u8,
    pub blue_depth: u8,
    pub alpha_depth: u8,
    /// Number of palette colours (8-bit files, normally 256).
    pub palette_colors: u32,
    /// Number of images in the file (8-bit files).
    pub num_images: u16,
    /// Bits per pixel: 8 or 16.
    pub color_depth: u8,
    /// Byte length of the trailing animation block.
    pub app_data_size: u32,
}

/// Mathematical view of a [`StiHeader`]: the same fields with the signature
/// as a byte sequence.
pub ghost struct HeaderModel {
    pub signature: Seq<u8>,
    pub original_size: u32,
    pub compressed_size: u32,
    pub transparent_color: u32,
    pub flags: StiFlags,
    pub height: u16,
    pub width: u16,
    pub red_mask: u32,
    pub green_mask: u32,
    pub blue_mask: u32,
    pub alpha_mask: u32,
    pub red_depth: u8,
    pub green_depth: u8,
    pub blue_depth: u8,
    pub alpha_depth: u8,
    pub palette_colors: u32,
    pub num_images: u16,
    pub color_depth: u8,
    pub app_data_size: u32,
}

impl View for StiHeader {
    type V = HeaderModel;

    open spec fn view(&self) -> HeaderModel {
        HeaderModel {
            signature: self.signature@,
            original_size: self.original_size,
            compressed_size: self.compressed_size,
            transparent_color: self.transparent_color,
            flags: self.flags,
            height: self.height,
            width: self.width,
            red_mask: self.red_mask,
            green_mask: self.green_mask,
            blue_mask: self.blue_mask,
            alpha_mask: self.alpha_mask,
            red_depth: self.red_depth,
            green_depth: self.green_depth,
            blue_depth: self.blue_depth,
            alpha_depth: self.alpha_depth,
            palette_colors: self.palette_colors,
            num_images: self.num_images,
            color_depth: self.color_depth,
            app_data_size: self.app_data_size,
        }
    }
}

/// The header every container starts from: the "STCI" signature, no flags
/// set, and every numeric field zero.
pub open spec fn spec_header_default(h: HeaderModel) -> bool {
    &&& h.signature == spec_signature()
    &&& h.original_size == 0
    &&& h.compressed_size == 0
    &&& h.transparent_color == 0
    &&& h.flags == (StiFlags {
        transparent: false,
        alpha: false,
        rgb: false,
        indexed: false,
        zlib_compressed: false,
        etrle_compressed: false,
    })
    &&& h.height == 0
    &&& h.width == 0
    &&& h.red_mask == 0
    &&& h.green_mask == 0
    &&& h.blue_mask == 0
    &&& h.alpha_mask == 0
    &&& h.red_depth == 0
    &&& h.green_depth == 0
    &&& h.blue_depth == 0
    &&& h.alpha_depth == 0
    &&& h.palette_colors == 0
    &&& h.num_images == 0
    &&& h.color_depth == 0
    &&& h.app_data_size == 0
}

impl Default for StiHeader {
    /// A fresh header: "STCI" signature, all flags clear, all fields zero.
    fn default() -> (r: Self)
        ensures
            spec_header_default(r@),
    {
        let signature: [u8; 4] = [0x53u8, 0x54u8, 0x43u8, 0x49u8];
        proof {
            assert(signature@ =~= spec_signature());
        }
        StiHeader {
            signature,
            original_size: 0,
            compressed_size: 0,
            transparent_color: 0,
            flags: StiFlags {
                transparent: false,
                alpha: false,
                rgb: false,
                indexed: false,
                zlib_compressed: false,
                etrle_compressed: false,
            },
            height: 0,
            width: 0,
            red_mask: 0,
            green_mask: 0,
            blue_mask: 0,
            alpha_mask: 0,
            red_depth: 0,
            green_depth: 0,
            blue_depth: 0,
            alpha_depth: 0,
            palette_colors: 0,
            num_images: 0,
            color_depth: 0,
            app_data_size: 0,
        }
    }
}

/// The 16-byte per-image descriptor of indexed files.
#[derive(Debug, Clone, Copy, PartialEq, Eq, Structural)]
pub struct StiSubImageHeader {
    /// Cumulative byte offset of this image's payload from the start of the
    /// image-data section.
    pub data_offset: u32,
    /// Size of this image's payload in bytes.
    pub data_size: u32,
    /// Horizontal placement hint in pixels.
    pub offset_x: i16,
    /// Vertical placement hint in pixels.
    pub offset_y: i16,
    /// Image height in pixels.
    pub height: u16,
    /// Image width in pixels.
    pub width: u16,
}

/// A 16-byte animation record. All fields but `frame_count` are of unknown
/// purpose and pass through the codec verbatim.
#[derive(Debug, Clone, Copy)]
pub struct StiAnimationData {
    pub unknown1: [u8; 8],
    /// Number of frames in this direction (meaningful on the first frame).
    pub frame_count: u8,
    pub unknown2: u8,
    pub unknown3: [u8; 6],
}

/// Mathematical view of a [`StiAnimationData`]: the opaque regions as byte
/// sequences.
pub ghost struct AnimModel {
    pub unknown1: Seq<u8>,
    pub frame_count: u8,
    pub unknown2: u8,
    pub unknown3: Seq<u8>,
}

impl View for StiAnimationData {
    type V = AnimModel;

    open spec fn view(&self) -> AnimModel {
        AnimModel {
            unknown1: self.unknown1@,
            frame_count: self.frame_count,
            unknown2: self.unknown2,
            unknown3: self.unknown3@,
        }
    }
}

/// A 256-colour palette: RGB triplets.
pub type StiPalette = Vec<[u8; 3]>;

/// One image of a container.
#[derive(Debug)]
pub struct StiImage {
    /// The 16-byte descriptor; absent for the single 16-bit image.
    pub header: Option<StiSubImageHeader>,
    /// On-disk payload bytes, possibly run-length compressed.
    pub raw_data: Vec<u8>,
    /// Decompressed pixel bytes: one byte per pixel when indexed, two when
    /// 16-bit.
    pub decompressed_data: Option<Vec<u8>>,
    pub width: u16,
    pub height: u16,
}

/// Mathematical view of a [`StiImage`].
pub ghost struct ImageModel {
    pub header: Option<StiSubImageHeader>,
    pub raw_data: Seq<u8>,
    pub decompressed_data: Option<Seq<u8>>,
    pub width: u16,
    pub height: u16,
}

impl View for StiImage {
    type V = ImageModel;

    open spec fn view(&self) -> ImageModel {
        ImageModel {
            header: self.header,
            raw_data: self.raw_data@,
            decompressed_data: match self.decompressed_data {
                Some(d) => Some(d@),
                None => None,
            },
            width: self.width,
            height: self.height,
        }
    }
}

/// A complete container: header, optional palette, ordered images and
/// ordered animation records.
#[derive(Debug)]
pub struct StiFile {
    pub header: StiHeader,
    /// Present iff the file is indexed; 256 RGB triplets.
    pub palette: Option<StiPalette>,
    pub images: Vec<StiImage>,
    pub animation_data: Vec<StiAnimationData>,
}

/// Mathematical view of a [`StiFile`]. The palette is flattened to its
/// 768-byte on-disk image: triplet `i`, channel `j` at index `3 * i + j`.
pub ghost struct FileModel {
    pub header: HeaderModel,
    pub palette: Option<Seq<u8>>,
    pub images: Seq<ImageModel>,
    pub animation_data: Seq<AnimModel>,
}

/// The flattened byte sequence of a palette: triplet `i`, channel `j` at
/// index `3 * i + j`.
pub open spec fn spec_palette_bytes(p: Seq<[u8; 3]>) -> Seq<u8> {
    Seq::new((p.len() * 3) as nat, |i: int| p[i / 3]@[i % 3])
}

impl View for StiFile {
    type V = FileModel;

    open spec fn view(&self) -> FileModel {
        FileModel {
            header: self.header@,
            palette: match self.palette {
                Some(p) => Some(spec_palette_bytes(p@)),
                None => None,
            },
            images: self.images@.map_values(|img: StiImage| img@),
            animation_data: self.animation_data@.map_values(|a: StiAnimationData| a@),
        }
    }
}

impl StiImage {
    /// A fresh image of the given dimensions with no descriptor and no data.
    pub fn new(width: u16, height: u16) -> (r: Self)
        ensures
            r@.header is None,
            r@.raw_data == Seq::<u8>::empty(),
            r@.decompressed_data is None,
            r@.width == width,
            r@.height == height,
    {
        StiImage { header: None, raw_data: Vec::new(), decompressed_data: None, width, height }
    }

    /// A fresh image described by the given sub-header, taking its
    /// dimensions from it.
    pub fn with_header(header: StiSubImageHeader) -> (r: Self)
        ensures
            r@.header == Some(header),
            r@.raw_data == Seq::<u8>::empty(),
            r@.decompressed_data is None,
            r@.width == header.width,
            r@.height == header.height,
    {
        StiImage {
            width: header.width,
            height: header.height,
            header: Some(header),
            raw_data: Vec::new(),
            decompressed_data: None,
        }
    }
}

impl StiFile {
    /// An empty container with a default header, no palette, no images and
    /// no animation records.
    pub fn new() -> (r: Self)
        ensures
            spec_header_default(r@.header),
            r@.palette is None,
            r@.images == Seq::<ImageModel>::empty(),
            r@.animation_data == Seq::<AnimModel>::empty(),
    {
        let r = StiFile {
            header: StiHeader::default(),
            palette: None,
            images: Vec::new(),
            animation_data: Vec::new(),
        };
        proof {
            assert(r@.images =~= Seq::<ImageModel>::empty());
            assert(r@.animation_data =~= Seq::<AnimModel>::empty());
        }
        r
    }

    /// Whether the model describes a 16-bit RGB file.
    pub open spec fn spec_is_16bit(m: FileModel) -> bool {
        m.header.flags.rgb && !m.header.flags.indexed
    }

    /// Whether the model describes an 8-bit indexed file.
    pub open spec fn spec_is_8bit(m: FileModel) -> bool {
        m.header.flags.indexed && !m.header.flags.rgb
    }

    /// True iff the file is a 16-bit RGB file.
    pub fn is_16bit(&self) -> (r: bool)
        ensures
            r == Self::spec_is_16bit(self@),
    {
        self.header.flags.rgb && !self.header.flags.indexed
    }

    /// True iff the file is an 8-bit indexed file.
    pub fn is_8bit(&self) -> (r: bool)
        ensures
            r == Self::spec_is_8bit(self@),
    {
        self.header.flags.indexed && !self.header.flags.rgb
    }

    /// True iff the file holds more than one image.
    pub fn is_animated(&self) -> (r: bool)
        ensures
            r == (self@.header.num_images > 1),
    {
        self.header.num_images > 1
    }

    /// True iff a compression flag is set.
    pub fn is_compressed(&self) -> (r: bool)
        ensures
            r == (self@.header.flags.etrle_compressed || self@.header.flags.zlib_compressed),
    {
        self.header.flags.etrle_compressed || self.header.flags.zlib_compressed
    }
}

/// Copies a byte vector element by element.
pub(crate) fn copy_bytes(v: &Vec<u8>) -> (r: Vec<u8>)
    ensures
        r@ == v@,
{
    let mut r: Vec<u8> = Vec::new();
    let mut i: usize = 0;
    while i < v.len()
        invariant
            i <= v.len(),
            r@ == v@.subrange(0, i as int),
        decreases v.len() - i,
    {
        r.push(v[i]);
        i = i + 1;
        proof {
            assert(r@ =~= v@.subrange(0, i as int));
        }
    }
    proof {
        assert(r@ =~= v@);
    }
    r
}

/// Copies a palette element by element.
pub(crate) fn copy_palette(p: &StiPalette) -> (r: StiPalette)
    ensures
        r@ == p@,
{
    let mut r: StiPalette = Vec::new();
    let mut i: usize = 0;
    while i < p.len()
        invariant
            i <= p.len(),
            r@ == p@.subrange(0, i as int),
        decreases p.len() - i,
    {
        r.push(p[i]);
        i = i + 1;
        proof {
            assert(r@ =~= p@.subrange(0, i as int));
        }
    }
    proof {
        assert(r@ =~= p@);
    }
    r
}

impl Clone for StiImage {
    /// A deep copy with the same view.
    fn clone(&self) -> (r: Self)
        ensures
            r@ == self@,
    {
        StiImage {
            header: self.header,
            raw_data: copy_bytes(&self.raw_data),
            decompressed_data: match &self.decompressed_data {
                Some(d) => Some(copy_bytes(d)),
                None => None,
            },
            width: self.width,
            height: self.height,
        }
    }
}

impl Clone for StiFile {
    /// A deep copy with the same view.
    fn clone(&self) -> (r: Self)
        ensures
            r@ == self@,
    {
        let mut images: Vec<StiImage> = Vec::new();
        let mut i: usize = 0;
        while i < self.images.len()
            invariant
                i <= self.images.len(),
                images@.len() == i,
                forall|j: int| 0 <= j < i ==> images@[j]@ == self.images@[j]@,
            decreases self.images.len() - i,
        {
            images.push(self.images[i].clone());
            i = i + 1;
        }
        let mut animation_data: Vec<StiAnimationData> = Vec::new();
        let mut k: usize = 0;
        while k < self.animation_data.len()
            invariant
                k <= self.animation_data.len(),
                animation_data@ == self.animation_data@.subrange(0, k as int),
            decreases self.animation_data.len() - k,
        {
            animation_data.push(self.animation_data[k]);
            k = k + 1;
            proof {
                assert(animation_data@ =~= self.animation_data@.subrange(0, k as int));
            }
        }
        let r = StiFile {
            header: self.header,
            palette: match &self.palette {
                Some(p) => Some(copy_palette(p)),
                None => None,
            },
            images,
            animation_data: animation_data,
        };
        proof {
            assert(r.animation_data@ =~= self.animation_data@);
            assert(r@.images =~= self@.images);
        }
        r
    }
}

} // verus!
