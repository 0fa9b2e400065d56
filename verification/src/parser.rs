//! Byte-exact codec for whole containers: the 64-byte flag-conditional
//! header, the palette, per-image sub-headers, image payloads and trailing
//! animation records. All multi-byte integers are little-endian.

use vstd::prelude::*;

use vstd::bytes::{
    lemma_auto_spec_u16_to_from_le_bytes, lemma_auto_spec_u32_to_from_le_bytes,
    spec_u16_from_le_bytes, spec_u16_to_le_bytes, spec_u32_from_le_bytes, spec_u32_to_le_bytes,
    u16_from_le_bytes, u16_to_le_bytes, u32_from_le_bytes, u32_to_le_bytes,
};
use vstd::slice::{slice_subrange, slice_to_vec};

use crate::etrle::{spec_decompress, zeros, EtrleDecoder};
use crate::types::{
    spec_flags_bits, spec_flags_from_bits, spec_palette_bytes, spec_signature, AnimModel,
    FileModel, HeaderModel, ImageModel, StiAnimationData, StiError, StiErrorKind, StiFile,
    StiFlags, StiHeader, StiImage, StiPalette, StiResult, StiSubImageHeader,
};

verus! {

/// The 32-bit little-endian integer at offset `i` of `d`.
pub open spec fn u32le(d: Seq<u8>, i: int) -> u32 {
    spec_u32_from_le_bytes(d.subrange(i, i + 4))
}

/// The 16-bit little-endian integer at offset `i` of `d`.
pub open spec fn u16le(d: Seq<u8>, i: int) -> u16 {
    spec_u16_from_le_bytes(d.subrange(i, i + 2))
}

/// The signed 16-bit little-endian integer at offset `i` of `d`.
pub open spec fn i16le(d: Seq<u8>, i: int) -> i16 {
    u16le(d, i) as i16
}

/// The little-endian bytes of a signed 16-bit integer.
pub open spec fn spec_i16_to_le_bytes(x: i16) -> Seq<u8> {
    spec_u16_to_le_bytes(x as u16)
}

fn read_u32_at(d: &[u8], i: usize) -> (r: u32)
    requires
        i + 4 <= d@.len(),
    ensures
        r == u32le(d@, i as int),
{
    let n = d.len();
    proof {
        assert(i + 4 <= n);
    }
    let s = slice_subrange(d, i, i + 4);
    u32_from_le_bytes(s)
}

fn read_u16_at(d: &[u8], i: usize) -> (r: u16)
    requires
        i + 2 <= d@.len(),
    ensures
        r == u16le(d@, i as int),
{
    let n = d.len();
    proof {
        assert(i + 2 <= n);
    }
    let s = slice_subrange(d, i, i + 2);
    u16_from_le_bytes(s)
}

fn read_i16_at(d: &[u8], i: usize) -> (r: i16)
    requires
        i + 2 <= d@.len(),
    ensures
        r == i16le(d@, i as int),
{
    read_u16_at(d, i) as i16
}

fn push_u32_le(out: &mut Vec<u8>, x: u32)
    ensures
        final(out)@ == old(out)@ + spec_u32_to_le_bytes(x),
{
    let b = u32_to_le_bytes(x);
    let ghost start = out@;
    out.push(b[0]);
    out.push(b[1]);
    out.push(b[2]);
    out.push(b[3]);
    proof {
        assert(out@ =~= start + b@);
    }
}

fn push_u16_le(out: &mut Vec<u8>, x: u16)
    ensures
        final(out)@ == old(out)@ + spec_u16_to_le_bytes(x),
{
    let b = u16_to_le_bytes(x);
    let ghost start = out@;
    out.push(b[0]);
    out.push(b[1]);
    proof {
        assert(out@ =~= start + b@);
    }
}

fn push_i16_le(out: &mut Vec<u8>, x: i16)
    ensures
        final(out)@ == old(out)@ + spec_i16_to_le_bytes(x),
{
    push_u16_le(out, x as u16);
}

/// Appends the contents of `src` to `out`.
fn append_bytes(out: &mut Vec<u8>, src: &Vec<u8>)
    ensures
        final(out)@ == old(out)@ + src@,
{
    let ghost start = out@;
    let mut i: usize = 0;
    while i < src.len()
        invariant
            i <= src.len(),
            out@ == start + src@.subrange(0, i as int),
        decreases src.len() - i,
    {
        out.push(src[i]);
        i = i + 1;
        proof {
            assert(out@ =~= start + src@.subrange(0, i as int));
        }
    }
    proof {
        assert(out@ =~= start + src@);
    }
}

/// What decoding the 64-byte header returns on buffer `d`: the header model
/// with the fields of the decoded variant filled from their absolute byte
/// offsets and the other variant's fields zero, or the error kind.
pub open spec fn spec_parse_header(d: Seq<u8>) -> Result<HeaderModel, StiErrorKind> {
    if d.len() < 4 {
        Err(StiErrorKind::Io)
    } else if d.subrange(0, 4) != spec_signature() {
        Err(StiErrorKind::InvalidFormat)
    } else if d.len() < 64 {
        Err(StiErrorKind::Io)
    } else {
        let fl = spec_flags_from_bits(u32le(d, 16));
        if fl.rgb && !fl.indexed {
            Ok(
                HeaderModel {
                    signature: d.subrange(0, 4),
                    original_size: u32le(d, 4),
                    compressed_size: u32le(d, 8),
                    transparent_color: u32le(d, 12),
                    flags: fl,
                    height: u16le(d, 20),
                    width: u16le(d, 22),
                    red_mask: u32le(d, 24),
                    green_mask: u32le(d, 28),
                    blue_mask: u32le(d, 32),
                    alpha_mask: u32le(d, 36),
                    red_depth: d[40],
                    green_depth: d[41],
                    blue_depth: d[42],
                    alpha_depth: d[43],
                    palette_colors: 0,
                    num_images: 0,
                    color_depth: d[44],
                    app_data_size: u32le(d, 45),
                },
            )
        } else if fl.indexed && !fl.rgb {
            Ok(
                HeaderModel {
                    signature: d.subrange(0, 4),
                    original_size: u32le(d, 4),
                    compressed_size: u32le(d, 8),
                    transparent_color: u32le(d, 12),
                    flags: fl,
                    height: 0,
                    width: 0,
                    red_mask: 0,
                    green_mask: 0,
                    blue_mask: 0,
                    alpha_mask: 0,
                    red_depth: d[30],
                    green_depth: d[31],
                    blue_depth: d[32],
                    alpha_depth: 0,
                    palette_colors: u32le(d, 24),
                    num_images: u16le(d, 28),
                    color_depth: d[44],
                    app_data_size: u32le(d, 45),
                },
            )
        } else {
            Err(StiErrorKind::InvalidFormat)
        }
    }
}

/// The 64-byte encoding of a header: the fixed fields, the variant region
/// chosen by the flags, and zero padding to 64 bytes.
pub open spec fn header_bytes(h: HeaderModel) -> Seq<u8> {
    let base = h.signature + spec_u32_to_le_bytes(h.original_size) + spec_u32_to_le_bytes(
        h.compressed_size,
    ) + spec_u32_to_le_bytes(h.transparent_color) + spec_u32_to_le_bytes(spec_flags_bits(h.flags))
        + spec_u16_to_le_bytes(h.height) + spec_u16_to_le_bytes(h.width);
    let mid = if h.flags.rgb {
        base + spec_u32_to_le_bytes(h.red_mask) + spec_u32_to_le_bytes(h.green_mask)
            + spec_u32_to_le_bytes(h.blue_mask) + spec_u32_to_le_bytes(h.alpha_mask)
            + seq![h.red_depth, h.green_depth, h.blue_depth, h.alpha_depth]
    } else if h.flags.indexed {
        base + spec_u32_to_le_bytes(h.palette_colors) + spec_u16_to_le_bytes(h.num_images)
            + seq![h.red_depth, h.green_depth, h.blue_depth] + zeros(11)
    } else {
        base
    };
    let tail = mid + seq![h.color_depth] + spec_u32_to_le_bytes(h.app_data_size);
    tail + zeros((64 - tail.len()) as nat)
}

/// A header whose out-of-variant fields are zero, as decoding leaves them.
pub open spec fn spec_header_canon(h: HeaderModel) -> HeaderModel {
    if h.flags.rgb {
        HeaderModel { palette_colors: 0, num_images: 0, ..h }
    } else {
        HeaderModel {
            height: 0,
            width: 0,
            red_mask: 0,
            green_mask: 0,
            blue_mask: 0,
            alpha_mask: 0,
            alpha_depth: 0,
            ..h
        }
    }
}

/// Header decoding from any buffer that starts with a header's encoding:
/// for a header with the right signature and exactly one of the RGB and
/// indexed flags set, decoding gives the header back up to zeroing of the
/// out-of-variant fields, whatever follows the first 64 bytes.
pub proof fn lemma_header_decode_prefix(h: HeaderModel, d: Seq<u8>)
    requires
        h.signature == spec_signature(),
        h.flags.rgb != h.flags.indexed,
        d.len() >= 64,
        d.subrange(0, 64) == header_bytes(h),
    ensures
        spec_parse_header(d) == Ok::<HeaderModel, StiErrorKind>(spec_header_canon(h)),
{
    lemma_auto_spec_u32_to_from_le_bytes();
    lemma_auto_spec_u16_to_from_le_bytes();
    crate::types::lemma_flags_round_trip(h.flags);
    let e = header_bytes(h);
    assert(e.len() == 64);
    assert forall|a: int, b: int| 0 <= a <= b <= 64 implies d.subrange(a, b) =~= e.subrange(
        a,
        b,
    ) by {
        assert forall|x: int| 0 <= x < b - a implies d.subrange(a, b)[x] == e.subrange(a, b)[x] by {
            assert(d.subrange(0, 64)[a + x] == d[a + x]);
        }
    }
    assert(d.subrange(0, 4) =~= e.subrange(0, 4));
    assert(e.subrange(0, 4) =~= h.signature);
    assert forall|x: int| 0 <= x < 64 implies d[x] == e[x] by {
        assert(d.subrange(0, 64)[x] == d[x]);
    }
    assert(e.subrange(4, 8) =~= spec_u32_to_le_bytes(h.original_size));
    assert(e.subrange(8, 12) =~= spec_u32_to_le_bytes(h.compressed_size));
    assert(e.subrange(12, 16) =~= spec_u32_to_le_bytes(h.transparent_color));
    assert(e.subrange(16, 20) =~= spec_u32_to_le_bytes(spec_flags_bits(h.flags)));
    assert(u32le(d, 16) == spec_flags_bits(h.flags));
    assert(spec_flags_from_bits(u32le(d, 16)) == h.flags);
    assert(e.subrange(45, 49) =~= spec_u32_to_le_bytes(h.app_data_size));
    assert(d.subrange(45, 49) =~= e.subrange(45, 49));
    if h.flags.rgb {
        assert(e.subrange(20, 22) =~= spec_u16_to_le_bytes(h.height));
        assert(e.subrange(22, 24) =~= spec_u16_to_le_bytes(h.width));
        assert(e.subrange(24, 28) =~= spec_u32_to_le_bytes(h.red_mask));
        assert(e.subrange(28, 32) =~= spec_u32_to_le_bytes(h.green_mask));
        assert(e.subrange(32, 36) =~= spec_u32_to_le_bytes(h.blue_mask));
        assert(e.subrange(36, 40) =~= spec_u32_to_le_bytes(h.alpha_mask));
        assert(d[40] == h.red_depth);
        assert(d[41] == h.green_depth);
        assert(d[42] == h.blue_depth);
        assert(d[43] == h.alpha_depth);
        assert(d[44] == h.color_depth);
    } else {
        assert(e.subrange(24, 28) =~= spec_u32_to_le_bytes(h.palette_colors));
        assert(e.subrange(28, 30) =~= spec_u16_to_le_bytes(h.num_images));
        assert(d[30] == h.red_depth);
        assert(d[31] == h.green_depth);
        assert(d[32] == h.blue_depth);
        assert(d[44] == h.color_depth);
    }
}

/// Round-trip law of the header codec: for a header with the right
/// signature and exactly one of the RGB and indexed flags set, decoding its
/// encoding gives the header back up to zeroing of the out-of-variant
/// fields.
pub proof fn lemma_header_round_trip(h: HeaderModel)
    requires
        h.signature == spec_signature(),
        h.flags.rgb != h.flags.indexed,
    ensures
        spec_parse_header(header_bytes(h)) == Ok::<HeaderModel, StiErrorKind>(
            spec_header_canon(h),
        ),
{
    let d = header_bytes(h);
    assert(d.len() == 64) by {
        lemma_auto_spec_u32_to_from_le_bytes();
        lemma_auto_spec_u16_to_from_le_bytes();
    }
    assert(d.subrange(0, 64) =~= d);
    lemma_header_decode_prefix(h, d);
}

/// The sub-image header encoded at offset `off` of `d`.
pub open spec fn spec_sub_at(d: Seq<u8>, off: int) -> StiSubImageHeader {
    StiSubImageHeader {
        data_offset: u32le(d, off),
        data_size: u32le(d, off + 4),
        offset_x: i16le(d, off + 8),
        offset_y: i16le(d, off + 10),
        height: u16le(d, off + 12),
        width: u16le(d, off + 14),
    }
}

/// The 16-byte encoding of a sub-image header.
pub open spec fn sub_bytes(sh: StiSubImageHeader) -> Seq<u8> {
    spec_u32_to_le_bytes(sh.data_offset) + spec_u32_to_le_bytes(sh.data_size) + spec_i16_to_le_bytes(
        sh.offset_x,
    ) + spec_i16_to_le_bytes(sh.offset_y) + spec_u16_to_le_bytes(sh.height) + spec_u16_to_le_bytes(
        sh.width,
    )
}

/// The animation record encoded at offset `off` of `d`.
pub open spec fn spec_anim_at(d: Seq<u8>, off: int) -> AnimModel {
    AnimModel {
        unknown1: d.subrange(off, off + 8),
        frame_count: d[off + 8],
        unknown2: d[off + 9],
        unknown3: d.subrange(off + 10, off + 16),
    }
}

/// The 16-byte encoding of an animation record.
pub open spec fn anim_bytes(a: AnimModel) -> Seq<u8> {
    a.unknown1 + seq![a.frame_count, a.unknown2] + a.unknown3
}

/// What reading the images of an indexed file returns, starting at byte
/// `pos` with the sub-headers `subs[i..]` still to process: each image's
/// payload is the next `data_size` bytes, decompressed when the run-length
/// flag is set. Fails with an I/O kind when the buffer is exhausted and
/// with a decompression kind when a payload is malformed.
pub open spec fn spec_parse_images(
    d: Seq<u8>,
    pos: int,
    subs: Seq<StiSubImageHeader>,
    i: int,
    rle: bool,
) -> Result<Seq<ImageModel>, StiErrorKind>
    decreases subs.len() - i,
{
    if i >= subs.len() {
        Ok(Seq::empty())
    } else {
        let sh = subs[i];
        let sz = sh.data_size as int;
        if pos + sz > d.len() {
            Err(StiErrorKind::Io)
        } else {
            let raw = d.subrange(pos, pos + sz);
            if rle {
                match spec_decompress(raw, sh.width as nat, sh.height as nat) {
                    None => Err(StiErrorKind::Decompression),
                    Some(dec) => match spec_parse_images(d, pos + sz, subs, i + 1, rle) {
                        Err(k) => Err(k),
                        Ok(rest) => Ok(
                            seq![
                                ImageModel {
                                    header: Some(sh),
                                    raw_data: raw,
                                    decompressed_data: Some(dec),
                                    width: sh.width,
                                    height: sh.height,
                                },
                            ] + rest,
                        ),
                    },
                }
            } else {
                match spec_parse_images(d, pos + sz, subs, i + 1, rle) {
                    Err(k) => Err(k),
                    Ok(rest) => Ok(
                        seq![
                            ImageModel {
                                header: Some(sh),
                                raw_data: raw,
                                decompressed_data: None,
                                width: sh.width,
                                height: sh.height,
                            },
                        ] + rest,
                    ),
                }
            }
        }
    }
}

/// Total payload size declared by the sub-headers `subs[i..]`.
pub open spec fn sizes_total(subs: Seq<StiSubImageHeader>, i: int) -> int
    decreases subs.len() - i,
{
    if i >= subs.len() {
        0
    } else {
        subs[i].data_size + sizes_total(subs, i + 1)
    }
}

/// Prefixes already-read images onto the result of reading the rest.
pub open spec fn prepend_images(
    pre: Seq<ImageModel>,
    r: Result<Seq<ImageModel>, StiErrorKind>,
) -> Result<Seq<ImageModel>, StiErrorKind> {
    match r {
        Ok(s) => Ok(pre + s),
        Err(k) => Err(k),
    }
}

/// What parsing the body of an indexed file returns, given its decoded
/// header: the 768-byte palette, `num_images` sub-headers, the image
/// payloads in sub-header order, and the animation records when
/// `app_data_size` is non-zero.
pub open spec fn spec_parse_8bit(d: Seq<u8>, h: HeaderModel) -> Result<FileModel, StiErrorKind> {
    let n = h.num_images as int;
    if d.len() < 832 {
        Err(StiErrorKind::Io)
    } else if d.len() < 832 + 16 * n {
        Err(StiErrorKind::Io)
    } else {
        let subs = Seq::new(n as nat, |i: int| spec_sub_at(d, 832 + 16 * i));
        let pos0 = 832 + 16 * n;
        match spec_parse_images(d, pos0, subs, 0, h.flags.etrle_compressed) {
            Err(k) => Err(k),
            Ok(imgs) => {
                let anim_count = (h.app_data_size / 16) as int;
                let apos = pos0 + sizes_total(subs, 0);
                if h.app_data_size > 0 && d.len() < apos + 16 * anim_count {
                    Err(StiErrorKind::Io)
                } else {
                    Ok(
                        FileModel {
                            header: h,
                            palette: Some(d.subrange(64, 832)),
                            images: imgs,
                            animation_data: if h.app_data_size > 0 {
                                Seq::new(anim_count as nat, |i: int| spec_anim_at(d, apos + 16 * i))
                            } else {
                                Seq::empty()
                            },
                        },
                    )
                }
            },
        }
    }
}

/// What parsing the body of a 16-bit file returns, given its decoded
/// header: one image of `width * height * 2` raw bytes, already
/// decompressed.
pub open spec fn spec_parse_16bit(d: Seq<u8>, h: HeaderModel) -> Result<FileModel, StiErrorKind> {
    let need = 2 * (h.width as int) * (h.height as int);
    if d.len() < 64 + need {
        Err(StiErrorKind::Io)
    } else {
        Ok(
            FileModel {
                header: h,
                palette: None,
                images: seq![
                    ImageModel {
                        header: None,
                        raw_data: d.subrange(64, 64 + need),
                        decompressed_data: Some(d.subrange(64, 64 + need)),
                        width: h.width,
                        height: h.height,
                    },
                ],
                animation_data: Seq::empty(),
            },
        )
    }
}

/// What parsing a whole buffer returns: the header decode followed by the
/// body of the layout the flags select.
pub open spec fn spec_parse(d: Seq<u8>) -> Result<FileModel, StiErrorKind> {
    match spec_parse_header(d) {
        Err(k) => Err(k),
        Ok(h) => if h.flags.indexed && !h.flags.rgb {
            spec_parse_8bit(d, h)
        } else {
            spec_parse_16bit(d, h)
        },
    }
}

/// Parsing rejects every buffer shorter than the 64-byte header with an
/// I/O or format error.
pub proof fn lemma_short_buffer_rejected(d: Seq<u8>)
    requires
        d.len() < 64,
    ensures
        spec_parse(d) == Err::<FileModel, StiErrorKind>(StiErrorKind::Io) || spec_parse(d) == Err::<
            FileModel,
            StiErrorKind,
        >(StiErrorKind::InvalidFormat),
{
}

/// Parsing rejects a header whose flags set both or neither of the RGB and
/// indexed layouts with a format error.
pub proof fn lemma_flag_conflict_rejected(d: Seq<u8>)
    requires
        d.len() >= 64,
        spec_flags_from_bits(u32le(d, 16)).rgb == spec_flags_from_bits(u32le(d, 16)).indexed,
    ensures
        spec_parse(d) == Err::<FileModel, StiErrorKind>(StiErrorKind::InvalidFormat),
{
}

/// Whether every image carries a sub-image header, as writing an indexed
/// file requires.
pub open spec fn spec_all_have_headers(imgs: Seq<ImageModel>) -> bool {
    forall|i: int| 0 <= i < imgs.len() ==> imgs[i].header is Some
}

/// The concatenated sub-header encodings of `imgs[i..]`.
pub open spec fn subheaders_bytes(imgs: Seq<ImageModel>, i: int) -> Seq<u8>
    decreases imgs.len() - i,
{
    if i >= imgs.len() {
        Seq::empty()
    } else {
        (match imgs[i].header {
            Some(sh) => sub_bytes(sh),
            None => Seq::empty(),
        }) + subheaders_bytes(imgs, i + 1)
    }
}

/// The concatenated raw payloads of `imgs[i..]`.
pub open spec fn payload_bytes(imgs: Seq<ImageModel>, i: int) -> Seq<u8>
    decreases imgs.len() - i,
{
    if i >= imgs.len() {
        Seq::empty()
    } else {
        imgs[i].raw_data + payload_bytes(imgs, i + 1)
    }
}

/// The concatenated animation record encodings of `anims[i..]`.
pub open spec fn anims_bytes(anims: Seq<AnimModel>, i: int) -> Seq<u8>
    decreases anims.len() - i,
{
    if i >= anims.len() {
        Seq::empty()
    } else {
        anim_bytes(anims[i]) + anims_bytes(anims, i + 1)
    }
}

/// What encoding the body of an indexed file after the header returns: the
/// palette, the sub-headers and the payloads in file order, then the
/// animation records; a format error without a complete palette or when an
/// image lacks its sub-header.
pub open spec fn spec_write_body_8(m: FileModel) -> Result<Seq<u8>, StiErrorKind> {
    match m.palette {
        None => Err(StiErrorKind::InvalidFormat),
        Some(p) => {
            if p.len() != 768 {
                Err(StiErrorKind::InvalidFormat)
            } else if !spec_all_have_headers(m.images) {
                Err(StiErrorKind::InvalidFormat)
            } else {
                Ok(
                    p + subheaders_bytes(m.images, 0) + payload_bytes(m.images, 0) + anims_bytes(
                        m.animation_data,
                        0,
                    ),
                )
            }
        },
    }
}

/// What encoding a whole container returns: the 64-byte header followed by
/// the body of the layout the flags select.
pub open spec fn spec_write(m: FileModel) -> Result<Seq<u8>, StiErrorKind> {
    if m.header.flags.indexed && !m.header.flags.rgb {
        match spec_write_body_8(m) {
            Ok(b) => Ok(header_bytes(m.header) + b),
            Err(k) => Err(k),
        }
    } else if m.header.flags.rgb && !m.header.flags.indexed {
        if m.images.len() == 0 {
            Err(StiErrorKind::InvalidFormat)
        } else {
            Ok(header_bytes(m.header) + m.images[0].raw_data)
        }
    } else {
        Err(StiErrorKind::UnsupportedFormat)
    }
}

/// Reading back an encoded sub-image header gives the header back.
proof fn lemma_sub_bytes_round_trip(sh: StiSubImageHeader, d: Seq<u8>, off: int)
    requires
        0 <= off,
        off + 16 <= d.len(),
        d.subrange(off, off + 16) == sub_bytes(sh),
    ensures
        spec_sub_at(d, off) == sh,
{
    lemma_auto_spec_u32_to_from_le_bytes();
    lemma_auto_spec_u16_to_from_le_bytes();
    let e = sub_bytes(sh);
    assert forall|a: int, b: int| 0 <= a <= b <= 16 implies d.subrange(off + a, off + b)
        =~= e.subrange(a, b) by {
        assert forall|x: int| 0 <= x < b - a implies d.subrange(off + a, off + b)[x] == e.subrange(
            a,
            b,
        )[x] by {
            assert(d.subrange(off, off + 16)[a + x] == d[off + a + x]);
        }
    }
    assert(e.subrange(0, 4) =~= spec_u32_to_le_bytes(sh.data_offset));
    assert(e.subrange(4, 8) =~= spec_u32_to_le_bytes(sh.data_size));
    assert(e.subrange(8, 10) =~= spec_i16_to_le_bytes(sh.offset_x));
    assert(e.subrange(10, 12) =~= spec_i16_to_le_bytes(sh.offset_y));
    assert(e.subrange(12, 14) =~= spec_u16_to_le_bytes(sh.height));
    assert(e.subrange(14, 16) =~= spec_u16_to_le_bytes(sh.width));
    let x = sh.offset_x;
    let y = sh.offset_y;
    assert((x as u16) as i16 == x) by (bit_vector);
    assert((y as u16) as i16 == y) by (bit_vector);
}

/// Every sub-header's encoding sits 16 bytes apart in the concatenation.
proof fn lemma_subheaders_bytes_len(imgs: Seq<ImageModel>, i: int)
    requires
        0 <= i <= imgs.len(),
        forall|j: int| 0 <= j < imgs.len() ==> imgs[j].header is Some,
    ensures
        subheaders_bytes(imgs, i).len() == 16 * (imgs.len() - i),
    decreases imgs.len() - i,
{
    lemma_auto_spec_u32_to_from_le_bytes();
    lemma_auto_spec_u16_to_from_le_bytes();
    if i < imgs.len() {
        lemma_subheaders_bytes_len(imgs, i + 1);
    }
}

/// The `k`-th sub-header's encoding within the concatenation from `i`.
proof fn lemma_subheaders_bytes_at(imgs: Seq<ImageModel>, i: int, k: int)
    requires
        0 <= i <= k < imgs.len(),
        forall|j: int| 0 <= j < imgs.len() ==> imgs[j].header is Some,
    ensures
        subheaders_bytes(imgs, i).subrange(16 * (k - i), 16 * (k - i) + 16) == sub_bytes(
            imgs[k].header->Some_0,
        ),
    decreases k - i,
{
    lemma_auto_spec_u32_to_from_le_bytes();
    lemma_auto_spec_u16_to_from_le_bytes();
    lemma_subheaders_bytes_len(imgs, i + 1);
    let s = subheaders_bytes(imgs, i);
    let head = sub_bytes(imgs[i].header->Some_0);
    assert(s == head + subheaders_bytes(imgs, i + 1));
    assert(head.len() == 16);
    if k == i {
        assert(s.subrange(0, 16) =~= head);
    } else {
        lemma_subheaders_bytes_at(imgs, i + 1, k);
        assert(s.subrange(16 * (k - i), 16 * (k - i) + 16) =~= subheaders_bytes(
            imgs,
            i + 1,
        ).subrange(16 * (k - i - 1), 16 * (k - i - 1) + 16));
    }
}

/// Total declared payload size equals the laid-out payload's length when
/// every sub-header's `data_size` is its image's raw length.
proof fn lemma_sizes_total_payload(imgs: Seq<ImageModel>, subs: Seq<StiSubImageHeader>, i: int)
    requires
        0 <= i <= imgs.len(),
        subs.len() == imgs.len(),
        forall|j: int| 0 <= j < imgs.len() ==> imgs[j].header is Some,
        forall|j: int| 0 <= j < imgs.len() ==> subs[j] == imgs[j].header->Some_0,
        forall|j: int|
            0 <= j < imgs.len() ==> imgs[j].header->Some_0.data_size == imgs[j].raw_data.len(),
    ensures
        sizes_total(subs, i) == payload_bytes(imgs, i).len(),
    decreases imgs.len() - i,
{
    if i < imgs.len() {
        lemma_sizes_total_payload(imgs, subs, i + 1);
    }
}

/// Reading the image payloads back from the laid-out bytes gives the
/// images back, when sizes, dimensions and decompressed data are
/// consistent with the sub-headers.
proof fn lemma_parse_images_of_written(
    d: Seq<u8>,
    imgs: Seq<ImageModel>,
    subs: Seq<StiSubImageHeader>,
    pos: int,
    i: int,
    rle: bool,
)
    requires
        0 <= i <= imgs.len(),
        0 <= pos,
        subs.len() == imgs.len(),
        forall|j: int| 0 <= j < imgs.len() ==> imgs[j].header is Some,
        forall|j: int| 0 <= j < imgs.len() ==> subs[j] == imgs[j].header->Some_0,
        forall|j: int|
            0 <= j < imgs.len() ==> imgs[j].header->Some_0.data_size == imgs[j].raw_data.len(),
        forall|j: int|
            0 <= j < imgs.len() ==> imgs[j].header->Some_0.width == imgs[j].width
                && imgs[j].header->Some_0.height == imgs[j].height,
        forall|j: int|
            0 <= j < imgs.len() ==> (if rle {
                match spec_decompress(
                    imgs[j].raw_data,
                    imgs[j].width as nat,
                    imgs[j].height as nat,
                ) {
                    Some(s) => imgs[j].decompressed_data == Some(s),
                    None => false,
                }
            } else {
                imgs[j].decompressed_data is None
            }),
        pos + payload_bytes(imgs, i).len() <= d.len(),
        d.subrange(pos, pos + payload_bytes(imgs, i).len()) == payload_bytes(imgs, i),
    ensures
        spec_parse_images(d, pos, subs, i, rle) == Ok::<Seq<ImageModel>, StiErrorKind>(
            imgs.skip(i),
        ),
    decreases imgs.len() - i,
{
    if i >= imgs.len() {
        assert(imgs.skip(i) =~= Seq::<ImageModel>::empty());
    } else {
        let im = imgs[i];
        let sh = subs[i];
        let sz = im.raw_data.len() as int;
        let rest = payload_bytes(imgs, i + 1);
        assert(payload_bytes(imgs, i) == im.raw_data + rest);
        assert(d.subrange(pos, pos + sz) =~= im.raw_data) by {
            assert forall|x: int| 0 <= x < sz implies d.subrange(pos, pos + sz)[x]
                == im.raw_data[x] by {
                assert(d.subrange(pos, pos + payload_bytes(imgs, i).len())[x] == d[pos + x]);
            }
        }
        assert(d.subrange(pos + sz, pos + sz + rest.len()) =~= rest) by {
            assert forall|x: int| 0 <= x < rest.len() implies d.subrange(
                pos + sz,
                pos + sz + rest.len(),
            )[x] == rest[x] by {
                assert(d.subrange(pos, pos + payload_bytes(imgs, i).len())[sz + x] == d[pos + sz
                    + x]);
            }
        }
        lemma_parse_images_of_written(d, imgs, subs, pos + sz, i + 1, rle);
        let made = ImageModel {
            header: Some(sh),
            raw_data: d.subrange(pos, pos + sz),
            decompressed_data: if rle {
                Some(
                    spec_decompress(
                        d.subrange(pos, pos + sz),
                        sh.width as nat,
                        sh.height as nat,
                    )->Some_0,
                )
            } else {
                None
            },
            width: sh.width,
            height: sh.height,
        };
        assert(made == im);
        assert(seq![im] + imgs.skip(i + 1) =~= imgs.skip(i));
    }
}

/// The animation block's length: 16 bytes per record.
proof fn lemma_anims_bytes_len(anims: Seq<AnimModel>, i: int)
    requires
        0 <= i <= anims.len(),
        forall|j: int|
            0 <= j < anims.len() ==> anims[j].unknown1.len() == 8 && anims[j].unknown3.len() == 6,
    ensures
        anims_bytes(anims, i).len() == 16 * (anims.len() - i),
    decreases anims.len() - i,
{
    if i < anims.len() {
        lemma_anims_bytes_len(anims, i + 1);
    }
}

/// The `k`-th animation record's encoding within the concatenation.
proof fn lemma_anims_bytes_at(anims: Seq<AnimModel>, i: int, k: int)
    requires
        0 <= i <= k < anims.len(),
        forall|j: int|
            0 <= j < anims.len() ==> anims[j].unknown1.len() == 8 && anims[j].unknown3.len() == 6,
    ensures
        anims_bytes(anims, i).subrange(16 * (k - i), 16 * (k - i) + 16) == anim_bytes(anims[k]),
    decreases k - i,
{
    lemma_anims_bytes_len(anims, i + 1);
    let s = anims_bytes(anims, i);
    let head = anim_bytes(anims[i]);
    assert(head.len() == 16);
    if k == i {
        assert(s.subrange(0, 16) =~= head);
    } else {
        lemma_anims_bytes_at(anims, i + 1, k);
        assert(s.subrange(16 * (k - i), 16 * (k - i) + 16) =~= anims_bytes(anims, i + 1).subrange(
            16 * (k - i - 1),
            16 * (k - i - 1) + 16,
        ));
    }
}

/// Reading back an encoded animation record gives the record back.
proof fn lemma_anim_bytes_round_trip(a: AnimModel, d: Seq<u8>, off: int)
    requires
        0 <= off,
        off + 16 <= d.len(),
        a.unknown1.len() == 8,
        a.unknown3.len() == 6,
        d.subrange(off, off + 16) == anim_bytes(a),
    ensures
        spec_anim_at(d, off) == a,
{
    let e = anim_bytes(a);
    assert forall|x: int, y: int| 0 <= x <= y <= 16 implies d.subrange(off + x, off + y)
        =~= e.subrange(x, y) by {
        assert forall|z: int| 0 <= z < y - x implies d.subrange(off + x, off + y)[z] == e.subrange(
            x,
            y,
        )[z] by {
            assert(d.subrange(off, off + 16)[x + z] == d[off + x + z]);
        }
    }
    assert(e.subrange(0, 8) =~= a.unknown1);
    assert(e.subrange(10, 16) =~= a.unknown3);
    assert(d[off + 8] == d.subrange(off + 8, off + 9)[0]);
    assert(e.subrange(8, 9)[0] == a.frame_count);
    assert(d[off + 9] == d.subrange(off + 9, off + 10)[0]);
    assert(e.subrange(9, 10)[0] == a.unknown2);
}

/// The shape of a 16-bit container the writer lays out losslessly: one
/// image whose raw bytes are its pixels, dimensions mirrored in the
/// header, and nothing of the indexed layout.
pub open spec fn spec_writable_16bit(m: FileModel) -> bool {
    &&& m.header.signature == spec_signature()
    &&& m.header.flags.rgb && !m.header.flags.indexed
    &&& m.images.len() == 1
    &&& m.images[0].header is None
    &&& m.images[0].width == m.header.width
    &&& m.images[0].height == m.header.height
    &&& m.images[0].raw_data.len() == 2 * (m.header.width as int) * (m.header.height as int)
    &&& m.images[0].decompressed_data == Some(m.images[0].raw_data)
    &&& m.palette is None
    &&& m.animation_data.len() == 0
}

/// Round-trip law of the container codec, 16-bit case: parsing the
/// writer's output gives the container back, up to zeroing of the
/// header's out-of-variant fields.
pub proof fn lemma_write_parse_round_trip_16bit(m: FileModel)
    requires
        spec_writable_16bit(m),
    ensures
        spec_write(m) is Ok,
        spec_parse(spec_write(m)->Ok_0) == Ok::<FileModel, StiErrorKind>(
            FileModel { header: spec_header_canon(m.header), ..m },
        ),
{
    lemma_auto_spec_u32_to_from_le_bytes();
    lemma_auto_spec_u16_to_from_le_bytes();
    let h = m.header;
    let raw = m.images[0].raw_data;
    let hb = header_bytes(h);
    let d = hb + raw;
    assert(hb.len() == 64);
    assert(spec_write(m) == Ok::<Seq<u8>, StiErrorKind>(d));
    assert(d.subrange(0, 64) =~= hb);
    lemma_header_decode_prefix(h, d);
    let h2 = spec_header_canon(h);
    let need = 2 * (h2.width as int) * (h2.height as int);
    assert(d.len() == 64 + need);
    assert(d.subrange(64, 64 + need) =~= raw);
    let out = spec_parse_16bit(d, h2)->Ok_0;
    assert(out.images =~= m.images);
    assert(out.animation_data =~= m.animation_data);
    assert(out == FileModel { header: h2, ..m });
}

/// The shape of an indexed container the writer lays out losslessly:
/// every image carries a sub-header whose size and dimensions describe
/// its raw payload, the decompressed pixels agree with the payload under
/// the run-length flag, the palette is complete, and the header's counts
/// match the container.
pub open spec fn spec_writable_indexed(m: FileModel) -> bool {
    &&& m.header.signature == spec_signature()
    &&& m.header.flags.indexed && !m.header.flags.rgb
    &&& m.palette is Some
    &&& m.palette->Some_0.len() == 768
    &&& m.header.num_images as int == m.images.len()
    &&& forall|j: int| 0 <= j < m.images.len() ==> m.images[j].header is Some
    &&& forall|j: int|
        0 <= j < m.images.len() ==> m.images[j].header->Some_0.data_size
            == m.images[j].raw_data.len()
    &&& forall|j: int|
        0 <= j < m.images.len() ==> m.images[j].header->Some_0.width == m.images[j].width
            && m.images[j].header->Some_0.height == m.images[j].height
    &&& forall|j: int|
        0 <= j < m.images.len() ==> (if m.header.flags.etrle_compressed {
            match spec_decompress(
                m.images[j].raw_data,
                m.images[j].width as nat,
                m.images[j].height as nat,
            ) {
                Some(s) => m.images[j].decompressed_data == Some(s),
                None => false,
            }
        } else {
            m.images[j].decompressed_data is None
        })
    &&& m.header.app_data_size as int == 16 * m.animation_data.len()
    &&& forall|j: int|
        0 <= j < m.animation_data.len() ==> m.animation_data[j].unknown1.len() == 8
            && m.animation_data[j].unknown3.len() == 6
}

/// Round-trip law of the container codec, indexed case: parsing the
/// writer's output gives the container back, up to zeroing of the
/// header's out-of-variant fields.
pub proof fn lemma_write_parse_round_trip_indexed(m: FileModel)
    requires
        spec_writable_indexed(m),
    ensures
        spec_write(m) is Ok,
        spec_parse(spec_write(m)->Ok_0) == Ok::<FileModel, StiErrorKind>(
            FileModel { header: spec_header_canon(m.header), ..m },
        ),
{
    lemma_auto_spec_u32_to_from_le_bytes();
    lemma_auto_spec_u16_to_from_le_bytes();
    let h = m.header;
    let rle = h.flags.etrle_compressed;
    let p = m.palette->Some_0;
    let imgs = m.images;
    let n = imgs.len() as int;
    let cnt = m.animation_data.len() as int;
    let subs = Seq::new(n as nat, |i: int| imgs[i].header->Some_0);
    let hb = header_bytes(h);
    let sb = subheaders_bytes(imgs, 0);
    let pb = payload_bytes(imgs, 0);
    let ab = anims_bytes(m.animation_data, 0);
    let d = hb + p + sb + pb + ab;
    assert(spec_all_have_headers(imgs));
    assert(spec_write(m) is Ok);
    assert(spec_write(m)->Ok_0 =~= d);
    assert(hb.len() == 64);
    lemma_subheaders_bytes_len(imgs, 0);
    lemma_anims_bytes_len(m.animation_data, 0);
    assert(d.len() == 64 + 768 + 16 * n + pb.len() + 16 * cnt);
    // Header.
    assert(d.subrange(0, 64) =~= hb);
    lemma_header_decode_prefix(h, d);
    let h2 = spec_header_canon(h);
    assert(h2.flags == h.flags && h2.num_images == h.num_images && h2.app_data_size
        == h.app_data_size);
    // Palette.
    assert(d.subrange(64, 832) =~= p);
    // Sub-headers.
    assert forall|i: int| 0 <= i < n implies spec_sub_at(d, 832 + 16 * i) == subs[i] by {
        lemma_subheaders_bytes_at(imgs, 0, i);
        assert(d.subrange(832 + 16 * i, 832 + 16 * i + 16) =~= sb.subrange(
            16 * i,
            16 * i + 16,
        ));
        lemma_sub_bytes_round_trip(subs[i], d, 832 + 16 * i);
    }
    let subs_read = Seq::new(h2.num_images as nat, |i: int| spec_sub_at(d, 832 + 16 * i));
    assert(subs_read =~= subs);
    // Payloads.
    let pos0 = 832 + 16 * n;
    assert(d.subrange(pos0, pos0 + pb.len()) =~= pb);
    lemma_parse_images_of_written(d, imgs, subs, pos0, 0, rle);
    assert(imgs.skip(0) =~= imgs);
    // Animation records.
    lemma_sizes_total_payload(imgs, subs, 0);
    let apos = pos0 + pb.len();
    assert(h.app_data_size / 16 == cnt) by {
        assert(h.app_data_size as int == 16 * cnt);
        assert((16 * cnt) / 16 == cnt) by (nonlinear_arith);
    }
    let out = spec_parse_8bit(d, h2)->Ok_0;
    if cnt > 0 {
        assert(h.app_data_size > 0);
        assert forall|i: int| 0 <= i < cnt implies spec_anim_at(d, apos + 16 * i)
            == m.animation_data[i] by {
            lemma_anims_bytes_at(m.animation_data, 0, i);
            assert(d.subrange(apos + 16 * i, apos + 16 * i + 16) =~= ab.subrange(
                16 * i,
                16 * i + 16,
            ));
            lemma_anim_bytes_round_trip(m.animation_data[i], d, apos + 16 * i);
        }
        assert(out.animation_data =~= m.animation_data);
    } else {
        assert(h.app_data_size == 0);
        assert(out.animation_data =~= m.animation_data);
    }
    assert(out == FileModel { header: h2, ..m });
}

/// Decoder and encoder for whole containers.
pub struct StiParser;

impl StiParser {
    /// Decodes the 64-byte header. Fails with an I/O error on a buffer
    /// shorter than 64 bytes, and with a format error on a wrong signature
    /// or when the flags select neither or both of the two layouts.
    pub fn parse_header(data: &[u8]) -> (r: StiResult<StiHeader>)
        ensures
            match r {
                Ok(h) => spec_parse_header(data@) == Ok::<HeaderModel, StiErrorKind>(h@),
                Err(e) => spec_parse_header(data@) == Err::<HeaderModel, StiErrorKind>(e.kind()),
            },
    {
        let n = data.len();
        if n < 4 {
            return Err(StiError::Io("buffer ends inside the signature".to_string()));
        }
        let signature: [u8; 4] = [data[0], data[1], data[2], data[3]];
        if !(data[0] == 0x53 && data[1] == 0x54 && data[2] == 0x43 && data[3] == 0x49) {
            proof {
                assert(data@.subrange(0, 4)[0] == data@[0]);
                assert(data@.subrange(0, 4)[1] == data@[1]);
                assert(data@.subrange(0, 4)[2] == data@[2]);
                assert(data@.subrange(0, 4)[3] == data@[3]);
            }
            return Err(StiError::InvalidFormat("Invalid STI signature".to_string()));
        }
        proof {
            assert(signature@ =~= data@.subrange(0, 4));
            assert(data@.subrange(0, 4) =~= spec_signature());
        }
        if n < 64 {
            return Err(StiError::Io("buffer ends inside the header".to_string()));
        }
        let original_size = read_u32_at(data, 4);
        let compressed_size = read_u32_at(data, 8);
        let transparent_color = read_u32_at(data, 12);
        let flags_value = read_u32_at(data, 16);
        let flags = StiFlags::from_bits(flags_value);
        if flags.rgb && !flags.indexed {
            // 16-bit layout: dimensions, colour masks and channel depths.
            Ok(
                StiHeader {
                    signature,
                    original_size,
                    compressed_size,
                    transparent_color,
                    flags,
                    height: read_u16_at(data, 20),
                    width: read_u16_at(data, 22),
                    red_mask: read_u32_at(data, 24),
                    green_mask: read_u32_at(data, 28),
                    blue_mask: read_u32_at(data, 32),
                    alpha_mask: read_u32_at(data, 36),
                    red_depth: data[40],
                    green_depth: data[41],
                    blue_depth: data[42],
                    alpha_depth: data[43],
                    palette_colors: 0,
                    num_images: 0,
                    color_depth: data[44],
                    app_data_size: read_u32_at(data, 45),
                },
            )
        } else if flags.indexed && !flags.rgb {
            // 8-bit layout: dimensions live in the sub-image headers.
            Ok(
                StiHeader {
                    signature,
                    original_size,
                    compressed_size,
                    transparent_color,
                    flags,
                    height: 0,
                    width: 0,
                    red_mask: 0,
                    green_mask: 0,
                    blue_mask: 0,
                    alpha_mask: 0,
                    red_depth: data[30],
                    green_depth: data[31],
                    blue_depth: data[32],
                    alpha_depth: 0,
                    palette_colors: read_u32_at(data, 24),
                    num_images: read_u16_at(data, 28),
                    color_depth: data[44],
                    app_data_size: read_u32_at(data, 45),
                },
            )
        } else {
            Err(
                StiError::InvalidFormat(
                    "Invalid STI format flags - must be either RGB or indexed".to_string(),
                ),
            )
        }
    }

    /// Encodes a header into its exact 64-byte image, zero-padding the
    /// reserved and unused bytes.
    pub fn write_header(header: &StiHeader) -> (v: Vec<u8>)
        ensures
            v@ == header_bytes(header@),
            v@.len() == 64,
    {
        proof {
            lemma_auto_spec_u32_to_from_le_bytes();
            lemma_auto_spec_u16_to_from_le_bytes();
        }
        let mut out: Vec<u8> = Vec::new();
        out.push(header.signature[0]);
        out.push(header.signature[1]);
        out.push(header.signature[2]);
        out.push(header.signature[3]);
        proof {
            assert(out@ =~= header@.signature);
        }
        push_u32_le(&mut out, header.original_size);
        push_u32_le(&mut out, header.compressed_size);
        push_u32_le(&mut out, header.transparent_color);
        let bits = header.flags.bits();
        push_u32_le(&mut out, bits);
        push_u16_le(&mut out, header.height);
        push_u16_le(&mut out, header.width);
        if header.flags.rgb {
            push_u32_le(&mut out, header.red_mask);
            push_u32_le(&mut out, header.green_mask);
            push_u32_le(&mut out, header.blue_mask);
            push_u32_le(&mut out, header.alpha_mask);
            out.push(header.red_depth);
            out.push(header.green_depth);
            out.push(header.blue_depth);
            out.push(header.alpha_depth);
        } else if header.flags.indexed {
            push_u32_le(&mut out, header.palette_colors);
            push_u16_le(&mut out, header.num_images);
            out.push(header.red_depth);
            out.push(header.green_depth);
            out.push(header.blue_depth);
            let mut i: usize = 0;
            let ghost before_reserved = out@;
            while i < 11
                invariant
                    i <= 11,
                    out@ == before_reserved + zeros(i as nat),
                decreases 11 - i,
            {
                out.push(0);
                i = i + 1;
                proof {
                    assert(out@ =~= before_reserved + zeros(i as nat));
                }
            }
            proof {
                assert(before_reserved + zeros(0) =~= before_reserved);
            }
        }
        out.push(header.color_depth);
        push_u32_le(&mut out, header.app_data_size);
        let ghost tail = out@;
        proof {
            assert(tail + zeros(0) =~= tail);
        }
        while out.len() < 64
            invariant
                tail.len() <= 64,
                out@.len() <= 64,
                out@ == tail + zeros((out@.len() - tail.len()) as nat),
            decreases 64 - out@.len(),
        {
            out.push(0);
            proof {
                assert(out@ =~= tail + zeros((out@.len() - tail.len()) as nat));
            }
        }
        proof {
            assert(out@ =~= header_bytes(header@));
        }
        out
    }

    /// Parses a whole container from raw bytes: header, then the body of
    /// the layout the header's flags select. Fails with an I/O error
    /// whenever the buffer ends early (in particular on any buffer shorter
    /// than 64 bytes with an intact signature), with a format error on a
    /// bad signature or contradictory flags, and with a decompression
    /// error on a malformed run-length payload.
    pub fn parse(data: &[u8]) -> (r: StiResult<StiFile>)
        ensures
            match r {
                Ok(f) => spec_parse(data@) == Ok::<FileModel, StiErrorKind>(f@),
                Err(e) => spec_parse(data@) == Err::<FileModel, StiErrorKind>(e.kind()),
            },
            data@.len() < 64 ==> r is Err,
    {
        let header = match Self::parse_header(data) {
            Ok(h) => h,
            Err(e) => {
                return Err(e);
            },
        };
        let mut sti_file = StiFile::new();
        sti_file.header = header;
        proof {
            assert(data@.len() >= 64);
        }
        if sti_file.is_8bit() {
            match Self::parse_8bit_file(data, &mut sti_file) {
                Ok(()) => {},
                Err(e) => {
                    return Err(e);
                },
            }
        } else if sti_file.is_16bit() {
            match Self::parse_16bit_file(data, &mut sti_file) {
                Ok(()) => {},
                Err(e) => {
                    return Err(e);
                },
            }
        } else {
            // The header decoder admits only the two layouts.
            proof {
                assert(false);
            }
            return Err(
                StiError::UnsupportedFormat(
                    "Unknown STI format - neither 8-bit nor 16-bit".to_string(),
                ),
            );
        }
        Ok(sti_file)
    }

    /// Reads the body of a 16-bit file into the skeleton container holding
    /// its decoded header: one image of `width * height * 2` raw bytes,
    /// stored as both raw and decompressed data.
    fn parse_16bit_file(data: &[u8], sti_file: &mut StiFile) -> (r: StiResult<()>)
        requires
            data@.len() >= 64,
            old(sti_file)@.palette is None,
            old(sti_file)@.images == Seq::<ImageModel>::empty(),
            old(sti_file)@.animation_data == Seq::<AnimModel>::empty(),
        ensures
            match r {
                Ok(()) => spec_parse_16bit(data@, old(sti_file)@.header) == Ok::<
                    FileModel,
                    StiErrorKind,
                >(final(sti_file)@),
                Err(e) => spec_parse_16bit(data@, old(sti_file)@.header) == Err::<
                    FileModel,
                    StiErrorKind,
                >(e.kind()),
            },
    {
        let width = sti_file.header.width;
        let height = sti_file.header.height;
        let n = data.len();
        proof {
            assert((2 * width as u64) * (height as u64) <= 2 * 0xFFFF * 0xFFFF)
                by (nonlinear_arith)
                requires
                    width <= 0xFFFF,
                    height <= 0xFFFF,
            ;
        }
        let need64: u64 = 2 * (width as u64) * (height as u64);
        if need64 > (n as u64) - 64 {
            return Err(StiError::Io("buffer ends inside the 16-bit pixel data".to_string()));
        }
        let need = need64 as usize;
        let raw_slice = slice_subrange(data, 64, 64 + need);
        let image = StiImage {
            header: None,
            raw_data: slice_to_vec(raw_slice),
            decompressed_data: Some(slice_to_vec(raw_slice)),
            width,
            height,
        };
        sti_file.images.push(image);
        proof {
            let h = old(sti_file)@.header;
            let m = spec_parse_16bit(data@, h)->Ok_0;
            assert(sti_file@.images =~= m.images);
            assert(sti_file@ == m);
        }
        Ok(())
    }

    /// Reads the body of an indexed file into the skeleton container
    /// holding its decoded header: the 768-byte palette, `num_images`
    /// sub-headers, each image's payload (decompressed when the run-length
    /// flag is set), and the trailing animation records.
    fn parse_8bit_file(data: &[u8], sti_file: &mut StiFile) -> (r: StiResult<()>)
        requires
            old(sti_file)@.palette is None,
            old(sti_file)@.images == Seq::<ImageModel>::empty(),
            old(sti_file)@.animation_data == Seq::<AnimModel>::empty(),
        ensures
            match r {
                Ok(()) => spec_parse_8bit(data@, old(sti_file)@.header) == Ok::<
                    FileModel,
                    StiErrorKind,
                >(final(sti_file)@),
                Err(e) => spec_parse_8bit(data@, old(sti_file)@.header) == Err::<
                    FileModel,
                    StiErrorKind,
                >(e.kind()),
            },
    {
        let ghost d = data@;
        let ghost h = old(sti_file)@.header;
        let n = data.len();
        // Palette: 256 RGB triplets.
        if n < 832 {
            return Err(StiError::Io("buffer ends inside the palette".to_string()));
        }
        let mut palette: StiPalette = Vec::new();
        let mut i: usize = 0;
        while i < 256
            invariant
                i <= 256,
                n == d.len(),
                d == data@,
                n >= 832,
                palette@.len() == i,
                forall|j: int, k: int|
                    0 <= j < i && 0 <= k < 3 ==> palette@[j]@[k] == d[64 + 3 * j + k],
            decreases 256 - i,
        {
            let base = 64 + 3 * i;
            let entry: [u8; 3] = [data[base], data[base + 1], data[base + 2]];
            palette.push(entry);
            i = i + 1;
        }
        proof {
            assert(spec_palette_bytes(palette@) =~= d.subrange(64, 832)) by {
                assert(spec_palette_bytes(palette@).len() == 768);
                assert forall|e: int| 0 <= e < 768 implies spec_palette_bytes(palette@)[e] == d[64
                    + e] by {
                    let j = e / 3;
                    let k = e % 3;
                    assert(e == 3 * j + k && 0 <= j < 256 && 0 <= k < 3) by (nonlinear_arith)
                        requires
                            0 <= e < 768,
                            j == e / 3,
                            k == e % 3,
                    ;
                    assert(palette@[j]@[k] == d[64 + 3 * j + k]);
                }
            }
        }
        // Sub-image headers: 16 bytes each.
        let num_images = sti_file.header.num_images as usize;
        let ghost subs_spec = Seq::new(num_images as nat, |i: int| spec_sub_at(d, 832 + 16 * i));
        if n < 832 + 16 * num_images {
            return Err(StiError::Io("buffer ends inside the sub-image headers".to_string()));
        }
        let mut subs: Vec<StiSubImageHeader> = Vec::new();
        let mut i: usize = 0;
        while i < num_images
            invariant
                i <= num_images,
                d == data@,
                n == d.len(),
                n >= 832 + 16 * num_images,
                subs_spec == Seq::new(num_images as nat, |i: int| spec_sub_at(d, 832 + 16 * i)),
                subs@.len() == i,
                forall|j: int| 0 <= j < i ==> subs@[j] == subs_spec[j],
            decreases num_images - i,
        {
            let sh = Self::parse_sub_image_header(data, 832 + 16 * i);
            subs.push(sh);
            i = i + 1;
        }
        proof {
            assert(subs@ =~= subs_spec);
        }
        // Image payloads, in sub-header order.
        let rle = sti_file.header.flags.etrle_compressed;
        let ghost pos0 = 832 + 16 * (num_images as int);
        let mut images: Vec<StiImage> = Vec::new();
        let mut pos: usize = 832 + 16 * num_images;
        let mut i: usize = 0;
        proof {
            assert(Seq::<ImageModel>::empty() + spec_parse_images(d, pos0, subs_spec, 0, rle)->Ok_0
                =~= spec_parse_images(d, pos0, subs_spec, 0, rle)->Ok_0);
            assert(images@.map_values(|im: StiImage| im@) =~= Seq::<ImageModel>::empty());
        }
        while i < num_images
            invariant
                i <= num_images,
                d == data@,
                n == d.len(),
                pos <= n,
                h == old(sti_file)@.header,
                num_images == h.num_images,
                rle == h.flags.etrle_compressed,
                n >= 832 + 16 * num_images,
                pos0 == 832 + 16 * (num_images as int),
                subs_spec == Seq::new(num_images as nat, |i: int| spec_sub_at(d, 832 + 16 * i)),
                subs@ == subs_spec,
                subs@.len() == num_images,
                images@.len() == i,
                pos as int == pos0 + sizes_total(subs_spec, 0) - sizes_total(subs_spec, i as int),
                spec_parse_images(d, pos0, subs_spec, 0, rle) == prepend_images(
                    images@.map_values(|im: StiImage| im@),
                    spec_parse_images(d, pos as int, subs_spec, i as int, rle),
                ),
            decreases num_images - i,
        {
            let ghost pre = images@.map_values(|im: StiImage| im@);
            let ghost posg = pos as int;
            let sh = subs[i];
            let sz = sh.data_size as usize;
            if sz > n - pos {
                proof {
                    assert(spec_parse_images(d, posg, subs_spec, i as int, rle) == Err::<
                        Seq<ImageModel>,
                        StiErrorKind,
                    >(StiErrorKind::Io));
                    assert(spec_parse_8bit(d, h) == Err::<FileModel, StiErrorKind>(
                        StiErrorKind::Io,
                    ));
                }
                return Err(StiError::Io("buffer ends inside an image payload".to_string()));
            }
            let raw_slice = slice_subrange(data, pos, pos + sz);
            let ghost raw = d.subrange(posg, posg + sz);
            let image: StiImage;
            if rle {
                let decoder = EtrleDecoder::new(sh.width, sh.height);
                match decoder.decompress(raw_slice) {
                    Ok(dec) => {
                        image = StiImage {
                            header: Some(sh),
                            raw_data: slice_to_vec(raw_slice),
                            decompressed_data: Some(dec),
                            width: sh.width,
                            height: sh.height,
                        };
                    },
                    Err(e) => {
                        proof {
                            assert(spec_parse_images(d, posg, subs_spec, i as int, rle) == Err::<
                                Seq<ImageModel>,
                                StiErrorKind,
                            >(StiErrorKind::Decompression));
                            assert(spec_parse_8bit(d, h) == Err::<FileModel, StiErrorKind>(
                                StiErrorKind::Decompression,
                            ));
                        }
                        return Err(e);
                    },
                }
            } else {
                image = StiImage {
                    header: Some(sh),
                    raw_data: slice_to_vec(raw_slice),
                    decompressed_data: None,
                    width: sh.width,
                    height: sh.height,
                };
            }
            let ghost m = image@;
            images.push(image);
            pos = pos + sz;
            i = i + 1;
            proof {
                assert(images@.map_values(|im: StiImage| im@) =~= pre + seq![m]);
                let tail_res = spec_parse_images(d, pos as int, subs_spec, i as int, rle);
                assert(spec_parse_images(d, posg, subs_spec, i - 1, rle) == match tail_res {
                    Err(k) => Err(k),
                    Ok(rest) => Ok(seq![m] + rest),
                });
                if tail_res is Ok {
                    assert(pre + (seq![m] + tail_res->Ok_0) =~= (pre + seq![m]) + tail_res->Ok_0);
                }
            }
        }
        proof {
            assert(spec_parse_images(d, pos as int, subs_spec, num_images as int, rle) == Ok::<
                Seq<ImageModel>,
                StiErrorKind,
            >(Seq::empty()));
            assert(images@.map_values(|im: StiImage| im@) + Seq::<ImageModel>::empty()
                =~= images@.map_values(|im: StiImage| im@));
            assert(spec_parse_images(d, pos0, subs_spec, 0, rle) == Ok::<
                Seq<ImageModel>,
                StiErrorKind,
            >(images@.map_values(|im: StiImage| im@)));
        }
        // Animation records: 16 bytes each, present only with app data.
        let app_data_size = sti_file.header.app_data_size;
        let ghost apos = pos as int;
        let mut anims: Vec<StiAnimationData> = Vec::new();
        if app_data_size > 0 {
            let cnt = (app_data_size / 16) as usize;
            let mut j: usize = 0;
            while j < cnt
                invariant
                    j <= cnt,
                    d == data@,
                    n == d.len(),
                    pos <= n,
                    h == old(sti_file)@.header,
                    num_images == h.num_images,
                    rle == h.flags.etrle_compressed,
                    n >= 832 + 16 * num_images,
                    pos0 == 832 + 16 * (num_images as int),
                    subs_spec == Seq::new(num_images as nat, |i: int| spec_sub_at(d, 832 + 16 * i)),
                    app_data_size == h.app_data_size,
                    app_data_size > 0,
                    cnt == (h.app_data_size / 16) as usize,
                    apos == pos0 + sizes_total(subs_spec, 0),
                    spec_parse_images(d, pos0, subs_spec, 0, rle) == Ok::<
                        Seq<ImageModel>,
                        StiErrorKind,
                    >(images@.map_values(|im: StiImage| im@)),
                    pos as int == apos + 16 * j,
                    anims@.len() == j,
                    forall|k: int| 0 <= k < j ==> anims@[k]@ == spec_anim_at(d, apos + 16 * k),
                decreases cnt - j,
            {
                if n - pos < 16 {
                    proof {
                        assert(apos + 16 * j + 16 <= apos + 16 * (cnt as int));
                        assert(spec_parse_8bit(d, h) == Err::<FileModel, StiErrorKind>(
                            StiErrorKind::Io,
                        ));
                    }
                    return Err(
                        StiError::Io("buffer ends inside the animation records".to_string()),
                    );
                }
                let rec = StiAnimationData {
                    unknown1: [
                        data[pos],
                        data[pos + 1],
                        data[pos + 2],
                        data[pos + 3],
                        data[pos + 4],
                        data[pos + 5],
                        data[pos + 6],
                        data[pos + 7],
                    ],
                    frame_count: data[pos + 8],
                    unknown2: data[pos + 9],
                    unknown3: [
                        data[pos + 10],
                        data[pos + 11],
                        data[pos + 12],
                        data[pos + 13],
                        data[pos + 14],
                        data[pos + 15],
                    ],
                };
                proof {
                    assert(rec@.unknown1 =~= d.subrange(pos as int, pos as int + 8));
                    assert(rec@.unknown3 =~= d.subrange(pos as int + 10, pos as int + 16));
                }
                anims.push(rec);
                pos = pos + 16;
                j = j + 1;
            }
            proof {
                assert(anims@.map_values(|a: StiAnimationData| a@) =~= Seq::new(
                    (app_data_size / 16) as nat,
                    |i: int| spec_anim_at(d, apos + 16 * i),
                ));
            }
        }
        sti_file.palette = Some(palette);
        sti_file.images = images;
        sti_file.animation_data = anims;
        proof {
            if app_data_size == 0 {
                assert(sti_file@.animation_data =~= Seq::<AnimModel>::empty());
            }
            let m = spec_parse_8bit(d, h)->Ok_0;
            assert(sti_file@ == m);
        }
        Ok(())
    }

    /// Decodes the 16-byte sub-image header at offset `off`.
    fn parse_sub_image_header(data: &[u8], off: usize) -> (r: StiSubImageHeader)
        requires
            off + 16 <= data@.len(),
        ensures
            r == spec_sub_at(data@, off as int),
    {
        let n = data.len();
        proof {
            assert(off + 16 <= n);
        }
        StiSubImageHeader {
            data_offset: read_u32_at(data, off),
            data_size: read_u32_at(data, off + 4),
            offset_x: read_i16_at(data, off + 8),
            offset_y: read_i16_at(data, off + 10),
            height: read_u16_at(data, off + 12),
            width: read_u16_at(data, off + 14),
        }
    }

    /// Encodes a whole container into its exact on-disk byte image: the
    /// 64-byte header, then either the 16-bit pixel payload or the
    /// palette, sub-headers, payloads and animation records. Fails with a
    /// format error when an indexed file lacks its palette or a complete
    /// set of sub-headers, when the palette is not 256 colours, or when a
    /// 16-bit file has no image; with an unsupported-format error when the
    /// flags select neither layout.
    pub fn write(sti_file: &StiFile) -> (r: StiResult<Vec<u8>>)
        ensures
            match r {
                Ok(v) => spec_write(sti_file@) == Ok::<Seq<u8>, StiErrorKind>(v@),
                Err(e) => spec_write(sti_file@) == Err::<Seq<u8>, StiErrorKind>(e.kind()),
            },
    {
        let mut data = Self::write_header(&sti_file.header);
        if sti_file.is_8bit() {
            match Self::write_8bit_file(&mut data, sti_file) {
                Ok(()) => {},
                Err(e) => {
                    return Err(e);
                },
            }
        } else if sti_file.is_16bit() {
            match Self::write_16bit_file(&mut data, sti_file) {
                Ok(()) => {},
                Err(e) => {
                    return Err(e);
                },
            }
        } else {
            return Err(StiError::UnsupportedFormat("Unknown STI format for writing".to_string()));
        }
        Ok(data)
    }

    /// Encodes the body of an indexed file after the header: palette,
    /// sub-headers, payloads, animation records.
    fn write_8bit_file(out: &mut Vec<u8>, sti_file: &StiFile) -> (r: StiResult<()>)
        ensures
            match r {
                Ok(()) => spec_write_body_8(sti_file@) matches Ok(b) && final(out)@ == old(out)@
                    + b,
                Err(e) => spec_write_body_8(sti_file@) == Err::<Seq<u8>, StiErrorKind>(e.kind()),
            },
    {
        let ghost m = sti_file@;
        let ghost start = out@;
        let palette = match &sti_file.palette {
            Some(p) => p,
            None => {
                return Err(StiError::InvalidFormat("8-bit STI file requires palette".to_string()));
            },
        };
        if palette.len() != 256 {
            return Err(
                StiError::InvalidFormat("8-bit STI palette must hold 256 colours".to_string()),
            );
        }
        let mut i: usize = 0;
        while i < 256
            invariant
                i <= 256,
                palette@.len() == 256,
                out@.len() == start.len() + 3 * i,
                out@.subrange(0, start.len() as int) == start,
                forall|j: int, k: int|
                    0 <= j < i && 0 <= k < 3 ==> out@[start.len() + 3 * j + k] == palette@[j]@[k],
            decreases 256 - i,
        {
            let entry = palette[i];
            out.push(entry[0]);
            out.push(entry[1]);
            out.push(entry[2]);
            i = i + 1;
            proof {
                assert(out@.subrange(0, start.len() as int) =~= start);
            }
        }
        proof {
            assert forall|e: int| 0 <= e < 768 implies spec_palette_bytes(palette@)[e] == out@[
                start.len() + e] by {
                let j = e / 3;
                let k = e % 3;
                assert(e == 3 * j + k && 0 <= j < 256 && 0 <= k < 3) by (nonlinear_arith)
                    requires
                        0 <= e < 768,
                        j == e / 3,
                        k == e % 3,
                ;
                assert(out@[start.len() + 3 * j + k] == palette@[j]@[k]);
            }
            assert(out@ =~= start + m.palette->Some_0);
        }
        // Sub-image headers, in file order.
        let ghost s1 = out@;
        let mut i: usize = 0;
        proof {
            assert(s1 + Seq::<u8>::empty() =~= s1);
        }
        while i < sti_file.images.len()
            invariant
                i <= sti_file.images.len(),
                m == sti_file@,
                forall|j: int| 0 <= j < i ==> m.images[j].header is Some,
                s1 + subheaders_bytes(m.images, 0) == out@ + subheaders_bytes(m.images, i as int),
            decreases sti_file.images.len() - i,
        {
            match &sti_file.images[i].header {
                Some(sh) => {
                    Self::write_sub_image_header(out, sh);
                },
                None => {
                    return Err(
                        StiError::InvalidFormat(
                            "8-bit STI images require sub-image headers".to_string(),
                        ),
                    );
                },
            }
            i = i + 1;
            proof {
                assert(s1 + subheaders_bytes(m.images, 0) =~= out@ + subheaders_bytes(
                    m.images,
                    i as int,
                ));
            }
        }
        proof {
            assert(out@ + Seq::<u8>::empty() =~= out@);
            assert(out@ == s1 + subheaders_bytes(m.images, 0));
        }
        // Image payloads, in the same order.
        let ghost s2 = out@;
        let mut i: usize = 0;
        proof {
            assert(s2 + Seq::<u8>::empty() =~= s2);
        }
        while i < sti_file.images.len()
            invariant
                i <= sti_file.images.len(),
                m == sti_file@,
                s2 + payload_bytes(m.images, 0) == out@ + payload_bytes(m.images, i as int),
            decreases sti_file.images.len() - i,
        {
            append_bytes(out, &sti_file.images[i].raw_data);
            i = i + 1;
            proof {
                assert(s2 + payload_bytes(m.images, 0) =~= out@ + payload_bytes(
                    m.images,
                    i as int,
                ));
            }
        }
        proof {
            assert(out@ + Seq::<u8>::empty() =~= out@);
            assert(out@ == s2 + payload_bytes(m.images, 0));
        }
        // Animation records.
        let ghost s3 = out@;
        let mut i: usize = 0;
        proof {
            assert(s3 + Seq::<u8>::empty() =~= s3);
        }
        while i < sti_file.animation_data.len()
            invariant
                i <= sti_file.animation_data.len(),
                m == sti_file@,
                s3 + anims_bytes(m.animation_data, 0) == out@ + anims_bytes(
                    m.animation_data,
                    i as int,
                ),
            decreases sti_file.animation_data.len() - i,
        {
            let ghost before_rec = out@;
            let rec = &sti_file.animation_data[i];
            out.push(rec.unknown1[0]);
            out.push(rec.unknown1[1]);
            out.push(rec.unknown1[2]);
            out.push(rec.unknown1[3]);
            out.push(rec.unknown1[4]);
            out.push(rec.unknown1[5]);
            out.push(rec.unknown1[6]);
            out.push(rec.unknown1[7]);
            out.push(rec.frame_count);
            out.push(rec.unknown2);
            out.push(rec.unknown3[0]);
            out.push(rec.unknown3[1]);
            out.push(rec.unknown3[2]);
            out.push(rec.unknown3[3]);
            out.push(rec.unknown3[4]);
            out.push(rec.unknown3[5]);
            i = i + 1;
            proof {
                assert(out@ =~= before_rec + anim_bytes(m.animation_data[i - 1]));
                assert(s3 + anims_bytes(m.animation_data, 0) =~= out@ + anims_bytes(
                    m.animation_data,
                    i as int,
                ));
            }
        }
        proof {
            assert(out@ + Seq::<u8>::empty() =~= out@);
            assert(out@ == s3 + anims_bytes(m.animation_data, 0));
            assert(out@ =~= start + (m.palette->Some_0 + subheaders_bytes(m.images, 0)
                + payload_bytes(m.images, 0) + anims_bytes(m.animation_data, 0)));
        }
        Ok(())
    }

    /// Encodes the body of a 16-bit file after the header: the first
    /// image's raw pixel bytes.
    fn write_16bit_file(out: &mut Vec<u8>, sti_file: &StiFile) -> (r: StiResult<()>)
        ensures
            match r {
                Ok(()) => sti_file@.images.len() > 0 && final(out)@ == old(out)@
                    + sti_file@.images[0].raw_data,
                Err(e) => sti_file@.images.len() == 0 && e.kind() == StiErrorKind::InvalidFormat,
            },
    {
        if sti_file.images.len() == 0 {
            return Err(
                StiError::InvalidFormat("16-bit STI file requires at least one image".to_string()),
            );
        }
        append_bytes(out, &sti_file.images[0].raw_data);
        Ok(())
    }

    /// Encodes a sub-image header onto the output stream.
    fn write_sub_image_header(out: &mut Vec<u8>, sh: &StiSubImageHeader)
        ensures
            final(out)@ == old(out)@ + sub_bytes(*sh),
    {
        push_u32_le(out, sh.data_offset);
        push_u32_le(out, sh.data_size);
        push_i16_le(out, sh.offset_x);
        push_i16_le(out, sh.offset_y);
        push_u16_le(out, sh.height);
        push_u16_le(out, sh.width);
        proof {
            assert(out@ =~= old(out)@ + sub_bytes(*sh));
        }
    }
}

} // verus!
