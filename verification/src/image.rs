//! Images: pixel conversions and PNG encoding and decoding of RGB images.

use vstd::prelude::*;

pub use crate::rgb::{gen_rgb5_array, gen_rgb_array};

verus! {

/// The bytes of the PNG file that the `png` crate writes for an image of
/// `width` by `height` pixels, 8-bit RGB, from the samples `pixels`.
pub uninterp spec fn png_rgb8_file(pixels: Seq<u8>, width: u32, height: u32) -> Seq<u8>;

/// The width, height and 8-bit samples that the `png` crate decodes from the
/// PNG file `file`, with its default transformations; `None` where it fails.
pub uninterp spec fn png_decoded(file: Seq<u8>) -> Option<(u32, u32, Seq<u8>)>;

/// Writes an 8-bit RGB image with `png::Encoder` into memory: `write_header`,
/// then `write_image_data`, then the writer is dropped, which ends the file.
/// Trusted, from the crate's source: `write_header` refuses exactly a side of
/// zero (8-bit RGB is a valid combination, and writing into a `Vec` cannot
/// fail); `write_image_data` refuses exactly data whose length is not three
/// bytes per pixel, and the file then holds no image data. The bytes are
/// named `png_rgb8_file`; nothing more is stated of them. The sides are kept
/// to 16 bits, where the encoder's row buffers and size product stay small.
#[verifier::external_body]
fn png_encode_rgb8(pixels: &[u8], width: u32, height: u32) -> (res: Option<(Vec<u8>, bool)>)
    requires
        width <= 0xFFFF,
        height <= 0xFFFF,
    ensures
        res is None <==> (width == 0 || height == 0),
        res matches Some((bytes, complete)) ==> bytes@ == png_rgb8_file(pixels@, width, height)
            && (complete <==> pixels@.len() == width as int * height as int * 3),
{
    let mut out: Vec<u8> = Vec::new();
    let mut encoder = png::Encoder::new(&mut out, width, height);
    encoder.set_color(png::ColorType::RGB);
    encoder.set_depth(png::BitDepth::Eight);
    let complete = match encoder.write_header() {
        Ok(mut writer) => writer.write_image_data(pixels).is_ok(),
        Err(_) => return None,
    };
    Some((out, complete))
}

/// Reads a PNG file from memory with `png::Decoder`: `read_info`, then
/// `next_frame` into a buffer of the size that the header calls for.
/// Trusted: the result, or the failure, is named `png_decoded`; and, as the
/// crate's own round-trip tests of 8-bit RGB images show, a file that the
/// encoder wrote from a full image decodes to that image's sides and samples
/// (the default transformations leave 8-bit RGB samples as they are).
#[verifier::external_body]
fn png_decode(file: &[u8]) -> (res: Option<(u32, u32, Vec<u8>)>)
    ensures
        match res {
            Some((w, h, buf)) => png_decoded(file@) == Some((w, h, buf@)),
            None => png_decoded(file@) is None,
        },
        forall|pixels: Seq<u8>, w: u32, h: u32|
            #![trigger png_rgb8_file(pixels, w, h)]
            1 <= w <= 0xFFFF && 1 <= h <= 0xFFFF && pixels.len() == w as int * h as int * 3 && file@
                == png_rgb8_file(pixels, w, h) ==> res is Some && res.unwrap().0 == w && res.unwrap().1 == h
                && res.unwrap().2@ == pixels,
{
    let (info, mut reader) = match png::Decoder::new(file).read_info() {
        Ok(parts) => parts,
        Err(_) => return None,
    };
    let mut buf = vec![0; info.buffer_size()];
    match reader.next_frame(&mut buf) {
        Ok(()) => Some((info.width, info.height, buf)),
        Err(_) => None,
    }
}

/// `pixels` extended with zero bytes up to `len` bytes; unchanged if longer.
pub open spec fn padded_to(pixels: Seq<u8>, len: int) -> Seq<u8> {
    if pixels.len() >= len {
        pixels
    } else {
        pixels + Seq::new((len - pixels.len()) as nat, |i: int| 0u8)
    }
}

/// The samples an image of `width` by `height` pixels is written from:
/// `pixels` padded with black up to three bytes per pixel.
pub open spec fn png_samples(pixels: Seq<u8>, width: u16, height: u16) -> Seq<u8> {
    padded_to(pixels, width as int * height as int * 3)
}

/// Pads `pixels` with zero bytes up to three bytes per pixel, then encodes
/// them as an 8-bit RGB PNG file of `width` by `height` pixels. Gives the file
/// and whether the image data was accepted (it is refused when `pixels` was
/// longer than the image, and the file then holds only its header); `None`
/// when a side is zero, where no file can be begun.
pub fn encode_png(pixels: &mut Vec<u8>, width: u16, height: u16) -> (res: Option<(Vec<u8>, bool)>)
    ensures
        final(pixels)@ == png_samples(old(pixels)@, width, height),
        res is None <==> (width == 0 || height == 0),
        res matches Some((file, complete)) ==> file@ == png_rgb8_file(final(pixels)@, width as u32, height as u32)
            && (complete <==> old(pixels)@.len() <= width as int * height as int * 3),
{
    proof {
        let w = width as int;
        let h = height as int;
        assert(0 <= w * h <= 0xFFFF * 0xFFFF) by (nonlinear_arith)
            requires
                0 <= w <= 0xFFFF,
                0 <= h <= 0xFFFF,
        ;
    }
    let target: u64 = width as u64 * height as u64 * 3;
    let ghost start = pixels@;
    while (pixels.len() as u64) < target
        invariant
            target == width as int * height as int * 3,
            start.len() <= pixels@.len(),
            pixels@.len() <= target || pixels@ == start,
            pixels@ == start + Seq::new((pixels@.len() - start.len()) as nat, |i: int| 0u8),
        decreases target - pixels@.len(),
    {
        pixels.push(0x0);
    }
    proof {
        if start.len() >= target {
            assert(pixels@ =~= start);
        }
        assert(pixels@ =~= png_samples(start, width, height));
    }
    png_encode_rgb8(pixels, width as u32, height as u32)
}

/// Decodes a PNG file into its width and height, cut to 16 bits, and its
/// samples; `None` where the `png` crate fails. A file that `encode_png`
/// wrote completely decodes to the sides and the samples it was written from.
pub fn decode_png(file: &[u8]) -> (res: Option<(u16, u16, Vec<u8>)>)
    ensures
        match res {
            Some((w, h, buf)) => png_decoded(file@) matches Some((fw, fh, fbuf)) && w == fw as u16 && h
                == fh as u16 && buf@ == fbuf,
            None => png_decoded(file@) is None,
        },
        forall|pixels: Seq<u8>, w: u16, h: u16|
            #![trigger png_rgb8_file(pixels, w as u32, h as u32)]
            1 <= w && 1 <= h && pixels.len() == w as int * h as int * 3 && file@ == png_rgb8_file(
                pixels,
                w as u32,
                h as u32,
            ) ==> res is Some && res.unwrap().0 == w && res.unwrap().1 == h && res.unwrap().2@ == pixels,
{
    match png_decode(file) {
        Some((w, h, buf)) => Some((w as u16, h as u16, buf)),
        None => None,
    }
}

} // verus!
