//! AVF images and animations: a header, an index of frames, and frames of
//! 15-bit pixels, each compressed with LZSS and then enciphered by adding to
//! each byte its position within the frame.

use vstd::prelude::*;
use vstd::utf8::valid_utf8;
use crate::byte_reader::{copy_range, le16_at, le32_at, read_u16_le, read_u32_le, read_u8, starts_with};
use crate::image::{encode_png, png_rgb8_file, png_samples};
use crate::lzss::{decode_lzss, lzss_decoded};
use crate::rgb::{gen_rgb_array, rgb_from_555};
use crate::text::is_utf8;

verus! {

/// The text an AVF file begins with.
pub open spec fn avf_magic() -> Seq<u8> {
    seq![0x41, 0x56, 0x46, 0x20, 0x57, 0x61, 0x79, 0x6E, 0x65, 0x53, 0x69, 0x6B, 0x65, 0x73, 0x00]
}

/// The text an AVF file begins with: "AVF WayneSikes" and a zero byte.
pub fn avf_magic_bytes() -> (m: Vec<u8>)
    ensures
        m@ == avf_magic(),
{
    let m: Vec<u8> = vec![0x41, 0x56, 0x46, 0x20, 0x57, 0x61, 0x79, 0x6E, 0x65, 0x53, 0x69, 0x6B, 0x65, 0x73, 0x00];
    assert(m@ =~= avf_magic());
    m
}

/// Position of the first entry of the frame index.
pub const INDEX_START: usize = 0x21;

/// Size of one entry of the frame index.
pub const INDEX_ENTRY_SIZE: usize = 19;

/// One entry of the frame index.
#[derive(Debug)]
pub struct FrameInfo {
    pub frame_number: u16,
    pub frame_offset: u32,
    pub frame_size: u32,
    pub num_pixels: u32,
    pub frame_type: u8,
    pub tail_data: u32,
}

/// Position of entry `n` of the frame index.
pub open spec fn entry_at(n: int) -> int {
    INDEX_START + INDEX_ENTRY_SIZE * n
}

/// Whether `info` holds what entry `n` of the frame index of `d` says.
pub open spec fn frame_info_matches(info: FrameInfo, d: Seq<u8>, n: int) -> bool {
    let hr = entry_at(n);
    &&& info.frame_number as int == le16_at(d, hr)
    &&& info.frame_offset as int == le32_at(d, hr + 0x02)
    &&& info.frame_size as int == le32_at(d, hr + 0x06)
    &&& info.num_pixels as int == le32_at(d, hr + 0x0A)
    &&& info.frame_type == d[hr + 0x0E]
    &&& info.tail_data as int == le32_at(d, hr + 0x0F)
}

/// Where frame `n` of `d` starts and how many bytes it has, as its index entry says.
pub open spec fn frame_span(d: Seq<u8>, n: int) -> (int, int) {
    (le32_at(d, entry_at(n) + 0x02), le32_at(d, entry_at(n) + 0x06))
}

/// `s` deciphered: each byte less its position, modulo 256.
pub open spec fn decipher(s: Seq<u8>) -> Seq<u8> {
    Seq::new(s.len(), |n: int| ((s[n] as int - n % 256) % 256) as u8)
}

/// The bytes `data[off..off + size]`, deciphered.
pub fn decipher_span(data: &[u8], off: usize, size: usize) -> (r: Vec<u8>)
    requires
        off + size <= data@.len(),
    ensures
        r@ == decipher(data@.subrange(off as int, off + size)),
{
    assert(data@.len() == data.len());
    let mut r = copy_range(data, off, off + size);
    let ghost span = r@;
    let mut k: usize = 0;
    while k < size
        invariant
            off + size <= data@.len(),
            span == data@.subrange(off as int, off + size),
            r@.len() == size,
            k <= size,
            forall|j: int| 0 <= j < size ==> #[trigger] r@[j] == if j < k { decipher(span)[j] } else { span[j] },
        decreases size - k,
    {
        let b = r[k];
        let m = (k % 256) as u8;
        let v = b.wrapping_sub(m);
        proof {
            assert(b == span[k as int]);
            assert(m as int == k as int % 256);
            let x = b as int - m as int;
            assert(x % 256 == if x >= 0 { x } else { x + 256 });
        }
        r.set(k, v);
        k += 1;
    }
    assert(r@ =~= decipher(span));
    r
}

/// What becomes of one frame.
pub enum FrameOutcome {
    /// The frame decompresses to nothing; no image is written.
    Empty,
    /// The PNG file of the frame, and whether its image data was accepted.
    Png(Seq<u8>, bool),
    /// The frame runs past the end of the file.
    OutOfRange,
    /// The frame has pixels but the image has a side of zero, so no PNG file can be begun.
    ZeroSide,
}

/// What becomes of one frame; `OutOfRange` and `ZeroSide` end the conversion.
#[derive(Debug)]
pub enum AvfFrame {
    Empty,
    Png(Vec<u8>, bool),
    OutOfRange,
    ZeroSide,
}

impl View for AvfFrame {
    type V = FrameOutcome;

    open spec fn view(&self) -> FrameOutcome {
        match self {
            AvfFrame::Empty => FrameOutcome::Empty,
            AvfFrame::Png(file, complete) => FrameOutcome::Png(file@, *complete),
            AvfFrame::OutOfRange => FrameOutcome::OutOfRange,
            AvfFrame::ZeroSide => FrameOutcome::ZeroSide,
        }
    }
}

/// Whether an outcome ends the conversion.
pub open spec fn is_failure(o: FrameOutcome) -> bool {
    o is OutOfRange || o is ZeroSide
}

/// The decompressed bytes of frame `f` of `d`: its span of the file,
/// deciphered.
pub open spec fn frame_decoded(d: Seq<u8>, f: int) -> Seq<u8> {
    let (off, size) = frame_span(d, f);
    lzss_decoded(decipher(d.subrange(off, off + size)))
}

/// The pixels, as RGB triples, of frame `f` of `d`.
pub open spec fn frame_rgb(d: Seq<u8>, f: int) -> Seq<u8> {
    rgb_from_555(frame_decoded(d, f))
}

/// What becomes of frame `f` of `d`, for an image of `width` by `height` pixels.
pub open spec fn frame_outcome(d: Seq<u8>, f: int, width: u16, height: u16) -> FrameOutcome {
    let (off, size) = frame_span(d, f);
    if off + size > d.len() {
        FrameOutcome::OutOfRange
    } else if frame_decoded(d, f).len() == 0 {
        FrameOutcome::Empty
    } else if width == 0 || height == 0 {
        FrameOutcome::ZeroSide
    } else {
        FrameOutcome::Png(
            png_rgb8_file(png_samples(frame_rgb(d, f), width, height), width as u32, height as u32),
            frame_rgb(d, f).len() <= width as int * height as int * 3,
        )
    }
}

/// What becomes of frames `f..n` of `d`, up to and including the first that
/// ends the conversion.
pub open spec fn frame_outcomes(d: Seq<u8>, f: int, n: int, width: u16, height: u16) -> Seq<FrameOutcome>
    decreases n - f,
{
    if f >= n {
        Seq::empty()
    } else if is_failure(frame_outcome(d, f, width, height)) {
        seq![frame_outcome(d, f, width, height)]
    } else {
        seq![frame_outcome(d, f, width, height)] + frame_outcomes(d, f + 1, n, width, height)
    }
}

/// Why an AVF file cannot be converted.
#[derive(Debug)]
pub enum AvfError {
    /// The file does not begin with the AVF text; it is passed over.
    IncorrectHeader,
    /// The first fifteen bytes are not UTF-8 text, which stops the conversion.
    HeaderNotText,
    /// The file ends within its header.
    TruncatedHeader,
    /// The file ends within its frame index.
    TruncatedIndex,
}

/// A converted AVF file.
#[derive(Debug)]
pub struct AvfImage {
    pub number_frames: u16,
    pub frame_width: u16,
    pub frame_height: u16,
    /// Byte 0x1C differs from 0x42, which suggests a compressed file.
    pub may_be_compressed: bool,
    pub frames_info: Vec<FrameInfo>,
    pub frames: Vec<AvfFrame>,
}

/// Whether `d` begins with the AVF text.
pub open spec fn avf_header_ok(d: Seq<u8>) -> bool {
    d.len() > 15 && d.subrange(0, 15) == avf_magic()
}

/// Whether `d` holds its header and every entry of its frame index.
pub open spec fn avf_index_complete(d: Seq<u8>) -> bool {
    &&& d.len() > 0x1C
    &&& entry_at(le16_at(d, 0x15)) <= d.len()
}

/// Converts an AVF file into one PNG file per frame. Each frame is its own
/// span of the file, deciphered and decompressed; frames are converted in
/// order, up to the first that runs past the file or that has pixels while
/// the image has a side of zero.
pub fn avf_to_png(data: Vec<u8>) -> (res: Result<AvfImage, AvfError>)
    ensures
        match res {
            Err(AvfError::IncorrectHeader) => !avf_header_ok(data@) && (data@.len() <= 15 || valid_utf8(
                data@.subrange(0, 15),
            )),
            Err(AvfError::HeaderNotText) => data@.len() > 15 && !valid_utf8(data@.subrange(0, 15)),
            Err(AvfError::TruncatedHeader) => avf_header_ok(data@) && data@.len() <= 0x1C,
            Err(AvfError::TruncatedIndex) => avf_header_ok(data@) && data@.len() > 0x1C
                && !avf_index_complete(data@),
            Ok(img) => {
                &&& avf_header_ok(data@)
                &&& avf_index_complete(data@)
                &&& img.number_frames as int == le16_at(data@, 0x15)
                &&& img.frame_width as int == le16_at(data@, 0x17)
                &&& img.frame_height as int == le16_at(data@, 0x19)
                &&& img.may_be_compressed == (data@[0x1C] != 0x42)
                &&& img.frames_info@.len() == img.number_frames
                &&& forall|n: int|
                    0 <= n < img.number_frames ==> frame_info_matches(#[trigger] img.frames_info@[n], data@, n)
                &&& img.frames@.map_values(|fr: AvfFrame| fr@) == frame_outcomes(
                    data@,
                    0,
                    img.number_frames as int,
                    img.frame_width,
                    img.frame_height,
                )
            },
        },
{
    let magic = avf_magic_bytes();
    if data.len() <= 15 {
        return Err(AvfError::IncorrectHeader);
    }
    let head = copy_range(&data, 0, 15);
    if !is_utf8(&head) {
        return Err(AvfError::HeaderNotText);
    }
    if !starts_with(&data, &magic) {
        return Err(AvfError::IncorrectHeader);
    }
    if data.len() <= 0x1C {
        return Err(AvfError::TruncatedHeader);
    }
    let number_frames: u16 = read_u16_le(&data, 0x15);
    let frame_width: u16 = read_u16_le(&data, 0x17);
    let frame_height: u16 = read_u16_le(&data, 0x19);
    let may_be_compressed = data[0x1C] != 0x42;
    if data.len() < INDEX_START + INDEX_ENTRY_SIZE * (number_frames as usize) {
        return Err(AvfError::TruncatedIndex);
    }
    let ghost d = data@;
    let mut frames_info: Vec<FrameInfo> = Vec::new();
    let mut hr: usize = INDEX_START;
    let mut n: u16 = 0;
    while n < number_frames
        invariant
            data@ == d,
            hr == entry_at(n as int),
            entry_at(number_frames as int) <= d.len(),
            n <= number_frames,
            frames_info@.len() == n,
            forall|k: int| 0 <= k < n ==> frame_info_matches(#[trigger] frames_info@[k], d, k),
        decreases number_frames - n,
    {
        frames_info.push(
            FrameInfo {
                frame_number: read_u16_le(&data, hr),
                frame_offset: read_u32_le(&data, hr + 0x02),
                frame_size: read_u32_le(&data, hr + 0x06),
                num_pixels: read_u32_le(&data, hr + 0x0A),
                frame_type: read_u8(&data, hr + 0x0E),
                tail_data: read_u32_le(&data, hr + 0x0F),
            },
        );
        hr += INDEX_ENTRY_SIZE;
        n += 1;
    }
    let mut frames: Vec<AvfFrame> = Vec::new();
    let mut f: u16 = 0;
    let mut stopped = false;
    while f < number_frames && !stopped
        invariant
            data@ == d,
            f <= number_frames,
            frames_info@.len() == number_frames,
            forall|k: int| 0 <= k < number_frames ==> frame_info_matches(#[trigger] frames_info@[k], d, k),
            stopped ==> frames@.map_values(|fr: AvfFrame| fr@) == frame_outcomes(
                d,
                0,
                number_frames as int,
                frame_width,
                frame_height,
            ),
            !stopped ==> frame_outcomes(d, 0, number_frames as int, frame_width, frame_height)
                == frames@.map_values(|fr: AvfFrame| fr@) + frame_outcomes(
                d,
                f as int,
                number_frames as int,
                frame_width,
                frame_height,
            ),
        decreases number_frames - f,
    {
        let ghost before = frames@.map_values(|fr: AvfFrame| fr@);
        let ghost rest = frame_outcomes(d, f as int, number_frames as int, frame_width, frame_height);
        let ghost outcome = frame_outcome(d, f as int, frame_width, frame_height);
        proof {
            assert(frame_info_matches(frames_info@[f as int], d, f as int));
        }
        let off = frames_info[f as usize].frame_offset as usize;
        let size = frames_info[f as usize].frame_size as usize;
        let frame: AvfFrame;
        if off > data.len() || size > data.len() - off {
            frame = AvfFrame::OutOfRange;
            stopped = true;
        } else {
            let mut slice = decipher_span(&data, off, size);
            proof {
                assert(frame_span(d, f as int) == (off as int, size as int));
            }
            let decoded = decode_lzss(slice.as_mut_slice());
            if decoded.len() == 0 {
                frame = AvfFrame::Empty;
            } else {
                let mut rgb = gen_rgb_array(&decoded);
                match encode_png(&mut rgb, frame_width, frame_height) {
                    Some((file, complete)) => {
                        frame = AvfFrame::Png(file, complete);
                    },
                    None => {
                        frame = AvfFrame::ZeroSide;
                        stopped = true;
                    },
                }
            }
        }
        proof {
            assert(frame@ == outcome);
            assert(is_failure(outcome) == stopped);
        }
        frames.push(frame);
        f += 1;
        proof {
            assert(frames@.map_values(|fr: AvfFrame| fr@) =~= before.push(outcome));
            if stopped {
                assert(rest == seq![outcome]);
            } else {
                assert(rest == seq![outcome] + frame_outcomes(d, f as int, number_frames as int, frame_width, frame_height));
            }
        }
    }
    proof {
        if !stopped {
            assert(frame_outcomes(d, f as int, number_frames as int, frame_width, frame_height) =~= Seq::<FrameOutcome>::empty());
        }
    }
    Ok(AvfImage { number_frames, frame_width, frame_height, may_be_compressed, frames_info, frames })
}

proof fn lemma_outcomes_shape(d: Seq<u8>, a: int, n: int, w: u16, h: u16)
    requires
        0 <= a <= n,
    ensures
        ({
            let o = frame_outcomes(d, a, n, w, h);
            &&& o.len() <= n - a
            &&& forall|k: int| 0 <= k < o.len() ==> #[trigger] o[k] == frame_outcome(d, a + k, w, h)
            &&& forall|k: int| 0 <= k < o.len() - 1 ==> (#[trigger] o[k] is Empty || o[k] is Png)
            &&& o.len() < n - a ==> o.len() > 0 && (o.last() is OutOfRange || o.last() is ZeroSide)
        }),
    decreases n - a,
{
    if a < n {
        lemma_outcomes_shape(d, a + 1, n, w, h);
        let o = frame_outcomes(d, a, n, w, h);
        let first = frame_outcome(d, a, w, h);
        let rest = frame_outcomes(d, a + 1, n, w, h);
        if !is_failure(first) {
            assert(o == seq![first] + rest);
            assert forall|k: int| 0 <= k < o.len() implies #[trigger] o[k] == frame_outcome(d, a + k, w, h) by {
                if k > 0 {
                    assert(o[k] == rest[k - 1]);
                }
            }
            assert forall|k: int| 0 <= k < o.len() - 1 implies (#[trigger] o[k] is Empty || o[k] is Png) by {
                if k > 0 {
                    assert(o[k] == rest[k - 1]);
                }
            }
            if o.len() < n - a {
                assert(o.last() == rest.last());
            }
        }
    }
}

/// The conversion of an AVF file goes through its frames in order and stops
/// only at a frame that runs past the file or that has pixels while the image
/// has a side of zero: every outcome but the last is an image or an empty
/// frame, and where fewer outcomes than frames come out, the last is one of
/// those two failures.
pub proof fn lemma_avf_stops_only_on_failure(d: Seq<u8>, n: int, w: u16, h: u16)
    requires
        0 <= n,
    ensures
        ({
            let o = frame_outcomes(d, 0, n, w, h);
            &&& o.len() <= n
            &&& forall|k: int| 0 <= k < o.len() - 1 ==> (#[trigger] o[k] is Empty || o[k] is Png)
            &&& o.len() < n ==> o.len() > 0 && (o.last() is OutOfRange || o.last() is ZeroSide)
        }),
{
    lemma_outcomes_shape(d, 0, n, w, h);
}

/// A frame whose span lies within the file and decompresses to nothing gives
/// no image, and the conversion goes on to the next frame.
pub proof fn lemma_empty_frame_goes_on(d: Seq<u8>, f: int, n: int, w: u16, h: u16)
    requires
        0 <= f,
        f + 1 < n,
        frame_outcomes(d, 0, n, w, h).len() > f,
        frame_span(d, f).0 + frame_span(d, f).1 <= d.len(),
        lzss_decoded(decipher(d.subrange(frame_span(d, f).0, frame_span(d, f).0 + frame_span(d, f).1))).len()
            == 0,
    ensures
        frame_outcomes(d, 0, n, w, h)[f] is Empty,
        frame_outcomes(d, 0, n, w, h).len() > f + 1,
{
    lemma_outcomes_shape(d, 0, n, w, h);
    let o = frame_outcomes(d, 0, n, w, h);
    assert(o[f] == frame_outcome(d, f, w, h));
    if o.len() == f + 1 {
        assert(o.last() == o[f]);
    }
}

} // verus!
