//! Writing AVF files from PNG frames.

use vstd::prelude::*;
use crate::avf::{avf_header_ok, avf_index_complete, avf_magic, avf_magic_bytes, decipher, entry_at, frame_decoded, frame_rgb, frame_span};
use crate::lzss::{lemma_lzss_round_trip, lzss_decoded, DECODER_FILL};
use crate::byte_reader::{le16_at, le32_at};
use crate::image::{decode_png, png_decoded};
use crate::lzss::lzss_encoded;
use crate::lzss_encode::encode_lzss;
use crate::rgb::{gen_rgb5_array, lemma_rgb_round_trip, rgb555_from_rgb, top_five_bits};

verus! {

/// `v` as two little-endian bytes (modulo 2^16).
pub open spec fn le16_bytes(v: int) -> Seq<u8> {
    seq![(v % 256) as u8, ((v / 256) % 256) as u8]
}

/// `v` as four little-endian bytes (modulo 2^32).
pub open spec fn le32_bytes(v: int) -> Seq<u8> {
    seq![(v % 256) as u8, ((v / 256) % 256) as u8, ((v / 65536) % 256) as u8, ((v / 16777216) % 256) as u8]
}

proof fn lemma_cast_u32(x: usize)
    ensures
        (x as u32) as int == (x as int) % 0x1_0000_0000,
{
    assert(((x as u64) % 0x1_0000_0000u64) as u32 == x as u32) by (bit_vector);
    assert((x as u64) as int == x as int);
}

proof fn lemma_cast_u16(x: usize)
    ensures
        (x as u16) as int == (x as int) % 0x10000,
{
    assert(((x as u64) % 0x10000u64) as u16 == x as u16) by (bit_vector);
    assert((x as u64) as int == x as int);
}

proof fn lemma_le16_bytes_mod(v: int)
    requires
        v >= 0,
    ensures
        le16_bytes(v % 0x10000) == le16_bytes(v),
{
    let r = v % 0x10000;
    let q = v / 0x10000;
    vstd::arithmetic::div_mod::lemma_fundamental_div_mod(v, 0x10000);
    assert(v == 0x10000 * q + r);
    assert(0 <= r < 0x10000);
    assert(v % 256 == r % 256) by (nonlinear_arith)
        requires
            v == 0x10000 * q + r,
            0 <= r < 0x10000,
            q >= 0,
    ;
    assert(v / 256 == 256 * q + r / 256) by (nonlinear_arith)
        requires
            v == 0x10000 * q + r,
            0 <= r < 0x10000,
            q >= 0,
    ;
    assert((v / 256) % 256 == (r / 256) % 256) by (nonlinear_arith)
        requires
            v / 256 == 256 * q + r / 256,
            0 <= r / 256 < 256,
            q >= 0,
    ;
    assert(le16_bytes(r) =~= le16_bytes(v));
}

/// Two little-endian bytes read back give the number written.
pub proof fn lemma_le16_bytes_read(v: int)
    requires
        0 <= v <= u16::MAX,
    ensures
        le16_at(le16_bytes(v), 0) == v,
{
}

/// Four little-endian bytes read back give the number written.
pub proof fn lemma_le32_bytes_read(v: int)
    requires
        0 <= v <= u32::MAX,
    ensures
        le32_at(le32_bytes(v), 0) == v,
{
    let b0 = v % 256;
    let b1 = (v / 256) % 256;
    let b2 = (v / 65536) % 256;
    let b3 = (v / 16777216) % 256;
    assert(v == b0 + 256 * b1 + 65536 * b2 + 16777216 * b3);
}

/// Writing back a little-endian 16-bit number read from `d` gives its bytes.
pub proof fn lemma_le16_bytes_of_read(d: Seq<u8>, k: int)
    requires
        0 <= k,
        k + 2 <= d.len(),
    ensures
        le16_bytes(le16_at(d, k)) == d.subrange(k, k + 2),
{
    assert(le16_bytes(le16_at(d, k)) =~= d.subrange(k, k + 2));
}

/// Writing back a little-endian 32-bit number read from `d` gives its bytes.
pub proof fn lemma_le32_bytes_of_read(d: Seq<u8>, k: int)
    requires
        0 <= k,
        k + 4 <= d.len(),
    ensures
        le32_bytes(le32_at(d, k)) == d.subrange(k, k + 4),
{
    let v = le32_at(d, k);
    assert(v % 256 == d[k] as int);
    assert((v / 256) % 256 == d[k + 1] as int);
    assert((v / 65536) % 256 == d[k + 2] as int);
    assert((v / 16777216) % 256 == d[k + 3] as int);
    assert(le32_bytes(le32_at(d, k)) =~= d.subrange(k, k + 4));
}

/// Appends `v` as two little-endian bytes.
pub fn push_u16_le(out: &mut Vec<u8>, v: u16)
    ensures
        final(out)@ == old(out)@ + le16_bytes(v as int),
{
    out.push((v % 256) as u8);
    out.push((v / 256) as u8);
    assert(final(out)@ =~= old(out)@ + le16_bytes(v as int));
}

/// Appends `v` as four little-endian bytes.
pub fn push_u32_le(out: &mut Vec<u8>, v: u32)
    ensures
        final(out)@ == old(out)@ + le32_bytes(v as int),
{
    out.push((v % 256) as u8);
    out.push(((v / 256) % 256) as u8);
    out.push(((v / 65536) % 256) as u8);
    out.push((v / 16777216) as u8);
    assert(final(out)@ =~= old(out)@ + le32_bytes(v as int));
}

/// `s` enciphered: each byte plus its position, modulo 256.
pub open spec fn encipher(s: Seq<u8>) -> Seq<u8> {
    Seq::new(s.len(), |n: int| ((s[n] as int + n % 256) % 256) as u8)
}

/// The stream stored for a frame whose pixels are the RGB triples `rgb`:
/// 15-bit pixels, compressed with LZSS, then enciphered.
pub open spec fn frame_stream(rgb: Seq<u8>) -> Seq<u8> {
    encipher(lzss_encoded(rgb555_from_rgb(rgb), DECODER_FILL))
}

/// The width, height and stored stream of the frame held by the PNG file
/// `file`, where the file can be read and holds RGB triples.
pub open spec fn png_frame(file: Seq<u8>) -> Option<(u16, u16, Seq<u8>)> {
    match png_decoded(file) {
        Some((w, h, rgb)) => if rgb.len() % 3 == 0 {
            Some((w as u16, h as u16, frame_stream(rgb)))
        } else {
            None
        },
        None => None,
    }
}

/// Whether the frames of `files` before `k` can all be read.
pub open spec fn frames_readable(files: Seq<Seq<u8>>, k: int) -> bool {
    forall|j: int| 0 <= j < k ==> #[trigger] png_frame(files[j]) is Some
}

/// A frame, once read: width, height and stored stream.
#[derive(Debug)]
pub struct Frame {
    pub width: u16,
    pub height: u16,
    pub data: Vec<u8>,
}

/// The frames of `files`, read.
pub open spec fn read_frames(files: Seq<Seq<u8>>) -> Seq<(u16, u16, Seq<u8>)> {
    files.map_values(|f: Seq<u8>| png_frame(f).unwrap())
}

/// The 32-bit fields of index entry `i` of `n`, where `dist` bytes of frame
/// data precede its frame, which has `len` bytes and is `w` by `h`: offset,
/// size, pixel bytes and the bytes of frame data after it; `None` where a
/// field overflows 32 bits.
pub open spec fn entry_fields(n: int, i: int, dist: int, len: int, w: u16, h: u16) -> Option<(int, int, int, int)> {
    let head_len = 0x21 + 19 * i + 2;
    let remaining = n % 0x1_0000_0000 - i % 0x1_0000_0000 - 1;
    let index_dist = 19 * remaining + 17;
    let offset = head_len % 0x1_0000_0000 + index_dist + dist;
    let size = len % 0x1_0000_0000;
    let pixels = w as int * h as int * 2;
    let next = dist + size;
    if remaining < 0 || index_dist > u32::MAX || offset > u32::MAX || pixels > u32::MAX || next > u32::MAX {
        None
    } else {
        Some((offset, size, pixels, next))
    }
}

/// The bytes of index entry `i`, with its 32-bit fields.
pub open spec fn entry_bytes(i: int, offset: int, size: int, pixels: int) -> Seq<u8> {
    le16_bytes(i) + le32_bytes(offset) + le32_bytes(size) + le32_bytes(pixels) + seq![0u8, 0u8, 0u8, 0u8, 0u8]
}

/// The frame index entries from `i` on, where `dist` bytes of frame data
/// precede frame `i`; `None` where a 32-bit field overflows.
pub open spec fn index_from(frames: Seq<(u16, u16, Seq<u8>)>, i: int, dist: int) -> Option<Seq<u8>>
    decreases frames.len() - i,
{
    if i >= frames.len() || i < 0 {
        Some(Seq::empty())
    } else {
        match entry_fields(frames.len() as int, i, dist, frames[i].2.len() as int, frames[i].0, frames[i].1) {
            None => None,
            Some((offset, size, pixels, next)) => match index_from(frames, i + 1, next) {
                Some(rest) => Some(entry_bytes(i, offset, size, pixels) + rest),
                None => None,
            },
        }
    }
}

/// Appends the 32-bit fields of an index entry and its five zero bytes.
fn push_entry_fields(out: &mut Vec<u8>, offset: u32, size: u32, pixels: u32)
    ensures
        final(out)@ == old(out)@ + le32_bytes(offset as int) + le32_bytes(size as int) + le32_bytes(pixels as int)
            + seq![0u8, 0u8, 0u8, 0u8, 0u8],
{
    push_u32_le(out, offset);
    push_u32_le(out, size);
    push_u32_le(out, pixels);
    out.push(0);
    out.push(0);
    out.push(0);
    out.push(0);
    out.push(0);
    assert(final(out)@ =~= old(out)@ + le32_bytes(offset as int) + le32_bytes(size as int) + le32_bytes(pixels as int)
        + seq![0u8, 0u8, 0u8, 0u8, 0u8]);
}

/// Computes the 32-bit fields of an index entry, as `entry_fields` states.
fn entry_values(n: usize, i: usize, head_len: usize, dist: u32, len: usize, w: u16, h: u16) -> (r: Option<(u32, u32, u32, u32)>)
    requires
        i < n,
        head_len == 0x21 + 19 * i + 2,
    ensures
        match r {
            None => entry_fields(n as int, i as int, dist as int, len as int, w, h) is None,
            Some((offset, size, pixels, next)) => entry_fields(n as int, i as int, dist as int, len as int, w, h)
                == Some((offset as int, size as int, pixels as int, next as int)),
        },
{
    proof {
        lemma_cast_u32(n);
        lemma_cast_u32(i);
        lemma_cast_u32(len);
    }
    let n32 = n as u32;
    let i32 = i as u32;
    if n32 < i32 || n32 - i32 < 1 {
        return None;
    }
    let remaining: u32 = n32 - i32 - 1;
    if remaining > (u32::MAX - 17) / 19 {
        return None;
    }
    let index_dist: u32 = 19 * remaining + 17;
    proof {
        lemma_cast_u32(head_len);
    }
    let head_len: u32 = head_len as u32;
    if head_len as u64 + index_dist as u64 + dist as u64 > u32::MAX as u64 {
        return None;
    }
    let offset: u32 = head_len + index_dist + dist;
    let size: u32 = len as u32;
    proof {
        let wi = w as int;
        let hi = h as int;
        assert(0 <= wi * hi <= 0xFFFF * 0xFFFF) by (nonlinear_arith)
            requires
                0 <= wi <= 0xFFFF,
                0 <= hi <= 0xFFFF,
        ;
    }
    let pixels: u64 = w as u64 * h as u64 * 2;
    if pixels > u32::MAX as u64 || dist as u64 + size as u64 > u32::MAX as u64 {
        return None;
    }
    Some((offset, size, pixels as u32, dist + size))
}

/// The header of an AVF file of `n` frames whose first frame is `w` by `h`.
pub open spec fn avf_header(n: int, w: u16, h: u16) -> Seq<u8> {
    avf_magic() + seq![0u8, 0x02u8, 0u8, 0u8, 0u8, 0u8] + le16_bytes(n) + le16_bytes(w as int) + le16_bytes(
        h as int,
    ) + seq![0x10u8, 0x42u8, 0u8, 0u8, 0u8, 0x02u8]
}

/// The stored streams of `frames`, one after the other.
pub open spec fn frames_data(frames: Seq<(u16, u16, Seq<u8>)>) -> Seq<u8>
    decreases frames.len(),
{
    if frames.len() == 0 {
        Seq::empty()
    } else {
        frames_data(frames.drop_last()) + frames.last().2
    }
}

/// Why PNG frames cannot be written as an AVF file.
#[derive(Debug)]
pub enum AvfEncodeError {
    /// The PNG file of this frame cannot be read.
    PngUnreadable(usize),
    /// The PNG file of this frame does not hold whole RGB triples.
    NotRgb(usize),
    /// There are no frames.
    NoFrames,
    /// A 32-bit field of the frame index overflows.
    Overflow,
}

/// Makes the frame stored for an image of `width` by `height` pixels whose
/// pixels are the RGB triples `rgb`: packed into 15-bit pixels, compressed
/// with LZSS, then enciphered. `None` where `rgb` does not hold whole
/// triples.
pub fn frame_from_rgb(width: u16, height: u16, rgb: &[u8]) -> (res: Option<Frame>)
    ensures
        res is None <==> rgb@.len() % 3 != 0,
        res matches Some(fr) ==> fr.width == width && fr.height == height && fr.data@ == frame_stream(rgb@),
{
    if rgb.len() % 3 != 0 {
        return None;
    }
    let mut pixels: Vec<u8> = gen_rgb5_array(rgb);
    let mut encoded_frame = encode_lzss(pixels.as_mut_slice());
    let ghost plain = encoded_frame@;
    let mut n: usize = 0;
    while n < encoded_frame.len()
        invariant
            encoded_frame@.len() == plain.len(),
            n <= plain.len(),
            forall|k: int|
                0 <= k < plain.len() ==> #[trigger] encoded_frame@[k] == if k < n {
                    encipher(plain)[k]
                } else {
                    plain[k]
                },
        decreases plain.len() - n,
    {
        let b = encoded_frame[n];
        encoded_frame.set(n, b.wrapping_add((n % 256) as u8));
        n += 1;
    }
    assert(encoded_frame@ =~= encipher(plain));
    Some(Frame { width, height, data: encoded_frame })
}

/// Reads a PNG file and makes the frame stored for it.
fn read_frame(file: &[u8], i: usize) -> (res: Result<Frame, AvfEncodeError>)
    ensures
        match res {
            Ok(fr) => png_frame(file@) == Some((fr.width, fr.height, fr.data@)),
            Err(AvfEncodeError::PngUnreadable(j)) => j == i && png_decoded(file@) is None,
            Err(AvfEncodeError::NotRgb(j)) => j == i && png_decoded(file@) is Some && png_frame(file@) is None,
            Err(_) => false,
        },
{
    let (frame_width, frame_height, rgb_arr) = match decode_png(file) {
        Some(decoded) => decoded,
        None => return Err(AvfEncodeError::PngUnreadable(i)),
    };
    match frame_from_rgb(frame_width, frame_height, &rgb_arr) {
        Some(fr) => Ok(fr),
        None => Err(AvfEncodeError::NotRgb(i)),
    }
}

/// The width, height and stored stream of each frame.
pub open spec fn frame_views(frames: Seq<Frame>) -> Seq<(u16, u16, Seq<u8>)> {
    frames.map_values(|fr: Frame| (fr.width, fr.height, fr.data@))
}

/// The AVF file for `frames`: header, frame index, then the frames' streams;
/// `None` where a 32-bit field of the index overflows.
pub open spec fn avf_file(rf: Seq<(u16, u16, Seq<u8>)>) -> Option<Seq<u8>> {
    match index_from(rf, 0, 0) {
        Some(index) => Some(avf_header(rf.len() as int, rf[0].0, rf[0].1) + index + frames_data(rf)),
        None => None,
    }
}

/// Writes frames as an AVF file: the header, which takes its size from the
/// first frame, the frame index, then the frames' streams.
#[verifier::spinoff_prover]
#[verifier::rlimit(50)]
pub fn write_avf(frames: &Vec<Frame>) -> (res: Result<Vec<u8>, AvfEncodeError>)
    ensures
        match res {
            Ok(out) => frames@.len() > 0 && avf_file(frame_views(frames@)) == Some(out@),
            Err(AvfEncodeError::NoFrames) => frames@.len() == 0,
            Err(AvfEncodeError::Overflow) => frames@.len() > 0 && avf_file(frame_views(frames@)) is None,
            Err(_) => false,
        },
{
    if frames.len() == 0 {
        return Err(AvfEncodeError::NoFrames);
    }
    let ghost rf = frame_views(frames@);
    assert(forall|j: int| 0 <= j < frames@.len() ==> #[trigger] frames@[j].data@ == rf[j].2 && frames@[j].width == rf[j].0
        && frames@[j].height == rf[j].1);
    let n = frames.len();
    let mut head = avf_magic_bytes();
    head.push(0);
    head.push(0x02);
    head.push(0);
    head.push(0);
    head.push(0);
    head.push(0);
    push_u16_le(&mut head, n as u16);
    push_u16_le(&mut head, frames[0].width);
    push_u16_le(&mut head, frames[0].height);
    head.push(0x10);
    head.push(0x42);
    head.push(0);
    head.push(0);
    head.push(0);
    head.push(0x02);
    let ghost header = head@;
    proof {
        lemma_cast_u16(n);
        lemma_le16_bytes_mod(n as int);
        assert(header =~= avf_header(n as int, rf[0].0, rf[0].1));
        assert(head@.subrange(0, 0x21) =~= header);
        assert(head@.subrange(0x21, head@.len() as int) =~= Seq::<u8>::empty());
    }
    let mut data_dist: u32 = 0;
    let mut i: usize = 0;
    while i < n
        invariant
            n == frames@.len(),
            n == rf.len(),
            forall|j: int| 0 <= j < n ==> #[trigger] frames@[j].data@ == rf[j].2 && frames@[j].width == rf[j].0
                && frames@[j].height == rf[j].1,
            i <= n,
            head@.len() == 0x21 + 19 * i,
            rf == frame_views(frames@),
            index_from(rf, 0, 0) is Some <==> index_from(rf, i as int, data_dist as int) is Some,
            index_from(rf, i as int, data_dist as int) is Some ==> index_from(rf, 0, 0).unwrap() == head@.subrange(
                0x21,
                head@.len() as int,
            ) + index_from(rf, i as int, data_dist as int).unwrap(),
            head@.subrange(0, 0x21) == header,
        decreases n - i,
    {
        assert(frames@[i as int].data@ == rf[i as int].2);
        assert(frames@[i as int].width == rf[i as int].0);
        assert(frames@[i as int].height == rf[i as int].1);
        let ghost before = head@;
        let ghost dist = data_dist as int;
        proof {
            lemma_cast_u16(i);
            lemma_le16_bytes_mod(i as int);
        }
        push_u16_le(&mut head, i as u16);
        let (offset, size, pixels, next) = match entry_values(n, i, head.len(), data_dist, frames[i].data.len(), frames[i].width, frames[i].height) {
            Some(fields) => fields,
            None => return Err(AvfEncodeError::Overflow),
        };
        push_entry_fields(&mut head, offset, size, pixels);
        proof {
            let entry = entry_bytes(i as int, offset as int, size as int, pixels as int);
            assert(head@ =~= before + entry);
            assert(head@.subrange(0, 0x21) =~= before.subrange(0, 0x21));
            assert(head@.subrange(0x21, head@.len() as int) =~= before.subrange(0x21, before.len() as int) + entry);
            assert(index_from(rf, i as int, dist) == match index_from(rf, i + 1, next as int) {
                Some(rest) => Some(entry + rest),
                None => None::<Seq<u8>>,
            });
        }
        data_dist = next;
        i += 1;
    }
    let ghost indexed = head@;
    let mut k: usize = 0;
    while k < n
        invariant
            n == frames@.len(),
            n == rf.len(),
            forall|j: int| 0 <= j < n ==> #[trigger] frames@[j].data@ == rf[j].2,
            k <= n,
            head@ == indexed + frames_data(rf.take(k as int)),
        decreases n - k,
    {
        let ghost before = head@;
        let mut chunk = frames[k].data.clone();
        head.append(&mut chunk);
        proof {
            assert(rf.take(k + 1).drop_last() =~= rf.take(k as int));
            assert(frames@[k as int].data@ == rf[k as int].2);
        }
        k += 1;
    }
    assert(rf.take(n as int) =~= rf);
    proof {
        assert(head@ =~= indexed + frames_data(rf));
    }
    Ok(head)
}

/// Writes the frames held by the PNG files `files`, in order, as an AVF file:
/// the header takes its size from the first frame; each frame is packed into
/// 15-bit pixels, compressed with LZSS and enciphered.
pub fn png_to_avf(files: &Vec<Vec<u8>>) -> (res: Result<Vec<u8>, AvfEncodeError>)
    ensures
        ({
            let fs = files@.map_values(|f: Vec<u8>| f@);
            match res {
                Err(AvfEncodeError::PngUnreadable(i)) => i < fs.len() && frames_readable(fs, i as int)
                    && png_decoded(fs[i as int]) is None,
                Err(AvfEncodeError::NotRgb(i)) => i < fs.len() && frames_readable(fs, i as int)
                    && png_decoded(fs[i as int]) is Some && png_frame(fs[i as int]) is None,
                Err(AvfEncodeError::NoFrames) => fs.len() == 0,
                Err(AvfEncodeError::Overflow) => fs.len() > 0 && frames_readable(fs, fs.len() as int)
                    && avf_file(read_frames(fs)) is None,
                Ok(out) => fs.len() > 0 && frames_readable(fs, fs.len() as int) && avf_file(read_frames(fs))
                    == Some(out@),
            }
        }),
{
    let ghost fs = files@.map_values(|f: Vec<u8>| f@);
    let mut frames: Vec<Frame> = Vec::new();
    let mut i: usize = 0;
    while i < files.len()
        invariant
            fs == files@.map_values(|f: Vec<u8>| f@),
            i <= files@.len(),
            frames@.len() == i,
            frames_readable(fs, i as int),
            forall|j: int|
                0 <= j < i ==> png_frame(fs[j]) == Some(
                    (#[trigger] frames@[j].width, frames@[j].height, frames@[j].data@),
                ),
        decreases files@.len() - i,
    {
        let fr = read_frame(files[i].as_slice(), i)?;
        frames.push(fr);
        i += 1;
    }
    if frames.len() == 0 {
        return Err(AvfEncodeError::NoFrames);
    }
    assert(frame_views(frames@) =~= read_frames(fs));
    write_avf(&frames)
}

/// Deciphering undoes enciphering.
pub proof fn lemma_decipher_encipher(s: Seq<u8>)
    ensures
        decipher(encipher(s)) == s,
{
    assert forall|n: int| 0 <= n < s.len() implies #[trigger] decipher(encipher(s))[n] == s[n] by {
        let b = s[n] as int;
        let m = n % 256;
        assert(0 <= m < 256);
        let e = (b + m) % 256;
        assert(((e - m) % 256) == b) by {
            if b + m < 256 {
                assert(e == b + m);
            } else {
                assert(e == b + m - 256);
            }
        }
    }
    assert(decipher(encipher(s)) =~= s);
}

proof fn lemma_frames_data_step(rf: Seq<(u16, u16, Seq<u8>)>, j: int)
    requires
        0 <= j < rf.len(),
    ensures
        frames_data(rf.take(j + 1)) == frames_data(rf.take(j)) + rf[j].2,
{
    assert(rf.take(j + 1).drop_last() =~= rf.take(j));
}

proof fn lemma_frames_data_prefix(rf: Seq<(u16, u16, Seq<u8>)>, k: int, m: int)
    requires
        0 <= k <= m <= rf.len(),
    ensures
        frames_data(rf.take(k)).len() <= frames_data(rf.take(m)).len(),
        frames_data(rf.take(m)).subrange(0, frames_data(rf.take(k)).len() as int) == frames_data(rf.take(k)),
    decreases m - k,
{
    if k == m {
        assert(frames_data(rf.take(m)).subrange(0, frames_data(rf.take(k)).len() as int) =~= frames_data(
            rf.take(k),
        ));
    } else {
        lemma_frames_data_prefix(rf, k, m - 1);
        lemma_frames_data_step(rf, m - 1);
        assert(frames_data(rf.take(m)).subrange(0, frames_data(rf.take(k)).len() as int) =~= frames_data(
            rf.take(m - 1),
        ).subrange(0, frames_data(rf.take(k)).len() as int));
    }
}

proof fn lemma_le32_concat(a: Seq<u8>, b: Seq<u8>, k: int)
    requires
        0 <= k,
        k + 4 <= b.len(),
    ensures
        le32_at(a + b, a.len() + k) == le32_at(b, k),
{
    assert((a + b)[a.len() + k] == b[k]);
    assert((a + b)[a.len() + k + 1] == b[k + 1]);
    assert((a + b)[a.len() + k + 2] == b[k + 2]);
    assert((a + b)[a.len() + k + 3] == b[k + 3]);
}

proof fn lemma_le32_prefix(a: Seq<u8>, b: Seq<u8>, k: int)
    requires
        0 <= k,
        k + 4 <= a.len(),
    ensures
        le32_at(a + b, k) == le32_at(a, k),
{
    assert((a + b)[k] == a[k]);
    assert((a + b)[k + 1] == a[k + 1]);
    assert((a + b)[k + 2] == a[k + 2]);
    assert((a + b)[k + 3] == a[k + 3]);
}

proof fn lemma_entry_fields_read(i: int, offset: int, size: int, pixels: int)
    requires
        0 <= offset <= u32::MAX,
        0 <= size <= u32::MAX,
    ensures
        entry_bytes(i, offset, size, pixels).len() == 19,
        le32_at(entry_bytes(i, offset, size, pixels), 2) == offset,
        le32_at(entry_bytes(i, offset, size, pixels), 6) == size,
{
    let e = entry_bytes(i, offset, size, pixels);
    lemma_le32_bytes_read(offset);
    lemma_le32_bytes_read(size);
    let a = le16_bytes(i);
    let b = le32_bytes(offset);
    let c = le32_bytes(size);
    let rest = le32_bytes(pixels) + seq![0u8, 0u8, 0u8, 0u8, 0u8];
    assert(e =~= a + (b + (c + rest)));
    lemma_le32_prefix(b, c + rest, 0);
    lemma_le32_concat(a, b + (c + rest), 0);
    lemma_le32_prefix(c, rest, 0);
    lemma_le32_concat(b, c + rest, 0);
    lemma_le32_concat(a, b + (c + rest), 4);
}

proof fn lemma_entry_offset(n: int, i: int, dist: int, len: int, w: u16, h: u16)
    requires
        0 <= i < n <= 0xFFFF,
        0 <= len < 0x1_0000_0000,
        dist >= 0,
        entry_fields(n, i, dist, len, w, h) is Some,
    ensures
        entry_fields(n, i, dist, len, w, h).unwrap().0 == 0x21 + 19 * n + dist,
        entry_fields(n, i, dist, len, w, h).unwrap().1 == len,
        entry_fields(n, i, dist, len, w, h).unwrap().3 == dist + len,
        0 <= entry_fields(n, i, dist, len, w, h).unwrap().0 <= u32::MAX,
        0 <= entry_fields(n, i, dist, len, w, h).unwrap().1 <= u32::MAX,
{
    assert(n % 0x1_0000_0000 == n);
    assert(i % 0x1_0000_0000 == i);
    assert((0x21 + 19 * i + 2) % 0x1_0000_0000 == 0x21 + 19 * i + 2);
    assert(len % 0x1_0000_0000 == len);
}

/// The index that `index_from` writes holds, for each frame from `i` on,
/// the frame's offset (after header and index, past the frames before it)
/// and its size.
#[verifier::spinoff_prover]
#[verifier::rlimit(40)]
proof fn lemma_index_layout(rf: Seq<(u16, u16, Seq<u8>)>, i: int, dist: int)
    requires
        0 <= i <= rf.len(),
        rf.len() <= 0xFFFF,
        forall|j: int| 0 <= j < rf.len() ==> #[trigger] rf[j].2.len() < 0x1_0000_0000,
        dist == frames_data(rf.take(i)).len(),
        index_from(rf, i, dist) is Some,
    ensures
        index_from(rf, i, dist).unwrap().len() == 19 * (rf.len() - i),
        forall|j: int|
            i <= j < rf.len() ==> le32_at(index_from(rf, i, dist).unwrap(), 19 * (j - i) + 2) == 0x21 + 19
                * rf.len() + frames_data(#[trigger] rf.take(j)).len() && le32_at(
                index_from(rf, i, dist).unwrap(),
                19 * (j - i) + 6,
            ) == rf[j].2.len(),
    decreases rf.len() - i,
{
    let n = rf.len() as int;
    if i < n {
        let len = rf[i].2.len() as int;
        lemma_entry_offset(n, i, dist, len, rf[i].0, rf[i].1);
        let (offset, size, pixels, next) = entry_fields(n, i, dist, len, rf[i].0, rf[i].1).unwrap();
        lemma_frames_data_step(rf, i);
        assert(next == frames_data(rf.take(i + 1)).len());
        lemma_index_layout(rf, i + 1, next);
        let rest = index_from(rf, i + 1, next).unwrap();
        let entry = entry_bytes(i, offset, size, pixels);
        let idx = index_from(rf, i, dist).unwrap();
        assert(idx == entry + rest);
        lemma_entry_fields_read(i, offset, size, pixels);
        lemma_le32_prefix(entry, rest, 2);
        lemma_le32_prefix(entry, rest, 6);
        assert forall|j: int| i < j < n implies le32_at(idx, 19 * (j - i) + 2) == 0x21 + 19 * n + frames_data(
            #[trigger] rf.take(j),
        ).len() && le32_at(idx, 19 * (j - i) + 6) == rf[j].2.len() by {
            lemma_le32_concat(entry, rest, 19 * (j - (i + 1)) + 2);
            lemma_le32_concat(entry, rest, 19 * (j - (i + 1)) + 6);
        }
    }
}

/// Where the frames of an AVF file of frames `rf` begin: after the header
/// and the index.
pub open spec fn data_start(rf: Seq<(u16, u16, Seq<u8>)>) -> int {
    0x21 + 19 * (rf.len() as int)
}

/// Whether frame `j` of `out` is recorded at its place in the data area
/// with the size of `rf[j]`, and its bytes are those of `rf[j]`.
pub open spec fn frame_laid_out(out: Seq<u8>, rf: Seq<(u16, u16, Seq<u8>)>, j: int) -> bool {
    let off = data_start(rf) + frames_data(rf.take(j)).len();
    &&& frame_span(out, j) == (off, rf[j].2.len() as int)
    &&& off + rf[j].2.len() <= out.len()
    &&& out.subrange(off, off + rf[j].2.len()) == rf[j].2
}

#[verifier::spinoff_prover]
#[verifier::rlimit(50)]
proof fn lemma_avf_layout(rf: Seq<(u16, u16, Seq<u8>)>)
    requires
        0 < rf.len() <= 0xFFFF,
        forall|j: int| 0 <= j < rf.len() ==> #[trigger] rf[j].2.len() < 0x1_0000_0000,
        avf_file(rf) is Some,
    ensures
        ({
            let out = avf_file(rf).unwrap();
            &&& avf_header_ok(out)
            &&& avf_index_complete(out)
            &&& le16_at(out, 0x15) == rf.len()
            &&& le16_at(out, 0x17) == rf[0].0
            &&& le16_at(out, 0x19) == rf[0].1
            &&& out[0x1C] == 0x42
            &&& forall|j: int| 0 <= j < rf.len() ==> #[trigger] frame_laid_out(out, rf, j)
        }),
{
    let n = rf.len() as int;
    let out = avf_file(rf).unwrap();
    let index = index_from(rf, 0, 0).unwrap();
    let header = avf_header(n, rf[0].0, rf[0].1);
    let data = frames_data(rf);
    assert(rf.take(0) =~= Seq::<(u16, u16, Seq<u8>)>::empty());
    lemma_index_layout(rf, 0, 0);
    assert(out == header + index + data);
    assert(header.len() == 0x21);
    assert(out.subrange(0, 15) =~= avf_magic());
    lemma_le16_bytes_read(n);
    lemma_le16_bytes_read(rf[0].0 as int);
    lemma_le16_bytes_read(rf[0].1 as int);
    assert(le16_at(out, 0x15) == le16_at(le16_bytes(n), 0));
    assert(le16_at(out, 0x17) == le16_at(le16_bytes(rf[0].0 as int), 0));
    assert(le16_at(out, 0x19) == le16_at(le16_bytes(rf[0].1 as int), 0));
    assert(rf.take(n) =~= rf);
    assert forall|j: int| 0 <= j < n implies #[trigger] frame_laid_out(out, rf, j) by {
        lemma_le32_prefix(index, data, 19 * j + 2);
        lemma_le32_prefix(index, data, 19 * j + 6);
        lemma_le32_concat(header, index + data, 19 * j + 2);
        lemma_le32_concat(header, index + data, 19 * j + 6);
        assert(header + index + data =~= header + (index + data));
        lemma_frames_data_step(rf, j);
        lemma_frames_data_prefix(rf, j + 1, n);
        let before = frames_data(rf.take(j)).len() as int;
        let off = data_start(rf) + before;
        assert forall|t: int| 0 <= t < rf[j].2.len() implies #[trigger] out.subrange(off, off + rf[j].2.len())[t]
            == rf[j].2[t] by {
            assert(data.subrange(0, frames_data(rf.take(j + 1)).len() as int)[before + t] == rf[j].2[t]);
            assert(out[off + t] == data[before + t]);
        }
        assert(out.subrange(off, off + rf[j].2.len()) =~= rf[j].2);
    }
}

/// A file written by `png_to_avf` reads back in `avf_to_png` as it was
/// written: its header is accepted and gives the number of frames and the
/// size of the first, its index is complete, each frame lies within the file,
/// and each frame decompresses to the 15-bit pixels written for it. Its pixels
/// come back as those of the PNG frame, each channel cut to its
/// top five bits.
pub proof fn lemma_avf_frames_read_back(files: Seq<Seq<u8>>, i: int)
    requires
        0 < files.len() <= 0xFFFF,
        frames_readable(files, files.len() as int),
        avf_file(read_frames(files)) is Some,
        forall|j: int| 0 <= j < files.len() ==> #[trigger] read_frames(files)[j].2.len() < 0x1_0000_0000,
        0 <= i < files.len(),
    ensures
        ({
            let out = avf_file(read_frames(files)).unwrap();
            let rf = read_frames(files);
            &&& avf_header_ok(out)
            &&& avf_index_complete(out)
            &&& le16_at(out, 0x15) == files.len()
            &&& le16_at(out, 0x17) == rf[0].0
            &&& le16_at(out, 0x19) == rf[0].1
            &&& out[0x1C] == 0x42
            &&& frame_span(out, i).0 + frame_span(out, i).1 <= out.len()
            &&& frame_decoded(out, i) == rgb555_from_rgb(png_decoded(files[i]).unwrap().2)
            &&& frame_rgb(out, i) == top_five_bits(png_decoded(files[i]).unwrap().2)
        }),
{
    let rf = read_frames(files);
    lemma_avf_layout(rf);
    let out = avf_file(rf).unwrap();
    assert(frame_laid_out(out, rf, i));
    let (w, h, rgb) = png_decoded(files[i]).unwrap();
    assert(png_frame(files[i]) is Some);
    assert(rf[i] == png_frame(files[i]).unwrap());
    assert(rf[i].2 == frame_stream(rgb));
    lemma_decipher_encipher(lzss_encoded(rgb555_from_rgb(rgb), DECODER_FILL));
    lemma_lzss_round_trip(rgb555_from_rgb(rgb));
    lemma_rgb_round_trip(rgb);
}

} // verus!
