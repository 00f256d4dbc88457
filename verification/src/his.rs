//! HIS sounds: conversion to WAV files, or extraction of the Ogg stream that
//! the newest files hold.

use vstd::prelude::*;
use vstd::utf8::valid_utf8;
use crate::avf_encoder::{le16_bytes, le32_bytes, lemma_le16_bytes_read, lemma_le32_bytes_read, push_u16_le, push_u32_le};
use crate::byte_reader::{copy_range, le16_at, le32_at, read_u16_le, read_u32_le, starts_with};
use crate::text::is_utf8;

verus! {

/// "HIS" and a zero byte, which begin the files of the third game on.
pub open spec fn his_v2_magic() -> Seq<u8> {
    seq![0x48, 0x49, 0x53, 0x00]
}

/// "Her Interactive Sound" and 0x1A, which begin the files of the first two games.
pub open spec fn his_v1_magic() -> Seq<u8> {
    seq![
        0x48, 0x65, 0x72, 0x20, 0x49, 0x6E, 0x74, 0x65, 0x72, 0x61, 0x63, 0x74, 0x69, 0x76, 0x65, 0x20, 0x53,
        0x6F, 0x75, 0x6E, 0x64, 0x1A,
    ]
}

fn his_v2_magic_bytes() -> (m: Vec<u8>)
    ensures
        m@ == his_v2_magic(),
{
    let m: Vec<u8> = vec![0x48, 0x49, 0x53, 0x00];
    assert(m@ =~= his_v2_magic());
    m
}

fn his_v1_magic_bytes() -> (m: Vec<u8>)
    ensures
        m@ == his_v1_magic(),
{
    let m: Vec<u8> = vec![
        0x48, 0x65, 0x72, 0x20, 0x49, 0x6E, 0x74, 0x65, 0x72, 0x61, 0x63, 0x74, 0x69, 0x76, 0x65, 0x20, 0x53,
        0x6F, 0x75, 0x6E, 0x64, 0x1A,
    ];
    assert(m@ =~= his_v1_magic());
    m
}

/// The fields of a WAV header. The four identifiers are always "RIFF",
/// "WAVE", "fmt " and "data".
#[derive(Debug)]
pub struct Header {
    pub chunk_id: [u8; 4],
    pub file_size: u32,
    pub format_id: [u8; 4],
    pub subchunk1_id: [u8; 4],
    pub subchunk1_size: u32,
    pub audio_format: u16,
    pub num_channels: u16,
    pub sample_rate: u32,
    pub byte_rate: u32,
    pub block_align: u16,
    pub bits_per_sample: u16,
    pub subchunk2_id: [u8; 4],
    pub subchunk2_size: u32,
}

/// The numeric fields of a WAV header, in file order.
pub struct WavFields {
    pub file_size: int,
    pub audio_format: int,
    pub num_channels: int,
    pub sample_rate: int,
    pub byte_rate: int,
    pub block_align: int,
    pub bits_per_sample: int,
    pub data_size: int,
}

impl Header {
    /// The numeric fields of the header.
    pub open spec fn fields(self) -> WavFields {
        WavFields {
            file_size: self.file_size as int,
            audio_format: self.audio_format as int,
            num_channels: self.num_channels as int,
            sample_rate: self.sample_rate as int,
            byte_rate: self.byte_rate as int,
            block_align: self.block_align as int,
            bits_per_sample: self.bits_per_sample as int,
            data_size: self.subchunk2_size as int,
        }
    }

    /// Whether the identifiers are the WAV ones and the format chunk has 16 bytes.
    pub open spec fn is_wav(self) -> bool {
        &&& self.chunk_id@ == seq![0x52u8, 0x49u8, 0x46u8, 0x46u8]
        &&& self.format_id@ == seq![0x57u8, 0x41u8, 0x56u8, 0x45u8]
        &&& self.subchunk1_id@ == seq![0x66u8, 0x6Du8, 0x74u8, 0x20u8]
        &&& self.subchunk1_size == 16
        &&& self.subchunk2_id@ == seq![0x64u8, 0x61u8, 0x74u8, 0x61u8]
    }
}

/// Whether every field fits its width in a WAV header.
pub open spec fn fields_fit(f: WavFields) -> bool {
    &&& 0 <= f.file_size <= u32::MAX
    &&& 0 <= f.audio_format <= u16::MAX
    &&& 0 <= f.num_channels <= u16::MAX
    &&& 0 <= f.sample_rate <= u32::MAX
    &&& 0 <= f.byte_rate <= u32::MAX
    &&& 0 <= f.block_align <= u16::MAX
    &&& 0 <= f.bits_per_sample <= u16::MAX
    &&& 0 <= f.data_size <= u32::MAX
}

/// The WAV fields that a file of the third game on (after "HIS" and a zero byte) gives.
pub open spec fn v2_fields(d: Seq<u8>) -> WavFields {
    WavFields {
        file_size: le32_at(d, 0x18) + 36,
        audio_format: le16_at(d, 0x08),
        num_channels: le16_at(d, 0x0A),
        sample_rate: le32_at(d, 0x0C),
        byte_rate: le32_at(d, 0x10),
        block_align: le16_at(d, 0x14),
        bits_per_sample: le16_at(d, 0x16),
        data_size: le32_at(d, 0x18),
    }
}

/// The WAV fields that a file of the first two games gives. Its rate field
/// counts samples of all channels, so the rate is divided by the channels.
pub open spec fn v1_fields(d: Seq<u8>) -> WavFields {
    let channels = le16_at(d, 0x20);
    let rate = le32_at(d, 0x18);
    let bits = le16_at(d, 0x22);
    WavFields {
        file_size: le32_at(d, 0x28) + 36,
        audio_format: le16_at(d, 0x16),
        num_channels: channels,
        sample_rate: rate / channels,
        byte_rate: (bits / 8) * channels * rate / channels,
        block_align: (bits / 8) * channels,
        bits_per_sample: bits,
        data_size: le32_at(d, 0x28),
    }
}

/// The fields for 16-bit samples: twice the data, rate and alignment.
pub open spec fn widened(f: WavFields) -> WavFields {
    WavFields {
        file_size: f.data_size * 2 + 36,
        byte_rate: f.byte_rate * 2,
        block_align: f.block_align * 2,
        bits_per_sample: 16,
        data_size: f.data_size * 2,
        ..f
    }
}

/// The fields written for `bit_depth`: unchanged for 8, widened otherwise,
/// as the samples are.
pub open spec fn fields_for_depth(f: WavFields, bit_depth: u8) -> WavFields {
    if bit_depth == 8 {
        f
    } else {
        widened(f)
    }
}

/// The 44 bytes of a WAV header with these fields.
pub open spec fn wav_header_bytes(f: WavFields) -> Seq<u8> {
    seq![0x52u8, 0x49u8, 0x46u8, 0x46u8] + le32_bytes(f.file_size) + seq![0x57u8, 0x41u8, 0x56u8, 0x45u8]
        + seq![0x66u8, 0x6Du8, 0x74u8, 0x20u8] + le32_bytes(16) + le16_bytes(f.audio_format) + le16_bytes(
        f.num_channels,
    ) + le32_bytes(f.sample_rate) + le32_bytes(f.byte_rate) + le16_bytes(f.block_align) + le16_bytes(
        f.bits_per_sample,
    ) + seq![0x64u8, 0x61u8, 0x74u8, 0x61u8] + le32_bytes(f.data_size)
}

/// An unsigned 8-bit sample as a signed 16-bit little-endian one: the byte
/// less 128, shifted up by eight bits.
pub open spec fn widened_sample(b: u8) -> Seq<u8> {
    seq![0u8, ((b as int + 128) % 256) as u8]
}

/// Unsigned 8-bit samples as signed 16-bit little-endian ones.
pub open spec fn widened_samples(s: Seq<u8>) -> Seq<u8>
    decreases s.len(),
{
    if s.len() == 0 {
        Seq::empty()
    } else {
        widened_samples(s.drop_last()) + widened_sample(s.last())
    }
}

/// The samples written for `bit_depth`: as they are for 8, widened otherwise.
pub open spec fn samples_for_depth(s: Seq<u8>, bit_depth: u8) -> Seq<u8> {
    if bit_depth == 8 {
        s
    } else {
        widened_samples(s)
    }
}

/// Why a HIS file cannot be converted.
#[derive(Debug)]
pub enum HisError {
    /// The file is shorter than the header it starts to show.
    TooShort,
    /// The bytes compared with a known beginning are not UTF-8 text.
    NotText,
    /// The file begins with no known HIS text; it is passed over.
    UnknownFormat,
    /// The header gives no channels, so the rate cannot be divided among them.
    NoChannels,
    /// A WAV header field overflows its width.
    Overflow,
}

/// What a HIS file converts to.
#[derive(Debug)]
pub enum HisOutput {
    /// The Ogg stream that a newer file holds from byte 0x1E on.
    Ogg(Vec<u8>),
    /// A WAV file; `old_format` marks a file of the first two games.
    Wav(Vec<u8>, bool),
}

/// Whether the first two games' header fields cannot be computed in their
/// widths: the rate product overflows 32 bits, or the alignment 16 bits.
pub open spec fn v1_overflows(d: Seq<u8>) -> bool {
    let channels = le16_at(d, 0x20);
    let bits = le16_at(d, 0x22);
    ||| le32_at(d, 0x28) + 36 > u32::MAX
    ||| (bits / 8) * channels * le32_at(d, 0x18) > u32::MAX
    ||| (bits / 8) * channels > u16::MAX
}

proof fn lemma_mul_bounds(a: int, b: int, c: int)
    requires
        0 <= a <= 0xFFFF,
        0 <= b <= 0xFFFF,
        0 <= c <= u32::MAX,
    ensures
        0 <= a * b <= 0xFFFF * 0xFFFF,
        0 <= a * b * c,
{
    assert(0 <= a * b <= 0xFFFF * 0xFFFF) by (nonlinear_arith)
        requires
            0 <= a <= 0xFFFF,
            0 <= b <= 0xFFFF,
    ;
    assert(0 <= a * b * c) by (nonlinear_arith)
        requires
            0 <= a * b,
            0 <= c,
    ;
}

/// The WAV fields of a file of the third game on.
fn v2_header(data: &[u8]) -> (res: Option<Header>)
    requires
        data@.len() >= 0x1C,
    ensures
        match res {
            Some(h) => h.is_wav() && h.fields() == v2_fields(data@),
            None => le32_at(data@, 0x18) + 36 > u32::MAX,
        },
{
    let size = read_u32_le(data, 0x18);
    if size > u32::MAX - 36 {
        return None;
    }
    let h = Header {
        chunk_id: [0x52, 0x49, 0x46, 0x46],
        file_size: size + 36,
        format_id: [0x57, 0x41, 0x56, 0x45],
        subchunk1_id: [0x66, 0x6D, 0x74, 0x20],
        subchunk1_size: 16,
        audio_format: read_u16_le(data, 0x08),
        num_channels: read_u16_le(data, 0x0A),
        sample_rate: read_u32_le(data, 0x0C),
        byte_rate: read_u32_le(data, 0x10),
        block_align: read_u16_le(data, 0x14),
        bits_per_sample: read_u16_le(data, 0x16),
        subchunk2_id: [0x64, 0x61, 0x74, 0x61],
        subchunk2_size: size,
    };
    assert(h.chunk_id@ =~= seq![0x52u8, 0x49u8, 0x46u8, 0x46u8]);
    assert(h.format_id@ =~= seq![0x57u8, 0x41u8, 0x56u8, 0x45u8]);
    assert(h.subchunk1_id@ =~= seq![0x66u8, 0x6Du8, 0x74u8, 0x20u8]);
    assert(h.subchunk2_id@ =~= seq![0x64u8, 0x61u8, 0x74u8, 0x61u8]);
    Some(h)
}

/// The WAV fields of a file of the first two games.
fn v1_header(data: &[u8]) -> (res: Result<Header, HisError>)
    requires
        data@.len() >= 0x2C,
    ensures
        match res {
            Ok(h) => h.is_wav() && h.fields() == v1_fields(data@) && le16_at(data@, 0x20) != 0 && !v1_overflows(
                data@,
            ),
            Err(HisError::NoChannels) => le16_at(data@, 0x20) == 0,
            Err(HisError::Overflow) => le16_at(data@, 0x20) != 0 && v1_overflows(data@),
            Err(_) => false,
        },
{
    let data_size = read_u32_le(data, 0x28);
    let channels = read_u16_le(data, 0x20);
    let rate = read_u32_le(data, 0x18);
    let bits = read_u16_le(data, 0x22);
    if channels == 0 {
        return Err(HisError::NoChannels);
    }
    proof {
        lemma_mul_bounds(bits as int / 8, channels as int, rate as int);
    }
    let aligned: u64 = (bits / 8) as u64 * channels as u64;
    proof {
        let a = aligned as int;
        let r = rate as int;
        assert(a * r <= 0xFFFF * 0xFFFF * 0xFFFF_FFFF) by (nonlinear_arith)
            requires
                0 <= a <= 0xFFFF * 0xFFFF,
                0 <= r <= 0xFFFF_FFFF,
        ;
    }
    if data_size > u32::MAX - 36 || aligned * (rate as u64) > u32::MAX as u64 || aligned > u16::MAX as u64 {
        return Err(HisError::Overflow);
    }
    let product: u32 = (aligned * (rate as u64)) as u32;
    let h = Header {
        chunk_id: [0x52, 0x49, 0x46, 0x46],
        file_size: data_size + 36,
        format_id: [0x57, 0x41, 0x56, 0x45],
        subchunk1_id: [0x66, 0x6D, 0x74, 0x20],
        subchunk1_size: 16,
        audio_format: read_u16_le(data, 0x16),
        num_channels: channels,
        sample_rate: rate / (channels as u32),
        byte_rate: product / (channels as u32),
        block_align: aligned as u16,
        bits_per_sample: bits,
        subchunk2_id: [0x64, 0x61, 0x74, 0x61],
        subchunk2_size: data_size,
    };
    assert(h.chunk_id@ =~= seq![0x52u8, 0x49u8, 0x46u8, 0x46u8]);
    assert(h.format_id@ =~= seq![0x57u8, 0x41u8, 0x56u8, 0x45u8]);
    assert(h.subchunk1_id@ =~= seq![0x66u8, 0x6Du8, 0x74u8, 0x20u8]);
    assert(h.subchunk2_id@ =~= seq![0x64u8, 0x61u8, 0x74u8, 0x61u8]);
    Ok(h)
}

/// The header for 16-bit samples, where the fields fit.
fn widen_header(h: Header) -> (res: Option<Header>)
    requires
        h.is_wav(),
    ensures
        match res {
            Some(w) => w.is_wav() && w.fields() == widened(h.fields()),
            None => !fields_fit(widened(h.fields())),
        },
{
    if h.subchunk2_size > (u32::MAX - 36) / 2 || h.byte_rate > u32::MAX / 2 || h.block_align > u16::MAX / 2
        || h.subchunk2_size > u32::MAX / 2 {
        return None;
    }
    let w = Header {
        file_size: h.subchunk2_size * 2 + 36,
        byte_rate: h.byte_rate * 2,
        block_align: h.block_align * 2,
        bits_per_sample: 16,
        subchunk2_size: h.subchunk2_size * 2,
        ..h
    };
    assert(w.fields() =~= widened(h.fields()));
    Some(w)
}

/// Appends the 44 bytes of the header.
fn push_header(out: &mut Vec<u8>, h: &Header)
    requires
        h.is_wav(),
    ensures
        final(out)@ == old(out)@ + wav_header_bytes(h.fields()),
{
    let ghost start = old(out)@;
    out.push(h.chunk_id[0]);
    out.push(h.chunk_id[1]);
    out.push(h.chunk_id[2]);
    out.push(h.chunk_id[3]);
    push_u32_le(out, h.file_size);
    out.push(h.format_id[0]);
    out.push(h.format_id[1]);
    out.push(h.format_id[2]);
    out.push(h.format_id[3]);
    out.push(h.subchunk1_id[0]);
    out.push(h.subchunk1_id[1]);
    out.push(h.subchunk1_id[2]);
    out.push(h.subchunk1_id[3]);
    push_u32_le(out, h.subchunk1_size);
    push_u16_le(out, h.audio_format);
    push_u16_le(out, h.num_channels);
    push_u32_le(out, h.sample_rate);
    push_u32_le(out, h.byte_rate);
    push_u16_le(out, h.block_align);
    push_u16_le(out, h.bits_per_sample);
    out.push(h.subchunk2_id[0]);
    out.push(h.subchunk2_id[1]);
    out.push(h.subchunk2_id[2]);
    out.push(h.subchunk2_id[3]);
    push_u32_le(out, h.subchunk2_size);
    assert(out@ =~= start + wav_header_bytes(h.fields()));
}

/// Appends `data[start..]` as samples for `bit_depth`.
fn push_samples(out: &mut Vec<u8>, data: &[u8], start: usize, bit_depth: u8)
    requires
        start <= data@.len(),
    ensures
        final(out)@ == old(out)@ + samples_for_depth(data@.subrange(start as int, data@.len() as int), bit_depth),
{
    let ghost first = old(out)@;
    let mut n: usize = start;
    while n < data.len()
        invariant
            start <= n <= data@.len(),
            out@ == first + samples_for_depth(data@.subrange(start as int, n as int), bit_depth),
        decreases data@.len() - n,
    {
        let b = data[n];
        let ghost s0 = data@.subrange(start as int, n as int);
        assert(data@.subrange(start as int, n + 1).drop_last() =~= s0);
        if bit_depth == 8 {
            out.push(b);
        } else {
            out.push(0);
            assert(b ^ 0x80u8 == ((b as int + 128) % 256) as u8) by (bit_vector);
            out.push(b ^ 0x80);
        }
        n += 1;
        assert(out@ =~= first + samples_for_depth(data@.subrange(start as int, n as int), bit_depth));
    }
}

/// The WAV file with these header fields and these samples.
pub open spec fn wav_file(f: WavFields, d: Seq<u8>, start: int, bit_depth: u8) -> Seq<u8> {
    wav_header_bytes(fields_for_depth(f, bit_depth)) + samples_for_depth(d.subrange(start, d.len() as int), bit_depth)
}

/// Whether the header fields, for `bit_depth`, fit their widths.
pub open spec fn depth_fits(f: WavFields, bit_depth: u8) -> bool {
    bit_depth != 8 ==> fields_fit(widened(f))
}

/// Builds the WAV file from a header, widening it for 16-bit samples.
fn build_wav(h: Header, data: &[u8], start: usize, bit_depth: u8) -> (res: Option<Vec<u8>>)
    requires
        h.is_wav(),
        start <= data@.len(),
    ensures
        match res {
            Some(out) => depth_fits(h.fields(), bit_depth) && out@ == wav_file(h.fields(), data@, start as int, bit_depth),
            None => !depth_fits(h.fields(), bit_depth),
        },
{
    let ghost f = h.fields();
    let head = if bit_depth != 8 {
        match widen_header(h) {
            Some(w) => w,
            None => return None,
        }
    } else {
        h
    };
    let mut wav: Vec<u8> = Vec::new();
    push_header(&mut wav, &head);
    push_samples(&mut wav, data, start, bit_depth);
    assert(wav@ =~= wav_file(f, data@, start as int, bit_depth));
    Some(wav)
}

/// Converts a HIS file. Files of the third game on that hold an Ogg stream
/// give it as it stands; other files give a WAV file with 8-bit samples when
/// `bit_depth` is 8, and otherwise with 16-bit samples and a header to match.
pub fn his_to_wav(data: &[u8], bit_depth: u8) -> (res: Result<HisOutput, HisError>)
    ensures
        ({
            let d = data@;
            let v2 = d.len() >= 4 && d.subrange(0, 4) == his_v2_magic();
            let v1 = d.len() >= 0x16 && d.subrange(0, 0x16) == his_v1_magic();
            match res {
                Err(HisError::TooShort) => d.len() < 4 || (v2 && d.len() <= 0x1E) || (!v2 && d.len() >= 0x16
                    && valid_utf8(d.subrange(0, 0x16)) && v1 && d.len() < 0x2C) || (!v2 && valid_utf8(
                    d.subrange(0, 4),
                ) && d.len() < 0x16),
                Err(HisError::NotText) => d.len() >= 4 && (!valid_utf8(d.subrange(0, 4)) || (!v2 && d.len()
                    >= 0x16 && !valid_utf8(d.subrange(0, 0x16)))),
                Err(HisError::UnknownFormat) => d.len() >= 0x16 && valid_utf8(d.subrange(0, 4)) && valid_utf8(
                    d.subrange(0, 0x16),
                ) && !v2 && !v1,
                Err(HisError::NoChannels) => v1 && d.len() >= 0x2C && le16_at(d, 0x20) == 0,
                Err(HisError::Overflow) => (v2 && d.len() > 0x1E && d[0x1E] != 0x4F && (!fields_fit(v2_fields(d))
                    || !depth_fits(v2_fields(d), bit_depth))) || (!v2 && v1 && d.len() >= 0x2C && le16_at(d, 0x20)
                    != 0 && (v1_overflows(d) || !depth_fits(v1_fields(d), bit_depth))),
                Ok(HisOutput::Ogg(s)) => v2 && d.len() > 0x1E && d[0x1E] == 0x4F && s@ == d.subrange(
                    0x1E,
                    d.len() as int,
                ),
                Ok(HisOutput::Wav(w, old_format)) => if v2 {
                    &&& !old_format
                    &&& d.len() > 0x1E
                    &&& d[0x1E] != 0x4F
                    &&& fields_fit(v2_fields(d))
                    &&& depth_fits(v2_fields(d), bit_depth)
                    &&& w@ == wav_file(v2_fields(d), d, 0x1C, bit_depth)
                } else {
                    &&& old_format
                    &&& v1
                    &&& d.len() >= 0x2C
                    &&& le16_at(d, 0x20) != 0
                    &&& !v1_overflows(d)
                    &&& depth_fits(v1_fields(d), bit_depth)
                    &&& w@ == wav_file(v1_fields(d), d, 0x2C, bit_depth)
                },
            }
        }),
{
    if data.len() < 4 {
        return Err(HisError::TooShort);
    }
    let head4 = copy_range(data, 0, 4);
    if !is_utf8(&head4) {
        return Err(HisError::NotText);
    }
    let v2_magic = his_v2_magic_bytes();
    if starts_with(data, &v2_magic) {
        if data.len() <= 0x1E {
            return Err(HisError::TooShort);
        }
        if data[0x1E] == 0x4F {
            return Ok(HisOutput::Ogg(copy_range(data, 0x1E, data.len())));
        }
        let h = match v2_header(data) {
            Some(h) => h,
            None => return Err(HisError::Overflow),
        };
        proof {
            assert(fields_fit(v2_fields(data@)));
        }
        return match build_wav(h, data, 0x1C, bit_depth) {
            Some(w) => Ok(HisOutput::Wav(w, false)),
            None => Err(HisError::Overflow),
        };
    }
    if data.len() < 0x16 {
        return Err(HisError::TooShort);
    }
    let head22 = copy_range(data, 0, 0x16);
    if !is_utf8(&head22) {
        return Err(HisError::NotText);
    }
    let v1_magic = his_v1_magic_bytes();
    if !starts_with(data, &v1_magic) {
        return Err(HisError::UnknownFormat);
    }
    if data.len() < 0x2C {
        return Err(HisError::TooShort);
    }
    let h = v1_header(data)?;
    match build_wav(h, data, 0x2C, bit_depth) {
        Some(w) => Ok(HisOutput::Wav(w, true)),
        None => Err(HisError::Overflow),
    }
}

/// The sample rate (at 0x18) and the number of channels (at 0x16) that the
/// WAV header with fields `f` holds, whatever the samples that follow.
proof fn lemma_wav_rate_and_channels(f: WavFields, samples: Seq<u8>)
    requires
        fields_fit(f),
    ensures
        le32_at(wav_header_bytes(f) + samples, 0x18) == f.sample_rate,
        le16_at(wav_header_bytes(f) + samples, 0x16) == f.num_channels,
{
    let w = wav_header_bytes(f) + samples;
    let r = le32_bytes(f.sample_rate);
    let c = le16_bytes(f.num_channels);
    lemma_le32_bytes_read(f.sample_rate);
    lemma_le16_bytes_read(f.num_channels);
    assert(w[0x16] == c[0] && w[0x17] == c[1]);
    assert(w[0x18] == r[0] && w[0x19] == r[1] && w[0x1A] == r[2] && w[0x1B] == r[3]);
}

/// A WAV file converted from a file of the first two games plays at the rate
/// of one channel: the HIS rate field counts the samples of all channels, and
/// the WAV sample rate is that field divided by the number of channels, which
/// the WAV file keeps; so for a mono file the two rates are the same.
pub proof fn lemma_v1_rate_per_channel(d: Seq<u8>, bit_depth: u8)
    requires
        d.len() >= 0x2C,
        le16_at(d, 0x20) != 0,
        !v1_overflows(d),
        depth_fits(v1_fields(d), bit_depth),
    ensures
        ({
            let w = wav_file(v1_fields(d), d, 0x2C, bit_depth);
            let channels = le16_at(d, 0x20);
            &&& le16_at(w, 0x16) == channels
            &&& le32_at(w, 0x18) * channels <= le32_at(d, 0x18) < (le32_at(w, 0x18) + 1) * channels
            &&& channels == 1 ==> le32_at(w, 0x18) == le32_at(d, 0x18)
        }),
{
    let f = v1_fields(d);
    let g = fields_for_depth(f, bit_depth);
    let channels = le16_at(d, 0x20);
    let rate = le32_at(d, 0x18);
    assert(0 <= rate / channels <= rate) by (nonlinear_arith)
        requires 0 <= rate, 1 <= channels;
    assert(g.sample_rate == rate / channels);
    assert(g.num_channels == channels);
    assert(fields_fit(g)) by {
        assert(0 <= f.file_size <= u32::MAX);
        assert(0 <= f.byte_rate <= u32::MAX) by (nonlinear_arith)
            requires
                f.byte_rate == (le16_at(d, 0x22) / 8) * channels * rate / channels,
                (le16_at(d, 0x22) / 8) * channels * rate <= u32::MAX,
                0 <= le16_at(d, 0x22) / 8,
                1 <= channels,
                0 <= rate,
        ;
        assert(0 <= f.block_align <= u16::MAX);
    }
    lemma_wav_rate_and_channels(g, samples_for_depth(d.subrange(0x2C, d.len() as int), bit_depth));
    let sr = rate / channels;
    assert(sr * channels <= rate < (sr + 1) * channels) by (nonlinear_arith)
        requires sr == rate / channels, 1 <= channels, 0 <= rate;
}

} // verus!
