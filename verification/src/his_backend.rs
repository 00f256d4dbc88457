//! The plain converter of HIS sounds of the third game on into WAV files,
//! copying the format fields of the HIS header as they stand.

use vstd::prelude::*;
use crate::avf_encoder::{le16_bytes, le32_bytes, lemma_le16_bytes_of_read, lemma_le32_bytes_of_read, push_u16_le, push_u32_le};
use crate::byte_reader::{le16_at, le32_at, read_u16_le, read_u32_le};
use crate::his::{depth_fits, fields_fit, his_v2_magic, v2_fields, wav_file, widened_samples};

verus! {

/// "RIFF".
pub open spec fn riff_id() -> Seq<u8> {
    seq![0x52u8, 0x49u8, 0x46u8, 0x46u8]
}

/// "WAVEfmt " and the 16-byte size of the format chunk.
pub open spec fn wave_fmt() -> Seq<u8> {
    seq![0x57u8, 0x41u8, 0x56u8, 0x45u8, 0x66u8, 0x6Du8, 0x74u8, 0x20u8, 0x10u8, 0u8, 0u8, 0u8]
}

/// "data".
pub open spec fn data_id() -> Seq<u8> {
    seq![0x64u8, 0x61u8, 0x74u8, 0x61u8]
}

/// Why the plain converter refuses a file.
#[derive(Debug)]
pub enum BackendError {
    /// The file ends within its header.
    TooShort,
    /// A WAV header field overflows its width.
    Overflow,
}

/// The 8-bit WAV file: the HIS format fields copied, then the samples.
pub open spec fn backend_wav8(d: Seq<u8>) -> Seq<u8> {
    riff_id() + le32_bytes(le32_at(d, 0x18) + 36) + wave_fmt() + d.subrange(0x08, 0x18) + data_id() + le32_bytes(
        le32_at(d, 0x18),
    ) + d.subrange(0x1C, d.len() as int)
}

/// The 16-bit WAV file: twice the data size, byte rate and alignment, 16 bits
/// per sample, and the samples widened.
pub open spec fn backend_wav16(d: Seq<u8>) -> Seq<u8> {
    riff_id() + le32_bytes(le32_at(d, 0x18) * 2 + 36) + wave_fmt() + d.subrange(0x08, 0x10) + le32_bytes(
        le32_at(d, 0x10) * 2,
    ) + le16_bytes(le16_at(d, 0x14) * 2) + seq![0x10u8, 0u8] + data_id() + le32_bytes(le32_at(d, 0x18) * 2)
        + widened_samples(d.subrange(0x1C, d.len() as int))
}

/// Whether the 16-bit header fields of `d` fit their widths.
pub open spec fn backend16_fits(d: Seq<u8>) -> bool {
    &&& le32_at(d, 0x18) * 2 + 36 <= u32::MAX
    &&& le32_at(d, 0x10) * 2 <= u32::MAX
    &&& le16_at(d, 0x14) * 2 <= u16::MAX
}

fn push_slice(out: &mut Vec<u8>, data: &[u8], start: usize, end: usize)
    requires
        start <= end <= data@.len(),
    ensures
        final(out)@ == old(out)@ + data@.subrange(start as int, end as int),
{
    let ghost first = old(out)@;
    let mut i = start;
    while i < end
        invariant
            start <= i <= end <= data@.len(),
            out@ == first + data@.subrange(start as int, i as int),
        decreases end - i,
    {
        out.push(data[i]);
        i += 1;
        assert(out@ =~= first + data@.subrange(start as int, i as int));
    }
}

fn push_riff(out: &mut Vec<u8>)
    ensures
        final(out)@ == old(out)@ + riff_id(),
{
    out.push(0x52);
    out.push(0x49);
    out.push(0x46);
    out.push(0x46);
    assert(final(out)@ =~= old(out)@ + riff_id());
}

fn push_wave_fmt(out: &mut Vec<u8>)
    ensures
        final(out)@ == old(out)@ + wave_fmt(),
{
    out.push(0x57);
    out.push(0x41);
    out.push(0x56);
    out.push(0x45);
    out.push(0x66);
    out.push(0x6D);
    out.push(0x74);
    out.push(0x20);
    out.push(0x10);
    out.push(0);
    out.push(0);
    out.push(0);
    assert(final(out)@ =~= old(out)@ + wave_fmt());
}

fn push_data_id(out: &mut Vec<u8>)
    ensures
        final(out)@ == old(out)@ + data_id(),
{
    out.push(0x64);
    out.push(0x61);
    out.push(0x74);
    out.push(0x61);
    assert(final(out)@ =~= old(out)@ + data_id());
}

/// Converts a HIS file of the third game on into a WAV file with 8-bit or
/// 16-bit samples, copying the HIS format fields.
pub fn his_to_wav(data: &[u8], bit_depth: u8) -> (res: Result<Vec<u8>, BackendError>)
    requires
        data@.len() >= 4,
        data@.subrange(0, 4) == his_v2_magic(),
        bit_depth == 8 || bit_depth == 16,
    ensures
        ({
            let d = data@;
            match res {
                Err(BackendError::TooShort) => d.len() < 0x1C,
                Err(BackendError::Overflow) => d.len() >= 0x1C && ((bit_depth == 8 && le32_at(d, 0x18) + 36
                    > u32::MAX) || (bit_depth == 16 && !backend16_fits(d))),
                Ok(w) => d.len() >= 0x1C && ((bit_depth == 8 && le32_at(d, 0x18) + 36 <= u32::MAX && w@
                    == backend_wav8(d)) || (bit_depth == 16 && backend16_fits(d) && w@ == backend_wav16(d))),
            }
        }),
{
    if data.len() < 0x1C {
        return Err(BackendError::TooShort);
    }
    let mut sound: Vec<u8> = Vec::new();
    if bit_depth == 8 {
        let datasize = read_u32_le(data, 0x18);
        if datasize > u32::MAX - 36 {
            return Err(BackendError::Overflow);
        }
        push_riff(&mut sound);
        push_u32_le(&mut sound, datasize + 36);
        push_wave_fmt(&mut sound);
        push_slice(&mut sound, data, 0x08, 0x18);
        push_data_id(&mut sound);
        push_u32_le(&mut sound, datasize);
        push_slice(&mut sound, data, 0x1C, data.len());
        assert(sound@ =~= backend_wav8(data@));
    } else {
        let raw = read_u32_le(data, 0x18);
        let byte_rate = read_u32_le(data, 0x10);
        let align = read_u16_le(data, 0x14);
        if raw > (u32::MAX - 36) / 2 || byte_rate > u32::MAX / 2 || align > u16::MAX / 2 {
            return Err(BackendError::Overflow);
        }
        let datasize = raw * 2;
        push_riff(&mut sound);
        push_u32_le(&mut sound, datasize + 36);
        push_wave_fmt(&mut sound);
        push_slice(&mut sound, data, 0x08, 0x10);
        push_u32_le(&mut sound, byte_rate * 2);
        push_u16_le(&mut sound, align * 2);
        sound.push(0x10);
        sound.push(0x00);
        push_data_id(&mut sound);
        push_u32_le(&mut sound, datasize);
        let ghost before = sound@;
        let mut n: usize = 0x1C;
        while n < data.len()
            invariant
                0x1C <= n <= data@.len(),
                sound@ == before + widened_samples(data@.subrange(0x1C, n as int)),
            decreases data@.len() - n,
        {
            let b = data[n];
            assert(data@.subrange(0x1C, n + 1).drop_last() =~= data@.subrange(0x1C, n as int));
            sound.push(0);
            assert(b ^ 0x80u8 == ((b as int + 128) % 256) as u8) by (bit_vector);
            sound.push(b ^ 0x80);
            n += 1;
            assert(sound@ =~= before + widened_samples(data@.subrange(0x1C, n as int)));
        }
        assert(sound@ =~= backend_wav16(data@));
    }
    Ok(sound)
}

/// For files of the third game on that do not hold an Ogg stream, the plain
/// converter and the full one (`crate::his::his_to_wav`) write the same WAV
/// file, with 8-bit samples and with 16-bit ones, wherever the fields fit.
pub proof fn lemma_converters_agree(d: Seq<u8>, bit_depth: u8)
    requires
        d.len() >= 0x1C,
        d.subrange(0, 4) == his_v2_magic(),
        bit_depth == 8 || bit_depth == 16,
        fields_fit(v2_fields(d)),
        depth_fits(v2_fields(d), bit_depth),
    ensures
        bit_depth == 8 ==> wav_file(v2_fields(d), d, 0x1C, bit_depth) == backend_wav8(d),
        bit_depth == 16 ==> wav_file(v2_fields(d), d, 0x1C, bit_depth) == backend_wav16(d),
{
    lemma_le16_bytes_of_read(d, 0x08);
    lemma_le16_bytes_of_read(d, 0x0A);
    lemma_le32_bytes_of_read(d, 0x0C);
    lemma_le32_bytes_of_read(d, 0x10);
    lemma_le16_bytes_of_read(d, 0x14);
    lemma_le16_bytes_of_read(d, 0x16);
    assert(le32_bytes(16) =~= seq![0x10u8, 0u8, 0u8, 0u8]);
    assert(le16_bytes(16) =~= seq![0x10u8, 0u8]);
    if bit_depth == 8 {
        assert(d.subrange(0x08, 0x18) =~= d.subrange(0x08, 0x0A) + d.subrange(0x0A, 0x0C) + d.subrange(0x0C, 0x10)
            + d.subrange(0x10, 0x14) + d.subrange(0x14, 0x16) + d.subrange(0x16, 0x18));
        assert(wav_file(v2_fields(d), d, 0x1C, bit_depth) =~= backend_wav8(d));
    } else {
        assert(d.subrange(0x08, 0x10) =~= d.subrange(0x08, 0x0A) + d.subrange(0x0A, 0x0C) + d.subrange(0x0C, 0x10));
        assert(wav_file(v2_fields(d), d, 0x1C, bit_depth) =~= backend_wav16(d));
    }
}

} // verus!
