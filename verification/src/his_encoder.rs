//! Writing HIS sounds, in the format of the third game on, from WAV files.

use vstd::prelude::*;
use crate::avf_encoder::{le16_bytes, le32_bytes, push_u16_le, push_u32_le};
use crate::byte_reader::{le16_at, le32_at, read_u16_le, read_u32_le};
use crate::his::{his_v2_magic, v2_fields, wav_file, wav_header_bytes, WavFields};
use crate::avf_encoder::{lemma_le16_bytes_of_read, lemma_le16_bytes_read, lemma_le32_bytes_of_read, lemma_le32_bytes_read};

verus! {

/// The format fields read from a WAV file.
#[derive(Debug)]
pub struct Header {
    pub audio_format: u16,
    pub num_channels: u16,
    pub sample_rate: u32,
    pub byte_rate: u32,
    pub block_align: u16,
    pub bits_per_sample: u16,
    pub subchunk2_size: u32,
}

/// Why a WAV file cannot be written as a HIS file.
#[derive(Debug)]
pub enum HisEncodeError {
    /// The WAV file ends within its 44-byte header.
    TooShort,
}

/// The HIS file written for the WAV file `w`: "HIS", a zero byte, the version
/// word 1, the format fields copied, the size of the samples, then the samples.
pub open spec fn his_encoded(w: Seq<u8>) -> Seq<u8> {
    his_v2_magic() + seq![0x01u8, 0u8, 0u8, 0u8] + le16_bytes(le16_at(w, 0x14)) + le16_bytes(le16_at(w, 0x16))
        + le32_bytes(le32_at(w, 0x18)) + le32_bytes(le32_at(w, 0x1C)) + le16_bytes(le16_at(w, 0x20)) + le16_bytes(
        le16_at(w, 0x22),
    ) + le32_bytes((w.len() - 0x2C) % 0x1_0000_0000) + w.subrange(0x2C, w.len() as int)
}

/// The WAV header fields that a WAV file `w` keeps through a HIS file: its
/// format fields, and the size of its samples (modulo 2^32).
pub open spec fn kept_fields(w: Seq<u8>) -> WavFields {
    let size = (w.len() - 0x2C) % 0x1_0000_0000;
    WavFields {
        file_size: size + 36,
        audio_format: le16_at(w, 0x14),
        num_channels: le16_at(w, 0x16),
        sample_rate: le32_at(w, 0x18),
        byte_rate: le32_at(w, 0x1C),
        block_align: le16_at(w, 0x20),
        bits_per_sample: le16_at(w, 0x22),
        data_size: size,
    }
}

/// Whether `w` is a canonical WAV file: "RIFF" and the size of what follows,
/// "WAVE", a "fmt " chunk of 16 bytes, then "data" and the size of the
/// samples, which fill the rest of the file.
pub open spec fn canonical_wav(w: Seq<u8>) -> bool {
    &&& w.len() >= 0x2C
    &&& w.subrange(0, 4) == seq![0x52u8, 0x49u8, 0x46u8, 0x46u8]
    &&& le32_at(w, 0x04) == w.len() - 8
    &&& w.subrange(0x08, 0x10) == seq![0x57u8, 0x41u8, 0x56u8, 0x45u8, 0x66u8, 0x6Du8, 0x74u8, 0x20u8]
    &&& le32_at(w, 0x10) == 16
    &&& w.subrange(0x24, 0x28) == seq![0x64u8, 0x61u8, 0x74u8, 0x61u8]
    &&& le32_at(w, 0x28) == w.len() - 0x2C
}

/// A WAV file written as a HIS file and read back keeps its format fields and
/// its samples: the HIS file begins as the third game's files do, and the
/// WAV file converted from it with 8-bit samples is the header of
/// `kept_fields` followed by the samples of `w`; a canonical WAV file comes
/// back byte for byte. (The HIS file is taken for an Ogg stream instead where
/// its byte 0x1E, the third sample of `w`, is 'O'.)
#[verifier::spinoff_prover]
#[verifier::rlimit(40)]
pub proof fn lemma_his_round_trip(w: Seq<u8>)
    requires
        w.len() >= 0x2C,
    ensures
        ({
            let h = his_encoded(w);
            &&& h.len() >= 4 && h.subrange(0, 4) == his_v2_magic()
            &&& h.len() == w.len() - 0x10
            &&& h.len() > 0x1E ==> h[0x1E] == w[0x2E]
            &&& v2_fields(h) == kept_fields(w)
            &&& wav_file(v2_fields(h), h, 0x1C, 8) == wav_header_bytes(kept_fields(w)) + w.subrange(
                0x2C,
                w.len() as int,
            )
            &&& canonical_wav(w) ==> wav_file(v2_fields(h), h, 0x1C, 8) == w
        }),
{
    let h = his_encoded(w);
    let size = (w.len() - 0x2C) % 0x1_0000_0000;
    let a = le16_bytes(le16_at(w, 0x14));
    let b = le16_bytes(le16_at(w, 0x16));
    let c = le32_bytes(le32_at(w, 0x18));
    let d = le32_bytes(le32_at(w, 0x1C));
    let e = le16_bytes(le16_at(w, 0x20));
    let f = le16_bytes(le16_at(w, 0x22));
    let g = le32_bytes(size);
    lemma_le16_bytes_read(le16_at(w, 0x14));
    lemma_le16_bytes_read(le16_at(w, 0x16));
    lemma_le32_bytes_read(le32_at(w, 0x18));
    lemma_le32_bytes_read(le32_at(w, 0x1C));
    lemma_le16_bytes_read(le16_at(w, 0x20));
    lemma_le16_bytes_read(le16_at(w, 0x22));
    lemma_le32_bytes_read(size);
    assert(h.subrange(0, 4) =~= his_v2_magic());
    assert(le16_at(h, 0x08) == le16_at(a, 0));
    assert(le16_at(h, 0x0A) == le16_at(b, 0));
    assert(le32_at(h, 0x0C) == le32_at(c, 0));
    assert(le32_at(h, 0x10) == le32_at(d, 0));
    assert(le16_at(h, 0x14) == le16_at(e, 0));
    assert(le16_at(h, 0x16) == le16_at(f, 0));
    assert(le32_at(h, 0x18) == le32_at(g, 0));
    assert(v2_fields(h) =~= kept_fields(w));
    assert(h.subrange(0x1C, h.len() as int) =~= w.subrange(0x2C, w.len() as int));
    assert(wav_file(v2_fields(h), h, 0x1C, 8) == wav_header_bytes(kept_fields(w)) + w.subrange(0x2C, w.len() as int));
    if canonical_wav(w) {
        lemma_canonical_header(w);
        assert(w.subrange(0, 0x2C) + w.subrange(0x2C, w.len() as int) =~= w);
    }
}

/// The header of a canonical WAV file is the one its kept fields give.
#[verifier::spinoff_prover]
proof fn lemma_canonical_header(w: Seq<u8>)
    requires
        canonical_wav(w),
    ensures
        wav_header_bytes(kept_fields(w)) == w.subrange(0, 0x2C),
{
    let k = kept_fields(w);
    assert(0 <= le32_at(w, 0x28) < 0x1_0000_0000);
    assert((w.len() - 0x2C) % 0x1_0000_0000 == w.len() - 0x2C);
    lemma_le32_bytes_of_read(w, 0x04);
    lemma_le32_bytes_of_read(w, 0x10);
    lemma_le16_bytes_of_read(w, 0x14);
    lemma_le16_bytes_of_read(w, 0x16);
    lemma_le32_bytes_of_read(w, 0x18);
    lemma_le32_bytes_of_read(w, 0x1C);
    lemma_le16_bytes_of_read(w, 0x20);
    lemma_le16_bytes_of_read(w, 0x22);
    lemma_le32_bytes_of_read(w, 0x28);
    let p0 = w.subrange(0, 4);
    let p1 = w.subrange(4, 8);
    let p2 = w.subrange(8, 0x0C);
    let p3 = w.subrange(0x0C, 0x10);
    let p4 = w.subrange(0x10, 0x14);
    let p5 = w.subrange(0x14, 0x16);
    let p6 = w.subrange(0x16, 0x18);
    let p7 = w.subrange(0x18, 0x1C);
    let p8 = w.subrange(0x1C, 0x20);
    let p9 = w.subrange(0x20, 0x22);
    let p10 = w.subrange(0x22, 0x24);
    let p11 = w.subrange(0x24, 0x28);
    let p12 = w.subrange(0x28, 0x2C);
    assert(le32_bytes(k.file_size) == p1);
    assert(le32_bytes(16) == p4);
    assert(seq![0x57u8, 0x41u8, 0x56u8, 0x45u8] =~= p2) by {
        assert(w.subrange(0x08, 0x10)[0] == w[8]);
        assert(w.subrange(0x08, 0x10)[1] == w[9]);
        assert(w.subrange(0x08, 0x10)[2] == w[10]);
        assert(w.subrange(0x08, 0x10)[3] == w[11]);
    }
    assert(seq![0x66u8, 0x6Du8, 0x74u8, 0x20u8] =~= p3) by {
        assert(w.subrange(0x08, 0x10)[4] == w[12]);
        assert(w.subrange(0x08, 0x10)[5] == w[13]);
        assert(w.subrange(0x08, 0x10)[6] == w[14]);
        assert(w.subrange(0x08, 0x10)[7] == w[15]);
    }
    assert(le32_bytes(k.data_size) == p12);
    assert(wav_header_bytes(k) == p0 + p1 + p2 + p3 + p4 + p5 + p6 + p7 + p8 + p9 + p10 + p11 + p12);
    assert(w.subrange(0, 0x2C) =~= p0 + p1 + p2 + p3 + p4 + p5 + p6 + p7 + p8 + p9 + p10 + p11 + p12);
}

/// Writes the WAV file `wav` as a HIS file of version `his_ver`; only the
/// version of the third game on can be written.
pub fn wav_to_his(wav: &[u8], his_ver: u8) -> (res: Result<Vec<u8>, HisEncodeError>)
    requires
        his_ver == 2,
    ensures
        match res {
            Err(HisEncodeError::TooShort) => wav@.len() < 0x2C,
            Ok(out) => wav@.len() >= 0x2C && out@ == his_encoded(wav@),
        },
{
    if wav.len() < 0x2C {
        return Err(HisEncodeError::TooShort);
    }
    let size_full: usize = wav.len() - 0x2C;
    proof {
        assert(((size_full as u64) % 0x1_0000_0000u64) as u32 == size_full as u32) by (bit_vector);
    }
    let head = Header {
        audio_format: read_u16_le(wav, 0x14),
        num_channels: read_u16_le(wav, 0x16),
        sample_rate: read_u32_le(wav, 0x18),
        byte_rate: read_u32_le(wav, 0x1C),
        block_align: read_u16_le(wav, 0x20),
        bits_per_sample: read_u16_le(wav, 0x22),
        subchunk2_size: size_full as u32,
    };
    let mut data: Vec<u8> = vec![0x48, 0x49, 0x53, 0x00];
    data.push(0x01);
    data.push(0);
    data.push(0);
    data.push(0);
    push_u16_le(&mut data, head.audio_format);
    push_u16_le(&mut data, head.num_channels);
    push_u32_le(&mut data, head.sample_rate);
    push_u32_le(&mut data, head.byte_rate);
    push_u16_le(&mut data, head.block_align);
    push_u16_le(&mut data, head.bits_per_sample);
    push_u32_le(&mut data, head.subchunk2_size);
    let ghost before = data@;
    let mut i: usize = 0x2C;
    while i < wav.len()
        invariant
            0x2C <= i <= wav@.len(),
            data@ == before + wav@.subrange(0x2C, i as int),
        decreases wav@.len() - i,
    {
        data.push(wav[i]);
        i += 1;
        assert(data@ =~= before + wav@.subrange(0x2C, i as int));
    }
    assert(data@ =~= his_encoded(wav@));
    Ok(data)
}

} // verus!
