use open_nd::his::{his_to_wav, HisError, HisOutput};
use open_nd::his_backend;
use open_nd::his_backend::BackendError;
use open_nd::his_encoder::{wav_to_his, HisEncodeError};

fn his_v2(samples: &[u8]) -> Vec<u8> {
    let mut d = b"HIS\0".to_vec();
    d.extend_from_slice(&[1, 0, 0, 0]);
    d.extend_from_slice(&1u16.to_le_bytes());
    d.extend_from_slice(&1u16.to_le_bytes());
    d.extend_from_slice(&22050u32.to_le_bytes());
    d.extend_from_slice(&22050u32.to_le_bytes());
    d.extend_from_slice(&1u16.to_le_bytes());
    d.extend_from_slice(&8u16.to_le_bytes());
    d.extend_from_slice(&(samples.len() as u32).to_le_bytes());
    d.extend_from_slice(samples);
    d
}

fn wav_header(size: u32, fmt: u16, channels: u16, rate: u32, byte_rate: u32, align: u16, bits: u16, data: u32) -> Vec<u8> {
    let mut w = b"RIFF".to_vec();
    w.extend_from_slice(&size.to_le_bytes());
    w.extend_from_slice(b"WAVEfmt ");
    w.extend_from_slice(&16u32.to_le_bytes());
    w.extend_from_slice(&fmt.to_le_bytes());
    w.extend_from_slice(&channels.to_le_bytes());
    w.extend_from_slice(&rate.to_le_bytes());
    w.extend_from_slice(&byte_rate.to_le_bytes());
    w.extend_from_slice(&align.to_le_bytes());
    w.extend_from_slice(&bits.to_le_bytes());
    w.extend_from_slice(b"data");
    w.extend_from_slice(&data.to_le_bytes());
    w
}

#[test]
fn his_v2_to_8_bit_wav() {
    let samples = [0x80u8, 0x81, 0x7F, 0x00];
    let out = his_to_wav(&his_v2(&samples), 8).unwrap();
    let mut expected = wav_header(40, 1, 1, 22050, 22050, 1, 8, 4);
    expected.extend_from_slice(&samples);
    match out {
        HisOutput::Wav(w, old_format) => {
            assert!(!old_format);
            assert_eq!(w, expected);
        }
        HisOutput::Ogg(_) => panic!("not an Ogg stream"),
    }
}

#[test]
fn his_v2_to_16_bit_wav() {
    let samples = [0x80u8, 0x81, 0x7F, 0x00];
    let out = his_to_wav(&his_v2(&samples), 16).unwrap();
    let mut expected = wav_header(44, 1, 1, 22050, 44100, 2, 16, 8);
    expected.extend_from_slice(&[0x00, 0x00, 0x00, 0x01, 0x00, 0xFF, 0x00, 0x80]);
    match out {
        HisOutput::Wav(w, _) => assert_eq!(w, expected),
        HisOutput::Ogg(_) => panic!("not an Ogg stream"),
    }
}

#[test]
fn his_other_depth_writes_16_bit_samples_and_header() {
    let samples = [0x80u8, 0x81, 0x7F];
    let out = his_to_wav(&his_v2(&samples), 24).unwrap();
    let mut expected = wav_header(42, 1, 1, 22050, 44100, 2, 16, 6);
    expected.extend_from_slice(&[0x00, 0x00, 0x00, 0x01, 0x00, 0xFF]);
    match out {
        HisOutput::Wav(w, _) => assert_eq!(w, expected),
        HisOutput::Ogg(_) => panic!("not an Ogg stream"),
    }
}

#[test]
fn his_with_ogg_stream_gives_the_stream() {
    let d = his_v2(&[0x01, 0x02, b'O', b'g', b'g', b'S', 9]);
    match his_to_wav(&d, 8).unwrap() {
        HisOutput::Ogg(s) => assert_eq!(s, vec![b'O', b'g', b'g', b'S', 9]),
        HisOutput::Wav(..) => panic!("an Ogg stream"),
    }
}

fn his_v1(channels: u16, samples: &[u8]) -> Vec<u8> {
    let mut d = b"Her Interactive Sound\x1A".to_vec();
    d.extend_from_slice(&1u16.to_le_bytes());
    d.extend_from_slice(&44100u32.to_le_bytes());
    d.extend_from_slice(&(samples.len() as u32).to_le_bytes());
    d.extend_from_slice(&channels.to_le_bytes());
    d.extend_from_slice(&8u16.to_le_bytes());
    d.extend_from_slice(&[0, 0, 0, 0]);
    d.extend_from_slice(&(samples.len() as u32).to_le_bytes());
    d.extend_from_slice(samples);
    d
}

#[test]
fn his_v1_divides_the_rate_among_channels() {
    let samples = [1u8, 2, 3, 4];
    let out = his_to_wav(&his_v1(2, &samples), 8).unwrap();
    let mut expected = wav_header(40, 1, 2, 22050, 44100, 2, 8, 4);
    expected.extend_from_slice(&samples);
    match out {
        HisOutput::Wav(w, old_format) => {
            assert!(old_format);
            assert_eq!(w, expected);
        }
        HisOutput::Ogg(_) => panic!("not an Ogg stream"),
    }
}

#[test]
fn his_errors() {
    assert!(matches!(his_to_wav(b"HI", 8), Err(HisError::TooShort)));
    assert!(matches!(his_to_wav(b"HIS\0short", 8), Err(HisError::TooShort)));
    assert!(matches!(his_to_wav(b"Her Interactive", 8), Err(HisError::TooShort)));
    assert!(matches!(his_to_wav(&[0xFF, 0xFE, 0, 0, 1], 8), Err(HisError::NotText)));
    assert!(matches!(his_to_wav(&[b'a'; 30], 8), Err(HisError::UnknownFormat)));
    assert!(matches!(his_to_wav(&his_v1(0, &[1, 2]), 8), Err(HisError::NoChannels)));
    let mut big = his_v2(&[1, 2, 3]);
    big[0x18..0x1C].copy_from_slice(&0xFFFF_FFF0u32.to_le_bytes());
    assert!(matches!(his_to_wav(&big, 8), Err(HisError::Overflow)));
    let mut wide = his_v2(&[1, 2, 3]);
    wide[0x18..0x1C].copy_from_slice(&0x8000_0000u32.to_le_bytes());
    assert!(his_to_wav(&wide, 8).is_ok());
    assert!(matches!(his_to_wav(&wide, 16), Err(HisError::Overflow)));
}

#[test]
fn backend_writes_the_same_wav_as_the_full_converter() {
    let d = his_v2(&[0x80, 0x81, 0x7F, 0x00]);
    for depth in [8u8, 16] {
        let plain = his_backend::his_to_wav(&d, depth).unwrap();
        match his_to_wav(&d, depth).unwrap() {
            HisOutput::Wav(w, _) => assert_eq!(plain, w),
            HisOutput::Ogg(_) => panic!("not an Ogg stream"),
        }
    }
}

#[test]
fn backend_errors() {
    assert!(matches!(his_backend::his_to_wav(b"HIS\0abcd", 8), Err(BackendError::TooShort)));
    let mut big = his_v2(&[1, 2, 3]);
    big[0x18..0x1C].copy_from_slice(&0xFFFF_FFF0u32.to_le_bytes());
    assert!(matches!(his_backend::his_to_wav(&big, 8), Err(BackendError::Overflow)));
}

#[test]
fn wav_to_his_writes_the_third_game_format() {
    let mut wav = wav_header(40, 1, 1, 11025, 11025, 1, 8, 4);
    wav.extend_from_slice(&[5, 6, 7, 8]);
    let his = wav_to_his(&wav, 2).unwrap();
    let mut expected = b"HIS\0".to_vec();
    expected.extend_from_slice(&[1, 0, 0, 0]);
    expected.extend_from_slice(&1u16.to_le_bytes());
    expected.extend_from_slice(&1u16.to_le_bytes());
    expected.extend_from_slice(&11025u32.to_le_bytes());
    expected.extend_from_slice(&11025u32.to_le_bytes());
    expected.extend_from_slice(&1u16.to_le_bytes());
    expected.extend_from_slice(&8u16.to_le_bytes());
    expected.extend_from_slice(&4u32.to_le_bytes());
    expected.extend_from_slice(&[5, 6, 7, 8]);
    assert_eq!(his, expected);
}

#[test]
fn wav_to_his_and_back_gives_the_same_file() {
    let mut wav = wav_header(40, 1, 1, 11025, 11025, 1, 8, 4);
    wav.extend_from_slice(&[5, 6, 7, 8]);
    let his = wav_to_his(&wav, 2).unwrap();
    match his_to_wav(&his, 8).unwrap() {
        HisOutput::Wav(w, _) => assert_eq!(w, wav),
        HisOutput::Ogg(_) => panic!("not an Ogg stream"),
    }
}

#[test]
fn wav_to_his_errors() {
    assert!(matches!(wav_to_his(&[0u8; 20], 2), Err(HisEncodeError::TooShort)));
}
