use open_nd::byte_reader::{read_bytes_be, read_bytes_le};
use open_nd::lzss::{decode_lzss, encode_lzss};
use open_nd::lzss_encode;
use open_nd::rgb::{gen_rgb5_array, gen_rgb_array};

#[test]
fn read_bytes_le_reads_little_endian() {
    let data = [1u8, 2, 3, 4];
    assert_eq!(read_bytes_le(&data, 1, 2), 0x0302);
    assert_eq!(read_bytes_le(&data, 0, 4), 0x04030201);
    assert_eq!(read_bytes_le(&data, 3, 1), 4);
}

#[test]
fn read_bytes_be_reads_big_endian() {
    let data = [1u8, 2, 3, 4];
    assert_eq!(read_bytes_be(&data, 1, 2), 0x0203);
    assert_eq!(read_bytes_be(&data, 0, 4), 0x01020304);
}

#[test]
fn read_bytes_of_no_length_is_zero() {
    let data: [u8; 0] = [];
    assert_eq!(read_bytes_le(&data, 7, 0), 0);
    assert_eq!(read_bytes_be(&data, 7, 0), 0);
}

#[test]
fn read_bytes_wraps_around_the_word() {
    let data = [0xFFu8; 8];
    assert_eq!(read_bytes_le(&data, 0, 8), usize::MAX);
    let longer = [1u8, 0, 0, 0, 0, 0, 0, 0, 0x55];
    assert_eq!(read_bytes_le(&longer, 0, 9), 1);
    let be = [0x55u8, 0, 0, 0, 0, 0, 0, 0, 1];
    assert_eq!(read_bytes_be(&be, 0, 9), 1);
}

#[test]
fn rgb_array_expands_five_bit_channels() {
    assert_eq!(gen_rgb_array(&[0x1F, 0x7C]), vec![0xF8, 0x00, 0xF8]);
    assert_eq!(gen_rgb_array(&[0xE0, 0x03]), vec![0x00, 0xF8, 0x00]);
    assert_eq!(gen_rgb_array(&[0x1F, 0x7C, 0x00, 0x00]), vec![0xF8, 0x00, 0xF8, 0, 0, 0]);
}

#[test]
fn rgb_array_ignores_a_last_odd_byte() {
    assert_eq!(gen_rgb_array(&[1, 2, 3]), vec![0x00, 0x80, 0x08]);
    assert_eq!(gen_rgb_array(&[9]), Vec::<u8>::new());
}

#[test]
fn rgb5_array_packs_channels() {
    assert_eq!(gen_rgb5_array(&[0xF8, 0x00, 0xF8]), vec![0x1F, 0x7C]);
    assert_eq!(gen_rgb5_array(&[0x00, 0xFF, 0x07]), vec![0xE0, 0x03]);
    assert_eq!(gen_rgb5_array(&[]), Vec::<u8>::new());
}

#[test]
fn rgb_round_trip_keeps_top_five_bits() {
    let rgb = vec![0xFFu8, 0x17, 0x80, 0x01, 0x09, 0xF0];
    let back = gen_rgb_array(&gen_rgb5_array(&rgb));
    let expected: Vec<u8> = rgb.iter().map(|b| b & 0xF8).collect();
    assert_eq!(back, expected);
}

#[test]
fn pixel_round_trip_clears_the_unused_bit() {
    let pixels = vec![0x34u8, 0xD2, 0xFF, 0xFF];
    let back = gen_rgb5_array(&gen_rgb_array(&pixels));
    assert_eq!(back, vec![0x34, 0x52, 0xFF, 0x7F]);
}

#[test]
fn decode_lzss_literals_and_references() {
    let mut stream = vec![0xE7u8, 0x61, 0x62, 0x63, 0xEE, 0xF0, 0xEE, 0xF3];
    assert_eq!(decode_lzss(&mut stream), b"abcabcabcabc".to_vec());
}

#[test]
fn decode_lzss_reads_the_space_filled_ring() {
    // A reference to position 0 before anything was written copies spaces.
    let mut stream = vec![0x00u8, 0x00, 0x02];
    assert_eq!(decode_lzss(&mut stream), b"     ".to_vec());
}

#[test]
fn decode_lzss_stops_at_a_cut_item() {
    let mut stream = vec![0x01u8, 0x41, 0x00];
    assert_eq!(decode_lzss(&mut stream), b"A".to_vec());
    let mut empty: Vec<u8> = Vec::new();
    assert_eq!(decode_lzss(&mut empty), Vec::<u8>::new());
}

#[test]
fn encode_lzss_known_streams() {
    let mut empty: Vec<u8> = Vec::new();
    assert_eq!(encode_lzss(&mut empty), vec![0xFF]);
    let mut abc = b"abc".to_vec();
    assert_eq!(encode_lzss(&mut abc), vec![0xFF, 0x61, 0x62, 0x63]);
    let mut rep = b"abcabcabcabc".to_vec();
    assert_eq!(encode_lzss(&mut rep), vec![0xE7, 0x61, 0x62, 0x63, 0xEE, 0xF0, 0xEE, 0xF3]);
    let mut run = b"aaaaaaaaaa".to_vec();
    assert_eq!(encode_lzss(&mut run), vec![0xE7, 0x61, 0x61, 0x61, 0xEE, 0xF0, 0xEE, 0xF1]);
    let mut four = b"aaaa".to_vec();
    assert_eq!(encode_lzss(&mut four), vec![0xFF, 0x61, 0x61, 0x61, 0x61]);
    let mut digits = b"0123456789".to_vec();
    assert_eq!(
        encode_lzss(&mut digits),
        vec![0xFF, 0x30, 0x31, 0x32, 0x33, 0x34, 0x35, 0x36, 0x37, 0xFF, 0x38, 0x39]
    );
}

#[test]
fn encode_lzss_uses_the_space_filled_ring() {
    let mut text = b"   hello".to_vec();
    assert_eq!(encode_lzss(&mut text), vec![0xFE, 0x00, 0x00, 0x68, 0x65, 0x6C, 0x6C, 0x6F]);
}

#[test]
fn frame_encoder_uses_the_decoder_ring() {
    let mut text = b"   hello".to_vec();
    assert_eq!(lzss_encode::encode_lzss(&mut text), vec![0xFE, 0x00, 0x00, 0x68, 0x65, 0x6C, 0x6C, 0x6F]);
    let mut zeros = vec![0u8, 0, 0];
    let mut packed = lzss_encode::encode_lzss(&mut zeros);
    assert_eq!(packed, vec![0xFF, 0, 0, 0]);
    assert_eq!(decode_lzss(&mut packed), vec![0u8, 0, 0]);
}

#[test]
fn lzss_round_trip() {
    for text in [&b""[..], b"abc", b"abcabcabcabc", b"aaaaaaaaaa", b"   hello", b"the cat and the hat and the bat"] {
        let mut input = text.to_vec();
        let mut packed = encode_lzss(&mut input);
        assert_eq!(input, text.to_vec());
        assert_eq!(decode_lzss(&mut packed), text.to_vec());
    }
}

#[test]
fn lzss_round_trip_with_copies_that_overlap_their_source() {
    let mut input = b"abab                ".to_vec();
    let mut packed = encode_lzss(&mut input);
    assert_eq!(packed, vec![0xEF, 0x61, 0x62, 0x61, 0x62, 0x00, 0x0D]);
    assert_eq!(decode_lzss(&mut packed), b"abab                ".to_vec());
    let mut pair = vec![0x41u8, 0x41, 0x20, 0x20];
    let mut packed = encode_lzss(&mut pair);
    assert_eq!(decode_lzss(&mut packed), vec![0x41u8, 0x41, 0x20, 0x20]);
}

#[test]
fn cutting_a_stream_short_cuts_its_output_short() {
    let mut full = encode_lzss(&mut b"the cat and the hat and the bat".to_vec());
    let whole = decode_lzss(&mut full.clone());
    for k in 0..=full.len() {
        let mut cut = full[..k].to_vec();
        let part = decode_lzss(&mut cut);
        assert!(part.len() <= whole.len());
        assert_eq!(part[..], whole[..part.len()]);
    }
    assert_eq!(decode_lzss(&mut full), whole);
}

#[test]
fn big_endian_is_reversed_little_endian() {
    let data = [9u8, 1, 2, 3, 4, 9];
    let reversed = [4u8, 3, 2, 1];
    assert_eq!(read_bytes_be(&data, 1, 4), read_bytes_le(&reversed, 0, 4));
    assert_eq!(read_bytes_be(&data, 1, 4), 0x01020304);
}
