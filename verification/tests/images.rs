use open_nd::avf::{avf_to_png, AvfError, AvfFrame};
use open_nd::avf_encoder::{frame_from_rgb, png_to_avf, write_avf, AvfEncodeError, Frame};
use open_nd::image::{decode_png, encode_png};

fn png_of(pixels: &[u8], width: u16, height: u16) -> Vec<u8> {
    let mut p = pixels.to_vec();
    match encode_png(&mut p, width, height) {
        Some((file, complete)) => {
            assert!(complete);
            file
        }
        None => panic!("a side is zero"),
    }
}

#[test]
fn encode_png_pads_with_black_and_decodes_back() {
    let mut pixels = vec![10u8, 20, 30];
    let (file, complete) = encode_png(&mut pixels, 2, 1).unwrap();
    assert!(complete);
    assert_eq!(pixels, vec![10, 20, 30, 0, 0, 0]);
    assert_eq!(&file[1..4], b"PNG");
    let (w, h, buf) = decode_png(&file).unwrap();
    assert_eq!((w, h), (2, 1));
    assert_eq!(buf, vec![10, 20, 30, 0, 0, 0]);
}

#[test]
fn encode_png_refuses_a_zero_side() {
    let mut pixels = vec![1u8, 2, 3];
    assert!(encode_png(&mut pixels, 0, 4).is_none());
    assert!(encode_png(&mut pixels, 4, 0).is_none());
}

#[test]
fn encode_png_reports_too_many_pixels() {
    let mut pixels = vec![1u8; 9];
    let (_, complete) = encode_png(&mut pixels, 1, 1).unwrap();
    assert!(!complete);
    assert_eq!(pixels.len(), 9);
}

#[test]
fn decode_png_refuses_other_bytes() {
    assert!(decode_png(b"not a png file").is_none());
    assert!(decode_png(&[]).is_none());
}

#[test]
fn png_frames_survive_an_avf_file() {
    let first = [0x08u8, 0x10, 0x18, 0x20, 0x28, 0x30];
    let second = [0xF8u8, 0x40, 0x88, 0x50, 0x58, 0x60];
    let files = vec![png_of(&first, 2, 1), png_of(&second, 2, 1)];
    let avf = png_to_avf(&files).unwrap();
    assert_eq!(&avf[0..15], b"AVF WayneSikes\0");
    assert_eq!(avf[0x15], 2);
    assert_eq!(avf[0x17], 2);
    assert_eq!(avf[0x19], 1);
    let image = avf_to_png(avf).unwrap();
    assert_eq!(image.number_frames, 2);
    assert_eq!((image.frame_width, image.frame_height), (2, 1));
    assert!(!image.may_be_compressed);
    assert_eq!(image.frames_info.len(), 2);
    assert_eq!(image.frames_info[0].frame_offset, 0x21 + 2 * 19);
    assert_eq!(image.frames_info[1].frame_number, 1);
    assert_eq!(image.frames_info[0].num_pixels, 4);
    assert_eq!(image.frames.len(), 2);
    for (frame, expected) in image.frames.iter().zip([&first[..], &second[..]]) {
        match frame {
            AvfFrame::Png(file, complete) => {
                assert!(*complete);
                let (w, h, buf) = decode_png(file).unwrap();
                assert_eq!((w, h), (2, 1));
                assert_eq!(buf, expected.to_vec());
            }
            _ => panic!("frame not converted"),
        }
    }
}

#[test]
fn png_to_avf_errors() {
    let empty: Vec<Vec<u8>> = Vec::new();
    assert!(matches!(png_to_avf(&empty), Err(AvfEncodeError::NoFrames)));
    let files = vec![png_of(&[8, 8, 8], 1, 1), b"garbage".to_vec()];
    assert!(matches!(png_to_avf(&files), Err(AvfEncodeError::PngUnreadable(1))));
}

fn avf_header(count: u16) -> Vec<u8> {
    let mut d = b"AVF WayneSikes\0".to_vec();
    d.extend_from_slice(&[0, 2, 0, 0, 0, 0]);
    d.extend_from_slice(&count.to_le_bytes());
    d.extend_from_slice(&1u16.to_le_bytes());
    d.extend_from_slice(&1u16.to_le_bytes());
    d.extend_from_slice(&[0x10, 0x42, 0, 0, 0, 2]);
    d
}

#[test]
fn avf_header_errors() {
    assert!(matches!(avf_to_png(b"not an avf file at all".to_vec()), Err(AvfError::IncorrectHeader)));
    assert!(matches!(avf_to_png(b"short".to_vec()), Err(AvfError::IncorrectHeader)));
    assert!(matches!(avf_to_png(vec![0xFF; 40]), Err(AvfError::HeaderNotText)));
    let mut cut = avf_header(1);
    cut.truncate(0x1C);
    assert!(matches!(avf_to_png(cut), Err(AvfError::TruncatedHeader)));
    assert!(matches!(avf_to_png(avf_header(3)), Err(AvfError::TruncatedIndex)));
}

#[test]
fn avf_frame_past_the_end_stops_the_conversion() {
    let mut d = avf_header(2);
    for i in 0..2u16 {
        d.extend_from_slice(&i.to_le_bytes());
        d.extend_from_slice(&0x1000u32.to_le_bytes());
        d.extend_from_slice(&4u32.to_le_bytes());
        d.extend_from_slice(&[0; 9]);
    }
    let image = avf_to_png(d).unwrap();
    assert_eq!(image.frames.len(), 1);
    assert!(matches!(image.frames[0], AvfFrame::OutOfRange));
}

#[test]
fn avf_empty_frame_gives_no_image() {
    let mut d = avf_header(1);
    d.extend_from_slice(&0u16.to_le_bytes());
    d.extend_from_slice(&(0x21u32 + 19).to_le_bytes());
    d.extend_from_slice(&0u32.to_le_bytes());
    d.extend_from_slice(&[0; 9]);
    let image = avf_to_png(d).unwrap();
    assert_eq!(image.frames.len(), 1);
    assert!(matches!(image.frames[0], AvfFrame::Empty));
}

#[test]
fn frame_from_rgb_packs_compresses_and_enciphers() {
    let fr = frame_from_rgb(1, 1, &[8, 16, 24]).unwrap();
    assert_eq!((fr.width, fr.height), (1, 1));
    assert_eq!(fr.data, vec![0xFF, 0x44, 0x06]);
    assert!(frame_from_rgb(1, 1, &[1, 2]).is_none());
}

#[test]
fn write_avf_lays_out_header_index_and_frames() {
    let empty: Vec<Frame> = Vec::new();
    assert!(matches!(write_avf(&empty), Err(AvfEncodeError::NoFrames)));
    let frames = vec![Frame { width: 1, height: 1, data: vec![0xFF, 0x44, 0x06] }];
    let mut expected = b"AVF WayneSikes\0".to_vec();
    expected.extend_from_slice(&[0, 2, 0, 0, 0, 0, 1, 0, 1, 0, 1, 0, 0x10, 0x42, 0, 0, 0, 2]);
    expected.extend_from_slice(&[0, 0, 0x34, 0, 0, 0, 3, 0, 0, 0, 2, 0, 0, 0, 0, 0, 0, 0, 0]);
    expected.extend_from_slice(&[0xFF, 0x44, 0x06]);
    assert_eq!(write_avf(&frames).unwrap(), expected);
}

#[test]
fn black_frames_survive_an_avf_file() {
    let black = [0u8; 12];
    let files = vec![png_of(&black, 2, 2)];
    let image = avf_to_png(png_to_avf(&files).unwrap()).unwrap();
    match &image.frames[0] {
        AvfFrame::Png(file, complete) => {
            assert!(*complete);
            assert_eq!(decode_png(file).unwrap(), (2, 2, black.to_vec()));
        }
        _ => panic!("frame not converted"),
    }
}

#[test]
fn avf_frames_sharing_bytes_read_the_same_image() {
    let pixels = [0x08u8, 0x10, 0x18, 0x20, 0x28, 0x30];
    let files = vec![png_of(&pixels, 2, 1), png_of(&[0x40, 0x48, 0x50, 0x58, 0x60, 0x68], 2, 1)];
    let mut avf = png_to_avf(&files).unwrap();
    let first: Vec<u8> = avf[0x21 + 2..0x21 + 10].to_vec();
    avf[0x21 + 19 + 2..0x21 + 19 + 10].copy_from_slice(&first);
    let image = avf_to_png(avf).unwrap();
    assert_eq!(image.frames.len(), 2);
    for frame in &image.frames {
        match frame {
            AvfFrame::Png(file, _) => assert_eq!(decode_png(file).unwrap(), (2, 1, pixels.to_vec())),
            _ => panic!("frame not converted"),
        }
    }
}
