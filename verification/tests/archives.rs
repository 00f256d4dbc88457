use open_nd::ciftree::{ext_ciftree, gen_exts, has_cif_header, gen_tga, trim_matches_nul, CifError, CifFile, ExtsError};
use open_nd::image::decode_png;
use open_nd::lzss::encode_lzss;

fn chars(s: &str) -> Vec<char> {
    s.chars().collect()
}

#[test]
fn gen_exts_reads_names_and_extensions() {
    let list = b"# list of files\nCIFLIST\r\nNOTE.TXT\nPIC.TGA\nNOTE.DAT\n";
    let map = gen_exts(list, 4).unwrap();
    assert_eq!(map.entries.len(), 3);
    assert_eq!(map.get(&chars("CIFLIST")), Some(&chars("txt")));
    assert_eq!(map.get(&chars("NOTE")), Some(&chars("TXT")));
    assert_eq!(map.get(&chars("PIC")), Some(&chars("TGA")));
    assert_eq!(map.get(&chars("OTHER")), None);
}

#[test]
fn gen_exts_keeps_three_characters_after_the_dot() {
    let map = gen_exts(b"A.TGAX\n", 1).unwrap();
    assert_eq!(map.get(&chars("A")), Some(&chars("TGA")));
}

#[test]
fn gen_exts_errors() {
    assert!(matches!(gen_exts(&[0xFF, 0xFE], 1), Err(ExtsError::NotText)));
    assert!(matches!(gen_exts(b"A.TXT\n# only a comment\n", 2), Err(ExtsError::MissingLine)));
    assert!(matches!(gen_exts(b"A.TX\n", 1), Err(ExtsError::ShortExtension)));
    assert!(gen_exts(b"", 0).unwrap().entries.is_empty());
}

#[test]
fn gen_tga_writes_the_header() {
    let tga = gen_tga(&[0xAA, 0xBB], 0x0102, 0x0304, 0x0506, 0x0708);
    assert_eq!(
        tga,
        vec![0, 0, 2, 0, 0, 0, 0, 0, 0x06, 0x05, 0x08, 0x07, 0x02, 0x01, 0x04, 0x03, 0x10, 0x20, 0xAA, 0xBB]
    );
}

#[test]
fn trim_removes_zero_characters_at_both_ends() {
    assert_eq!(trim_matches_nul(&chars("\0\0AB\0C\0\0")), chars("AB\0C"));
    assert_eq!(trim_matches_nul(&chars("\0\0")), chars(""));
}

struct Stored {
    name: &'static str,
    content: Vec<u8>,
    width: u16,
    height: u16,
}

fn archive(files: &[Stored]) -> Vec<u8> {
    let mut d = b"CIF TREE WayneSikes\0".to_vec();
    d.resize(0x1C, 0);
    d.extend_from_slice(&(files.len() as u16).to_le_bytes());
    d.resize(0x820 + 94 * files.len(), 0);
    for (e, f) in files.iter().enumerate() {
        let mut plain = f.content.clone();
        let packed = encode_lzss(&mut plain);
        let stored: Vec<u8> = packed.iter().enumerate().map(|(n, b)| b.wrapping_add((n % 256) as u8)).collect();
        let base = 0x820 + 94 * e;
        d[base..base + f.name.len()].copy_from_slice(f.name.as_bytes());
        d[base + 0x21..base + 0x23].copy_from_slice(&(e as u16).to_le_bytes());
        d[base + 0x2B..base + 0x2D].copy_from_slice(&3u16.to_le_bytes());
        d[base + 0x2F..base + 0x31].copy_from_slice(&4u16.to_le_bytes());
        d[base + 0x43..base + 0x45].copy_from_slice(&f.width.to_le_bytes());
        d[base + 0x47..base + 0x49].copy_from_slice(&f.height.to_le_bytes());
        let offset = d.len() as u32;
        d[base + 0x4B..base + 0x4F].copy_from_slice(&offset.to_le_bytes());
        d[base + 0x4F..base + 0x53].copy_from_slice(&(f.content.len() as u32).to_le_bytes());
        d[base + 0x57..base + 0x5B].copy_from_slice(&(stored.len() as u32).to_le_bytes());
        d[base + 0x5B] = 3;
        d.extend_from_slice(&stored);
    }
    d
}

fn sample_files() -> Vec<Stored> {
    vec![
        Stored { name: "CIFLIST", content: b"CIFLIST\nNOTE.TXT\nPIC.TGA\n".to_vec(), width: 0, height: 0 },
        Stored { name: "NOTE", content: b"hello hello hello".to_vec(), width: 0, height: 0 },
        Stored { name: "PIC", content: vec![0x1F, 0x7C], width: 1, height: 1 },
    ]
}

#[test]
fn ciftree_extracts_every_file() {
    let tree = ext_ciftree(archive(&sample_files()), false).unwrap();
    assert_eq!(tree.number_entries, 3);
    assert_eq!(tree.entries.len(), 3);
    assert_eq!(tree.entries[1].filename, chars("NOTE"));
    assert_eq!(tree.entries[2].entry_num, 2);
    assert_eq!(tree.entries[2].img_origin_x, 3);
    assert_eq!(tree.entries[2].file_type, 3);
    assert_eq!(tree.files.len(), 3);
    match &tree.files[0] {
        CifFile::File(n, e, c) => {
            assert_eq!(n, &chars("CIFLIST"));
            assert_eq!(e, &chars("txt"));
            assert_eq!(c, &b"CIFLIST\nNOTE.TXT\nPIC.TGA\n".to_vec());
        }
        _ => panic!("list not extracted"),
    }
    match &tree.files[1] {
        CifFile::File(n, e, c) => {
            assert_eq!(n, &chars("NOTE"));
            assert_eq!(e, &chars("TXT"));
            assert_eq!(c, &b"hello hello hello".to_vec());
        }
        _ => panic!("note not extracted"),
    }
    match &tree.files[2] {
        CifFile::File(n, e, c) => {
            assert_eq!(n, &chars("PIC"));
            assert_eq!(e, &chars("TGA"));
            assert_eq!(c, &gen_tga(&[0x1F, 0x7C], 1, 1, 3, 4));
        }
        _ => panic!("image not extracted"),
    }
}

#[test]
fn ciftree_writes_images_as_png() {
    let tree = ext_ciftree(archive(&sample_files()), true).unwrap();
    match &tree.files[2] {
        CifFile::Png(n, png, complete) => {
            assert_eq!(n, &chars("PIC"));
            assert!(*complete);
            assert_eq!(decode_png(png).unwrap(), (1, 1, vec![0xF8, 0x00, 0xF8]));
        }
        _ => panic!("image not converted"),
    }
}

#[test]
fn ciftree_stops_at_an_unknown_name() {
    let mut files = sample_files();
    files[1].name = "OTHER";
    let tree = ext_ciftree(archive(&files), false).unwrap();
    assert_eq!(tree.files.len(), 2);
    assert!(matches!(tree.files[1], CifFile::UnknownName));
}

#[test]
fn ciftree_stops_at_a_size_mismatch() {
    let mut d = archive(&sample_files());
    let base = 0x820 + 94;
    d[base + 0x4F] = 99;
    let tree = ext_ciftree(d, false).unwrap();
    assert_eq!(tree.files.len(), 2);
    assert!(matches!(tree.files[1], CifFile::SizeMismatch));
}

#[test]
fn ciftree_stops_at_a_file_past_the_end() {
    let mut d = archive(&sample_files());
    let base = 0x820;
    d[base + 0x4B..base + 0x4F].copy_from_slice(&0x10_0000u32.to_le_bytes());
    let tree = ext_ciftree(d, false).unwrap();
    assert_eq!(tree.files.len(), 1);
    assert!(matches!(tree.files[0], CifFile::OutOfRange));
}

#[test]
fn ciftree_stops_at_an_unreadable_list() {
    let mut files = sample_files();
    files[0].content = b"CIFLIST\n".to_vec();
    let tree = ext_ciftree(archive(&files), false).unwrap();
    assert_eq!(tree.files.len(), 1);
    assert!(matches!(tree.files[0], CifFile::ListUnreadable(ExtsError::MissingLine)));
}

#[test]
fn ciftree_png_errors() {
    let mut files = sample_files();
    files[2].content = Vec::new();
    let tree = ext_ciftree(archive(&files), true).unwrap();
    assert!(matches!(tree.files[2], CifFile::EmptyImage));
    let mut files = sample_files();
    files[2].width = 0;
    let tree = ext_ciftree(archive(&files), true).unwrap();
    assert!(matches!(tree.files[2], CifFile::ZeroSide));
}

#[test]
fn ciftree_header_errors() {
    assert!(!has_cif_header(b"CIF"));
    assert!(!has_cif_header(b"CIF TREE WayneSikes\0"));
    assert!(!has_cif_header(&[b'x'; 0x40]));
    assert!(has_cif_header(&archive(&sample_files())));
    let mut d = archive(&sample_files());
    d.truncate(0x820 + 94 + 10);
    assert!(matches!(ext_ciftree(d, false), Err(CifError::TruncatedIndex(1))));
    let mut d = archive(&sample_files());
    d[0x820 + 94 * 2] = 0xFF;
    assert!(matches!(ext_ciftree(d, false), Err(CifError::NameNotText(2))));
}

#[test]
fn ciftree_entries_sharing_bytes_read_the_same_file() {
    let mut files = sample_files();
    files[0].content = b"CIFLIST\nNOTE.TXT\nPIC.TGA\nCOPY.TXT\n".to_vec();
    files.push(Stored { name: "COPY", content: b"hello hello hello".to_vec(), width: 0, height: 0 });
    let mut d = archive(&files);
    let note = 0x820 + 94;
    let copy = 0x820 + 94 * 3;
    let offset: Vec<u8> = d[note + 0x4B..note + 0x4F].to_vec();
    d[copy + 0x4B..copy + 0x4F].copy_from_slice(&offset);
    let tree = ext_ciftree(d, false).unwrap();
    assert_eq!(tree.files.len(), 4);
    match &tree.files[3] {
        CifFile::File(n, e, c) => {
            assert_eq!(n, &chars("COPY"));
            assert_eq!(e, &chars("TXT"));
            assert_eq!(c, &b"hello hello hello".to_vec());
        }
        _ => panic!("copy not extracted"),
    }
}
