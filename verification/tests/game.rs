use open_nd::extractor::{file_actions, game_number};
use open_nd::gui::{expired_timers, rgb_to_words, BoundBox, Screen};
use open_nd::scene::{act_event, parse_acts, parse_scene_header, ActEvent, ActRecord, SceneError};

fn chars(s: &str) -> Vec<char> {
    s.chars().collect()
}

fn screen() -> Screen {
    Screen {
        window_height: 2,
        window_width: 3,
        buffer: vec![0x000001; 6],
        bounding_boxes: vec![
            BoundBox { id: 7, upper_left: (0, 0), lower_right: (1, 1) },
            BoundBox { id: 0, upper_left: (1, 0), lower_right: (2, 1) },
        ],
    }
}

#[test]
fn check_boundries_finds_the_first_box_with_edges() {
    let mut s = screen();
    assert_eq!(s.check_boundries(0, 0), Some(7));
    assert_eq!(s.check_boundries(1, 1), Some(7));
    assert_eq!(s.check_boundries(2, 1), Some(0));
    assert_eq!(s.check_boundries(2, 2), None);
    assert_eq!(s.buffer, vec![0x000001; 6]);
}

#[test]
fn draw_boxes_tints_the_box_areas() {
    let mut s = screen();
    s.draw_boxes();
    assert_eq!(s.buffer, vec![0x00AF0001, 0x00AF0001, 0x000001, 0x000001, 0x000001, 0x000001]);
    s.draw_boxes();
    assert_eq!(s.buffer, vec![0x00AF0001, 0x00AF0001, 0x000001, 0x000001, 0x000001, 0x000001]);
}

#[test]
fn buffer_write_draws_rows_at_the_position() {
    let mut s = screen();
    s.buffer_write((2, 1, vec![1, 2, 3, 4, 5, 6]), (1, 1));
    assert_eq!(s.buffer, vec![1, 1, 1, 1, 0x010203, 0x040506]);
    let mut t = screen();
    t.buffer_write((1, 2, vec![0xFF, 0, 0, 0, 0xFF, 0]), (2, 0));
    assert_eq!(t.buffer, vec![1, 1, 0xFF0000, 1, 1, 0x00FF00]);
}

#[test]
fn rgb_to_words_packs_triples() {
    assert_eq!(rgb_to_words(&vec![0x12, 0x34, 0x56, 0, 0, 0xFF]), vec![0x123456, 0x0000FF]);
}

#[test]
fn game_numbers_from_directory_names() {
    assert_eq!(game_number(&chars("SCK"), 0), 1);
    assert_eq!(game_number(&chars("STFD"), 0), 2);
    assert_eq!(game_number(&chars("TRT"), 9), 4);
    assert_eq!(game_number(&chars("DDI"), 0), 10);
    assert_eq!(game_number(&chars("CLK"), 0), 12);
    assert_eq!(game_number(&chars("Video"), 3), 3);
}

#[test]
fn file_actions_by_extension_and_name() {
    let a = file_actions(&chars("avf"), &chars("X.avf"), 0);
    assert!(a.avf && !a.his && !a.ciftree);
    assert!(file_actions(&chars("HIS"), &chars("X.HIS"), 0).his);
    assert!(file_actions(&chars("his"), &chars("X.his"), 0).his);
    assert!(!file_actions(&chars("AVF"), &chars("X.AVF"), 0).avf);
    assert!(file_actions(&chars("DAT"), &chars("CIFTREE.DAT"), 4).ciftree);
    assert!(!file_actions(&chars("DAT"), &chars("CIFTREE.DAT"), 2).ciftree);
    assert!(!file_actions(&chars("DAT"), &chars("CIFTREE.DAT"), 11).ciftree);
}

fn put(d: &mut Vec<u8>, at: usize, text: &[u8]) {
    d[at..at + text.len()].copy_from_slice(text);
}

fn scene() -> Vec<u8> {
    let mut d = vec![0u8; 0xBA];
    put(&mut d, 0, b"DATA");
    put(&mut d, 4, &0x151u32.to_be_bytes());
    put(&mut d, 8, b"SCENSSUM");
    put(&mut d, 0x14, b"The hallway");
    put(&mut d, 0x46, b"HALL");
    put(&mut d, 0x6B, b"STEPS");
    let mut act = vec![0u8; 0x3A];
    put(&mut act, 0, b"ACT\0");
    put(&mut act, 4, &0x34u32.to_be_bytes());
    put(&mut act, 8, b"go on");
    act[0x38] = 0x0C;
    act[0x39] = 1;
    act.extend_from_slice(&[0x05, 0x01]);
    d.extend_from_slice(&act);
    let mut sound = vec![0u8; 0x3A];
    put(&mut sound, 0, b"ACT\0");
    put(&mut sound, 4, &0x53u32.to_be_bytes());
    sound[0x38] = 0x96;
    let mut name = vec![0u8; 33];
    put(&mut name, 0, b"VOICE1");
    sound.extend_from_slice(&name);
    d.extend_from_slice(&sound);
    d
}

#[test]
fn scene_header_fields() {
    let h = parse_scene_header(&scene()).unwrap();
    assert_eq!(h.file_size, 0x151);
    assert_eq!(scene().len(), 0x151);
    assert_eq!(h.description, chars("The hallway"));
    assert_eq!(h.image_file, chars("HALL"));
    assert_eq!(h.audio_file, chars("STEPS"));
}

#[test]
fn scene_header_errors() {
    assert!(matches!(parse_scene_header(&[0u8; 10]), Err(SceneError::BadHeader)));
    let mut d = scene();
    put(&mut d, 8, b"SCENSXXX");
    assert!(matches!(parse_scene_header(&d), Err(SceneError::BadHeader)));
    let mut d = scene();
    d[0x20] = 0xFF;
    assert!(matches!(parse_scene_header(&d), Err(SceneError::BadHeader)));
}

#[test]
fn scene_acts_and_events() {
    let acts = parse_acts(&scene()).unwrap();
    assert_eq!(acts.len(), 2);
    assert_eq!(acts[0].size, 0x34);
    assert_eq!(acts[0].description, chars("go on"));
    assert_eq!(acts[0].record_type_variation, 1);
    assert_eq!(acts[0].rest, vec![0x05, 0x01]);
    assert!(matches!(act_event(&acts[0]), ActEvent::NextScene(0x0105)));
    match act_event(&acts[1]) {
        ActEvent::PlayAudio(name) => assert_eq!(name, chars("VOICE1")),
        _ => panic!("a sound act"),
    }
}

#[test]
fn scene_act_errors() {
    let mut d = scene();
    d.truncate(0xBA + 0x20);
    assert!(matches!(parse_acts(&d), Err(SceneError::BadAct(0xBA))));
    let d = vec![0u8; 0xC0];
    assert!(matches!(parse_acts(&d), Err(SceneError::BadAct(0xC0))));
    let mut d = scene();
    put(&mut d, 0xBA + 4, &0x10u32.to_be_bytes());
    assert!(matches!(parse_acts(&d), Err(SceneError::BadAct(0xBA))));
}

#[test]
fn act_events_of_other_types() {
    let other = ActRecord { size: 0x32, description: Vec::new(), record_type: 0x4B, record_type_variation: 1, rest: Vec::new() };
    assert!(matches!(act_event(&other), ActEvent::Nothing));
    let short = ActRecord { size: 0x33, description: Vec::new(), record_type: 0x0C, record_type_variation: 1, rest: vec![1] };
    assert!(matches!(act_event(&short), ActEvent::Malformed));
    let bad = ActRecord { size: 0x53, description: Vec::new(), record_type: 0x96, record_type_variation: 0, rest: vec![0xFF; 33] };
    assert!(matches!(act_event(&bad), ActEvent::Malformed));
}

#[test]
fn expired_timers_last_first() {
    let elapsed = vec![5u128, 1, 9, 3];
    let durations = vec![5u128, 2, 4, 7];
    assert_eq!(expired_timers(&elapsed, &durations), vec![2, 0]);
    assert_eq!(expired_timers(&Vec::new(), &Vec::new()), Vec::<usize>::new());
}
