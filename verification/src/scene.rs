//! Scene files: a header naming the scene's image and sound, then act
//! records, some of which lead to another scene or play a sound.

use vstd::prelude::*;
use vstd::utf8::{decode_utf8, valid_utf8};
use crate::byte_reader::{be32_at, copy_range, le16_at, read_u16_le, read_u32_be};
use crate::ciftree::{trim_matches_nul, trim_nuls};
use crate::text::utf8_chars;

verus! {

/// The text of `d[start..end]`, without leading and trailing zero characters.
pub open spec fn field_text(d: Seq<u8>, start: int, end: int) -> Seq<char> {
    trim_nuls(decode_utf8(d.subrange(start, end)))
}

/// Whether `d[start..end]` is UTF-8 text.
pub open spec fn field_ok(d: Seq<u8>, start: int, end: int) -> bool {
    valid_utf8(d.subrange(start, end))
}

/// Whether `d` has a scene header: "DATA", the size, "SCENSSUM", then the
/// description, image and sound fields, all text.
pub open spec fn scene_header_ok(d: Seq<u8>) -> bool {
    &&& d.len() >= 0x8C
    &&& field_ok(d, 0, 4)
    &&& field_text(d, 0, 4) == seq!['D', 'A', 'T', 'A']
    &&& field_ok(d, 0x08, 0x10)
    &&& field_text(d, 0x08, 0x10) == seq!['S', 'C', 'E', 'N', 'S', 'S', 'U', 'M']
    &&& field_ok(d, 0x14, 0x46)
    &&& field_ok(d, 0x46, 0x67)
    &&& field_ok(d, 0x6B, 0x8C)
}

/// The header of a scene file.
#[derive(Debug)]
pub struct SceneHeader {
    /// The size of the file, big-endian at byte 4.
    pub file_size: u32,
    pub description: Vec<char>,
    pub image_file: Vec<char>,
    pub audio_file: Vec<char>,
}

/// Why a scene file cannot be read.
#[derive(Debug)]
pub enum SceneError {
    /// The header is cut short, is not text, or names another kind or version of file.
    BadHeader,
    /// No act follows, or the act at this position is cut short, has a
    /// description that is not text, or is shorter than its fixed fields.
    BadAct(usize),
}

fn field(data: &[u8], start: usize, end: usize) -> (r: Option<Vec<char>>)
    requires
        start <= end <= data@.len(),
    ensures
        r is Some <==> field_ok(data@, start as int, end as int),
        r matches Some(t) ==> t@ == field_text(data@, start as int, end as int),
{
    let bytes = copy_range(data, start, end);
    match utf8_chars(&bytes) {
        Some(c) => Some(trim_matches_nul(&c)),
        None => None,
    }
}

/// Reads the header of a scene file.
pub fn parse_scene_header(data: &[u8]) -> (res: Result<SceneHeader, SceneError>)
    ensures
        match res {
            Ok(h) => {
                &&& scene_header_ok(data@)
                &&& h.file_size as int == be32_at(data@, 4)
                &&& h.description@ == field_text(data@, 0x14, 0x46)
                &&& h.image_file@ == field_text(data@, 0x46, 0x67)
                &&& h.audio_file@ == field_text(data@, 0x6B, 0x8C)
            },
            Err(e) => e is BadHeader && !scene_header_ok(data@),
        },
{
    if data.len() < 0x8C {
        return Err(SceneError::BadHeader);
    }
    let kind = match field(data, 0, 4) {
        Some(t) => t,
        None => return Err(SceneError::BadHeader),
    };
    if !crate::ciftree::chars_equal(&kind, &vec!['D', 'A', 'T', 'A']) {
        return Err(SceneError::BadHeader);
    }
    let file_size = read_u32_be(data, 0x04);
    let version = match field(data, 0x08, 0x10) {
        Some(t) => t,
        None => return Err(SceneError::BadHeader),
    };
    if !crate::ciftree::chars_equal(&version, &vec!['S', 'C', 'E', 'N', 'S', 'S', 'U', 'M']) {
        return Err(SceneError::BadHeader);
    }
    let description = match field(data, 0x14, 0x46) {
        Some(t) => t,
        None => return Err(SceneError::BadHeader),
    };
    let image_file = match field(data, 0x46, 0x67) {
        Some(t) => t,
        None => return Err(SceneError::BadHeader),
    };
    let audio_file = match field(data, 0x6B, 0x8C) {
        Some(t) => t,
        None => return Err(SceneError::BadHeader),
    };
    Ok(SceneHeader { file_size, description, image_file, audio_file })
}

/// Position of the first act record.
pub const ACTS_START: usize = 0xBA;

/// The first position at or after `hr` that holds an 'A', or the length of `d`.
pub open spec fn next_act(d: Seq<u8>, hr: int) -> int
    decreases d.len() - hr,
{
    if hr < 0 || hr >= d.len() {
        d.len() as int
    } else if d[hr] == 0x41 {
        hr
    } else {
        next_act(d, hr + 1)
    }
}

/// The next act is looked for no earlier than `hr`, and found within `d` or
/// at its end.
pub proof fn lemma_next_act_bounds(d: Seq<u8>, hr: int)
    requires
        0 <= hr,
    ensures
        next_act(d, hr) >= hr || next_act(d, hr) == d.len(),
        next_act(d, hr) <= d.len() || next_act(d, hr) == hr,
    decreases d.len() - hr,
{
    if hr < d.len() && d[hr] != 0x41 {
        lemma_next_act_bounds(d, hr + 1);
    }
}

/// Whether the act at `a` can be read: its fixed fields lie within `d`, its
/// description is text, and its stated length covers its fixed fields and
/// stays within `d`.
pub open spec fn act_ok(d: Seq<u8>, a: int) -> bool {
    &&& 0 <= a
    &&& a + 0x3A <= d.len()
    &&& field_ok(d, a + 8, a + 0x38)
    &&& be32_at(d, a + 4) >= 0x32
    &&& a + 8 + be32_at(d, a + 4) <= d.len()
}

/// One act record, read.
pub struct ActSpec {
    pub size: int,
    pub description: Seq<char>,
    pub record_type: u8,
    pub record_type_variation: u8,
    pub rest: Seq<u8>,
}

/// The act at `a` of `d`.
pub open spec fn act_at(d: Seq<u8>, a: int) -> ActSpec {
    ActSpec {
        size: be32_at(d, a + 4),
        description: field_text(d, a + 8, a + 0x38),
        record_type: d[a + 0x38],
        record_type_variation: d[a + 0x39],
        rest: d.subrange(a + 0x3A, a + 8 + be32_at(d, a + 4)),
    }
}

/// The acts of `d` from position `hr` on: each begins at the next 'A', and
/// the next is looked for after its stated length plus eight; reading ends
/// once that position reaches the last byte. `Err` gives the position of an
/// act that cannot be read, or the length of `d` when no 'A' is left.
pub open spec fn acts_from(d: Seq<u8>, hr: int) -> Result<Seq<ActSpec>, int>
    decreases d.len() - hr,
{
    let a = next_act(d, hr);
    if hr < 0 || a >= d.len() {
        Err(a)
    } else if !act_ok(d, a) {
        Err(a)
    } else {
        let next = a + be32_at(d, a + 4) + 8;
        proof {
            lemma_next_act_bounds(d, hr);
        }
        if next >= d.len() - 1 {
            Ok(seq![act_at(d, a)])
        } else {
            match acts_from(d, next) {
                Ok(rest) => Ok(seq![act_at(d, a)] + rest),
                Err(p) => Err(p),
            }
        }
    }
}

/// One act record.
#[derive(Debug)]
pub struct ActRecord {
    pub size: u32,
    pub description: Vec<char>,
    pub record_type: u8,
    pub record_type_variation: u8,
    pub rest: Vec<u8>,
}

impl View for ActRecord {
    type V = ActSpec;

    open spec fn view(&self) -> ActSpec {
        ActSpec {
            size: self.size as int,
            description: self.description@,
            record_type: self.record_type,
            record_type_variation: self.record_type_variation,
            rest: self.rest@,
        }
    }
}

/// Reads the act records of a scene file, from byte 0xBA on.
pub fn parse_acts(data: &[u8]) -> (res: Result<Vec<ActRecord>, SceneError>)
    ensures
        match res {
            Ok(acts) => acts_from(data@, ACTS_START as int) == Ok::<Seq<ActSpec>, int>(
                acts@.map_values(|a: ActRecord| a@),
            ),
            Err(SceneError::BadAct(p)) => acts_from(data@, ACTS_START as int) == Err::<Seq<ActSpec>, int>(p as int),
            Err(_) => false,
        },
{
    let n = data.len();
    let ghost d = data@;
    let mut acts: Vec<ActRecord> = Vec::new();
    let mut hr: usize = ACTS_START;
    loop
        invariant
            n == d.len(),
            d == data@,
            hr < n - 1 || hr == ACTS_START,
            acts_from(d, ACTS_START as int) == match acts_from(d, hr as int) {
                Ok(rest) => Ok(acts@.map_values(|a: ActRecord| a@) + rest),
                Err(p) => Err::<Seq<ActSpec>, int>(p),
            },
        decreases n - hr,
    {
        let ghost start = hr as int;
        let mut a = hr;
        while a < n && data[a] != 0x41
            invariant
                n == d.len(),
                d == data@,
                start <= a,
                a <= n || a == start,
                next_act(d, start) == next_act(d, a as int),
            decreases n - a,
        {
            a += 1;
        }
        if a >= n {
            return Err(SceneError::BadAct(n));
        }
        if n - a < 0x3A {
            return Err(SceneError::BadAct(a));
        }
        let size = read_u32_be(data, a + 4);
        let description = match field(data, a + 8, a + 0x38) {
            Some(t) => t,
            None => return Err(SceneError::BadAct(a)),
        };
        if size < 0x32 || (size as usize) > n - a - 8 {
            return Err(SceneError::BadAct(a));
        }
        let rest = copy_range(data, a + 0x3A, a + 8 + size as usize);
        let act = ActRecord {
            size,
            description,
            record_type: data[a + 0x38],
            record_type_variation: data[a + 0x39],
            rest,
        };
        let ghost before = acts@.map_values(|r: ActRecord| r@);
        assert(act@ == act_at(d, a as int));
        acts.push(act);
        assert(acts@.map_values(|r: ActRecord| r@) =~= before.push(act_at(d, a as int)));
        let next = a + size as usize + 8;
        if next >= n - 1 {
            assert(acts_from(d, start) == Ok::<Seq<ActSpec>, int>(seq![act_at(d, a as int)]));
            assert(before + seq![act_at(d, a as int)] =~= before.push(act_at(d, a as int)));
            return Ok(acts);
        }
        proof {
            match acts_from(d, next as int) {
                Ok(r) => {
                    assert(before + (seq![act_at(d, a as int)] + r) =~= before.push(act_at(d, a as int)) + r);
                },
                Err(p) => {},
            }
        }
        hr = next;
    }
}

/// What an act leads to.
#[derive(Debug)]
pub enum ActEvent {
    /// Go to the scene with this number.
    NextScene(u16),
    /// Play the sound file with this name (without extension).
    PlayAudio(Vec<char>),
    /// Nothing that is acted on yet.
    Nothing,
    /// The act is too short for its type, or its sound name is not text; this
    /// ends the reading.
    Malformed,
}

/// What an act leads to: type 0x0C names the next scene in its first two
/// bytes, type 0x96 names a sound in its first 33 bytes.
pub open spec fn act_event_spec(a: ActSpec) -> Option<Option<(bool, int, Seq<char>)>> {
    if a.record_type == 0x0C {
        if a.rest.len() < 2 {
            None
        } else {
            Some(Some((true, le16_at(a.rest, 0), Seq::empty())))
        }
    } else if a.record_type == 0x96 {
        if a.rest.len() < 33 || !valid_utf8(a.rest.subrange(0, 33)) {
            None
        } else {
            Some(Some((false, 0, trim_nuls(decode_utf8(a.rest.subrange(0, 33))))))
        }
    } else {
        Some(None)
    }
}

/// Works out what an act leads to.
pub fn act_event(act: &ActRecord) -> (e: ActEvent)
    ensures
        match e {
            ActEvent::NextScene(s) => act_event_spec(act@) == Some(Some((true, s as int, Seq::<char>::empty()))),
            ActEvent::PlayAudio(name) => act_event_spec(act@) == Some(Some((false, 0int, name@))),
            ActEvent::Nothing => act_event_spec(act@) == Some(None::<(bool, int, Seq<char>)>),
            ActEvent::Malformed => act_event_spec(act@) is None,
        },
{
    if act.record_type == 0x0C {
        if act.rest.len() < 2 {
            return ActEvent::Malformed;
        }
        ActEvent::NextScene(read_u16_le(&act.rest, 0))
    } else if act.record_type == 0x96 {
        if act.rest.len() < 33 {
            return ActEvent::Malformed;
        }
        match field(&act.rest, 0, 33) {
            Some(name) => ActEvent::PlayAudio(name),
            None => ActEvent::Malformed,
        }
    } else {
        ActEvent::Nothing
    }
}

/// Where an act is looked for, a byte other than the 'A' of "ACT" is passed
/// over: reading the acts from there gives what reading them from the next
/// byte gives. So zero bytes after an act, before the next one, change
/// nothing.
pub proof fn lemma_acts_skip_to_a(d: Seq<u8>, hr: int)
    requires
        0 <= hr < d.len(),
        d[hr] != 0x41,
    ensures
        acts_from(d, hr) == acts_from(d, hr + 1),
{
    assert(next_act(d, hr) == next_act(d, hr + 1));
}

/// An act is read where its 'A' stands: its size is the big-endian number
/// four bytes on, its type and variation the bytes 0x38 and 0x39 on, its data
/// runs from 0x3A bytes on to eight bytes past its size, and the acts after
/// it are those read from eight bytes past its size.
pub proof fn lemma_act_read_at_a(d: Seq<u8>, hr: int)
    requires
        0 <= hr < d.len(),
        d[hr] == 0x41,
        acts_from(d, hr) is Ok,
    ensures
        ({
            let acts = acts_from(d, hr)->Ok_0;
            let size = be32_at(d, hr + 4);
            let next = hr + size + 8;
            &&& acts.len() >= 1
            &&& acts[0].size == size
            &&& acts[0].record_type == d[hr + 0x38]
            &&& acts[0].record_type_variation == d[hr + 0x39]
            &&& acts[0].rest == d.subrange(hr + 0x3A, hr + 8 + size)
            &&& next >= d.len() - 1 ==> acts.len() == 1
            &&& next < d.len() - 1 ==> acts_from(d, next) is Ok && acts.drop_first() == acts_from(d, next)->Ok_0
        }),
{
    assert(next_act(d, hr) == hr);
    let acts = acts_from(d, hr)->Ok_0;
    let size = be32_at(d, hr + 4);
    let next = hr + size + 8;
    if next < d.len() - 1 {
        let rest = acts_from(d, next)->Ok_0;
        assert(acts == seq![act_at(d, hr)] + rest);
        assert(acts.drop_first() =~= rest);
    }
}

} // verus!
