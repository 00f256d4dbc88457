//! CIFTREE archives: an index of entries, each a file compressed with LZSS
//! and enciphered as AVF frames are, and a list that gives each file its
//! extension.

use vstd::prelude::*;
use vstd::utf8::{decode_utf8, valid_utf8};
use crate::avf::{decipher, decipher_span};
use crate::avf_encoder::{le16_bytes, lemma_le16_bytes_read, push_u16_le};
use crate::byte_reader::{copy_range, le16_at, le32_at, read_u16_le, read_u32_le, read_u8, starts_with};
use crate::image::{encode_png, png_rgb8_file, png_samples};
use crate::lzss::{decode_lzss, lzss_decoded};
use crate::rgb::{gen_rgb_array, rgb_from_555};
use crate::text::{split_lines, text_lines, utf8_chars};

verus! {

/// The name the list gives itself on its lines without a dot.
pub open spec fn ciflist_name() -> Seq<char> {
    seq!['C', 'I', 'F', 'L', 'I', 'S', 'T']
}

/// The extension the list gives itself.
pub open spec fn ciflist_ext() -> Seq<char> {
    seq!['t', 'x', 't']
}

/// The position of the first '.' in `l` at or after `from`, or the length of `l`.
pub open spec fn dot_from(l: Seq<char>, from: int) -> int
    decreases l.len() - from,
{
    if from < 0 || from >= l.len() {
        l.len() as int
    } else if l[from] == '.' {
        from
    } else {
        dot_from(l, from + 1)
    }
}

/// The name and extension a line of the list gives: the text before the
/// first dot and the three characters after it, or the list's own name and
/// extension when there is no dot; `None` when fewer than three characters
/// follow the dot.
pub open spec fn parse_list_line(l: Seq<char>) -> Option<(Seq<char>, Seq<char>)> {
    let dot = dot_from(l, 0);
    if dot >= l.len() {
        Some((ciflist_name(), ciflist_ext()))
    } else if dot + 4 > l.len() {
        None
    } else {
        Some((l.subrange(0, dot), l.subrange(dot + 1, dot + 4)))
    }
}

/// The first line at or after `li` without a '#', or the number of lines.
pub open spec fn next_unhashed(lines: Seq<Seq<char>>, li: int) -> int
    decreases lines.len() - li,
{
    if li < 0 || li >= lines.len() {
        lines.len() as int
    } else if lines[li].contains('#') {
        next_unhashed(lines, li + 1)
    } else {
        li
    }
}

/// Why the list of extensions cannot be read.
#[derive(Debug)]
pub enum ExtsError {
    /// The list is not UTF-8 text.
    NotText,
    /// The list has fewer lines without '#' than there are entries.
    MissingLine,
    /// A line has fewer than three characters after its dot.
    ShortExtension,
}

/// The names and extensions of `k` lines without '#' of `lines`, from line
/// `li` on, in order.
pub open spec fn list_pairs(lines: Seq<Seq<char>>, li: int, k: nat) -> Result<Seq<(Seq<char>, Seq<char>)>, ExtsError>
    decreases k,
{
    if k == 0 {
        Ok(Seq::empty())
    } else {
        let j = next_unhashed(lines, li);
        if j >= lines.len() {
            Err(ExtsError::MissingLine)
        } else {
            match parse_list_line(lines[j]) {
                None => Err(ExtsError::ShortExtension),
                Some(p) => match list_pairs(lines, j + 1, (k - 1) as nat) {
                    Ok(rest) => Ok(seq![p] + rest),
                    Err(e) => Err(e),
                },
            }
        }
    }
}

/// The map from names to extensions that `pairs` gives, the first pair of
/// each name winning.
pub open spec fn first_wins(pairs: Seq<(Seq<char>, Seq<char>)>) -> Map<Seq<char>, Seq<char>>
    decreases pairs.len(),
{
    if pairs.len() == 0 {
        Map::empty()
    } else {
        let m = first_wins(pairs.drop_last());
        if m.contains_key(pairs.last().0) {
            m
        } else {
            m.insert(pairs.last().0, pairs.last().1)
        }
    }
}

/// The extensions that the list `file` gives for `size` entries.
pub open spec fn list_extensions(file: Seq<u8>, size: nat) -> Result<Map<Seq<char>, Seq<char>>, ExtsError> {
    if !valid_utf8(file) {
        Err(ExtsError::NotText)
    } else {
        match list_pairs(text_lines(decode_utf8(file)), 0, size) {
            Ok(pairs) => Ok(first_wins(pairs)),
            Err(e) => Err(e),
        }
    }
}

/// A map from file names to extensions, each name once.
#[derive(Debug)]
pub struct ExtensionMap {
    pub entries: Vec<(Vec<char>, Vec<char>)>,
}

impl ExtensionMap {
    /// No name occurs twice.
    pub open spec fn wf(&self) -> bool {
        forall|i: int, j: int|
            0 <= i < j < self.entries@.len() ==> #[trigger] self.entries@[i].0@ != #[trigger] self.entries@[j].0@
    }

    /// The map from names to extensions.
    pub open spec fn view_map(&self) -> Map<Seq<char>, Seq<char>> {
        Map::new(
            |k: Seq<char>| exists|i: int| 0 <= i < self.entries@.len() && #[trigger] self.entries@[i].0@ == k,
            |k: Seq<char>|
                self.entries@[choose|i: int| 0 <= i < self.entries@.len() && #[trigger] self.entries@[i].0@ == k].1@,
        )
    }

    proof fn lemma_unique(&self, i: int, j: int)
        requires
            self.wf(),
            0 <= i < self.entries@.len(),
            0 <= j < self.entries@.len(),
            self.entries@[i].0@ == self.entries@[j].0@,
        ensures
            i == j,
    {
        if i < j {
            assert(self.entries@[i].0@ != self.entries@[j].0@);
        } else if j < i {
            assert(self.entries@[j].0@ != self.entries@[i].0@);
        }
    }

    /// The extension of `name`, if the map has one.
    pub fn get(&self, name: &Vec<char>) -> (r: Option<&Vec<char>>)
        requires
            self.wf(),
        ensures
            r is Some <==> self.view_map().contains_key(name@),
            r matches Some(e) ==> e@ == self.view_map()[name@],
    {
        let mut i: usize = 0;
        while i < self.entries.len()
            invariant
                self.wf(),
                i <= self.entries@.len(),
                forall|k: int| 0 <= k < i ==> #[trigger] self.entries@[k].0@ != name@,
            decreases self.entries@.len() - i,
        {
            if chars_equal(&self.entries[i].0, name) {
                proof {
                    assert(self.view_map().contains_key(name@));
                    let c = choose|k: int| 0 <= k < self.entries@.len() && #[trigger] self.entries@[k].0@ == name@;
                    self.lemma_unique(c, i as int);
                }
                return Some(&self.entries[i].1);
            }
            i += 1;
        }
        None
    }
}

/// Whether two texts are equal.
pub fn chars_equal(a: &Vec<char>, b: &Vec<char>) -> (r: bool)
    ensures
        r == (a@ == b@),
{
    if a.len() != b.len() {
        return false;
    }
    let mut i: usize = 0;
    while i < a.len()
        invariant
            a@.len() == b@.len(),
            i <= a@.len(),
            forall|k: int| 0 <= k < i ==> a@[k] == b@[k],
        decreases a@.len() - i,
    {
        if a[i] != b[i] {
            return false;
        }
        i += 1;
    }
    assert(a@ =~= b@);
    true
}

fn contains_hash(l: &Vec<char>) -> (r: bool)
    ensures
        r == l@.contains('#'),
{
    let mut i: usize = 0;
    while i < l.len()
        invariant
            i <= l@.len(),
            forall|k: int| 0 <= k < i ==> l@[k] != '#',
        decreases l@.len() - i,
    {
        if l[i] == '#' {
            assert(l@[i as int] == '#');
            return true;
        }
        i += 1;
    }
    false
}

fn copy_chars(l: &Vec<char>, start: usize, end: usize) -> (r: Vec<char>)
    requires
        start <= end <= l@.len(),
    ensures
        r@ == l@.subrange(start as int, end as int),
{
    let mut r: Vec<char> = Vec::new();
    let mut i = start;
    while i < end
        invariant
            start <= i <= end <= l@.len(),
            r@ == l@.subrange(start as int, i as int),
        decreases end - i,
    {
        r.push(l[i]);
        i += 1;
        assert(r@ =~= l@.subrange(start as int, i as int));
    }
    r
}

fn parse_line(l: &Vec<char>) -> (r: Option<(Vec<char>, Vec<char>)>)
    ensures
        match r {
            Some((n, e)) => parse_list_line(l@) == Some((n@, e@)),
            None => parse_list_line(l@) is None,
        },
{
    let mut dot: usize = 0;
    while dot < l.len() && l[dot] != '.'
        invariant
            dot <= l@.len(),
            dot_from(l@, 0) == dot_from(l@, dot as int),
        decreases l@.len() - dot,
    {
        dot += 1;
    }
    if dot >= l.len() {
        let name: Vec<char> = vec!['C', 'I', 'F', 'L', 'I', 'S', 'T'];
        let ext: Vec<char> = vec!['t', 'x', 't'];
        assert(name@ =~= ciflist_name());
        assert(ext@ =~= ciflist_ext());
        return Some((name, ext));
    }
    if l.len() - dot < 4 {
        return None;
    }
    Some((copy_chars(l, 0, dot), copy_chars(l, dot + 1, dot + 4)))
}

/// Reads the list of extensions, the first file of a CIFTREE archive: one
/// name and extension for each of `size` entries, taken from the lines
/// without a '#'; a name listed twice keeps its first extension.
pub fn gen_exts(file: &[u8], size: usize) -> (res: Result<ExtensionMap, ExtsError>)
    ensures
        match res {
            Ok(m) => m.wf() && list_extensions(file@, size as nat) == Ok::<Map<Seq<char>, Seq<char>>, ExtsError>(
                m.view_map(),
            ),
            Err(e) => list_extensions(file@, size as nat) == Err::<Map<Seq<char>, Seq<char>>, ExtsError>(e),
        },
{
    let text = match utf8_chars(file) {
        Some(t) => t,
        None => return Err(ExtsError::NotText),
    };
    let lines = split_lines(&text);
    let ghost ls = text_lines(text@);
    let mut map = ExtensionMap { entries: Vec::new() };
    let ghost mut pairs: Seq<(Seq<char>, Seq<char>)> = Seq::empty();
    let mut li: usize = 0;
    let mut k: usize = 0;
    while k < size
        invariant
            valid_utf8(file@),
            text@ == decode_utf8(file@),
            ls == text_lines(text@),
            lines@.len() == ls.len(),
            forall|i: int| 0 <= i < lines@.len() ==> #[trigger] lines@[i]@ == ls[i],
            li <= lines@.len(),
            k <= size,
            map.wf(),
            map.view_map() == first_wins(pairs),
            list_pairs(ls, 0, size as nat) == match list_pairs(ls, li as int, (size - k) as nat) {
                Ok(rest) => Ok(pairs + rest),
                Err(e) => Err::<Seq<(Seq<char>, Seq<char>)>, ExtsError>(e),
            },
        decreases size - k,
    {
        let ghost li0 = li as int;
        while li < lines.len() && contains_hash(&lines[li])
            invariant
                lines@.len() == ls.len(),
                forall|i: int| 0 <= i < lines@.len() ==> #[trigger] lines@[i]@ == ls[i],
                li0 <= li <= lines@.len(),
                next_unhashed(ls, li0) == next_unhashed(ls, li as int),
            decreases lines@.len() - li,
        {
            li += 1;
        }
        if li >= lines.len() {
            proof {
                assert(list_pairs(ls, li0, (size - k) as nat) == Err::<Seq<(Seq<char>, Seq<char>)>, ExtsError>(
                    ExtsError::MissingLine,
                ));
                assert(list_extensions(file@, size as nat) == Err::<Map<Seq<char>, Seq<char>>, ExtsError>(ExtsError::MissingLine));
            }
            return Err(ExtsError::MissingLine);
        }
        let (name, ext) = match parse_line(&lines[li]) {
            Some(p) => p,
            None => {
                proof {
                    assert(lines@[li as int]@ == ls[li as int]);
                    assert(list_pairs(ls, li0, (size - k) as nat) == Err::<Seq<(Seq<char>, Seq<char>)>, ExtsError>(
                        ExtsError::ShortExtension,
                    ));
                    assert(list_extensions(file@, size as nat) == Err::<Map<Seq<char>, Seq<char>>, ExtsError>(ExtsError::ShortExtension));
                }
                return Err(ExtsError::ShortExtension);
            },
        };
        let ghost p = (name@, ext@);
        proof {
            assert(list_pairs(ls, li0, (size - k) as nat) == match list_pairs(ls, li + 1, (size - k - 1) as nat) {
                Ok(rest) => Ok(seq![p] + rest),
                Err(e) => Err::<Seq<(Seq<char>, Seq<char>)>, ExtsError>(e),
            });
            match list_pairs(ls, li + 1, (size - k - 1) as nat) {
                Ok(rest) => {
                    assert(pairs + (seq![p] + rest) =~= pairs.push(p) + rest);
                },
                Err(e) => {},
            }
            assert(pairs.push(p).drop_last() =~= pairs);
        }
        if map.get(&name).is_none() {
            let ghost old_entries = map.entries@;
            map.entries.push((name, ext));
            proof {
                assert(map.view_map() =~= first_wins(pairs).insert(p.0, p.1)) by {
                    assert forall|key: Seq<char>| #[trigger] map.view_map().contains_key(key) == first_wins(
                        pairs,
                    ).insert(p.0, p.1).contains_key(key) by {
                        if key == p.0 {
                            assert(map.entries@[old_entries.len() as int].0@ == key);
                        } else if map.view_map().contains_key(key) {
                            let i = choose|i: int| 0 <= i < map.entries@.len() && #[trigger] map.entries@[i].0@ == key;
                            assert(old_entries[i].0@ == key);
                        } else if first_wins(pairs).contains_key(key) {
                            let i = choose|i: int| 0 <= i < old_entries.len() && #[trigger] old_entries[i].0@ == key;
                            assert(map.entries@[i].0@ == key);
                        }
                    }
                    assert forall|key: Seq<char>| #[trigger] map.view_map().contains_key(key) implies map.view_map()[key]
                        == first_wins(pairs).insert(p.0, p.1)[key] by {
                        let i = choose|i: int| 0 <= i < map.entries@.len() && #[trigger] map.entries@[i].0@ == key;
                        if key == p.0 {
                            assert(i == old_entries.len());
                        } else {
                            assert(old_entries[i].0@ == key);
                            let j = choose|j: int| 0 <= j < old_entries.len() && #[trigger] old_entries[j].0@ == key;
                            assert(i == j);
                        }
                    }
                }
            }
        }
        proof {
            pairs = pairs.push(p);
        }
        li += 1;
        k += 1;
    }
    proof {
        assert(list_pairs(ls, li as int, 0) == Ok::<Seq<(Seq<char>, Seq<char>)>, ExtsError>(Seq::empty()));
        assert(pairs + Seq::<(Seq<char>, Seq<char>)>::empty() =~= pairs);
    }
    Ok(map)
}

/// The 18-byte header of an uncompressed 16-bit TGA image of `width` by
/// `height` pixels with origin `(ox, oy)` and its first row at the top.
pub open spec fn tga_header(width: u16, height: u16, ox: u16, oy: u16) -> Seq<u8> {
    seq![0u8, 0u8, 0x02u8, 0u8, 0u8, 0u8, 0u8, 0u8] + le16_bytes(ox as int) + le16_bytes(oy as int) + le16_bytes(
        width as int,
    ) + le16_bytes(height as int) + seq![0x10u8, 0x20u8]
}

/// Wraps 16-bit pixels in a TGA image.
pub fn gen_tga(file: &[u8], width: u16, height: u16, ox: u16, oy: u16) -> (a: Vec<u8>)
    ensures
        a@ == tga_header(width, height, ox, oy) + file@,
{
    let mut a: Vec<u8> = vec![0x00, 0x00, 0x02, 0x00, 0x00, 0x00, 0x00, 0x00];
    push_u16_le(&mut a, ox);
    push_u16_le(&mut a, oy);
    push_u16_le(&mut a, width);
    push_u16_le(&mut a, height);
    a.push(0x10);
    a.push(0x20);
    let ghost head = a@;
    assert(head =~= tga_header(width, height, ox, oy));
    let mut i: usize = 0;
    while i < file.len()
        invariant
            i <= file@.len(),
            a@ == head + file@.subrange(0, i as int),
        decreases file@.len() - i,
    {
        a.push(file[i]);
        i += 1;
        assert(a@ =~= head + file@.subrange(0, i as int));
    }
    assert(file@.subrange(0, file@.len() as int) =~= file@);
    a
}

/// `s` without its leading zero characters.
pub open spec fn trim_front_nuls(s: Seq<char>) -> Seq<char>
    decreases s.len(),
{
    if s.len() > 0 && s[0] == '\0' {
        trim_front_nuls(s.drop_first())
    } else {
        s
    }
}

/// `s` without its trailing zero characters.
pub open spec fn trim_back_nuls(s: Seq<char>) -> Seq<char>
    decreases s.len(),
{
    if s.len() > 0 && s.last() == '\0' {
        trim_back_nuls(s.drop_last())
    } else {
        s
    }
}

/// `s` without its leading and trailing zero characters.
pub open spec fn trim_nuls(s: Seq<char>) -> Seq<char> {
    trim_back_nuls(trim_front_nuls(s))
}

/// Removes the leading and trailing zero characters.
pub fn trim_matches_nul(s: &Vec<char>) -> (r: Vec<char>)
    ensures
        r@ == trim_nuls(s@),
{
    let mut start: usize = 0;
    assert(s@.subrange(0, s@.len() as int) =~= s@);
    while start < s.len() && s[start] == '\0'
        invariant
            start <= s@.len(),
            trim_front_nuls(s@) == trim_front_nuls(s@.subrange(start as int, s@.len() as int)),
        decreases s@.len() - start,
    {
        assert(s@.subrange(start as int, s@.len() as int).drop_first() =~= s@.subrange(start + 1, s@.len() as int));
        start += 1;
    }
    let mut end: usize = s.len();
    while end > start && s[end - 1] == '\0'
        invariant
            start <= end <= s@.len(),
            trim_front_nuls(s@) == s@.subrange(start as int, s@.len() as int),
            trim_nuls(s@) == trim_back_nuls(s@.subrange(start as int, end as int)),
        decreases end - start,
    {
        assert(s@.subrange(start as int, end as int).drop_last() =~= s@.subrange(start as int, end - 1));
        end -= 1;
    }
    copy_chars(s, start, end)
}

/// The text a CIFTREE archive begins with: "CIF TREE WayneSikes" and a zero byte.
pub open spec fn cif_magic() -> Seq<u8> {
    seq![
        0x43, 0x49, 0x46, 0x20, 0x54, 0x52, 0x45, 0x45, 0x20, 0x57, 0x61, 0x79, 0x6E, 0x65, 0x53, 0x69, 0x6B,
        0x65, 0x73, 0x00,
    ]
}

/// Position of the first index entry.
pub const INDEX_START: usize = 0x820;

/// Size of one index entry (the games three and four).
pub const ENTRY_SIZE: usize = 94;

/// Size of the name field of an index entry.
pub const FILENAME_SIZE: usize = 33;

/// Position of index entry `e`.
pub open spec fn entry_base(e: int) -> int {
    INDEX_START + ENTRY_SIZE * e
}

/// One index entry.
#[derive(Debug)]
pub struct Entry {
    /// The file name, without extension and without zero padding.
    pub filename: Vec<char>,
    pub entry_num: u16,
    pub img_origin_x: u16,
    pub img_origin_y: u16,
    pub img_width: u16,
    pub img_height: u16,
    pub data_offset: u32,
    pub file_size_decoded: u32,
    pub file_size_encoded: u32,
    pub file_type: u8,
}

/// The name that index entry `e` of `d` gives.
pub open spec fn entry_name(d: Seq<u8>, e: int) -> Seq<char> {
    trim_nuls(decode_utf8(d.subrange(entry_base(e), entry_base(e) + FILENAME_SIZE)))
}

/// Whether `en` holds what index entry `e` of `d` says.
pub open spec fn entry_matches(en: Entry, d: Seq<u8>, e: int) -> bool {
    let b = entry_base(e);
    &&& en.filename@ == entry_name(d, e)
    &&& en.entry_num as int == le16_at(d, b + 0x21)
    &&& en.img_origin_x as int == le16_at(d, b + 0x2B)
    &&& en.img_origin_y as int == le16_at(d, b + 0x2F)
    &&& en.img_width as int == le16_at(d, b + 0x43)
    &&& en.img_height as int == le16_at(d, b + 0x47)
    &&& en.data_offset as int == le32_at(d, b + 0x4B)
    &&& en.file_size_decoded as int == le32_at(d, b + 0x4F)
    &&& en.file_size_encoded as int == le32_at(d, b + 0x57)
    &&& en.file_type == d[b + 0x5B]
}

/// Whether index entry `e` lies within `d` and its name is UTF-8 text.
pub open spec fn entry_readable(d: Seq<u8>, e: int) -> bool {
    &&& entry_base(e) + ENTRY_SIZE <= d.len()
    &&& valid_utf8(d.subrange(entry_base(e), entry_base(e) + FILENAME_SIZE))
}

/// The number of entries the header of `d` gives.
pub open spec fn cif_count(d: Seq<u8>) -> int {
    le16_at(d, 0x1C)
}

/// Where the file of entry `f` of `d` starts and how many bytes it has.
pub open spec fn cif_span(d: Seq<u8>, f: int) -> (int, int) {
    (le32_at(d, entry_base(f) + 0x4B), le32_at(d, entry_base(f) + 0x57))
}

/// The decompressed file of entry `f` of `d`: its span of the archive,
/// deciphered.
pub open spec fn cif_file(d: Seq<u8>, f: int) -> Seq<u8> {
    let (off, size) = cif_span(d, f);
    lzss_decoded(decipher(d.subrange(off, off + size)))
}

/// The extensions that the first file of `d`, the list, gives.
pub open spec fn cif_extensions(d: Seq<u8>) -> Result<Map<Seq<char>, Seq<char>>, ExtsError> {
    list_extensions(cif_file(d, 0), cif_count(d) as nat)
}

/// "TGA".
pub open spec fn tga_ext() -> Seq<char> {
    seq!['T', 'G', 'A']
}

/// What becomes of one entry.
pub enum CifOutcome {
    /// A file to write: name, extension and contents.
    File(Seq<char>, Seq<char>, Seq<u8>),
    /// An image written as a PNG file: name, file, and whether its image data was accepted.
    Png(Seq<char>, Seq<u8>, bool),
    /// The file runs past the end of the archive.
    OutOfRange,
    /// The file decompresses to another size than its entry gives.
    SizeMismatch,
    /// The list of extensions cannot be read.
    ListUnreadable(ExtsError),
    /// The list gives no extension for the entry's name.
    UnknownName,
    /// An image to be written as PNG decompresses to nothing.
    EmptyImage,
    /// An image to be written as PNG has a side of zero.
    ZeroSide,
}

/// What becomes of entry `f` of `d`; `gen_png` asks for TGA images as PNG files.
pub open spec fn cif_outcome(d: Seq<u8>, f: int, gen_png: bool) -> CifOutcome {
    let (off, size) = cif_span(d, f);
    let b = entry_base(f);
    let file = cif_file(d, f);
    let name = entry_name(d, f);
    let w = le16_at(d, b + 0x43) as u16;
    let h = le16_at(d, b + 0x47) as u16;
    if off + size > d.len() {
        CifOutcome::OutOfRange
    } else if file.len() != le32_at(d, b + 0x4F) {
        CifOutcome::SizeMismatch
    } else if cif_extensions(d) is Err {
        CifOutcome::ListUnreadable(cif_extensions(d)->Err_0)
    } else if !cif_extensions(d)->Ok_0.contains_key(name) {
        CifOutcome::UnknownName
    } else {
        let ext = cif_extensions(d)->Ok_0[name];
        if ext == tga_ext() {
            if gen_png {
                if file.len() == 0 {
                    CifOutcome::EmptyImage
                } else if w == 0 || h == 0 {
                    CifOutcome::ZeroSide
                } else {
                    CifOutcome::Png(
                        name,
                        png_rgb8_file(png_samples(rgb_from_555(file), w, h), w as u32, h as u32),
                        rgb_from_555(file).len() <= w as int * h as int * 3,
                    )
                }
            } else {
                CifOutcome::File(
                    name,
                    ext,
                    tga_header(w, h, le16_at(d, b + 0x2B) as u16, le16_at(d, b + 0x2F) as u16) + file,
                )
            }
        } else {
            CifOutcome::File(name, ext, file)
        }
    }
}

/// Whether an outcome ends the extraction.
pub open spec fn cif_failure(o: CifOutcome) -> bool {
    !(o is File || o is Png)
}

/// What becomes of entries `f..n` of `d`, up to and including the first
/// that ends the extraction.
pub open spec fn cif_outcomes(d: Seq<u8>, f: int, n: int, gen_png: bool) -> Seq<CifOutcome>
    decreases n - f,
{
    if f >= n {
        Seq::empty()
    } else if cif_failure(cif_outcome(d, f, gen_png)) {
        seq![cif_outcome(d, f, gen_png)]
    } else {
        seq![cif_outcome(d, f, gen_png)] + cif_outcomes(d, f + 1, n, gen_png)
    }
}

/// What becomes of one entry; all but `File` and `Png` end the extraction.
#[derive(Debug)]
pub enum CifFile {
    File(Vec<char>, Vec<char>, Vec<u8>),
    Png(Vec<char>, Vec<u8>, bool),
    OutOfRange,
    SizeMismatch,
    ListUnreadable(ExtsError),
    UnknownName,
    EmptyImage,
    ZeroSide,
}

impl View for CifFile {
    type V = CifOutcome;

    open spec fn view(&self) -> CifOutcome {
        match self {
            CifFile::File(n, e, c) => CifOutcome::File(n@, e@, c@),
            CifFile::Png(n, f, ok) => CifOutcome::Png(n@, f@, *ok),
            CifFile::OutOfRange => CifOutcome::OutOfRange,
            CifFile::SizeMismatch => CifOutcome::SizeMismatch,
            CifFile::ListUnreadable(e) => CifOutcome::ListUnreadable(*e),
            CifFile::UnknownName => CifOutcome::UnknownName,
            CifFile::EmptyImage => CifOutcome::EmptyImage,
            CifFile::ZeroSide => CifOutcome::ZeroSide,
        }
    }
}

/// Why a CIFTREE archive cannot be read at all.
#[derive(Debug)]
pub enum CifError {
    /// This index entry runs past the end of the archive.
    TruncatedIndex(u16),
    /// The name of this index entry is not UTF-8 text.
    NameNotText(u16),
}

/// An extracted CIFTREE archive.
#[derive(Debug)]
pub struct CifTree {
    pub number_entries: u16,
    pub entries: Vec<Entry>,
    pub files: Vec<CifFile>,
}

fn read_entry(data: &[u8], e: u16) -> (res: Option<Entry>)
    requires
        entry_base(e as int) + ENTRY_SIZE <= data@.len(),
    ensures
        match res {
            Some(en) => entry_readable(data@, e as int) && entry_matches(en, data@, e as int),
            None => !valid_utf8(data@.subrange(entry_base(e as int), entry_base(e as int) + FILENAME_SIZE)),
        },
{
    let b: usize = INDEX_START + ENTRY_SIZE * (e as usize);
    let name_bytes = copy_range(data, b, b + FILENAME_SIZE);
    let chars = match utf8_chars(&name_bytes) {
        Some(c) => c,
        None => return None,
    };
    Some(
        Entry {
            filename: trim_matches_nul(&chars),
            entry_num: read_u16_le(data, b + 0x21),
            img_origin_x: read_u16_le(data, b + 0x2B),
            img_origin_y: read_u16_le(data, b + 0x2F),
            img_width: read_u16_le(data, b + 0x43),
            img_height: read_u16_le(data, b + 0x47),
            data_offset: read_u32_le(data, b + 0x4B),
            file_size_decoded: read_u32_le(data, b + 0x4F),
            file_size_encoded: read_u32_le(data, b + 0x57),
            file_type: read_u8(data, b + 0x5B),
        },
    )
}

fn cif_magic_bytes() -> (m: Vec<u8>)
    ensures
        m@ == cif_magic(),
{
    let m: Vec<u8> = vec![
        0x43, 0x49, 0x46, 0x20, 0x54, 0x52, 0x45, 0x45, 0x20, 0x57, 0x61, 0x79, 0x6E, 0x65, 0x53, 0x69, 0x6B,
        0x65, 0x73, 0x00,
    ];
    assert(m@ =~= cif_magic());
    m
}

/// Whether entries `0..e` of `d` can all be read.
pub open spec fn entries_readable(d: Seq<u8>, e: int) -> bool {
    forall|k: int| 0 <= k < e ==> #[trigger] entry_readable(d, k)
}

/// Whether `d` begins with the CIFTREE text and holds the entry count.
pub open spec fn cif_header_ok(d: Seq<u8>) -> bool {
    d.len() >= 0x1E && d.subrange(0, 0x14) == cif_magic()
}

/// Whether `data` begins with the CIFTREE text and holds the entry count, as
/// `ext_ciftree` asks.
pub fn has_cif_header(data: &[u8]) -> (r: bool)
    ensures
        r == cif_header_ok(data@),
{
    let magic = cif_magic_bytes();
    data.len() >= 0x1E && starts_with(data, &magic)
}

/// Works out what becomes of entry `f`, given the archive deciphered so far.
#[verifier::spinoff_prover]
#[verifier::rlimit(50)]
fn extract_entry(
    data: &Vec<u8>,
    en: &Entry,
    f: u16,
    n: u16,
    exts: &mut ExtensionMap,
    gen_png: bool,
    Ghost(d): Ghost<Seq<u8>>,
) -> (file: CifFile)
    requires
        data@ == d,
        entry_matches(*en, d, f as int),
        n as int == cif_count(d),
        f > 0 ==> old(exts).wf() && cif_extensions(d) == Ok::<Map<Seq<char>, Seq<char>>, ExtsError>(
            old(exts).view_map(),
        ),
    ensures
        file@ == cif_outcome(d, f as int, gen_png),
        !cif_failure(file@) ==> final(exts).wf()
            && cif_extensions(d) == Ok::<Map<Seq<char>, Seq<char>>, ExtsError>(final(exts).view_map()),
{
    let off = en.data_offset as usize;
    let size = en.file_size_encoded as usize;
    assert(cif_span(d, f as int) == (off as int, size as int));
    if off > data.len() || size > data.len() - off {
        return CifFile::OutOfRange;
    }
    let mut slice = decipher_span(data, off, size);
    let decoded = decode_lzss(slice.as_mut_slice());
    assert(decoded@ == cif_file(d, f as int));
    if decoded.len() != en.file_size_decoded as usize {
        return CifFile::SizeMismatch;
    }
    if f == 0 {
        match gen_exts(&decoded, n as usize) {
            Ok(m) => {
                *exts = m;
            },
            Err(e) => {
                return CifFile::ListUnreadable(e);
            },
        }
    }
    let ext = match exts.get(&en.filename) {
        Some(e) => copy_chars(e, 0, e.len()),
        None => return CifFile::UnknownName,
    };
    assert(ext@ =~= cif_extensions(d)->Ok_0[entry_name(d, f as int)]);
    let name = copy_chars(&en.filename, 0, en.filename.len());
    assert(name@ =~= en.filename@);
    let tga: Vec<char> = vec!['T', 'G', 'A'];
    assert(tga@ =~= tga_ext());
    if chars_equal(&ext, &tga) {
        if gen_png {
            if decoded.len() == 0 {
                return CifFile::EmptyImage;
            }
            let mut rgb = gen_rgb_array(&decoded);
            match encode_png(&mut rgb, en.img_width, en.img_height) {
                Some((png, complete)) => CifFile::Png(name, png, complete),
                None => CifFile::ZeroSide,
            }
        } else {
            let image = gen_tga(&decoded, en.img_width, en.img_height, en.img_origin_x, en.img_origin_y);
            CifFile::File(name, ext, image)
        }
    } else {
        CifFile::File(name, ext, decoded)
    }
}

/// Extracts every file of a CIFTREE archive (the index layout of the third
/// and fourth games): each file is its own span of the archive, deciphered,
/// then decompressed; the first file, the list, gives each name its
/// extension. TGA images are wrapped in a TGA header, or written as PNG files
/// when `gen_png` is set. Entries are extracted in order, up to the first that
/// cannot be. A file whose decompressed size differs from the one its index
/// entry gives is such an entry: it is reported as `SizeMismatch`, after the
/// files before it, and nothing after it is extracted (the mismatch is known
/// only once the file is decompressed, so it is an outcome rather than a
/// precondition).
#[verifier::spinoff_prover]
#[verifier::rlimit(50)]
pub fn ext_ciftree(data: Vec<u8>, gen_png: bool) -> (res: Result<CifTree, CifError>)
    requires
        cif_header_ok(data@),
    ensures
        ({
            let d = data@;
            match res {
                Err(CifError::TruncatedIndex(e)) => e < cif_count(d) && entries_readable(
                    d,
                    e as int,
                ) && entry_base(e as int) + ENTRY_SIZE > d.len(),
                Err(CifError::NameNotText(e)) => e < cif_count(d) && entries_readable(
                    d,
                    e as int,
                ) && entry_base(e as int) + ENTRY_SIZE <= d.len() && !entry_readable(d, e as int),
                Ok(t) => {
                    &&& t.number_entries as int == cif_count(d)
                    &&& entries_readable(d, cif_count(d))
                    &&& t.entries@.len() == cif_count(d)
                    &&& forall|e: int|
                        0 <= e < cif_count(d) ==> entry_matches(#[trigger] t.entries@[e], d, e)
                    &&& t.files@.map_values(|x: CifFile| x@) == cif_outcomes(d, 0, cif_count(d), gen_png)
                },
            }
        }),
{
    let number_entries: u16 = read_u16_le(&data, 0x1C);
    let ghost d = data@;
    let mut entries: Vec<Entry> = Vec::new();
    let mut e: u16 = 0;
    while e < number_entries
        invariant
            data@ == d,
            cif_header_ok(d),
            number_entries as int == cif_count(d),
            e <= number_entries,
            entries@.len() == e,
            entries_readable(d, e as int),
            forall|k: int| 0 <= k < e ==> entry_matches(#[trigger] entries@[k], d, k),
        decreases number_entries - e,
    {
        if data.len() < ENTRY_SIZE || (data.len() - ENTRY_SIZE) < INDEX_START + ENTRY_SIZE * (e as usize) {
            return Err(CifError::TruncatedIndex(e));
        }
        let en = match read_entry(&data, e) {
            Some(en) => en,
            None => return Err(CifError::NameNotText(e)),
        };
        entries.push(en);
        e += 1;
    }
    let mut exts = ExtensionMap { entries: Vec::new() };
    let mut files: Vec<CifFile> = Vec::new();
    let mut f: u16 = 0;
    let mut stopped = false;
    while f < number_entries && !stopped
        invariant
            data@ == d,
            f <= number_entries,
            number_entries as int == cif_count(d),
            entries@.len() == number_entries,
            forall|k: int| 0 <= k < number_entries ==> entry_matches(#[trigger] entries@[k], d, k),
            !stopped && f > 0 ==> exts.wf() && cif_extensions(d) == Ok::<Map<Seq<char>, Seq<char>>, ExtsError>(
                exts.view_map(),
            ),
            stopped ==> files@.map_values(|x: CifFile| x@) == cif_outcomes(d, 0, number_entries as int, gen_png),
            !stopped ==> cif_outcomes(d, 0, number_entries as int, gen_png) == files@.map_values(|x: CifFile| x@)
                + cif_outcomes(d, f as int, number_entries as int, gen_png),
        decreases number_entries - f,
    {
        let ghost before = files@.map_values(|x: CifFile| x@);
        let ghost rest = cif_outcomes(d, f as int, number_entries as int, gen_png);
        let ghost outcome = cif_outcome(d, f as int, gen_png);
        assert(entry_matches(entries@[f as int], d, f as int));
        let file = extract_entry(&data, &entries[f as usize], f, number_entries, &mut exts, gen_png, Ghost(d));
        stopped = match &file {
            CifFile::File(..) => false,
            CifFile::Png(..) => false,
            _ => true,
        };
        assert(file@ == outcome);
        assert(cif_failure(outcome) == stopped);
        files.push(file);
        f += 1;
        proof {
            assert(files@.map_values(|x: CifFile| x@) =~= before.push(outcome));
            if stopped {
                assert(rest == seq![outcome]);
            } else {
                assert(rest == seq![outcome] + cif_outcomes(d, f as int, number_entries as int, gen_png));
            }
        }
    }
    proof {
        if !stopped {
            assert(cif_outcomes(d, f as int, number_entries as int, gen_png) =~= Seq::<CifOutcome>::empty());
        }
    }
    Ok(CifTree { number_entries, entries, files })
}

/// A TGA image as `gen_tga` writes it: an uncompressed true-colour image
/// whose header holds the origin at bytes 8..12 and the width and height, in
/// that order, at bytes 12..16, each little-endian; the pixels follow the 18
/// header bytes as they were given.
pub proof fn lemma_tga_layout(file: Seq<u8>, width: u16, height: u16, ox: u16, oy: u16)
    ensures
        ({
            let t = tga_header(width, height, ox, oy) + file;
            &&& t.len() == 18 + file.len()
            &&& t[2] == 2
            &&& t[16] == 16
            &&& le16_at(t, 8) == ox
            &&& le16_at(t, 10) == oy
            &&& le16_at(t, 12) == width
            &&& le16_at(t, 14) == height
            &&& t.subrange(18, t.len() as int) == file
        }),
{
    let t = tga_header(width, height, ox, oy) + file;
    lemma_le16_bytes_read(ox as int);
    lemma_le16_bytes_read(oy as int);
    lemma_le16_bytes_read(width as int);
    lemma_le16_bytes_read(height as int);
    assert(le16_at(t, 8) == le16_at(le16_bytes(ox as int), 0));
    assert(le16_at(t, 10) == le16_at(le16_bytes(oy as int), 0));
    assert(le16_at(t, 12) == le16_at(le16_bytes(width as int), 0));
    assert(le16_at(t, 14) == le16_at(le16_bytes(height as int), 0));
    assert(t.subrange(18, t.len() as int) =~= file);
}

/// An entry extracted as a TGA file is its decompressed pixels behind a TGA
/// header that gives the image the width and height of the entry's index
/// record (the 16-bit numbers at 0x43 and 0x47), in that order, and its
/// origin (at 0x2B and 0x2F).
pub proof fn lemma_extracted_tga(d: Seq<u8>, f: int, gen_png: bool)
    requires
        0 <= f,
        cif_outcome(d, f, gen_png) is File,
        cif_outcome(d, f, gen_png)->File_1 == seq!['T', 'G', 'A'],
    ensures
        ({
            let b = entry_base(f);
            let t = cif_outcome(d, f, gen_png)->File_2;
            &&& t.len() == 18 + cif_file(d, f).len()
            &&& le16_at(t, 12) == le16_at(d, b + 0x43)
            &&& le16_at(t, 14) == le16_at(d, b + 0x47)
            &&& le16_at(t, 8) == le16_at(d, b + 0x2B)
            &&& le16_at(t, 10) == le16_at(d, b + 0x2F)
            &&& t.subrange(18, t.len() as int) == cif_file(d, f)
        }),
{
    let b = entry_base(f);
    let w = le16_at(d, b + 0x43) as u16;
    let h = le16_at(d, b + 0x47) as u16;
    let ox = le16_at(d, b + 0x2B) as u16;
    let oy = le16_at(d, b + 0x2F) as u16;
    assert(tga_ext() =~= seq!['T', 'G', 'A']);
    lemma_tga_layout(cif_file(d, f), w, h, ox, oy);
}

} // verus!
