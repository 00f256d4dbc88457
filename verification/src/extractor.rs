//! Choices of the batch extractor: which game a directory belongs to, and
//! what is done with each file found.

use vstd::prelude::*;
use crate::ciftree::chars_equal;

verus! {

/// The number of the game whose abbreviation is `name`, if it is one.
pub open spec fn game_code(name: Seq<char>) -> Option<u8> {
    if name == seq!['S', 'C', 'K'] {
        Some(1)
    } else if name == seq!['S', 'T', 'F', 'D'] {
        Some(2)
    } else if name == seq!['M', 'H', 'M'] {
        Some(3)
    } else if name == seq!['T', 'R', 'T'] {
        Some(4)
    } else if name == seq!['F', 'I', 'N'] {
        Some(5)
    } else if name == seq!['S', 'S', 'H'] {
        Some(6)
    } else if name == seq!['D', 'O', 'G'] {
        Some(7)
    } else if name == seq!['C', 'A', 'R'] {
        Some(8)
    } else if name == seq!['D', 'D', 'I'] {
        Some(10)
    } else if name == seq!['S', 'H', 'A'] {
        Some(11)
    } else if name == seq!['C', 'L', 'K'] {
        Some(12)
    } else {
        None
    }
}

fn is_name(name: &Vec<char>, code: Vec<char>) -> (r: bool)
    ensures
        r == (name@ == code@),
{
    chars_equal(name, &code)
}

/// The game number for the files of the directory `name`: the game it is
/// named after, or `current` when it is named after none.
pub fn game_number(name: &Vec<char>, current: u8) -> (g: u8)
    ensures
        g == match game_code(name@) {
            Some(c) => c,
            None => current,
        },
{
    let r = if is_name(name, vec!['S', 'C', 'K']) {
        1
    } else if is_name(name, vec!['S', 'T', 'F', 'D']) {
        2
    } else if is_name(name, vec!['M', 'H', 'M']) {
        3
    } else if is_name(name, vec!['T', 'R', 'T']) {
        4
    } else if is_name(name, vec!['F', 'I', 'N']) {
        5
    } else if is_name(name, vec!['S', 'S', 'H']) {
        6
    } else if is_name(name, vec!['D', 'O', 'G']) {
        7
    } else if is_name(name, vec!['C', 'A', 'R']) {
        8
    } else if is_name(name, vec!['D', 'D', 'I']) {
        10
    } else if is_name(name, vec!['S', 'H', 'A']) {
        11
    } else if is_name(name, vec!['C', 'L', 'K']) {
        12
    } else {
        current
    };
    r
}

/// What the extractor does with a file.
#[derive(Debug)]
pub struct FileActions {
    /// Convert it as an AVF image.
    pub avf: bool,
    /// Convert it as a HIS sound, to 8-bit WAV.
    pub his: bool,
    /// Extract it as a CIFTREE archive.
    pub ciftree: bool,
}

/// What the extractor does with a file whose extension is `ext` and whose
/// name is `file_name`, found under the directory of game `game`: AVF files
/// are converted, HIS files too (in either case of extension), and a file
/// named CIFTREE.DAT is extracted for the games three to ten.
pub fn file_actions(ext: &Vec<char>, file_name: &Vec<char>, game: u8) -> (a: FileActions)
    ensures
        a.avf == (ext@ == seq!['a', 'v', 'f']),
        a.his == (ext@ == seq!['h', 'i', 's'] || ext@ == seq!['H', 'I', 'S']),
        a.ciftree == (file_name@ == seq!['C', 'I', 'F', 'T', 'R', 'E', 'E', '.', 'D', 'A', 'T'] && 3 <= game <= 10),
{
    let avf = is_name(ext, vec!['a', 'v', 'f']);
    let his = is_name(ext, vec!['h', 'i', 's']) || is_name(ext, vec!['H', 'I', 'S']);
    let ciftree = is_name(file_name, vec!['C', 'I', 'F', 'T', 'R', 'E', 'E', '.', 'D', 'A', 'T']) && 3 <= game
        && game <= 10;
    FileActions { avf, his, ciftree }
}

/// The abbreviations of the games, in the order of their release.
pub open spec fn game_abbreviations() -> Seq<Seq<char>> {
    seq![
        seq!['S', 'C', 'K'],
        seq!['S', 'T', 'F', 'D'],
        seq!['M', 'H', 'M'],
        seq!['T', 'R', 'T'],
        seq!['F', 'I', 'N'],
        seq!['S', 'S', 'H'],
        seq!['D', 'O', 'G'],
        seq!['C', 'A', 'R'],
        seq!['D', 'D', 'I'],
        seq!['S', 'H', 'A'],
        seq!['C', 'L', 'K'],
    ]
}

/// Each game abbreviation is numbered, in the order of release, from 1 for
/// the first game: later games get strictly larger numbers, so no two share
/// one, and the k-th game's number is at least k. The games whose CIFTREE
/// archives are extracted, numbers 3 to 10, are the third to the ninth.
pub proof fn lemma_games_in_release_order()
    ensures
        forall|i: int| 0 <= i < 11 ==> #[trigger] game_code(game_abbreviations()[i]) is Some,
        game_code(game_abbreviations()[0]) == Some(1u8),
        forall|i: int, j: int|
            0 <= i < j < 11 ==> #[trigger] game_code(game_abbreviations()[i])->Some_0 < #[trigger] game_code(
                game_abbreviations()[j],
            )->Some_0,
        forall|i: int| 0 <= i < 11 ==> #[trigger] game_code(game_abbreviations()[i])->Some_0 >= i + 1,
        forall|i: int|
            #![trigger game_abbreviations()[i]]
            0 <= i < 11 ==> (3 <= game_code(game_abbreviations()[i])->Some_0 && game_code(
                game_abbreviations()[i],
            )->Some_0 <= 10 <==> 2 <= i <= 8),
{
    let a = game_abbreviations();
    assert(a[0] =~= seq!['S', 'C', 'K']);
    assert(a[1] =~= seq!['S', 'T', 'F', 'D']);
    assert(a[2] =~= seq!['M', 'H', 'M']);
    assert(a[3] =~= seq!['T', 'R', 'T']);
    assert(a[4] =~= seq!['F', 'I', 'N']);
    assert(a[5] =~= seq!['S', 'S', 'H']);
    assert(a[6] =~= seq!['D', 'O', 'G']);
    assert(a[7] =~= seq!['C', 'A', 'R']);
    assert(a[8] =~= seq!['D', 'D', 'I']);
    assert(a[9] =~= seq!['S', 'H', 'A']);
    assert(a[10] =~= seq!['C', 'L', 'K']);
    assert(game_code(a[0]) == Some(1u8));
    assert(game_code(a[1]) == Some(2u8));
    assert(game_code(a[2]) == Some(3u8));
    assert(game_code(a[3]) == Some(4u8));
    assert(game_code(a[4]) == Some(5u8));
    assert(game_code(a[5]) == Some(6u8));
    assert(game_code(a[6]) == Some(7u8));
    assert(game_code(a[7]) == Some(8u8));
    assert(game_code(a[8]) == Some(10u8));
    assert(game_code(a[9]) == Some(11u8));
    assert(game_code(a[10]) == Some(12u8));
}

} // verus!
