use vstd::prelude::*;
use std::collections::HashMap;
use vstd::string::StrSliceExecFns;

verus! {

broadcast use vstd::std_specs::hash::group_hash_axioms;

/// Width of a character cell in pixels: five lit columns and one blank.
pub const CHAR_WIDTH: i64 = 6;

/// The 5 x 7 bitmap font used to label frames: each entry is a character and its seven rows
/// of five pixels (1 = lit). Upper-case letters, digits, '.', '_' and '-'.
pub const FONT_TABLE: [(char, [[u8; 5]; 7]); 39] = [
    ('A', [
        [0, 1, 1, 1, 0],
        [1, 0, 0, 0, 1],
        [1, 0, 0, 0, 1],
        [1, 1, 1, 1, 1],
        [1, 0, 0, 0, 1],
        [1, 0, 0, 0, 1],
        [1, 0, 0, 0, 1],
    ]),
    ('B', [
        [1, 1, 1, 1, 0],
        [1, 0, 0, 0, 1],
        [1, 0, 0, 0, 1],
        [1, 1, 1, 1, 0],
        [1, 0, 0, 0, 1],
        [1, 0, 0, 0, 1],
        [1, 1, 1, 1, 0],
    ]),
    ('C', [
        [0, 1, 1, 1, 0],
        [1, 0, 0, 0, 1],
        [1, 0, 0, 0, 0],
        [1, 0, 0, 0, 0],
        [1, 0, 0, 0, 0],
        [1, 0, 0, 0, 1],
        [0, 1, 1, 1, 0],
    ]),
    ('D', [
        [1, 1, 1, 1, 0],
        [1, 0, 0, 0, 1],
        [1, 0, 0, 0, 1],
        [1, 0, 0, 0, 1],
        [1, 0, 0, 0, 1],
        [1, 0, 0, 0, 1],
        [1, 1, 1, 1, 0],
    ]),
    ('E', [
        [1, 1, 1, 1, 1],
        [1, 0, 0, 0, 0],
        [1, 0, 0, 0, 0],
        [1, 1, 1, 1, 0],
        [1, 0, 0, 0, 0],
        [1, 0, 0, 0, 0],
        [1, 1, 1, 1, 1],
    ]),
    ('F', [
        [1, 1, 1, 1, 1],
        [1, 0, 0, 0, 0],
        [1, 0, 0, 0, 0],
        [1, 1, 1, 1, 0],
        [1, 0, 0, 0, 0],
        [1, 0, 0, 0, 0],
        [1, 0, 0, 0, 0],
    ]),
    ('G', [
        [0, 1, 1, 1, 0],
        [1, 0, 0, 0, 1],
        [1, 0, 0, 0, 0],
        [1, 0, 1, 1, 1],
        [1, 0, 0, 0, 1],
        [1, 0, 0, 0, 1],
        [0, 1, 1, 1, 0],
    ]),
    ('H', [
        [1, 0, 0, 0, 1],
        [1, 0, 0, 0, 1],
        [1, 0, 0, 0, 1],
        [1, 1, 1, 1, 1],
        [1, 0, 0, 0, 1],
        [1, 0, 0, 0, 1],
        [1, 0, 0, 0, 1],
    ]),
    ('I', [
        [1, 1, 1, 1, 1],
        [0, 0, 1, 0, 0],
        [0, 0, 1, 0, 0],
        [0, 0, 1, 0, 0],
        [0, 0, 1, 0, 0],
        [0, 0, 1, 0, 0],
        [1, 1, 1, 1, 1],
    ]),
    ('J', [
        [0, 0, 0, 0, 1],
        [0, 0, 0, 0, 1],
        [0, 0, 0, 0, 1],
        [0, 0, 0, 0, 1],
        [1, 0, 0, 0, 1],
        [1, 0, 0, 0, 1],
        [0, 1, 1, 1, 0],
    ]),
    ('K', [
        [1, 0, 0, 0, 1],
        [1, 0, 0, 1, 0],
        [1, 0, 1, 0, 0],
        [1, 1, 0, 0, 0],
        [1, 0, 1, 0, 0],
        [1, 0, 0, 1, 0],
        [1, 0, 0, 0, 1],
    ]),
    ('L', [
        [1, 0, 0, 0, 0],
        [1, 0, 0, 0, 0],
        [1, 0, 0, 0, 0],
        [1, 0, 0, 0, 0],
        [1, 0, 0, 0, 0],
        [1, 0, 0, 0, 0],
        [1, 1, 1, 1, 1],
    ]),
    ('M', [
        [1, 0, 0, 0, 1],
        [1, 1, 0, 1, 1],
        [1, 0, 1, 0, 1],
        [1, 0, 0, 0, 1],
        [1, 0, 0, 0, 1],
        [1, 0, 0, 0, 1],
        [1, 0, 0, 0, 1],
    ]),
    ('N', [
        [1, 0, 0, 0, 1],
        [1, 1, 0, 0, 1],
        [1, 0, 1, 0, 1],
        [1, 0, 0, 1, 1],
        [1, 0, 0, 0, 1],
        [1, 0, 0, 0, 1],
        [1, 0, 0, 0, 1],
    ]),
    ('O', [
        [0, 1, 1, 1, 0],
        [1, 0, 0, 0, 1],
        [1, 0, 0, 0, 1],
        [1, 0, 0, 0, 1],
        [1, 0, 0, 0, 1],
        [1, 0, 0, 0, 1],
        [0, 1, 1, 1, 0],
    ]),
    ('P', [
        [1, 1, 1, 1, 0],
        [1, 0, 0, 0, 1],
        [1, 0, 0, 0, 1],
        [1, 1, 1, 1, 0],
        [1, 0, 0, 0, 0],
        [1, 0, 0, 0, 0],
        [1, 0, 0, 0, 0],
    ]),
    ('Q', [
        [0, 1, 1, 1, 0],
        [1, 0, 0, 0, 1],
        [1, 0, 0, 0, 1],
        [1, 0, 0, 0, 1],
        [1, 0, 1, 0, 1],
        [1, 0, 0, 1, 0],
        [0, 1, 1, 0, 1],
    ]),
    ('R', [
        [1, 1, 1, 1, 0],
        [1, 0, 0, 0, 1],
        [1, 0, 0, 0, 1],
        [1, 1, 1, 1, 0],
        [1, 0, 1, 0, 0],
        [1, 0, 0, 1, 0],
        [1, 0, 0, 0, 1],
    ]),
    ('S', [
        [0, 1, 1, 1, 0],
        [1, 0, 0, 0, 1],
        [1, 0, 0, 0, 0],
        [0, 1, 1, 1, 0],
        [0, 0, 0, 0, 1],
        [1, 0, 0, 0, 1],
        [0, 1, 1, 1, 0],
    ]),
    ('T', [
        [1, 1, 1, 1, 1],
        [0, 0, 1, 0, 0],
        [0, 0, 1, 0, 0],
        [0, 0, 1, 0, 0],
        [0, 0, 1, 0, 0],
        [0, 0, 1, 0, 0],
        [0, 0, 1, 0, 0],
    ]),
    ('U', [
        [1, 0, 0, 0, 1],
        [1, 0, 0, 0, 1],
        [1, 0, 0, 0, 1],
        [1, 0, 0, 0, 1],
        [1, 0, 0, 0, 1],
        [1, 0, 0, 0, 1],
        [0, 1, 1, 1, 0],
    ]),
    ('V', [
        [1, 0, 0, 0, 1],
        [1, 0, 0, 0, 1],
        [1, 0, 0, 0, 1],
        [1, 0, 0, 0, 1],
        [0, 1, 0, 1, 0],
        [0, 1, 0, 1, 0],
        [0, 0, 1, 0, 0],
    ]),
    ('W', [
        [1, 0, 0, 0, 1],
        [1, 0, 0, 0, 1],
        [1, 0, 0, 0, 1],
        [1, 0, 0, 0, 1],
        [1, 0, 1, 0, 1],
        [1, 1, 0, 1, 1],
        [1, 0, 0, 0, 1],
    ]),
    ('X', [
        [1, 0, 0, 0, 1],
        [0, 1, 0, 1, 0],
        [0, 0, 1, 0, 0],
        [0, 0, 1, 0, 0],
        [0, 0, 1, 0, 0],
        [0, 1, 0, 1, 0],
        [1, 0, 0, 0, 1],
    ]),
    ('Y', [
        [1, 0, 0, 0, 1],
        [1, 0, 0, 0, 1],
        [0, 1, 0, 1, 0],
        [0, 0, 1, 0, 0],
        [0, 0, 1, 0, 0],
        [0, 0, 1, 0, 0],
        [0, 0, 1, 0, 0],
    ]),
    ('Z', [
        [1, 1, 1, 1, 1],
        [0, 0, 0, 0, 1],
        [0, 0, 0, 1, 0],
        [0, 0, 1, 0, 0],
        [0, 1, 0, 0, 0],
        [1, 0, 0, 0, 0],
        [1, 1, 1, 1, 1],
    ]),
    ('0', [
        [0, 1, 1, 1, 0],
        [1, 0, 0, 0, 1],
        [1, 0, 0, 1, 1],
        [1, 0, 1, 0, 1],
        [1, 1, 0, 0, 1],
        [1, 0, 0, 0, 1],
        [0, 1, 1, 1, 0],
    ]),
    ('1', [
        [0, 0, 1, 0, 0],
        [0, 1, 1, 0, 0],
        [0, 0, 1, 0, 0],
        [0, 0, 1, 0, 0],
        [0, 0, 1, 0, 0],
        [0, 0, 1, 0, 0],
        [0, 1, 1, 1, 0],
    ]),
    ('2', [
        [0, 1, 1, 1, 0],
        [1, 0, 0, 0, 1],
        [0, 0, 0, 0, 1],
        [0, 0, 1, 1, 0],
        [0, 1, 0, 0, 0],
        [1, 0, 0, 0, 0],
        [1, 1, 1, 1, 1],
    ]),
    ('3', [
        [0, 1, 1, 1, 0],
        [1, 0, 0, 0, 1],
        [0, 0, 0, 0, 1],
        [0, 1, 1, 1, 0],
        [0, 0, 0, 0, 1],
        [1, 0, 0, 0, 1],
        [0, 1, 1, 1, 0],
    ]),
    ('4', [
        [0, 0, 0, 1, 0],
        [0, 0, 1, 1, 0],
        [0, 1, 0, 1, 0],
        [1, 0, 0, 1, 0],
        [1, 1, 1, 1, 1],
        [0, 0, 0, 1, 0],
        [0, 0, 0, 1, 0],
    ]),
    ('5', [
        [1, 1, 1, 1, 1],
        [1, 0, 0, 0, 0],
        [1, 0, 0, 0, 0],
        [1, 1, 1, 1, 0],
        [0, 0, 0, 0, 1],
        [1, 0, 0, 0, 1],
        [0, 1, 1, 1, 0],
    ]),
    ('6', [
        [0, 1, 1, 1, 0],
        [1, 0, 0, 0, 0],
        [1, 0, 0, 0, 0],
        [1, 1, 1, 1, 0],
        [1, 0, 0, 0, 1],
        [1, 0, 0, 0, 1],
        [0, 1, 1, 1, 0],
    ]),
    ('7', [
        [1, 1, 1, 1, 1],
        [0, 0, 0, 0, 1],
        [0, 0, 0, 1, 0],
        [0, 0, 1, 0, 0],
        [0, 1, 0, 0, 0],
        [1, 0, 0, 0, 0],
        [1, 0, 0, 0, 0],
    ]),
    ('8', [
        [0, 1, 1, 1, 0],
        [1, 0, 0, 0, 1],
        [1, 0, 0, 0, 1],
        [0, 1, 1, 1, 0],
        [1, 0, 0, 0, 1],
        [1, 0, 0, 0, 1],
        [0, 1, 1, 1, 0],
    ]),
    ('9', [
        [0, 1, 1, 1, 0],
        [1, 0, 0, 0, 1],
        [1, 0, 0, 0, 1],
        [0, 1, 1, 1, 1],
        [0, 0, 0, 0, 1],
        [0, 0, 0, 0, 1],
        [0, 1, 1, 1, 0],
    ]),
    ('.', [
        [0, 0, 0, 0, 0],
        [0, 0, 0, 0, 0],
        [0, 0, 0, 0, 0],
        [0, 0, 0, 0, 0],
        [0, 0, 0, 0, 0],
        [0, 0, 0, 0, 0],
        [0, 0, 1, 0, 0],
    ]),
    ('_', [
        [0, 0, 0, 0, 0],
        [0, 0, 0, 0, 0],
        [0, 0, 0, 0, 0],
        [0, 0, 0, 0, 0],
        [0, 0, 0, 0, 0],
        [0, 0, 0, 0, 0],
        [1, 1, 1, 1, 1],
    ]),
    ('-', [
        [0, 0, 0, 0, 0],
        [0, 0, 0, 0, 0],
        [0, 0, 0, 0, 0],
        [1, 1, 1, 1, 1],
        [0, 0, 0, 0, 0],
        [0, 0, 0, 0, 0],
        [0, 0, 0, 0, 0],
    ]),
];

/// Glyph drawn for a character that the font lacks: an empty frame.
pub const DEFAULT_GLYPH: [[u8; 5]; 7] = [
    [1, 1, 1, 1, 1],
    [1, 0, 0, 0, 1],
    [1, 0, 0, 0, 1],
    [1, 0, 0, 0, 1],
    [1, 0, 0, 0, 1],
    [1, 0, 0, 0, 1],
    [1, 1, 1, 1, 1],
];

/// The font as a map from character code to glyph, after the first `k` table entries.
pub open spec fn font_map(k: nat) -> Map<u32, [[u8; 5]; 7]>
    decreases k,
{
    if k == 0 {
        Map::empty()
    } else {
        font_map((k - 1) as nat).insert(FONT_TABLE@[k - 1].0 as u32, FONT_TABLE@[k - 1].1)
    }
}

/// Position in `FONT_TABLE` of the character with code `c`, or -1 when the table lacks it:
/// letters first, then digits, then '.', '_' and '-'.
spec fn font_index(c: u32) -> int {
    if 65 <= c <= 90 {
        c - 65
    } else if 48 <= c <= 57 {
        c - 48 + 26
    } else if c == 46 {
        36
    } else if c == 95 {
        37
    } else if c == 45 {
        38
    } else {
        -1
    }
}

/// No character appears twice in the font table.
proof fn lemma_font_table_index()
    ensures
        forall|i: int| 0 <= i < 39 ==> font_index(#[trigger] FONT_TABLE@[i].0 as u32) == i,
{
    assert forall|i: int| 0 <= i < 39 implies font_index(#[trigger] FONT_TABLE@[i].0 as u32) == i by {
        if i == 0 {
            assert(font_index(FONT_TABLE@[0].0 as u32) == 0);
        } else if i == 1 {
            assert(font_index(FONT_TABLE@[1].0 as u32) == 1);
        } else if i == 2 {
            assert(font_index(FONT_TABLE@[2].0 as u32) == 2);
        } else if i == 3 {
            assert(font_index(FONT_TABLE@[3].0 as u32) == 3);
        } else if i == 4 {
            assert(font_index(FONT_TABLE@[4].0 as u32) == 4);
        } else if i == 5 {
            assert(font_index(FONT_TABLE@[5].0 as u32) == 5);
        } else if i == 6 {
            assert(font_index(FONT_TABLE@[6].0 as u32) == 6);
        } else if i == 7 {
            assert(font_index(FONT_TABLE@[7].0 as u32) == 7);
        } else if i == 8 {
            assert(font_index(FONT_TABLE@[8].0 as u32) == 8);
        } else if i == 9 {
            assert(font_index(FONT_TABLE@[9].0 as u32) == 9);
        } else if i == 10 {
            assert(font_index(FONT_TABLE@[10].0 as u32) == 10);
        } else if i == 11 {
            assert(font_index(FONT_TABLE@[11].0 as u32) == 11);
        } else if i == 12 {
            assert(font_index(FONT_TABLE@[12].0 as u32) == 12);
        } else if i == 13 {
            assert(font_index(FONT_TABLE@[13].0 as u32) == 13);
        } else if i == 14 {
            assert(font_index(FONT_TABLE@[14].0 as u32) == 14);
        } else if i == 15 {
            assert(font_index(FONT_TABLE@[15].0 as u32) == 15);
        } else if i == 16 {
            assert(font_index(FONT_TABLE@[16].0 as u32) == 16);
        } else if i == 17 {
            assert(font_index(FONT_TABLE@[17].0 as u32) == 17);
        } else if i == 18 {
            assert(font_index(FONT_TABLE@[18].0 as u32) == 18);
        } else if i == 19 {
            assert(font_index(FONT_TABLE@[19].0 as u32) == 19);
        } else if i == 20 {
            assert(font_index(FONT_TABLE@[20].0 as u32) == 20);
        } else if i == 21 {
            assert(font_index(FONT_TABLE@[21].0 as u32) == 21);
        } else if i == 22 {
            assert(font_index(FONT_TABLE@[22].0 as u32) == 22);
        } else if i == 23 {
            assert(font_index(FONT_TABLE@[23].0 as u32) == 23);
        } else if i == 24 {
            assert(font_index(FONT_TABLE@[24].0 as u32) == 24);
        } else if i == 25 {
            assert(font_index(FONT_TABLE@[25].0 as u32) == 25);
        } else if i == 26 {
            assert(font_index(FONT_TABLE@[26].0 as u32) == 26);
        } else if i == 27 {
            assert(font_index(FONT_TABLE@[27].0 as u32) == 27);
        } else if i == 28 {
            assert(font_index(FONT_TABLE@[28].0 as u32) == 28);
        } else if i == 29 {
            assert(font_index(FONT_TABLE@[29].0 as u32) == 29);
        } else if i == 30 {
            assert(font_index(FONT_TABLE@[30].0 as u32) == 30);
        } else if i == 31 {
            assert(font_index(FONT_TABLE@[31].0 as u32) == 31);
        } else if i == 32 {
            assert(font_index(FONT_TABLE@[32].0 as u32) == 32);
        } else if i == 33 {
            assert(font_index(FONT_TABLE@[33].0 as u32) == 33);
        } else if i == 34 {
            assert(font_index(FONT_TABLE@[34].0 as u32) == 34);
        } else if i == 35 {
            assert(font_index(FONT_TABLE@[35].0 as u32) == 35);
        } else if i == 36 {
            assert(font_index(FONT_TABLE@[36].0 as u32) == 36);
        } else if i == 37 {
            assert(font_index(FONT_TABLE@[37].0 as u32) == 37);
        } else if i == 38 {
            assert(font_index(FONT_TABLE@[38].0 as u32) == 38);
        }
    }
}

proof fn lemma_font_map_entries(k: nat)
    requires
        k <= 39,
    ensures
        forall|i: int|
            0 <= i < k ==> font_map(k).contains_key(#[trigger] FONT_TABLE@[i].0 as u32) && font_map(
                k,
            )[FONT_TABLE@[i].0 as u32] == FONT_TABLE@[i].1,
        forall|c: u32|
            #[trigger] font_map(k).contains_key(c) ==> exists|i: int|
                0 <= i < k && #[trigger] FONT_TABLE@[i].0 as u32 == c,
    decreases k,
{
    lemma_font_table_index();
    if k > 0 {
        lemma_font_map_entries((k - 1) as nat);
        let last = FONT_TABLE@[k - 1].0 as u32;
        assert forall|i: int| 0 <= i < k implies font_map(k).contains_key(
            #[trigger] FONT_TABLE@[i].0 as u32,
        ) && font_map(k)[FONT_TABLE@[i].0 as u32] == FONT_TABLE@[i].1 by {
            if i < k - 1 {
                assert(font_index(FONT_TABLE@[i].0 as u32) != font_index(last));
            }
        }
        assert forall|c: u32| #[trigger] font_map(k).contains_key(c) implies exists|i: int|
            0 <= i < k && #[trigger] FONT_TABLE@[i].0 as u32 == c by {
            if c == last {
                assert(FONT_TABLE@[k - 1].0 as u32 == c);
            } else {
                assert(font_map((k - 1) as nat).contains_key(c));
            }
        }
    }
}

/// The font holds exactly the characters of its table, each with the glyph listed beside it.
pub proof fn lemma_font_entries()
    ensures
        forall|i: int|
            0 <= i < 39 ==> font_map(39).contains_key(#[trigger] FONT_TABLE@[i].0 as u32) && font_map(
                39,
            )[FONT_TABLE@[i].0 as u32] == FONT_TABLE@[i].1,
        forall|c: u32|
            #[trigger] font_map(39).contains_key(c) ==> exists|i: int|
                0 <= i < 39 && #[trigger] FONT_TABLE@[i].0 as u32 == c,
{
    lemma_font_map_entries(39);
}

/// Builds the bitmap font, keyed by character code.
pub fn create_simple_font() -> (font: HashMap<u32, [[u8; 5]; 7]>)
    ensures
        font@ == font_map(39),
        forall|i: int|
            0 <= i < 39 ==> font@.contains_key(#[trigger] FONT_TABLE@[i].0 as u32)
                && font@[FONT_TABLE@[i].0 as u32] == FONT_TABLE@[i].1,
        forall|c: u32|
            #[trigger] font@.contains_key(c) ==> exists|i: int|
                0 <= i < 39 && #[trigger] FONT_TABLE@[i].0 as u32 == c,
{
    let mut font: HashMap<u32, [[u8; 5]; 7]> = HashMap::new();
    let mut i: usize = 0;
    while i < 39
        invariant
            i <= 39,
            font@ == font_map(i as nat),
        decreases 39 - i,
    {
        let entry = FONT_TABLE[i];
        font.insert(entry.0 as u32, entry.1);
        i += 1;
    }
    proof {
        lemma_font_entries();
    }
    font
}


/// An RGBA image held as rows of pixels: `rows[y][x]`.
pub struct Canvas {
    pub width: u32,
    pub height: u32,
    pub rows: Vec<Vec<[u8; 4]>>,
}

impl Canvas {
    /// `height` rows of `width` pixels each.
    pub open spec fn wf(&self) -> bool {
        &&& self.rows@.len() == self.height
        &&& forall|r: int| 0 <= r < self.rows@.len() ==> (#[trigger] self.rows@[r])@.len() == self.width
    }

    /// The pixel at column `px`, row `py`.
    pub open spec fn pixel(&self, px: int, py: int) -> [u8; 4] {
        self.rows@[py]@[px]
    }

    /// The pixels, row by row.
    pub open spec fn pixel_rows(&self) -> Seq<Seq<[u8; 4]>> {
        self.rows@.map_values(|r: Vec<[u8; 4]>| r@)
    }
}

/// The RGBA bytes of a row of pixels, left to right.
pub open spec fn row_bytes(row: Seq<[u8; 4]>) -> Seq<u8>
    decreases row.len(),
{
    if row.len() == 0 {
        seq![]
    } else {
        row_bytes(row.drop_last()) + row.last()@
    }
}

/// The RGBA bytes of an image given as rows, top row first (row-major order).
pub open spec fn canvas_bytes(rows: Seq<Seq<[u8; 4]>>) -> Seq<u8>
    decreases rows.len(),
{
    if rows.len() == 0 {
        seq![]
    } else {
        canvas_bytes(rows.drop_last()) + row_bytes(rows.last())
    }
}

proof fn lemma_row_bytes_len(row: Seq<[u8; 4]>)
    ensures
        row_bytes(row).len() == 4 * row.len(),
    decreases row.len(),
{
    if row.len() > 0 {
        lemma_row_bytes_len(row.drop_last());
    }
}

proof fn lemma_canvas_bytes_len(rows: Seq<Seq<[u8; 4]>>, w: nat)
    requires
        forall|r: int| 0 <= r < rows.len() ==> (#[trigger] rows[r]).len() == w,
    ensures
        canvas_bytes(rows).len() == rows.len() * w * 4,
    decreases rows.len(),
{
    if rows.len() > 0 {
        lemma_canvas_bytes_len(rows.drop_last(), w);
        lemma_row_bytes_len(rows.last());
        let n = rows.len();
        assert((n - 1) * w * 4 + 4 * w == n * w * 4) by (nonlinear_arith);
    }
}

/// The RGBA bytes of a canvas, row-major.
pub fn canvas_to_rgba(img: &Canvas) -> (bytes: Vec<u8>)
    ensures
        bytes@ == canvas_bytes(img.pixel_rows()),
{
    let ghost rows = img.pixel_rows();
    let mut bytes: Vec<u8> = Vec::new();
    let mut py: usize = 0;
    while py < img.rows.len()
        invariant
            rows == img.pixel_rows(),
            py <= img.rows@.len(),
            bytes@ == canvas_bytes(rows.subrange(0, py as int)),
        decreases img.rows@.len() - py,
    {
        let ghost before = bytes@;
        let row = &img.rows[py];
        let mut px: usize = 0;
        while px < row.len()
            invariant
                rows == img.pixel_rows(),
                py < img.rows@.len(),
                row == img.rows@[py as int],
                px <= row@.len(),
                bytes@ == before + row_bytes(row@.subrange(0, px as int)),
            decreases row@.len() - px,
        {
            let p = row[px];
            bytes.push(p[0]);
            bytes.push(p[1]);
            bytes.push(p[2]);
            bytes.push(p[3]);
            proof {
                assert(row@.subrange(0, px + 1).drop_last() =~= row@.subrange(0, px as int));
                assert(p@ =~= seq![p[0], p[1], p[2], p[3]]);
                assert(bytes@ =~= before + row_bytes(row@.subrange(0, px + 1)));
            }
            px += 1;
        }
        proof {
            assert(row@.subrange(0, row@.len() as int) =~= row@);
            assert(rows.subrange(0, py + 1).drop_last() =~= rows.subrange(0, py as int));
            assert(rows.subrange(0, py + 1).last() == row@);
        }
        py += 1;
    }
    assert(rows.subrange(0, img.rows@.len() as int) =~= rows);
    bytes
}

/// Cuts row-major RGBA bytes into a `width` × `height` canvas; `None` when the byte count is not
/// `4 × width × height`.
pub fn canvas_from_rgba(width: u32, height: u32, data: &Vec<u8>) -> (r: Option<Canvas>)
    ensures
        r is Some <==> data@.len() == width * height * 4,
        r matches Some(c) ==> {
            &&& c.wf()
            &&& c.width == width
            &&& c.height == height
            &&& canvas_bytes(c.pixel_rows()) == data@
        },
{
    assert((width as int) * (height as int) <= 0xffff_ffff_ffff_ffff) by (nonlinear_arith)
        requires
            width <= 0xffff_ffff,
            height <= 0xffff_ffff,
    ;
    let area: u64 = width as u64 * height as u64;
    let expected: u128 = area as u128 * 4;
    assert(expected == width * height * 4);
    if data.len() as u128 != expected {
        return None;
    }
    let ghost w = width as int;
    let ghost h = height as int;
    let len = data.len();
    let mut rows: Vec<Vec<[u8; 4]>> = Vec::new();
    let mut pos: usize = 0;
    let mut py: u32 = 0;
    while py < height
        invariant
            data@.len() == w * h * 4,
            len == data@.len(),
            pos <= len,
            w == width,
            h == height,
            py <= height,
            pos == 4 * w * py,
            rows@.len() == py,
            forall|r: int| 0 <= r < rows@.len() ==> (#[trigger] rows@[r])@.len() == width,
            canvas_bytes(rows@.map_values(|r: Vec<[u8; 4]>| r@)) == data@.subrange(0, pos as int),
        decreases height - py,
    {
        let mut row: Vec<[u8; 4]> = Vec::new();
        let mut px: u32 = 0;
        let ghost row_start = pos as int;
        assert(row_bytes(row@) =~= data@.subrange(row_start, pos as int));
        while px < width
            invariant
                data@.len() == w * h * 4,
                len == data@.len(),
                pos <= len,
                w == width,
                h == height,
                py < height,
                px <= width,
                row_start == 4 * w * py,
                pos == row_start + 4 * px,
                row@.len() == px,
                row_bytes(row@) == data@.subrange(row_start, pos as int),
            decreases width - px,
        {
            proof {
                assert(pos + 4 <= w * h * 4) by (nonlinear_arith)
                    requires
                        pos == 4 * w * py + 4 * px,
                        px < w,
                        py < h,
                        0 <= px,
                        0 <= py,
                ;
            }
            let p: [u8; 4] = [data[pos], data[pos + 1], data[pos + 2], data[pos + 3]];
            let ghost old_row = row@;
            row.push(p);
            proof {
                assert(row@.drop_last() =~= old_row);
                assert(row@.last() == p);
                assert(row_bytes(row@) == row_bytes(old_row) + p@);
                assert(p@ =~= data@.subrange(pos as int, pos + 4));
                assert(data@.subrange(row_start, pos + 4) =~= data@.subrange(row_start, pos as int)
                    + data@.subrange(pos as int, pos + 4));
            }
            pos = pos + 4;
            px += 1;
        }
        let ghost old_rows = rows@;
        rows.push(row);
        proof {
            let views = rows@.map_values(|r: Vec<[u8; 4]>| r@);
            assert(views.drop_last() =~= old_rows.map_values(|r: Vec<[u8; 4]>| r@));
            assert(views.last() == row@);
            assert(4 * w * py + 4 * w == 4 * w * (py + 1)) by (nonlinear_arith);
            assert(4 * w * (py + 1) <= w * h * 4) by (nonlinear_arith)
                requires
                    py < h,
                    0 <= w,
                    0 <= py,
            ;
            assert(data@.subrange(0, pos as int) =~= data@.subrange(0, row_start) + data@.subrange(
                row_start,
                pos as int,
            ));
        }
        py += 1;
    }
    assert(4 * w * h == w * h * 4) by (nonlinear_arith);
    assert(data@.subrange(0, pos as int) =~= data@);
    Some(Canvas { width, height, rows })
}

/// Character code after ASCII upper-casing: 'a'..='z' become 'A'..='Z', the rest is unchanged.
pub open spec fn upper_code(c: char) -> u32 {
    let k = c as u32;
    if 97 <= k <= 122 {
        (k - 32) as u32
    } else {
        k
    }
}

/// The glyph drawn for character `c`.
pub open spec fn glyph_for(c: char) -> [[u8; 5]; 7] {
    let m = font_map(FONT_TABLE@.len());
    if m.contains_key(upper_code(c)) {
        m[upper_code(c)]
    } else {
        DEFAULT_GLYPH
    }
}

/// Glyph `g` placed with its top-left pixel at (`ox`, `oy`) lights pixel (`px`, `py`).
pub open spec fn glyph_lights(g: [[u8; 5]; 7], ox: int, oy: int, px: int, py: int) -> bool {
    &&& 0 <= px - ox < 5
    &&& 0 <= py - oy < 7
    &&& g@[py - oy]@[px - ox] == 1
}

/// The character cell that column `px` falls in, counting from the text's left edge `x`.
pub open spec fn cell_of(x: int, px: int) -> int {
    (px - x) / CHAR_WIDTH as int
}

/// Text drawn from (`x`, `y`) on an image `width` wide lights pixel (`px`, `py`) through one of
/// its first `limit` characters: the cell of `px` holds such a character, that character fits
/// entirely left of the right edge (drawing stops at the first one that does not), and its glyph
/// lights the pixel.
pub open spec fn text_lights(
    text: Seq<char>,
    x: int,
    y: int,
    width: int,
    limit: int,
    px: int,
    py: int,
) -> bool {
    let ci = cell_of(x, px);
    &&& px >= x
    &&& ci < limit
    &&& ci < text.len()
    &&& x + CHAR_WIDTH * ci + CHAR_WIDTH <= width
    &&& glyph_lights(glyph_for(text[ci]), x + CHAR_WIDTH * ci, y, px, py)
}

/// A character the font table lists is drawn with the glyph listed beside it (after ASCII
/// upper-casing); any other character is drawn as the empty frame.
pub proof fn lemma_glyph_for_table(c: char)
    ensures
        forall|i: int|
            0 <= i < 39 && upper_code(c) == #[trigger] FONT_TABLE@[i].0 as u32 ==> glyph_for(c)
                == FONT_TABLE@[i].1,
        (forall|i: int| 0 <= i < 39 ==> upper_code(c) != #[trigger] FONT_TABLE@[i].0 as u32)
            ==> glyph_for(c) == DEFAULT_GLYPH,
{
    lemma_font_entries();
    if font_map(39).contains_key(upper_code(c)) {
        let i = choose|i: int| 0 <= i < 39 && #[trigger] FONT_TABLE@[i].0 as u32 == upper_code(c);
        assert(FONT_TABLE@[i].0 as u32 == upper_code(c));
    }
}

/// Characters are drawn left to right in the order of the text: the `k`-th character of the
/// text occupies columns `x + 6k` to `x + 6k + 4` from row `y` down, where it lights exactly the
/// pixels its glyph marks, and column `x + 6k + 5` stays blank; this holds for every character
/// whose cell ends within the image width.
pub proof fn lemma_text_cells(text: Seq<char>, x: int, y: int, width: int, k: int, r: int, j: int)
    requires
        0 <= k < text.len(),
        0 <= r < 7,
        0 <= j < 6,
        x + CHAR_WIDTH * k + CHAR_WIDTH <= width,
    ensures
        text_lights(text, x, y, width, text.len() as int, x + CHAR_WIDTH * k + j, y + r) <==> (j < 5
            && glyph_for(text[k])@[r]@[j] == 1),
{
    let px = x + CHAR_WIDTH * k + j;
    assert((6 * k + j) / 6 == k) by (nonlinear_arith)
        requires
            0 <= j < 6,
            0 <= k,
    ;
    assert(cell_of(x, px) == k);
}

/// Writes `text` in the bitmap font with its top-left corner at (`x`, `y`), one 6-pixel cell per
/// character, upper-casing ASCII letters and drawing unknown characters as an empty frame. Lit
/// pixels outside the image are skipped; drawing stops at the first character that would
/// cross the right edge.
pub fn draw_text_on_image(img: &mut Canvas, text: &str, x: i32, y: i32, color: [u8; 4])
    requires
        old(img).wf(),
        old(img).width <= i32::MAX,
        old(img).height <= i32::MAX,
    ensures
        final(img).wf(),
        final(img).width == old(img).width,
        final(img).height == old(img).height,
        forall|px: int, py: int|
            0 <= px < old(img).width && 0 <= py < old(img).height ==> #[trigger] final(img).pixel(px, py)
                == if text_lights(text@, x as int, y as int, old(img).width as int, text@.len() as int, px, py) {
                color
            } else {
                old(img).pixel(px, py)
            },
{
    let ghost start = *img;
    let font = create_simple_font();
    let w = img.width as i64;
    let h = img.height as i64;
    let n = text.unicode_len();
    let mut ci: usize = 0;
    let mut cur_x: i64 = x as i64;
    while ci < n && cur_x + CHAR_WIDTH <= w
        invariant
            font@ == font_map(FONT_TABLE@.len()),
            n == text@.len(),
            w == start.width,
            h == start.height,
            w <= i32::MAX,
            h <= i32::MAX,
            ci <= n,
            cur_x == x + CHAR_WIDTH * ci,
            i32::MIN <= cur_x <= i32::MAX,
            img.wf(),
            img.width == start.width,
            img.height == start.height,
            forall|px: int, py: int|
                0 <= px < w && 0 <= py < h ==> #[trigger] img.pixel(px, py) == if text_lights(
                    text@,
                    x as int,
                    y as int,
                    w as int,
                    ci as int,
                    px,
                    py,
                ) {
                    color
                } else {
                    start.pixel(px, py)
                },
        decreases n - ci,
    {
        let ch = text.get_char(ci);
        let mut code = ch as u32;
        if 97 <= code && code <= 122 {
            code = code - 32;
        }
        let glyph = match font.get(&code) {
            Some(g) => *g,
            None => DEFAULT_GLYPH,
        };
        assert(glyph == glyph_for(text@[ci as int]));
        let ghost before = *img;
        let mut r: usize = 0;
        while r < 7
            invariant
                w == start.width,
                h == start.height,
                w <= i32::MAX,
                h <= i32::MAX,
                r <= 7,
                cur_x == x + CHAR_WIDTH * ci,
                i32::MIN <= cur_x <= i32::MAX,
                img.wf(),
                img.width == start.width,
                img.height == start.height,
                forall|px: int, py: int|
                    0 <= px < w && 0 <= py < h ==> #[trigger] img.pixel(px, py) == if glyph_lights(
                        glyph,
                        cur_x as int,
                        y as int,
                        px,
                        py,
                    ) && py - y < r {
                        color
                    } else {
                        before.pixel(px, py)
                    },
            decreases 7 - r,
        {
            let mut c: usize = 0;
            while c < 5
                invariant
                    w == start.width,
                    h == start.height,
                    w <= i32::MAX,
                    h <= i32::MAX,
                    r < 7,
                    c <= 5,
                    cur_x == x + CHAR_WIDTH * ci,
                    i32::MIN <= cur_x <= i32::MAX,
                    img.wf(),
                    img.width == start.width,
                    img.height == start.height,
                    forall|px: int, py: int|
                        0 <= px < w && 0 <= py < h ==> #[trigger] img.pixel(px, py) == if glyph_lights(
                            glyph,
                            cur_x as int,
                            y as int,
                            px,
                            py,
                        ) && (py - y < r || (py - y == r && px - cur_x < c)) {
                            color
                        } else {
                            before.pixel(px, py)
                        },
                decreases 5 - c,
            {
                if glyph[r][c] == 1 {
                    let px = cur_x + c as i64;
                    let py = y as i64 + r as i64;
                    if 0 <= px && px < w && 0 <= py && py < h {
                        let ghost prev = *img;
                        let pxu = px as usize;
                        let pyu = py as usize;
                        img.rows[pyu].set(pxu, color);
                        assert forall|qx: int, qy: int|
                            0 <= qx < w && 0 <= qy < h implies #[trigger] img.pixel(qx, qy) == if qx == px
                                && qy == py {
                                color
                            } else {
                                prev.pixel(qx, qy)
                            } by {}
                    }
                }
                c += 1;
            }
            r += 1;
        }
        assert forall|px: int, py: int|
            0 <= px < w && 0 <= py < h implies #[trigger] img.pixel(px, py) == if text_lights(
                text@,
                x as int,
                y as int,
                w as int,
                (ci + 1) as int,
                px,
                py,
            ) {
                color
            } else {
                start.pixel(px, py)
            } by {
            if glyph_lights(glyph, cur_x as int, y as int, px, py) {
                assert(cell_of(x as int, px) == ci);
            } else if px >= x && cell_of(x as int, px) == ci {
                assert(!text_lights(text@, x as int, y as int, w as int, (ci + 1) as int, px, py));
            }
        }
        cur_x = cur_x + CHAR_WIDTH;
        ci += 1;
    }
    assert forall|px: int, py: int|
        0 <= px < w && 0 <= py < h implies #[trigger] img.pixel(px, py) == if text_lights(
            text@,
            x as int,
            y as int,
            w as int,
            n as int,
            px,
            py,
        ) {
            color
        } else {
            start.pixel(px, py)
        } by {
        if text_lights(text@, x as int, y as int, w as int, n as int, px, py) {
            assert(cell_of(x as int, px) < ci);
        }
    }
}

/// One GIF frame in indexed colour: an RGB palette, one palette index per pixel (row-major),
/// and the index used for transparent pixels, if any.
pub struct FramePixels {
    pub width: u16,
    pub height: u16,
    pub palette: Vec<u8>,
    pub indices: Vec<u8>,
    pub transparent: Option<u8>,
}

/// What `gif::Frame::from_rgba_speed(width, height, rgba, speed)` computes from row-major
/// RGBA bytes: the palette, the per-pixel indices and the transparent index.
pub uninterp spec fn quantized_frame(width: u16, height: u16, rgba: Seq<u8>, speed: i32) -> (
    Seq<u8>,
    Seq<u8>,
    Option<u8>,
);

/// Reduces row-major RGBA bytes to an indexed-colour frame with
/// `gif::Frame::from_rgba_speed` (exact palette up to 256 colours, NeuQuant beyond; `speed`
/// trades quality for time). Claimed: the frame keeps the given size, its palette, indices and
/// transparent index are the call's result on these arguments, and there is one index per
/// pixel. The call panics unless `rgba` holds 4 × width × height bytes and 1 ≤ speed ≤ 30.
#[verifier::external_body]
fn quantize_rgba(width: u16, height: u16, rgba: Vec<u8>, speed: i32) -> (f: FramePixels)
    requires
        width * height * 4 == rgba@.len(),
        1 <= speed <= 30,
    ensures
        f.width == width,
        f.height == height,
        (f.palette@, f.indices@, f.transparent) == quantized_frame(width, height, rgba@, speed),
        f.indices@.len() == width * height,
{
    let mut rgba = rgba;
    let frame = gif::Frame::from_rgba_speed(width, height, &mut rgba, speed);
    FramePixels {
        width: frame.width,
        height: frame.height,
        palette: frame.palette.unwrap_or_default(),
        indices: frame.buffer.into_owned(),
        transparent: frame.transparent,
    }
}

/// Colour of frame labels.
pub const LABEL_COLOR: [u8; 4] = [255, 255, 255, 255];

/// Left edge of the label, in pixels.
pub const LABEL_LEFT: i32 = 10;

/// Distance from the bottom edge to the top of the label, in pixels.
pub const LABEL_RISE: i32 = 20;

/// Quantisation speed used for the animation frames.
pub const FRAME_SPEED: i32 = 10;

/// The pixels of `img` once `text` is written as its label: white bitmap text from
/// (`LABEL_LEFT`, height − `LABEL_RISE`).
pub open spec fn labelled_rows(img: Canvas, text: Seq<char>) -> Seq<Seq<[u8; 4]>> {
    let w = img.width as int;
    let h = img.height as int;
    Seq::new(
        img.height as nat,
        |py: int|
            Seq::new(
                img.width as nat,
                |px: int|
                    if text_lights(text, LABEL_LEFT as int, h - LABEL_RISE, w, text.len() as int, px, py) {
                        LABEL_COLOR
                    } else {
                        img.pixel(px, py)
                    },
            ),
    )
}

/// Turns a rendered image into an animation frame: writes `name` as its label in the bottom-left
/// corner, then reduces it to indexed colour at `FRAME_SPEED`. `None` when a side is too large
/// for a GIF frame (more than 65535 pixels).
pub fn labelled_frame(img: Canvas, name: &str) -> (r: Option<FramePixels>)
    requires
        img.wf(),
    ensures
        r is None <==> (img.width > u16::MAX || img.height > u16::MAX),
        r matches Some(f) ==> {
            &&& f.width == img.width
            &&& f.height == img.height
            &&& (f.palette@, f.indices@, f.transparent) == quantized_frame(
                img.width as u16,
                img.height as u16,
                canvas_bytes(labelled_rows(img, name@)),
                FRAME_SPEED,
            )
        },
{
    if img.width > 65535 || img.height > 65535 {
        return None;
    }
    let ghost start = img;
    let mut img = img;
    let text_y = img.height as i32 - LABEL_RISE;
    draw_text_on_image(&mut img, name, LABEL_LEFT, text_y, LABEL_COLOR);
    let ghost target = labelled_rows(start, name@);
    proof {
        assert forall|py: int| 0 <= py < img.height implies #[trigger] img.pixel_rows()[py] == target[py] by {
            assert forall|px: int| 0 <= px < img.width implies #[trigger] img.pixel_rows()[py][px]
                == target[py][px] by {
                assert(img.pixel(px, py) == img.pixel_rows()[py][px]);
            }
            assert(img.pixel_rows()[py] =~= target[py]);
        }
        assert(img.pixel_rows() =~= target);
        lemma_canvas_bytes_len(img.pixel_rows(), img.width as nat);
    }
    let bytes = canvas_to_rgba(&img);
    let w = img.width as u16;
    let h = img.height as u16;
    let f = quantize_rgba(w, h, bytes, FRAME_SPEED);
    Some(f)
}

/// What `image::ImageFormat::from_path(file_name)`, then
/// `image::load_from_memory_with_format(bytes, format)` and `to_rgba8()` give: width, height and
/// row-major RGBA bytes, or `None` when the name's extension names no supported format or the
/// bytes do not decode in that format.
pub uninterp spec fn decoded_rgba(file_name: Seq<char>, bytes: Seq<u8>) -> Option<(u32, u32, Seq<u8>)>;

/// Decodes an image file held in memory, in the format that its name's extension gives
/// (`image::ImageFormat::from_path`, as `image::open` does), with
/// `image::load_from_memory_with_format`, and converts it to 8-bit RGBA with `to_rgba8`.
/// Claimed: the result is the calls' result on this name and these bytes (`None` on an unknown
/// extension or a decoding error), and the RGBA bytes fill the size exactly, four per pixel.
#[verifier::external_body]
fn load_rgba8(file_name: &str, bytes: &Vec<u8>) -> (r: Option<(u32, u32, Vec<u8>)>)
    ensures
        match r {
            Some((w, h, d)) => decoded_rgba(file_name@, bytes@) == Some((w, h, d@)),
            None => decoded_rgba(file_name@, bytes@) is None,
        },
        r matches Some((w, h, d)) ==> d@.len() == w * h * 4,
{
    let format = image::ImageFormat::from_path(file_name).ok()?;
    let rgba = image::load_from_memory_with_format(bytes, format).ok()?.to_rgba8();
    let (w, h) = rgba.dimensions();
    Some((w, h, rgba.into_raw()))
}

/// Decodes an image file held in memory into a canvas, in the format named by the extension
/// of `file_name`. `None` when the extension names no supported format or the bytes do not
/// decode.
pub fn decode_png(file_name: &str, bytes: &Vec<u8>) -> (r: Option<Canvas>)
    ensures
        r is Some <==> decoded_rgba(file_name@, bytes@) is Some,
        r matches Some(c) ==> {
            &&& c.wf()
            &&& decoded_rgba(file_name@, bytes@) == Some((c.width, c.height, canvas_bytes(c.pixel_rows())))
        },
{
    match load_rgba8(file_name, bytes) {
        Some((w, h, data)) => canvas_from_rgba(w, h, &data),
        None => None,
    }
}
} // verus!
