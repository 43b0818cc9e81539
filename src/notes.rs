//! Pitch classes, key names and the small arithmetic on note positions.
use vstd::prelude::*;
use vstd::string::*;

verus! {

pub const C: u8 = 0;
pub const CSHARP: u8 = 1;
pub const D: u8 = 2;
pub const DSHARP: u8 = 3;
pub const E: u8 = 4;
pub const F: u8 = 5;
pub const FSHARP: u8 = 6;
pub const G: u8 = 7;
pub const GSHARP: u8 = 8;
pub const A: u8 = 9;
pub const ASHARP: u8 = 10;
pub const B: u8 = 11;

/// MIDI ticks per quarter note (one beat).
pub const PPQ: u32 = 96;

/// Ticks in half a beat, the unit in which note lengths are drawn.
pub const HALF_BEAT_TICKS: u32 = 48;

/// The pitch class of a natural note letter, if it is one.
pub open spec fn natural_index(c: char) -> Option<int> {
    if c == 'C' {
        Some(0)
    } else if c == 'D' {
        Some(2)
    } else if c == 'E' {
        Some(4)
    } else if c == 'F' {
        Some(5)
    } else if c == 'G' {
        Some(7)
    } else if c == 'A' {
        Some(9)
    } else if c == 'B' {
        Some(11)
    } else {
        None
    }
}

/// Whether a key name has a sharp after its letter.
pub open spec fn key_is_sharp(s: Seq<char>) -> bool {
    s.len() >= 2 && s[1] == '#'
}

/// Whether what follows the letter (and sharp) of a key name is `maj`.
pub open spec fn key_is_major(s: Seq<char>) -> bool {
    let start: int = if key_is_sharp(s) { 2 } else { 1 };
    s.subrange(start, s.len() as int) == seq!['m', 'a', 'j']
}

/// The offset of a key from C minor: `<letter>[#][maj|min]`, where a major
/// key sits three semitones above the minor key of the same letter. A name
/// that starts with no note letter (such as `random`) gives 0.
pub open spec fn key_offset(s: Seq<char>) -> int {
    if s.len() == 0 {
        0
    } else {
        match natural_index(s[0]) {
            None => 0,
            Some(i) => (i + (if key_is_major(s) { 3int } else { 0 }) + (if key_is_sharp(s) {
                1int
            } else {
                0
            })) % 12,
        }
    }
}

/// Parses a key name such as `Dmaj`, `D#maj` or `Bmin` into its offset from
/// C minor. Flats are not accepted; `random` and other names that do not
/// start with a note letter give 0.
pub fn parse_key(key: &str) -> (r: i16)
    ensures
        r as int == key_offset(key@),
        0 <= r < 12,
{
    let n = key.unicode_len();
    if n == 0 {
        return 0;
    }
    let first = key.get_char(0);
    let letter: i16 = if first == 'C' {
        0
    } else if first == 'D' {
        2
    } else if first == 'E' {
        4
    } else if first == 'F' {
        5
    } else if first == 'G' {
        7
    } else if first == 'A' {
        9
    } else if first == 'B' {
        11
    } else {
        return 0;
    };
    let sharp = n >= 2 && key.get_char(1) == '#';
    let start: usize = if sharp { 2 } else { 1 };
    let major = n >= start && n - start == 3 && key.get_char(start) == 'm' && key.get_char(
        start + 1,
    ) == 'a' && key.get_char(start + 2) == 'j';
    proof {
        let rest = key@.subrange(start as int, n as int);
        if major {
            assert(rest =~= seq!['m', 'a', 'j']);
        } else if rest == seq!['m', 'a', 'j'] {
            assert(rest.len() == 3);
            assert(rest[0] == 'm' && rest[1] == 'a' && rest[2] == 'j');
        }
    }
    let shift: i16 = if major { 3 } else { 0 };
    let sharp_shift: i16 = if sharp { 1 } else { 0 };
    (letter + shift + sharp_shift) % 12
}

/// Moves a note up (or down) by whole octaves; the result is the low byte of
/// the new position.
pub fn add_octaves(n: i16, octaves: i16) -> (r: u8)
    requires
        -2730 <= octaves <= 2730,
        i16::MIN <= n + 12 * octaves <= i16::MAX,
    ensures
        r as int == (n + 12 * octaves) % 256,
{
    let v: i16 = n + octaves * 12;
    let w: i32 = v as i32 + 65536;
    proof {
        vstd::arithmetic::div_mod::lemma_mod_add_multiples_vanish(v as int, 256);
        assert((v as int + 65536) % 256 == (v as int) % 256) by {
            vstd::arithmetic::div_mod::lemma_mod_multiples_vanish(256, v as int, 256);
        }
    }
    (w % 256) as u8
}

/// The largest index of a note length (`index + 1` half beats) that still
/// fits in a four-beat bar after `total_half_beats` half beats: the exact
/// `2 * (4 - total_time) - 1` with `total_time` in beats.
pub fn get_max_note_length_index(total_half_beats: u16) -> (r: u16)
    requires
        total_half_beats < 8,
    ensures
        r == 7 - total_half_beats,
        r as int + 1 + total_half_beats == 8,
{
    7 - total_half_beats
}

/// Ticks in a number of half beats.
pub fn half_beats_to_ticks(half_beats: u32) -> (r: u32)
    requires
        half_beats * HALF_BEAT_TICKS <= u32::MAX,
    ensures
        r == half_beats * HALF_BEAT_TICKS,
        r == half_beats * PPQ / 2,
{
    half_beats * HALF_BEAT_TICKS
}


/// The remainder of `a` divided by 12, with the sign of `a` (as Rust's `%`).
pub open spec fn rem12(a: int) -> int {
    if a >= 0 {
        a % 12
    } else {
        -((-a) % 12)
    }
}

/// Each note moved by `transpose_amount` semitones, wrapped to a pitch
/// class (a negative sum keeps its sign, as Rust's `%` does).
pub fn transpose(notes: &[i32], transpose_amount: i16) -> (r: Vec<i32>)
    requires
        forall|i: int| 0 <= i < notes@.len() ==> i32::MIN < #[trigger] notes@[i] + transpose_amount <= i32::MAX,
    ensures
        r@.len() == notes@.len(),
        forall|i: int| 0 <= i < r@.len() ==> r@[i] as int == rem12(notes@[i] + transpose_amount),
{
    let mut r: Vec<i32> = Vec::new();
    let mut i: usize = 0;
    while i < notes.len()
        invariant
            i <= notes@.len(),
            r@.len() == i,
            forall|j: int| 0 <= j < notes@.len() ==> i32::MIN < #[trigger] notes@[j] + transpose_amount <= i32::MAX,
            forall|j: int| 0 <= j < i ==> r@[j] as int == rem12(notes@[j] + transpose_amount),
        decreases notes@.len() - i,
    {
        assert(i32::MIN < notes@[i as int] + transpose_amount <= i32::MAX);
        let x = notes[i] + transpose_amount as i32;
        let v = if x >= 0 {
            x % 12
        } else {
            -((-x) % 12)
        };
        r.push(v);
        i = i + 1;
    }
    r
}

} // verus!
