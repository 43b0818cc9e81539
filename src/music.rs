//! A generation session: the decision source, the key, the chord universe
//! and the note accumulator; chord picking and the placement algorithms.
use vstd::prelude::*;
use crate::chord::{chord_views, key_ok, Chord, ChordView};
use crate::chord_type::{chord_types_of_group, ctv, group_catalog, group_of, text_views, ChordTypeGroup};
use crate::error::MusicError;
use crate::midi::{events_of, is_sorted, sorted_notes, MidiFile, MidiNote, NoteEvent};
use crate::notes::{key_offset, parse_key, HALF_BEAT_TICKS};
use crate::pruning::{
    lemma_pruning_equivalence, mask_pruned_list, prune_chords, scale_notes, scale_of, set_pruned_list,
    set_pruned_table,
};
use crate::rng::MathMagician;
use std::collections::VecDeque;
use crate::text::same_text;
use crate::universe::{
    all_in_key, all_keys_ok, build_universe, built_table, chords_of_types, consistent, lemma_built_consistent,
    lemma_rotation_consistent, lemma_table_of_consistent, rotate_universe, rotated_table, stamped, table_chords,
    table_of, table_views,
};

verus! {

/// The largest number of chords a piece can have: the ticks of its last
/// note must fit in 32 bits.
pub const MAX_NUM_CHORDS: usize = 10000000;

/// How many times a chord that repeats within the uniqueness window is
/// drawn again before the repeat is accepted.
pub const RETRY_BUDGET: u32 = 420;

/// A closed choice among the placement algorithms.
#[derive(Clone, Copy, Debug, PartialEq, Eq, Structural)]
pub enum GenerationMode {
    Melody,
    Chords,
    MelodyV2,
    MelodyV3,
    Intended,
    Unrecognized,
}

/// The placement algorithm a name selects.
pub open spec fn mode_of(name: Seq<char>) -> GenerationMode {
    if name == "melody"@ {
        GenerationMode::Melody
    } else if name == "chords"@ {
        GenerationMode::Chords
    } else if name == "melody v2"@ {
        GenerationMode::MelodyV2
    } else if name == "melody v3"@ {
        GenerationMode::MelodyV3
    } else if name == "intended"@ {
        GenerationMode::Intended
    } else {
        GenerationMode::Unrecognized
    }
}

impl GenerationMode {
    /// Reads a generation mode: `melody`, `chords`, `melody v2`,
    /// `melody v3` or `intended`.
    pub fn from_name(name: &str) -> (r: Self)
        ensures
            r == mode_of(name@),
    {
        if same_text(name, "melody") {
            GenerationMode::Melody
        } else if same_text(name, "chords") {
            GenerationMode::Chords
        } else if same_text(name, "melody v2") {
            GenerationMode::MelodyV2
        } else if same_text(name, "melody v3") {
            GenerationMode::MelodyV3
        } else if same_text(name, "intended") {
            GenerationMode::Intended
        } else {
            GenerationMode::Unrecognized
        }
    }
}

/// A closed choice among the ways of picking a chord.
#[derive(Clone, Copy, Debug, PartialEq, Eq, Structural)]
pub enum PickingMethod {
    /// A pitch class first, then a chord of its bucket.
    Original,
    /// A chord of the flat list.
    OneD,
    Unrecognized,
}

/// The picking method a name selects.
pub open spec fn method_of(name: Seq<char>) -> PickingMethod {
    if name == "original"@ {
        PickingMethod::Original
    } else if name == "1D"@ {
        PickingMethod::OneD
    } else {
        PickingMethod::Unrecognized
    }
}

impl PickingMethod {
    /// Reads a picking method: `original` or `1D`.
    pub fn from_name(name: &str) -> (r: Self)
        ensures
            r == method_of(name@),
    {
        if same_text(name, "original") {
            PickingMethod::Original
        } else if same_text(name, "1D") {
            PickingMethod::OneD
        } else {
            PickingMethod::Unrecognized
        }
    }
}

/// The degenerate chord: an empty chord type at C in C minor.
pub open spec fn default_chord_view() -> ChordView {
    ChordView { chord_type: ctv(Seq::empty(), Seq::empty(), Seq::empty(), Seq::empty()), root: 0, key: 0 }
}

/// A note marker pair: on at half beat `start`, off at half beat `end`.
pub open spec fn note_pair(pitch: u8, start: int, end: int, volume: u8) -> Seq<MidiNote> {
    seq![
        MidiNote { pitch, note_on: true, start_time: (start * 48) as u32, volume },
        MidiNote { pitch, note_on: false, start_time: (end * 48) as u32, volume },
    ]
}

/// The low byte of a note position.
pub open spec fn low_byte(v: int) -> u8 {
    (v % 256) as u8
}

/// A generation session.
#[derive(Debug)]
pub struct Music {
    pub math_magician: MathMagician,
    pub midi_file: MidiFile,
    /// The key of the piece, an offset from C minor.
    pub key: i16,
    pub chord_table: Vec<Vec<Chord>>,
    pub chord_list: Vec<Chord>,
    /// The key every chord of the universe is shown in; the table's bucket
    /// `q` holds the chords with a note at pitch class `q` in that key.
    pub table_key: i16,
}

/// Nothing of the session changed but the draws of its decision source and
/// the notes it accumulated.
pub open spec fn same_universe(a: &Music, b: &Music) -> bool {
    a.key == b.key && a.chord_table@ == b.chord_table@ && a.chord_list@ == b.chord_list@ && a.table_key == b.table_key
}

impl Music {
    /// A well-formed session: twelve buckets that agree with the list, all
    /// chords shown in the table key, keys that are pitch classes.
    pub open spec fn wf(&self) -> bool {
        &&& self.chord_table@.len() == 12
        &&& key_ok(self.key as int)
        &&& key_ok(self.table_key as int)
        &&& all_in_key(chord_views(self.chord_list@), self.table_key)
        &&& consistent(table_views(self.chord_table@), chord_views(self.chord_list@))
    }

    /// Starts a session from a 32-byte seed: the key (drawn first, always,
    /// and used only when `chosen_key` is `random`), the chord types of the
    /// group, their universe, pruned to the scale in the key of C minor.
    pub fn smoke_hash(
        hash: [u8; 32],
        chosen_key: &str,
        chord_selections: &Vec<String>,
        chord_type_group: &str,
        scale: &str,
    ) -> (r: Result<Music, MusicError>)
        ensures
            r is Ok,
            r->Ok_0.wf(),
            r->Ok_0.table_key == 0,
            r->Ok_0.midi_file.notes@ == Seq::<MidiNote>::empty(),
            table_chords(table_views(r->Ok_0.chord_table@)) == chord_views(r->Ok_0.chord_list@).to_set(),
            chosen_key@ != "random"@ ==> r->Ok_0.key as int == key_offset(chosen_key@),
            ({
                let built = chords_of_types(group_catalog(group_of(chord_type_group@), text_views(chord_selections@)));
                match scale_notes(scale_of(scale@)) {
                    None => chord_views(r->Ok_0.chord_list@) == built && table_views(r->Ok_0.chord_table@)
                        == built_table(built),
                    Some(g) => chord_views(r->Ok_0.chord_list@) == set_pruned_list(built, g, 0) && table_views(
                        r->Ok_0.chord_table@,
                    ) == set_pruned_table(built, g, 0),
                }
            }),
    {
        let mut math_magician = MathMagician::share_hash(hash);
        let mut key = math_magician.pick_note();
        if !same_text(chosen_key, "random") {
            key = parse_key(chosen_key);
        }
        let group = ChordTypeGroup::from_name(chord_type_group);
        let chord_types = chord_types_of_group(group, chord_selections);
        let (mut chord_table, mut chord_list) = build_universe(&chord_types);
        let ghost built = chord_views(chord_list@);
        proof {
            crate::universe::lemma_chords_of_types_in_key(crate::chord_type::type_views(chord_types@));
            lemma_built_consistent(built);
        }
        prune_chords(&mut chord_table, &mut chord_list, scale, 0, false);
        proof {
            match scale_notes(scale_of(scale@)) {
                None => {},
                Some(g) => {
                    assert(crate::ordering::ordered_table(set_pruned_table(built, g, 0), false) =~= set_pruned_table(built, g, 0));
                    lemma_pruning_equivalence(built, g, 0);
                    lemma_table_of_consistent(mask_pruned_list(built, g, 0));
                    crate::universe::lemma_expanded_in_key(built);
                    crate::universe::lemma_keep_in_key(crate::universe::expanded(built), |c: ChordView| crate::pruning::avoids_bad(g, 0, c), 0);
                },
            }
        }
        proof {
            let types = crate::chord_type::type_views(chord_types@);
            crate::chord_type::lemma_group_have_notes(group, text_views(chord_selections@));
            crate::universe::lemma_chords_of_types_have_notes(types);
            match scale_notes(scale_of(scale@)) {
                None => {},
                Some(g) => {
                    crate::universe::lemma_expanded_have_notes(built);
                    crate::universe::lemma_keep_have_notes(crate::universe::expanded(built), |c: ChordView| crate::pruning::avoids_bad(g, 0, c));
                },
            }
            crate::universe::lemma_table_list_consistency(table_views(chord_table@), chord_views(chord_list@));
        }
        Ok(Music { math_magician, midi_file: MidiFile::new(), key, chord_table, chord_list, table_key: 0 })
    }

    /// Shows every chord in the given key and rotates the table to match:
    /// the buckets move right by the distance from the current table key.
    /// Rotating again to the same key changes nothing.
    pub fn rotate_chords(&mut self, key: &str)
        requires
            old(self).wf(),
        ensures
            final(self).wf(),
            final(self).table_key as int == key_offset(key@),
            final(self).key == old(self).key,
            final(self).math_magician == old(self).math_magician,
            final(self).midi_file == old(self).midi_file,
            chord_views(final(self).chord_list@) == stamped(chord_views(old(self).chord_list@), final(self).table_key),
            table_views(final(self).chord_table@) == rotated_table(
                table_views(old(self).chord_table@),
                final(self).table_key,
                (final(self).table_key - old(self).table_key) % 12,
            ),
    {
        let k = parse_key(key);
        let shift = ((k + 12 - self.table_key) % 12) as usize;
        proof {
            assert(shift as int == (k - self.table_key) % 12);
            lemma_rotation_consistent(table_views(self.chord_table@), chord_views(self.chord_list@), self.table_key, k);
        }
        rotate_universe(&mut self.chord_table, &mut self.chord_list, k, shift);
        self.table_key = k;
    }

    /// Picks a chord: a pitch class is drawn, then a chord of its bucket;
    /// an empty bucket passes the draw on to the next pitch class. With
    /// every bucket empty the degenerate chord is returned.
    pub fn pick_chord(&mut self) -> (r: Chord)
        requires
            old(self).chord_table@.len() == 12,
        ensures
            same_universe(final(self), old(self)),
            final(self).midi_file == old(self).midi_file,
            (exists|q: int| 0 <= q < 12 && (#[trigger] old(self).chord_table@[q])@.len() > 0)
                ==> table_chords(table_views(old(self).chord_table@)).contains(r@),
            !(exists|q: int| 0 <= q < 12 && (#[trigger] old(self).chord_table@[q])@.len() > 0) ==> r@
                == default_chord_view(),
            old(self).wf() ==> r.wf(),
    {
        let ghost tv = table_views(self.chord_table@);
        let first = self.math_magician.pick_note();
        let mut i: usize = 0;
        while i <= 12
            invariant
                same_universe(self, old(self)),
                self.midi_file == old(self).midi_file,
                self.chord_table@.len() == 12,
                tv == table_views(self.chord_table@),
                0 <= first < 12,
                i <= 13,
                forall|t: int| 0 <= t < i ==> (#[trigger] self.chord_table@[(first + t) % 12])@.len() == 0,
            decreases 13 - i,
        {
            let note: usize = (first as usize + i) % 12;
            let len = self.chord_table[note].len();
            if len != 0 {
                let max: u16 = if len - 1 > 65535 {
                    ((len - 1) % 65536) as u16
                } else {
                    (len - 1) as u16
                };
                let idx = self.math_magician.big_decision(0, max) as usize;
                let c = self.chord_table[note][idx].duplicate();
                proof {
                    assert(tv[note as int][idx as int] == c@);
                    assert(tv[note as int].contains(c@));
                    if old(self).wf() {
                        old(self).lemma_table_chord_wf(c@);
                    }
                }
                return c;
            }
            i = i + 1;
        }
        proof {
            assert forall|q: int| 0 <= q < 12 implies (#[trigger] self.chord_table@[q])@.len() == 0 by {
                let t = if q >= first { q - first } else { q + 12 - first };
                assert((first + t) % 12 == q);
                assert(self.chord_table@[(first + t) % 12]@.len() == 0);
            }
        }
        Chord::default()
    }

    /// Picks a chord of the flat list, uniformly; the degenerate chord when
    /// the list is empty.
    pub fn pick_chord_1d(&mut self) -> (r: Chord)
        ensures
            same_universe(final(self), old(self)),
            final(self).midi_file == old(self).midi_file,
            old(self).chord_list@.len() > 0 ==> chord_views(old(self).chord_list@).contains(r@),
            old(self).chord_list@.len() == 0 ==> r@ == default_chord_view(),
            old(self).wf() ==> r.wf(),
    {
        let len = self.chord_list.len();
        if len == 0 {
            return Chord::default();
        }
        let max: u16 = if len - 1 > 65535 {
            ((len - 1) % 65536) as u16
        } else {
            (len - 1) as u16
        };
        let idx = self.math_magician.big_decision(0, max) as usize;
        let c = self.chord_list[idx].duplicate();
        assert(chord_views(self.chord_list@)[idx as int] == c@);
        assert(old(self).wf() ==> c@.key == old(self).table_key);
        c
    }

    /// Picks a chord by the given method; an unrecognized method gives the
    /// degenerate chord without a draw.
    pub fn pick_by(&mut self, method: PickingMethod) -> (r: Chord)
        requires
            old(self).chord_table@.len() == 12,
        ensures
            same_universe(final(self), old(self)),
            final(self).midi_file == old(self).midi_file,
            method == PickingMethod::Unrecognized ==> r@ == default_chord_view(),
            old(self).wf() ==> r.wf(),
            pickable(table_views(old(self).chord_table@), chord_views(old(self).chord_list@), method, r@),
    {
        let ghost t = table_views(self.chord_table@);
        proof {
            assert forall|q: int| 0 <= q < 12 implies (#[trigger] t[q]).len() == self.chord_table@[q]@.len() by {}
            if exists|q: int| 0 <= q < 12 && (#[trigger] t[q]).len() > 0 {
                let q = choose|q: int| 0 <= q < 12 && (#[trigger] t[q]).len() > 0;
                assert(self.chord_table@[q]@.len() > 0);
            }
            if exists|q: int| 0 <= q < 12 && (#[trigger] self.chord_table@[q])@.len() > 0 {
                let q = choose|q: int| 0 <= q < 12 && (#[trigger] self.chord_table@[q])@.len() > 0;
                assert(t[q].len() > 0);
            }
        }
        match method {
            PickingMethod::Original => self.pick_chord(),
            PickingMethod::OneD => self.pick_chord_1d(),
            PickingMethod::Unrecognized => Chord::default(),
        }
    }
}

/// Whether picking by `method` can give `c` from a universe with table `t`
/// and list `l`: a chord of the table when one of its buckets is non-empty
/// (`Original`), a chord of the list when that is non-empty (`OneD`), the
/// degenerate chord otherwise.
pub open spec fn pickable(t: Seq<Seq<ChordView>>, l: Seq<ChordView>, method: PickingMethod, c: ChordView) -> bool {
    match method {
        PickingMethod::Original => if exists|q: int| 0 <= q < 12 && (#[trigger] t[q]).len() > 0 {
            table_chords(t).contains(c)
        } else {
            c == default_chord_view()
        },
        PickingMethod::OneD => if l.len() > 0 {
            l.contains(c)
        } else {
            c == default_chord_view()
        },
        PickingMethod::Unrecognized => c == default_chord_view(),
    }
}

/// Whether some chord of the window has the identity of `c`.
pub open spec fn window_holds(window: Seq<ChordView>, c: ChordView) -> bool {
    exists|i: int| 0 <= i < window.len() && (#[trigger] window[i]).same_chord(c)
}

/// The window after a chord is admitted: the oldest chord leaves when the
/// window is full.
pub open spec fn window_after(window: Seq<ChordView>, c: ChordView, size: nat) -> Seq<ChordView> {
    if window.len() >= size {
        window.drop_first().push(c)
    } else {
        window.push(c)
    }
}

fn window_contains(window: &VecDeque<Chord>, c: &Chord) -> (r: bool)
    ensures
        r == window_holds(chord_views(window@), c@),
{
    let mut i: usize = 0;
    while i < window.len()
        invariant
            i <= window@.len(),
            forall|j: int| 0 <= j < i ==> !(#[trigger] chord_views(window@)[j]).same_chord(c@),
        decreases window@.len() - i,
    {
        if window[i].same_chord(c) {
            assert(chord_views(window@)[i as int].same_chord(c@));
            return true;
        }
        i = i + 1;
    }
    false
}

impl Music {
    /// Keeps the last `size` chosen chords distinct: while `chord` repeats
    /// one of the `window`, another is drawn by `redraw`, at most
    /// `RETRY_BUDGET + 1` times; then the chord joins the window. Returns the
    /// chord and the number of redraws; a chord that still repeats comes
    /// back only when the budget ran out. A window of size 0 does nothing.
    pub fn enforce_unique_chord(
        &mut self,
        redraw: PickingMethod,
        window: &mut VecDeque<Chord>,
        size: usize,
        chord: Chord,
    ) -> (r: (Chord, u32))
        requires
            old(self).wf(),
            old(window)@.len() <= size,
            chord.wf(),
        ensures
            r.0.wf(),
            same_universe(final(self), old(self)),
            final(self).midi_file == old(self).midi_file,
            size == 0 ==> r.0@ == chord@ && r.1 == 0 && final(window)@ == old(window)@,
            size > 0 ==> chord_views(final(window)@) == window_after(chord_views(old(window)@), r.0@, size as nat),
            r.1 <= RETRY_BUDGET + 1,
            window_holds(chord_views(old(window)@), r.0@) ==> r.1 == RETRY_BUDGET + 1,
            final(window)@.len() <= size,
            !window_holds(chord_views(old(window)@), chord@) ==> r.0@ == chord@ && r.1 == 0,
            r.1 > 0 ==> pickable(table_views(old(self).chord_table@), chord_views(old(self).chord_list@), redraw, r.0@),
            r.1 == 0 ==> r.0@ == chord@,
    {
        if size == 0 {
            return (chord, 0);
        }
        let ghost chord0 = chord@;
        let ghost t = table_views(self.chord_table@);
        let ghost l = chord_views(self.chord_list@);
        let mut chord = chord;
        let mut i: u32 = 0;
        while window_contains(window, &chord)
            invariant_except_break
                i <= RETRY_BUDGET,
            invariant
                self.wf(),
                chord.wf(),
                same_universe(self, old(self)),
                self.midi_file == old(self).midi_file,
                window@ == old(window)@,
                t == table_views(self.chord_table@),
                l == chord_views(self.chord_list@),
                i == 0 ==> chord@ == chord0,
                i > 0 ==> pickable(t, l, redraw, chord@),
                i > 0 ==> window_holds(chord_views(window@), chord0),
            ensures
                i > 0 ==> window_holds(chord_views(window@), chord0),
                i <= RETRY_BUDGET + 1,
                window_holds(chord_views(window@), chord@) ==> i == RETRY_BUDGET + 1,
                i == 0 ==> chord@ == chord0 && !window_holds(chord_views(window@), chord@),
                i > 0 ==> pickable(t, l, redraw, chord@),
            decreases RETRY_BUDGET + 1 - i,
        {
            chord = self.pick_by(redraw);
            i = i + 1;
            if i > RETRY_BUDGET {
                break;
            }
        }
        let ghost before = chord_views(window@);
        if window.len() == size {
            let _oldest = window.pop_front();
        }
        let ghost c = chord@;
        window.push_back(chord.duplicate());
        proof {
            if before.len() >= size {
                assert(chord_views(window@) =~= before.drop_first().push(c));
            } else {
                assert(chord_views(window@) =~= before.push(c));
            }
        }
        (chord, i)
    }
}


/// Mandatory note `i` of the chord in octave `o`, moved by `s` and the key.
pub open spec fn moved_pitch(c: ChordView, i: int, o: int, s: int, key: int) -> u8 {
    low_byte(12 * o + s + c.note(i) + key)
}

fn low_byte_of(v: i32) -> (r: u8)
    requires
        -65536 < v < 65536,
    ensures
        r == low_byte(v as int),
{
    let w: i32 = v + 65536;
    proof {
        vstd::arithmetic::div_mod::lemma_mod_multiples_vanish(256, v as int, 256);
    }
    (w % 256) as u8
}


/// The runs one after another.
pub open spec fn flat(runs: Seq<Seq<MidiNote>>) -> Seq<MidiNote>
    decreases runs.len(),
{
    if runs.len() == 0 {
        Seq::empty()
    } else {
        flat(runs.drop_last()) + runs.last()
    }
}

/// A note of `pitch` from half beat `base + from` to `base + to`.
pub open spec fn pair_at(pitch: u8, base: int, from: int, to: int, volume: u8) -> Seq<MidiNote> {
    note_pair(pitch, base + from, base + to, volume)
}

/// A run of notes of one pitch that fills half beats `base` to `base + to`
/// back to back, each at least half a beat long, each with a velocity from
/// 70 to 90.
pub open spec fn tiles(run: Seq<MidiNote>, pitch: u8, base: int, to: int) -> bool
    decreases run.len(),
{
    if run.len() == 0 {
        to == 0
    } else if run.len() < 2 {
        false
    } else {
        exists|from: int, volume: u8|
            0 <= from < to && 70 <= volume <= 90 && run.subrange(run.len() - 2, run.len() as int) == #[trigger] pair_at(
                pitch,
                base,
                from,
                to,
                volume,
            ) && tiles(run.subrange(0, run.len() - 2), pitch, base, from)
    }
}

/// The pitch of mandatory note `i`, moved by octaves and the key.
pub open spec fn note_pitch(c: ChordView, octave: int, key: int, i: int) -> u8 {
    low_byte(c.note(i) + 12 * octave + key)
}


/// The pitches of the mandatory notes, moved by octaves and the key.
pub open spec fn chord_pitches(c: ChordView, octave: int, key: int) -> Seq<u8> {
    Seq::new(c.chord_type.note_intervals.len(), |i: int| note_pitch(c, octave, key, i))
}

/// The pitches of the optional notes (root added, key not), moved by
/// octaves and the key of the piece.
pub open spec fn optional_pitches(c: ChordView, octave: int, key: int) -> Seq<u8> {
    Seq::new(
        c.chord_type.optional_notes.len(),
        |i: int| low_byte(c.chord_type.optional_notes[i] + c.root + 12 * octave + key),
    )
}

/// All the given pitches sounding together from half beat `base + from` to
/// `base + to` at velocity 80, pitch by pitch.
pub open spec fn chord_pairs(pitches: Seq<u8>, base: int, from: int, to: int) -> Seq<MidiNote> {
    Seq::new(
        2 * pitches.len(),
        |t: int|
            MidiNote {
                pitch: pitches[t / 2],
                note_on: t % 2 == 0,
                start_time: (if t % 2 == 0 { (base + from) * 48 } else { (base + to) * 48 }) as u32,
                volume: 80,
            },
    )
}

/// The "melody" runs: each note starts at the running total and lasts as
/// long as the running total; the first total is at most 5 half beats; the
/// totals end at `to`.
pub open spec fn melody_tiles(run: Seq<MidiNote>, pitch: u8, base: int, to: int) -> bool
    decreases run.len(),
{
    if run.len() == 0 {
        to == 0
    } else if run.len() < 2 {
        false
    } else {
        exists|from: int|
            0 <= from < to && (from == 0 ==> to <= 5) && run.subrange(run.len() - 2, run.len() as int)
                == #[trigger] melody_step(pitch, base, from, to) && melody_tiles(
                run.subrange(0, run.len() - 2),
                pitch,
                base,
                from,
            )
    }
}

/// The note "melody" adds when the running total goes from `from` to `to`:
/// it starts at the new total and lasts as long.
pub open spec fn melody_step(pitch: u8, base: int, from: int, to: int) -> Seq<MidiNote> {
    note_pair(pitch, base + to, base + 2 * to, 80)
}

/// Steps in which all the pitches sound together, back to back, filling
/// half beats `base` to `base + to`.
pub open spec fn steps_tile(steps: Seq<Seq<MidiNote>>, pitches: Seq<u8>, base: int, to: int) -> bool
    decreases steps.len(),
{
    if steps.len() == 0 {
        to == 0
    } else {
        exists|from: int|
            0 <= from < to && steps.last() == #[trigger] chord_pairs(pitches, base, from, to) && steps_tile(
                steps.drop_last(),
                pitches,
                base,
                from,
            )
    }
}

/// The optional notes whose flag is set, each sounding for four beats from
/// `base` at velocity 80.
pub open spec fn optional_pairs(pitches: Seq<u8>, flags: Seq<bool>, base: int) -> Seq<MidiNote>
    decreases pitches.len(),
{
    if pitches.len() == 0 || flags.len() != pitches.len() {
        Seq::empty()
    } else {
        optional_pairs(pitches.drop_last(), flags.drop_last(), base) + (if flags.last() {
            note_pair(pitches.last(), base, base + 8, 80)
        } else {
            Seq::empty()
        })
    }
}

/// What "melody" adds: one run per mandatory note (see `melody_tiles`).
pub open spec fn melody_placed(old: Seq<MidiNote>, new: Seq<MidiNote>, c: ChordView, octave: int, key: int, base: int) -> bool {
    exists|runs: Seq<Seq<MidiNote>>|
        #![trigger flat(runs)]
        runs.len() == c.chord_type.note_intervals.len() && new == old + flat(runs) && forall|i: int|
            0 <= i < runs.len() ==> melody_tiles(#[trigger] runs[i], note_pitch(c, octave, key, i), base, 8)
}

/// What "melody v3" adds: one run per mandatory note filling the bar.
pub open spec fn v3_placed(old: Seq<MidiNote>, new: Seq<MidiNote>, c: ChordView, octave: int, key: int, base: int) -> bool {
    exists|runs: Seq<Seq<MidiNote>>|
        #![trigger flat(runs)]
        runs.len() == c.chord_type.note_intervals.len() && new == old + flat(runs) && forall|i: int|
            0 <= i < runs.len() ==> tiles(#[trigger] runs[i], note_pitch(c, octave, key, i), base, 8)
}

/// What "melody v2" adds: an octave (4 or 5 when the first note lies below
/// 6, else 3 or 4), a shift for each note (up an octave or none for the
/// first two, down an octave or none for the others), and one run per note
/// filling the bar. A chord without notes adds nothing.
pub open spec fn v2_placed(old: Seq<MidiNote>, new: Seq<MidiNote>, c: ChordView, key: int, base: int) -> bool {
    if c.chord_type.note_intervals.len() == 0 {
        new == old
    } else {
        exists|o: int, shifts: Seq<int>, runs: Seq<Seq<MidiNote>>|
            #![trigger flat(runs), v2_octave(c, o), shifts.len()]
            v2_octave(c, o) && shifts.len()
                == c.chord_type.note_intervals.len() && runs.len() == c.chord_type.note_intervals.len() && new
                == old + flat(runs) && forall|i: int| 0 <= i < runs.len() ==> #[trigger] v2_run(c, o, key, base, shifts, runs, i)
    }
}

/// Run `i` of "melody v2": its shift is up an octave or none for the first
/// two notes, down an octave or none for the others, and the run fills the
/// bar with the shifted pitch.
pub open spec fn v2_run(c: ChordView, o: int, key: int, base: int, shifts: Seq<int>, runs: Seq<Seq<MidiNote>>, i: int) -> bool {
    (if i < 2 {
        shifts[i] == 0 || shifts[i] == 12
    } else {
        shifts[i] == 0 || shifts[i] == -12
    }) && tiles(runs[i], moved_pitch(c, i, o, shifts[i], key), base, 8)
}

/// The octaves "melody v2" draws from: 4 or 5 when the first note lies
/// below 6, else 3 or 4.
pub open spec fn v2_octave(c: ChordView, o: int) -> bool {
    if c.note(0) < 6 {
        o == 4 || o == 5
    } else {
        o == 3 || o == 4
    }
}

/// What "intended" adds: steps in which all mandatory notes sound together,
/// filling the bar.
pub open spec fn intended_placed(old: Seq<MidiNote>, new: Seq<MidiNote>, c: ChordView, octave: int, key: int, base: int) -> bool {
    exists|steps: Seq<Seq<MidiNote>>|
        #![trigger flat(steps)]
        new == old + flat(steps) && steps_tile(steps, chord_pitches(c, octave, key), base, 8)
}

/// What "chords" adds: all mandatory notes for the whole bar, then the
/// optional notes whose draw came out above 69.
pub open spec fn regular_placed(old: Seq<MidiNote>, new: Seq<MidiNote>, c: ChordView, octave: int, key: int, base: int) -> bool {
    exists|flags: Seq<bool>|
        #![trigger optional_pairs(optional_pitches(c, octave, key), flags, base)]
        flags.len() == c.chord_type.optional_notes.len() && new == old + chord_pairs(chord_pitches(c, octave, key), base, 0, 8)
            + optional_pairs(optional_pitches(c, octave, key), flags, base)
}


/// What one placement adds, for a mode: the notes `added` that the mode's
/// algorithm puts for chord `c` in octave 4 at half beat `base`; nothing for
/// an unrecognized mode.
pub open spec fn placed_by(mode: GenerationMode, c: ChordView, key: int, base: int, added: Seq<MidiNote>) -> bool {
    let e = Seq::<MidiNote>::empty();
    match mode {
        GenerationMode::Melody => melody_placed(e, added, c, 4, key, base),
        GenerationMode::Chords => regular_placed(e, added, c, 4, key, base),
        GenerationMode::MelodyV2 => v2_placed(e, added, c, key, base),
        GenerationMode::MelodyV3 => v3_placed(e, added, c, 4, key, base),
        GenerationMode::Intended => intended_placed(e, added, c, 4, key, base),
        GenerationMode::Unrecognized => added.len() == 0,
    }
}


/// What making music adds: notes sorted from `old` plus one placement per
/// picked chord (chord `j` at half beat `8 * j`, see `placed_by`); there
/// are `n` of them when mode and method are recognized, none otherwise. Each
/// chord is one that picking by `method` can give from the universe (with
/// the sequence picked on the fly, a redrawn chord may also come from the
/// table), and a chord repeats one of the `window` chords before it only
/// when its redraws (`counts`) ran out.
pub open spec fn music_made(
    old: Seq<MidiNote>,
    new: Seq<MidiNote>,
    t: Seq<Seq<ChordView>>,
    l: Seq<ChordView>,
    key: int,
    mode: GenerationMode,
    method: PickingMethod,
    same: bool,
    n: int,
    window: int,
) -> bool {
    exists|picked: Seq<ChordView>, acc: Seq<Seq<MidiNote>>, counts: Seq<u32>|
        #![trigger flat(acc), picked.len(), counts.len()]
        new == sorted_notes(old + flat(acc)) && picked.len() == acc.len() && counts.len() == acc.len() && acc.len()
            == (if mode != GenerationMode::Unrecognized && method != PickingMethod::Unrecognized {
            n
        } else {
            0
        }) && (forall|j: int| 0 <= j < acc.len() ==> placed_by(mode, picked[j], key, 8 * j, #[trigger] acc[j])) && (
        forall|j: int|
            0 <= j < acc.len() ==> pickable(t, l, method, #[trigger] picked[j]) || (!same && pickable(
                t,
                l,
                PickingMethod::Original,
                picked[j],
            ))) && (forall|i: int, j: int|
            0 <= j < i < acc.len() && i - j <= window && (#[trigger] picked[j]).same_chord(#[trigger] picked[i])
                ==> counts[i] == RETRY_BUDGET + 1)
}

proof fn lemma_tiles_step(run: Seq<MidiNote>, pitch: u8, base: int, from: int, to: int, volume: u8)
    requires
        tiles(run, pitch, base, from),
        0 <= from < to,
        70 <= volume <= 90,
    ensures
        tiles(run + pair_at(pitch, base, from, to, volume), pitch, base, to),
{
    let r2 = run + pair_at(pitch, base, from, to, volume);
    assert(r2.subrange(r2.len() - 2, r2.len() as int) =~= pair_at(pitch, base, from, to, volume));
    assert(r2.subrange(0, r2.len() - 2) =~= run);
}

proof fn lemma_flat_push(runs: Seq<Seq<MidiNote>>, run: Seq<MidiNote>)
    ensures
        flat(runs.push(run)) == flat(runs) + run,
{
    assert(runs.push(run).drop_last() =~= runs);
}

impl Music {
    /// A chord of the table is well formed.
    proof fn lemma_table_chord_wf(&self, c: ChordView)
        requires
            self.wf(),
            table_chords(table_views(self.chord_table@)).contains(c),
        ensures
            key_ok(c.key as int),
    {
        let q = choose|q: int| 0 <= q < 12 && #[trigger] table_views(self.chord_table@)[q].contains(c);
        assert(chord_views(self.chord_list@).contains(c));
        let j = choose|j: int| 0 <= j < chord_views(self.chord_list@).len() && chord_views(self.chord_list@)[j] == c;
    }

    /// "melody": every mandatory note is played in a run of lengths drawn
    /// until four beats are filled; each note starts at the running total
    /// and lasts as long as the running total. The
    /// first length of a note is drawn with the bound 4, later ones with
    /// `get_max_note_length_index`.
    pub fn original_placement_algorithm(&mut self, chord: &Chord, octave: i16, initial_time: u32)
        requires
            chord.wf(),
            key_ok(old(self).key as int),
            -2730 <= octave <= 2730,
            initial_time <= 4 * MAX_NUM_CHORDS,
        ensures
            same_universe(final(self), old(self)),
            melody_placed(
                old(self).midi_file.notes@,
                final(self).midi_file.notes@,
                chord@,
                octave as int,
                old(self).key as int,
                2 * initial_time,
            ),
    {
        let ghost start_notes = self.midi_file.notes@;
        let ghost key0 = self.key as int;
        let notes = chord.get_notes();
        let base: u32 = 2 * initial_time;
        let ghost mut runs: Seq<Seq<MidiNote>> = Seq::empty();
        let mut n: usize = 0;
        while n < notes.len()
            invariant
                n <= notes@.len(),
                chord.wf(),
                notes@.len() == chord@.chord_type.note_intervals.len(),
                forall|j: int| 0 <= j < notes@.len() ==> notes@[j] as int == #[trigger] chord@.note(j),
                same_universe(self, old(self)),
                key0 == self.key as int,
                key_ok(self.key as int),
                -2730 <= octave <= 2730,
                base == 2 * initial_time,
                initial_time <= 4 * MAX_NUM_CHORDS,
                start_notes == old(self).midi_file.notes@,
                runs.len() == n,
                self.midi_file.notes@ == start_notes + flat(runs),
                forall|i: int| 0 <= i < runs.len() ==> melody_tiles(#[trigger] runs[i], note_pitch(chord@, octave as int, key0, i), base as int, 8),
            decreases notes@.len() - n,
        {
            assert(notes@[n as int] as int == chord@.note(n as int));
            let pitch = low_byte_of(notes[n] as i32 + 12 * octave as i32 + self.key as i32);
            assert(pitch == note_pitch(chord@, octave as int, key0, n as int));
            let ghost mut run: Seq<MidiNote> = Seq::empty();
            let mut total: u16 = 0;
            while total < 8
                invariant
                    total <= 8,
                    same_universe(self, old(self)),
                    base == 2 * initial_time,
                    initial_time <= 4 * MAX_NUM_CHORDS,
                    self.midi_file.notes@ == start_notes + flat(runs) + run,
                    melody_tiles(run, pitch, base as int, total as int),
                decreases 8 - total,
            {
                let max_index: u16 = if total == 0 {
                    4
                } else {
                    crate::notes::get_max_note_length_index(total)
                };
                let chosen = self.math_magician.big_decision(0, max_index);
                let ghost from = total as int;
                total = total + chosen + 1;
                self.midi_file.add_note_half_beats(pitch, base + total as u32, total as u32, 80);
                proof {
                    let r2 = run + note_pair(pitch, base + total, base + 2 * total, 80);
                    assert(r2.subrange(r2.len() - 2, r2.len() as int) =~= note_pair(pitch, base + total, base + 2 * total, 80));
                    assert(r2.subrange(0, r2.len() - 2) =~= run);
                    assert(melody_tiles(r2.subrange(0, r2.len() - 2), pitch, base as int, from));
                    assert(0 <= from < total && (from == 0 ==> total <= 5));
                    let b = base as int;
                    let t = total as int;
                    assert(r2.len() >= 2);
                    assert(r2.subrange(r2.len() - 2, r2.len() as int) == melody_step(pitch, b, from, t));
                    assert(melody_tiles(r2.subrange(0, r2.len() - 2), pitch, b, from));
                    assert(melody_tiles(r2, pitch, b, t));
                    run = r2;
                    assert(self.midi_file.notes@ =~= start_notes + flat(runs) + run);
                }
            }
            proof {
                lemma_flat_push(runs, run);
                assert(start_notes + flat(runs) + run =~= start_notes + (flat(runs) + run));
                let old_runs = runs;
                runs = runs.push(run);
                assert forall|i: int| 0 <= i < runs.len() implies melody_tiles(#[trigger] runs[i], note_pitch(chord@, octave as int, key0, i), base as int, 8) by {
                    if i < old_runs.len() {
                        assert(runs[i] == old_runs[i]);
                    }
                }
            }
            n = n + 1;
        }
        assert(self.midi_file.notes@ == old(self).midi_file.notes@ + flat(runs));
    }

    /// "intended": one length is drawn per step, always with the bound of
    /// `get_max_note_length_index`, and all mandatory notes of the chord
    /// sound together for it, until four beats are filled.
    pub fn place_variable_len_fixed(&mut self, chord: &Chord, octave: i16, initial_time: u32)
        requires
            chord.wf(),
            key_ok(old(self).key as int),
            -2730 <= octave <= 2730,
            initial_time <= 4 * MAX_NUM_CHORDS,
        ensures
            same_universe(final(self), old(self)),
            intended_placed(
                old(self).midi_file.notes@,
                final(self).midi_file.notes@,
                chord@,
                octave as int,
                old(self).key as int,
                2 * initial_time,
            ),
    {
        let ghost start_notes = self.midi_file.notes@;
        let ghost key0 = self.key as int;
        let ghost pitches = chord_pitches(chord@, octave as int, key0);
        let notes = chord.get_notes();
        let base: u32 = 2 * initial_time;
        let ghost mut steps: Seq<Seq<MidiNote>> = Seq::empty();
        let mut total: u16 = 0;
        while total < 8
            invariant
                total <= 8,
                chord.wf(),
                notes@.len() == chord@.chord_type.note_intervals.len(),
                forall|j: int| 0 <= j < notes@.len() ==> notes@[j] as int == #[trigger] chord@.note(j),
                same_universe(self, old(self)),
                key0 == self.key as int,
                key_ok(self.key as int),
                -2730 <= octave <= 2730,
                base == 2 * initial_time,
                initial_time <= 4 * MAX_NUM_CHORDS,
                start_notes == old(self).midi_file.notes@,
                pitches == chord_pitches(chord@, octave as int, key0),
                self.midi_file.notes@ == start_notes + flat(steps),
                steps_tile(steps, pitches, base as int, total as int),
            decreases 8 - total,
        {
            let max_index = crate::notes::get_max_note_length_index(total);
            let chosen = self.math_magician.big_decision(0, max_index);
            let length: u16 = chosen + 1;
            let ghost target = chord_pairs(pitches, base as int, total as int, total + length);
            let ghost mut step: Seq<MidiNote> = Seq::empty();
            let mut n: usize = 0;
            while n < notes.len()
                invariant
                    n <= notes@.len(),
                    total < 8,
                    total + length <= 8,
                    length >= 1,
                    chord.wf(),
                    notes@.len() == chord@.chord_type.note_intervals.len(),
                    forall|j: int| 0 <= j < notes@.len() ==> notes@[j] as int == #[trigger] chord@.note(j),
                    same_universe(self, old(self)),
                    key0 == self.key as int,
                    key_ok(self.key as int),
                    -2730 <= octave <= 2730,
                    base == 2 * initial_time,
                    initial_time <= 4 * MAX_NUM_CHORDS,
                    pitches == chord_pitches(chord@, octave as int, key0),
                    target == chord_pairs(pitches, base as int, total as int, total + length),
                    step == target.subrange(0, 2 * n),
                    self.midi_file.notes@ == start_notes + flat(steps) + step,
                decreases notes@.len() - n,
            {
                assert(notes@[n as int] as int == chord@.note(n as int));
                let pitch = low_byte_of(notes[n] as i32 + 12 * octave as i32 + self.key as i32);
                assert(pitch == pitches[n as int]);
                self.midi_file.add_note_half_beats(pitch, base + total as u32, length as u32, 80);
                proof {
                    assert((2 * n) / 2 == n && (2 * n + 1) / 2 == n);
                    let s2 = step + note_pair(pitch, base + total, base + total + length, 80);
                    assert(s2 =~= target.subrange(0, 2 * n + 2));
                    step = s2;
                    assert(self.midi_file.notes@ =~= start_notes + flat(steps) + step);
                }
                n = n + 1;
            }
            proof {
                assert(step =~= target);
                lemma_flat_push(steps, step);
                assert(start_notes + flat(steps) + step =~= start_notes + (flat(steps) + step));
                let old_steps = steps;
                steps = steps.push(step);
                assert(steps.drop_last() =~= old_steps);
                assert(steps_tile(steps, pitches, base as int, total + length));
            }
            total = total + length;
        }
    }

    /// "chords": all mandatory notes sound together for four beats at
    /// velocity 80; each optional note joins them when its draw from 0 to
    /// 100 is above 69.
    pub fn place_chord_regular(&mut self, chord: &Chord, octave: i16, initial_time: u32)
        requires
            chord.wf(),
            key_ok(old(self).key as int),
            -2730 <= octave <= 2730,
            initial_time <= 4 * MAX_NUM_CHORDS,
        ensures
            same_universe(final(self), old(self)),
            regular_placed(
                old(self).midi_file.notes@,
                final(self).midi_file.notes@,
                chord@,
                octave as int,
                old(self).key as int,
                2 * initial_time,
            ),
    {
        let ghost start_notes = self.midi_file.notes@;
        let ghost key0 = self.key as int;
        let ghost pitches = chord_pitches(chord@, octave as int, key0);
        let ghost opitches = optional_pitches(chord@, octave as int, key0);
        let notes = chord.get_notes();
        let base: u32 = 2 * initial_time;
        let ghost target = chord_pairs(pitches, base as int, 0, 8);
        let mut n: usize = 0;
        while n < notes.len()
            invariant
                n <= notes@.len(),
                notes@.len() == chord@.chord_type.note_intervals.len(),
                forall|j: int| 0 <= j < notes@.len() ==> notes@[j] as int == #[trigger] chord@.note(j),
                chord.wf(),
                same_universe(self, old(self)),
                key0 == self.key as int,
                key_ok(self.key as int),
                -2730 <= octave <= 2730,
                base == 2 * initial_time,
                initial_time <= 4 * MAX_NUM_CHORDS,
                pitches == chord_pitches(chord@, octave as int, key0),
                target == chord_pairs(pitches, base as int, 0, 8),
                self.midi_file.notes@ == start_notes + target.subrange(0, 2 * n),
            decreases notes@.len() - n,
        {
            assert(notes@[n as int] as int == chord@.note(n as int));
            let pitch = low_byte_of(notes[n] as i32 + 12 * octave as i32 + self.key as i32);
            assert(pitch == pitches[n as int]);
            self.midi_file.add_note_half_beats(pitch, base, 8, 80);
            proof {
                assert((2 * n) / 2 == n && (2 * n + 1) / 2 == n);
                assert(self.midi_file.notes@ =~= start_notes + target.subrange(0, 2 * n + 2));
            }
            n = n + 1;
        }
        assert(target.subrange(0, 2 * notes@.len() as int) =~= target);
        let optional = chord.get_optional_notes();
        let ghost mut flags: Seq<bool> = Seq::empty();
        let mut n: usize = 0;
        while n < optional.len()
            invariant
                n <= optional@.len(),
                optional@.len() == chord@.chord_type.optional_notes.len(),
                forall|j: int| 0 <= j < optional@.len() ==> optional@[j] as int == chord@.chord_type.optional_notes[j] + chord@.root,
                same_universe(self, old(self)),
                key0 == self.key as int,
                key_ok(self.key as int),
                -2730 <= octave <= 2730,
                base == 2 * initial_time,
                initial_time <= 4 * MAX_NUM_CHORDS,
                opitches == optional_pitches(chord@, octave as int, key0),
                flags.len() == n,
                self.midi_file.notes@ == start_notes + target + optional_pairs(opitches.subrange(0, n as int), flags, base as int),
            decreases optional@.len() - n,
        {
            let ghost before = self.midi_file.notes@;
            let joins = self.math_magician.big_decision(0, 100) > 69;
            proof {
                let ps = opitches.subrange(0, n + 1);
                let fs = flags.push(joins);
                assert(ps.drop_last() =~= opitches.subrange(0, n as int));
                assert(fs.drop_last() =~= flags);
            }
            if joins {
                assert(optional@[n as int] as int == chord@.chord_type.optional_notes[n as int] + chord@.root);
                let pitch = low_byte_of(optional[n] as i32 + 12 * octave as i32 + self.key as i32);
                assert(pitch == opitches[n as int]);
                self.midi_file.add_note_half_beats(pitch, base, 8, 80);
                assert(self.midi_file.notes@ =~= before + note_pair(pitch, base as int, base + 8, 80));
            }
            proof {
                let ps = opitches.subrange(0, n + 1);
                let fs = flags.push(joins);
                assert(self.midi_file.notes@ =~= start_notes + target + optional_pairs(ps, fs, base as int));
                flags = fs;
            }
            n = n + 1;
        }
        assert(opitches.subrange(0, optional@.len() as int) =~= opitches);
        assert(self.midi_file.notes@ == old(self).midi_file.notes@ + chord_pairs(chord_pitches(chord@, octave as int, old(self).key as int), 2 * initial_time, 0, 8)
            + optional_pairs(optional_pitches(chord@, octave as int, old(self).key as int), flags, 2 * initial_time));
    }

    /// "melody v2": the octave is drawn for the
    /// chord, 4 or 5 when its first note lies below 6, else 3 or 4; each of
    /// the first two notes may go up an octave, each later note down one;
    /// then every note is played in a run of drawn lengths filling four
    /// beats, each with a drawn velocity from 70 to 90. A chord without
    /// notes places nothing.
    pub fn place_chord_bug_v2(&mut self, chord: &Chord, _octave: i16, initial_time: u32)
        requires
            chord.wf(),
            key_ok(old(self).key as int),
            initial_time <= 4 * MAX_NUM_CHORDS,
        ensures
            same_universe(final(self), old(self)),
            v2_placed(old(self).midi_file.notes@, final(self).midi_file.notes@, chord@, old(self).key as int, 2 * initial_time),
    {
        let ghost start_notes = self.midi_file.notes@;
        let ghost key0 = self.key as int;
        let notes = chord.get_notes();
        let base: u32 = 2 * initial_time;
        if notes.len() == 0 {
            return ;
        }
        assert(notes@[0] as int == chord@.note(0));
        let octave: i16 = if notes[0] < 6 {
            self.math_magician.pick_note() % 2 + 4
        } else {
            self.math_magician.pick_note() % 2 + 3
        };
        assert(v2_octave(chord@, octave as int));
        let ghost mut runs: Seq<Seq<MidiNote>> = Seq::empty();
        let ghost mut shifts: Seq<int> = Seq::empty();
        let mut n: usize = 0;
        while n < notes.len()
            invariant
                n <= notes@.len(),
                notes@.len() == chord@.chord_type.note_intervals.len(),
                forall|j: int| 0 <= j < notes@.len() ==> notes@[j] as int == #[trigger] chord@.note(j),
                chord.wf(),
                3 <= octave <= 5,
                same_universe(self, old(self)),
                key0 == self.key as int,
                key_ok(self.key as int),
                base == 2 * initial_time,
                initial_time <= 4 * MAX_NUM_CHORDS,
                start_notes == old(self).midi_file.notes@,
                runs.len() == n,
                shifts.len() == n,
                self.midi_file.notes@ == start_notes + flat(runs),
                forall|i: int| 0 <= i < runs.len() ==> #[trigger] v2_run(chord@, octave as int, key0, base as int, shifts, runs, i),
            decreases notes@.len() - n,
        {
            let shift: i32 = if n < 2 && self.math_magician.pick_note() < 2 {
                12
            } else if n >= 2 && self.math_magician.pick_note() < 2 {
                -12
            } else {
                0
            };
            assert(notes@[n as int] as int == chord@.note(n as int));
            let pitch = low_byte_of(12 * octave as i32 + shift + notes[n] as i32 + self.key as i32);
            assert(pitch == moved_pitch(chord@, n as int, octave as int, shift as int, key0));
            let ghost mut run: Seq<MidiNote> = Seq::empty();
            let mut total: u16 = 0;
            while total < 8
                invariant
                    total <= 8,
                    same_universe(self, old(self)),
                    base == 2 * initial_time,
                    initial_time <= 4 * MAX_NUM_CHORDS,
                    self.midi_file.notes@ == start_notes + flat(runs) + run,
                    tiles(run, pitch, base as int, total as int),
                    pitch == moved_pitch(chord@, n as int, octave as int, shift as int, key0),
                    runs.len() == n,
                    shifts.len() == n,
                    forall|i: int| 0 <= i < runs.len() ==> #[trigger] v2_run(chord@, octave as int, key0, base as int, shifts, runs, i),
                decreases 8 - total,
            {
                let max_index = crate::notes::get_max_note_length_index(total);
                let chosen = self.math_magician.big_decision(0, max_index);
                let duration: u16 = chosen + 1;
                let velocity = self.math_magician.big_decision(70, 90) as u8;
                self.midi_file.add_note_half_beats(pitch, base + total as u32, duration as u32, velocity);
                proof {
                    lemma_tiles_step(run, pitch, base as int, total as int, total + duration, velocity);
                    run = run + pair_at(pitch, base as int, total as int, total + duration, velocity);
                    assert(self.midi_file.notes@ =~= start_notes + flat(runs) + run);
                }
                total = total + duration;
            }
            proof {
                assert(if n < 2 { shift == 0 || shift == 12 } else { shift == 0 || shift == -12 });
                lemma_flat_push(runs, run);
                assert(start_notes + flat(runs) + run =~= start_notes + (flat(runs) + run));
                let old_runs = runs;
                let old_shifts = shifts;
                runs = runs.push(run);
                shifts = shifts.push(shift as int);
                assert(total == 8);
                assert(tiles(run, moved_pitch(chord@, n as int, octave as int, shift as int, key0), base as int, 8));
                assert forall|i: int| 0 <= i < runs.len() implies #[trigger] v2_run(chord@, octave as int, key0, base as int, shifts, runs, i) by {
                    if i < old_runs.len() {
                        assert(runs[i] == old_runs[i]);
                        assert(shifts[i] == old_shifts[i]);
                        assert(v2_run(chord@, octave as int, key0, base as int, old_shifts, old_runs, i));
                    } else {
                        assert(i == n);
                        assert(runs[i] == run);
                        assert(shifts[i] == shift as int);
                    }
                }
            }
            n = n + 1;
        }
        assert(v2_octave(chord@, octave as int));
        assert(self.midi_file.notes@ == old(self).midi_file.notes@ + flat(runs));
        assert(shifts.len() == chord@.chord_type.note_intervals.len());
        assert(v2_placed(old(self).midi_file.notes@, self.midi_file.notes@, chord@, key0, 2 * initial_time));
    }

    /// "melody v3": like "melody v2" without the
    /// octave choice: each note, moved by the key and the given octave, is
    /// played in a run of drawn lengths filling four beats, each with a
    /// drawn velocity from 70 to 90.
    pub fn place_chord_bug_v3(&mut self, chord: &Chord, octave: i16, initial_time: u32)
        requires
            chord.wf(),
            key_ok(old(self).key as int),
            -2730 <= octave <= 2730,
            initial_time <= 4 * MAX_NUM_CHORDS,
        ensures
            same_universe(final(self), old(self)),
            v3_placed(
                old(self).midi_file.notes@,
                final(self).midi_file.notes@,
                chord@,
                octave as int,
                old(self).key as int,
                2 * initial_time,
            ),
    {
        let ghost start_notes = self.midi_file.notes@;
        let ghost key0 = self.key as int;
        let notes = chord.get_notes();
        let base: u32 = 2 * initial_time;
        let ghost mut runs: Seq<Seq<MidiNote>> = Seq::empty();
        let mut n: usize = 0;
        while n < notes.len()
            invariant
                n <= notes@.len(),
                chord.wf(),
                notes@.len() == chord@.chord_type.note_intervals.len(),
                forall|j: int| 0 <= j < notes@.len() ==> notes@[j] as int == #[trigger] chord@.note(j),
                same_universe(self, old(self)),
                key0 == self.key as int,
                key_ok(self.key as int),
                -2730 <= octave <= 2730,
                base == 2 * initial_time,
                initial_time <= 4 * MAX_NUM_CHORDS,
                start_notes == old(self).midi_file.notes@,
                runs.len() == n,
                self.midi_file.notes@ == start_notes + flat(runs),
                forall|i: int| 0 <= i < runs.len() ==> tiles(#[trigger] runs[i], note_pitch(chord@, octave as int, key0, i), base as int, 8),
            decreases notes@.len() - n,
        {
            assert(notes@[n as int] as int == chord@.note(n as int));
            let pitch = low_byte_of(notes[n] as i32 + self.key as i32 + 12 * octave as i32);
            assert(pitch == note_pitch(chord@, octave as int, key0, n as int));
            let ghost mut run: Seq<MidiNote> = Seq::empty();
            let mut total: u16 = 0;
            while total < 8
                invariant
                    total <= 8,
                    same_universe(self, old(self)),
                    base == 2 * initial_time,
                    initial_time <= 4 * MAX_NUM_CHORDS,
                    self.midi_file.notes@ == start_notes + flat(runs) + run,
                    tiles(run, pitch, base as int, total as int),
                decreases 8 - total,
            {
                let max_index = crate::notes::get_max_note_length_index(total);
                let chosen = self.math_magician.big_decision(0, max_index);
                let duration: u16 = chosen + 1;
                let velocity = self.math_magician.big_decision(70, 90) as u8;
                self.midi_file.add_note_half_beats(pitch, base + total as u32, duration as u32, velocity);
                proof {
                    lemma_tiles_step(run, pitch, base as int, total as int, total + duration, velocity);
                    run = run + pair_at(pitch, base as int, total as int, total + duration, velocity);
                    assert(self.midi_file.notes@ =~= start_notes + flat(runs) + run);
                }
                total = total + duration;
            }
            proof {
                lemma_flat_push(runs, run);
                assert(start_notes + flat(runs) + run =~= start_notes + (flat(runs) + run));
                let old_runs = runs;
                runs = runs.push(run);
                assert forall|i: int| 0 <= i < runs.len() implies tiles(#[trigger] runs[i], note_pitch(chord@, octave as int, key0, i), base as int, 8) by {
                    if i < old_runs.len() {
                        assert(runs[i] == old_runs[i]);
                    }
                }
            }
            n = n + 1;
        }
        assert(self.midi_file.notes@ == old(self).midi_file.notes@ + flat(runs));
    }
}

impl Music {
    /// Picks `num_chords` chords by `method`, keeping every run of
    /// `window_size + 1` chords free of repeats (see
    /// `enforce_unique_chord`); returns the chords and, for each, the
    /// number of redraws it took. An unrecognized method picks nothing and
    /// gives degenerate chords.
    pub fn pick_chords(&mut self, num_chords: usize, method: PickingMethod, window_size: usize) -> (r: (Vec<Chord>, Vec<u32>))
        requires
            old(self).wf(),
        ensures
            final(self).wf(),
            same_universe(final(self), old(self)),
            final(self).midi_file == old(self).midi_file,
            r.0@.len() == num_chords,
            r.1@.len() == num_chords,
            forall|i: int| 0 <= i < num_chords ==> (#[trigger] r.0@[i]).wf(),
            method == PickingMethod::Unrecognized ==> forall|i: int| 0 <= i < num_chords ==> (#[trigger] r.0@[i])@ == default_chord_view(),
            method != PickingMethod::Unrecognized ==> forall|i: int, j: int|
                0 <= j < i < num_chords && i - j <= window_size && (#[trigger] r.0@[j])@.same_chord((#[trigger] r.0@[i])@)
                    ==> r.1@[i] == RETRY_BUDGET + 1,
            forall|i: int| 0 <= i < num_chords ==> pickable(
                table_views(old(self).chord_table@),
                chord_views(old(self).chord_list@),
                method,
                (#[trigger] r.0@[i])@,
            ),
    {
        let ghost t = table_views(self.chord_table@);
        let ghost l = chord_views(self.chord_list@);
        let mut chords: Vec<Chord> = Vec::new();
        let mut redraws: Vec<u32> = Vec::new();
        if method == PickingMethod::Unrecognized {
            let mut i: usize = 0;
            while i < num_chords
                invariant
                    i <= num_chords,
                    chords@.len() == i,
                    redraws@.len() == i,
                    forall|t: int| 0 <= t < i ==> (#[trigger] chords@[t])@ == default_chord_view(),
                decreases num_chords - i,
            {
                chords.push(Chord::default());
                redraws.push(0);
                i = i + 1;
            }
            return (chords, redraws);
        }
        let mut window: VecDeque<Chord> = VecDeque::new();
        let mut i: usize = 0;
        while i < num_chords
            invariant
                method != PickingMethod::Unrecognized,
                self.wf(),
                same_universe(self, old(self)),
                self.midi_file == old(self).midi_file,
                i <= num_chords,
                chords@.len() == i,
                redraws@.len() == i,
                forall|t: int| 0 <= t < i ==> (#[trigger] chords@[t]).wf(),
                window@.len() <= window_size,
                window_size > 0 ==> chord_views(window@) == chord_views(chords@).subrange(
                    if i >= window_size { i - window_size } else { 0 },
                    i as int,
                ),
                forall|a: int, b: int|
                    0 <= b < a < i && a - b <= window_size && (#[trigger] chords@[b])@.same_chord((#[trigger] chords@[a])@)
                        ==> redraws@[a] == RETRY_BUDGET + 1,
                t == table_views(self.chord_table@),
                l == chord_views(self.chord_list@),
                forall|a: int| 0 <= a < i ==> pickable(t, l, method, (#[trigger] chords@[a])@),
            decreases num_chords - i,
        {
            let first = self.pick_by(method);
            let ghost fv = first@;
            let ghost wv = chord_views(window@);
            let (chord, count) = self.enforce_unique_chord(method, &mut window, window_size, first);
            let ghost cv = chord_views(chords@);
            proof {
                if window_size > 0 {
                    let lo: int = if i >= window_size { i - window_size } else { 0 };
                    let lo2: int = if i + 1 >= window_size { i + 1 - window_size } else { 0 };
                    let after = cv.push(chord@).subrange(lo2, i + 1);
                    if wv.len() >= window_size {
                        assert(chord_views(window@) =~= after);
                    } else {
                        assert(chord_views(window@) =~= after);
                    }
                    assert forall|b: int| 0 <= b < i && i - b <= window_size && cv[b].same_chord(chord@) implies count == RETRY_BUDGET + 1 by {
                        assert(wv[b - lo] == cv[b]);
                        assert(window_holds(wv, chord@));
                    }
                }
            }
            let ghost cchord = chord@;
            let ghost chords_before = chords@;
            chords.push(chord);
            redraws.push(count);
            proof {
                assert(pickable(t, l, method, cchord));
                assert forall|a: int| 0 <= a < i + 1 implies pickable(t, l, method, (#[trigger] chords@[a])@) by {
                    if a < i {
                        assert(chords@[a] == chords_before[a]);
                    }
                }
                assert forall|a: int, b: int|
                    0 <= b < a < i + 1 && a - b <= window_size && (#[trigger] chords@[b])@.same_chord((#[trigger] chords@[a])@)
                        implies redraws@[a] == RETRY_BUDGET + 1 by {
                    if a == i {
                        assert(chords@[b]@ == cv[b]);
                    }
                }
            }
            i = i + 1;
        }
        (chords, redraws)
    }

    /// Places one chord with the algorithm of the mode, in octave 4, at
    /// beat `initial_time`; an unrecognized mode places nothing.
    pub fn place(&mut self, mode: GenerationMode, chord: &Chord, initial_time: u32)
        requires
            chord.wf(),
            key_ok(old(self).key as int),
            initial_time <= 4 * MAX_NUM_CHORDS,
        ensures
            same_universe(final(self), old(self)),
            ({
                let (o, n, c, k, b) = (old(self).midi_file.notes@, final(self).midi_file.notes@, chord@, old(self).key as int, 2 * initial_time);
                match mode {
                    GenerationMode::Melody => melody_placed(o, n, c, 4, k, b),
                    GenerationMode::Chords => regular_placed(o, n, c, 4, k, b),
                    GenerationMode::MelodyV2 => v2_placed(o, n, c, k, b),
                    GenerationMode::MelodyV3 => v3_placed(o, n, c, 4, k, b),
                    GenerationMode::Intended => intended_placed(o, n, c, 4, k, b),
                    GenerationMode::Unrecognized => n == o,
                }
            }),
            final(self).midi_file.notes@.len() >= old(self).midi_file.notes@.len(),
            final(self).midi_file.notes@.subrange(0, old(self).midi_file.notes@.len() as int) == old(self).midi_file.notes@,
            placed_by(
                mode,
                chord@,
                old(self).key as int,
                2 * initial_time,
                final(self).midi_file.notes@.subrange(
                    old(self).midi_file.notes@.len() as int,
                    final(self).midi_file.notes@.len() as int,
                ),
            ),
    {
        let ghost o = self.midi_file.notes@;
        let ghost e = Seq::<MidiNote>::empty();
        match mode {
            GenerationMode::Melody => self.original_placement_algorithm(chord, 4, initial_time),
            GenerationMode::Chords => self.place_chord_regular(chord, 4, initial_time),
            GenerationMode::MelodyV2 => self.place_chord_bug_v2(chord, 4, initial_time),
            GenerationMode::MelodyV3 => self.place_chord_bug_v3(chord, 4, initial_time),
            GenerationMode::Intended => self.place_variable_len_fixed(chord, 4, initial_time),
            GenerationMode::Unrecognized => {},
        }
        proof {
            let n = self.midi_file.notes@;
            let k = old(self).key as int;
            let b = 2 * initial_time as int;
            let c = chord@;
            let added = n.subrange(o.len() as int, n.len() as int);
            match mode {
                GenerationMode::Melody => {
                    let runs = choose|runs: Seq<Seq<MidiNote>>| #![trigger flat(runs)] runs.len() == c.chord_type.note_intervals.len() && n == o + flat(runs)
                        && forall|i: int| 0 <= i < runs.len() ==> melody_tiles(#[trigger] runs[i], note_pitch(c, 4, k, i), b, 8);
                    assert(added =~= flat(runs));
                    assert(n.subrange(0, o.len() as int) =~= o);
                    assert(e + flat(runs) =~= added);
                },
                GenerationMode::Chords => {
                    let flags = choose|flags: Seq<bool>| #![trigger optional_pairs(optional_pitches(c, 4, k), flags, b)]
                        flags.len() == c.chord_type.optional_notes.len() && n == o + chord_pairs(chord_pitches(c, 4, k), b, 0, 8)
                        + optional_pairs(optional_pitches(c, 4, k), flags, b);
                    let x = chord_pairs(chord_pitches(c, 4, k), b, 0, 8) + optional_pairs(optional_pitches(c, 4, k), flags, b);
                    assert(n =~= o + x);
                    assert(added =~= x);
                    assert(n.subrange(0, o.len() as int) =~= o);
                    assert(e + chord_pairs(chord_pitches(c, 4, k), b, 0, 8) + optional_pairs(optional_pitches(c, 4, k), flags, b) =~= added);
                },
                GenerationMode::MelodyV2 => {
                    if c.chord_type.note_intervals.len() == 0 {
                        assert(added =~= e);
                        assert(n.subrange(0, o.len() as int) =~= o);
                    } else {
                        let (oc, shifts, runs) = choose|oc: int, shifts: Seq<int>, runs: Seq<Seq<MidiNote>>|
                            #![trigger flat(runs), v2_octave(c, oc), shifts.len()]
                            v2_octave(c, oc) && shifts.len() == c.chord_type.note_intervals.len() && runs.len()
                                == c.chord_type.note_intervals.len() && n == o + flat(runs) && forall|i: int|
                                0 <= i < runs.len() ==> #[trigger] v2_run(c, oc, k, b, shifts, runs, i);
                        assert(added =~= flat(runs));
                        assert(n.subrange(0, o.len() as int) =~= o);
                        assert(e + flat(runs) =~= added);
                    }
                },
                GenerationMode::MelodyV3 => {
                    let runs = choose|runs: Seq<Seq<MidiNote>>| #![trigger flat(runs)] runs.len() == c.chord_type.note_intervals.len() && n == o + flat(runs)
                        && forall|i: int| 0 <= i < runs.len() ==> tiles(#[trigger] runs[i], note_pitch(c, 4, k, i), b, 8);
                    assert(added =~= flat(runs));
                    assert(n.subrange(0, o.len() as int) =~= o);
                    assert(e + flat(runs) =~= added);
                },
                GenerationMode::Intended => {
                    let steps = choose|steps: Seq<Seq<MidiNote>>| #![trigger flat(steps)] n == o + flat(steps) && steps_tile(steps, chord_pitches(c, 4, k), b, 8);
                    assert(added =~= flat(steps));
                    assert(n.subrange(0, o.len() as int) =~= o);
                    assert(e + flat(steps) =~= added);
                },
                GenerationMode::Unrecognized => {
                    assert(added =~= e);
                    assert(n.subrange(0, o.len() as int) =~= o);
                },
            }
        }
    }

    /// Makes the music: `num_chords` chords, one every four beats, placed by
    /// the algorithm of `generation_mode` and picked by
    /// `chord_picking_method` with the uniqueness window
    /// `minimum_number_of_unique_chords`. With `should_use_same_chords` the
    /// whole sequence is picked first and then placed, so that every mode
    /// places the same chords. An unrecognized mode or picking method
    /// places nothing. Returns the events of all accumulated notes (see
    /// `music_made`).
    pub fn make_music(
        &mut self,
        num_chords: usize,
        generation_mode: &str,
        should_use_same_chords: bool,
        chord_picking_method: &str,
        minimum_number_of_unique_chords: u32,
    ) -> (r: Vec<NoteEvent>)
        requires
            old(self).wf(),
            num_chords <= MAX_NUM_CHORDS,
        ensures
            final(self).wf(),
            same_universe(final(self), old(self)),
            r@ == events_of(final(self).midi_file.notes@),
            is_sorted(final(self).midi_file.notes@),
            mode_of(generation_mode@) == GenerationMode::Unrecognized || method_of(chord_picking_method@)
                == PickingMethod::Unrecognized ==> final(self).midi_file.notes@ == sorted_notes(old(self).midi_file.notes@),
            music_made(
                old(self).midi_file.notes@,
                final(self).midi_file.notes@,
                table_views(old(self).chord_table@),
                chord_views(old(self).chord_list@),
                old(self).key as int,
                mode_of(generation_mode@),
                method_of(chord_picking_method@),
                should_use_same_chords,
                num_chords as int,
                minimum_number_of_unique_chords as int,
            ),
    {
        let mode = GenerationMode::from_name(generation_mode);
        let method = PickingMethod::from_name(chord_picking_method);
        let window_size = minimum_number_of_unique_chords as usize;
        let ghost start_notes = self.midi_file.notes@;
        let ghost key0 = self.key as int;
        let ghost t = table_views(self.chord_table@);
        let ghost l = chord_views(self.chord_list@);
        let ghost mut picked: Seq<ChordView> = Seq::empty();
        let ghost mut acc: Seq<Seq<MidiNote>> = Seq::empty();
        let ghost mut counts: Seq<u32> = Seq::empty();
        if mode != GenerationMode::Unrecognized && method != PickingMethod::Unrecognized {
            if should_use_same_chords {
                let (chords, redraws) = self.pick_chords(num_chords, method, window_size);
                proof {
                    picked = Seq::new(num_chords as nat, |j: int| chords@[j]@);
                    counts = redraws@;
                }
                let mut i: usize = 0;
                while i < chords.len()
                    invariant
                        i <= chords@.len(),
                        chords@.len() == num_chords,
                        num_chords <= MAX_NUM_CHORDS,
                        forall|u: int| 0 <= u < chords@.len() ==> (#[trigger] chords@[u]).wf(),
                        self.wf(),
                        same_universe(self, old(self)),
                        key0 == self.key as int,
                        mode == mode_of(generation_mode@),
                        picked == Seq::new(num_chords as nat, |j: int| chords@[j]@),
                        acc.len() == i,
                        self.midi_file.notes@ == start_notes + flat(acc),
                        forall|j: int| 0 <= j < acc.len() ==> placed_by(mode, picked[j], key0, 8 * j, #[trigger] acc[j]),
                    decreases chords@.len() - i,
                {
                    let ghost before = self.midi_file.notes@;
                    self.place(mode, &chords[i], (i * 4) as u32);
                    proof {
                        let added = self.midi_file.notes@.subrange(before.len() as int, self.midi_file.notes@.len() as int);
                        assert(self.midi_file.notes@ =~= before + added);
                        lemma_flat_push(acc, added);
                        let old_acc = acc;
                        acc = acc.push(added);
                        assert(picked[i as int] == chords@[i as int]@);
                        assert(self.midi_file.notes@ =~= start_notes + flat(acc));
                        assert forall|j: int| 0 <= j < acc.len() implies placed_by(mode, picked[j], key0, 8 * j, #[trigger] acc[j]) by {
                            if j < old_acc.len() {
                                assert(acc[j] == old_acc[j]);
                            }
                        }
                    }
                    i = i + 1;
                }
                proof {
                    assert forall|j: int| 0 <= j < acc.len() implies pickable(t, l, method, #[trigger] picked[j]) by {
                        assert(picked[j] == chords@[j]@);
                    }
                    assert forall|a: int, b: int|
                        0 <= b < a < acc.len() && a - b <= window_size && (#[trigger] picked[b]).same_chord(#[trigger] picked[a])
                            implies counts[a] == RETRY_BUDGET + 1 by {
                        assert(picked[b] == chords@[b]@ && picked[a] == chords@[a]@);
                    }
                }
            } else {
                let mut window: VecDeque<Chord> = VecDeque::new();
                let mut i: usize = 0;
                while i < num_chords
                    invariant
                        i <= num_chords,
                        num_chords <= MAX_NUM_CHORDS,
                        self.wf(),
                        same_universe(self, old(self)),
                        window@.len() <= window_size,
                        key0 == self.key as int,
                        mode == mode_of(generation_mode@),
                        mode != GenerationMode::Unrecognized,
                        t == table_views(self.chord_table@),
                        l == chord_views(self.chord_list@),
                        picked.len() == i,
                        acc.len() == i,
                        counts.len() == i,
                        self.midi_file.notes@ == start_notes + flat(acc),
                        forall|j: int| 0 <= j < acc.len() ==> placed_by(mode, picked[j], key0, 8 * j, #[trigger] acc[j]),
                        forall|j: int| 0 <= j < i ==> pickable(t, l, method, #[trigger] picked[j]) || pickable(
                            t,
                            l,
                            PickingMethod::Original,
                            picked[j],
                        ),
                        window_size > 0 ==> chord_views(window@) == picked.subrange(
                            if i >= window_size { i - window_size } else { 0 },
                            i as int,
                        ),
                        forall|a: int, b: int|
                            0 <= b < a < i && a - b <= window_size && (#[trigger] picked[b]).same_chord(#[trigger] picked[a])
                                ==> counts[a] == RETRY_BUDGET + 1,
                    decreases num_chords - i,
                {
                    let first = self.pick_by(method);
                    let ghost fv = first@;
                    let ghost wv = chord_views(window@);
                    let (chord, count) = self.enforce_unique_chord(PickingMethod::Original, &mut window, window_size, first);
                    proof {
                        if window_size > 0 {
                            let lo: int = if i >= window_size { i - window_size } else { 0 };
                            let lo2: int = if i + 1 >= window_size { i + 1 - window_size } else { 0 };
                            let after = picked.push(chord@).subrange(lo2, i + 1);
                            assert(chord_views(window@) =~= after);
                            assert forall|b: int| 0 <= b < i && i - b <= window_size && picked[b].same_chord(chord@) implies count
                                == RETRY_BUDGET + 1 by {
                                assert(wv[b - lo] == picked[b]);
                                assert(window_holds(wv, chord@));
                            }
                        }
                    }
                    let ghost before = self.midi_file.notes@;
                    self.place(mode, &chord, (i * 4) as u32);
                    proof {
                        let added = self.midi_file.notes@.subrange(before.len() as int, self.midi_file.notes@.len() as int);
                        assert(self.midi_file.notes@ =~= before + added);
                        lemma_flat_push(acc, added);
                        let old_acc = acc;
                        let old_picked = picked;
                        let old_counts = counts;
                        acc = acc.push(added);
                        picked = picked.push(chord@);
                        counts = counts.push(count);
                        assert(self.midi_file.notes@ =~= start_notes + flat(acc));
                        assert(pickable(t, l, method, chord@) || pickable(t, l, PickingMethod::Original, chord@));
                        assert forall|j: int| 0 <= j < acc.len() implies placed_by(mode, picked[j], key0, 8 * j, #[trigger] acc[j]) by {
                            if j < old_acc.len() {
                                assert(acc[j] == old_acc[j] && picked[j] == old_picked[j]);
                            }
                        }
                        assert forall|j: int| 0 <= j < i + 1 implies pickable(t, l, method, #[trigger] picked[j]) || pickable(
                            t,
                            l,
                            PickingMethod::Original,
                            picked[j],
                        ) by {
                            if j < i {
                                assert(picked[j] == old_picked[j]);
                            }
                        }
                        assert forall|a: int, b: int|
                            0 <= b < a < i + 1 && a - b <= window_size && (#[trigger] picked[b]).same_chord(#[trigger] picked[a])
                                implies counts[a] == RETRY_BUDGET + 1 by {
                            if a < i {
                                assert(picked[a] == old_picked[a] && picked[b] == old_picked[b] && counts[a] == old_counts[a]);
                            } else {
                                assert(picked[b] == old_picked[b]);
                            }
                        }
                    }
                    i = i + 1;
                }
            }
        } else {
            assert(start_notes + flat(acc) =~= start_notes);
        }
        assert(self.midi_file.notes@ == start_notes + flat(acc));
        assert(method == method_of(chord_picking_method@));
        let r = self.midi_file.finalize();
        assert(self.midi_file.notes@ == sorted_notes(start_notes + flat(acc)));
        assert(picked.len() == acc.len() && counts.len() == acc.len());
        r
    }
}

impl Music {
    /// A session with every chord type used at all twelve roots (the
    /// `custom_pruning` group with the whole selection), pruned to the scale.
    pub fn smoke_hash_all_pruning_chords(key: &str, scale: &str) -> (r: Music)
        ensures
            r.wf(),
            r.table_key == 0,
            key@ != "random"@ ==> r.key as int == key_offset(key@),
            ({
                let built = chords_of_types(
                    group_catalog(ChordTypeGroup::CustomPruning, crate::chord_type::custom_keys()),
                );
                match scale_notes(scale_of(scale@)) {
                    None => chord_views(r.chord_list@) == built && table_views(r.chord_table@) == built_table(built),
                    Some(g) => chord_views(r.chord_list@) == set_pruned_list(built, g, 0) && table_views(r.chord_table@)
                        == set_pruned_table(built, g, 0),
                }
            }),
    {
        let selection = crate::chord_type::custom_key_names();
        let r = Music::smoke_hash([0u8; 32], key, &selection, "custom_pruning", scale).unwrap();
        proof {
            reveal_strlit("custom_pruning");
            reveal_strlit("default");
            reveal_strlit("major and minor");
            reveal_strlit("original");
            reveal_strlit("custom");
            assert("custom_pruning"@.len() == 14 && "default"@.len() == 7 && "custom"@.len() == 6);
            assert("custom_pruning"@ != "default"@);
            assert("custom_pruning"@ != "major and minor"@);
            assert("custom_pruning"@ != "original"@);
            assert("custom_pruning"@ != "custom"@);
            assert(group_of("custom_pruning"@) == ChordTypeGroup::CustomPruning);
        }
        r
    }
}

} // verus!
