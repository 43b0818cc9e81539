//! Seeded generation of short pieces of music: a universe of candidate
//! chords, pruned to a scale and rotated to a key, from which chords are
//! picked and placed as timed notes of a single MIDI track.
use vstd::prelude::*;

pub mod notes;
pub mod text;
pub mod chord_type;
pub mod chord;
pub mod universe;
pub mod pruning;
pub mod rng;
pub mod midi;
pub mod error;
pub mod music;
pub mod encode;
pub mod patterns;
pub mod ordering;
pub mod browse;

verus! {

use crate::browse::{browser_list, browser_table};
use crate::chord::key_ok;
use crate::chord_type::text_views;
use crate::encode::{sha256, smf_of, write_single_track, TrackFormat};
use crate::error::Error;
use crate::midi::{events_of, MidiNote, NoteEvent, MIDI_CHANNEL};
use crate::music::{method_of, mode_of, music_made, GenerationMode, Music, PickingMethod, MAX_NUM_CHORDS};
use crate::notes::{key_offset, PPQ};

/// What a piece can be: the events of the notes that making music (see
/// `music_made`) gives in the universe of the selection, group and scale,
/// in a key that is the offset of `key` unless `key` is `random`.
pub open spec fn composed(
    events: Seq<NoteEvent>,
    sel: Seq<Seq<char>>,
    group: Seq<char>,
    scale: Seq<char>,
    mode: Seq<char>,
    same: bool,
    num_chords: int,
    key: Seq<char>,
    method: Seq<char>,
    window: int,
) -> bool {
    exists|k: int, notes: Seq<MidiNote>|
        #![trigger key_ok(k), events_of(notes)]
        key_ok(k) && (key != "random"@ ==> k == key_offset(key)) && events == events_of(notes) && music_made(
            Seq::empty(),
            notes,
            browser_table(sel, group, scale),
            browser_list(sel, group, scale),
            k,
            mode_of(mode),
            method_of(method),
            same,
            num_chords,
            window,
        )
}

/// The bytes of a single-track file of the events, at `PPQ` ticks per
/// quarter note, on `MIDI_CHANNEL`.
pub open spec fn track_file(events: Seq<NoteEvent>) -> Seq<u8> {
    smf_of(TrackFormat::SingleTrack, PPQ as u16, MIDI_CHANNEL, events)
}

/// What writing a composed piece can give (`None` for a writer error): the
/// file of some composed events, and a file whenever the events are few
/// enough for the writer (at most 7 bytes each, `u32::MAX` bytes in all).
pub open spec fn piece_written(
    bytes: Option<Seq<u8>>,
    sel: Seq<Seq<char>>,
    group: Seq<char>,
    scale: Seq<char>,
    mode: Seq<char>,
    same: bool,
    num_chords: int,
    key: Seq<char>,
    method: Seq<char>,
    window: int,
) -> bool {
    exists|events: Seq<NoteEvent>|
        #![trigger track_file(events)]
        composed(events, sel, group, scale, mode, same, num_chords, key, method, window) && (7 * events.len()
            <= u32::MAX ==> bytes is Some) && (bytes is Some ==> bytes->0 == track_file(events))
}

/// The bytes of a result, `None` for an error.
pub open spec fn bytes_of(r: Result<Vec<u8>, Error>) -> Option<Seq<u8>> {
    match r {
        Ok(b) => Some(b@),
        Err(_) => None,
    }
}

/// Composes a piece from the bytes of some content: the seed is their
/// SHA-256 digest; the session is set up with the key, chord-type group and
/// scale, and makes `num_chords` chords of music (see `Music::make_music`).
/// Returns the events of its single track.
pub fn generate_events(
    file_content: &[u8],
    generation_mode: &str,
    should_use_same_chords: bool,
    num_chords: usize,
    key: &str,
    chord_selection: &Vec<String>,
    chord_type_group: &str,
    chord_picking_method: &str,
    min_number_of_unique_chords: u32,
    scale: &str,
) -> (r: Vec<NoteEvent>)
    requires
        num_chords <= MAX_NUM_CHORDS,
    ensures
        composed(
            r@,
            text_views(chord_selection@),
            chord_type_group@,
            scale@,
            generation_mode@,
            should_use_same_chords,
            num_chords as int,
            key@,
            chord_picking_method@,
            min_number_of_unique_chords as int,
        ),
        mode_of(generation_mode@) == GenerationMode::Unrecognized || method_of(chord_picking_method@)
            == PickingMethod::Unrecognized ==> r@ == Seq::<NoteEvent>::empty(),
{
    let hash = sha256(file_content);
    let mut musician = Music::smoke_hash(hash, key, chord_selection, chord_type_group, scale).unwrap();
    let ghost k = musician.key as int;
    let events = musician.make_music(
        num_chords,
        generation_mode,
        should_use_same_chords,
        chord_picking_method,
        min_number_of_unique_chords,
    );
    proof {
        let notes = musician.midi_file.notes@;
        assert(key_ok(k));
        assert(events@ == events_of(notes));
        assert(composed(
            events@,
            text_views(chord_selection@),
            chord_type_group@,
            scale@,
            generation_mode@,
            should_use_same_chords,
            num_chords as int,
            key@,
            chord_picking_method@,
            min_number_of_unique_chords as int,
        ));
        if mode_of(generation_mode@) == GenerationMode::Unrecognized || method_of(chord_picking_method@)
            == PickingMethod::Unrecognized {
            assert(crate::midi::sorted_notes(Seq::<MidiNote>::empty()) =~= Seq::<MidiNote>::empty());
            assert(events@ =~= Seq::<NoteEvent>::empty());
        }
    }
    events
}

/// Composes a piece (see `generate_events`) and writes it as a single-track
/// Standard MIDI File at 96 ticks per quarter note. The only error is the
/// MIDI writer's, for a track too long for it.
pub fn generate_midi(
    file_content: &[u8],
    generation_mode: &str,
    should_use_same_chords: bool,
    num_chords: usize,
    key: &str,
    chord_selection: &Vec<String>,
    chord_type_group: &str,
    chord_picking_method: &str,
    min_number_of_unique_chords: u32,
    scale: &str,
) -> (r: Result<Vec<u8>, Error>)
    requires
        num_chords <= MAX_NUM_CHORDS,
    ensures
        piece_written(
            bytes_of(r),
            text_views(chord_selection@),
            chord_type_group@,
            scale@,
            generation_mode@,
            should_use_same_chords,
            num_chords as int,
            key@,
            chord_picking_method@,
            min_number_of_unique_chords as int,
        ),
        mode_of(generation_mode@) == GenerationMode::Unrecognized || method_of(chord_picking_method@)
            == PickingMethod::Unrecognized ==> r is Ok && r->Ok_0@ == track_file(Seq::<NoteEvent>::empty()),
{
    let events = generate_events(
        file_content,
        generation_mode,
        should_use_same_chords,
        num_chords,
        key,
        chord_selection,
        chord_type_group,
        chord_picking_method,
        min_number_of_unique_chords,
        scale,
    );
    let r = match write_single_track(TrackFormat::SingleTrack, PPQ as u16, MIDI_CHANNEL, &events) {
        Ok(bytes) => Ok(bytes),
        Err(message) => Err(Error::MidlyError(message)),
    };
    assert(track_file(events@) == smf_of(TrackFormat::SingleTrack, PPQ as u16, MIDI_CHANNEL, events@));
    r
}

/// The piece of the byte `a` in a random key, from the default chord
/// types, 100 chords picked by pitch class first, no scale: the reference
/// configuration of the output files.
pub fn generate_midi_shorthand(generation_mode: &str, should_use_same_chords: bool, min_number_of_unique_chords: u32) -> (r: Result<Vec<u8>, Error>)
    ensures
        piece_written(
            bytes_of(r),
            Seq::empty(),
            "default"@,
            "disabled"@,
            generation_mode@,
            should_use_same_chords,
            100,
            "random"@,
            "original"@,
            min_number_of_unique_chords as int,
        ),
{
    let content: [u8; 1] = [97];
    let selection: Vec<String> = Vec::new();
    assert(text_views(selection@) =~= Seq::<Seq<char>>::empty());
    generate_midi(
        &content,
        generation_mode,
        should_use_same_chords,
        100,
        "random",
        &selection,
        "default",
        "original",
        min_number_of_unique_chords,
        "disabled",
    )
}

/// A reference file of a mode: see `generate_midi_shorthand`.
pub open spec fn reference_written(bytes: Option<Seq<u8>>, mode: Seq<char>, same: bool, window: int) -> bool {
    piece_written(bytes, Seq::empty(), "default"@, "disabled"@, mode, same, 100, "random"@, "original"@, window)
}

/// The four reference files of a generation mode: without and with the
/// same chords, each with no uniqueness window and with a window of 8;
/// named by the suffixes `a` to `d`. An error comes from the first file
/// that could not be written.
pub fn generate_midi_files(generation_mode: &str) -> (r: Result<(Vec<Vec<u8>>, Vec<&'static str>), Error>)
    ensures
        match r {
            Ok((files, suffixes)) => files@.len() == 4 && suffixes@.len() == 4 && reference_written(
                Some(files@[0]@),
                generation_mode@,
                false,
                0,
            ) && reference_written(Some(files@[1]@), generation_mode@, true, 0) && reference_written(
                Some(files@[2]@),
                generation_mode@,
                false,
                8,
            ) && reference_written(Some(files@[3]@), generation_mode@, true, 8),
            Err(_) => reference_written(None, generation_mode@, false, 0) || reference_written(
                None,
                generation_mode@,
                true,
                0,
            ) || reference_written(None, generation_mode@, false, 8) || reference_written(
                None,
                generation_mode@,
                true,
                8,
            ),
        },
{
    let midi_1 = match generate_midi_shorthand(generation_mode, false, 0) {
        Ok(b) => b,
        Err(e) => {
            return Err(e);
        },
    };
    let midi_2 = match generate_midi_shorthand(generation_mode, true, 0) {
        Ok(b) => b,
        Err(e) => {
            return Err(e);
        },
    };
    let midi_3 = match generate_midi_shorthand(generation_mode, false, 8) {
        Ok(b) => b,
        Err(e) => {
            return Err(e);
        },
    };
    let midi_4 = match generate_midi_shorthand(generation_mode, true, 8) {
        Ok(b) => b,
        Err(e) => {
            return Err(e);
        },
    };
    let mut files: Vec<Vec<u8>> = Vec::new();
    files.push(midi_1);
    files.push(midi_2);
    files.push(midi_3);
    files.push(midi_4);
    let mut suffixes: Vec<&'static str> = Vec::new();
    suffixes.push("a");
    suffixes.push("b");
    suffixes.push("c");
    suffixes.push("d");
    Ok((files, suffixes))
}

} // verus!
