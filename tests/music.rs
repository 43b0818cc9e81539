use musicgen::chord::Chord;
use musicgen::chord_type::{
    all_custom_chord_types_handpicked, chord_types_of_group, default_chord_types, ChordType, ChordTypeGroup,
};
use musicgen::error::{HttpError, MusicError};
use musicgen::midi::{MidiFile, NoteMessage};
use musicgen::music::{Music, PickingMethod, RETRY_BUDGET};
use musicgen::rng::MathMagician;
use musicgen::universe::{chord_variants, expand_chords};
use musicgen::{generate_events, generate_midi, generate_midi_files, generate_midi_shorthand};

#[test]
fn catalogs_hold_their_chord_types() {
    let d = default_chord_types();
    assert_eq!(d.len(), 11);
    assert_eq!(d[0].name, "minor 7");
    assert_eq!(d[3].optional_notes, vec![12]);
    let h = all_custom_chord_types_handpicked();
    assert_eq!(h.len(), 17);
    assert_eq!(h[14].name, "major 13");
    assert_eq!(h[14].optional_notes, vec![0, 5]);
    let picked = chord_types_of_group(ChordTypeGroup::from_name("custom"), &vec!["add9".to_string(), "minor7".to_string()]);
    assert_eq!(picked.len(), 2);
    assert_eq!(picked[0].name, "minor 7");
    assert_eq!(picked[1].name, "add 9");
    let unknown = chord_types_of_group(ChordTypeGroup::from_name("nothing"), &Vec::new());
    assert_eq!(unknown.len(), 1);
    assert!(unknown[0].roots.is_empty());
    let mut t = ChordType::new("x", &[0, 4], &[2], None);
    t.use_all_roots(true);
    assert_eq!(t.roots.len(), 12);
    assert_eq!(ChordType::all_roots("y", &[0], Some(&[7])).optional_notes, vec![7]);
}

#[test]
fn chord_names_and_notes() {
    let t = ChordType::new("minor 7", &[0, 10, 15, 19], &[2], None);
    let mut c = Chord::new(2, &t);
    assert_eq!(c.get_notes(), vec![2, 12, 17, 21]);
    assert_eq!(c.get_name(), "D minor 7");
    assert_eq!(c.get_note_names(), "D, C, F, A");
    assert_eq!(c.get_notes_u16(), (1 << 2) | (1 << 0) | (1 << 5) | (1 << 9));
    c.key = 3;
    assert_eq!(c.get_name(), "F minor 7");
    assert_eq!(c.get_notes(), vec![5, 15, 20, 24]);
    let d = c.duplicate();
    assert_eq!(c, d);
}

#[test]
fn optional_notes_expand_into_variants() {
    let t = ChordType::new("nine", &[0, 4, 7], &[0], Some(&[10, 14, 17]));
    let c = Chord::new(0, &t);
    let variants = chord_variants(&c);
    assert_eq!(variants.len(), 1 + 2 * 3 + 3);
    let (list, table) = expand_chords(&vec![c]);
    assert_eq!(list.len(), 1 + 2 * 3 + (3 - 2));
    assert_eq!(table.len(), 12);
    for v in list.iter() {
        assert!(v.chord_type.optional_notes.is_empty());
    }
    assert_eq!(list[0].chord_type.note_intervals, vec![0, 4, 7]);
    assert_eq!(list[1].chord_type.note_intervals, vec![0, 4, 7, 10]);
    assert_eq!(list[3].chord_type.note_intervals, vec![0, 4, 7, 14]);
    assert_eq!(list[list.len() - 1].chord_type.note_intervals, vec![0, 4, 7, 17, 14, 10]);
}

#[test]
fn two_optional_notes_make_no_reverse_variants() {
    let t = ChordType::new("thirteen", &[0, 5], &[0], Some(&[0, 5]));
    let (list, _) = expand_chords(&vec![Chord::new(0, &t)]);
    assert_eq!(list.len(), 4);
}

#[test]
fn repeats_stay_out_of_the_window() {
    let mut m = Music::smoke_hash([9u8; 32], "Cmin", &Vec::new(), "default", "disabled").unwrap();
    for method in [PickingMethod::Original, PickingMethod::OneD] {
        let window = 8usize;
        let (chords, redraws) = m.pick_chords(200, method, window);
        assert_eq!(chords.len(), 200);
        for i in 0..chords.len() {
            for j in i.saturating_sub(window)..i {
                if chords[i] == chords[j] {
                    assert_eq!(redraws[i], RETRY_BUDGET + 1);
                }
            }
        }
    }
}

#[test]
fn accumulated_notes_come_out_in_order() {
    let mut f = MidiFile::new();
    f.add_note(60, 96, 96, 80);
    f.add_note(62, 0, 96, 70);
    let events = f.finalize();
    assert_eq!(events.len(), 4);
    assert_eq!(events[0].delta, 0);
    assert_eq!(events[0].message, NoteMessage::NoteOn { key: 62, vel: 70 });
    assert_eq!(events[1].delta, 96);
    assert_eq!(events[1].message, NoteMessage::NoteOff { key: 62, vel: 70 });
    assert_eq!(events[2].delta, 0);
    assert_eq!(events[2].message, NoteMessage::NoteOn { key: 60, vel: 80 });
    assert_eq!(events[3].delta, 96);
}

#[test]
fn decisions_stay_in_range() {
    let mut mm = MathMagician::share_hash([1u8; 32]);
    for _ in 0..200 {
        let n = mm.pick_note();
        assert!((0..12).contains(&n));
        let d = mm.big_decision(70, 90);
        assert!((70..=90).contains(&d));
    }
}

#[test]
fn same_seed_gives_the_same_file() {
    let sel: Vec<String> = Vec::new();
    let a = generate_midi(b"some file", "melody v2", false, 20, "random", &sel, "default", "original", 4, "natural").unwrap();
    let b = generate_midi(b"some file", "melody v2", false, 20, "random", &sel, "default", "original", 4, "natural").unwrap();
    assert_eq!(a, b);
    let c = generate_midi(b"other file", "melody v2", false, 20, "random", &sel, "default", "original", 4, "natural").unwrap();
    assert_ne!(a, c);
}

#[test]
fn reference_piece_is_reproduced() {
    let a = generate_midi_shorthand("melody", false, 0).unwrap();
    let b = generate_midi_shorthand("melody", false, 0).unwrap();
    assert_eq!(a, b);
    assert_eq!(&a[0..4], b"MThd");
    assert_eq!(&a[14..18], b"MTrk");
    assert!(a.len() > 100);
    let c = generate_midi_shorthand("melody", true, 0).unwrap();
    assert_ne!(a, c);
    let d = generate_midi_shorthand("chords", false, 0).unwrap();
    assert_ne!(a, d);
}

#[test]
fn every_mode_makes_four_reference_files() {
    for mode in ["melody", "chords", "intended", "melody v2", "melody v3"] {
        let (files, suffixes) = generate_midi_files(mode).unwrap();
        assert_eq!(files.len(), 4);
        assert_eq!(suffixes, vec!["a", "b", "c", "d"]);
        assert!(files.iter().all(|f| f.len() > 22));
    }
}

#[test]
fn unknown_mode_or_method_places_nothing() {
    let sel: Vec<String> = Vec::new();
    let e = generate_events(b"a", "no such mode", false, 10, "Cmin", &sel, "default", "original", 0, "disabled");
    assert!(e.is_empty());
    let e = generate_events(b"a", "chords", false, 10, "Cmin", &sel, "default", "2D", 0, "disabled");
    assert!(e.is_empty());
    let e = generate_events(b"a", "chords", true, 10, "Cmin", &sel, "default", "2D", 0, "disabled");
    assert!(e.is_empty());
    let e = generate_events(b"a", "chords", false, 10, "Cmin", &sel, "default", "1D", 0, "disabled");
    assert!(!e.is_empty());
}

#[test]
fn chords_mode_holds_every_chord_for_four_beats() {
    let sel: Vec<String> = Vec::new();
    let e = generate_events(b"a", "chords", false, 3, "Cmin", &sel, "major and minor", "original", 0, "disabled");
    let mut time = 0u32;
    for ev in e.iter() {
        time += ev.delta;
        assert_eq!(time % 384, 0);
    }
    assert_eq!(time, 3 * 384);
}

#[test]
fn chord_preview_is_base64_midi() {
    let t = ChordType::new("major", &[0, 4, 7], &[0], None);
    let c = Chord::new(0, &t);
    let text = c.to_midi().unwrap();
    assert!(text.starts_with("TVRoZA"));
    assert_ne!(text.len(), 0);
}

#[test]
fn error_messages() {
    let e = HttpError::new("broken");
    assert_eq!(e.code, 500);
    let f = e._202("E42");
    assert_eq!(f.code, 202);
    assert_eq!(f.message, "We encountered an error, but your request went through. Error E42:broken");
    assert_eq!(MusicError::from_message("m").message, "m");
}

#[test]
fn buggy_melodies_draw_velocities_from_70_to_90() {
    let t = ChordType::new("minor", &[0, 3, 7], &[0], None);
    let c = Chord::new(0, &t);
    let mut m = Music::smoke_hash([5u8; 32], "Cmin", &Vec::new(), "default", "disabled").unwrap();
    m.place_chord_bug_v3(&c, -1, 0);
    m.place_chord_bug_v2(&c, 4, 4);
    assert!(!m.midi_file.notes.is_empty());
    for n in m.midi_file.notes.iter() {
        assert!((70..=90).contains(&n.volume));
    }
}

#[test]
fn low_octaves_keep_the_low_byte() {
    let t = ChordType::new("fifth", &[0, 7], &[0], None);
    let c = Chord::new(0, &t);
    let mut m = Music::smoke_hash([5u8; 32], "Cmin", &Vec::new(), "default", "disabled").unwrap();
    m.place_chord_regular(&c, -1, 0);
    assert_eq!(m.midi_file.notes[0].pitch, 244);
    assert_eq!(m.midi_file.notes[2].pitch, 251);
}

#[test]
fn expansion_puts_variants_in_c_minor() {
    let t = ChordType::new("nine", &[0, 4, 7], &[2], Some(&[14]));
    let mut c = Chord::new(2, &t);
    c.key = 5;
    let (list, _) = expand_chords(&vec![c]);
    assert_eq!(list.len(), 2);
    assert!(list.iter().all(|v| v.key == 0));
}

#[test]
fn unknown_mode_still_writes_an_empty_track() {
    let sel: Vec<String> = Vec::new();
    let bytes = generate_midi(b"x", "nothing", true, 10, "Cmin", &sel, "default", "original", 0, "disabled").unwrap();
    assert_eq!(&bytes[0..4], b"MThd");
    assert_eq!(bytes.len(), 14 + 8);
}
