use musicgen::browse::{chord_finder, get_chords_of_key};
use musicgen::midi::{MidiFile, NoteMessage};

#[test]
fn browser_lists_are_in_name_order() {
    let (table, list) = get_chords_of_key("Dmin", &Vec::new(), "default", "natural");
    assert_eq!(table.len(), 12);
    assert!(!list.is_empty());
    let names: Vec<String> = list.iter().map(|c| c.get_name()).collect();
    for w in names.windows(2) {
        assert!(w[0] <= w[1]);
    }
    for c in list.iter() {
        assert_eq!(c.key, 2);
    }
    for (q, bucket) in table.iter().enumerate() {
        for c in bucket {
            assert!(c.get_notes().iter().any(|n| (n % 12) as usize == q));
        }
        let names: Vec<String> = bucket.iter().map(|c| c.get_name()).collect();
        for w in names.windows(2) {
            assert!(w[0] <= w[1]);
        }
    }
}

#[test]
fn finder_keeps_the_chords_that_hold_every_note() {
    assert!(chord_finder("Cmin", &Vec::new(), "default", "disabled", &Vec::new()).is_none());
    let notes = vec!["C".to_string(), "G".to_string()];
    let (table, list) = chord_finder("Cmin", &Vec::new(), "default", "disabled", &notes).unwrap();
    assert!(!list.is_empty());
    for c in list.iter() {
        let pcs: Vec<i16> = c.get_notes().iter().map(|n| n % 12).collect();
        assert!(pcs.contains(&0) && pcs.contains(&7));
    }
    for (i, a) in list.iter().enumerate() {
        for b in list.iter().skip(i + 1) {
            assert!(a != b);
        }
    }
    for bucket in table.iter() {
        for c in bucket {
            assert!(list.contains(c));
        }
    }
    assert_eq!(table[0].len(), list.len());
}

#[test]
fn no_overlap_track_stops_a_sounding_pitch_first() {
    let mut f = MidiFile::new();
    f.add_note(60, 0, 192, 80);
    f.add_note(60, 96, 192, 70);
    let events = f.finalize_no_overlap();
    assert_eq!(events.len(), 4);
    assert_eq!(events[0].message, NoteMessage::NoteOn { key: 60, vel: 80 });
    assert_eq!(events[1].message, NoteMessage::NoteOff { key: 60, vel: 80 });
    assert_eq!(events[1].delta, 96);
    assert_eq!(events[2].message, NoteMessage::NoteOn { key: 60, vel: 70 });
    assert_eq!(events[2].delta, 96);
    assert_eq!(events[3].message, NoteMessage::NoteOff { key: 60, vel: 80 });
}
