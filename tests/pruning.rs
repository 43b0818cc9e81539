use musicgen::chord::Chord;
use musicgen::music::Music;
use musicgen::notes::{parse_key, A, ASHARP, B, C, CSHARP, D, DSHARP, E, F, FSHARP, G, GSHARP};
use musicgen::pruning::{complement_pitch_classes, get_good_notes_set, prune_chords, prune_chords_mask};

fn pitch_classes(chord: &Chord) -> Vec<i16> {
    chord.get_notes().iter().map(|n| n % 12).collect()
}

fn distinct_chords(table: &[Vec<Chord>]) -> Vec<Chord> {
    let mut chords: Vec<Chord> = Vec::new();
    for col in table {
        for chord in col {
            if !chords.contains(chord) {
                chords.push(chord.duplicate());
            }
        }
    }
    chords
}

#[test]
fn get_bad_notes() {
    let good_notes: Vec<i16> = vec![0, 1, 2, 3, 10];
    let mut bad_notes: Vec<usize> = complement_pitch_classes(&good_notes);
    bad_notes.sort();
    assert_eq!(bad_notes, [4, 5, 6, 7, 8, 9, 11]);
}

#[test]
fn num_chords_equal_in_list_and_table() {
    let musician = Music::smoke_hash([0u8; 32], "Cmin", &Vec::new(), "default", "pentatonic").unwrap();
    let chords = distinct_chords(&musician.chord_table);
    println!("Num chords found in num_chords_equal_in_list_and_table: {}", chords.len());
    assert_eq!(chords.len(), musician.chord_list.len());
}

#[test]
fn pruning_c_minor() {
    let musician = Music::smoke_hash([0u8; 32], "Cmin", &Vec::new(), "default", "pentatonic").unwrap();

    assert!(musician.chord_table[CSHARP as usize].len() == 0, "C# had some chords in it");
    assert!(musician.chord_table[D as usize].len() == 0, "D had some notes in it");
    assert!(musician.chord_table[E as usize].len() == 0, "E had some notes in it");
    assert!(musician.chord_table[FSHARP as usize].len() == 0, "F# had some notes in it");
    assert!(musician.chord_table[GSHARP as usize].len() == 0, "G# had some notes in it");
    assert!(musician.chord_table[A as usize].len() == 0, "A had some notes in it");
    assert!(musician.chord_table[B as usize].len() == 0, "B had some notes in it");

    assert!(musician.chord_table[C as usize].len() != 0, "C was empty");
    assert!(musician.chord_table[DSHARP as usize].len() != 0, "D# was empty");
    assert!(musician.chord_table[G as usize].len() != 0, "G was empty");
    assert!(musician.chord_table[ASHARP as usize].len() != 0, "A# was empty");

    let (_good_notes, bad_notes) = get_good_notes_set("pentatonic").unwrap();
    let mut bad_chords = 0;
    for chords in musician.chord_table.iter() {
        for chord in chords.iter() {
            if pitch_classes(chord).iter().any(|n| bad_notes.contains(&(*n as usize))) {
                bad_chords += 1;
            }
        }
    }
    println!("Num chords: {}", musician.chord_list.len());
    assert_eq!(bad_chords, 0);
}

#[test]
fn prune_in_fsharp_min() {
    let mut musician = Music::smoke_hash_all_pruning_chords("Cmin", "pentatonic");
    musician.rotate_chords("F#min");

    let (_good_notes, bad_notes) = get_good_notes_set("pentatonic").unwrap();
    let bad_notes_set: Vec<i16> = bad_notes.iter().map(|n| (*n as i16 + parse_key("F#min")) % 12).collect();

    assert!(musician.chord_table[G as usize].len() == 0, "G had some chords in it");
    assert!(musician.chord_table[GSHARP as usize].len() == 0, "G# had some notes in it");
    assert!(musician.chord_table[ASHARP as usize].len() == 0, "A# had some notes in it");
    assert!(musician.chord_table[C as usize].len() == 0, "C had some notes in it");
    assert!(musician.chord_table[D as usize].len() == 0, "D had some notes in it");
    assert!(musician.chord_table[DSHARP as usize].len() == 0, "D# had some notes in it");
    assert!(musician.chord_table[F as usize].len() == 0, "F had some notes in it");

    assert!(musician.chord_table[FSHARP as usize].len() != 0, "F# was empty");
    assert!(musician.chord_table[A as usize].len() != 0, "A was empty");
    assert!(musician.chord_table[B as usize].len() != 0, "B was empty");
    assert!(musician.chord_table[CSHARP as usize].len() != 0, "C# was empty");
    assert!(musician.chord_table[E as usize].len() != 0, "E was empty");

    let chords = distinct_chords(&musician.chord_table);
    println!("F#min chord count: {}", chords.len());
    assert_eq!(chords.len(), musician.chord_list.len());

    let mut bad_chords = 0;
    for chords in musician.chord_table.iter() {
        for chord in chords.iter() {
            if pitch_classes(chord).iter().any(|n| bad_notes_set.contains(n)) {
                bad_chords += 1;
            }
        }
    }
    assert_eq!(bad_chords, 0);
}

#[test]
fn prune_c_minor_natural() {
    let musician = Music::smoke_hash([0u8; 32], "Cmin", &Vec::new(), "default", "natural").unwrap();

    assert!(musician.chord_table[CSHARP as usize].len() == 0, "C# had some chords in it");
    assert!(musician.chord_table[E as usize].len() == 0, "E had some chords in it");
    assert!(musician.chord_table[FSHARP as usize].len() == 0, "F# had some chords in it");
    assert!(musician.chord_table[A as usize].len() == 0, "A had some chords in it");
    assert!(musician.chord_table[B as usize].len() == 0, "B had some chords in it");

    assert!(musician.chord_table[C as usize].len() != 0, "C was empty");
    assert!(musician.chord_table[D as usize].len() != 0, "D was empty");
    assert!(musician.chord_table[DSHARP as usize].len() != 0, "D# was empty");
    assert!(musician.chord_table[F as usize].len() != 0, "F was empty");
    assert!(musician.chord_table[G as usize].len() != 0, "G was empty");
    assert!(musician.chord_table[GSHARP as usize].len() != 0, "G# was empty");
    assert!(musician.chord_table[ASHARP as usize].len() != 0, "A# was empty");

    let (_good_notes, bad_notes) = get_good_notes_set("natural").unwrap();
    let mut bad_chords = 0;
    for chords in musician.chord_table.iter() {
        for chord in chords.iter() {
            if pitch_classes(chord).iter().any(|n| bad_notes.contains(&(*n as usize))) {
                bad_chords += 1;
            }
        }
    }
    println!("Num chords: {}", musician.chord_list.len());
    assert_eq!(bad_chords, 0);
}

#[test]
fn chords_are_present() {
    let m = Music::smoke_hash_all_pruning_chords("Cmin", "pentatonic");
    assert!(m.chord_list.len() > 0);
}

#[test]
fn both_pruning_ways_agree() {
    for scale in ["natural", "melodic", "harmonic", "pentatonic", "romanian", "hungarian", "half_whole", "whole_half"] {
        for key in [0i16, 5, 11] {
            for reproducible in [false, true] {
                let base = Music::smoke_hash([0u8; 32], "Cmin", &Vec::new(), "default", "disabled").unwrap();
                let mut list_a: Vec<Chord> = base.chord_list.iter().map(|c| {
                    let mut c = c.duplicate();
                    c.key = key;
                    c
                }).collect();
                let mut list_b: Vec<Chord> = list_a.iter().map(|c| c.duplicate()).collect();
                let mut table_a: Vec<Vec<Chord>> = Vec::new();
                let mut table_b: Vec<Vec<Chord>> = Vec::new();
                prune_chords(&mut table_a, &mut list_a, scale, key, reproducible);
                prune_chords_mask(&mut table_b, &mut list_b, scale, key, reproducible);
                assert_eq!(list_a, list_b);
                assert_eq!(table_a, table_b);
                assert_eq!(table_a.len(), 12);
            }
        }
    }
}

#[test]
fn disabled_and_unknown_scales_prune_nothing() {
    for scale in ["disabled", "no such scale"] {
        let base = Music::smoke_hash([0u8; 32], "Cmin", &Vec::new(), "default", "disabled").unwrap();
        let mut list: Vec<Chord> = base.chord_list.iter().map(|c| c.duplicate()).collect();
        let mut table: Vec<Vec<Chord>> = base.chord_table.iter().map(|b| b.iter().map(|c| c.duplicate()).collect()).collect();
        prune_chords(&mut table, &mut list, scale, 0, true);
        assert_eq!(list, base.chord_list);
        assert_eq!(table, base.chord_table);
    }
}

#[test]
fn reproducible_order_is_a_permutation_in_a_fixed_order() {
    let base = Music::smoke_hash([0u8; 32], "Cmin", &Vec::new(), "default", "disabled").unwrap();
    let mut plain: Vec<Chord> = base.chord_list.iter().map(|c| c.duplicate()).collect();
    let mut sorted: Vec<Chord> = plain.iter().map(|c| c.duplicate()).collect();
    let mut t1: Vec<Vec<Chord>> = Vec::new();
    let mut t2: Vec<Vec<Chord>> = Vec::new();
    prune_chords(&mut t1, &mut plain, "natural", 0, false);
    prune_chords(&mut t2, &mut sorted, "natural", 0, true);
    assert_eq!(plain.len(), sorted.len());
    for c in plain.iter() {
        assert!(sorted.contains(c));
    }
    let keys: Vec<u64> = sorted.iter().map(musicgen::ordering::chord_order_key).collect();
    for w in keys.windows(2) {
        assert!(w[0] <= w[1]);
    }
}

#[test]
fn table_and_list_hold_the_same_chords() {
    for scale in ["disabled", "natural", "pentatonic", "whole_half"] {
        let mut m = Music::smoke_hash([3u8; 32], "Dmaj", &Vec::new(), "default", scale).unwrap();
        let chords = distinct_chords(&m.chord_table);
        assert_eq!(chords.len(), distinct_chords(&[m.chord_list.iter().map(|c| c.duplicate()).collect()]).len());
        for c in m.chord_list.iter() {
            assert!(chords.contains(c));
        }
        m.rotate_chords("G#maj");
        let chords = distinct_chords(&m.chord_table);
        for c in m.chord_list.iter() {
            assert!(chords.contains(c));
        }
        for (q, bucket) in m.chord_table.iter().enumerate() {
            for c in bucket {
                assert!(pitch_classes(c).contains(&(q as i16)));
            }
        }
    }
}

#[test]
fn rotating_to_the_current_key_changes_nothing() {
    let mut m = Music::smoke_hash([0u8; 32], "Cmin", &Vec::new(), "default", "natural").unwrap();
    let list: Vec<Chord> = m.chord_list.iter().map(|c| c.duplicate()).collect();
    let table: Vec<Vec<Chord>> = m.chord_table.iter().map(|b| b.iter().map(|c| c.duplicate()).collect()).collect();
    m.rotate_chords("Cmin");
    assert_eq!(m.chord_list, list);
    assert_eq!(m.chord_table, table);
    for c in m.chord_list.iter() {
        assert_eq!(c.key, 0);
    }
    m.rotate_chords("Amin");
    let once: Vec<Vec<i16>> = m.chord_table.iter().map(|b| b.iter().map(|c| c.key).collect()).collect();
    let sizes: Vec<usize> = m.chord_table.iter().map(|b| b.len()).collect();
    m.rotate_chords("Amin");
    let twice: Vec<usize> = m.chord_table.iter().map(|b| b.len()).collect();
    assert_eq!(sizes, twice);
    assert_eq!(once, m.chord_table.iter().map(|b| b.iter().map(|c| c.key).collect::<Vec<i16>>()).collect::<Vec<_>>());
    assert_eq!(sizes[9], table[0].len());
}
