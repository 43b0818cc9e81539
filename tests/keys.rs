use musicgen::music::Music;
use musicgen::notes::{add_octaves, get_max_note_length_index, parse_key, transpose};

#[test]
fn parsing_notes_with_parse_key() {
    assert_eq!(parse_key("C"), 0);
    assert_eq!(parse_key("C#"), 1);
    assert_eq!(parse_key("D"), 2);
    assert_eq!(parse_key("D#"), 3);
    assert_eq!(parse_key("E"), 4);
    assert_eq!(parse_key("F"), 5);
    assert_eq!(parse_key("F#"), 6);
    assert_eq!(parse_key("G"), 7);
    assert_eq!(parse_key("G#"), 8);
    assert_eq!(parse_key("A"), 9);
    assert_eq!(parse_key("A#"), 10);
    assert_eq!(parse_key("B"), 11);
}

#[test]
fn parsing_keys() {
    assert_eq!(parse_key("Cmin"), 0);
    assert_eq!(parse_key("C#min"), 1);
    assert_eq!(parse_key("Dmin"), 2);
    assert_eq!(parse_key("D#min"), 3);
    assert_eq!(parse_key("Emin"), 4);
    assert_eq!(parse_key("Fmin"), 5);
    assert_eq!(parse_key("F#min"), 6);
    assert_eq!(parse_key("Gmin"), 7);
    assert_eq!(parse_key("G#min"), 8);
    assert_eq!(parse_key("Amin"), 9);
    assert_eq!(parse_key("A#min"), 10);
    assert_eq!(parse_key("Bmin"), 11);

    assert_eq!(parse_key("Cmaj"), 3);
    assert_eq!(parse_key("C#maj"), 4);
    assert_eq!(parse_key("Dmaj"), 5);
    assert_eq!(parse_key("D#maj"), 6);
    assert_eq!(parse_key("Emaj"), 7);
    assert_eq!(parse_key("Fmaj"), 8);
    assert_eq!(parse_key("F#maj"), 9);
    assert_eq!(parse_key("Gmaj"), 10);
    assert_eq!(parse_key("G#maj"), 11);
    assert_eq!(parse_key("Amaj"), 0);
    assert_eq!(parse_key("A#maj"), 1);
    assert_eq!(parse_key("Bmaj"), 2);
}

fn init_music(chosen_key: &str) -> Music {
    Music::smoke_hash([0u8; 32], chosen_key, &Vec::new(), "default", "disabled").unwrap()
}

#[test]
fn key_parsing() {
    let m = init_music("Cmin");
    assert_eq!(m.key, 0);
    let m = init_music("Cmaj");
    assert_eq!(m.key, 3);
    let m = init_music("Dmin");
    assert_eq!(m.key, 2);
    let m = init_music("Dmaj");
    assert_eq!(m.key, 5);
}

#[test]
fn key_scenario_values() {
    assert_eq!(parse_key("Cmin"), 0);
    assert_eq!(parse_key("Cmaj"), 3);
    assert_eq!(parse_key("Dmin"), 2);
    assert_eq!(parse_key("Dmaj"), 5);
    assert_eq!(parse_key("F#min"), 6);
    assert_eq!(parse_key("random"), 0);
}

#[test]
fn unknown_key_names_give_zero() {
    assert_eq!(parse_key(""), 0);
    assert_eq!(parse_key("Bb"), 11);
    assert_eq!(parse_key("Hmin"), 0);
    assert_eq!(parse_key("cmin"), 0);
}

#[test]
fn random_key_is_drawn_from_the_seed() {
    let a = Music::smoke_hash([7u8; 32], "random", &Vec::new(), "default", "disabled").unwrap();
    let b = Music::smoke_hash([7u8; 32], "random", &Vec::new(), "default", "disabled").unwrap();
    assert_eq!(a.key, b.key);
    assert!(a.key >= 0 && a.key < 12);
}

#[test]
fn transpose_test() {
    let test_1: [i32; 7] = [0, 2, 4, 6, 8, 9, 11];
    let transposed: Vec<i32> = transpose(&test_1, 1);
    assert_eq!(transposed, [1, 3, 5, 7, 9, 10, 0]);

    let mut set: Vec<i32> = transpose(&[0, 3, 6, 9], 2);
    set.sort();
    assert_eq!(set, vec![2, 5, 8, 11]);
}

#[test]
fn transposing_below_zero_keeps_the_sign() {
    assert_eq!(transpose(&[0, 3, 13], -5), vec![-5, -2, 8]);
}

#[test]
fn octaves_and_note_lengths() {
    assert_eq!(add_octaves(0, 4), 48);
    assert_eq!(add_octaves(7, -1), 251);
    assert_eq!(add_octaves(300, 0), 44);
    assert_eq!(get_max_note_length_index(0), 7);
    assert_eq!(get_max_note_length_index(5), 2);
    assert_eq!(get_max_note_length_index(7), 0);
}
