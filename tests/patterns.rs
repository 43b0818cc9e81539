use musicgen::patterns::old_validation::{validate_pattern as validate_old, LimitedSet};
use musicgen::patterns::validation::validate_pattern;

#[test]
fn basic_validation() {
    let tests = [
        ("1-2-3-4", true),
        ("1-1-1-1", true),
        ("1-2-3-2", true),
        ("1-2-3-4-5-6-2-2-2-1-4", true),
        ("2-3-4-1", false),
        ("3-4-5-6", false),
        ("1,2,4,3", false),
        ("1,2,2,4", false),
    ];
    for (input, output) in tests {
        let actual = validate_old(input);
        assert!(actual == output, "Test failed; input = '{}'; expected = {}; actual = {}", input, output, actual)
    }
}

#[test]
fn iterators() {
    let input = "1-2-3-4";
    let mut chars = input.chars();
    assert_eq!(chars.next().unwrap(), '1');
}

#[test]
fn sets() {
    let mut set = LimitedSet::<16>::new();
    assert_eq!(set.update(2), false);
    assert_eq!(set.update(1), true);
    assert_eq!(set.update(2), true);
    assert_eq!(set.update(4), false);
}

#[test]
fn test_1() {
    let data = [
        ("1-1-1-1", true),
        ("2-2-2-2", true),
        ("1-2-1-2", true),
        ("1-2-3-4", true),
        ("4-3-2-1", true),
        ("0-1-2-3", false),
        ("-1-2-3--4", false),
        ("-1-2-3", false),
        ("1-2-3--", false),
    ];
    for (input, output) in data {
        assert_eq!(validate_pattern(input).0, output)
    }
}

#[test]
fn test_2() {
    let data = [
        ("1-2-3-4", vec![1, 2, 3, 4]),
        ("2-3-4-5", vec![2, 3, 4, 5]),
        ("2-3-2-1", vec![2, 3, 2, 1]),
        ("1-2-3-4-1-2-3-5", vec![1, 2, 3, 4, 1, 2, 3, 5]),
    ];
    for (input, output) in data {
        assert_eq!(validate_pattern(input).1, output);
    }
}

#[test]
fn limited_set_rejects_numbers_out_of_range() {
    let mut set = LimitedSet::<16>::new();
    assert!(!set.update(0));
    assert!(set.update(1));
    assert!(!set.update(17));
    for n in 2..=16u8 {
        assert!(set.update(n));
    }
    assert!(!set.update(17));
}

#[test]
fn old_rule_rejects_empty_numbers_and_large_numbers() {
    assert!(!validate_old(""));
    assert!(!validate_old("1--2"));
    assert!(!validate_old("1-2-"));
    assert!(validate_old("1-2-3-4-5-6-7-8-9-10"));
    assert!(!validate_old("17"));
}

#[test]
fn numbers_are_read_until_the_pattern_fails() {
    assert_eq!(validate_pattern("12-3"), (true, vec![12, 3]));
    assert_eq!(validate_pattern("1-x"), (false, vec![1]));
    assert_eq!(validate_pattern(""), (false, vec![0]));
}
