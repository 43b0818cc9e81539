//! Reading a pattern: positive numbers joined by dashes.
use vstd::prelude::*;
use vstd::string::*;

verus! {

/// The digit a character stands for: its low byte taken as ASCII, when
/// that is `0` to `9`.
pub open spec fn digit_of(c: char) -> Option<u8> {
    let b = (c as u32) % 256;
    if b < 48 || b - 48 > 9 {
        None
    } else {
        Some((b - 48) as u8)
    }
}

/// The number so far, with one more digit (kept to its low byte).
pub open spec fn push_digit(n: u8, d: u8) -> u8 {
    ((n * 10 + d) % 256) as u8
}

/// Reads `s` from position `i` with the number `n` in progress and the
/// numbers `acc` read so far: the result says whether the pattern is valid
/// and holds the numbers read until the reading stopped.
pub open spec fn scan(s: Seq<char>, i: int, n: u8, acc: Seq<u8>) -> (bool, Seq<u8>)
    decreases s.len() - i,
{
    if i >= s.len() {
        (n != 0, acc.push(n))
    } else if s[i] == '-' {
        if n == 0 {
            (false, acc)
        } else {
            scan(s, i + 1, 0, acc.push(n))
        }
    } else {
        match digit_of(s[i]) {
            None => (false, acc),
            Some(d) => scan(s, i + 1, push_digit(n, d), acc),
        }
    }
}

fn digit(c: char) -> (r: Option<u8>)
    ensures
        r == digit_of(c),
{
    let b = (c as u32) % 256;
    if b < 48 || b - 48 > 9 {
        None
    } else {
        Some((b - 48) as u8)
    }
}

/// Validates a pattern of the form `X-X-...-X`, each `X` a positive
/// number, and returns the numbers read. A zero, an empty number or any
/// character but a digit or a dash makes the pattern invalid.
pub fn validate_pattern(input: &str) -> (r: (bool, Vec<u8>))
    ensures
        (r.0, r.1@) == scan(input@, 0, 0, Seq::empty()),
{
    let len = input.unicode_len();
    let mut result: Vec<u8> = Vec::new();
    let mut n: u8 = 0;
    let mut i: usize = 0;
    while i < len
        invariant
            len == input@.len(),
            i <= len,
            scan(input@, i as int, n, result@) == scan(input@, 0, 0, Seq::empty()),
        decreases len - i,
    {
        let c = input.get_char(i);
        if c == '-' {
            if n == 0 {
                return (false, result);
            }
            result.push(n);
            n = 0;
        } else {
            match digit(c) {
                None => {
                    return (false, result);
                },
                Some(d) => {
                    n = ((n as u32 * 10 + d as u32) % 256) as u8;
                },
            }
        }
        i = i + 1;
    }
    result.push(n);
    (n != 0, result)
}

} // verus!
