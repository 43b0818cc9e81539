//! The strict pattern rule: a number may only be used once the number
//! below it has been used.
use vstd::prelude::*;
use vstd::string::*;
use crate::patterns::validation::{digit_of, push_digit};

verus! {

/// The largest number the pattern rule accepts.
pub const MAX: usize = 16;

/// The numbers from 1 to `NUMBER_OF_DIGITS` met so far, one bit each.
pub struct LimitedSet<const NUMBER_OF_DIGITS: usize> {
    data: Vec<u8>,
}

proof fn lemma_set_bit(x: u8, b: u8, c: u8)
    requires
        b < 8,
        c < 8,
    ensures
        ((x | (1u8 << b)) & (1u8 << c) != 0) <==> ((x & (1u8 << c) != 0) || b == c),
{
    assert(((x | (1u8 << b)) & (1u8 << c) != 0) <==> ((x & (1u8 << c) != 0) || b == c)) by (bit_vector)
        requires
            b < 8,
            c < 8,
    ;
}

proof fn lemma_zero_bit(c: u8)
    requires
        c < 8,
    ensures
        (0u8 & (1u8 << c)) == 0,
{
    assert((0u8 & (1u8 << c)) == 0) by (bit_vector);
}

impl<const NUMBER_OF_DIGITS: usize> LimitedSet<NUMBER_OF_DIGITS> {
    /// Whether the bit of number `m` is set.
    spec fn bit_of(&self, m: int) -> bool {
        self.data@[(m - 1) / 8] & (1u8 << ((m - 1) % 8) as u8) != 0
    }

    /// The numbers met so far.
    pub closed spec fn view(&self) -> Set<int> {
        Set::new(|m: int| 1 <= m <= NUMBER_OF_DIGITS && self.bit_of(m))
    }

    /// One bit for each number from 1 to `NUMBER_OF_DIGITS`.
    pub closed spec fn wf(&self) -> bool {
        self.data@.len() == (NUMBER_OF_DIGITS + 7) / 8
    }

    /// An empty set.
    pub fn new() -> (r: Self)
        requires
            NUMBER_OF_DIGITS <= 2040,
        ensures
            r.wf(),
            r.view() == Set::<int>::empty(),
    {
        let bytes: usize = (NUMBER_OF_DIGITS + 7) / 8;
        let mut data: Vec<u8> = Vec::new();
        let mut i: usize = 0;
        while i < bytes
            invariant
                i <= bytes,
                data@.len() == i,
                forall|j: int| 0 <= j < i ==> data@[j] == 0,
            decreases bytes - i,
        {
            data.push(0);
            i = i + 1;
        }
        let r = LimitedSet { data };
        assert forall|m: int| !(#[trigger] r.view().contains(m)) by {
            if 1 <= m <= NUMBER_OF_DIGITS {
                lemma_zero_bit(((m - 1) % 8) as u8);
            }
        }
        assert(r.view() =~= Set::<int>::empty());
        r
    }

    /// Meets the number `n`: accepted when it is 1, or when `n - 1` was met
    /// before, and `n` is at most `NUMBER_OF_DIGITS`; an accepted number is
    /// recorded.
    pub fn update(&mut self, n: u8) -> (r: bool)
        requires
            old(self).wf(),
        ensures
            final(self).wf(),
            r == (1 <= n <= NUMBER_OF_DIGITS && (n == 1 || old(self).view().contains(n - 1))),
            final(self).view() == (if r {
                old(self).view().insert(n as int)
            } else {
                old(self).view()
            }),
    {
        if n == 0 || n as usize > NUMBER_OF_DIGITS {
            return false;
        }
        if n > 1 {
            let m: u8 = n - 1;
            let byte = ((m - 1) / 8) as usize;
            let bit = (m - 1) % 8;
            if self.data[byte] & (1u8 << bit) == 0 {
                return false;
            }
            assert(self.bit_of(m as int));
        }
        let byte = ((n - 1) / 8) as usize;
        let bit = (n - 1) % 8;
        let ghost before = *self;
        let value = self.data[byte] | (1u8 << bit);
        self.data.set(byte, value);
        proof {
            assert forall|m: int| #[trigger] self.view().contains(m) == before.view().insert(n as int).contains(m) by {
                if 1 <= m <= NUMBER_OF_DIGITS {
                    let bm = (m - 1) / 8;
                    let cm = ((m - 1) % 8) as u8;
                    if bm == byte {
                        lemma_set_bit(before.data@[byte as int], bit, cm);
                        assert(cm == bit ==> m == n);
                    } else {
                        assert(self.data@[bm] == before.data@[bm]);
                    }
                }
            }
            assert(self.view() =~= before.view().insert(n as int));
        }
        true
    }
}

/// Whether the rule accepts number `n` after the numbers `seen`.
pub open spec fn accepts(seen: Set<int>, n: u8) -> bool {
    1 <= n <= MAX && (n == 1 || seen.contains(n - 1))
}

/// Reads `s` from position `i`, with the number `n` in progress and the
/// numbers `seen` met so far: whether the rest of the pattern is valid.
pub open spec fn old_scan(s: Seq<char>, i: int, n: u8, seen: Set<int>) -> bool
    decreases s.len() - i,
{
    if i >= s.len() {
        n != 0 && accepts(seen, n)
    } else if s[i] == '-' {
        accepts(seen, n) && old_scan(s, i + 1, 0, seen.insert(n as int))
    } else {
        match digit_of(s[i]) {
            None => false,
            Some(d) => old_scan(s, i + 1, push_digit(n, d), seen),
        }
    }
}

/// Validates a pattern of the form `X-X-...-X`, where each `X` is a number
/// from 1 to 16 and each number used must follow the use of the number
/// below it.
pub fn validate_pattern(input: &str) -> (r: bool)
    ensures
        r == old_scan(input@, 0, 0, Set::empty()),
{
    let mut set = LimitedSet::<MAX>::new();
    let len = input.unicode_len();
    let mut n: u8 = 0;
    let mut i: usize = 0;
    while i < len
        invariant
            len == input@.len(),
            i <= len,
            set.wf(),
            old_scan(input@, i as int, n, set.view()) == old_scan(input@, 0, 0, Set::empty()),
        decreases len - i,
    {
        let c = input.get_char(i);
        if c == '-' {
            if !set.update(n) {
                return false;
            }
            n = 0;
        } else {
            let b = (c as u32) % 256;
            if b < 48 || b - 48 > 9 {
                return false;
            }
            let d = (b - 48) as u8;
            assert(digit_of(c) == Some(d));
            n = ((n as u32 * 10 + d as u32) % 256) as u8;
        }
        i = i + 1;
    }
    if n == 0 {
        return false;
    }
    set.update(n)
}

} // verus!
