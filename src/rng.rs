//! The seeded decision source: every random choice of a generation is a
//! draw from one pseudo-random stream fixed by a 32-byte seed.
use vstd::prelude::*;
use rand::rngs::StdRng;
use rand::Rng;
use rand::SeedableRng;

verus! {

#[verifier::external_type_specification]
#[verifier::external_body]
pub struct ExStdRng(StdRng);

/// Relies on rand's `StdRng::from_seed`: a generator whose stream of draws
/// is fixed by the seed alone.
#[verifier::external_body]
fn seeded_generator(seed: [u8; 32]) -> StdRng {
    StdRng::from_seed(seed)
}

/// The decision source of one generation.
#[derive(Debug)]
pub struct MathMagician {
    noggin: StdRng,
}

impl MathMagician {
    /// A decision source whose draws are fixed by the seed.
    pub fn share_hash(hash: [u8; 32]) -> (r: Self) {
        MathMagician { noggin: seeded_generator(hash) }
    }

    /// Relies on rand's `Rng::gen_range` over an inclusive range: the next
    /// draw of the stream, a number between `min` and `max` inclusive
    /// (`gen_range` panics on an empty range, which `requires` leaves out).
    #[verifier::external_body]
    pub fn big_decision(&mut self, min: u16, max: u16) -> (r: u16)
        requires
            min <= max,
        ensures
            min <= r <= max,
    {
        self.noggin.gen_range(min..=max)
    }

    /// Draws a pitch class, 0 to 11.
    pub fn pick_note(&mut self) -> (r: i16)
        ensures
            0 <= r < 12,
    {
        self.big_decision(0, 11) as i16
    }

    /// Draws one of the non-empty columns of a table, uniformly.
    pub fn pick_column<T>(&mut self, chord_table: &Vec<Vec<T>>) -> (r: usize)
        requires
            exists|i: int| 0 <= i < chord_table@.len() && (#[trigger] chord_table@[i])@.len() > 0,
            chord_table@.len() <= 65536,
        ensures
            r < chord_table@.len(),
            chord_table@[r as int]@.len() > 0,
    {
        let mut columns: Vec<usize> = Vec::new();
        let mut i: usize = 0;
        while i < chord_table.len()
            invariant
                i <= chord_table@.len(),
                columns@.len() <= i,
                forall|j: int| 0 <= j < columns@.len() ==> (#[trigger] columns@[j]) < chord_table@.len()
                    && chord_table@[columns@[j] as int]@.len() > 0,
                forall|j: int| 0 <= j < i && (#[trigger] chord_table@[j])@.len() > 0 ==> columns@.contains(j as usize),
            decreases chord_table@.len() - i,
        {
            let ghost before = columns@;
            if chord_table[i].len() > 0 {
                columns.push(i);
                assert(columns@[columns@.len() - 1] == i);
            }
            proof {
                assert forall|j: int| 0 <= j < i && (#[trigger] chord_table@[j])@.len() > 0 implies columns@.contains(j as usize) by {
                    assert(before.contains(j as usize));
                    let x = choose|x: int| 0 <= x < before.len() && before[x] == j as usize;
                    assert(columns@[x] == j as usize);
                }
            }
            i = i + 1;
        }
        proof {
            let w = choose|w: int| 0 <= w < chord_table@.len() && (#[trigger] chord_table@[w])@.len() > 0;
            assert(columns@.contains(w as usize));
        }
        let index = self.big_decision(0, (columns.len() - 1) as u16);
        columns[index as usize]
    }
}

} // verus!
