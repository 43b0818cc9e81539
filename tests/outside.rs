use rand::rngs::StdRng;
use rand::{RngCore, SeedableRng};
use sha2::{Digest, Sha256};

fn hash(data: &[u8]) -> [u8; 32] {
    let hash = Sha256::digest(data);
    let mut bytes = [0u8; 32];
    bytes.copy_from_slice(&hash);
    bytes
}

#[test]
fn hashing_demo() {
    let file_input = "some file's contents";
    let text_input = "write a chord progression about being lost at voodoo";
    let vibe_input = "4";

    let concatenated = format!("{}{}{}", file_input, text_input, vibe_input);

    let mut rng = StdRng::from_seed(hash(concatenated.as_bytes()));

    assert_eq!(rng.next_u32(), 430701571);
    assert_eq!(rng.next_u32(), 4153666748);
    assert_eq!(rng.next_u32(), 3817228526);
    assert_eq!(rng.next_u32(), 59595166);
}

#[test]
fn initializing_rng() {
    let data = b"abcdef";
    let hash = Sha256::digest(data);
    assert_eq!(hash.len(), 32);

    let mut seed = [0u8; 32];
    seed.copy_from_slice(&hash);
    let mut _rng = StdRng::from_seed(seed);
}
