//! Display colours for tokens: one drawn at random per token of a vocabulary.

use rand::Rng;
use vstd::prelude::*;
use vstd::utf8::encode_utf8;

verus! {

/// A colour as red, green and blue.
pub type Colour = (u8, u8, u8);

/// The thread-local generator of the rand crate. Nothing is said of its state.
#[verifier::external_type_specification]
#[verifier::external_body]
pub struct ExThreadRng(rand::rngs::ThreadRng);

/// `rand::thread_rng`: a handle on the calling thread's generator, which the
/// system seeds. Nothing is claimed of the handle.
pub assume_specification[ rand::thread_rng ]() -> (rng: rand::rngs::ThreadRng)
;

/// `Rng::gen_range` over the whole of `u8`: the range is never empty, so the
/// call returns, and any byte may come back.
#[verifier::external_body]
fn random_byte(rng: &mut rand::rngs::ThreadRng) -> (b: u8) {
    rng.gen_range(0..=255)
}

/// One colour for each of `n` tokens, every channel drawn at random.
pub fn random_colours(n: usize) -> (colours: Vec<Colour>)
    ensures
        colours.len() == n,
{
    let mut rng = rand::thread_rng();
    let mut colours: Vec<Colour> = Vec::new();
    let mut i: usize = 0;
    while i < n
        invariant
            i <= n,
            colours.len() == i,
        decreases n - i,
    {
        let r = random_byte(&mut rng);
        let g = random_byte(&mut rng);
        let b = random_byte(&mut rng);
        colours.push((r, g, b));
        i += 1;
    }
    colours
}

/// The hash of the first `n` bytes: each byte is added to 37 times the hash
/// of the bytes before it, and what does not fit in 32 bits is dropped.
pub open spec fn hash_upto(bytes: Seq<u8>, n: int) -> u32
    decreases n,
{
    if n <= 0 {
        0
    } else {
        ((hash_upto(bytes, n - 1) * 37 + bytes[n - 1]) % 0x1_0000_0000) as u32
    }
}

/// The hash of a text: that of the bytes of its UTF-8 encoding.
pub open spec fn text_hash(text: Seq<char>) -> u32 {
    hash_upto(encode_utf8(text), encode_utf8(text).len() as int)
}

/// The colour of a hash: its three lowest bytes as red, green and blue.
pub open spec fn hash_colour(hash: u32) -> Colour {
    (((hash / 0x1_0000) % 0x100) as u8, ((hash / 0x100) % 0x100) as u8, (hash % 0x100) as u8)
}

/// The hash of a token text.
pub fn token_hash(token: &str) -> (hash: u32)
    ensures
        hash == text_hash(token@),
{
    let bytes = token.as_bytes();
    let mut hash: u32 = 0;
    let mut i: usize = 0;
    while i < bytes.len()
        invariant
            i <= bytes.len(),
            bytes@ == encode_utf8(token@),
            hash == hash_upto(bytes@, i as int),
        decreases bytes.len() - i,
    {
        hash = hash.wrapping_mul(37).wrapping_add(bytes[i] as u32);
        i += 1;
    }
    hash
}

/// The colour that a token text has by its hash alone. The same text has the
/// same colour every time.
pub fn base_colour(token: &str) -> (colour: Colour)
    ensures
        colour == hash_colour(text_hash(token@)),
{
    let hash = token_hash(token);
    let r = ((hash & 0xFF0000) >> 16) as u8;
    let g = ((hash & 0x00FF00) >> 8) as u8;
    let b = (hash & 0x0000FF) as u8;
    assert(((hash & 0xFF0000) >> 16) == (hash / 0x1_0000) % 0x100) by (bit_vector);
    assert(((hash & 0x00FF00) >> 8) == (hash / 0x100) % 0x100) by (bit_vector);
    assert((hash & 0x0000FF) == hash % 0x100) by (bit_vector);
    (r, g, b)
}

} // verus!
