use vstd::prelude::*;

use crate::text::push_char;

verus! {

/// Declares rand's thread-local generator handle so that it can appear in
/// signatures; nothing about its inside is assumed.
#[verifier::external_type_specification]
#[verifier::external_body]
pub struct ExThreadRng(rand::rngs::ThreadRng);

/// Relies on rand::thread_rng: a handle to the thread-local random generator.
/// Nothing is promised of it.
#[verifier::external_body]
fn fresh_rng() -> rand::rngs::ThreadRng {
    rand::thread_rng()
}

/// Relies on Rng::gen::<char>: one randomly drawn Unicode scalar value.
/// The result depends on the generator's state, so nothing is promised of it;
/// every char is a valid sample character.
#[verifier::external_body]
fn random_char(rng: &mut rand::rngs::ThreadRng) -> char {
    rand::Rng::gen::<char>(rng)
}

/// One sample: a string of exactly `len` randomly drawn characters.
pub fn generate_sample(len: usize) -> (s: String)
    ensures
        s@.len() == len,
{
    let mut rng = fresh_rng();
    let mut s = String::new();
    let mut i: usize = 0;
    while i < len
        invariant
            i <= len,
            s@.len() == i,
        decreases len - i,
    {
        let c = random_char(&mut rng);
        push_char(&mut s, c);
        i = i + 1;
    }
    s
}

/// The sampler: exactly `count` independent samples, each `len` characters
/// long.
pub fn sample_batch(count: usize, len: usize) -> (v: Vec<String>)
    ensures
        v@.len() == count,
        forall|i: int| 0 <= i < v@.len() ==> (#[trigger] v@[i])@.len() == len,
{
    let mut v: Vec<String> = Vec::new();
    let mut i: usize = 0;
    while i < count
        invariant
            i <= count,
            v@.len() == i,
            forall|k: int| 0 <= k < v@.len() ==> (#[trigger] v@[k])@.len() == len,
        decreases count - i,
    {
        let s = generate_sample(len);
        v.push(s);
        i = i + 1;
    }
    v
}

} // verus!
