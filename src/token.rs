//! Voter tokens: short random strings over a fixed alphabet.

use vstd::prelude::*;
use rand::rngs::StdRng;
use rand::Rng;

verus! {

/// The number of characters in a voter token.
pub const TOKEN_LENGTH: usize = 9;

/// The number of characters in the token alphabet.
pub const ALPHABET_SIZE: usize = 35;

/// The token alphabet, in order: the ten digits, then the lower-case letters
/// without `w`.
pub open spec fn token_char(i: int) -> char {
    if i < 10 {
        ('0' as int + i) as char
    } else if i < 32 {
        ('a' as int + (i - 10)) as char
    } else {
        ('x' as int + (i - 32)) as char
    }
}

/// `c` belongs to the token alphabet.
pub open spec fn is_token_char(c: char) -> bool {
    exists|i: int| 0 <= i < ALPHABET_SIZE && c == token_char(i)
}

/// Letter `i` of the token alphabet.
pub fn alphabet_char(i: usize) -> (c: char)
    requires
        i < ALPHABET_SIZE,
    ensures
        c == token_char(i as int),
{
    let code: u8 = if i < 10 {
        48 + i as u8
    } else if i < 32 {
        97 + (i - 10) as u8
    } else {
        120 + (i - 32) as u8
    };
    code as char
}

/// The token spelled by `indices` in the token alphabet.
pub fn token_from_indices(indices: &Vec<usize>) -> (r: String)
    requires
        forall|k: int| 0 <= k < indices@.len() ==> indices@[k] < ALPHABET_SIZE,
    ensures
        r@ == Seq::new(indices@.len(), |k: int| token_char(indices@[k] as int)),
{
    let mut chars: Vec<char> = Vec::new();
    let mut k: usize = 0;
    while k < indices.len()
        invariant
            k <= indices@.len(),
            forall|j: int| 0 <= j < indices@.len() ==> indices@[j] < ALPHABET_SIZE,
            chars@ =~= Seq::new(k as nat, |j: int| token_char(indices@[j] as int)),
        decreases indices@.len() - k,
    {
        chars.push(alphabet_char(indices[k]));
        k = k + 1;
    }
    string_of(&chars)
}

/// Relies on `String`'s `FromIterator<char>`: the characters in order.
#[verifier::external_body]
fn string_of(chars: &Vec<char>) -> (r: String)
    ensures
        r@ == chars@,
{
    chars.iter().collect()
}

/// Relies on rand's `Rng::gen_range`: a value of the half-open range
/// `0..n`, which must not be empty.
#[verifier::external_body]
fn index_below(rng: &mut StdRng, n: usize) -> (r: usize)
    requires
        n > 0,
    ensures
        r < n,
{
    rng.gen_range(0..n)
}

/// A fresh voter token of `TOKEN_LENGTH` characters drawn from `rng`.
pub fn generate_token(rng: &mut StdRng) -> (r: String)
    ensures
        r@.len() == TOKEN_LENGTH,
        forall|k: int| 0 <= k < r@.len() ==> is_token_char(#[trigger] r@[k]),
{
    let mut indices: Vec<usize> = Vec::new();
    let mut k: usize = 0;
    while k < TOKEN_LENGTH
        invariant
            k <= TOKEN_LENGTH,
            indices@.len() == k,
            forall|j: int| 0 <= j < k ==> indices@[j] < ALPHABET_SIZE,
        decreases TOKEN_LENGTH - k,
    {
        indices.push(index_below(rng, ALPHABET_SIZE));
        k = k + 1;
    }
    let r = token_from_indices(&indices);
    assert forall|k: int| 0 <= k < r@.len() implies is_token_char(#[trigger] r@[k]) by {
        assert(r@[k] == token_char(indices@[k] as int));
    }
    r
}

} // verus!
