use rand::rngs::StdRng;
use rand::SeedableRng;
use stv_tally::token::{alphabet_char, generate_token, token_from_indices, TOKEN_LENGTH};

const ALPHABET: &str = "0123456789abcdefghijklmnopqrstuvxyz";

#[test]
fn alphabet_matches_the_token_charset() {
    let spelled: String = (0..35).map(alphabet_char).collect();
    assert_eq!(spelled, ALPHABET);
}

#[test]
fn token_is_spelled_from_indices() {
    assert_eq!(token_from_indices(&vec![0, 9, 10, 31, 32, 34]), "09avxz");
    assert_eq!(token_from_indices(&vec![]), "");
}

#[test]
fn generated_token_has_fixed_length_and_alphabet() {
    let mut rng = StdRng::seed_from_u64(5);
    for _ in 0..20 {
        let t = generate_token(&mut rng);
        assert_eq!(t.chars().count(), TOKEN_LENGTH);
        assert!(t.chars().all(|c| ALPHABET.contains(c)));
    }
}
