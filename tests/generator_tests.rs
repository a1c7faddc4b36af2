use bip39_generator::checksum::checksum_bits;
use bip39_generator::error::BIP39Error;
use bip39_generator::generator::{bits_balanced, encode, SeedPhraseGenerator};
use bip39_generator::text::{join_words, split_whitespace};
use bip39_generator::validation::SeedPhraseValidator;
use bip39_generator::wordlist::WordList;

const AMBIENT: [u8; 8] = [9, 8, 7, 6, 5, 4, 3, 2];

#[test]
fn test_generator_creation() {
    assert!(SeedPhraseGenerator::new(12).is_ok());
    assert!(SeedPhraseGenerator::new(24).is_ok());
    assert!(matches!(
        SeedPhraseGenerator::new(16),
        Err(BIP39Error::InvalidWordCount(16))
    ));
}

#[test]
fn test_12_word_generation() {
    let generator = SeedPhraseGenerator::new(12).unwrap();
    let words = generator.generate(&AMBIENT).unwrap();
    assert_eq!(words.len(), 12);
}

#[test]
fn generator_tests_test_24_word_generation() {
    let generator = SeedPhraseGenerator::new(24).unwrap();
    let words = generator.generate(&AMBIENT).unwrap();
    assert_eq!(words.len(), 24);
}

#[test]
fn test_generated_phrase_validation() {
    let generator = SeedPhraseGenerator::new(12).unwrap();
    let words = generator.generate(&AMBIENT).unwrap();
    let phrase = words.join(" ");
    assert!(SeedPhraseValidator::validate(&phrase).unwrap());
}

#[test]
fn generated_24_word_phrase_validates() {
    let generator = SeedPhraseGenerator::new(24).unwrap();
    let words = generator.generate(&[]).unwrap();
    assert!(SeedPhraseValidator::validate(&join_words(&words)).unwrap());
}

#[test]
fn generate_from_is_deterministic_and_valid() {
    let generator = SeedPhraseGenerator::new(12).unwrap();
    let a = generator.generate_from(&vec![1u8; 16], &AMBIENT).unwrap();
    let b = generator.generate_from(&vec![1u8; 16], &AMBIENT).unwrap();
    let c = generator.generate_from(&vec![2u8; 16], &AMBIENT).unwrap();
    assert_eq!(a, b);
    assert_ne!(a, c);
    assert!(SeedPhraseValidator::validate(&join_words(&a)).unwrap());
}

#[test]
fn zero_entropy_encodes_to_known_phrase() {
    let wl = WordList::english();
    let words = encode(&wl, &vec![0u8; 16]).unwrap();
    assert_eq!(
        join_words(&words),
        "abandon abandon abandon abandon abandon abandon abandon abandon abandon abandon abandon about"
    );
    assert!(SeedPhraseValidator::validate_with(&wl, &join_words(&words)).unwrap());
}

#[test]
fn known_vectors_encode() {
    let wl = WordList::english();
    let cases: [(Vec<u8>, &str); 4] = [
        (vec![0x7f; 16], "legal winner thank year wave sausage worth useful legal winner thank yellow"),
        (vec![0x80; 16], "letter advice cage absurd amount doctor acoustic avoid letter advice cage above"),
        (vec![0xff; 16], "zoo zoo zoo zoo zoo zoo zoo zoo zoo zoo zoo wrong"),
        (
            vec![0u8; 32],
            "abandon abandon abandon abandon abandon abandon abandon abandon abandon abandon abandon abandon abandon abandon abandon abandon abandon abandon abandon abandon abandon abandon abandon art",
        ),
    ];
    for (entropy, phrase) in cases {
        assert_eq!(join_words(&encode(&wl, &entropy).unwrap()), phrase);
    }
}

#[test]
fn encoded_phrases_round_trip() {
    let wl = WordList::english();
    for seed in 0u8..20 {
        let e16: Vec<u8> = (0..16u8).map(|i| i.wrapping_mul(37).wrapping_add(seed)).collect();
        let e32: Vec<u8> = (0..32u8).map(|i| i.wrapping_mul(91) ^ seed).collect();
        for e in [e16, e32] {
            let words = encode(&wl, &e).unwrap();
            assert_eq!(words.len(), e.len() * 3 / 4);
            assert!(SeedPhraseValidator::validate_with(&wl, &join_words(&words)).unwrap());
        }
    }
}

#[test]
fn bad_entropy_length_is_refused() {
    let wl = WordList::english();
    assert!(matches!(encode(&wl, &vec![0u8; 20]), Err(BIP39Error::InvalidEntropy(_))));
    assert!(matches!(encode(&wl, &vec![]), Err(BIP39Error::InvalidEntropy(_))));
}

#[test]
fn bit_balance() {
    assert!(bits_balanced(&vec![0x55u8; 10]));
    assert!(!bits_balanced(&vec![0u8; 10]));
    assert!(!bits_balanced(&vec![0xffu8; 10]));
    assert!(!bits_balanced(&vec![]));
    // 31 ones against 33 zeros: ratio 1.0645
    assert!(!bits_balanced(&vec![0x7f, 0xff, 0xff, 0xff, 0, 0, 0, 0]));
    // 32 ones against 32 zeros
    assert!(bits_balanced(&vec![0xff, 0xff, 0xff, 0xff, 0, 0, 0, 0]));
}

#[test]
fn entropy_source_check_passes_on_a_sound_generator() {
    assert!(SeedPhraseGenerator::verify_entropy_source());
}

#[test]
fn two_generators_agree_on_the_same_draw() {
    let a = SeedPhraseGenerator::new(24).unwrap();
    let b = SeedPhraseGenerator::new(24).unwrap();
    let primary = vec![0xa5u8; 32];
    assert_eq!(a.generate_from(&primary, &AMBIENT).unwrap(), b.generate_from(&primary, &AMBIENT).unwrap());
}

#[test]
fn word_distribution() {
    let w = |s: &str| split_whitespace(s);
    assert!(SeedPhraseGenerator::verify_word_distribution(&w("apple banana cherry date")));
    assert!(SeedPhraseGenerator::verify_word_distribution(&w("apple avocado banana")));
    assert!(!SeedPhraseGenerator::verify_word_distribution(&w("apple avocado apricot banana")));
    assert!(SeedPhraseGenerator::verify_word_distribution(&w("apple avocado banana cherry")));
}

#[test]
fn split_and_join() {
    assert_eq!(split_whitespace("  a\tbc \n d "), vec!["a", "bc", "d"]);
    assert_eq!(join_words(&vec!["a".to_string(), "bc".to_string()]), "a bc");
    assert_eq!(join_words(&vec![]), "");
}

#[test]
fn generator_reports_its_sizes() {
    let g12 = SeedPhraseGenerator::new(12).unwrap();
    let g24 = SeedPhraseGenerator::new(24).unwrap();
    assert_eq!((g12.word_count(), g12.entropy_len()), (12, 16));
    assert_eq!((g24.word_count(), g24.entropy_len()), (24, 32));
    assert!(matches!(SeedPhraseGenerator::new(0), Err(BIP39Error::InvalidWordCount(0))));
}

#[test]
fn checksum_of_zero_entropy() {
    // SHA-256 of sixteen zero bytes starts with 0x37
    assert_eq!(checksum_bits(&vec![0u8; 16], 4), vec![false, false, true, true]);
    assert_eq!(checksum_bits(&vec![0u8; 16], 8), vec![false, false, true, true, false, true, true, true]);
}
