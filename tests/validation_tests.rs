use bip39_generator::error::BIP39Error;
use bip39_generator::validation::SeedPhraseValidator;
use bip39_generator::wordlist::WordList;

const ZERO_12: &str = "abandon abandon abandon abandon abandon abandon abandon abandon abandon abandon abandon about";

#[test]
fn test_valid_12_word_phrase() {
    let phrase = "abandon abandon abandon abandon abandon abandon abandon abandon abandon abandon abandon about";
    assert!(SeedPhraseValidator::validate(phrase).unwrap());
}

#[test]
fn test_invalid_word() {
    let phrase = "abandon abandon abandon abandon abandon invalid abandon abandon abandon abandon abandon about";
    assert!(matches!(
        SeedPhraseValidator::validate(phrase),
        Err(BIP39Error::WordListError(_))
    ));
}

#[test]
fn validation_test_invalid_word_count() {
    let phrase = "abandon abandon abandon";
    assert!(matches!(
        SeedPhraseValidator::validate(phrase),
        Err(BIP39Error::InvalidWordCount(_))
    ));
}

#[test]
fn fifteen_words_is_a_word_count_error() {
    let phrase = vec!["abandon"; 15].join(" ");
    assert!(matches!(
        SeedPhraseValidator::validate(&phrase),
        Err(BIP39Error::InvalidWordCount(15))
    ));
}

#[test]
fn word_count_is_checked_before_words() {
    let phrase = "notaword notaword notaword";
    assert!(matches!(
        SeedPhraseValidator::validate(phrase),
        Err(BIP39Error::InvalidWordCount(3))
    ));
}

#[test]
fn empty_phrase_has_no_words() {
    assert!(matches!(
        SeedPhraseValidator::validate("   "),
        Err(BIP39Error::InvalidWordCount(0))
    ));
}

#[test]
fn unknown_word_is_named() {
    let phrase = "abandon abandon abandon abandon abandon invalid abandon abandon abandon abandon abandon about";
    match SeedPhraseValidator::validate(phrase) {
        Err(BIP39Error::WordListError(w)) => assert_eq!(w, "Invalid word: invalid"),
        other => panic!("unexpected {:?}", other),
    }
}

#[test]
fn first_unknown_word_is_named() {
    let phrase = "abandon frist abandon abandon abandon secnd abandon abandon abandon abandon abandon about";
    match SeedPhraseValidator::validate(phrase) {
        Err(BIP39Error::WordListError(w)) => assert_eq!(w, "Invalid word: frist"),
        other => panic!("unexpected {:?}", other),
    }
}

#[test]
fn zero_vector_with_wrong_last_word_fails_checksum() {
    let phrase = vec!["abandon"; 12].join(" ");
    assert_eq!(SeedPhraseValidator::validate(&phrase).unwrap(), false);
}

#[test]
fn other_whitespace_separates_words() {
    let phrase = ZERO_12.replace(' ', " \t\n ");
    assert!(SeedPhraseValidator::validate(&format!("  {}\n", phrase)).unwrap());
}

#[test]
fn valid_24_word_phrase() {
    let mut words = vec!["abandon"; 23];
    words.push("art");
    assert!(SeedPhraseValidator::validate(&words.join(" ")).unwrap());
}

#[test]
fn known_vectors_validate() {
    let wl = WordList::english();
    for phrase in [
        "legal winner thank year wave sausage worth useful legal winner thank yellow",
        "letter advice cage absurd amount doctor acoustic avoid letter advice cage above",
        "zoo zoo zoo zoo zoo zoo zoo zoo zoo zoo zoo wrong",
    ] {
        assert!(SeedPhraseValidator::validate_with(&wl, phrase).unwrap());
    }
    assert!(!SeedPhraseValidator::validate_with(&wl, "zoo zoo zoo zoo zoo zoo zoo zoo zoo zoo zoo zoo").unwrap());
}

#[test]
fn indices_to_entropy_of_zero_vector() {
    let mut indices = vec![0usize; 11];
    indices.push(3);
    assert_eq!(SeedPhraseValidator::indices_to_entropy(&indices), vec![0u8; 16]);
}

#[test]
fn indices_to_entropy_of_ones() {
    let indices = vec![2047usize; 12];
    assert_eq!(SeedPhraseValidator::indices_to_entropy(&indices), vec![0xffu8; 16]);
}

#[test]
fn flipped_checksum_bit_fails() {
    let wl = WordList::english();
    // "about" is position 3; its low four bits are the checksum of the zero vector
    for k in 0..4usize {
        let mut words = vec!["abandon"; 11];
        let flipped = wl.forward(3 ^ (1 << k)).clone();
        words.push(&flipped);
        assert_eq!(SeedPhraseValidator::validate_with(&wl, &words.join(" ")).unwrap(), false);
    }
}
