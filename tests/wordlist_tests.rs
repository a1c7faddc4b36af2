use bip39_generator::error::BIP39Error;
use bip39_generator::wordlist::WordList;

#[test]
fn test_wordlist_size() {
    assert_eq!(WordList::english().len(), 2048);
}

#[test]
fn test_word_indices() {
    let wl = WordList::english();
    assert_eq!(wl.len(), 2048);
    assert_eq!(wl.reverse("abandon"), Some(0));
}

#[test]
fn forward_and_reverse_agree() {
    let wl = WordList::english();
    assert_eq!(wl.forward(0), "abandon");
    assert_eq!(wl.forward(3), "about");
    assert_eq!(wl.forward(2047), "zoo");
    for i in 0..2048 {
        assert_eq!(wl.reverse(wl.forward(i)), Some(i));
    }
    assert_eq!(wl.reverse("notaword"), None);
    assert_eq!(wl.reverse(""), None);
}

fn numbered(n: usize) -> Vec<String> {
    (0..n).map(|i| format!("w{}", i)).collect()
}

#[test]
fn dictionary_of_distinct_tokens_loads() {
    let wl = WordList::from_words(numbered(2048)).unwrap();
    assert_eq!(wl.reverse("w17"), Some(17));
}

#[test]
fn short_dictionary_is_refused() {
    assert!(matches!(WordList::from_words(numbered(2047)), Err(BIP39Error::WordListLoadError)));
}

#[test]
fn duplicate_word_is_refused() {
    let mut words = numbered(2048);
    words[100] = "w5".to_string();
    assert!(matches!(WordList::from_words(words), Err(BIP39Error::WordListLoadError)));
}

#[test]
fn empty_or_spaced_word_is_refused() {
    let mut words = numbered(2048);
    words[7] = String::new();
    assert!(matches!(WordList::from_words(words), Err(BIP39Error::WordListLoadError)));
    let mut words = numbered(2048);
    words[7] = "two words".to_string();
    assert!(matches!(WordList::from_words(words), Err(BIP39Error::WordListLoadError)));
}
