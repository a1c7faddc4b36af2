use vstd::prelude::*;
use vstd::string::StrSliceExecFns;

use crate::error::BIP39Error;
use crate::text::{is_token, is_whitespace, is_ws, strings_view};

verus! {

/// The number of words in a dictionary.
pub const WORD_COUNT: usize = 2048;

/// A dictionary: exactly 2048 words, each a non-empty token, no two alike.
pub open spec fn valid_dictionary(d: Seq<Seq<char>>) -> bool {
    &&& d.len() == WORD_COUNT
    &&& forall|i: int| 0 <= i < d.len() ==> is_token(#[trigger] d[i])
    &&& forall|i: int, j: int| 0 <= i < d.len() && 0 <= j < d.len() && i != j ==> d[i] != d[j]
}

/// The position of `w` in `d`, if it is there.
pub open spec fn word_index(d: Seq<Seq<char>>, w: Seq<char>) -> Option<nat> {
    if exists|i: int| 0 <= i < d.len() && d[i] == w {
        Some((choose|i: int| 0 <= i < d.len() && d[i] == w) as nat)
    } else {
        None
    }
}

/// In a dictionary, the position of the word at `i` is `i`.
pub proof fn lemma_word_index(d: Seq<Seq<char>>, i: int)
    requires
        valid_dictionary(d),
        0 <= i < d.len(),
    ensures
        word_index(d, d[i]) == Some(i as nat),
{
    assert(exists|k: int| 0 <= k < d.len() && d[k] == d[i]);
}

/// Every position of a dictionary is found again from its word, and every word is
/// a non-empty token that no other position holds.
pub proof fn lemma_dictionary_integrity(wl: WordList)
    requires
        wl.wf(),
    ensures
        wl@.len() == 2048,
        forall|i: int| 0 <= i < 2048 ==> is_token(#[trigger] wl@[i]) && wl@[i].len() > 0,
        forall|i: int, j: int| 0 <= i < 2048 && 0 <= j < 2048 && i != j ==> wl@[i] != wl@[j],
        forall|i: int| 0 <= i < 2048 ==> word_index(wl@, #[trigger] wl@[i]) == Some(i as nat),
{
    assert forall|i: int| 0 <= i < 2048 implies word_index(wl@, #[trigger] wl@[i]) == Some(
        i as nat,
    ) by {
        lemma_word_index(wl@, i);
    }
}

/// The languages whose dictionary the library can load.
pub enum Language {
    English,
}

/// The dictionary of `lang`, position by position.
pub uninterp spec fn dictionary_of(lang: Language) -> Seq<Seq<char>>;

/// The English dictionary.
pub open spec fn english_dictionary() -> Seq<Seq<char>> {
    dictionary_of(Language::English)
}

/// Relies on bip39's `Language::word_list`: a constant array of 2048 distinct, non-empty,
/// lowercase ASCII words (the crate's own tests check that the English list is sorted,
/// hence distinct).
#[verifier::external_body]
fn word_list(lang: Language) -> (r: Vec<String>)
    ensures
        strings_view(r@) == dictionary_of(lang),
        valid_dictionary(strings_view(r@)),
{
    let lang = match lang {
        Language::English => bip39::Language::English,
    };
    lang.word_list().iter().map(|w| w.to_string()).collect()
}

/// The fixed vocabulary and its inverse lookup.
pub struct WordList {
    words: Vec<String>,
}

impl View for WordList {
    type V = Seq<Seq<char>>;

    closed spec fn view(&self) -> Seq<Seq<char>> {
        strings_view(self.words@)
    }
}

/// Whether `s` is a non-empty run of non-whitespace characters.
fn check_token(s: &str) -> (r: bool)
    ensures
        r == is_token(s@),
{
    let n = s.unicode_len();
    if n == 0 {
        return false;
    }
    let mut i: usize = 0;
    while i < n
        invariant
            n == s@.len(),
            i <= n,
            forall|j: int| 0 <= j < i ==> !is_ws(#[trigger] s@[j]),
        decreases n - i,
    {
        if is_whitespace(s.get_char(i)) {
            return false;
        }
        i = i + 1;
    }
    true
}

impl WordList {
    /// The list is a dictionary.
    pub open spec fn wf(&self) -> bool {
        valid_dictionary(self@)
    }

    /// Takes `words` as the dictionary, position by position, if they are exactly
    /// 2048 non-empty tokens with no two alike.
    pub fn from_words(words: Vec<String>) -> (r: Result<WordList, BIP39Error>)
        ensures
            match r {
                Ok(wl) => valid_dictionary(strings_view(words@)) && wl@ == strings_view(words@),
                Err(e) => !valid_dictionary(strings_view(words@)) && e
                    == BIP39Error::WordListLoadError,
            },
    {
        let ghost d = strings_view(words@);
        if words.len() != WORD_COUNT {
            return Err(BIP39Error::WordListLoadError);
        }
        let mut i: usize = 0;
        while i < words.len()
            invariant
                d == strings_view(words@),
                d.len() == WORD_COUNT,
                i <= d.len(),
                forall|a: int| 0 <= a < i ==> is_token(#[trigger] d[a]),
                forall|a: int, b: int| 0 <= a < i && 0 <= b < i && a != b ==> d[a] != d[b],
            decreases d.len() - i,
        {
            if !check_token(words[i].as_str()) {
                assert(d[i as int] == words@[i as int]@);
                return Err(BIP39Error::WordListLoadError);
            }
            let mut j: usize = 0;
            while j < i
                invariant
                    d == strings_view(words@),
                    d.len() == WORD_COUNT,
                    j <= i < d.len(),
                    forall|b: int| 0 <= b < j ==> d[b] != d[i as int],
                decreases i - j,
            {
                if words[j] == words[i] {
                    assert(d[j as int] == d[i as int]);
                    return Err(BIP39Error::WordListLoadError);
                }
                j = j + 1;
            }
            i = i + 1;
        }
        Ok(WordList { words })
    }

    /// The English BIP39 dictionary.
    pub fn english() -> (r: WordList)
        ensures
            r.wf(),
            r@ == english_dictionary(),
    {
        WordList { words: word_list(Language::English) }
    }

    /// The number of words.
    pub fn len(&self) -> (r: usize)
        ensures
            r == self@.len(),
    {
        self.words.len()
    }

    /// The word at position `index`.
    pub fn forward(&self, index: usize) -> (r: &String)
        requires
            index < self@.len(),
        ensures
            r@ == self@[index as int],
    {
        &self.words[index]
    }

    /// The position of `word`, if it is in the list.
    pub fn reverse(&self, word: &str) -> (r: Option<usize>)
        requires
            self.wf(),
        ensures
            r matches Some(i) ==> i < self@.len() && self@[i as int] == word@,
            r is None ==> forall|i: int| 0 <= i < self@.len() ==> self@[i] != word@,
            match word_index(self@, word@) {
                Some(i) => r == Some(i as usize),
                None => r is None,
            },
    {
        let w = word.to_owned();
        let mut i: usize = 0;
        while i < self.words.len()
            invariant
                self.wf(),
                w@ == word@,
                i <= self@.len(),
                forall|k: int| 0 <= k < i ==> self@[k] != word@,
            decreases self@.len() - i,
        {
            if self.words[i] == w {
                proof {
                    lemma_word_index(self@, i as int);
                }
                return Some(i);
            }
            i = i + 1;
        }
        None
    }
}

} // verus!
