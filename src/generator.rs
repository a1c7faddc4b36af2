use rand::RngCore;
use vstd::prelude::*;

use crate::bits::{
    byte_values, concat_bits, group_values, lemma_concat_len, lemma_two_pow_small, pack_groups,
    push_bits,
};
use crate::checksum::{checksum_bits, checksum_spec, sha256, sha256_of};
use crate::error::{BIP39Error, Result};
use crate::text::{join_ws, strings_view};
use crate::validation::{lemma_round_trip, validate_spec, PhraseFault};
use crate::wordlist::{english_dictionary, WordList};

verus! {

/// Entropy lengths that have a mnemonic: 16 bytes (12 words) or 32 bytes (24 words).
pub open spec fn valid_entropy_len(n: nat) -> bool {
    n == 16 || n == 32
}

/// The number of checksum bits for `n` bytes of entropy.
pub open spec fn checksum_len(n: nat) -> nat {
    n / 4
}

/// The number of words for `n` bytes of entropy.
pub open spec fn word_count_for(n: nat) -> nat {
    (8 * n + checksum_len(n)) / 11
}

/// The entropy's bits followed by its checksum bits.
pub open spec fn entropy_stream(e: Seq<u8>) -> Seq<bool> {
    concat_bits(byte_values(e), 8) + checksum_spec(e, checksum_len(e.len()))
}

/// The word positions that encode `e`: the stream read as 11-bit groups.
pub open spec fn mnemonic_indices(e: Seq<u8>) -> Seq<nat> {
    group_values(entropy_stream(e), 11, word_count_for(e.len()))
}

/// The mnemonic of `e` over dictionary `d`.
pub open spec fn encode_spec(d: Seq<Seq<char>>, e: Seq<u8>) -> Seq<Seq<char>> {
    mnemonic_indices(e).map_values(|i: nat| d[i as int])
}

/// The entropy drawn for a phrase: the first `n` bytes of the SHA-256 digest of the
/// primary bytes followed by the ambient sample.
pub open spec fn mix_spec(primary: Seq<u8>, ambient: Seq<u8>, n: nat) -> Seq<u8> {
    sha256_of(primary + ambient).take(n as int)
}

/// Encodes `entropy` as a mnemonic over `wordlist`.
pub fn encode(wordlist: &WordList, entropy: &Vec<u8>) -> (r: Result<Vec<String>>)
    requires
        wordlist.wf(),
    ensures
        match r {
            Ok(ws) => {
                &&& valid_entropy_len(entropy@.len())
                &&& strings_view(ws@) == encode_spec(wordlist@, entropy@)
                &&& ws@.len() == (if entropy@.len() == 16 { 12nat } else { 24nat })
                &&& forall|i: int| 0 <= i < ws@.len() ==> wordlist@.contains(#[trigger] ws@[i]@)
            },
            Err(e) => !valid_entropy_len(entropy@.len()) && e is InvalidEntropy,
        },
{
    let n = entropy.len();
    if n != 16 && n != 32 {
        return Err(BIP39Error::InvalidEntropy("entropy must be 16 or 32 bytes".to_owned()));
    }
    let cs = n / 4;
    let ghost bv = byte_values(entropy@);
    let mut bits: Vec<bool> = Vec::new();
    let mut i: usize = 0;
    while i < n
        invariant
            n == entropy@.len(),
            bv == byte_values(entropy@),
            i <= n,
            bits@ == concat_bits(bv.take(i as int), 8),
        decreases n - i,
    {
        assert(bv.take(i + 1).drop_last() =~= bv.take(i as int));
        push_bits(&mut bits, entropy[i] as usize, 8);
        i = i + 1;
    }
    assert(bv.take(n as int) =~= bv);
    let check = checksum_bits(entropy, cs);
    proof {
        crate::bits::lemma_to_bits_len(sha256_of(entropy@)[0] as nat, 8);
    }
    let ghost head = bits@;
    let mut j: usize = 0;
    while j < cs
        invariant
            cs <= 8,
            check@.len() == cs,
            j <= cs,
            bits@ == head + check@.take(j as int),
        decreases cs - j,
    {
        bits.push(check[j]);
        j = j + 1;
        assert(bits@ =~= head + check@.take(j as int));
    }
    assert(check@.take(cs as int) =~= check@);
    proof {
        lemma_concat_len(bv, 8);
        lemma_two_pow_small();
    }
    assert(bits@ == entropy_stream(entropy@));
    let count: usize = (8 * n + cs) / 11;
    let idx = pack_groups(&bits, 11, count);
    assert(idx@.map_values(|x: usize| x as nat).len() == count);
    let mut words: Vec<String> = Vec::new();
    let mut k: usize = 0;
    while k < count
        invariant
            wordlist.wf(),
            idx@.len() == count,
            count == word_count_for(entropy@.len()),
            idx@.map_values(|x: usize| x as nat) == mnemonic_indices(entropy@),
            forall|t: int| 0 <= t < count ==> idx@[t] < 2048,
            k <= count,
            strings_view(words@) == encode_spec(wordlist@, entropy@).take(k as int),
            forall|t: int| 0 <= t < k ==> wordlist@.contains(#[trigger] words@[t]@),
        decreases count - k,
    {
        let w = wordlist.forward(idx[k]).clone();
        let ghost pos = idx@[k as int] as int;
        let ghost prev = words@;
        words.push(w);
        assert(idx@.map_values(|x: usize| x as nat)[k as int] == idx@[k as int] as nat);
        assert(mnemonic_indices(entropy@)[k as int] == idx@[k as int] as nat);
        assert(encode_spec(wordlist@, entropy@)[k as int] == wordlist@[pos]);
        assert(strings_view(words@) =~= strings_view(prev).push(w@));
        assert(strings_view(words@) =~= encode_spec(wordlist@, entropy@).take(k + 1));
        assert(wordlist@[pos] == w@);
        assert(wordlist@.contains(words@[k as int]@));
        k = k + 1;
    }
    assert(encode_spec(wordlist@, entropy@).take(count as int) =~= encode_spec(
        wordlist@,
        entropy@,
    ));
    Ok(words)
}

/// Relies on rand's `OsRng` (`RngCore::try_fill_bytes`): `n` bytes from the operating
/// system's generator, or `None` where that generator reports an error.
#[verifier::external_body]
fn os_random_bytes(n: usize) -> (r: Option<Vec<u8>>)
    ensures
        r matches Some(b) ==> b@.len() == n,
{
    let mut buf = vec![0u8; n];
    match rand::rngs::OsRng.try_fill_bytes(&mut buf) {
        Ok(()) => Some(buf),
        Err(_) => None,
    }
}

/// The number of set bits among the `k` low bits of `x`.
pub open spec fn ones_in(x: nat, k: nat) -> nat
    decreases k,
{
    if k == 0 {
        0
    } else {
        x % 2 + ones_in(x / 2, (k - 1) as nat)
    }
}

/// The number of set bits over all sampled bytes.
pub open spec fn ones_total(s: Seq<u8>) -> nat
    decreases s.len(),
{
    if s.len() == 0 {
        0
    } else {
        ones_total(s.drop_last()) + ones_in(s.last() as nat, 8)
    }
}

/// Whether the ratio of zero bits to one bits over all sampled bytes lies in [0.95, 1.05].
pub open spec fn bits_balanced_spec(s: Seq<u8>) -> bool {
    let ones = ones_total(s);
    let zeros = 8 * s.len() - ones;
    ones > 0 && 100 * zeros >= 95 * ones && 100 * zeros <= 105 * ones
}

proof fn lemma_ones_in_bound(x: nat, k: nat)
    ensures
        ones_in(x, k) <= k,
    decreases k,
{
    if k > 0 {
        lemma_ones_in_bound(x / 2, (k - 1) as nat);
    }
}

/// The number of set bits of `x`.
fn count_ones(x: u8) -> (r: u8)
    ensures
        r == ones_in(x as nat, 8),
        r <= 8,
{
    let mut v: u8 = x;
    let mut c: u8 = 0;
    let mut i: u8 = 0;
    while i < 8
        invariant
            i <= 8,
            c + ones_in(v as nat, (8 - i) as nat) == ones_in(x as nat, 8),
            c <= i,
        decreases 8 - i,
    {
        proof {
            lemma_ones_in_bound(v as nat, (8 - i) as nat);
        }
        c = c + v % 2;
        v = v / 2;
        i = i + 1;
    }
    c
}

/// The number of first letters that any one letter may take in a phrase of `n` words.
pub open spec fn distribution_cap(n: nat) -> nat {
    (n + 1) / 2
}

/// The number of words in `ws` whose first character is `c`.
pub open spec fn first_char_count(ws: Seq<Seq<char>>, c: char) -> nat
    decreases ws.len(),
{
    if ws.len() == 0 {
        0
    } else {
        first_char_count(ws.drop_last(), c) + (if ws.last()[0] == c { 1nat } else { 0nat })
    }
}

/// No first character starts more than half of the words, rounded up.
pub open spec fn distribution_ok(ws: Seq<Seq<char>>) -> bool {
    forall|i: int|
        0 <= i < ws.len() ==> first_char_count(ws, #[trigger] ws[i][0]) <= distribution_cap(
            ws.len(),
        )
}

proof fn lemma_first_char_count_bound(ws: Seq<Seq<char>>, c: char)
    ensures
        first_char_count(ws, c) <= ws.len(),
    decreases ws.len(),
{
    if ws.len() > 0 {
        lemma_first_char_count_bound(ws.drop_last(), c);
    }
}

/// The phrase generator, for 12 or 24 words over the English dictionary.
pub struct SeedPhraseGenerator {
    word_count: u8,
    wordlist: WordList,
}

impl SeedPhraseGenerator {
    #[verifier::type_invariant]
    closed spec fn inv(&self) -> bool {
        &&& (self.word_count == 12 || self.word_count == 24)
        &&& self.wordlist.wf()
        &&& self.wordlist@ == english_dictionary()
    }

    /// The number of words in each generated phrase.
    pub closed spec fn words_per_phrase(&self) -> u8 {
        self.word_count
    }

    /// A generator of English phrases of `word_count` words, which must be 12 or 24.
    pub fn new(word_count: u8) -> (r: Result<Self>)
        ensures
            match r {
                Ok(g) => (word_count == 12 || word_count == 24) && g.words_per_phrase()
                    == word_count,
                Err(e) => word_count != 12 && word_count != 24 && e == BIP39Error::InvalidWordCount(
                    word_count,
                ),
            },
    {
        if word_count != 12 && word_count != 24 {
            return Err(BIP39Error::InvalidWordCount(word_count));
        }
        Ok(SeedPhraseGenerator { word_count, wordlist: WordList::english() })
    }

    /// The number of words in each generated phrase.
    pub fn word_count(&self) -> (r: u8)
        ensures
            r == self.words_per_phrase(),
            r == 12 || r == 24,
    {
        proof {
            use_type_invariant(self);
        }
        self.word_count
    }

    /// The number of entropy bytes behind each phrase: 16 for 12 words, 32 for 24.
    pub fn entropy_len(&self) -> (r: usize)
        ensures
            r == (if self.words_per_phrase() == 12 { 16usize } else { 32usize }),
    {
        if self.word_count == 12 {
            16
        } else {
            32
        }
    }

    /// The phrase for the given primary random bytes and ambient sample: the
    /// mnemonic of their mix.
    pub fn generate_from(&self, primary: &Vec<u8>, ambient: &[u8]) -> (r: Result<Vec<String>>)
        ensures
            r matches Ok(ws) && strings_view(ws@) == encode_spec(
                english_dictionary(),
                mix_spec(primary@, ambient@, if self.words_per_phrase() == 12 { 16 } else { 32 }),
            ) && ws@.len() == self.words_per_phrase() && (forall|i: int|
                0 <= i < ws@.len() ==> english_dictionary().contains(#[trigger] ws@[i]@))
                && validate_spec(english_dictionary(), join_ws(strings_view(ws@)))
                == core::result::Result::<bool, PhraseFault>::Ok(true),
    {
        proof {
            use_type_invariant(self);
        }
        let n = self.entropy_len();
        let mut input: Vec<u8> = primary.clone();
        let mut t: usize = 0;
        let ghost p = input@;
        assert(p == primary@);
        while t < ambient.len()
            invariant
                p == primary@,
                t <= ambient@.len(),
                input@ == p + ambient@.take(t as int),
            decreases ambient@.len() - t,
        {
            input.push(ambient[t]);
            t = t + 1;
            assert(input@ =~= p + ambient@.take(t as int));
        }
        assert(ambient@.take(ambient@.len() as int) =~= ambient@);
        let digest = sha256(input.as_slice());
        let mut entropy: Vec<u8> = Vec::new();
        let mut k: usize = 0;
        while k < n
            invariant
                n <= 32,
                digest@.len() == 32,
                k <= n,
                entropy@ == digest@.take(k as int),
            decreases n - k,
        {
            entropy.push(digest[k]);
            k = k + 1;
            assert(entropy@ =~= digest@.take(k as int));
        }
        proof {
            lemma_round_trip(self.wordlist@, entropy@);
        }
        encode(&self.wordlist, &entropy)
    }

    /// A fresh phrase: primary bytes from the operating system's generator, mixed
    /// with the ambient sample. Fails with `IoError` only where that generator
    /// reports an error.
    pub fn generate(&self, ambient: &[u8]) -> (r: Result<Vec<String>>)
        ensures
            match r {
                Ok(ws) => {
                    &&& ws@.len() == self.words_per_phrase()
                    &&& forall|i: int|
                        0 <= i < ws@.len() ==> english_dictionary().contains(#[trigger] ws@[i]@)
                    &&& validate_spec(english_dictionary(), join_ws(strings_view(ws@)))
                        == core::result::Result::<bool, PhraseFault>::Ok(true)
                    &&& exists|primary: Seq<u8>|
                        primary.len() == (if self.words_per_phrase() == 12 { 16nat } else { 32nat })
                            && strings_view(ws@) == encode_spec(
                            english_dictionary(),
                            mix_spec(
                                primary,
                                ambient@,
                                if self.words_per_phrase() == 12 { 16 } else { 32 },
                            ),
                        )
                },
                Err(e) => e is IoError,
            },
    {
        match os_random_bytes(self.entropy_len()) {
            Some(primary) => self.generate_from(&primary, ambient),
            None => Err(BIP39Error::IoError("the operating system's generator failed".to_owned())),
        }
    }

    /// A coarse self-check of the operating system's generator: 8000 bytes (64000
    /// bits) drawn, and whether their zero and one bits are balanced within five
    /// percent. A failed draw counts as a failed check.
    pub fn verify_entropy_source() -> (r: bool)
        ensures
            r ==> exists|s: Seq<u8>| s.len() == 8000 && bits_balanced_spec(s),
    {
        match os_random_bytes(8000) {
            Some(samples) => bits_balanced(&samples),
            None => false,
        }
    }

    /// Whether no first character starts more than half of `words`, rounded up.
    pub fn verify_word_distribution(words: &Vec<String>) -> (r: bool)
        requires
            forall|i: int| 0 <= i < words@.len() ==> (#[trigger] words@[i])@.len() > 0,
        ensures
            r == distribution_ok(strings_view(words@)),
    {
        let ghost ws = strings_view(words@);
        let n = words.len();
        let cap = (n / 2) + (n % 2);
        assert(cap == distribution_cap(n as nat));
        let mut i: usize = 0;
        while i < n
            invariant
                ws == strings_view(words@),
                n == ws.len(),
                cap == distribution_cap(n as nat),
                forall|t: int| 0 <= t < words@.len() ==> (#[trigger] words@[t])@.len() > 0,
                i <= n,
                forall|t: int|
                    0 <= t < i ==> first_char_count(ws, #[trigger] ws[t][0]) <= distribution_cap(
                        n as nat,
                    ),
            decreases n - i,
        {
            assert(ws[i as int] == words@[i as int]@);
            let c = words[i].as_str().get_char(0);
            let mut count: usize = 0;
            let mut j: usize = 0;
            while j < n
                invariant
                    ws == strings_view(words@),
                    n == ws.len(),
                    forall|t: int| 0 <= t < words@.len() ==> (#[trigger] words@[t])@.len() > 0,
                    j <= n,
                    count == first_char_count(ws.take(j as int), c),
                decreases n - j,
            {
                assert(ws.take(j + 1).drop_last() =~= ws.take(j as int));
                assert(ws[j as int] == words@[j as int]@);
                proof {
                    lemma_first_char_count_bound(ws.take(j as int), c);
                }
                if words[j].as_str().get_char(0) == c {
                    count = count + 1;
                }
                j = j + 1;
            }
            assert(ws.take(n as int) =~= ws);
            if count > cap {
                return false;
            }
            i = i + 1;
        }
        true
    }
}

/// Whether the ratio of zero bits to one bits over all sampled bytes lies in [0.95, 1.05].
pub fn bits_balanced(samples: &Vec<u8>) -> (r: bool)
    ensures
        r == bits_balanced_spec(samples@),
{
    let n = samples.len();
    let mut ones: u128 = 0;
    let mut i: usize = 0;
    while i < n
        invariant
            n == samples@.len(),
            i <= n,
            ones == ones_total(samples@.take(i as int)),
            ones <= 8 * i,
        decreases n - i,
    {
        assert(samples@.take(i + 1).drop_last() =~= samples@.take(i as int));
        let c = count_ones(samples[i]);
        ones = ones + c as u128;
        i = i + 1;
    }
    assert(samples@.take(n as int) =~= samples@);
    let zeros: u128 = 8 * (n as u128) - ones;
    ones > 0 && 100 * zeros >= 95 * ones && 100 * zeros <= 105 * ones
}

} // verus!
