use vstd::arithmetic::div_mod::lemma_fundamental_div_mod;
use vstd::prelude::*;
use vstd::string::StringExecFns;

use crate::bits::{
    byte_values, concat_bits, group_values, lemma_concat_groups,
    lemma_concat_len, lemma_from_bits_bound, lemma_from_to_bits, lemma_group_concat,
    lemma_group_prefix, lemma_to_bits_split, lemma_two_pow_pos, to_bits,
    lemma_to_bits_len, lemma_two_pow_small, pack_groups, push_bits, two_pow,
};
use crate::checksum::{checksum_bits, checksum_spec, sha256_of};
use crate::error::{BIP39Error, Result};
use crate::generator::{
    checksum_len, encode_spec, entropy_stream, mnemonic_indices, valid_entropy_len, word_count_for,
};
use crate::text::{is_token, join_ws, lemma_split_join, split_whitespace, split_ws, strings_view};
use crate::wordlist::{english_dictionary, lemma_word_index, valid_dictionary, word_index, WordList};

verus! {

/// Why a phrase could not be checked.
pub enum PhraseFault {
    /// The phrase has this many words (as a byte), neither 12 nor 24.
    WordCount(u8),
    /// A word is not in the dictionary; the message names it.
    UnknownWord(Seq<char>),
    /// Any other failure.
    Other,
}

/// The outcome of a check, with each error read as a fault.
pub open spec fn outcome(r: Result<bool>) -> core::result::Result<bool, PhraseFault> {
    match r {
        Ok(b) => Ok(b),
        Err(BIP39Error::InvalidWordCount(n)) => Err(PhraseFault::WordCount(n)),
        Err(BIP39Error::WordListError(w)) => Err(PhraseFault::UnknownWord(w@)),
        Err(_) => Err(PhraseFault::Other),
    }
}

/// The message that names a word missing from the dictionary.
pub open spec fn unknown_word_message(w: Seq<char>) -> Seq<char> {
    "Invalid word: "@ + w
}

/// The positions of the words `ws` in `d`, or the first word that is missing.
pub open spec fn lookup_all(d: Seq<Seq<char>>, ws: Seq<Seq<char>>) -> core::result::Result<
    Seq<nat>,
    Seq<char>,
>
    decreases ws.len(),
{
    if ws.len() == 0 {
        Ok(Seq::empty())
    } else {
        match lookup_all(d, ws.drop_last()) {
            Err(w) => Err(w),
            Ok(idx) => match word_index(d, ws.last()) {
                Some(i) => Ok(idx.push(i)),
                None => Err(ws.last()),
            },
        }
    }
}

/// The number of entropy bits in a phrase of `m` words.
pub open spec fn entropy_bits_for(m: nat) -> nat {
    (11 * m - m / 3) as nat
}

/// The entropy bytes that the word positions `idx` carry.
pub open spec fn phrase_entropy(idx: Seq<nat>) -> Seq<u8> {
    group_values(concat_bits(idx, 11), 8, entropy_bits_for(idx.len()) / 8).map_values(
        |v: nat| v as u8,
    )
}

/// The checksum bits that the word positions `idx` carry.
pub open spec fn phrase_checksum(idx: Seq<nat>) -> Seq<bool> {
    concat_bits(idx, 11).subrange(entropy_bits_for(idx.len()) as int, (11 * idx.len()) as int)
}

/// Whether the carried checksum is the checksum of the carried entropy.
pub open spec fn checksum_matches(idx: Seq<nat>) -> bool {
    checksum_spec(phrase_entropy(idx), idx.len() / 3) == phrase_checksum(idx)
}

/// What checking `phrase` against dictionary `d` gives.
pub open spec fn validate_spec(d: Seq<Seq<char>>, phrase: Seq<char>) -> core::result::Result<
    bool,
    PhraseFault,
> {
    let ws = split_ws(phrase);
    if ws.len() != 12 && ws.len() != 24 {
        Err(PhraseFault::WordCount(ws.len() as u8))
    } else {
        match lookup_all(d, ws) {
            Err(w) => Err(PhraseFault::UnknownWord(unknown_word_message(w))),
            Ok(idx) => Ok(checksum_matches(idx)),
        }
    }
}

/// Positions as natural numbers.
pub open spec fn positions(v: Seq<usize>) -> Seq<nat> {
    v.map_values(|x: usize| x as nat)
}

proof fn lemma_lookup_known(d: Seq<Seq<char>>, ws: Seq<Seq<char>>, idx: Seq<nat>)
    requires
        valid_dictionary(d),
        ws.len() == idx.len(),
        forall|i: int| 0 <= i < idx.len() ==> #[trigger] idx[i] < d.len() && ws[i] == d[idx[i] as int],
    ensures
        lookup_all(d, ws) == core::result::Result::<Seq<nat>, Seq<char>>::Ok(idx),
    decreases ws.len(),
{
    if ws.len() == 0 {
        assert(idx =~= Seq::<nat>::empty());
    } else {
        assert forall|i: int| 0 <= i < idx.drop_last().len() implies idx.drop_last()[i] < d.len()
            && ws.drop_last()[i] == d[idx.drop_last()[i] as int] by {
            assert(idx[i] < d.len() && ws[i] == d[idx[i] as int]);
            assert(idx.drop_last()[i] == idx[i]);
            assert(ws.drop_last()[i] == ws[i]);
        }
        assert(ws.last() == d[idx.last() as int]);
        lemma_lookup_known(d, ws.drop_last(), idx.drop_last());
        lemma_word_index(d, idx.last() as int);
        assert(idx.drop_last().push(idx.last()) =~= idx);
    }
}

/// Every position of a mnemonic fits in 11 bits, so it names a dictionary word.
pub proof fn lemma_mnemonic_indices_bound(e: Seq<u8>)
    requires
        valid_entropy_len(e.len()),
    ensures
        mnemonic_indices(e).len() == (if e.len() == 16 { 12nat } else { 24nat }),
        forall|i: int| 0 <= i < mnemonic_indices(e).len() ==> #[trigger] mnemonic_indices(e)[i] < 2048,
{
    let n = e.len();
    let m = word_count_for(n);
    let b = entropy_stream(e);
    lemma_two_pow_small();
    lemma_concat_len(byte_values(e), 8);
    lemma_to_bits_len(sha256_of(e)[0] as nat, 8);
    assert(checksum_spec(e, checksum_len(n)).len() == checksum_len(n));
    assert(b.len() == 11 * m);
    assert forall|i: int| 0 <= i < m implies #[trigger] mnemonic_indices(e)[i] < 2048 by {
        assert(11 * i + 11 <= 11 * m);
        lemma_from_bits_bound(b.subrange(11 * i, 11 * i + 11));
    }
}

/// Encoding 16 bytes gives 12 words and 32 bytes gives 24, each a word of the
/// dictionary.
pub proof fn lemma_encode_length(d: Seq<Seq<char>>, e: Seq<u8>)
    requires
        valid_dictionary(d),
        valid_entropy_len(e.len()),
    ensures
        encode_spec(d, e).len() == (if e.len() == 16 { 12nat } else { 24nat }),
        forall|i: int| 0 <= i < encode_spec(d, e).len() ==> d.contains(#[trigger] encode_spec(d, e)[i]),
{
    lemma_mnemonic_indices_bound(e);
    assert forall|i: int| 0 <= i < encode_spec(d, e).len() implies d.contains(
        #[trigger] encode_spec(d, e)[i],
    ) by {
        let j = mnemonic_indices(e)[i] as int;
        assert(encode_spec(d, e)[i] == d[j]);
    }
}

/// A phrase whose word count is neither 12 nor 24 is refused for its count, whatever
/// the dictionary and whatever its words.
pub proof fn lemma_word_count_rejection(d: Seq<Seq<char>>, phrase: Seq<char>)
    requires
        split_ws(phrase).len() != 12 && split_ws(phrase).len() != 24,
    ensures
        validate_spec(d, phrase) == core::result::Result::<bool, PhraseFault>::Err(
            PhraseFault::WordCount(split_ws(phrase).len() as u8),
        ),
{
}

/// A 12-word or 24-word phrase whose word `k` is the first one missing from the
/// dictionary is refused, naming that word, whatever its checksum.
pub proof fn lemma_unknown_word_rejection(d: Seq<Seq<char>>, phrase: Seq<char>, k: int)
    requires
        split_ws(phrase).len() == 12 || split_ws(phrase).len() == 24,
        0 <= k < split_ws(phrase).len(),
        forall|i: int| 0 <= i < k ==> d.contains(#[trigger] split_ws(phrase)[i]),
        !d.contains(split_ws(phrase)[k]),
    ensures
        validate_spec(d, phrase) == core::result::Result::<bool, PhraseFault>::Err(
            PhraseFault::UnknownWord(unknown_word_message(split_ws(phrase)[k])),
        ),
{
    let ws = split_ws(phrase);
    lemma_lookup_found_prefix(d, ws, k);
    assert(word_index(d, ws[k]) is None) by {
        if exists|i: int| 0 <= i < d.len() && d[i] == ws[k] {
            let i = choose|i: int| 0 <= i < d.len() && d[i] == ws[k];
            assert(d.contains(ws[k]));
        }
    }
    lemma_lookup_prefix_err(d, ws, k + 1);
}

proof fn lemma_lookup_found_prefix(d: Seq<Seq<char>>, ws: Seq<Seq<char>>, k: int)
    requires
        0 <= k <= ws.len(),
        forall|i: int| 0 <= i < k ==> d.contains(#[trigger] ws[i]),
    ensures
        lookup_all(d, ws.take(k)) is Ok,
    decreases k,
{
    if k > 0 {
        lemma_lookup_found_prefix(d, ws, k - 1);
        assert(ws.take(k).drop_last() =~= ws.take(k - 1));
        assert(d.contains(ws[k - 1]));
        let j = choose|j: int| 0 <= j < d.len() && d[j] == ws[k - 1];
        assert(exists|i: int| 0 <= i < d.len() && d[i] == ws.take(k).last());
    }
}

/// A 12-word or 24-word phrase over a dictionary, built from any 16 or 32 bytes of
/// entropy and joined by single spaces, passes the check.
pub proof fn lemma_round_trip(d: Seq<Seq<char>>, e: Seq<u8>)
    requires
        valid_dictionary(d),
        valid_entropy_len(e.len()),
    ensures
        validate_spec(d, join_ws(encode_spec(d, e))) == core::result::Result::<
            bool,
            PhraseFault,
        >::Ok(true),
{
    let idx = mnemonic_indices(e);
    let ws = encode_spec(d, e);
    lemma_decode_indices(e);
    // the words split back out and are found at their positions
    assert forall|i: int| 0 <= i < ws.len() implies is_token(#[trigger] ws[i]) by {
        assert(ws[i] == d[idx[i] as int]);
    }
    lemma_split_join(ws);
    lemma_lookup_known(d, ws, idx);
}

/// The positions of a mnemonic give back its stream, its entropy and its checksum.
proof fn lemma_decode_indices(e: Seq<u8>)
    requires
        valid_entropy_len(e.len()),
    ensures
        mnemonic_indices(e).len() == word_count_for(e.len()),
        word_count_for(e.len()) == 12 || word_count_for(e.len()) == 24,
        word_count_for(e.len()) / 3 == checksum_len(e.len()),
        entropy_bits_for(word_count_for(e.len())) == 8 * e.len(),
        forall|i: int| 0 <= i < mnemonic_indices(e).len() ==> #[trigger] mnemonic_indices(e)[i] < 2048,
        concat_bits(mnemonic_indices(e), 11) == entropy_stream(e),
        phrase_entropy(mnemonic_indices(e)) == e,
        phrase_checksum(mnemonic_indices(e)) == checksum_spec(e, checksum_len(e.len())),
        checksum_matches(mnemonic_indices(e)),
{
    let n = e.len();
    let cs = checksum_len(n);
    let m = word_count_for(n);
    let bv = byte_values(e);
    let b = entropy_stream(e);
    let idx = mnemonic_indices(e);
    lemma_two_pow_small();
    lemma_concat_len(bv, 8);
    lemma_to_bits_len(sha256_of(e)[0] as nat, 8);
    assert(checksum_spec(e, cs).len() == cs);
    assert(b.len() == 11 * m);
    lemma_mnemonic_indices_bound(e);
    lemma_concat_groups(b, 11, m);
    assert(b.take((11 * m) as int) =~= b);
    assert(concat_bits(idx, 11) == b);
    assert(entropy_bits_for(m) == 8 * n);
    lemma_group_prefix(concat_bits(bv, 8), checksum_spec(e, cs), 8, n);
    assert forall|i: int| 0 <= i < bv.len() implies bv[i] < two_pow(8) by {}
    lemma_group_concat(bv, 8);
    assert(phrase_entropy(idx) =~= e);
    assert(phrase_checksum(idx) =~= checksum_spec(e, cs));
    assert(m / 3 == cs);
}

/// Replacing the last word of a mnemonic by another dictionary word that differs from
/// it only in the checksum bits (the low `checksum_len` bits of its position) keeps the
/// entropy and changes the carried checksum, so the phrase fails its check.
pub proof fn lemma_checksum_sensitivity(d: Seq<Seq<char>>, e: Seq<u8>, v: nat)
    requires
        valid_dictionary(d),
        valid_entropy_len(e.len()),
        v < 2048,
        v != mnemonic_indices(e).last(),
        v / two_pow(checksum_len(e.len())) == mnemonic_indices(e).last() / two_pow(
            checksum_len(e.len()),
        ),
    ensures
        validate_spec(
            d,
            join_ws(encode_spec(d, e).update(encode_spec(d, e).len() - 1, d[v as int])),
        ) == core::result::Result::<bool, PhraseFault>::Ok(false),
{
    let n = e.len();
    let cs = checksum_len(n);
    let a = (11 - cs) as nat;
    let idx = mnemonic_indices(e);
    lemma_decode_indices(e);
    let m = idx.len();
    let last = idx[m - 1];
    let idx2 = idx.update(m - 1, v);
    let ws2 = encode_spec(d, e).update(m - 1, d[v as int]);
    // the changed phrase splits back out and is found at the changed positions
    assert forall|i: int| 0 <= i < m implies #[trigger] idx2[i] < d.len() && ws2[i] == d[idx2[i] as int] by {
        if i != m - 1 {
            assert(idx2[i] == idx[i]);
            assert(idx[i] < 2048);
        }
    }
    assert forall|i: int| 0 <= i < ws2.len() implies is_token(#[trigger] ws2[i]) by {
        assert(idx2[i] < d.len() && ws2[i] == d[idx2[i] as int]);
    }
    lemma_split_join(ws2);
    lemma_lookup_known(d, ws2, idx2);
    // both streams share the entropy bits and differ in the checksum bits
    let tp = two_pow(cs);
    lemma_two_pow_pos(cs);
    let c = concat_bits(idx.drop_last(), 11);
    lemma_concat_len(idx.drop_last(), 11);
    assert(idx2.drop_last() =~= idx.drop_last());
    assert(concat_bits(idx, 11) == c + to_bits(last, 11));
    assert(concat_bits(idx2, 11) == c + to_bits(v, 11));
    lemma_to_bits_split(v, a, cs);
    lemma_to_bits_split(last, a, cs);
    lemma_to_bits_len(v / tp, a);
    lemma_to_bits_len(v % tp, cs);
    lemma_to_bits_len(last % tp, cs);
    let p = c + to_bits(v / tp, a);
    assert(p.len() == 8 * n);
    assert(concat_bits(idx2, 11) =~= p + to_bits(v % tp, cs));
    assert(concat_bits(idx, 11) =~= p + to_bits(last % tp, cs));
    lemma_group_prefix(p, to_bits(v % tp, cs), 8, n);
    lemma_group_prefix(p, to_bits(last % tp, cs), 8, n);
    assert(phrase_entropy(idx2) == phrase_entropy(idx));
    assert(phrase_checksum(idx2) =~= to_bits(v % tp, cs));
    assert(phrase_checksum(idx) =~= to_bits(last % tp, cs));
    // the two checksum values differ, and so do their bits
    lemma_fundamental_div_mod(v as int, tp as int);
    lemma_fundamental_div_mod(last as int, tp as int);
    assert(v % tp != last % tp);
    assert(v % tp < tp && last % tp < tp);
    lemma_from_to_bits(v % tp, cs);
    lemma_from_to_bits(last % tp, cs);
    assert(to_bits(v % tp, cs) != to_bits(last % tp, cs));
    assert(!checksum_matches(idx2));
}

/// The phrase checker.
pub struct SeedPhraseValidator;

impl SeedPhraseValidator {
    /// The bit stream that the word positions carry, 11 bits each.
    fn indices_to_bits(indices: &Vec<usize>) -> (r: Vec<bool>)
        ensures
            r@ == concat_bits(positions(indices@), 11),
    {
        let ghost p = positions(indices@);
        let mut bits: Vec<bool> = Vec::new();
        let mut i: usize = 0;
        while i < indices.len()
            invariant
                p == positions(indices@),
                i <= indices@.len(),
                bits@ == concat_bits(p.take(i as int), 11),
            decreases indices@.len() - i,
        {
            assert(p.take(i + 1).drop_last() =~= p.take(i as int));
            push_bits(&mut bits, indices[i], 11);
            i = i + 1;
        }
        assert(p.take(indices@.len() as int) =~= p);
        bits
    }

    /// The entropy bytes that a phrase's word positions carry.
    pub fn indices_to_entropy(indices: &Vec<usize>) -> (r: Vec<u8>)
        requires
            indices@.len() == 12 || indices@.len() == 24,
        ensures
            r@ == phrase_entropy(positions(indices@)),
    {
        let m = indices.len();
        let bits = Self::indices_to_bits(indices);
        proof {
            lemma_concat_len(positions(indices@), 11);
        }
        let nbytes = (11 * m - m / 3) / 8;
        let vals = pack_groups(&bits, 8, nbytes);
        proof {
            lemma_two_pow_small();
        }
        assert(vals@.map_values(|x: usize| x as nat).len() == nbytes);
        let mut r: Vec<u8> = Vec::new();
        let mut i: usize = 0;
        while i < nbytes
            invariant
                vals@.len() == nbytes,
                forall|t: int| 0 <= t < nbytes ==> vals@[t] < 256,
                i <= nbytes,
                r@ == vals@.take(i as int).map_values(|v: usize| v as u8),
            decreases nbytes - i,
        {
            r.push(vals[i] as u8);
            i = i + 1;
            assert(r@ =~= vals@.take(i as int).map_values(|v: usize| v as u8));
        }
        assert(vals@.take(nbytes as int) =~= vals@);
        let ghost g = group_values(bits@, 8, nbytes as nat);
        assert(vals@.map_values(|x: usize| x as nat) == g);
        assert forall|t: int| 0 <= t < nbytes implies r@[t] == (g[t] as u8) by {
            assert(vals@.map_values(|x: usize| x as nat)[t] == vals@[t] as nat);
        }
        assert(r@ =~= phrase_entropy(positions(indices@)));
        r
    }

    /// Whether the checksum carried by the word positions matches their entropy.
    fn validate_checksum(indices: &Vec<usize>) -> (r: bool)
        requires
            indices@.len() == 12 || indices@.len() == 24,
        ensures
            r == checksum_matches(positions(indices@)),
    {
        let m = indices.len();
        assert(positions(indices@).len() == m);
        let bits = Self::indices_to_bits(indices);
        proof {
            lemma_concat_len(positions(indices@), 11);
        }
        let entropy = Self::indices_to_entropy(indices);
        let width = m / 3;
        let expected = checksum_bits(&entropy, width);
        proof {
            lemma_to_bits_len(sha256_of(entropy@)[0] as nat, 8);
        }
        assert(bits@.len() == 11 * m);
        let start = 11 * m - width;
        let ghost carried = phrase_checksum(positions(indices@));
        assert(carried.len() == width);
        assert(start + width == bits@.len());
        assert(carried == bits@.subrange(start as int, start + width));
        let mut i: usize = 0;
        while i < width
            invariant
                width <= 8,
                bits@.len() <= 264,
                positions(indices@).len() == m,
                width == m / 3,
                expected@ == checksum_spec(phrase_entropy(positions(indices@)), width as nat),
                carried == phrase_checksum(positions(indices@)),
                expected@.len() == width,
                carried.len() == width,
                start + width == bits@.len(),
                carried == bits@.subrange(start as int, start + width),
                i <= width,
                forall|t: int| 0 <= t < i ==> expected@[t] == carried[t],
            decreases width - i,
        {
            if expected[i] != bits[start + i] {
                assert(expected@[i as int] != carried[i as int]);
                return false;
            }
            i = i + 1;
        }
        assert(expected@ =~= carried);
        true
    }

    /// Checks `phrase` against `wordlist`: `Ok(true)` when its checksum matches,
    /// `Ok(false)` when it does not, an error when its word count is not 12 or 24
    /// or a word is not in the list.
    pub fn validate_with(wordlist: &WordList, phrase: &str) -> (r: Result<bool>)
        requires
            wordlist.wf(),
        ensures
            outcome(r) == validate_spec(wordlist@, phrase@),
    {
        let ghost d = wordlist@;
        let words = split_whitespace(phrase);
        let ghost ws = strings_view(words@);
        let m = words.len();
        if m != 12 && m != 24 {
            return Err(BIP39Error::InvalidWordCount(#[verifier::truncate] (m as u8)));
        }
        let mut indices: Vec<usize> = Vec::new();
        assert(ws.take(0) =~= Seq::<Seq<char>>::empty());
        assert(positions(indices@) =~= Seq::<nat>::empty());
        let mut k: usize = 0;
        while k < m
            invariant
                wordlist.wf(),
                d == wordlist@,
                ws == strings_view(words@),
                ws == split_ws(phrase@),
                m == ws.len(),
                m == 12 || m == 24,
                k <= m,
                indices@.len() == k,
                lookup_all(d, ws.take(k as int)) == core::result::Result::<
                    Seq<nat>,
                    Seq<char>,
                >::Ok(positions(indices@)),
            decreases m - k,
        {
            assert(ws.take(k + 1).drop_last() =~= ws.take(k as int));
            assert(ws[k as int] == words@[k as int]@);
            match wordlist.reverse(words[k].as_str()) {
                Some(i) => {
                    let ghost prev = indices@;
                    indices.push(i);
                    assert(positions(indices@) =~= positions(prev).push(i as nat));
                },
                None => {
                    proof {
                        lemma_lookup_prefix_err(d, ws, k as int + 1);
                    }
                    let mut message = "Invalid word: ".to_owned();
                    message.append(words[k].as_str());
                    return Err(BIP39Error::WordListError(message));
                },
            }
            k = k + 1;
        }
        assert(ws.take(m as int) =~= ws);
        Ok(Self::validate_checksum(&indices))
    }

    /// Checks `phrase` against the English dictionary, as `validate_with` does.
    pub fn validate(phrase: &str) -> (r: Result<bool>)
        ensures
            outcome(r) == validate_spec(english_dictionary(), phrase@),
            r is Ok || r->Err_0 is InvalidWordCount || r->Err_0 is WordListError,
    {
        let wordlist = WordList::english();
        Self::validate_with(&wordlist, phrase)
    }
}

proof fn lemma_lookup_prefix_err(d: Seq<Seq<char>>, ws: Seq<Seq<char>>, k: int)
    requires
        0 < k <= ws.len(),
        lookup_all(d, ws.take(k - 1)) is Ok,
        word_index(d, ws[k - 1]) is None,
    ensures
        lookup_all(d, ws) == core::result::Result::<Seq<nat>, Seq<char>>::Err(ws[k - 1]),
    decreases ws.len() - k,
{
    assert(ws.take(k).drop_last() =~= ws.take(k - 1));
    if k == ws.len() {
        assert(ws.take(k) =~= ws);
    } else {
        lemma_lookup_err_extends(d, ws, k);
    }
}

proof fn lemma_lookup_err_extends(d: Seq<Seq<char>>, ws: Seq<Seq<char>>, k: int)
    requires
        0 < k <= ws.len(),
        lookup_all(d, ws.take(k)) is Err,
    ensures
        lookup_all(d, ws) == lookup_all(d, ws.take(k)),
    decreases ws.len() - k,
{
    if k == ws.len() {
        assert(ws.take(k) =~= ws);
    } else {
        assert(ws.take(k + 1).drop_last() =~= ws.take(k));
        lemma_lookup_err_extends(d, ws, k + 1);
    }
}

} // verus!
