use vstd::prelude::*;
use vstd::string::StrSliceExecFns;
use vstd::string::StringExecFns;

verus! {

/// Unicode `White_Space`, the set that `char::is_whitespace` tests.
pub open spec fn is_ws(c: char) -> bool {
    let u = c as u32;
    (0x9 <= u && u <= 0xd) || u == 0x20 || u == 0x85 || u == 0xa0 || u == 0x1680 || (0x2000 <= u
        && u <= 0x200a) || u == 0x2028 || u == 0x2029 || u == 0x202f || u == 0x205f || u == 0x3000
}

/// A word that can stand in a space-separated phrase: not empty, no whitespace.
pub open spec fn is_token(w: Seq<char>) -> bool {
    w.len() > 0 && forall|j: int| 0 <= j < w.len() ==> !is_ws(#[trigger] w[j])
}

/// The tokens finished so far, and the token under way, after reading `s`.
pub open spec fn split_state(s: Seq<char>) -> (Seq<Seq<char>>, Seq<char>)
    decreases s.len(),
{
    if s.len() == 0 {
        (Seq::empty(), Seq::empty())
    } else {
        let prev = split_state(s.drop_last());
        let c = s.last();
        if is_ws(c) {
            if prev.1.len() > 0 {
                (prev.0.push(prev.1), Seq::empty())
            } else {
                (prev.0, Seq::empty())
            }
        } else {
            (prev.0, prev.1.push(c))
        }
    }
}

/// The maximal runs of non-whitespace characters of `s`, in order.
pub open spec fn split_ws(s: Seq<char>) -> Seq<Seq<char>> {
    let st = split_state(s);
    if st.1.len() > 0 {
        st.0.push(st.1)
    } else {
        st.0
    }
}

/// The words separated by single spaces.
pub open spec fn join_ws(ws: Seq<Seq<char>>) -> Seq<char>
    decreases ws.len(),
{
    if ws.len() == 0 {
        Seq::empty()
    } else if ws.len() == 1 {
        ws[0]
    } else {
        join_ws(ws.drop_last()) + seq![' '] + ws.last()
    }
}

/// The character views of a vector of strings.
pub open spec fn strings_view(v: Seq<String>) -> Seq<Seq<char>> {
    v.map_values(|w: String| w@)
}

proof fn lemma_state_append_token(p: Seq<char>, w: Seq<char>)
    requires
        forall|j: int| 0 <= j < w.len() ==> !is_ws(#[trigger] w[j]),
    ensures
        split_state(p + w) == (split_state(p).0, split_state(p).1 + w),
    decreases w.len(),
{
    if w.len() == 0 {
        assert(p + w =~= p);
        assert(split_state(p).1 + w =~= split_state(p).1);
    } else {
        lemma_state_append_token(p, w.drop_last());
        assert((p + w).drop_last() =~= p + w.drop_last());
        assert((p + w).last() == w.last());
        assert(!is_ws(w[w.len() - 1]));
        assert((split_state(p).1 + w.drop_last()).push(w.last()) =~= split_state(p).1 + w);
    }
}

proof fn lemma_state_of_join(ws: Seq<Seq<char>>)
    requires
        ws.len() >= 1,
        forall|i: int| 0 <= i < ws.len() ==> is_token(#[trigger] ws[i]),
    ensures
        split_state(join_ws(ws)) == (ws.drop_last(), ws.last()),
    decreases ws.len(),
{
    if ws.len() == 1 {
        assert(is_token(ws[0]));
        lemma_state_append_token(Seq::empty(), ws[0]);
        assert(Seq::<char>::empty() + ws[0] =~= ws[0]);
        assert(Seq::<Seq<char>>::empty() =~= ws.drop_last());
        assert(Seq::<char>::empty() + ws[0] =~= ws.last());
    } else {
        let dl = ws.drop_last();
        assert forall|i: int| 0 <= i < dl.len() implies is_token(#[trigger] dl[i]) by {
            assert(dl[i] == ws[i]);
        }
        lemma_state_of_join(dl);
        let j = join_ws(dl);
        let sp = j + seq![' '];
        assert(sp.drop_last() =~= j);
        assert(is_ws(sp.last()));
        assert(dl.last().len() > 0) by {
            assert(is_token(ws[dl.len() - 1]));
        }
        assert(dl.drop_last().push(dl.last()) =~= dl);
        assert(split_state(sp) == (dl, Seq::<char>::empty()));
        assert(is_token(ws[ws.len() - 1]));
        lemma_state_append_token(sp, ws.last());
        assert(Seq::<char>::empty() + ws.last() =~= ws.last());
    }
}

/// Splitting a phrase of tokens joined by single spaces gives back the tokens.
pub proof fn lemma_split_join(ws: Seq<Seq<char>>)
    requires
        forall|i: int| 0 <= i < ws.len() ==> is_token(#[trigger] ws[i]),
    ensures
        split_ws(join_ws(ws)) == ws,
{
    if ws.len() == 0 {
        assert(split_ws(join_ws(ws)) =~= ws);
    } else {
        lemma_state_of_join(ws);
        assert(is_token(ws[ws.len() - 1]));
        assert(ws.drop_last().push(ws.last()) =~= ws);
    }
}

/// Whether `c` is whitespace in Unicode's sense.
pub fn is_whitespace(c: char) -> (r: bool)
    ensures
        r == is_ws(c),
{
    let u = c as u32;
    (0x9 <= u && u <= 0xd) || u == 0x20 || u == 0x85 || u == 0xa0 || u == 0x1680 || (0x2000 <= u
        && u <= 0x200a) || u == 0x2028 || u == 0x2029 || u == 0x202f || u == 0x205f || u == 0x3000
}

/// Splits `s` into its maximal runs of non-whitespace characters.
pub fn split_whitespace(s: &str) -> (r: Vec<String>)
    ensures
        strings_view(r@) == split_ws(s@),
{
    let n = s.unicode_len();
    let mut words: Vec<String> = Vec::new();
    let mut start: usize = 0;
    let mut i: usize = 0;
    while i < n
        invariant
            n == s@.len(),
            start <= i <= n,
            split_state(s@.take(i as int)) == (strings_view(words@), s@.subrange(
                start as int,
                i as int,
            )),
        decreases n - i,
    {
        let c = s.get_char(i);
        let ghost prev = split_state(s@.take(i as int));
        assert(s@.take(i + 1).drop_last() =~= s@.take(i as int));
        if is_whitespace(c) {
            if start < i {
                let w = s.substring_char(start, i).to_owned();
                words.push(w);
                assert(strings_view(words@) =~= prev.0.push(prev.1));
            }
            start = i + 1;
        } else {
            assert(s@.subrange(start as int, i + 1) =~= prev.1.push(c));
        }
        i = i + 1;
        assert(s@.subrange(start as int, i as int).len() == 0 ==> s@.subrange(
            start as int,
            i as int,
        ) =~= Seq::<char>::empty());
    }
    assert(s@.take(n as int) =~= s@);
    if start < n {
        let w = s.substring_char(start, n).to_owned();
        let ghost st = split_state(s@);
        words.push(w);
        assert(strings_view(words@) =~= st.0.push(st.1));
    }
    words
}

/// The words separated by single spaces.
pub fn join_words(words: &Vec<String>) -> (r: String)
    ensures
        r@ == join_ws(strings_view(words@)),
{
    let ghost ws = strings_view(words@);
    let mut r = String::new();
    let mut i: usize = 0;
    while i < words.len()
        invariant
            ws == strings_view(words@),
            i <= words@.len(),
            r@ == join_ws(ws.take(i as int)),
        decreases words@.len() - i,
    {
        assert(ws.take(i + 1).drop_last() =~= ws.take(i as int));
        if i > 0 {
            r.append(" ");
            proof {
                reveal_strlit(" ");
            }
            assert(" "@ =~= seq![' ']);
        } else {
            assert(r@ =~= Seq::<char>::empty());
        }
        r.append(words[i].as_str());
        i = i + 1;
    }
    assert(ws.take(words@.len() as int) =~= ws);
    r
}

} // verus!
