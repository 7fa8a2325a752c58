//! Full-text matching over command text.
//!
//! The index tokenizes a text into its maximal whitespace-separated
//! words; a query expression matches a text when every word of the
//! expression occurs as a word of the text.

use vstd::prelude::*;

use crate::parse::{is_ws_char, skip_ws_idx, lemma_skip_ws_idx};

verus! {

/// Index of the first whitespace character at or after `i`.
pub open spec fn skip_word_idx(s: Seq<char>, i: int) -> int
    recommends
        0 <= i <= s.len(),
    decreases s.len() - i,
{
    if i < s.len() && !is_ws_char(s[i]) {
        skip_word_idx(s, i + 1)
    } else {
        i
    }
}

pub proof fn lemma_skip_word_idx(s: Seq<char>, i: int)
    requires
        0 <= i <= s.len(),
    ensures
        i <= skip_word_idx(s, i) <= s.len(),
        forall|k: int| i <= k < skip_word_idx(s, i) ==> !is_ws_char(s[k]),
        skip_word_idx(s, i) == s.len() || is_ws_char(s[skip_word_idx(s, i)]),
    decreases s.len() - i,
{
    if i < s.len() && !is_ws_char(s[i]) {
        lemma_skip_word_idx(s, i + 1);
    }
}

/// The maximal whitespace-separated words of `s` from position `i` on.
pub open spec fn words_from(s: Seq<char>, i: int) -> Seq<Seq<char>>
    recommends
        0 <= i <= s.len(),
    decreases s.len() - i, 0int,
{
    let j = skip_ws_idx(s, i);
    if !(i <= j <= s.len()) {
        Seq::empty()
    } else if j == s.len() {
        Seq::empty()
    } else {
        let k = skip_word_idx(s, j);
        if j < k <= s.len() {
            seq![s.subrange(j, k)] + words_from(s, k)
        } else {
            Seq::empty()
        }
    }
}

/// The words of the whole text.
pub open spec fn words_of(s: Seq<char>) -> Seq<Seq<char>> {
    words_from(s, 0)
}

/// A query matches a text when every word of the query is a word of the
/// text. A query without words matches everything.
pub open spec fn matches_text(text: Seq<char>, query: Seq<char>) -> bool {
    forall|k: int| 0 <= k < words_of(query).len() ==> words_of(text).contains(
        #[trigger] words_of(query)[k],
    )
}

/// The words of `s`, in order.
pub fn words(s: &str) -> (r: Vec<String>)
    ensures
        r@.map_values(|w: String| w@) == words_of(s@),
{
    let cs = crate::parse::chars_vec(s);
    let n = cs.len();
    let mut r: Vec<String> = Vec::new();
    let mut i: usize = 0;
    loop
        invariant
            i <= n,
            n == cs.len(),
            cs@ == s@,
            r@.map_values(|w: String| w@) + words_from(s@, i as int) == words_of(s@),
        ensures
            r@.map_values(|w: String| w@) + words_from(s@, i as int) == words_of(s@),
            words_from(s@, i as int) == Seq::<Seq<char>>::empty(),
        decreases n - i,
    {
        proof {
            lemma_skip_ws_idx(cs@, i as int);
        }
        let j = crate::parse::skip_ws_pos(&cs, i);
        if j == n {
            assert(words_from(s@, i as int) =~= Seq::<Seq<char>>::empty());
            break;
        }
        proof {
            lemma_skip_word_idx(cs@, j as int);
        }
        let k = skip_word_pos(&cs, j);
        let w = s.substring_char(j, k).to_owned();
        let ghost sub = s@.subrange(j as int, k as int);
        proof {
            assert(words_from(s@, i as int) == seq![sub] + words_from(s@, k as int));
        }
        let ghost prev = r@.map_values(|w: String| w@);
        r.push(w);
        proof {
            assert(r@.map_values(|w: String| w@) =~= prev.push(sub));
            assert(prev.push(sub) + words_from(s@, k as int) =~= prev + (seq![sub] + words_from(
                s@,
                k as int,
            )));
        }
        i = k;
    }
    assert(r@.map_values(|w: String| w@) =~= r@.map_values(|w: String| w@) + Seq::<
        Seq<char>,
    >::empty());
    r
}

/// First whitespace position at or after `i`.
pub fn skip_word_pos(cs: &Vec<char>, i: usize) -> (r: usize)
    requires
        i <= cs.len(),
    ensures
        r == skip_word_idx(cs@, i as int),
        i <= r <= cs.len(),
{
    proof {
        lemma_skip_word_idx(cs@, i as int);
    }
    let mut j: usize = i;
    while j < cs.len() && !crate::parse::is_ws(cs[j])
        invariant
            i <= j <= cs.len(),
            skip_word_idx(cs@, i as int) == skip_word_idx(cs@, j as int),
        decreases cs.len() - j,
    {
        j = j + 1;
    }
    j
}

/// Whether every word of `query` is a word of `text`.
pub fn matches(text: &str, query: &str) -> (r: bool)
    ensures
        r == matches_text(text@, query@),
{
    let tw = words(text);
    let qw = words(query);
    let ghost tws = tw@.map_values(|w: String| w@);
    let ghost qws = qw@.map_values(|w: String| w@);
    let mut qi: usize = 0;
    while qi < qw.len()
        invariant
            qi <= qw.len(),
            tws == words_of(text@),
            qws == words_of(query@),
            tws == tw@.map_values(|w: String| w@),
            qws == qw@.map_values(|w: String| w@),
            forall|k: int| 0 <= k < qi ==> tws.contains(#[trigger] qws[k]),
        decreases qw.len() - qi,
    {
        let q = &qw[qi];
        let mut found = false;
        let mut ti: usize = 0;
        while ti < tw.len()
            invariant
                ti <= tw.len(),
                tws == tw@.map_values(|w: String| w@),
                found <==> exists|k: int| 0 <= k < ti && tws[k] == q@,
            decreases tw.len() - ti,
        {
            proof {
                assert(tws[ti as int] == tw@[ti as int]@);
            }
            if tw[ti].eq(q) {
                found = true;
            }
            ti = ti + 1;
        }
        if !found {
            assert(!tws.contains(qws[qi as int]));
            return false;
        }
        assert(tws.contains(qws[qi as int]));
        qi = qi + 1;
    }
    true
}

/// Every word of a text, offered alone as a query, matches the text.
pub proof fn lemma_own_word_matches(text: Seq<char>, w: Seq<char>)
    requires
        words_of(text).contains(w),
    ensures
        matches_text(text, w),
{
    lemma_word_chars(text, w);
    lemma_words_of_word(w);
}

/// A word of a text is non-empty and has no whitespace in it.
proof fn lemma_word_chars(text: Seq<char>, w: Seq<char>)
    requires
        words_of(text).contains(w),
    ensures
        w.len() > 0,
        forall|k: int| 0 <= k < w.len() ==> !is_ws_char(w[k]),
{
    lemma_words_from_chars(text, 0, w);
}

proof fn lemma_words_from_chars(text: Seq<char>, i: int, w: Seq<char>)
    requires
        0 <= i <= text.len(),
        words_from(text, i).contains(w),
    ensures
        w.len() > 0,
        forall|k: int| 0 <= k < w.len() ==> !is_ws_char(w[k]),
    decreases text.len() - i,
{
    let j = skip_ws_idx(text, i);
    lemma_skip_ws_idx(text, i);
    if j < text.len() {
        let k = skip_word_idx(text, j);
        lemma_skip_word_idx(text, j);
        if w == text.subrange(j, k) {
        } else {
            assert(words_from(text, i)[0] == text.subrange(j, k));
            let x = choose|x: int| 0 <= x < words_from(text, i).len() && words_from(text, i)[x] == w;
            assert(words_from(text, k)[x - 1] == w);
            lemma_words_from_chars(text, k, w);
        }
    }
}

/// A single word, taken as a text, consists of exactly that word.
proof fn lemma_words_of_word(w: Seq<char>)
    requires
        w.len() > 0,
        forall|k: int| 0 <= k < w.len() ==> !is_ws_char(w[k]),
    ensures
        words_of(w) == seq![w],
{
    lemma_skip_ws_idx(w, 0);
    assert(skip_ws_idx(w, 0) == 0);
    lemma_skip_word_idx(w, 0);
    assert(skip_word_idx(w, 0) == w.len() as int);
    assert(w.subrange(0, w.len() as int) =~= w);
    assert(words_from(w, w.len() as int) =~= Seq::<Seq<char>>::empty());
    assert(words_of(w) =~= seq![w]);
}

} // verus!
