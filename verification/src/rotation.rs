//! Rotations of a phrase and the snippets cut from them.
use crate::stopwords::is_stopword;
use crate::text::{
    is_word, join_words, joined, lemma_split_joined, lowercase, split_words, to_lowercase,
    words_of,
};
use rayon::iter::{IntoParallelRefIterator, ParallelIterator};
use std::collections::HashSet;
use vstd::prelude::*;

verus! {

/// The cyclic shift of `words` that starts at index `i`.
pub open spec fn rotation(words: Seq<Seq<char>>, i: int) -> Seq<Seq<char>> {
    words.skip(i) + words.take(i)
}

/// How many words a snippet cut from `n` words holds under `window`.
pub open spec fn window_len(window: nat, n: nat) -> nat {
    if window < n {
        window
    } else {
        n
    }
}

/// The snippet of rotation `i`: its leading words, as many as the window
/// admits, joined by single spaces.
pub open spec fn snippet(words: Seq<Seq<char>>, i: int, window: nat) -> Seq<char> {
    joined(rotation(words, i).take(window_len(window, words.len()) as int))
}

/// Whether rotation `i` is kept: its leading word, lowercased, is no stopword.
pub open spec fn is_kept(words: Seq<Seq<char>>, stop: Set<Seq<char>>, i: int) -> bool {
    !stop.contains(lowercase(words[i]))
}

/// `is_kept` as a predicate on rotation indices.
pub open spec fn kept(words: Seq<Seq<char>>, stop: Set<Seq<char>>) -> spec_fn(int) -> bool {
    |i: int| is_kept(words, stop, i)
}

/// The contrary of `kept`.
pub open spec fn dropped(words: Seq<Seq<char>>, stop: Set<Seq<char>>) -> spec_fn(int) -> bool {
    |i: int| !is_kept(words, stop, i)
}

/// `snippet` as a function of the rotation index.
pub open spec fn cut(words: Seq<Seq<char>>, window: nat) -> spec_fn(int) -> Seq<char> {
    |i: int| snippet(words, i, window)
}

/// The indices `0, 1, .., n - 1`.
pub open spec fn indices(n: nat) -> Seq<int> {
    Seq::new(n, |i: int| i)
}

/// The snippets of the kept rotations of `words`, by rising rotation index.
pub open spec fn snippets_of_words(
    words: Seq<Seq<char>>,
    stop: Set<Seq<char>>,
    window: nat,
) -> Seq<Seq<char>> {
    indices(words.len()).filter(kept(words, stop)).map_values(cut(words, window))
}

/// The snippets of `phrase`.
pub open spec fn phrase_snippets(phrase: Seq<char>, stop: Set<Seq<char>>, window: nat) -> Seq<
    Seq<char>,
> {
    snippets_of_words(words_of(phrase), stop, window)
}

/// `phrase_snippets` as a function of the phrase.
pub open spec fn snippets_with(stop: Set<Seq<char>>, window: nat) -> spec_fn(Seq<char>) -> Seq<
    Seq<char>,
> {
    |phrase: Seq<char>| phrase_snippets(phrase, stop, window)
}

/// The words of a snippet are the leading words of its rotation, as many
/// as the window admits.
pub proof fn lemma_snippet_words(words: Seq<Seq<char>>, i: int, window: nat)
    requires
        forall|k: int| 0 <= k < words.len() ==> is_word(#[trigger] words[k]),
        0 <= i < words.len(),
    ensures
        words_of(snippet(words, i, window)) == rotation(words, i).take(
            window_len(window, words.len()) as int,
        ),
        words_of(snippet(words, i, window)).len() == window_len(window, words.len()),
        window > 0 ==> words_of(snippet(words, i, window))[0] == words[i],
{
    let m = window_len(window, words.len()) as int;
    let head = rotation(words, i).take(m);
    assert forall|k: int| 0 <= k < head.len() implies is_word(#[trigger] head[k]) by {
        if i + k < words.len() {
            assert(head[k] == words[i + k]);
        } else {
            assert(head[k] == words[i + k - words.len()]);
        }
    }
    lemma_split_joined(head);
    if window > 0 {
        assert(head[0] == words[i]);
    }
}

/// Of the first `k` rotations, those kept and those dropped are `k` together.
proof fn lemma_kept_and_dropped(words: Seq<Seq<char>>, stop: Set<Seq<char>>, k: nat)
    ensures
        indices(k).filter(kept(words, stop)).len() + indices(k).filter(dropped(words, stop)).len()
            == k,
    decreases k,
{
    if k == 0 {
        assert(indices(0).filter(kept(words, stop)).len() <= indices(0).len()) by {
            indices(0).lemma_filter_len(kept(words, stop));
        }
        assert(indices(0).filter(dropped(words, stop)).len() <= indices(0).len()) by {
            indices(0).lemma_filter_len(dropped(words, stop));
        }
    } else {
        let done = indices((k - 1) as nat);
        lemma_kept_and_dropped(words, stop, (k - 1) as nat);
        assert(indices(k) =~= done.push(k - 1));
        done.lemma_filter_push(k - 1, kept(words, stop));
        done.lemma_filter_push(k - 1, dropped(words, stop));
    }
}

/// A phrase of `n` words has `n` rotations; its snippets are as many as
/// `n` less the rotations whose leading word, lowercased, is a stopword.
pub proof fn lemma_snippet_count(words: Seq<Seq<char>>, stop: Set<Seq<char>>, window: nat)
    ensures
        snippets_of_words(words, stop, window).len() == words.len() - indices(words.len()).filter(
            dropped(words, stop),
        ).len(),
        snippets_of_words(words, stop, window).len() <= words.len(),
{
    lemma_kept_and_dropped(words, stop, words.len());
}

/// Each snippet of `words` is the snippet of a kept rotation.
pub proof fn lemma_snippet_origin(words: Seq<Seq<char>>, stop: Set<Seq<char>>, window: nat, j: int)
    requires
        0 <= j < snippets_of_words(words, stop, window).len(),
    ensures
        exists|i: int|
            0 <= i < words.len() && is_kept(words, stop, i) && snippets_of_words(
                words,
                stop,
                window,
            )[j] == #[trigger] snippet(words, i, window),
{
    let picked = indices(words.len()).filter(kept(words, stop));
    let i = picked[j];
    indices(words.len()).lemma_filter_pred(kept(words, stop), j);
    assert(picked.contains(i));
    indices(words.len()).lemma_filter_contains_rev(kept(words, stop), i);
    let at = choose|at: int| 0 <= at < words.len() && indices(words.len())[at] == i;
    assert(at == i);
    assert(snippets_of_words(words, stop, window)[j] == snippet(words, i, window));
}

/// The snippet of each kept rotation of `words` is among its snippets.
pub proof fn lemma_snippet_listed(words: Seq<Seq<char>>, stop: Set<Seq<char>>, window: nat, i: int)
    requires
        0 <= i < words.len(),
        is_kept(words, stop, i),
    ensures
        snippets_of_words(words, stop, window).contains(snippet(words, i, window)),
{
    let picked = indices(words.len()).filter(kept(words, stop));
    assert(indices(words.len())[i] == i);
    indices(words.len()).lemma_filter_contains(kept(words, stop), i);
    let j = choose|j: int| 0 <= j < picked.len() && picked[j] == i;
    assert(snippets_of_words(words, stop, window)[j] == snippet(words, i, window));
}

/// The rotation of `words` that starts at index `i`.
pub fn rotate<'a>(words: &[&'a str], i: usize) -> (rot: Vec<&'a str>)
    requires
        i < words@.len(),
    ensures
        rot.deep_view() == rotation(words.deep_view(), i as int),
{
    let n: usize = words.len();
    let mut rot: Vec<&'a str> = Vec::with_capacity(n);
    let mut k: usize = i;
    while k < n
        invariant
            n == words@.len(),
            i <= k <= n,
            rot@ == words@.subrange(i as int, k as int),
        decreases n - k,
    {
        rot.push(words[k]);
        k = k + 1;
    }
    let mut k: usize = 0;
    while k < i
        invariant
            n == words@.len(),
            k <= i < n,
            rot@ == words@.skip(i as int) + words@.take(k as int),
        decreases i - k,
    {
        rot.push(words[k]);
        k = k + 1;
    }
    proof {
        assert(rot.deep_view() =~= rotation(words.deep_view(), i as int));
    }
    rot
}

/// The snippets of one phrase: for each rotation of its words whose leading
/// word, lowercased, is not in `stopwords`, the first `window_size` words of
/// the rotation (all of them where it has fewer), joined by single spaces.
/// The snippets come by rising rotation index.
pub fn generate_snippets(phrase: &str, stopwords: &HashSet<String>, window_size: usize) -> (snippets:
    Vec<String>)
    ensures
        snippets.deep_view() == phrase_snippets(
            phrase@,
            stopwords.deep_view(),
            window_size as nat,
        ),
{
    let words = split_words(phrase);
    let n: usize = words.len();
    let mut snippets: Vec<String> = Vec::with_capacity(n);
    let ghost ws = words.deep_view();
    let ghost stop = stopwords.deep_view();
    let ghost window = window_size as nat;
    let mut i: usize = 0;
    proof {
        assert(indices(0) =~= Seq::<int>::empty());
        assert(snippets.deep_view() =~= Seq::<Seq<char>>::empty());
        reveal(Seq::filter);
    }
    while i < n
        invariant
            n == words@.len(),
            i <= n,
            ws == words.deep_view(),
            stop == stopwords.deep_view(),
            window == window_size as nat,
            snippets.deep_view() == indices(i as nat).filter(kept(ws, stop)).map_values(
                cut(ws, window),
            ),
        decreases n - i,
    {
        let rot = rotate(words.as_slice(), i);
        proof {
            assert(rot.deep_view().len() == rot@.len());
            assert(rotation(ws, i as int).len() == n);
            assert(rot[0]@ == rot.deep_view()[0]);
            assert(rotation(ws, i as int)[0] == ws[i as int]);
        }
        let first = to_lowercase(rot[0]);
        let ghost before = snippets.deep_view();
        if !is_stopword(stopwords, &first) {
            let take: usize = if window_size < n {
                window_size
            } else {
                n
            };
            let head = &rot[0..take];
            let snippet = join_words(head);
            snippets.push(snippet);
            proof {
                assert(head.deep_view() =~= rot.deep_view().take(take as int));
                assert(snippets.deep_view() =~= before.push(cut(ws, window)(i as int)));
            }
        }
        proof {
            let done = indices(i as nat);
            assert(indices((i + 1) as nat) =~= done.push(i as int));
            done.lemma_filter_push(i as int, kept(ws, stop));
            done.filter(kept(ws, stop)).lemma_push_map_commute(cut(ws, window), i as int);
        }
        i = i + 1;
    }
    snippets
}

/// Calls rayon's `par_iter`, `map` and `collect` to apply
/// `generate_snippets` to each phrase. The result holds, at the place of
/// each phrase, what `generate_snippets` yields for it.
#[verifier::external_body]
pub(crate) fn par_generate(
    phrases: &[String],
    stopwords: &HashSet<String>,
    window_size: usize,
) -> (per_phrase: Vec<Vec<String>>)
    ensures
        per_phrase.deep_view() == phrases.deep_view().map_values(
            snippets_with(stopwords.deep_view(), window_size as nat),
        ),
{
    phrases.par_iter().map(|phrase| generate_snippets(phrase, stopwords, window_size)).collect()
}

} // verus!
