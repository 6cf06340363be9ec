//! Key-Word-In-Context index: rotations of phrases, filtered by stopwords,
//! cut to a window, deduplicated and sorted.
pub mod aggregate;
pub mod order;
pub mod rotation;
pub mod stopwords;
pub mod text;

use crate::aggregate::{aggregate, is_index_of, lemma_flatten_contains, lemma_index_unique};
use crate::rotation::{
    is_kept, lemma_snippet_listed, lemma_snippet_origin, lemma_snippet_words, par_generate,
    phrase_snippets, snippet, snippets_with, window_len,
};
use crate::text::{lemma_words_are_words, lowercase, words_of};
use std::collections::HashSet;
use vstd::prelude::*;

verus! {

/// The snippets of all `phrases`, phrase after phrase.
pub open spec fn all_snippets(phrases: Seq<Seq<char>>, stop: Set<Seq<char>>, window: nat) -> Seq<
    Seq<char>,
> {
    phrases.map_values(snippets_with(stop, window)).flatten()
}

/// The index of `phrases`: the snippets of all kept rotations of all
/// phrases, each listed once, sorted as `case_sensitive` asks.
///
/// `stopwords` holds lowercase words; a rotation is kept unless its leading
/// word, lowercased, is one of them. A snippet holds at most `window_size`
/// words; a window of zero words cuts every snippet to the empty string.
pub fn gerar_rotations(
    phrases: &[String],
    stopwords: &HashSet<String>,
    window_size: usize,
    case_sensitive: bool,
) -> (index: Vec<String>)
    ensures
        is_index_of(
            index.deep_view(),
            all_snippets(phrases.deep_view(), stopwords.deep_view(), window_size as nat),
            case_sensitive,
        ),
{
    let per_phrase = par_generate(phrases, stopwords, window_size);
    aggregate(per_phrase, case_sensitive)
}

/// The index is a function of the phrases, the stopwords, the window and
/// the order asked for: whatever two runs yield on them is one sequence.
pub proof fn lemma_index_determined(
    first: Seq<Seq<char>>,
    second: Seq<Seq<char>>,
    phrases: Seq<Seq<char>>,
    stop: Set<Seq<char>>,
    window: nat,
    case_sensitive: bool,
)
    requires
        is_index_of(first, all_snippets(phrases, stop, window), case_sensitive),
        is_index_of(second, all_snippets(phrases, stop, window), case_sensitive),
    ensures
        first == second,
{
    let snippets = all_snippets(phrases, stop, window);
    lemma_index_unique(first, second, snippets, snippets, case_sensitive);
}

/// Each entry of the index is the snippet of a kept rotation of one of the
/// phrases.
pub proof fn lemma_index_origin(
    index: Seq<Seq<char>>,
    phrases: Seq<Seq<char>>,
    stop: Set<Seq<char>>,
    window: nat,
    case_sensitive: bool,
    j: int,
) -> (at: (int, int))
    requires
        is_index_of(index, all_snippets(phrases, stop, window), case_sensitive),
        0 <= j < index.len(),
    ensures
        0 <= at.0 < phrases.len(),
        0 <= at.1 < words_of(phrases[at.0]).len(),
        is_kept(words_of(phrases[at.0]), stop, at.1),
        index[j] == snippet(words_of(phrases[at.0]), at.1, window),
{
    let lists = phrases.map_values(snippets_with(stop, window));
    assert(index.to_set().contains(index[j]));
    assert(lists.flatten().contains(index[j]));
    lemma_flatten_contains(lists, index[j]);
    let p = choose|p: int| 0 <= p < lists.len() && (#[trigger] lists[p]).contains(index[j]);
    let words = words_of(phrases[p]);
    assert(lists[p] == phrase_snippets(phrases[p], stop, window));
    let k = choose|k: int| 0 <= k < lists[p].len() && lists[p][k] == index[j];
    lemma_snippet_origin(words, stop, window, k);
    let i = choose|i: int|
        0 <= i < words.len() && is_kept(words, stop, i) && lists[p][k] == #[trigger] snippet(
            words,
            i,
            window,
        );
    (p, i)
}

/// The snippet of each kept rotation of each phrase is an entry of the index.
pub proof fn lemma_index_complete(
    index: Seq<Seq<char>>,
    phrases: Seq<Seq<char>>,
    stop: Set<Seq<char>>,
    window: nat,
    case_sensitive: bool,
    p: int,
    i: int,
)
    requires
        is_index_of(index, all_snippets(phrases, stop, window), case_sensitive),
        0 <= p < phrases.len(),
        0 <= i < words_of(phrases[p]).len(),
        is_kept(words_of(phrases[p]), stop, i),
    ensures
        index.contains(snippet(words_of(phrases[p]), i, window)),
{
    let lists = phrases.map_values(snippets_with(stop, window));
    let s = snippet(words_of(phrases[p]), i, window);
    lemma_snippet_listed(words_of(phrases[p]), stop, window, i);
    assert(lists[p] == phrase_snippets(phrases[p], stop, window));
    lemma_flatten_contains(lists, s);
    assert(lists.flatten().to_set().contains(s));
    assert(index.to_set().contains(s));
}

/// An entry of the index holds at most `window` words: as many as the
/// window admits of the words of the phrase it was cut from.
pub proof fn lemma_index_window(
    index: Seq<Seq<char>>,
    phrases: Seq<Seq<char>>,
    stop: Set<Seq<char>>,
    window: nat,
    case_sensitive: bool,
    j: int,
)
    requires
        is_index_of(index, all_snippets(phrases, stop, window), case_sensitive),
        0 <= j < index.len(),
    ensures
        words_of(index[j]).len() <= window,
        exists|p: int|
            0 <= p < phrases.len() && words_of(index[j]).len() == window_len(
                window,
                (#[trigger] words_of(phrases[p])).len(),
            ),
{
    let (p, i) = lemma_index_origin(index, phrases, stop, window, case_sensitive, j);
    lemma_words_are_words(phrases[p]);
    lemma_snippet_words(words_of(phrases[p]), i, window);
}

/// The leading word of an entry of the index, lowercased, is no stopword.
/// Under a window of at least one word every entry has a leading word.
pub proof fn lemma_index_leading_word(
    index: Seq<Seq<char>>,
    phrases: Seq<Seq<char>>,
    stop: Set<Seq<char>>,
    window: nat,
    case_sensitive: bool,
    j: int,
)
    requires
        is_index_of(index, all_snippets(phrases, stop, window), case_sensitive),
        0 <= j < index.len(),
    ensures
        window > 0 ==> words_of(index[j]).len() > 0,
        words_of(index[j]).len() > 0 ==> !stop.contains(lowercase(words_of(index[j])[0])),
{
    let (p, i) = lemma_index_origin(index, phrases, stop, window, case_sensitive, j);
    lemma_words_are_words(phrases[p]);
    lemma_snippet_words(words_of(phrases[p]), i, window);
}

} // verus!
