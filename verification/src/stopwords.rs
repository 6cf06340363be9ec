//! The set of stopwords.
use crate::text::{lowercase, to_lowercase};
use std::collections::HashSet;
use vstd::prelude::*;

verus! {

/// `lowercase` as a function of the string.
pub open spec fn lowercased() -> spec_fn(Seq<char>) -> Seq<char> {
    |s: Seq<char>| lowercase(s)
}

/// Calls `HashSet::contains`. The result tells whether some string of the
/// set holds the characters of `word`.
#[verifier::external_body]
pub(crate) fn is_stopword(stopwords: &HashSet<String>, word: &String) -> (r: bool)
    ensures
        r == stopwords.deep_view().contains(word@),
{
    stopwords.contains(word)
}

/// Calls `HashSet::insert`. After it the set holds the characters of `word`
/// besides what it held before.
#[verifier::external_body]
fn insert_word(stopwords: &mut HashSet<String>, word: String)
    ensures
        final(stopwords).deep_view() == old(stopwords).deep_view().insert(word@),
{
    stopwords.insert(word);
}

/// The stopword set made of `words`: it holds the lowercase form of each.
pub fn stopword_set(words: &[String]) -> (stopwords: HashSet<String>)
    ensures
        stopwords.deep_view() == words.deep_view().map_values(lowercased()).to_set(),
{
    let n: usize = words.len();
    let mut stopwords: HashSet<String> = HashSet::new();
    let mut k: usize = 0;
    proof {
        assert(words.deep_view().take(0).map_values(lowercased()).to_set() =~= Set::<
            Seq<char>,
        >::empty());
        assert(stopwords.deep_view() =~= Set::<Seq<char>>::empty());
    }
    while k < n
        invariant
            n == words@.len(),
            k <= n,
            stopwords.deep_view() == words.deep_view().take(k as int).map_values(
                lowercased(),
            ).to_set(),
        decreases n - k,
    {
        let word = to_lowercase(words[k].as_str());
        insert_word(&mut stopwords, word);
        proof {
            let done = words.deep_view().take(k as int);
            assert(words.deep_view().take(k + 1) =~= done.push(words[k as int]@));
            done.lemma_push_map_commute(lowercased(), words[k as int]@);
            done.map_values(lowercased()).lemma_push_to_set_commute(lowercase(words[k as int]@));
        }
        k = k + 1;
    }
    proof {
        assert(words.deep_view().take(n as int) =~= words.deep_view());
    }
    stopwords
}

} // verus!
