//! Merging the snippets of all phrases into one index.
use crate::order::{par_sort_folded, snippet_le, sort_ordinal};
use rayon::iter::{IntoParallelIterator, ParallelIterator};
use std::collections::HashSet;
use vstd::prelude::*;
use crate::order::{lemma_ordinal_reflexive, lemma_snippet_le_total, ordinal_le};
use crate::text::lowercase;
use vstd::relations::sorted_by;
use vstd::seq_lib::lemma_sorted_unique;

verus! {

/// `index` is the index of `snippets`: it lists each string that occurs in
/// `snippets` once, and no other, in the order that `case_sensitive` asks for.
pub open spec fn is_index_of(
    index: Seq<Seq<char>>,
    snippets: Seq<Seq<char>>,
    case_sensitive: bool,
) -> bool {
    &&& index.no_duplicates()
    &&& index.to_set() == snippets.to_set()
    &&& sorted_by(index, snippet_le(case_sensitive))
}

/// An empty list of snippets.
pub fn no_snippets() -> (v: Vec<String>)
    ensures
        v@ == Seq::<String>::empty(),
{
    Vec::new()
}

/// The snippets of `first`, then those of `second`.
pub fn chained(first: Vec<String>, second: Vec<String>) -> (both: Vec<String>)
    ensures
        both@ == first@ + second@,
{
    let mut both = first;
    let mut rest = second;
    both.append(&mut rest);
    both
}

/// Calls rayon's `reduce` on the lists of `per_phrase`, with `no_snippets`
/// as identity and `chained` as operation. The operation is associative and
/// the identity neutral, so the result is the lists laid end to end in
/// their order.
#[verifier::external_body]
fn par_concat(per_phrase: Vec<Vec<String>>) -> (all: Vec<String>)
    ensures
        all.deep_view() == per_phrase.deep_view().flatten(),
{
    per_phrase.into_par_iter().reduce(no_snippets, chained)
}

/// Calls rayon's `collect` into a hash set. The set holds the strings that
/// occur in `all`.
#[verifier::external_body]
fn par_distinct(all: Vec<String>) -> (distinct: HashSet<String>)
    ensures
        distinct.deep_view() == all.deep_view().to_set(),
{
    all.into_par_iter().collect()
}

/// Calls rayon's `collect` on the parallel iterator of a hash set. The
/// result lists each string of the set once, in no order that could be
/// told beforehand.
#[verifier::external_body]
fn par_listed(distinct: HashSet<String>) -> (list: Vec<String>)
    ensures
        list.deep_view().no_duplicates(),
        list.deep_view().to_set() == distinct.deep_view(),
{
    distinct.into_par_iter().collect()
}

/// A rearrangement of a list without duplicates has none either, and
/// holds the same strings.
pub proof fn lemma_rearranged(a: Seq<Seq<char>>, b: Seq<Seq<char>>)
    requires
        a.no_duplicates(),
        a.to_multiset() == b.to_multiset(),
    ensures
        b.no_duplicates(),
        b.to_set() == a.to_set(),
{
    broadcast use vstd::seq_lib::group_to_multiset_ensures;

    a.lemma_multiset_has_no_duplicates();
    b.lemma_multiset_has_no_duplicates_conv();
    assert forall|s: Seq<char>| a.to_set().contains(s) <==> b.to_set().contains(s) by {
        assert(a.contains(s) <==> a.to_multiset().count(s) > 0);
        assert(b.contains(s) <==> b.to_multiset().count(s) > 0);
    }
    assert(b.to_set() =~= a.to_set());
}

/// A string occurs in the lists laid end to end where it occurs in one of
/// the lists.
pub proof fn lemma_flatten_contains(lists: Seq<Seq<Seq<char>>>, s: Seq<char>)
    ensures
        lists.flatten().contains(s) <==> exists|p: int|
            0 <= p < lists.len() && (#[trigger] lists[p]).contains(s),
    decreases lists.len(),
{
    broadcast use vstd::seq_lib::group_seq_properties;

    if lists.len() == 0 {
    } else {
        let rest = lists.drop_first();
        lemma_flatten_contains(rest, s);
        assert(lists.flatten() == lists[0] + rest.flatten());
        if lists.flatten().contains(s) {
            if lists[0].contains(s) {
            } else {
                let p = choose|p: int| 0 <= p < rest.len() && (#[trigger] rest[p]).contains(s);
                assert(lists[p + 1] == rest[p]);
            }
        }
        if exists|p: int| 0 <= p < lists.len() && (#[trigger] lists[p]).contains(s) {
            let p = choose|p: int| 0 <= p < lists.len() && (#[trigger] lists[p]).contains(s);
            if p > 0 {
                assert(rest[p - 1] == lists[p]);
            }
        }
    }
}

/// Lists that hold the same strings have one index under each order: the
/// index depends neither on the order in which the snippets arrive nor on
/// how often each arrives.
pub proof fn lemma_index_unique(
    a: Seq<Seq<char>>,
    b: Seq<Seq<char>>,
    snippets_a: Seq<Seq<char>>,
    snippets_b: Seq<Seq<char>>,
    case_sensitive: bool,
)
    requires
        is_index_of(a, snippets_a, case_sensitive),
        is_index_of(b, snippets_b, case_sensitive),
        snippets_a.to_set() == snippets_b.to_set(),
    ensures
        a == b,
{
    broadcast use vstd::seq_lib::group_to_multiset_ensures;

    a.lemma_multiset_has_no_duplicates();
    b.lemma_multiset_has_no_duplicates();
    assert forall|s: Seq<char>| a.to_multiset().count(s) == b.to_multiset().count(s) by {
        assert(a.contains(s) <==> a.to_set().contains(s));
        assert(b.contains(s) <==> b.to_set().contains(s));
        assert(a.contains(s) <==> a.to_multiset().count(s) > 0);
        assert(b.contains(s) <==> b.to_multiset().count(s) > 0);
    }
    assert(a.to_multiset() =~= b.to_multiset());
    lemma_snippet_le_total(case_sensitive);
    lemma_sorted_unique(a, b, snippet_le(case_sensitive));
}

/// An index rises: where case counts, in the ordinal order of strings;
/// where it does not, in the ordinal order of the lowercase forms. No string
/// stands at two places.
pub proof fn lemma_index_sorted(
    index: Seq<Seq<char>>,
    snippets: Seq<Seq<char>>,
    case_sensitive: bool,
    i: int,
    j: int,
)
    requires
        is_index_of(index, snippets, case_sensitive),
        0 <= i < j < index.len(),
    ensures
        index[i] != index[j],
        case_sensitive ==> ordinal_le(index[i], index[j]),
        !case_sensitive ==> ordinal_le(lowercase(index[i]), lowercase(index[j])),
{
    assert(snippet_le(case_sensitive)(index[i], index[j]));
    lemma_ordinal_reflexive(lowercase(index[i]));
}

/// The index of the snippets of all phrases: every snippet once, sorted.
/// Where `case_sensitive` holds the order is the ordinal order of strings;
/// where it does not, snippets are ordered by their lowercase forms, and
/// snippets with one lowercase form by the ordinal order.
pub fn aggregate(per_phrase: Vec<Vec<String>>, case_sensitive: bool) -> (index: Vec<String>)
    ensures
        is_index_of(index.deep_view(), per_phrase.deep_view().flatten(), case_sensitive),
{
    let all = par_concat(per_phrase);
    let distinct = par_distinct(all);
    let mut index = par_listed(distinct);
    let ghost listed = index.deep_view();
    if case_sensitive {
        sort_ordinal(&mut index);
    } else {
        par_sort_folded(&mut index);
    }
    proof {
        lemma_rearranged(listed, index.deep_view());
    }
    index
}

} // verus!
