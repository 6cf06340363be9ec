//! The order in which an index lists its snippets.
use crate::text::{lowercase, to_lowercase};
use rayon::slice::ParallelSliceMut;
use vstd::prelude::*;
use vstd::relations::{sorted_by, total_ordering};

verus! {

/// Ordinal order of strings: at the first position where `a` and `b` differ
/// the character of `a` has the smaller code point, or `a` ends there.
pub open spec fn ordinal_le(a: Seq<char>, b: Seq<char>) -> bool
    decreases a.len(),
{
    if a.len() == 0 {
        true
    } else if b.len() == 0 {
        false
    } else if a[0] == b[0] {
        ordinal_le(a.drop_first(), b.drop_first())
    } else {
        a[0] < b[0]
    }
}

/// Order that ignores case first: by the lowercase forms in ordinal order,
/// and among strings with one lowercase form by the strings themselves.
pub open spec fn folded_le(a: Seq<char>, b: Seq<char>) -> bool {
    if lowercase(a) == lowercase(b) {
        ordinal_le(a, b)
    } else {
        ordinal_le(lowercase(a), lowercase(b))
    }
}

/// The order of an index: ordinal where case counts, folded where it does not.
pub open spec fn snippet_le(case_sensitive: bool) -> spec_fn(Seq<char>, Seq<char>) -> bool {
    |a: Seq<char>, b: Seq<char>|
        if case_sensitive {
            ordinal_le(a, b)
        } else {
            folded_le(a, b)
        }
}

/// Every string is at most itself.
pub proof fn lemma_ordinal_reflexive(a: Seq<char>)
    ensures
        ordinal_le(a, a),
    decreases a.len(),
{
    if a.len() > 0 {
        lemma_ordinal_reflexive(a.drop_first());
    }
}

/// Two strings that are each at most the other are one string.
pub proof fn lemma_ordinal_antisymmetric(a: Seq<char>, b: Seq<char>)
    requires
        ordinal_le(a, b),
        ordinal_le(b, a),
    ensures
        a == b,
    decreases a.len(),
{
    if a.len() == 0 || b.len() == 0 {
        assert(a =~= b);
    } else {
        lemma_ordinal_antisymmetric(a.drop_first(), b.drop_first());
        assert(a =~= seq![a[0]] + a.drop_first());
        assert(b =~= seq![b[0]] + b.drop_first());
    }
}

/// The ordinal order is transitive.
pub proof fn lemma_ordinal_transitive(a: Seq<char>, b: Seq<char>, c: Seq<char>)
    requires
        ordinal_le(a, b),
        ordinal_le(b, c),
    ensures
        ordinal_le(a, c),
    decreases a.len(),
{
    if a.len() == 0 || b.len() == 0 || c.len() == 0 {
    } else if a[0] == b[0] && b[0] == c[0] {
        lemma_ordinal_transitive(a.drop_first(), b.drop_first(), c.drop_first());
    }
}

/// Of two strings one is at most the other.
pub proof fn lemma_ordinal_connected(a: Seq<char>, b: Seq<char>)
    ensures
        ordinal_le(a, b) || ordinal_le(b, a),
    decreases a.len(),
{
    if a.len() == 0 || b.len() == 0 {
    } else if a[0] == b[0] {
        lemma_ordinal_connected(a.drop_first(), b.drop_first());
    }
}

/// Either order of an index is a total order of strings.
pub proof fn lemma_snippet_le_total(case_sensitive: bool)
    ensures
        total_ordering(snippet_le(case_sensitive)),
{
    let le = snippet_le(case_sensitive);
    assert forall|a: Seq<char>| #[trigger] le(a, a) by {
        lemma_ordinal_reflexive(a);
    }
    assert forall|a: Seq<char>, b: Seq<char>| #[trigger] le(a, b) && #[trigger] le(b, a) implies a
        == b by {
        if case_sensitive || lowercase(a) == lowercase(b) {
            lemma_ordinal_antisymmetric(a, b);
        } else {
            lemma_ordinal_antisymmetric(lowercase(a), lowercase(b));
        }
    }
    assert forall|a: Seq<char>, b: Seq<char>, c: Seq<char>| #[trigger]
        le(a, b) && #[trigger] le(b, c) implies le(a, c) by {
        if case_sensitive {
            lemma_ordinal_transitive(a, b, c);
        } else {
            let ka = lowercase(a);
            let kb = lowercase(b);
            let kc = lowercase(c);
            lemma_ordinal_reflexive(ka);
            lemma_ordinal_reflexive(kb);
            assert(ordinal_le(ka, kb));
            assert(ordinal_le(kb, kc));
            lemma_ordinal_transitive(ka, kb, kc);
            if ka == kc {
                lemma_ordinal_antisymmetric(ka, kb);
                lemma_ordinal_transitive(a, b, c);
            }
        }
    }
    assert forall|a: Seq<char>, b: Seq<char>| #[trigger] le(a, b) || #[trigger] le(b, a) by {
        if case_sensitive || lowercase(a) == lowercase(b) {
            lemma_ordinal_connected(a, b);
        } else {
            lemma_ordinal_connected(lowercase(a), lowercase(b));
        }
    }
}

/// The key by which snippets are compared where case does not count: the
/// lowercase form first, the snippet itself second.
pub fn folded_key(snippet: &String) -> (key: (String, String))
    ensures
        key.0@ == lowercase(snippet@),
        key.1@ == snippet@,
{
    (to_lowercase(snippet.as_str()), snippet.clone())
}

/// Calls `sort` of slices. After it `v` holds the strings it held before,
/// each as often as before, in the ordinal order of strings.
#[verifier::external_body]
pub(crate) fn sort_ordinal(v: &mut Vec<String>)
    ensures
        final(v).deep_view().to_multiset() == old(v).deep_view().to_multiset(),
        sorted_by(final(v).deep_view(), snippet_le(true)),
{
    v.sort();
}

/// Calls rayon's `par_sort_by_key` with `folded_key`. After it `v` holds the
/// strings it held before, each as often as before, by rising key: pairs
/// are compared by their first parts, and by their second parts where the
/// first are equal, in the ordinal order of strings.
#[verifier::external_body]
pub(crate) fn par_sort_folded(v: &mut Vec<String>)
    ensures
        final(v).deep_view().to_multiset() == old(v).deep_view().to_multiset(),
        sorted_by(final(v).deep_view(), snippet_le(false)),
{
    v.par_sort_by_key(folded_key);
}

} // verus!
