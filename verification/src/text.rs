//! Characters, words and the joining of words into snippets.
use vstd::prelude::*;
use vstd::string::StrSliceExecFns;
use vstd::string::StringExecFns;

verus! {

/// Whether `c` has the Unicode property White_Space, as `char::is_whitespace`
/// tells it.
pub uninterp spec fn white_space(c: char) -> bool;

/// The lowercase form of `s`, as `str::to_lowercase` gives it.
pub uninterp spec fn lowercase(s: Seq<char>) -> Seq<char>;

/// A separator is any character with the property White_Space; the ASCII
/// space is one of them.
pub open spec fn is_separator(c: char) -> bool {
    c == ' ' || white_space(c)
}

/// A word is a non-empty run of characters that holds no separator.
pub open spec fn is_word(w: Seq<char>) -> bool {
    w.len() > 0 && forall|k: int| 0 <= k < w.len() ==> !is_separator(#[trigger] w[k])
}

/// The length of the longest prefix of `s` that holds no separator.
pub open spec fn word_len(s: Seq<char>) -> nat
    decreases s.len(),
{
    if s.len() == 0 || is_separator(s[0]) {
        0
    } else {
        1 + word_len(s.drop_first())
    }
}

/// The words of `s`: its maximal runs of characters that are no separators,
/// from left to right.
pub open spec fn words_of(s: Seq<char>) -> Seq<Seq<char>>
    decreases s.len(),
{
    if s.len() == 0 {
        Seq::empty()
    } else if is_separator(s[0]) {
        words_of(s.drop_first())
    } else {
        proof {
            lemma_word_len(s);
        }
        let n = word_len(s) as int;
        seq![s.take(n)] + words_of(s.skip(n))
    }
}

/// The words `ws` with one ASCII space between each two neighbours.
pub open spec fn joined(ws: Seq<Seq<char>>) -> Seq<char>
    decreases ws.len(),
{
    if ws.len() == 0 {
        Seq::empty()
    } else if ws.len() == 1 {
        ws[0]
    } else {
        ws[0] + seq![' '] + joined(ws.drop_first())
    }
}

/// `word_len(s)` is the one position up to which `s` is free of separators
/// and at which `s` ends or holds a separator.
pub proof fn lemma_word_len(s: Seq<char>)
    ensures
        word_len(s) <= s.len(),
        forall|k: int| 0 <= k < word_len(s) ==> !is_separator(#[trigger] s[k]),
        word_len(s) < s.len() ==> is_separator(s[word_len(s) as int]),
        s.len() > 0 && !is_separator(s[0]) ==> word_len(s) >= 1,
    decreases s.len(),
{
    if s.len() == 0 || is_separator(s[0]) {
    } else {
        let t = s.drop_first();
        lemma_word_len(t);
        assert forall|k: int| 0 <= k < word_len(s) implies !is_separator(#[trigger] s[k]) by {
            if k > 0 {
                assert(s[k] == t[k - 1]);
            }
        }
        if word_len(s) < s.len() {
            assert(s[word_len(s) as int] == t[word_len(t) as int]);
        }
    }
}

/// A position up to which `s` is free of separators, and at which `s` ends
/// or holds one, is `word_len(s)`.
pub proof fn lemma_word_len_is(s: Seq<char>, n: int)
    requires
        0 <= n <= s.len(),
        forall|k: int| 0 <= k < n ==> !is_separator(#[trigger] s[k]),
        n == s.len() || is_separator(s[n]),
    ensures
        word_len(s) == n,
    decreases s.len(),
{
    if n == 0 {
    } else {
        let t = s.drop_first();
        assert(!is_separator(s[0]));
        assert forall|k: int| 0 <= k < n - 1 implies !is_separator(#[trigger] t[k]) by {
            assert(t[k] == s[k + 1]);
        }
        lemma_word_len_is(t, n - 1);
    }
}

/// A run of `s` from `a` to `b` that holds no separator and is followed by
/// one, or by the end, is the first word of what `s` holds from `a` on.
pub proof fn lemma_first_word(s: Seq<char>, a: int, b: int)
    requires
        0 <= a < b <= s.len(),
        forall|k: int| a <= k < b ==> !is_separator(#[trigger] s[k]),
        b == s.len() || is_separator(s[b]),
    ensures
        words_of(s.skip(a)) == seq![s.subrange(a, b)] + words_of(s.skip(b)),
{
    let t = s.skip(a);
    assert forall|k: int| 0 <= k < b - a implies !is_separator(#[trigger] t[k]) by {
        assert(t[k] == s[a + k]);
    }
    lemma_word_len_is(t, b - a);
    assert(t.take(b - a) =~= s.subrange(a, b));
    assert(t.skip(b - a) =~= s.skip(b));
    assert(!is_separator(t[0]));
}

/// A separator at `a` adds nothing to the words of what `s` holds from `a` on.
pub proof fn lemma_skip_separator(s: Seq<char>, a: int)
    requires
        0 <= a < s.len(),
        is_separator(s[a]),
    ensures
        words_of(s.skip(a)) == words_of(s.skip(a + 1)),
{
    let t = s.skip(a);
    assert(t[0] == s[a]);
    assert(t.drop_first() =~= s.skip(a + 1));
}

/// What `words_of` yields are words.
pub proof fn lemma_words_are_words(s: Seq<char>)
    ensures
        forall|k: int| 0 <= k < words_of(s).len() ==> is_word(#[trigger] words_of(s)[k]),
    decreases s.len(),
{
    if s.len() == 0 {
        assert(words_of(s).len() == 0);
    } else if is_separator(s[0]) {
        lemma_words_are_words(s.drop_first());
        assert(words_of(s) == words_of(s.drop_first()));
    } else {
        lemma_word_len(s);
        let n = word_len(s) as int;
        let rest = words_of(s.skip(n));
        assert(words_of(s) == seq![s.take(n)] + rest);
        lemma_words_are_words(s.skip(n));
        assert(is_word(s.take(n)));
        assert forall|k: int| 0 <= k < words_of(s).len() implies is_word(
            #[trigger] words_of(s)[k],
        ) by {
            if k > 0 {
                assert(words_of(s)[k] == rest[k - 1]);
            }
        }
    }
}

/// Splitting what was joined from words gives the words back.
pub proof fn lemma_split_joined(ws: Seq<Seq<char>>)
    requires
        forall|k: int| 0 <= k < ws.len() ==> is_word(#[trigger] ws[k]),
    ensures
        words_of(joined(ws)) == ws,
    decreases ws.len(),
{
    if ws.len() == 0 {
    } else {
        let w = ws[0];
        let t = joined(ws);
        assert(is_word(w));
        if ws.len() == 1 {
            lemma_first_word(t, 0, w.len() as int);
            assert(t.skip(0) =~= t);
            assert(t.subrange(0, w.len() as int) =~= w);
            assert(t.skip(w.len() as int) =~= Seq::<char>::empty());
            assert(words_of(t) =~= ws);
        } else {
            let rest = ws.drop_first();
            assert forall|k: int| 0 <= k < rest.len() implies is_word(#[trigger] rest[k]) by {
                assert(rest[k] == ws[k + 1]);
            }
            lemma_split_joined(rest);
            let n = w.len() as int;
            assert forall|k: int| 0 <= k < n implies !is_separator(#[trigger] t[k]) by {
                assert(t[k] == w[k]);
            }
            assert(t[n] == ' ');
            lemma_first_word(t, 0, n);
            lemma_skip_separator(t, n);
            assert(t.skip(0) =~= t);
            assert(t.subrange(0, n) =~= w);
            assert(t.skip(n + 1) =~= joined(rest));
            assert(words_of(t) =~= ws);
        }
    }
}

/// Appending a word to `ws` appends it to the joined text, after a space
/// where `ws` is not empty.
pub proof fn lemma_joined_push(ws: Seq<Seq<char>>, w: Seq<char>)
    ensures
        joined(ws.push(w)) == if ws.len() == 0 {
            w
        } else {
            joined(ws) + seq![' '] + w
        },
    decreases ws.len(),
{
    if ws.len() == 0 {
    } else {
        let rest = ws.drop_first();
        lemma_joined_push(rest, w);
        assert(ws.push(w).drop_first() =~= rest.push(w));
        assert(joined(ws.push(w)) =~= joined(ws) + seq![' '] + w);
    }
}

/// Calls `char::is_whitespace`. Its result is given the name `white_space`;
/// for the ASCII space it is `true`.
#[verifier::external_body]
fn is_whitespace(c: char) -> (r: bool)
    ensures
        r == white_space(c),
        c == ' ' ==> r,
{
    c.is_whitespace()
}

/// Calls `str::to_lowercase`. Its result, which depends on the characters
/// of `s` alone, is given the name `lowercase`.
#[verifier::external_body]
pub(crate) fn to_lowercase(s: &str) -> (r: String)
    ensures
        r@ == lowercase(s@),
{
    s.to_lowercase()
}

/// Splits `phrase` into its words.
pub fn split_words<'a>(phrase: &'a str) -> (words: Vec<&'a str>)
    ensures
        words.deep_view() == words_of(phrase@),
{
    let len: usize = phrase.unicode_len();
    let mut words: Vec<&'a str> = Vec::new();
    let mut start: usize = 0;
    let mut pos: usize = 0;
    proof {
        assert(phrase@.skip(0) =~= phrase@);
        assert(words.deep_view() =~= Seq::<Seq<char>>::empty());
    }
    for c in it: phrase.chars()
        invariant
            it.seq() == phrase@,
            len == phrase@.len(),
            pos == it.index(),
            start <= pos <= len,
            forall|k: int| start <= k < pos ==> !is_separator(#[trigger] phrase@[k]),
            words_of(phrase@) == words.deep_view() + words_of(phrase@.skip(start as int)),
    {
        if is_whitespace(c) {
            if start < pos {
                let word: &'a str = phrase.substring_char(start, pos);
                let ghost before = words.deep_view();
                words.push(word);
                proof {
                    lemma_first_word(phrase@, start as int, pos as int);
                    assert(words.deep_view() =~= before.push(word@));
                }
            }
            proof {
                lemma_skip_separator(phrase@, pos as int);
            }
            start = pos + 1;
        }
        pos = pos + 1;
    }
    proof {
        assert(phrase@.skip(len as int) =~= Seq::<char>::empty());
    }
    if start < len {
        let word: &'a str = phrase.substring_char(start, len);
        let ghost before = words.deep_view();
        words.push(word);
        proof {
            lemma_first_word(phrase@, start as int, len as int);
            assert(words.deep_view() =~= before.push(word@));
        }
    }
    words
}

/// Joins `words` with one ASCII space between each two neighbours.
pub fn join_words(words: &[&str]) -> (line: String)
    ensures
        line@ == joined(words.deep_view()),
{
    let n: usize = words.len();
    let mut line = String::new();
    let mut k: usize = 0;
    proof {
        assert(words.deep_view().take(0) =~= Seq::<Seq<char>>::empty());
    }
    while k < n
        invariant
            n == words@.len(),
            k <= n,
            line@ == joined(words.deep_view().take(k as int)),
        decreases n - k,
    {
        if k > 0 {
            line.append(" ");
        }
        line.append(words[k]);
        proof {
            reveal_strlit(" ");
            let done = words.deep_view().take(k as int);
            lemma_joined_push(done, words[k as int]@);
            assert(words.deep_view().take(k + 1) =~= done.push(words[k as int]@));
            assert(" "@ =~= seq![' ']);
        }
        k = k + 1;
    }
    proof {
        assert(words.deep_view().take(n as int) =~= words.deep_view());
    }
    line
}

} // verus!
