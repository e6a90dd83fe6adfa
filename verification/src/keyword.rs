//! The keyword, its ranks, and what it means for a prefix of the keyword to
//! occur in a string as a subsequence.

use vstd::prelude::*;

verus! {

/// Number of symbols of the keyword.
pub const KEYWORD_LEN: usize = 7;

/// The keyword in letters.
pub open spec fn keyword() -> Seq<char> {
    seq!['G', 'E', 'O', 'L', 'Y', 'M', 'P']
}

/// The keyword in ranks: symbol `k` is written as the number `k`.
pub open spec fn rank_word() -> Seq<u8> {
    seq![0u8, 1u8, 2u8, 3u8, 4u8, 5u8, 6u8]
}

/// Number of ways in which the first `k` symbols of `word` occur in `s` as a
/// subsequence, that is, the number of strictly increasing position tuples of
/// `s` that spell them. An occurrence either leaves the last symbol of `s`
/// out, or ends in it.
pub open spec fn occurrences<T>(word: Seq<T>, s: Seq<T>, k: nat) -> nat
    decreases s.len(),
{
    if k == 0 {
        1
    } else if s.len() == 0 {
        0
    } else if k <= word.len() && s.last() == word[k - 1] {
        occurrences(word, s.drop_last(), k) + occurrences(word, s.drop_last(), (k - 1) as nat)
    } else {
        occurrences(word, s.drop_last(), k)
    }
}

/// Every symbol of `s` is a rank of the keyword.
pub open spec fn all_ranks(s: Seq<u8>) -> bool {
    forall|j: int| 0 <= j < s.len() ==> #[trigger] s[j] < KEYWORD_LEN
}

/// The letter that stands at rank `r` in the keyword.
pub open spec fn letter_of(r: u8) -> char {
    keyword()[r as int]
}

/// A string of ranks written in the symbols of `charset`, which holds the
/// symbol of rank `k` at position `k`.
pub open spec fn spelled(s: Seq<u8>, charset: Seq<char>) -> Seq<char> {
    s.map_values(|r: u8| charset[r as int])
}

/// A string of ranks written in letters.
pub open spec fn letters_of(s: Seq<u8>) -> Seq<char> {
    spelled(s, keyword())
}

/// Spelling goes symbol by symbol: it distributes over concatenation.
pub proof fn lemma_spelled_concat(a: Seq<u8>, b: Seq<u8>, charset: Seq<char>)
    ensures
        spelled(a + b, charset) == spelled(a, charset) + spelled(b, charset),
{
    assert(spelled(a + b, charset) =~= spelled(a, charset) + spelled(b, charset));
}

/// Writing ranks as letters keeps every occurrence count.
pub proof fn lemma_letters_keep_occurrences(s: Seq<u8>, k: nat)
    requires
        all_ranks(s),
    ensures
        occurrences(keyword(), letters_of(s), k) == occurrences(rank_word(), s, k),
    decreases s.len(),
{
    if k != 0 && s.len() != 0 {
        let t = s.drop_last();
        assert(letters_of(s).drop_last() =~= letters_of(t));
        assert(letters_of(s).last() == letter_of(s.last()));
        assert(s[s.len() - 1] < KEYWORD_LEN);
        lemma_letters_keep_occurrences(t, k);
        lemma_letters_keep_occurrences(t, (k - 1) as nat);
        if k <= 7 {
            assert((letter_of(s.last()) == keyword()[k - 1]) <==> (s.last() == rank_word()[k - 1]));
        }
    }
}

/// The rank of a letter of the keyword; `None` for any other character.
pub fn rank_of(c: char) -> (r: Option<u8>)
    ensures
        match r {
            Some(k) => k < KEYWORD_LEN && letter_of(k) == c,
            None => forall|k: u8| k < KEYWORD_LEN ==> letter_of(k) != c,
        },
{
    let r = match c {
        'G' => Some(0u8),
        'E' => Some(1u8),
        'O' => Some(2u8),
        'L' => Some(3u8),
        'Y' => Some(4u8),
        'M' => Some(5u8),
        'P' => Some(6u8),
        _ => None,
    };
    r
}

} // verus!
