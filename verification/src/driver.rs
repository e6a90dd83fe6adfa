//! The driver: it tries seeds for the target, for half the target, and so
//! on down to the empty seed, and searches on top of each until one search
//! finds a string.

use vstd::prelude::*;
use vstd::string::*;
use vstd::arithmetic::power2::pow2;
use crate::keyword::{
    KEYWORD_LEN, all_ranks, keyword, lemma_letters_keep_occurrences, lemma_spelled_concat,
    letters_of, occurrences, rank_word,
};
use crate::counts::{lemma_prefix_counts_concat, lemma_prefix_counts_empty, prefix_counts};
use crate::search::{
    Searcher, chunks_ranks, completable, first_completion, lemma_chunks_ranks_valid,
    lemma_first_completion_unique, new_arena,
};
use crate::seed::{build_base, floor_log2, lemma_seed, lemma_seed_length, seed_ranks};

verus! {

/// The largest length of a string that `solve` hands out.
pub const LENGTH_BOUND: usize = 1000;

/// Why no string was built.
#[derive(Clone, Copy, Debug, PartialEq, Eq)]
pub enum SolveError {
    /// No seed, the empty one included, led to a string for the target.
    TargetUnreachable,
    /// The length bound is shorter than the keyword.
    ConfigurationError,
}

/// The seed that is tried at magnitude `m`: none at zero.
pub open spec fn seed_for(m: nat) -> Seq<u8> {
    if m == 0 {
        Seq::empty()
    } else {
        seed_ranks(m)
    }
}

/// The seed of magnitude `m`, alone or with keyword suffixes behind it,
/// meets the target within the bound.
pub open spec fn seed_completable(m: nat, target: nat, bound: nat) -> bool {
    completable(prefix_counts(seed_for(m)), seed_for(m).len(), target, bound)
}

/// One of the magnitudes `m`, `m / 2`, `m / 4`, down to zero has a seed
/// that can be completed.
pub open spec fn some_seed_completable(m: nat, target: nat, bound: nat) -> bool
    decreases m,
{
    seed_completable(m, target, bound) || (m > 0 && some_seed_completable(m / 2, target, bound))
}

/// The string that is built on the seed of magnitude `m` where that seed
/// can be completed: the seed alone where it meets the target, and else the
/// seed with the first completing list of suffixes behind it.
pub open spec fn seed_answer(m: nat, target: nat, bound: nat) -> Seq<u8> {
    let base = seed_for(m);
    if prefix_counts(base)[6] == target {
        base
    } else {
        base + chunks_ranks(
            choose|cs: Seq<int>|
                first_completion(prefix_counts(base), base.len(), cs, target, bound),
        )
    }
}

/// The string, in ranks, that is built for `target` when the magnitudes
/// from `m` down are still to be tried: that of the first magnitude among
/// `m`, `m / 2`, `m / 4`, down to zero whose seed can be completed.
pub open spec fn answer_ranks(m: nat, target: nat, bound: nat) -> Seq<u8>
    decreases m,
{
    if seed_completable(m, target, bound) {
        seed_answer(m, target, bound)
    } else if m > 0 {
        answer_ranks(m / 2, target, bound)
    } else {
        Seq::empty()
    }
}

/// A power of two that fits into 32 bits is reached by its own seed alone,
/// under every bound of 560 symbols or more.
pub proof fn lemma_power_of_two_reachable(target: nat, bound: nat)
    requires
        1 <= target <= u32::MAX,
        target == pow2(floor_log2(target)),
        bound >= 560,
    ensures
        some_seed_completable(target, target, bound),
        answer_ranks(target, target, bound) == seed_ranks(target),
{
    lemma_seed(target);
    lemma_seed_length(target);
}

/// Zero is reached by the empty string, under every bound.
pub proof fn lemma_zero_reachable(bound: nat)
    ensures
        some_seed_completable(0, 0, bound),
        answer_ranks(0, 0, bound) == Seq::<u8>::empty(),
{
    lemma_prefix_counts_empty();
}

/// Every symbol of `s` is a letter of the keyword.
pub open spec fn all_letters(s: Seq<char>) -> bool {
    forall|j: int| 0 <= j < s.len() ==> keyword().contains(#[trigger] s[j])
}

/// Writes a string of ranks in letters.
pub fn to_letters(ranks: &[u8]) -> (r: String)
    requires
        all_ranks(ranks@),
    ensures
        r@ == letters_of(ranks@),
{
    let mut r = String::new();
    let mut n: usize = 0;
    proof {
        reveal_strlit("GEOLYMP");
        assert("GEOLYMP"@ =~= keyword());
    }
    while n < ranks.len()
        invariant
            n <= ranks.len(),
            all_ranks(ranks@),
            "GEOLYMP"@ == keyword(),
            r@ == letters_of(ranks@.take(n as int)),
        decreases ranks.len() - n,
    {
        let k = ranks[n] as usize;
        r.append("GEOLYMP".substring_char(k, k + 1));
        n += 1;
        assert(r@ =~= letters_of(ranks@.take(n as int)));
    }
    assert(ranks@.take(n as int) =~= ranks@);
    r
}

/// Builds a string over the letters of the keyword that holds the keyword
/// exactly `target` times as a subsequence and has at most `length_bound`
/// symbols. A bound below the length of the keyword is refused before any
/// search. Otherwise a string is found exactly when some seed, from that of
/// the target down to the empty one, can be completed by keyword suffixes.
pub fn solve_within(target: u32, length_bound: usize) -> (r: Result<String, SolveError>)
    ensures
        match r {
            Ok(s) => {
                &&& s@ == letters_of(answer_ranks(target as nat, target as nat, length_bound as nat))
                &&& occurrences(keyword(), s@, 7) == target
                &&& s@.len() <= length_bound
                &&& all_letters(s@)
                &&& target == 0 ==> s@.len() == 0
            },
            Err(SolveError::ConfigurationError) => length_bound < KEYWORD_LEN,
            Err(SolveError::TargetUnreachable) => {
                &&& length_bound >= KEYWORD_LEN
                &&& !some_seed_completable(target as nat, target as nat, length_bound as nat)
            },
        },
        r is Ok <==> length_bound >= KEYWORD_LEN && some_seed_completable(
            target as nat,
            target as nat,
            length_bound as nat,
        ),
        target == 0 && length_bound >= KEYWORD_LEN ==> r is Ok,
{
    proof {
        lemma_zero_reachable(length_bound as nat);
    }
    if length_bound < KEYWORD_LEN {
        return Err(SolveError::ConfigurationError);
    }
    let arena = new_arena();
    let searcher = Searcher::new(target, length_bound, &arena);
    let mut m: u32 = target;
    loop
        invariant
            searcher.wf(),
            searcher.target == target,
            searcher.length_bound == length_bound,
            length_bound >= KEYWORD_LEN,
            m <= target,
            some_seed_completable(target as nat, target as nat, length_bound as nat)
                <==> some_seed_completable(m as nat, target as nat, length_bound as nat),
            answer_ranks(target as nat, target as nat, length_bound as nat) == answer_ranks(
                m as nat,
                target as nat,
                length_bound as nat,
            ),
        decreases m + 1,
    {
        let base: Vec<u8> = if m == 0 {
            Vec::new()
        } else {
            build_base(m)
        };
        proof {
            assert(base@ =~= seed_for(m as nat));
            if m == 0 {
                lemma_prefix_counts_empty();
            }
        }
        match searcher.search_with_base(base.as_slice()) {
            Some(node) => {
                let mut out = to_letters(base.as_slice());
                proof {
                    reveal_strlit("GEOLYMP");
                    assert("GEOLYMP"@ =~= keyword());
                }
                let tail = node.to_string_with_charset("GEOLYMP");
                out.append(tail.as_str());
                proof {
                    let cs = node.chunks();
                    let whole = base@ + chunks_ranks(cs);
                    node.lemma_wf_closed();
                    lemma_chunks_ranks_valid(cs);
                    lemma_spelled_concat(base@, chunks_ranks(cs), keyword());
                    assert(out@ == letters_of(whole));
                    assert(whole == seed_answer(m as nat, target as nat, length_bound as nat)) by {
                        if prefix_counts(base@)[6] == target {
                            assert(chunks_ranks(cs) =~= Seq::<u8>::empty());
                            assert(whole =~= base@);
                        } else {
                            let first = choose|cs: Seq<int>|
                                first_completion(
                                    prefix_counts(base@),
                                    base@.len(),
                                    cs,
                                    target as nat,
                                    length_bound as nat,
                                );
                            lemma_first_completion_unique(
                                prefix_counts(base@),
                                base@.len(),
                                cs,
                                first,
                                target as nat,
                                length_bound as nat,
                            );
                        }
                    }
                    lemma_prefix_counts_concat(base@, chunks_ranks(cs));
                    assert(all_ranks(whole));
                    lemma_letters_keep_occurrences(whole, 7);
                    assert(prefix_counts(whole)[6] == occurrences(rank_word(), whole, 7));
                    assert(all_letters(out@)) by {
                        assert forall|j: int| 0 <= j < out@.len() implies keyword().contains(
                            #[trigger] out@[j],
                        ) by {
                            assert(whole[j] < KEYWORD_LEN);
                            assert(out@[j] == keyword()[whole[j] as int]);
                        }
                    }
                    if target == 0 {
                        // the first seed tried is the empty one, and it meets the target
                        assert(m == 0);
                        assert(prefix_counts(base@)[6] == 0);
                        assert(chunks_ranks(cs) =~= Seq::<u8>::empty());
                    }
                }
                return Ok(out);
            },
            None => {
                if m == 0 {
                    return Err(SolveError::TargetUnreachable);
                }
                m = m / 2;
            },
        }
    }
}

/// Builds a string over the letters of the keyword that holds the keyword
/// exactly `target` times as a subsequence and has at most `LENGTH_BOUND`
/// symbols. Zero and the powers of two are always reached; for any other
/// target the search decides.
pub fn solve(target: u32) -> (r: Result<String, SolveError>)
    ensures
        match r {
            Ok(s) => {
                &&& s@ == letters_of(answer_ranks(target as nat, target as nat, LENGTH_BOUND as nat))
                &&& occurrences(keyword(), s@, 7) == target
                &&& s@.len() <= LENGTH_BOUND
                &&& all_letters(s@)
                &&& target == 0 ==> s@.len() == 0
            },
            Err(e) => {
                &&& e == SolveError::TargetUnreachable
                &&& !some_seed_completable(target as nat, target as nat, LENGTH_BOUND as nat)
            },
        },
        r is Ok <==> some_seed_completable(target as nat, target as nat, LENGTH_BOUND as nat),
        target == 0 || target == pow2(floor_log2(target as nat)) ==> r is Ok,
{
    proof {
        if target == 0 {
            lemma_zero_reachable(LENGTH_BOUND as nat);
        } else if target == pow2(floor_log2(target as nat)) {
            lemma_power_of_two_reachable(target as nat, LENGTH_BOUND as nat);
        }
    }
    solve_within(target, LENGTH_BOUND)
}

} // verus!
