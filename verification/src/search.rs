//! The path search: a depth-first walk over "append one keyword suffix"
//! moves. Its nodes live in an arena and point back at their parents.

use vstd::prelude::*;
use crate::keyword::{all_ranks, lemma_spelled_concat, spelled};
use crate::counts::{
    CountVector, chunk_appended, chunk_ranks, fits, lemma_chunk_last_slot_largest,
    lemma_chunk_cascade, lemma_chunk_ranks, lemma_prefix_counts_concat,
    lemma_prefix_counts_empty, lemma_ranks_appended_concat, lemma_ranks_appended_grows,
    prefix_counts, ranks_appended, update_prefixes_generic,
};

verus! {

/// The arena of `bumpalo`. Nothing of its inside is known here.
#[verifier::external_type_specification]
#[verifier::external_body]
pub struct ExBump<const MIN_ALIGN: usize>(bumpalo::Bump<MIN_ALIGN>);

/// The allocation limit of an arena, as `bumpalo::Bump::allocation_limit`
/// reports it: the number of bytes the arena may take in all, if it was
/// given such a number.
pub uninterp spec fn allocation_limit(arena: &bumpalo::Bump<1>) -> Option<usize>;

/// Calls `bumpalo::Bump::new`, which makes an empty arena. The claim is
/// that the arena has no allocation limit.
#[verifier::external_body]
pub(crate) fn new_arena() -> (arena: bumpalo::Bump<1>)
    ensures
        allocation_limit(&arena) is None,
{
    bumpalo::Bump::new()
}

/// Calls `bumpalo::Bump::alloc`, which moves the value into the arena and
/// hands back a reference to it that lives as long as the arena is borrowed.
/// The claim is that the reference points at the value that was handed in.
/// In an arena with an allocation limit the call panics once the limit is
/// reached, so such an arena is left out; without a limit it fails only
/// where the process has no memory left.
#[verifier::external_body]
fn alloc_step<'arena>(arena: &'arena bumpalo::Bump<1>, step: SearchStep<'arena>) -> (r:
    &'arena SearchStep<'arena>)
    requires
        allocation_limit(arena) is None,
    ensures
        *r == step,
{
    arena.alloc(step)
}

/// One node of the search tree: the keyword suffix that was appended to
/// reach it, and the tally and the length after that suffix.
#[derive(Clone, Copy, Debug)]
pub struct SearchStep<'arena> {
    /// The node this one was reached from; `None` at the start node.
    pub previous: Option<&'arena SearchStep<'arena>>,
    /// The rank at which the appended suffix starts; 7 at the start node,
    /// which appends nothing.
    pub suffix: u8,
    /// The tally after the suffix.
    pub prefixes: CountVector,
    /// The length of the whole string after the suffix.
    pub length: usize,
}

/// Every entry is the start of a keyword suffix.
pub open spec fn valid_chunks(cs: Seq<int>) -> bool {
    forall|j: int| 0 <= j < cs.len() ==> 0 <= #[trigger] cs[j] < 7
}

/// The string of ranks that the suffixes `cs` spell, one after another.
pub open spec fn chunks_ranks(cs: Seq<int>) -> Seq<u8>
    decreases cs.len(),
{
    if cs.len() == 0 {
        Seq::empty()
    } else {
        chunks_ranks(cs.drop_last()) + chunk_ranks(cs.last())
    }
}

/// Appending the suffixes `cs` to a string with tally `c` and length `len`
/// gives a string that holds the keyword exactly `target` times and is no
/// longer than `bound`.
pub open spec fn completes(c: Seq<nat>, len: nat, cs: Seq<int>, target: nat, bound: nat) -> bool {
    &&& valid_chunks(cs)
    &&& cs.len() >= 1
    &&& ranks_appended(c, chunks_ranks(cs))[6] == target
    &&& len + chunks_ranks(cs).len() <= bound
}

impl<'arena> SearchStep<'arena> {
    /// The suffixes appended on the way from the start node to this node.
    pub open spec fn chunks(self) -> Seq<int>
        decreases self,
    {
        match self.previous {
            None => Seq::empty(),
            Some(p) => p.chunks().push(self.suffix as int),
        }
    }

    /// The tally at the start node.
    pub open spec fn root_counts(self) -> Seq<nat>
        decreases self,
    {
        match self.previous {
            None => self.prefixes@,
            Some(p) => p.root_counts(),
        }
    }

    /// The length at the start node.
    pub open spec fn root_length(self) -> nat
        decreases self,
    {
        match self.previous {
            None => self.length as nat,
            Some(p) => p.root_length(),
        }
    }

    /// Each node holds the tally and the length of its parent, advanced by
    /// its own suffix; the start node appends nothing.
    pub open spec fn wf(self) -> bool
        decreases self,
    {
        match self.previous {
            None => self.suffix == 7,
            Some(p) => {
                &&& p.wf()
                &&& self.suffix < 7
                &&& self.prefixes@ == chunk_appended(p.prefixes@, self.suffix as int)
                &&& self.length == p.length + (7 - self.suffix)
            },
        }
    }
}

/// The suffixes `a` and then `b` spell what `a + b` spells.
pub proof fn lemma_chunks_ranks_concat(a: Seq<int>, b: Seq<int>)
    ensures
        chunks_ranks(a + b) == chunks_ranks(a) + chunks_ranks(b),
    decreases b.len(),
{
    if b.len() == 0 {
        assert(a + b =~= a);
        assert(chunks_ranks(a) + chunks_ranks(b) =~= chunks_ranks(a));
    } else {
        assert((a + b).drop_last() =~= a + b.drop_last());
        assert((a + b).last() == b.last());
        lemma_chunks_ranks_concat(a, b.drop_last());
        assert(chunks_ranks(a + b) =~= chunks_ranks(a) + chunks_ranks(b));
    }
}

/// Suffixes spell a string of ranks, of at least one symbol each.
pub proof fn lemma_chunks_ranks_valid(cs: Seq<int>)
    requires
        valid_chunks(cs),
    ensures
        all_ranks(chunks_ranks(cs)),
        chunks_ranks(cs).len() >= cs.len(),
    decreases cs.len(),
{
    if cs.len() != 0 {
        assert(0 <= cs[cs.len() - 1] < 7);
        lemma_chunks_ranks_valid(cs.drop_last());
        lemma_chunk_ranks(cs.last());
    }
}

/// A single suffix spells itself.
pub proof fn lemma_chunks_ranks_single(i: int)
    ensures
        chunks_ranks(seq![i]) == chunk_ranks(i),
{
    let one = seq![i];
    assert(one.drop_last() =~= Seq::<int>::empty());
    assert(chunks_ranks(one.drop_last()) =~= Seq::<u8>::empty());
    assert(chunks_ranks(one) =~= chunk_ranks(i));
}

/// What a completing list of suffixes says of its first suffix: the tally
/// after that suffix alone stays within the target and within 32 bits, the
/// length stays within the bound, and either the target is met at once or
/// the rest of the list completes from there.
pub proof fn lemma_first_chunk(c: Seq<nat>, len: nat, cs: Seq<int>, target: nat, bound: nat)
    requires
        c.len() == 7,
        completes(c, len, cs, target, bound),
    ensures
        0 <= cs[0] < 7,
        chunk_appended(c, cs[0])[6] <= target,
        forall|k: int|
            0 <= k < 7 ==> #[trigger] chunk_appended(c, cs[0])[k] <= target || chunk_appended(
                c,
                cs[0],
            )[k] == c[k],
        len + (7 - cs[0]) <= bound,
        chunk_appended(c, cs[0])[6] == target || completes(
            chunk_appended(c, cs[0]),
            len + (7 - cs[0]) as nat,
            cs.skip(1),
            target,
            bound,
        ),
{
    let i = cs[0];
    let rest = cs.skip(1);
    let x = chunk_appended(c, i);
    assert(cs =~= seq![i] + rest);
    lemma_chunks_ranks_concat(seq![i], rest);
    lemma_chunks_ranks_single(i);
    assert(valid_chunks(rest)) by {
        assert forall|j: int| 0 <= j < rest.len() implies 0 <= #[trigger] rest[j] < 7 by {
            assert(rest[j] == cs[j + 1]);
        }
    }
    lemma_chunks_ranks_valid(rest);
    lemma_chunk_ranks(i);
    lemma_ranks_appended_concat(c, chunk_ranks(i), chunks_ranks(rest));
    lemma_chunk_cascade(c, i);
    lemma_chunk_last_slot_largest(c, i);
    lemma_ranks_appended_grows(x, chunks_ranks(rest));
    assert(ranks_appended(x, chunks_ranks(rest))[6] >= x[6]);
    if rest.len() == 0 {
        assert(chunks_ranks(rest) =~= Seq::<u8>::empty());
    }
}

/// The order in which the search comes upon lists of suffixes: a list
/// before each of its extensions, and of two lists that part ways the one
/// with the longer suffix, that is the smaller rank, at the parting.
pub open spec fn comes_first(a: Seq<int>, b: Seq<int>) -> bool
    decreases a.len(),
{
    if a.len() == 0 {
        true
    } else if b.len() == 0 {
        false
    } else if a[0] != b[0] {
        a[0] < b[0]
    } else {
        comes_first(a.skip(1), b.skip(1))
    }
}

/// `cs` completes, and the search comes upon it before any other list that
/// completes.
pub open spec fn first_completion(
    c: Seq<nat>,
    len: nat,
    cs: Seq<int>,
    target: nat,
    bound: nat,
) -> bool {
    &&& completes(c, len, cs, target, bound)
    &&& forall|other: Seq<int>| #[trigger]
        completes(c, len, other, target, bound) ==> comes_first(cs, other)
}

/// Two lists that each come no later than the other are the same list.
pub proof fn lemma_comes_first_antisymmetric(a: Seq<int>, b: Seq<int>)
    requires
        comes_first(a, b),
        comes_first(b, a),
    ensures
        a == b,
    decreases a.len(),
{
    if a.len() == 0 {
        assert(b.len() == 0);
        assert(a =~= b);
    } else {
        lemma_comes_first_antisymmetric(a.skip(1), b.skip(1));
        assert(a =~= seq![a[0]] + a.skip(1));
        assert(b =~= seq![b[0]] + b.skip(1));
    }
}

/// There is at most one first completion.
pub proof fn lemma_first_completion_unique(
    c: Seq<nat>,
    len: nat,
    a: Seq<int>,
    b: Seq<int>,
    target: nat,
    bound: nat,
)
    requires
        first_completion(c, len, a, target, bound),
        first_completion(c, len, b, target, bound),
    ensures
        a == b,
{
    lemma_comes_first_antisymmetric(a, b);
}

/// A list that completes from the tally after the suffix at rank `i`
/// completes, with that suffix before it, from the tally before.
pub proof fn lemma_completes_behind(
    c: Seq<nat>,
    len: nat,
    i: int,
    rest: Seq<int>,
    target: nat,
    bound: nat,
)
    requires
        c.len() == 7,
        0 <= i < 7,
        rest.len() == 0 ==> chunk_appended(c, i)[6] == target && len + (7 - i) <= bound,
        rest.len() > 0 ==> completes(
            chunk_appended(c, i),
            len + (7 - i) as nat,
            rest,
            target,
            bound,
        ),
    ensures
        completes(c, len, seq![i] + rest, target, bound),
{
    let cs = seq![i] + rest;
    lemma_chunks_ranks_concat(seq![i], rest);
    lemma_chunks_ranks_single(i);
    lemma_chunk_ranks(i);
    lemma_ranks_appended_concat(c, chunk_ranks(i), chunks_ranks(rest));
    if rest.len() == 0 {
        assert(chunks_ranks(rest) =~= Seq::<u8>::empty());
    }
    assert forall|j: int| 0 <= j < cs.len() implies 0 <= #[trigger] cs[j] < 7 by {
        if j > 0 {
            assert(cs[j] == rest[j - 1]);
        }
    }
}

impl<'arena> SearchStep<'arena> {
    /// The tally and the length of a node are those of the start node,
    /// advanced by the string that the node's suffixes spell.
    pub proof fn lemma_wf_closed(self)
        requires
            self.wf(),
        ensures
            valid_chunks(self.chunks()),
            self.prefixes@ == ranks_appended(self.root_counts(), chunks_ranks(self.chunks())),
            self.length == self.root_length() + chunks_ranks(self.chunks()).len(),
        decreases self,
    {
        match self.previous {
            None => {},
            Some(p) => {
                p.lemma_wf_closed();
                let cs = self.chunks();
                assert(cs.drop_last() =~= p.chunks());
                assert(cs.last() == self.suffix as int);
                lemma_ranks_appended_concat(
                    self.root_counts(),
                    chunks_ranks(p.chunks()),
                    chunk_ranks(self.suffix as int),
                );
                lemma_chunk_ranks(self.suffix as int);
            },
        }
    }

    /// Writes the suffixes on the way from the start node to this node, one
    /// after another, in the symbols of `charset`, which holds the symbol
    /// of rank `k` at position `k`.
    pub fn to_string_with_charset(&self, charset: &str) -> (r: String)
        requires
            self.wf(),
            charset@.len() == 7,
        ensures
            r@ == spelled(chunks_ranks(self.chunks()), charset@),
        decreases self,
    {
        match self.previous {
            None => {
                let r = String::new();
                assert(r@ =~= spelled(chunks_ranks(self.chunks()), charset@));
                r
            },
            Some(node) => {
                let mut r = node.to_string_with_charset(charset);
                let i = self.suffix as usize;
                r.append(charset.substring_char(i, 7));
                proof {
                    let cs = self.chunks();
                    assert(cs.drop_last() =~= node.chunks());
                    assert(cs.last() == i);
                    lemma_spelled_concat(chunks_ranks(node.chunks()), chunk_ranks(i as int), charset@);
                    assert(spelled(chunk_ranks(i as int), charset@) =~= charset@.subrange(
                        i as int,
                        7,
                    ));
                }
                r
            },
        }
    }

    /// A start node for a string with the given tally and length.
    pub fn start(prefixes: CountVector, length: usize) -> (r: SearchStep<'arena>)
        ensures
            r.wf(),
            r.previous is None,
            r.prefixes == prefixes,
            r.length == length,
            r.chunks() == Seq::<int>::empty(),
            r.root_counts() == prefixes@,
            r.root_length() == length,
    {
        SearchStep { previous: None, suffix: 7, prefixes, length }
    }
}

/// A search for one target: the target, the largest length a string may
/// have, and the arena that holds the nodes.
pub struct Searcher<'arena> {
    pub target: u32,
    pub length_bound: usize,
    pub arena: &'arena bumpalo::Bump<1>,
}

/// A string with tally `c` and length `len` holds the keyword `target` times
/// within the bound, or some list of suffixes appended to it does.
pub open spec fn completable(c: Seq<nat>, len: nat, target: nat, bound: nat) -> bool {
    len <= bound && (c[6] == target || exists|cs: Seq<int>|
        completes(c, len, cs, target, bound))
}

impl<'arena> Searcher<'arena> {
    /// The arena can take the nodes of a search: it has no allocation limit.
    pub open spec fn wf(&self) -> bool {
        allocation_limit(self.arena) is None
    }

    /// A search for `target` among the strings of at most `length_bound`
    /// symbols, with its nodes in `arena`.
    pub fn new(target: u32, length_bound: usize, arena: &'arena bumpalo::Bump<1>) -> (r: Self)
        requires
            allocation_limit(arena) is None,
        ensures
            r.wf(),
            r.target == target,
            r.length_bound == length_bound,
            r.arena == arena,
    {
        Searcher { target, length_bound, arena }
    }

    /// Looks depth first, longest suffix first, for suffixes to append to
    /// `current` that bring the last slot to the target within the length
    /// bound. It finds a node whenever some list of suffixes does that, and
    /// the node it finds is the one at the end of the first such list in
    /// the order of the search.
    pub fn search(&self, current: &'arena SearchStep<'arena>) -> (r: Option<
        &'arena SearchStep<'arena>,
    >)
        requires
            self.wf(),
            current.wf(),
        ensures
            match r {
                Some(leaf) => {
                    &&& leaf.wf()
                    &&& leaf.root_counts() == current.root_counts()
                    &&& leaf.root_length() == current.root_length()
                    &&& current.chunks().is_prefix_of(leaf.chunks())
                    &&& leaf.prefixes@[6] == self.target
                    &&& leaf.length <= self.length_bound
                    &&& first_completion(
                        current.prefixes@,
                        current.length as nat,
                        leaf.chunks().skip(current.chunks().len() as int),
                        self.target as nat,
                        self.length_bound as nat,
                    )
                },
                None => forall|cs: Seq<int>|
                    !completes(
                        current.prefixes@,
                        current.length as nat,
                        cs,
                        self.target as nat,
                        self.length_bound as nat,
                    ),
            },
        decreases self.length_bound - current.length,
    {
        let ghost c = current.prefixes@;
        let ghost len = current.length as nat;
        let ghost target = self.target as nat;
        let ghost bound = self.length_bound as nat;
        let ghost depth = current.chunks().len() as int;
        let mut i: usize = 0;
        while i < 7
            invariant
                i <= 7,
                self.wf(),
                current.wf(),
                c == current.prefixes@,
                len == current.length,
                target == self.target,
                bound == self.length_bound,
                depth == current.chunks().len(),
                forall|cs: Seq<int>| #[trigger] completes(c, len, cs, target, bound) ==> cs[0] >= i,
            decreases 7 - i,
        {
            let grown = current.prefixes.append_chunk(i);
            let longer = current.length.checked_add(7 - i);
            if grown.is_some() && longer.is_some() {
                let prefixes = grown.unwrap();
                let length = longer.unwrap();
                if prefixes.total() <= self.target && length <= self.length_bound {
                    let node = alloc_step(
                        self.arena,
                        SearchStep { previous: Some(current), suffix: i as u8, prefixes, length },
                    );
                    assert(node.wf());
                    assert(node.chunks() == current.chunks().push(i as int));
                    if prefixes.total() == self.target {
                        proof {
                            let tail = node.chunks().skip(depth);
                            assert(tail =~= seq![i as int] + Seq::<int>::empty());
                            lemma_completes_behind(c, len, i as int, Seq::empty(), target, bound);
                            assert forall|other: Seq<int>| #[trigger]
                                completes(c, len, other, target, bound) implies comes_first(
                                tail,
                                other,
                            ) by {
                                assert(other[0] >= i);
                                assert(comes_first(tail.skip(1), other.skip(1)));
                            }
                        }
                        return Some(node);
                    }
                    match self.search(node) {
                        Some(found) => {
                            proof {
                                let below = found.chunks().skip(depth + 1);
                                let tail = found.chunks().skip(depth);
                                assert(found.chunks().subrange(0, depth + 1)[depth]
                                    == node.chunks()[depth]);
                                assert(tail =~= seq![i as int] + below);
                                assert(current.chunks() =~= found.chunks().subrange(0, depth)) by {
                                    assert(current.chunks() =~= node.chunks().subrange(0, depth));
                                }
                                assert(tail.skip(1) =~= below);
                                lemma_completes_behind(c, len, i as int, below, target, bound);
                                assert forall|other: Seq<int>| #[trigger]
                                    completes(c, len, other, target, bound) implies comes_first(
                                    tail,
                                    other,
                                ) by {
                                    assert(other[0] >= i);
                                    lemma_first_chunk(c, len, other, target, bound);
                                    if other[0] == i {
                                        assert(comes_first(below, other.skip(1)));
                                    }
                                }
                            }
                            return Some(found);
                        },
                        None => {},
                    }
                }
            }
            proof {
                assert forall|cs: Seq<int>| #[trigger]
                    completes(c, len, cs, target, bound) implies cs[0] >= i + 1 by {
                    lemma_first_chunk(c, len, cs, target, bound);
                    if cs[0] == i {
                        let x = chunk_appended(c, i as int);
                        assert(fits(x)) by {
                            assert forall|k: int| 0 <= k < x.len() implies #[trigger] x[k]
                                <= u32::MAX by {
                                lemma_chunk_cascade(c, i as int);
                                assert(x[k] <= target || x[k] == c[k]);
                            }
                        }
                    }
                }
            }
            i += 1;
        }
        proof {
            assert forall|cs: Seq<int>| !completes(c, len, cs, target, bound) by {
                if completes(c, len, cs, target, bound) {
                    assert(cs[0] >= 7);
                    assert(cs[0] < 7);
                }
            }
        }
        None
    }

    /// Searches on top of the string `base` of ranks. It finds a node
    /// exactly when the string itself, or the string with some list of
    /// keyword suffixes behind it, meets the target within the length bound
    /// and the tally of `base` fits into 32 bits. Where the string itself
    /// meets the target, the node is the start node; else it is the node at
    /// the end of the first completing list in the order of the search.
    pub fn search_with_base(&self, base: &[u8]) -> (r: Option<&'arena SearchStep<'arena>>)
        requires
            self.wf(),
            all_ranks(base@),
        ensures
            r is Some <==> fits(prefix_counts(base@)) && completable(
                prefix_counts(base@),
                base@.len(),
                self.target as nat,
                self.length_bound as nat,
            ),
            r matches Some(leaf) ==> {
                &&& leaf.wf()
                &&& leaf.root_counts() == prefix_counts(base@)
                &&& leaf.root_length() == base@.len()
                &&& leaf.prefixes@[6] == self.target
                &&& leaf.length <= self.length_bound
                &&& prefix_counts(base@)[6] == self.target ==> leaf.chunks().len() == 0
                &&& prefix_counts(base@)[6] != self.target ==> first_completion(
                    prefix_counts(base@),
                    base@.len(),
                    leaf.chunks(),
                    self.target as nat,
                    self.length_bound as nat,
                )
            },
    {
        proof {
            lemma_prefix_counts_empty();
            lemma_prefix_counts_concat(Seq::<u8>::empty(), base@);
            assert(Seq::<u8>::empty() + base@ =~= base@);
        }
        if base.len() > self.length_bound {
            return None;
        }
        match update_prefixes_generic(base, CountVector::zero()) {
            None => None,
            Some(prefixes) => {
                let start_node = alloc_step(self.arena, SearchStep::start(prefixes, base.len()));
                if prefixes.total() == self.target {
                    return Some(start_node);
                }
                let found = self.search(start_node);
                proof {
                    if let Some(leaf) = found {
                        assert(leaf.chunks().skip(0) =~= leaf.chunks());
                    }
                }
                found
            },
        }
    }
}

} // verus!
