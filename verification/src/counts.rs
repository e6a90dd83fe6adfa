//! The counting engine: a tally with one slot per rank, advanced one symbol
//! or one keyword suffix at a time.

use vstd::prelude::*;
use crate::keyword::{KEYWORD_LEN, rank_word, occurrences, all_ranks};

verus! {

/// Slot `k` counts the occurrences of the first `k + 1` keyword symbols in
/// the string read so far.
#[derive(Clone, Copy, Debug)]
pub struct CountVector {
    pub slots: [u32; 7],
}

impl View for CountVector {
    type V = Seq<nat>;

    open spec fn view(&self) -> Seq<nat> {
        Seq::new(7, |k: int| self.slots[k] as nat)
    }
}

/// The tally of the empty string.
pub open spec fn zero_counts() -> Seq<nat> {
    Seq::new(7, |k: int| 0nat)
}

/// The tally that belongs to the string `s` of ranks.
pub open spec fn prefix_counts(s: Seq<u8>) -> Seq<nat> {
    Seq::new(7, |k: int| occurrences(rank_word(), s, (k + 1) as nat))
}

/// Every slot can be held in 32 bits.
pub open spec fn fits(c: Seq<nat>) -> bool {
    forall|k: int| 0 <= k < c.len() ==> #[trigger] c[k] <= u32::MAX
}

/// What one symbol of rank `r` adds to its own slot.
pub open spec fn gain(c: Seq<nat>, r: int) -> nat {
    if r == 0 {
        1
    } else {
        c[r - 1]
    }
}

/// The tally after one more symbol of rank `r`.
pub open spec fn char_appended(c: Seq<nat>, r: int) -> Seq<nat> {
    c.update(r, c[r] + gain(c, r))
}

/// The tally after the symbols of `s`, read from left to right.
pub open spec fn ranks_appended(c: Seq<nat>, s: Seq<u8>) -> Seq<nat>
    decreases s.len(),
{
    if s.len() == 0 {
        c
    } else {
        char_appended(ranks_appended(c, s.drop_last()), s.last() as int)
    }
}

/// The ranks of the keyword suffix that starts at rank `i`.
pub open spec fn chunk_ranks(i: int) -> Seq<u8> {
    Seq::new((7 - i) as nat, |j: int| (i + j) as u8)
}

/// The tally after the keyword suffix that starts at rank `i`.
pub open spec fn chunk_appended(c: Seq<nat>, i: int) -> Seq<nat> {
    ranks_appended(c, chunk_ranks(i))
}

/// The tally before the last symbol, of rank `r`, was read.
pub open spec fn char_removed(c: Seq<nat>, r: int) -> Seq<nat> {
    c.update(r, (c[r] - gain(c, r)) as nat)
}

/// Whether the symbols of `s` can be taken back from `c`, the last one
/// first, with no slot falling below zero.
pub open spec fn removable(c: Seq<nat>, s: Seq<u8>) -> bool
    decreases s.len(),
{
    s.len() == 0 || (c[s.last() as int] >= gain(c, s.last() as int) && removable(
        char_removed(c, s.last() as int),
        s.drop_last(),
    ))
}

/// The tally after the symbols of `s` were taken back, the last one first.
pub open spec fn ranks_removed(c: Seq<nat>, s: Seq<u8>) -> Seq<nat>
    decreases s.len(),
{
    if s.len() == 0 {
        c
    } else {
        ranks_removed(char_removed(c, s.last() as int), s.drop_last())
    }
}

/// Appending symbols keeps the number of slots.
pub proof fn lemma_ranks_appended_len(c: Seq<nat>, s: Seq<u8>)
    requires
        c.len() == 7,
        all_ranks(s),
    ensures
        ranks_appended(c, s).len() == 7,
    decreases s.len(),
{
    if s.len() != 0 {
        assert(s[s.len() - 1] < KEYWORD_LEN);
        lemma_ranks_appended_len(c, s.drop_last());
    }
}

/// Appending `a` and then `b` is appending `a + b`.
pub proof fn lemma_ranks_appended_concat(c: Seq<nat>, a: Seq<u8>, b: Seq<u8>)
    ensures
        ranks_appended(c, a + b) == ranks_appended(ranks_appended(c, a), b),
    decreases b.len(),
{
    if b.len() == 0 {
        assert(a + b =~= a);
    } else {
        assert((a + b).drop_last() =~= a + b.drop_last());
        assert((a + b).last() == b.last());
        lemma_ranks_appended_concat(c, a, b.drop_last());
    }
}

/// No slot shrinks when symbols are appended.
pub proof fn lemma_ranks_appended_grows(c: Seq<nat>, s: Seq<u8>)
    requires
        c.len() == 7,
        all_ranks(s),
    ensures
        forall|k: int| 0 <= k < 7 ==> #[trigger] ranks_appended(c, s)[k] >= c[k],
    decreases s.len(),
{
    if s.len() != 0 {
        assert(s[s.len() - 1] < KEYWORD_LEN);
        lemma_ranks_appended_len(c, s.drop_last());
        lemma_ranks_appended_grows(c, s.drop_last());
    }
}

/// The slots follow the string: reading one more symbol of rank `r` turns
/// the tally of `s` into the tally of `s` with that symbol at its end.
pub proof fn lemma_prefix_counts_push(s: Seq<u8>, r: u8)
    requires
        r < KEYWORD_LEN,
    ensures
        prefix_counts(s.push(r)) == char_appended(prefix_counts(s), r as int),
{
    let t = s.push(r);
    assert(t.drop_last() =~= s);
    assert(t.last() == r);
    assert forall|k: int| 0 <= k < 7 implies #[trigger] prefix_counts(t)[k] == char_appended(
        prefix_counts(s),
        r as int,
    )[k] by {
        assert(rank_word()[k] == k);
        if k == r {
            if k == 0 {
                assert(occurrences(rank_word(), s, 0) == 1);
            }
        }
    }
    assert(prefix_counts(t) =~= char_appended(prefix_counts(s), r as int));
}

/// The tally of `a + b` is the tally of `a` advanced by the symbols of `b`.
pub proof fn lemma_prefix_counts_concat(a: Seq<u8>, b: Seq<u8>)
    requires
        all_ranks(b),
    ensures
        prefix_counts(a + b) == ranks_appended(prefix_counts(a), b),
    decreases b.len(),
{
    if b.len() == 0 {
        assert(a + b =~= a);
    } else {
        assert(b[b.len() - 1] < KEYWORD_LEN);
        assert(a + b =~= (a + b.drop_last()).push(b.last()));
        lemma_prefix_counts_push(a + b.drop_last(), b.last());
        lemma_prefix_counts_concat(a, b.drop_last());
    }
}

/// The empty string has the zero tally.
pub proof fn lemma_prefix_counts_empty()
    ensures
        prefix_counts(Seq::<u8>::empty()) == zero_counts(),
{
    assert(prefix_counts(Seq::<u8>::empty()) =~= zero_counts());
}

/// Taking one symbol back undoes appending it.
pub proof fn lemma_char_removed_inverts(c: Seq<nat>, r: int)
    requires
        c.len() == 7,
        0 <= r < 7,
    ensures
        char_removed(char_appended(c, r), r) == c,
        char_appended(c, r)[r] >= gain(char_appended(c, r), r),
{
    assert(char_removed(char_appended(c, r), r) =~= c);
}

/// Taking a string of symbols back, the last one first, undoes appending it.
pub proof fn lemma_ranks_removed_inverts(c: Seq<nat>, s: Seq<u8>)
    requires
        c.len() == 7,
        all_ranks(s),
    ensures
        removable(ranks_appended(c, s), s),
        ranks_removed(ranks_appended(c, s), s) == c,
    decreases s.len(),
{
    if s.len() != 0 {
        assert(s[s.len() - 1] < KEYWORD_LEN);
        lemma_ranks_appended_len(c, s.drop_last());
        lemma_char_removed_inverts(ranks_appended(c, s.drop_last()), s.last() as int);
        lemma_ranks_removed_inverts(c, s.drop_last());
    }
}

/// A keyword suffix is a string of ranks.
pub proof fn lemma_chunk_ranks(i: int)
    requires
        0 <= i <= 7,
    ensures
        all_ranks(chunk_ranks(i)),
        chunk_ranks(i).len() == 7 - i,
{
}

/// Appending a keyword suffix never lowers the last slot, nor any other.
pub proof fn lemma_append_chunk_monotone(c: Seq<nat>, i: int)
    requires
        c.len() == 7,
        0 <= i < 7,
    ensures
        chunk_appended(c, i).len() == 7,
        chunk_appended(c, i)[6] >= c[6],
        forall|k: int| 0 <= k < 7 ==> #[trigger] chunk_appended(c, i)[k] >= c[k],
{
    lemma_chunk_ranks(i);
    lemma_ranks_appended_len(c, chunk_ranks(i));
    lemma_ranks_appended_grows(c, chunk_ranks(i));
}

/// The slots after the first `m - i` symbols of the suffix that starts at
/// rank `i`: those below `i` and from `m` on are untouched, and each one
/// between has taken up the new value of the slot before it.
proof fn lemma_chunk_partial(c: Seq<nat>, i: int, m: int)
    requires
        c.len() == 7,
        0 <= i <= m <= 7,
    ensures
        ({
            let y = ranks_appended(c, chunk_ranks(i).take(m - i));
            &&& y.len() == 7
            &&& forall|k: int| 0 <= k < i || m <= k < 7 ==> #[trigger] y[k] == c[k]
            &&& forall|k: int| i <= k < m ==> #[trigger] y[k] == c[k] + gain(y, k)
        }),
    decreases m - i,
{
    let whole = chunk_ranks(i);
    if m == i {
        assert(whole.take(0) =~= Seq::<u8>::empty());
    } else {
        let part = whole.take(m - i);
        assert(part.drop_last() =~= whole.take(m - 1 - i));
        assert(part.last() == (m - 1) as u8);
        lemma_chunk_partial(c, i, m - 1);
        let x = ranks_appended(c, whole.take(m - 1 - i));
        let y = ranks_appended(c, part);
        assert(y == char_appended(x, m - 1));
        assert forall|k: int| i <= k < m implies #[trigger] y[k] == c[k] + gain(y, k) by {
            assert(gain(y, k) == gain(x, k));
        }
    }
}

/// Appending the keyword suffix that starts at rank `i` is a running sum:
/// the slots below `i` stay, and each slot from `i` on grows by the new
/// value of the slot before it (the first slot by one).
pub proof fn lemma_chunk_cascade(c: Seq<nat>, i: int)
    requires
        c.len() == 7,
        0 <= i <= 7,
    ensures
        chunk_appended(c, i).len() == 7,
        forall|k: int| 0 <= k < i ==> #[trigger] chunk_appended(c, i)[k] == c[k],
        forall|k: int|
            i <= k < 7 ==> #[trigger] chunk_appended(c, i)[k] == c[k] + gain(
                chunk_appended(c, i),
                k,
            ),
{
    lemma_chunk_partial(c, i, 7);
    assert(chunk_ranks(i).take(7 - i) =~= chunk_ranks(i));
}

/// After a keyword suffix the last slot is the largest of those it touched.
pub proof fn lemma_chunk_last_slot_largest(c: Seq<nat>, i: int)
    requires
        c.len() == 7,
        0 <= i < 7,
    ensures
        forall|k: int| i <= k < 7 ==> #[trigger] chunk_appended(c, i)[k] <= chunk_appended(c, i)[6],
{
    lemma_chunk_cascade(c, i);
    let x = chunk_appended(c, i);
    assert(i <= 5 ==> x[6] == c[6] + x[5]);
    assert(i <= 4 ==> x[5] == c[5] + x[4]);
    assert(i <= 3 ==> x[4] == c[4] + x[3]);
    assert(i <= 2 ==> x[3] == c[3] + x[2]);
    assert(i <= 1 ==> x[2] == c[2] + x[1]);
    assert(i <= 0 ==> x[1] == c[1] + x[0]);
}

/// The tally before the keyword suffix that starts at rank `i` was appended.
pub open spec fn chunk_undone(c: Seq<nat>, i: int) -> Seq<nat> {
    ranks_removed(c, chunk_ranks(i))
}

/// Whether the suffix that starts at rank `i` can be taken back from `c`.
pub open spec fn chunk_undoable(c: Seq<nat>, i: int) -> bool {
    removable(c, chunk_ranks(i))
}

/// Undoing a keyword suffix right after appending it gives the tally back.
pub proof fn lemma_undo_inverts_append(c: Seq<nat>, i: int)
    requires
        c.len() == 7,
        0 <= i < 7,
    ensures
        chunk_undoable(chunk_appended(c, i), i),
        chunk_undone(chunk_appended(c, i), i) == c,
{
    lemma_chunk_ranks(i);
    lemma_ranks_removed_inverts(c, chunk_ranks(i));
}

impl CountVector {
    /// The tally of the empty string.
    pub fn zero() -> (r: CountVector)
        ensures
            r@ == zero_counts(),
    {
        let r = CountVector { slots: [0u32; 7] };
        assert(r@ =~= zero_counts());
        r
    }

    /// The value of slot `k`.
    pub fn get(&self, k: usize) -> (v: u32)
        requires
            k < KEYWORD_LEN,
        ensures
            v == self@[k as int],
    {
        self.slots[k]
    }

    /// The last slot: the number of occurrences of the whole keyword.
    pub fn total(&self) -> (v: u32)
        ensures
            v == self@[6],
    {
        self.slots[6]
    }

    /// Reads one symbol of rank `rank`. The result is `None` when the slot
    /// of that rank would leave 32 bits.
    pub fn append_char(&self, rank: u8) -> (r: Option<CountVector>)
        requires
            rank < KEYWORD_LEN,
        ensures
            r is Some <==> fits(char_appended(self@, rank as int)),
            r is Some ==> r.unwrap()@ == char_appended(self@, rank as int),
    {
        let k = rank as usize;
        let add: u32 = if k == 0 {
            1
        } else {
            self.slots[k - 1]
        };
        assert(add == gain(self@, rank as int));
        match self.slots[k].checked_add(add) {
            Some(v) => {
                let mut slots = self.slots;
                slots[k] = v;
                let r = CountVector { slots };
                assert(r@ =~= char_appended(self@, rank as int));
                Some(r)
            },
            None => {
                assert(char_appended(self@, rank as int)[rank as int] > u32::MAX);
                None
            },
        }
    }

    /// Reads the keyword suffix that starts at rank `i`: the symbols of rank
    /// `i`, `i + 1`, up to the last, in that order. The result is `None` when
    /// a slot would leave 32 bits.
    pub fn append_chunk(&self, i: usize) -> (r: Option<CountVector>)
        requires
            i < KEYWORD_LEN,
        ensures
            r is Some <==> fits(chunk_appended(self@, i as int)),
            r is Some ==> r.unwrap()@ == chunk_appended(self@, i as int),
            r is Some ==> r.unwrap()@[6] >= self@[6],
    {
        let ghost whole = chunk_ranks(i as int);
        let mut cur = *self;
        let mut k: usize = i;
        proof {
            assert(whole.take(0) =~= Seq::<u8>::empty());
            lemma_append_chunk_monotone(self@, i as int);
        }
        while k < 7
            invariant
                i <= k <= 7,
                whole == chunk_ranks(i as int),
                cur@ == ranks_appended(self@, whole.take(k - i)),
            decreases 7 - k,
        {
            proof {
                let done = whole.take(k - i);
                let next = whole.take(k + 1 - i);
                assert(next.drop_last() =~= done);
                assert(next.last() == k as u8);
                assert(whole =~= next + whole.skip(k + 1 - i));
                lemma_ranks_appended_concat(self@, next, whole.skip(k + 1 - i));
                lemma_ranks_appended_len(self@, next);
                lemma_ranks_appended_grows(
                    ranks_appended(self@, next),
                    whole.skip(k + 1 - i),
                );
            }
            match cur.append_char(k as u8) {
                Some(next) => {
                    cur = next;
                },
                None => {
                    proof {
                        let mid = ranks_appended(self@, whole.take(k + 1 - i));
                        let bad = choose|j: int| 0 <= j < 7 && mid[j] > u32::MAX;
                        lemma_ranks_appended_len(self@, whole);
                        assert(chunk_appended(self@, i as int)[bad] >= mid[bad]);
                    }
                    return None;
                },
            }
            k += 1;
        }
        proof {
            assert(whole.take(7 - i) =~= whole);
        }
        Some(cur)
    }

    /// Takes the keyword suffix that starts at rank `i` back, the last slot
    /// first. It undoes an `append_chunk(i)` that came just before.
    pub fn undo_chunk(&self, i: usize) -> (r: CountVector)
        requires
            i < KEYWORD_LEN,
            chunk_undoable(self@, i as int),
        ensures
            r@ == chunk_undone(self@, i as int),
    {
        let ghost whole = chunk_ranks(i as int);
        let mut cur = *self;
        let mut k: usize = 7;
        proof {
            assert(whole.take(7 - i) =~= whole);
        }
        while k > i
            invariant
                i <= k <= 7,
                whole == chunk_ranks(i as int),
                removable(cur@, whole.take(k - i)),
                ranks_removed(cur@, whole.take(k - i)) == chunk_undone(self@, i as int),
            decreases k,
        {
            proof {
                let left = whole.take(k - i);
                assert(left.last() == (k - 1) as u8);
                assert(left.drop_last() =~= whole.take(k - 1 - i));
            }
            k -= 1;
            let sub: u32 = if k == 0 {
                1
            } else {
                cur.slots[k - 1]
            };
            assert(sub == gain(cur@, k as int));
            let ghost before = cur@;
            let v: u32 = cur.slots[k] - sub;
            let mut slots = cur.slots;
            slots[k] = v;
            cur = CountVector { slots };
            assert(cur@ =~= char_removed(before, k as int));
        }
        proof {
            assert(whole.take(0) =~= Seq::<u8>::empty());
        }
        cur
    }
}

/// Advances `prefixes` by the symbols of `s`, read from left to right. The
/// result is `None` when a slot would leave 32 bits.
pub fn update_prefixes_generic(s: &[u8], prefixes: CountVector) -> (r: Option<CountVector>)
    requires
        all_ranks(s@),
    ensures
        r is Some <==> fits(ranks_appended(prefixes@, s@)),
        r is Some ==> r.unwrap()@ == ranks_appended(prefixes@, s@),
{
    let mut cur = prefixes;
    let mut n: usize = 0;
    proof {
        assert(s@.take(0) =~= Seq::<u8>::empty());
    }
    while n < s.len()
        invariant
            n <= s.len(),
            all_ranks(s@),
            cur@ == ranks_appended(prefixes@, s@.take(n as int)),
        decreases s.len() - n,
    {
        proof {
            let next = s@.take(n + 1);
            assert(next.drop_last() =~= s@.take(n as int));
            assert(next.last() == s@[n as int]);
            assert(s@ =~= next + s@.skip(n + 1));
            lemma_ranks_appended_concat(prefixes@, next, s@.skip(n + 1));
            lemma_ranks_appended_len(prefixes@, next);
            lemma_ranks_appended_grows(ranks_appended(prefixes@, next), s@.skip(n + 1));
        }
        match cur.append_char(s[n]) {
            Some(next) => {
                cur = next;
            },
            None => {
                proof {
                    let mid = ranks_appended(prefixes@, s@.take(n + 1));
                    let bad = choose|j: int| 0 <= j < 7 && mid[j] > u32::MAX;
                    lemma_ranks_appended_len(prefixes@, s@);
                    assert(ranks_appended(prefixes@, s@)[bad] >= mid[bad]);
                }
                return None;
            },
        }
        n += 1;
    }
    proof {
        assert(s@.take(s@.len() as int) =~= s@);
    }
    Some(cur)
}

/// Counts the occurrences of the whole keyword in the string `s` of ranks.
/// The result is `None` when some prefix of the keyword occurs more often
/// than 32 bits can say.
pub fn count_geolymp(s: &[u8]) -> (r: Option<u32>)
    requires
        all_ranks(s@),
    ensures
        r is Some <==> fits(prefix_counts(s@)),
        r is Some ==> r.unwrap() == occurrences(rank_word(), s@, 7),
{
    proof {
        lemma_prefix_counts_empty();
        lemma_prefix_counts_concat(Seq::<u8>::empty(), s@);
        assert(Seq::<u8>::empty() + s@ =~= s@);
    }
    match update_prefixes_generic(s, CountVector::zero()) {
        Some(c) => {
            assert(c@[6] == prefix_counts(s@)[6]);
            Some(c.total())
        },
        None => None,
    }
}

} // verus!
