//! The seed builder: a short string of ranks that holds the keyword exactly
//! as often as the largest power of two that does not exceed a given number.

use vstd::prelude::*;
use vstd::arithmetic::div_mod::lemma_div_multiples_vanish;
use vstd::arithmetic::power::{lemma_pow0, lemma_pow_multiplies, pow};
use vstd::arithmetic::power2::{
    lemma2_to64, lemma_pow2, lemma_pow2_adds, lemma_pow2_pos, lemma_pow2_strictly_increases,
    pow2,
};
use crate::keyword::{KEYWORD_LEN, all_ranks};
use crate::counts::{
    CountVector, char_appended, fits, gain, lemma_prefix_counts_concat,
    lemma_prefix_counts_empty, prefix_counts, ranks_appended, update_prefixes_generic,
    zero_counts,
};

verus! {

/// The position of the highest set bit of `n`; zero for `n` below two.
pub open spec fn floor_log2(n: nat) -> nat
    decreases n,
{
    if n <= 1 {
        0
    } else {
        1 + floor_log2(n / 2)
    }
}

/// `floor_log2(n)` is the exponent of the largest power of two within `n`.
pub proof fn lemma_floor_log2_bounds(n: nat)
    requires
        n >= 1,
    ensures
        pow2(floor_log2(n)) <= n < 2 * pow2(floor_log2(n)),
    decreases n,
{
    lemma2_to64();
    if n > 1 {
        lemma_floor_log2_bounds(n / 2);
        lemma_pow2_adds(1, floor_log2(n / 2));
    }
}

/// The position of the highest set bit of `n`.
pub fn ilog2(n: u32) -> (r: u32)
    requires
        n >= 1,
    ensures
        r == floor_log2(n as nat),
        r < 32,
{
    let mut m: u32 = n;
    let mut r: u32 = 0;
    proof {
        lemma_floor_log2_u32(n as nat);
    }
    while m > 1
        invariant
            m >= 1,
            r + floor_log2(m as nat) == floor_log2(n as nat),
            floor_log2(n as nat) < 32,
        decreases m,
    {
        m = m / 2;
        r = r + 1;
    }
    r
}

/// Two to the power `e`.
pub fn power_of_two(e: u32) -> (r: u32)
    requires
        e < 32,
    ensures
        r == pow2(e as nat),
{
    let mut r: u32 = 1;
    let mut k: u32 = 0;
    proof {
        lemma2_to64();
    }
    while k < e
        invariant
            k <= e < 32,
            r == pow2(k as nat),
        decreases e - k,
    {
        proof {
            lemma_pow2_adds(k as nat, 1);
            lemma2_to64();
            if k + 1 < 31 {
                lemma_pow2_strictly_increases((k + 1) as nat, 31);
            }
        }
        r = r * 2;
        k = k + 1;
    }
    r
}

/// The symbol of rank `r`, `n` times.
pub open spec fn repeated(r: u8, n: nat) -> Seq<u8> {
    Seq::new(n, |j: int| r)
}

/// `w` symbols of rank 0, then `w` of rank 1, and so on below rank `upto`.
pub open spec fn blocks(w: nat, upto: nat) -> Seq<u8>
    decreases upto,
{
    if upto == 0 {
        Seq::empty()
    } else {
        blocks(w, (upto - 1) as nat) + repeated((upto - 1) as u8, w)
    }
}

/// The tally of `blocks(w, upto)`: slot `k` holds `w` to the power `k + 1`
/// below `upto`, and nothing from there on.
pub open spec fn block_counts(w: nat, upto: nat) -> Seq<nat> {
    Seq::new(
        7,
        |k: int|
            if k < upto {
                pow(w as int, (k + 1) as nat) as nat
            } else {
                0nat
            },
    )
}

/// How many symbols of each rank the seed for `n` starts with.
pub open spec fn seed_block(n: nat) -> nat {
    pow2(floor_log2(n) / 7)
}

/// How many symbols of the last rank the seed for `n` ends in: what its
/// blocks leave open of the power of two, in units of what one such symbol
/// adds.
pub open spec fn seed_padding(n: nat) -> nat {
    let w = seed_block(n) as int;
    ((pow2(floor_log2(n)) - pow(w, 7)) / pow(w, 6)) as nat
}

/// The seed for `n`, in ranks.
pub open spec fn seed_ranks(n: nat) -> Seq<u8> {
    blocks(seed_block(n), 7) + repeated(6u8, seed_padding(n))
}

/// `j` symbols of one rank add `j` times what one of them adds.
pub proof fn lemma_repeat_appended(c: Seq<nat>, r: u8, j: nat)
    requires
        c.len() == 7,
        r < KEYWORD_LEN,
    ensures
        ranks_appended(c, repeated(r, j)) == c.update(r as int, c[r as int] + j * gain(c, r as int)),
    decreases j,
{
    let s = repeated(r, j);
    let g = gain(c, r as int);
    if j == 0 {
        assert(c.update(r as int, c[r as int] + j * g) =~= c) by {
            assert(j * g == 0) by (nonlinear_arith)
                requires
                    j == 0,
            ;
        }
    } else {
        assert(s.drop_last() =~= repeated(r, (j - 1) as nat));
        lemma_repeat_appended(c, r, (j - 1) as nat);
        let x = ranks_appended(c, s.drop_last());
        assert(gain(x, r as int) == g);
        assert((j - 1) * g + g == j * g) by (nonlinear_arith);
        assert(char_appended(x, r as int) =~= c.update(r as int, c[r as int] + j * g));
    }
}

/// No power of a natural number is negative.
pub proof fn lemma_pow_nonnegative(w: nat, e: nat)
    ensures
        pow(w as int, e) >= 0,
    decreases e,
{
    reveal(pow);
    if e != 0 {
        lemma_pow_nonnegative(w, (e - 1) as nat);
        assert(w * pow(w as int, (e - 1) as nat) >= 0) by (nonlinear_arith)
            requires
                w >= 0,
                pow(w as int, (e - 1) as nat) >= 0,
        ;
    }
}

/// The blocks are a string of ranks with the tally `block_counts`.
pub proof fn lemma_blocks_counts(w: nat, upto: nat)
    requires
        upto <= 7,
    ensures
        all_ranks(blocks(w, upto)),
        blocks(w, upto).len() == upto * w,
        prefix_counts(blocks(w, upto)) == block_counts(w, upto),
    decreases upto,
{
    if upto == 0 {
        lemma_prefix_counts_empty();
        assert(block_counts(w, 0) =~= zero_counts());
        assert(upto * w == 0) by (nonlinear_arith)
            requires
                upto == 0,
        ;
    } else {
        let r = (upto - 1) as u8;
        let before = blocks(w, (upto - 1) as nat);
        lemma_blocks_counts(w, (upto - 1) as nat);
        assert((upto - 1) * w + w == upto * w) by (nonlinear_arith);
        lemma_prefix_counts_concat(before, repeated(r, w));
        let c = block_counts(w, (upto - 1) as nat);
        lemma_repeat_appended(c, r, w);
        let g = gain(c, r as int);
        assert(g == pow(w as int, r as nat)) by {
            lemma_pow0(w as int);
            lemma_pow_nonnegative(w, r as nat);
        }
        assert(w * g == pow(w as int, upto)) by {
            reveal(pow);
        }
        assert(c.update(r as int, c[r as int] + w * g) =~= block_counts(w, upto)) by {
            lemma_pow_nonnegative(w, upto);
        }
    }
}

/// A power of a power of two is a power of two.
pub proof fn lemma_pow_of_pow2(b: nat, k: nat)
    ensures
        pow(pow2(b) as int, k) == pow2(b * k),
{
    lemma_pow2(b);
    lemma_pow_multiplies(2, b, k);
    lemma_pow2(b * k);
}

/// What the seed for `n` is: seven blocks of `2^b` symbols, where `b` is a
/// seventh of the exponent `e` of the power of two, and `2^(e - 6b) - 2^b`
/// symbols of the last rank. It holds the keyword exactly `2^e` times, no
/// shorter prefix of the keyword more often, and is a string of ranks.
pub proof fn lemma_seed(n: nat)
    requires
        n >= 1,
    ensures
        all_ranks(seed_ranks(n)),
        seed_padding(n) + seed_block(n) == pow2((floor_log2(n) - 6 * (floor_log2(n) / 7)) as nat),
        seed_ranks(n).len() == 7 * seed_block(n) + seed_padding(n),
        prefix_counts(seed_ranks(n))[6] == pow2(floor_log2(n)),
        forall|k: int| 0 <= k < 7 ==> #[trigger] prefix_counts(seed_ranks(n))[k] <= pow2(floor_log2(n)),
        forall|k: int|
            0 <= k < 6 ==> #[trigger] prefix_counts(seed_ranks(n))[k] == block_counts(
                seed_block(n),
                7,
            )[k],
        block_counts(seed_block(n), 7)[6] + seed_padding(n) * block_counts(seed_block(n), 7)[5]
            == pow2(floor_log2(n)),
        block_counts(seed_block(n), 7)[5] >= 1,
        pow2(floor_log2(n)) <= n < 2 * pow2(floor_log2(n)),
{
    let e = floor_log2(n);
    let b = e / 7;
    let w = seed_block(n);
    let p = seed_padding(n);
    let rest = (e - 6 * b) as nat;
    lemma_floor_log2_bounds(n);
    lemma_blocks_counts(w, 7);
    let c = block_counts(w, 7);
    lemma_prefix_counts_concat(blocks(w, 7), repeated(6u8, p));
    lemma_repeat_appended(c, 6u8, p);
    // the powers of w as powers of two
    lemma_pow_of_pow2(b, 6);
    lemma_pow_of_pow2(b, 7);
    lemma_pow2_pos(b * 6);
    lemma_pow2_adds(b * 6, b);
    lemma_pow2_adds(b * 6, rest);
    assert(b * 6 + b == b * 7);
    assert(b * 6 + rest == e);
    let w6 = pow2(b * 6) as int;
    if b < rest {
        lemma_pow2_strictly_increases(b, rest);
    }
    assert(pow2(b) <= pow2(rest));
    let q = pow2(rest) - pow2(b);
    assert(pow2(e) - pow(w as int, 7) == w6 * q) by (nonlinear_arith)
        requires
            pow2(e) == w6 * pow2(rest),
            pow(w as int, 7) == w6 * pow2(b),
            q == pow2(rest) - pow2(b),
    ;
    lemma_div_multiples_vanish(q, w6);
    assert(p == q);
    assert(c[6] + p * c[5] == pow2(e)) by (nonlinear_arith)
        requires
            c[6] == w6 * pow2(b),
            c[5] == w6,
            p == pow2(rest) - pow2(b),
            pow2(e) == w6 * pow2(rest),
    ;
    assert forall|k: int| 0 <= k < 7 implies #[trigger] prefix_counts(seed_ranks(n))[k] <= pow2(
        e,
    ) by {
        if k < 6 {
            lemma_pow_of_pow2(b, (k + 1) as nat);
            assert(b * (k + 1) <= e) by (nonlinear_arith)
                requires
                    0 <= k < 6,
                    b * 7 <= e,
            ;
            if b * (k + 1) < e {
                lemma_pow2_strictly_increases((b * (k + 1)) as nat, e);
            }
        }
    }
    assert forall|j: int| 0 <= j < seed_ranks(n).len() implies #[trigger] seed_ranks(n)[j]
        < KEYWORD_LEN by {
        if j < blocks(w, 7).len() {
            assert(seed_ranks(n)[j] == blocks(w, 7)[j]);
        }
    }
}

/// The highest set bit of a number that fits into 32 bits is below 32.
pub proof fn lemma_floor_log2_u32(n: nat)
    requires
        1 <= n <= u32::MAX,
    ensures
        floor_log2(n) < 32,
{
    lemma_floor_log2_bounds(n);
    lemma2_to64();
    if floor_log2(n) > 32 {
        lemma_pow2_strictly_increases(32, floor_log2(n));
    }
}

/// The seed for a number that fits into 32 bits has at most 560 symbols.
pub proof fn lemma_seed_length(n: nat)
    requires
        1 <= n <= u32::MAX,
    ensures
        seed_ranks(n).len() <= 560,
{
    let e = floor_log2(n);
    let b = e / 7;
    let rest = (e - 6 * b) as nat;
    lemma_floor_log2_u32(n);
    lemma_seed(n);
    lemma2_to64();
    assert(b == 0 || b == 1 || b == 2 || b == 3 || b == 4);
    assert(rest == 0 || rest == 1 || rest == 2 || rest == 3 || rest == 4 || rest == 5 || rest == 6
        || rest == 7 || rest == 8 || rest == 9);
    assert(b == 4 ==> rest <= 7);
}

/// Builds the seed for `n`: the same number of symbols of each rank, rank
/// by rank, and then as many symbols of the last rank as bring the count to
/// the largest power of two within `n`.
pub fn build_base(n: u32) -> (prefix: Vec<u8>)
    requires
        n >= 1,
    ensures
        prefix@ == seed_ranks(n as nat),
        all_ranks(prefix@),
        fits(prefix_counts(prefix@)),
        prefix_counts(prefix@)[6] == pow2(floor_log2(n as nat)),
        prefix_counts(prefix@)[6] <= n < 2 * prefix_counts(prefix@)[6],
        prefix@.len() <= 560,
{
    let msb = ilog2(n);
    let base = msb / 7;
    let width = power_of_two(base);
    let ghost w = seed_block(n as nat);
    let mut prefix: Vec<u8> = Vec::new();
    let mut rank: u8 = 0;
    proof {
        lemma_seed(n as nat);
        lemma_seed_length(n as nat);
    }
    while rank < 7
        invariant
            rank <= 7,
            width == w,
            prefix@ == blocks(w, rank as nat),
        decreases 7 - rank,
    {
        let mut j: u32 = 0;
        while j < width
            invariant
                rank < 7,
                j <= width,
                prefix@ == blocks(w, rank as nat) + repeated(rank, j as nat),
            decreases width - j,
        {
            prefix.push(rank);
            j = j + 1;
            assert(prefix@ =~= blocks(w, rank as nat) + repeated(rank, j as nat));
        }
        rank = rank + 1;
    }
    proof {
        lemma_blocks_counts(w, 7);
        lemma_prefix_counts_empty();
        lemma_prefix_counts_concat(Seq::<u8>::empty(), prefix@);
        assert(Seq::<u8>::empty() + prefix@ =~= prefix@);
        assert(fits(block_counts(w, 7))) by {
            lemma2_to64();
            assert forall|k: int| 0 <= k < 7 implies #[trigger] block_counts(w, 7)[k]
                <= u32::MAX by {
                if k < 6 {
                    assert(block_counts(w, 7)[k] == prefix_counts(seed_ranks(n as nat))[k]);
                }
            }
        }
    }
    let tally = update_prefixes_generic(prefix.as_slice(), CountVector::zero());
    let sofar = tally.unwrap();
    let per_p = sofar.get(5);
    let have = sofar.get(6);
    let need = power_of_two(msb) - have;
    let padding = need / per_p;
    let ghost blocks_only = prefix@;
    assert(padding == seed_padding(n as nat)) by {
        lemma_pow_nonnegative(w, 6);
        lemma_pow_nonnegative(w, 7);
        assert(have == pow(w as int, 7));
        assert(per_p == pow(w as int, 6));
    }
    let mut j: u32 = 0;
    while j < padding
        invariant
            j <= padding,
            prefix@ == blocks_only + repeated(6u8, j as nat),
        decreases padding - j,
    {
        prefix.push(6);
        j = j + 1;
        assert(prefix@ =~= blocks_only + repeated(6u8, j as nat));
    }
    proof {
        assert(prefix@ == seed_ranks(n as nat));
        assert forall|k: int| 0 <= k < 7 implies #[trigger] prefix_counts(prefix@)[k]
            <= u32::MAX by {
            assert(prefix_counts(seed_ranks(n as nat))[k] <= pow2(floor_log2(n as nat)));
        }
    }
    prefix
}

} // verus!
