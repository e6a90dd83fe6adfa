use bumpalo::Bump;
use geolymp::counts::{count_geolymp, CountVector};
use geolymp::driver::{solve, solve_within, to_letters, SolveError, LENGTH_BOUND};
use geolymp::search::{SearchStep, Searcher};
use geolymp::seed::{build_base, ilog2, power_of_two};

/// Counts the keyword in `text` by a pass of its own, in 128 bits.
fn recount(text: &str) -> u128 {
    let word: Vec<char> = "GEOLYMP".chars().collect();
    let mut ways = [0u128; 8];
    ways[0] = 1;
    for c in text.chars() {
        for k in (0..7).rev() {
            if c == word[k] {
                ways[k + 1] += ways[k];
            }
        }
    }
    ways[7]
}

fn check_answer(target: u32, bound: usize) {
    let s = solve_within(target, bound).unwrap();
    assert_eq!(recount(&s), target as u128, "target {target}: {s}");
    assert!(s.len() <= bound);
    assert!(s.chars().all(|c| "GEOLYMP".contains(c)));
}

#[test]
fn recount_agrees_on_known_strings() {
    assert_eq!(recount(""), 0);
    assert_eq!(recount("GEOLYMP"), 1);
    assert_eq!(recount("GGEOLYMP"), 2);
    assert_eq!(recount("GEOLYMPGEOLYMP"), 8);
}

#[test]
fn target_zero_gives_the_empty_string() {
    assert_eq!(solve(0), Ok(String::new()));
}

#[test]
fn target_one_round_trips() {
    let s = solve(1).unwrap();
    assert_eq!(recount(&s), 1);
    assert_eq!(s, "GEOLYMP");
}

#[test]
fn target_two_round_trips() {
    let s = solve(2).unwrap();
    assert_eq!(recount(&s), 2);
    assert!(s.len() <= LENGTH_BOUND);
}

#[test]
fn target_eight_round_trips() {
    let s = solve(8).unwrap();
    assert_eq!(recount(&s), 8);
    assert!(s.len() <= LENGTH_BOUND);
}

#[test]
fn small_targets_round_trip() {
    for target in 0..=300 {
        check_answer(target, LENGTH_BOUND);
    }
}

#[test]
fn powers_of_two_round_trip() {
    for e in 0..=31 {
        check_answer(1 << e, LENGTH_BOUND);
    }
}

#[test]
fn some_larger_targets_round_trip() {
    for target in [1000, 4097, 12345, 65535, 65536, 100_000] {
        check_answer(target, LENGTH_BOUND);
    }
}

#[test]
fn answers_respect_a_smaller_bound() {
    for target in 0..=40 {
        check_answer(target, 60);
    }
}

#[test]
fn bound_below_the_keyword_is_refused() {
    assert_eq!(solve_within(100, 3), Err(SolveError::ConfigurationError));
    assert_eq!(solve_within(0, 6), Err(SolveError::ConfigurationError));
    assert_eq!(solve_within(1, 0), Err(SolveError::ConfigurationError));
}

#[test]
fn bound_of_the_keyword_admits_one_occurrence_only() {
    assert_eq!(solve_within(1, 7), Ok("GEOLYMP".to_string()));
    assert_eq!(solve_within(0, 7), Ok(String::new()));
    assert_eq!(solve_within(100, 7), Err(SolveError::TargetUnreachable));
    assert_eq!(solve_within(2, 7), Err(SolveError::TargetUnreachable));
}

#[test]
fn tight_bound_is_unreachable() {
    assert_eq!(solve_within(2, 8).map(|s| recount(&s)), Ok(2));
    assert_eq!(solve_within(1000, 9), Err(SolveError::TargetUnreachable));
}

#[test]
fn ilog2_exact_values() {
    assert_eq!(ilog2(1), 0);
    assert_eq!(ilog2(2), 1);
    assert_eq!(ilog2(3), 1);
    assert_eq!(ilog2(4), 2);
    assert_eq!(ilog2(1023), 9);
    assert_eq!(ilog2(1024), 10);
    assert_eq!(ilog2(u32::MAX), 31);
}

#[test]
fn power_of_two_exact_values() {
    assert_eq!(power_of_two(0), 1);
    assert_eq!(power_of_two(1), 2);
    assert_eq!(power_of_two(10), 1024);
    assert_eq!(power_of_two(31), 1 << 31);
}

#[test]
fn build_base_of_one_is_the_keyword() {
    assert_eq!(build_base(1), vec![0, 1, 2, 3, 4, 5, 6]);
}

#[test]
fn build_base_pads_with_the_last_rank() {
    assert_eq!(build_base(2), vec![0, 1, 2, 3, 4, 5, 6, 6]);
    assert_eq!(build_base(3), vec![0, 1, 2, 3, 4, 5, 6, 6]);
    assert_eq!(build_base(5), vec![0, 1, 2, 3, 4, 5, 6, 6, 6, 6]);
    assert_eq!(build_base(64).len(), 70);
}

#[test]
fn build_base_doubles_the_blocks_at_the_seventh_bit() {
    let base = build_base(128);
    assert_eq!(base, vec![0, 0, 1, 1, 2, 2, 3, 3, 4, 4, 5, 5, 6, 6]);
    let base = build_base(256);
    assert_eq!(base, vec![0, 0, 1, 1, 2, 2, 3, 3, 4, 4, 5, 5, 6, 6, 6, 6]);
}

#[test]
fn build_base_counts_the_power_of_two() {
    for e in 0..32 {
        let n = 1u32 << e;
        assert_eq!(count_geolymp(&build_base(n)), Some(n));
        let below = n + (n - 1);
        assert_eq!(count_geolymp(&build_base(below)), Some(n));
    }
}

#[test]
fn build_base_stays_short() {
    for e in 0..32 {
        assert!(build_base(1u32 << e).len() <= 560);
    }
    assert_eq!(build_base(1 << 27).len(), 560);
}

#[test]
fn to_letters_spells_ranks() {
    assert_eq!(to_letters(&[]), "");
    assert_eq!(to_letters(&[0, 1, 2, 3, 4, 5, 6]), "GEOLYMP");
    assert_eq!(to_letters(&[6, 6, 0, 5]), "PPGM");
}

#[test]
fn search_finds_the_first_path_in_order() {
    let arena = Bump::new();
    let searcher = Searcher::new(8, 1000, &arena);
    let leaf = searcher.search_with_base(&[]).unwrap();
    assert_eq!(leaf.prefixes.total(), 8);
    assert_eq!(leaf.to_string_with_charset("GEOLYMP"), "GEOLYMPGEOLYMP");
    assert_eq!(leaf.length, 14);
    assert_eq!(leaf.suffix, 0);
    assert_eq!(leaf.previous.unwrap().suffix, 0);
    assert_eq!(leaf.previous.unwrap().previous.unwrap().suffix, 7);
}

#[test]
fn search_with_base_returns_the_start_node_on_a_match() {
    let arena = Bump::new();
    let searcher = Searcher::new(2, 1000, &arena);
    let leaf = searcher.search_with_base(&[0, 0, 1, 2, 3, 4, 5, 6]).unwrap();
    assert!(leaf.previous.is_none());
    assert_eq!(leaf.suffix, 7);
    assert_eq!(leaf.length, 8);
    assert_eq!(leaf.prefixes.slots, [2; 7]);
    assert_eq!(leaf.to_string_with_charset("GEOLYMP"), "");
}

#[test]
fn search_appends_suffixes_to_the_base() {
    let arena = Bump::new();
    let searcher = Searcher::new(3, 1000, &arena);
    let base = [0, 1, 2, 3, 4, 5, 6];
    let leaf = searcher.search_with_base(&base).unwrap();
    let text = format!("{}{}", to_letters(&base), leaf.to_string_with_charset("GEOLYMP"));
    assert_eq!(recount(&text), 3);
    assert_eq!(leaf.length, text.len());
    assert_eq!(text, "GEOLYMPMP");
}

#[test]
fn search_prunes_by_length() {
    let arena = Bump::new();
    let searcher = Searcher::new(3, 8, &arena);
    assert!(searcher.search_with_base(&[0, 1, 2, 3, 4, 5, 6]).is_none());
    let searcher = Searcher::new(3, 9, &arena);
    assert!(searcher.search_with_base(&[0, 1, 2, 3, 4, 5, 6]).is_some());
}

#[test]
fn search_refuses_a_base_over_the_bound() {
    let arena = Bump::new();
    let searcher = Searcher::new(1, 6, &arena);
    assert!(searcher.search_with_base(&[0, 1, 2, 3, 4, 5, 6]).is_none());
}

#[test]
fn search_from_a_node_skips_the_node_itself() {
    let arena = Bump::new();
    let searcher = Searcher::new(0, 20, &arena);
    let start = arena.alloc(SearchStep::start(CountVector::zero(), 0));
    let leaf = searcher.search(start).unwrap();
    assert_eq!(leaf.suffix, 1);
    assert_eq!(leaf.to_string_with_charset("GEOLYMP"), "EOLYMP");
    assert_eq!(leaf.prefixes.total(), 0);
}

#[test]
fn to_string_with_charset_takes_any_seven_symbols() {
    let arena = Bump::new();
    let searcher = Searcher::new(8, 1000, &arena);
    let leaf = searcher.search_with_base(&[]).unwrap();
    assert_eq!(leaf.to_string_with_charset("abcdefg"), "abcdefgabcdefg");
    assert_eq!(
        leaf.to_string_with_charset("\x00\x01\x02\x03\x04\x05\x06").as_bytes(),
        &[0, 1, 2, 3, 4, 5, 6, 0, 1, 2, 3, 4, 5, 6]
    );
}

#[test]
fn answers_are_the_first_in_search_order() {
    assert_eq!(solve(2), Ok("GEOLYMPP".to_string()));
    assert_eq!(solve(3), Ok("GEOLYMPPP".to_string()));
    assert_eq!(solve(8), Ok("GEOLYMPPPPPPPP".to_string()));
    assert_eq!(solve(128), Ok("GGEEOOLLYYMMPP".to_string()));
}

#[test]
fn the_same_target_gives_the_same_answer() {
    for target in [0, 5, 77, 1234] {
        assert_eq!(solve(target), solve(target));
    }
}

#[test]
fn a_failed_seed_gives_way_to_the_next_smaller() {
    // the seed for 2 needs eight letters, so with a bound of 8 the target 3
    // cannot be reached from it, and no smaller seed helps either
    assert_eq!(solve_within(3, 8), Err(SolveError::TargetUnreachable));
    // with a bound of 9 the seed for 2 takes one more letter
    assert_eq!(solve_within(3, 9), Ok("GEOLYMPPP".to_string()));
    // the seed for 4 is too long for a bound of 9, the one for 2 is not
    assert_eq!(build_base(4).len(), 10);
    assert_eq!(solve_within(4, 9).map(|s| recount(&s)), Err(SolveError::TargetUnreachable));
}

#[test]
fn a_fresh_arena_has_no_allocation_limit() {
    assert_eq!(Bump::new().allocation_limit(), None);
}

#[test]
fn nodes_keep_what_was_put_in_them() {
    let arena = Bump::new();
    let searcher = Searcher::new(29, 1000, &arena);
    let leaf = searcher.search_with_base(&[0, 1, 2, 3, 4, 5, 6]).unwrap();
    assert_eq!(leaf.prefixes.total(), 29);
    let mut node = leaf;
    let mut seen = 0;
    while let Some(parent) = node.previous {
        let grown = parent.prefixes.append_chunk(node.suffix as usize).unwrap();
        assert_eq!(grown.slots, node.prefixes.slots);
        assert_eq!(node.length, parent.length + 7 - node.suffix as usize);
        node = parent;
        seen += 1;
    }
    assert!(seen >= 1);
    assert_eq!(node.suffix, 7);
    assert_eq!(node.length, 7);
    assert_eq!(node.prefixes.slots, [1; 7]);
}
