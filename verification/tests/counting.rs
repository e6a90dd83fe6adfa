use geolymp::counts::{count_geolymp, update_prefixes_generic, CountVector};
use geolymp::keyword::rank_of;

fn ranks(text: &str) -> Vec<u8> {
    text.chars().map(|c| rank_of(c).unwrap()).collect()
}

fn tally(slots: [u32; 7]) -> CountVector {
    CountVector { slots }
}

#[test]
fn rank_of_knows_the_seven_letters() {
    let letters = ['G', 'E', 'O', 'L', 'Y', 'M', 'P'];
    for (k, c) in letters.iter().enumerate() {
        assert_eq!(rank_of(*c), Some(k as u8));
    }
    assert_eq!(rank_of('g'), None);
    assert_eq!(rank_of('A'), None);
    assert_eq!(rank_of(' '), None);
}

#[test]
fn zero_tally_is_all_zero() {
    assert_eq!(CountVector::zero().slots, [0; 7]);
    assert_eq!(CountVector::zero().total(), 0);
}

#[test]
fn append_char_of_rank_zero_adds_one() {
    let c = tally([4, 3, 2, 1, 0, 9, 8]).append_char(0).unwrap();
    assert_eq!(c.slots, [5, 3, 2, 1, 0, 9, 8]);
}

#[test]
fn append_char_adds_the_slot_before() {
    let c = tally([4, 3, 2, 1, 0, 9, 8]).append_char(1).unwrap();
    assert_eq!(c.slots, [4, 7, 2, 1, 0, 9, 8]);
    let c = tally([4, 3, 2, 1, 0, 9, 8]).append_char(6).unwrap();
    assert_eq!(c.slots, [4, 3, 2, 1, 0, 9, 17]);
    let c = tally([4, 3, 2, 1, 0, 9, 8]).append_char(5).unwrap();
    assert_eq!(c.slots, [4, 3, 2, 1, 0, 9, 8]);
}

#[test]
fn append_char_reports_overflow() {
    assert!(tally([u32::MAX, 0, 0, 0, 0, 0, 0]).append_char(0).is_none());
    assert!(tally([0, 0, 0, 0, 0, 2, u32::MAX - 1]).append_char(6).is_none());
    let c = tally([0, 0, 0, 0, 0, 1, u32::MAX - 1]).append_char(6).unwrap();
    assert_eq!(c.total(), u32::MAX);
}

#[test]
fn append_chunk_from_zero() {
    let zero = CountVector::zero();
    assert_eq!(zero.append_chunk(0).unwrap().slots, [1, 1, 1, 1, 1, 1, 1]);
    for i in 1..7 {
        assert_eq!(zero.append_chunk(i).unwrap().slots, [0; 7]);
    }
}

#[test]
fn append_chunk_is_a_running_sum() {
    let c = tally([1, 2, 3, 4, 5, 6, 7]);
    assert_eq!(c.append_chunk(0).unwrap().slots, [2, 4, 7, 11, 16, 22, 29]);
    assert_eq!(c.append_chunk(1).unwrap().slots, [1, 3, 6, 10, 15, 21, 28]);
    assert_eq!(c.append_chunk(2).unwrap().slots, [1, 2, 5, 9, 14, 20, 27]);
    assert_eq!(c.append_chunk(3).unwrap().slots, [1, 2, 3, 7, 12, 18, 25]);
    assert_eq!(c.append_chunk(4).unwrap().slots, [1, 2, 3, 4, 9, 15, 22]);
    assert_eq!(c.append_chunk(5).unwrap().slots, [1, 2, 3, 4, 5, 11, 18]);
    assert_eq!(c.append_chunk(6).unwrap().slots, [1, 2, 3, 4, 5, 6, 13]);
}

#[test]
fn append_chunk_is_the_same_as_its_characters() {
    let c = tally([3, 1, 4, 1, 5, 9, 2]);
    for i in 0..7usize {
        let mut by_char = c;
        for r in i..7 {
            by_char = by_char.append_char(r as u8).unwrap();
        }
        assert_eq!(c.append_chunk(i).unwrap().slots, by_char.slots);
    }
}

#[test]
fn append_chunk_reports_overflow() {
    assert!(tally([0, 0, 0, 0, 0, u32::MAX, 1]).append_chunk(6).is_none());
    assert!(tally([u32::MAX, 0, 0, 0, 0, 0, 0]).append_chunk(0).is_none());
    assert!(tally([1 << 31, 1 << 31, 0, 0, 0, 0, 0]).append_chunk(1).is_none());
    assert!(tally([u32::MAX, 0, 0, 0, 0, 0, 0]).append_chunk(2).is_some());
}

#[test]
fn append_chunk_never_lowers_the_last_slot() {
    let samples = [[0u32; 7], [1, 1, 1, 1, 1, 1, 1], [9, 0, 7, 0, 5, 0, 3], [1, 2, 3, 4, 5, 6, 7]];
    for slots in samples {
        for i in 0..7 {
            let c = tally(slots);
            assert!(c.append_chunk(i).unwrap().total() >= c.total());
        }
    }
}

#[test]
fn undo_chunk_inverts_append_chunk() {
    let samples = [[0u32; 7], [1, 1, 1, 1, 1, 1, 1], [9, 0, 7, 0, 5, 0, 3], [1, 2, 3, 4, 5, 6, 7]];
    for slots in samples {
        for i in 0..7 {
            let c = tally(slots);
            assert_eq!(c.append_chunk(i).unwrap().undo_chunk(i).slots, slots);
        }
    }
}

#[test]
fn undo_chunk_exact_values() {
    assert_eq!(tally([2, 4, 7, 11, 16, 22, 29]).undo_chunk(0).slots, [1, 2, 3, 4, 5, 6, 7]);
    assert_eq!(tally([1, 2, 3, 4, 5, 11, 18]).undo_chunk(5).slots, [1, 2, 3, 4, 5, 6, 7]);
}

#[test]
fn update_prefixes_reads_left_to_right() {
    let c = update_prefixes_generic(&[0, 0, 1, 2, 3, 4, 5, 6], CountVector::zero()).unwrap();
    assert_eq!(c.slots, [2, 2, 2, 2, 2, 2, 2]);
    let c = update_prefixes_generic(&[6, 5, 4, 3, 2, 1, 0], CountVector::zero()).unwrap();
    assert_eq!(c.slots, [1, 0, 0, 0, 0, 0, 0]);
    let c = update_prefixes_generic(&[], tally([1, 2, 3, 4, 5, 6, 7])).unwrap();
    assert_eq!(c.slots, [1, 2, 3, 4, 5, 6, 7]);
}

#[test]
fn count_of_the_empty_string_is_zero() {
    assert_eq!(count_geolymp(&[]), Some(0));
}

#[test]
fn count_of_the_keyword_is_one() {
    assert_eq!(count_geolymp(&ranks("GEOLYMP")), Some(1));
}

#[test]
fn doubling_the_first_letter_doubles_the_count() {
    assert_eq!(count_geolymp(&ranks("GGEOLYMP")), Some(2));
}

#[test]
fn the_keyword_twice_counts_eight() {
    assert_eq!(count_geolymp(&ranks("GEOLYMPGEOLYMP")), Some(8));
}

#[test]
fn count_needs_the_letters_in_order() {
    assert_eq!(count_geolymp(&ranks("PMYLOEG")), Some(0));
    assert_eq!(count_geolymp(&ranks("GEOLYM")), Some(0));
    assert_eq!(count_geolymp(&ranks("GGEEOOLLYYMMPP")), Some(128));
}

#[test]
fn count_reports_overflow() {
    let mut s = Vec::new();
    for r in 0..7u8 {
        for _ in 0..32 {
            s.push(r);
        }
    }
    // 32^7 = 2^35 occurrences
    assert_eq!(count_geolymp(&s), None);
}
