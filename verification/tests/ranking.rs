use vector_search::ranking::{rank, ranks_before, ScoredResult};
use vector_search::score::{Score, NAN_RANK};

fn entry(id: u128, value: f32) -> ScoredResult {
    ScoredResult { id, score: Score::from_bits(value.to_bits()) }
}

fn ids(hits: &[ScoredResult]) -> Vec<u128> {
    hits.iter().map(|hit| hit.id).collect()
}

#[test]
fn score_keeps_its_bits() {
    let score = Score::from_bits(0x3f80_0000);
    assert_eq!(score.to_bits(), 0x3f80_0000);
    assert_eq!(score.bits, 1.0f32.to_bits());
}

#[test]
fn rank_key_of_positive_numbers_is_their_bit_pattern() {
    assert_eq!(Score::from_bits(1.0f32.to_bits()).rank_key(), 0x3f80_0000);
    assert_eq!(Score::from_bits(0.5f32.to_bits()).rank_key(), 0x3f00_0000);
    assert_eq!(Score::from_bits(f32::INFINITY.to_bits()).rank_key(), 0x7f80_0000);
}

#[test]
fn rank_key_of_negative_numbers_is_negated() {
    assert_eq!(Score::from_bits((-1.0f32).to_bits()).rank_key(), -0x3f80_0000);
    assert_eq!(Score::from_bits(f32::NEG_INFINITY.to_bits()).rank_key(), -0x7f80_0000);
}

#[test]
fn rank_key_of_both_zeros_is_zero() {
    assert_eq!(Score::from_bits(0.0f32.to_bits()).rank_key(), 0);
    assert_eq!(Score::from_bits((-0.0f32).to_bits()).rank_key(), 0);
}

#[test]
fn rank_key_of_what_is_not_a_number_is_the_lowest() {
    assert_eq!(NAN_RANK, -2_147_483_648);
    assert_eq!(Score::from_bits(f32::NAN.to_bits()).rank_key(), NAN_RANK);
    assert_eq!(Score::from_bits(0x7f80_0001).rank_key(), NAN_RANK);
    assert_eq!(Score::from_bits(0xffff_ffff).rank_key(), NAN_RANK);
    assert_eq!(Score::from_bits(0xff80_0001).rank_key(), NAN_RANK);
    assert!(NAN_RANK < Score::from_bits(f32::NEG_INFINITY.to_bits()).rank_key());
}

#[test]
fn rank_key_orders_as_the_numbers_do() {
    let values = [
        f32::NEG_INFINITY,
        -1.0e30,
        -1.0,
        -0.25,
        -1.0e-40,
        0.0,
        1.0e-40,
        0.25,
        0.999_999_9,
        1.0,
        1.000_000_1,
        3.5e20,
        f32::INFINITY,
    ];
    for a in values {
        for b in values {
            let key_a = Score::from_bits(a.to_bits()).rank_key();
            let key_b = Score::from_bits(b.to_bits()).rank_key();
            assert_eq!(a < b, key_a < key_b);
            assert_eq!(a == b, key_a == key_b);
        }
    }
}

#[test]
fn ranks_before_prefers_the_higher_score() {
    assert!(ranks_before(&entry(2, 0.9), &entry(1, 0.1)));
    assert!(!ranks_before(&entry(1, 0.1), &entry(2, 0.9)));
    assert!(ranks_before(&entry(1, 0.0), &entry(2, -0.5)));
}

#[test]
fn ranks_before_breaks_ties_by_identifier_then_bits() {
    assert!(ranks_before(&entry(1, 0.5), &entry(2, 0.5)));
    assert!(!ranks_before(&entry(2, 0.5), &entry(1, 0.5)));
    assert!(ranks_before(&entry(1, 0.5), &entry(1, 0.5)));
    assert!(ranks_before(&entry(1, 0.0), &entry(2, -0.0)));
    assert!(ranks_before(&entry(7, 0.0), &entry(7, -0.0)));
    assert!(!ranks_before(&entry(7, -0.0), &entry(7, 0.0)));
}

#[test]
fn ranks_before_puts_what_is_not_a_number_behind_every_number() {
    assert!(ranks_before(&entry(9, f32::NEG_INFINITY), &entry(1, f32::NAN)));
    assert!(!ranks_before(&entry(1, f32::NAN), &entry(9, f32::NEG_INFINITY)));
    assert!(ranks_before(&entry(1, f32::NAN), &entry(2, f32::NAN)));
}

#[test]
fn rank_sorts_descending() {
    let hits = rank(vec![entry(1, 0.1), entry(2, 0.9), entry(3, -0.4), entry(4, 0.5)], 10);
    assert_eq!(ids(&hits), vec![2, 4, 1, 3]);
}

#[test]
fn rank_keeps_the_first_k() {
    let hits = rank(vec![entry(1, 0.1), entry(2, 0.9), entry(3, -0.4), entry(4, 0.5)], 2);
    assert_eq!(hits, vec![entry(2, 0.9), entry(4, 0.5)]);
}

#[test]
fn rank_with_k_zero_is_empty() {
    assert!(rank(vec![entry(1, 0.1), entry(2, 0.9)], 0).is_empty());
}

#[test]
fn rank_of_nothing_is_empty() {
    assert!(rank(Vec::new(), 3).is_empty());
}

#[test]
fn rank_of_one_entry_is_that_entry() {
    assert_eq!(rank(vec![entry(5, 0.3)], 1), vec![entry(5, 0.3)]);
    assert_eq!(rank(vec![entry(5, 0.3)], 2), vec![entry(5, 0.3)]);
}

#[test]
fn rank_does_not_depend_on_the_order_of_its_input() {
    let forward = vec![entry(1, 0.5), entry(2, 0.5), entry(3, 0.7), entry(4, f32::NAN), entry(5, -1.0)];
    let mut backward = forward.clone();
    backward.reverse();
    let expected = vec![3, 1, 2, 5, 4];
    assert_eq!(ids(&rank(forward.clone(), 5)), expected);
    assert_eq!(ids(&rank(backward.clone(), 5)), expected);
    assert_eq!(rank(forward, 3), rank(backward, 3));
}

#[test]
fn rank_keeps_entries_that_occur_twice() {
    let hits = rank(vec![entry(1, 0.5), entry(1, 0.5), entry(2, 0.9)], 3);
    assert_eq!(hits, vec![entry(2, 0.9), entry(1, 0.5), entry(1, 0.5)]);
}

#[test]
fn rank_sorts_many_entries() {
    let mut entries = Vec::new();
    for i in 0..200u32 {
        let value = ((i * 37) % 101) as f32 / 100.0;
        entries.push(entry(i as u128, value));
    }
    let hits = rank(entries.clone(), 200);
    assert_eq!(hits.len(), 200);
    for pair in hits.windows(2) {
        assert!(ranks_before(&pair[0], &pair[1]));
        let a = f32::from_bits(pair[0].score.to_bits());
        let b = f32::from_bits(pair[1].score.to_bits());
        assert!(a >= b);
    }
    let mut expected = ids(&entries);
    expected.sort();
    let mut got = ids(&hits);
    got.sort();
    assert_eq!(got, expected);
    assert_eq!(rank(entries, 7), hits[..7].to_vec());
}
