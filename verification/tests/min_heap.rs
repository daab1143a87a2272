use binary_analysis::min_heap::{Candidate, MinHeap, Probability, MAX_COUNT};

fn candidate(valid: usize, potential: usize, calls: usize, call_opcode: u64) -> Candidate {
    Candidate {
        probability: Probability::new(valid, potential, calls).unwrap(),
        call_opcode,
        ret_opcode: call_opcode + 1,
    }
}

fn opcodes(candidates: &[Candidate]) -> Vec<u64> {
    candidates.iter().map(|candidate| candidate.call_opcode).collect()
}

fn value(candidate: &Candidate) -> f64 {
    candidate.probability.numerator_value() as f64
        / candidate.probability.denominator_value() as f64
}

#[test]
fn the_score_weighs_valid_edges_twice() {
    let score = Probability::new(3, 4, 5).unwrap();
    assert_eq!(score.numerator_value(), 10);
    assert_eq!(score.denominator_value(), 15);
    let full = Probability::new(12, 12, 12).unwrap();
    assert_eq!(full.numerator_value(), 36);
    assert_eq!(full.denominator_value(), 36);
    let none = Probability::new(0, 0, 11).unwrap();
    assert_eq!(none.numerator_value(), 0);
    assert_eq!(none.denominator_value(), 33);
    let over = Probability::new(4, 4, 3).unwrap();
    assert_eq!(over.numerator_value(), 12);
    assert_eq!(over.denominator_value(), 9);
    assert!((value(&candidate(3, 4, 5, 0)) - (2.0 * 3.0 / 5.0 + 4.0 / 5.0) / 3.0).abs() < 1e-12);
}

#[test]
fn no_score_without_calls_or_from_counts_out_of_range() {
    assert!(Probability::new(0, 0, 0).is_none());
    assert!(Probability::new(1, 1, 0).is_none());
    assert!(Probability::new(1, 1, 1).is_some());
    let most = MAX_COUNT as usize;
    let largest = Probability::new(most, most, most).unwrap();
    assert_eq!(largest.numerator_value(), 3 * MAX_COUNT as u128);
    assert_eq!(largest.denominator_value(), 3 * MAX_COUNT as u128);
    assert!(Probability::new(most + 1, 0, 1).is_none());
    assert!(Probability::new(0, most + 1, 1).is_none());
    assert!(Probability::new(0, 0, most + 1).is_none());
    assert!(Probability::new(usize::MAX, usize::MAX, usize::MAX).is_none());
}

#[test]
fn scores_compare_as_fractions() {
    let low = Probability::new(1, 2, 7).unwrap();
    let high = Probability::new(2, 3, 9).unwrap();
    assert!(high.is_at_least(&low));
    assert!(!low.is_at_least(&high));
    assert!(low.is_at_least(&low));
    let half = Probability::new(1, 1, 2).unwrap();
    let same = Probability::new(50, 50, 100).unwrap();
    assert!(half.is_at_least(&same));
    assert!(same.is_at_least(&half));
    let most = MAX_COUNT as usize;
    let big = Probability::new(most, most, most).unwrap();
    let nearly = Probability::new(most - 1, most, most).unwrap();
    assert!(big.is_at_least(&nearly));
    assert!(!nearly.is_at_least(&big));
    let tiny = Probability::new(0, 1, most).unwrap();
    let zero = Probability::new(0, 0, 1).unwrap();
    assert!(tiny.is_at_least(&zero));
    assert!(!zero.is_at_least(&tiny));
}

#[test]
fn the_best_candidates_are_kept() {
    let mut heap = MinHeap::default();
    heap.add_maybe(3, candidate(1, 1, 10, 1));
    heap.add_maybe(3, candidate(5, 5, 10, 2));
    heap.add_maybe(3, candidate(3, 3, 10, 3));
    heap.add_maybe(3, candidate(9, 9, 10, 4));
    heap.add_maybe(3, candidate(0, 0, 10, 5));
    heap.add_maybe(3, candidate(4, 4, 10, 6));
    let result = heap.get_result();
    assert_eq!(opcodes(&result), vec![4, 2, 6]);
    assert_eq!(result[0].ret_opcode, 5);
    assert_eq!(result[0].probability.numerator_value(), 27);
    assert_eq!(result[0].probability.denominator_value(), 30);
    assert!(heap.get_result().is_empty());
}

#[test]
fn fewer_offers_than_places() {
    let mut heap = MinHeap::default();
    assert!(heap.get_result().is_empty());
    heap.add_maybe(3, candidate(1, 1, 10, 1));
    heap.add_maybe(3, candidate(5, 5, 10, 2));
    assert_eq!(opcodes(&heap.get_result()), vec![2, 1]);
}

#[test]
fn no_place_keeps_nothing() {
    let mut heap = MinHeap::default();
    heap.add_maybe(0, candidate(1, 1, 10, 1));
    heap.add_maybe(0, candidate(5, 5, 10, 2));
    assert!(heap.get_result().is_empty());
}

#[test]
fn one_place_keeps_the_best() {
    let mut heap = MinHeap::default();
    for (index, valid) in [3usize, 9, 1, 9, 4].into_iter().enumerate() {
        heap.add_maybe(1, candidate(valid, valid, 10, index as u64));
    }
    let result = heap.get_result();
    assert_eq!(result.len(), 1);
    assert_eq!(result[0].probability.numerator_value(), 27);
}

#[test]
fn equal_scores_keep_the_order_of_their_offers() {
    let mut heap = MinHeap::default();
    heap.add_maybe(3, candidate(1, 1, 2, 1));
    heap.add_maybe(3, candidate(2, 2, 4, 2));
    heap.add_maybe(3, candidate(9, 9, 10, 3));
    heap.add_maybe(3, candidate(3, 3, 6, 4));
    assert_eq!(opcodes(&heap.get_result()), vec![3, 1, 2]);
}

#[test]
fn no_candidate_that_left_beats_one_that_is_kept() {
    let mut offered: Vec<Candidate> = Vec::new();
    let mut seed: u64 = 12345;
    for index in 0..200u64 {
        seed = seed.wrapping_mul(6364136223846793005).wrapping_add(1442695040888963407);
        let calls = 11 + (seed >> 33) as usize % 50;
        let potential = (seed >> 20) as usize % (calls + 1);
        let valid = (seed >> 7) as usize % (potential + 1);
        offered.push(candidate(valid, potential, calls, index));
    }
    for places in [0usize, 1, 2, 3, 7, 50, 200, 500] {
        let mut heap = MinHeap::default();
        for (count, candidate) in offered.iter().enumerate() {
            heap.add_maybe(places, *candidate);
            if count % 37 == 0 || count + 1 == offered.len() {
                let mut copy = MinHeap::default();
                for earlier in offered[..=count].iter() {
                    copy.add_maybe(places, *earlier);
                }
                let kept = copy.get_result();
                assert_eq!(kept.len(), places.min(count + 1));
                for pair in kept.windows(2) {
                    assert!(pair[0].probability.is_at_least(&pair[1].probability));
                }
                let kept_opcodes = opcodes(&kept);
                for earlier in offered[..=count].iter() {
                    if !kept_opcodes.contains(&earlier.call_opcode) {
                        for held in kept.iter() {
                            assert!(held.probability.is_at_least(&earlier.probability));
                            assert!(value(held) >= value(earlier));
                        }
                    }
                }
            }
        }
        let result = heap.get_result();
        assert_eq!(result.len(), places.min(offered.len()));
    }
}
