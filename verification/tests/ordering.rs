use vector_store::heap::MinHeap;
use vector_store::similarity::{
    score_at_least, score_is_nan, score_rank, Distance, ScoreIndex, INFINITY_BITS,
    MAGNITUDE_MASK, NEGATIVE_INFINITY_BITS, SIGN_MASK,
};

fn sample_numbers() -> Vec<f32> {
    vec![
        f32::NEG_INFINITY,
        f32::MIN,
        -2.5,
        -1.0,
        -f32::MIN_POSITIVE,
        -1.0e-45,
        -0.0,
        0.0,
        1.0e-45,
        f32::MIN_POSITIVE,
        0.5,
        1.0,
        5.0,
        f32::MAX,
        f32::INFINITY,
    ]
}

#[test]
fn rank_orders_patterns_as_their_numbers() {
    let numbers = sample_numbers();
    for a in numbers.iter() {
        for b in numbers.iter() {
            let ra = score_rank(a.to_bits());
            let rb = score_rank(b.to_bits());
            assert_eq!(ra < rb, a < b, "{} < {}", a, b);
            assert_eq!(ra == rb, a == b, "{} == {}", a, b);
            assert_eq!(ra > rb, a > b, "{} > {}", a, b);
        }
    }
}

#[test]
fn rank_of_known_patterns() {
    assert_eq!(score_rank(0x0000_0000), 0);
    assert_eq!(score_rank(0x8000_0000), 0);
    assert_eq!(score_rank(1.0f32.to_bits()), 0x3f80_0000);
    assert_eq!(score_rank((-1.0f32).to_bits()), -0x3f80_0000);
    assert_eq!(score_rank(f32::INFINITY.to_bits()), 0x7f80_0000);
    assert_eq!(score_rank(f32::NEG_INFINITY.to_bits()), -0x7f80_0000);
    assert_eq!(score_rank(0xffff_ffff), -0x7fff_ffff);
    assert_eq!(score_rank(0x7fff_ffff), 0x7fff_ffff);
}

#[test]
fn the_constants_are_the_patterns_they_name() {
    assert_eq!(NEGATIVE_INFINITY_BITS, f32::NEG_INFINITY.to_bits());
    assert_eq!(INFINITY_BITS, f32::INFINITY.to_bits());
    assert_eq!(SIGN_MASK, (-0.0f32).to_bits());
    assert_eq!(MAGNITUDE_MASK, !SIGN_MASK);
}

#[test]
fn nan_patterns_are_told_from_numbers() {
    assert!(score_is_nan(f32::NAN.to_bits()));
    assert!(score_is_nan((-f32::NAN).to_bits()));
    assert!(score_is_nan(0x7f80_0001));
    assert!(score_is_nan(0xffc0_0000));
    for number in sample_numbers() {
        assert!(!score_is_nan(number.to_bits()), "{}", number);
    }
}

#[test]
fn at_least_is_the_comparison_of_the_numbers() {
    let mut numbers = sample_numbers();
    numbers.push(f32::NAN);
    for a in numbers.iter() {
        for b in numbers.iter() {
            assert_eq!(score_at_least(a.to_bits(), b.to_bits()), a >= b, "{} >= {}", a, b);
        }
    }
}

#[test]
fn every_number_meets_negative_infinity() {
    for number in sample_numbers() {
        assert!(score_at_least(number.to_bits(), NEGATIVE_INFINITY_BITS), "{}", number);
    }
    assert!(!score_at_least(f32::NAN.to_bits(), NEGATIVE_INFINITY_BITS));
    assert!(!score_at_least(0xffc0_0000, NEGATIVE_INFINITY_BITS));
}

#[test]
fn at_least_is_false_with_a_nan() {
    let nan = f32::NAN.to_bits();
    let one = 1.0f32.to_bits();
    assert!(!score_at_least(nan, one));
    assert!(!score_at_least(one, nan));
    assert!(!score_at_least(nan, nan));
    assert!(score_at_least(one, one));
}

#[test]
fn only_cosine_stores_unit_vectors() {
    assert!(Distance::Cosine.stores_unit_vectors());
    assert!(!Distance::Euclidean.stores_unit_vectors());
    assert!(!Distance::DotProduct.stores_unit_vectors());
}

fn entry(score: f32, index: usize) -> ScoreIndex {
    ScoreIndex { score: score.to_bits(), index }
}

#[test]
fn the_higher_score_outranks() {
    assert!(entry(2.0, 7).outranks(&entry(1.0, 0)));
    assert!(!entry(1.0, 0).outranks(&entry(2.0, 7)));
    assert!(entry(0.0, 3).outranks(&entry(-1.0, 1)));
}

#[test]
fn of_equal_scores_the_earlier_position_outranks() {
    assert!(entry(1.0, 0).outranks(&entry(1.0, 2)));
    assert!(!entry(1.0, 2).outranks(&entry(1.0, 0)));
    assert!(!entry(1.0, 2).outranks(&entry(1.0, 2)));
    assert!(entry(-0.0, 1).outranks(&entry(0.0, 4)));
    assert!(!entry(0.0, 4).outranks(&entry(-0.0, 1)));
}

#[test]
fn an_empty_heap_has_nothing_to_give() {
    let mut heap = MinHeap::new();
    assert_eq!(heap.len(), 0);
    assert!(heap.peek().is_none());
    assert!(heap.pop().is_none());
    assert!(heap.into_sorted_vec().is_empty());
}

#[test]
fn the_heap_gives_the_weakest_first() {
    let scores = [3.0f32, -1.0, 7.5, 0.0, 7.5, 2.0, -4.0, 3.0];
    let mut heap = MinHeap::new();
    for (index, score) in scores.iter().enumerate() {
        heap.push(entry(*score, index));
        assert_eq!(heap.len(), index + 1);
    }
    let weakest = *heap.peek().unwrap();
    assert_eq!((f32::from_bits(weakest.score), weakest.index), (-4.0, 6));
    let mut popped = Vec::new();
    while let Some(next) = heap.pop() {
        popped.push((f32::from_bits(next.score), next.index));
    }
    assert_eq!(
        popped,
        vec![(-4.0, 6), (-1.0, 1), (0.0, 3), (2.0, 5), (3.0, 7), (3.0, 0), (7.5, 4), (7.5, 2)]
    );
    assert_eq!(heap.len(), 0);
}

#[test]
fn the_heap_sorts_from_best_to_weakest() {
    let scores = [3.0f32, -1.0, 7.5, 0.0, 7.5, 2.0, -4.0, 3.0];
    let mut heap = MinHeap::new();
    for (index, score) in scores.iter().enumerate() {
        heap.push(entry(*score, index));
    }
    let sorted: Vec<(f32, usize)> = heap
        .into_sorted_vec()
        .iter()
        .map(|e| (f32::from_bits(e.score), e.index))
        .collect();
    assert_eq!(
        sorted,
        vec![(7.5, 2), (7.5, 4), (3.0, 0), (3.0, 7), (2.0, 5), (0.0, 3), (-1.0, 1), (-4.0, 6)]
    );
}

#[test]
fn the_heap_keeps_what_was_pushed_twice() {
    let mut heap = MinHeap::new();
    heap.push(entry(1.0, 0));
    heap.push(entry(1.0, 0));
    heap.push(entry(2.0, 1));
    assert_eq!(heap.len(), 3);
    let first = heap.pop().unwrap();
    let second = heap.pop().unwrap();
    assert_eq!((first.score, first.index), (1.0f32.to_bits(), 0));
    assert_eq!((second.score, second.index), (1.0f32.to_bits(), 0));
    assert_eq!(heap.len(), 1);
}

#[test]
fn the_heap_agrees_with_a_sort_on_many_entries() {
    let mut state: u32 = 12345;
    let mut heap = MinHeap::new();
    let mut expected: Vec<(i64, usize)> = Vec::new();
    for index in 0..500usize {
        state = state.wrapping_mul(1664525).wrapping_add(1013904223);
        let score = ((state >> 8) % 2001) as f32 / 100.0 - 10.0;
        heap.push(entry(score, index));
        expected.push((score_rank(score.to_bits()), index));
    }
    expected.sort_by(|a, b| b.0.cmp(&a.0).then(a.1.cmp(&b.1)));
    let sorted: Vec<(i64, usize)> = heap
        .into_sorted_vec()
        .iter()
        .map(|e| (score_rank(e.score), e.index))
        .collect();
    assert_eq!(sorted, expected);
}
