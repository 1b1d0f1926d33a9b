use rand::seq::SliceRandom;
use rand::thread_rng;

use visu::bubblesort;
use visu::qs_partition;
use visu::quicksort;
use visu::shuffle;
use visu::Highlight;
use visu::NumberVec;

fn values_of(nums: &NumberVec) -> Vec<u8> {
    nums.values.iter().map(|n| n.value).collect()
}

#[test]
fn quicksort_shuffled_input() {
    let mut numbers = NumberVec::new((1..=100).collect());
    let mut rng = thread_rng();
    numbers.values.shuffle(&mut rng);

    let length = numbers.values.len();
    quicksort(&mut numbers, 0, length - 1);
    assert!(numbers.is_sorted());
}

#[test]
fn quicksort_sorted_input() {
    let mut numbers = NumberVec::new((1..=100).collect());

    let length = numbers.values.len();
    quicksort(&mut numbers, 0, length - 1);
    assert!(numbers.is_sorted());
}

#[test]
fn quicksort_sorted_reversed_input() {
    let mut numbers = NumberVec::new((1..=100).rev().collect());

    let length = numbers.values.len();
    quicksort(&mut numbers, 0, length - 1);
    println!(
        "{:?}",
        numbers.values.iter().map(|n| n.value).collect::<Vec<u8>>()
    );
    assert!(numbers.is_sorted());
}

#[test]
fn quicksort_single_element_is_untouched() {
    let mut numbers = NumberVec::new(vec![42]);
    quicksort(&mut numbers, 0, 0);
    assert_eq!(values_of(&numbers), vec![42]);
    assert!(numbers.is_sorted());
}

#[test]
fn quicksort_preserves_value_multiset() {
    let mut numbers = NumberVec::new(vec![9, 1, 9, 3, 3, 3, 0, 255]);
    let mut expected = values_of(&numbers);
    expected.sort();
    let length = numbers.values.len();
    quicksort(&mut numbers, 0, length - 1);
    assert_eq!(values_of(&numbers), expected);
}

#[test]
fn partition_places_pivot_between_bounds() {
    // Pivot 2 at index 2: the scan leaves 3 alone, advances the boundary
    // over 1, and the final swap puts the pivot at index 1.
    let mut numbers = NumberVec::new(vec![3, 1, 2]);
    let p = qs_partition(&mut numbers, 0, 2);
    assert_eq!(p, 1);
    assert_eq!(values_of(&numbers), vec![1, 2, 3]);
}

#[test]
fn quicksort_three_elements() {
    // The pivot index 1 returned above makes both recursive calls no-ops.
    let mut numbers = NumberVec::new(vec![3, 1, 2]);
    quicksort(&mut numbers, 0, 2);
    assert_eq!(values_of(&numbers), vec![1, 2, 3]);
}

#[test]
fn bubblesort_sorts_and_clears_highlights() {
    let mut numbers = NumberVec::new(vec![5, 3, 4, 1, 2]);
    bubblesort(&mut numbers);
    assert_eq!(values_of(&numbers), vec![1, 2, 3, 4, 5]);
    for n in numbers.values.iter() {
        assert_eq!(n.highlight, Highlight::Off);
    }
}

#[test]
fn bubblesort_empty_and_single() {
    let mut empty = NumberVec::new(Vec::new());
    bubblesort(&mut empty);
    assert_eq!(empty.len(), 0);

    let mut single = NumberVec::new(vec![7]);
    bubblesort(&mut single);
    assert_eq!(values_of(&single), vec![7]);
}

#[test]
fn shuffle_preserves_values_and_length() {
    let mut numbers = NumberVec::new((1..=50).collect());
    shuffle(&mut numbers);
    assert_eq!(numbers.len(), 50);
    let mut values = values_of(&numbers);
    values.sort();
    assert_eq!(values, (1..=50).collect::<Vec<u8>>());
}

#[test]
fn shuffle_clears_highlights_and_recolors() {
    let mut numbers = NumberVec::new((0..20).collect());
    numbers.add_highlight(3, Highlight::Primary).unwrap();
    shuffle(&mut numbers);
    for (i, n) in numbers.values.iter().enumerate() {
        assert_eq!(n.highlight, Highlight::Off);
        let expected_red = 255 - 5 * (i as i16);
        let expected_red = if expected_red < 0 { 0 } else { expected_red as u8 };
        assert_eq!(n.color.red, expected_red);
        assert_eq!(n.color.green, 100);
        assert_eq!(n.color.blue, 100);
    }
}

#[test]
fn shuffle_produces_varied_permutations() {
    // Statistical: over many invocations no single permutation dominates.
    let mut seen: Vec<Vec<u8>> = Vec::new();
    let mut counts: Vec<usize> = Vec::new();
    for _ in 0..200 {
        let mut numbers = NumberVec::new(vec![0, 1, 2, 3, 4]);
        shuffle(&mut numbers);
        let values = values_of(&numbers);
        match seen.iter().position(|s| *s == values) {
            Some(idx) => counts[idx] += 1,
            None => {
                seen.push(values);
                counts.push(1);
            }
        }
    }
    assert!(seen.len() > 1, "every shuffle produced the same permutation");
    let most_frequent = counts.iter().copied().max().unwrap();
    assert!(
        most_frequent < 100,
        "one permutation dominated: {most_frequent} of 200"
    );
}
