use visu::BubbleRun;
use visu::Highlight;
use visu::NumberVec;
use visu::QuickRun;

fn values_of(nums: &NumberVec) -> Vec<u8> {
    nums.values.iter().map(|n| n.value).collect()
}

fn marked_positions(nums: &NumberVec) -> Vec<usize> {
    nums.values
        .iter()
        .enumerate()
        .filter(|(_, n)| n.highlight != Highlight::Off)
        .map(|(i, _)| i)
        .collect()
}

#[test]
fn bubble_run_highlights_adjacent_pairs_per_pass() {
    // First pass over five elements: the compared pairs are
    // (0,1), (1,2), (2,3), (3,4), and each step marks exactly that pair.
    let mut nums = NumberVec::new(vec![5, 3, 4, 1, 2]);
    let mut run = BubbleRun::new(&nums);
    for i in 0..4 {
        assert!(!run.is_done());
        run.step(&mut nums);
        assert_eq!(marked_positions(&nums), vec![i, i + 1]);
    }
}

#[test]
fn bubble_run_completes_sorted_and_cleared() {
    let mut nums = NumberVec::new(vec![5, 3, 4, 1, 2]);
    let mut run = BubbleRun::new(&nums);
    let mut steps = 0usize;
    while !run.is_done() {
        run.step(&mut nums);
        steps += 1;
        assert!(steps <= 100, "bubble run did not finish");
    }
    // n-1 + n-2 + ... + 1 comparisons for n = 5.
    assert_eq!(steps, 10);
    assert_eq!(values_of(&nums), vec![1, 2, 3, 4, 5]);
    assert!(marked_positions(&nums).is_empty());
}

#[test]
fn bubble_run_trivial_sequences_are_done_at_once() {
    let empty = NumberVec::new(Vec::new());
    assert!(BubbleRun::new(&empty).is_done());
    let single = NumberVec::new(vec![3]);
    assert!(BubbleRun::new(&single).is_done());
    let pair = NumberVec::new(vec![1, 2]);
    assert!(!BubbleRun::new(&pair).is_done());
}

#[test]
fn quick_run_completes_sorted_and_cleared() {
    let mut nums = NumberVec::new(vec![9, 1, 8, 2, 7, 3, 6, 4, 5, 0, 9, 1]);
    let mut run = QuickRun::new(&nums);
    let mut steps = 0usize;
    while !run.is_done() {
        run.step(&mut nums);
        steps += 1;
        assert!(steps <= 100_000, "quicksort run did not finish");
    }
    assert!(nums.is_sorted());
    assert_eq!(
        values_of(&nums),
        vec![0, 1, 1, 2, 3, 4, 5, 6, 7, 8, 9, 9]
    );
    assert!(marked_positions(&nums).is_empty());
}

#[test]
fn quick_run_marks_at_most_two_positions() {
    let mut nums = NumberVec::new(vec![4, 3, 2, 1]);
    let mut run = QuickRun::new(&nums);
    let mut steps = 0usize;
    while !run.is_done() {
        run.step(&mut nums);
        steps += 1;
        assert!(marked_positions(&nums).len() <= 2);
        assert!(steps <= 10_000, "quicksort run did not finish");
    }
    assert!(nums.is_sorted());
}

#[test]
fn quick_run_empty_sequence_is_done_at_once() {
    let empty = NumberVec::new(Vec::new());
    assert!(QuickRun::new(&empty).is_done());
    let single = NumberVec::new(vec![5]);
    // A single element gives one trivial pending segment, then the run ends.
    let mut nums = single;
    let mut run = QuickRun::new(&nums);
    assert!(!run.is_done());
    let mut steps = 0usize;
    while !run.is_done() {
        run.step(&mut nums);
        steps += 1;
        assert!(steps <= 10, "trivial run did not finish");
    }
    assert_eq!(values_of(&nums), vec![5]);
}
