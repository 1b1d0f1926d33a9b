use visu::Color;
use visu::Highlight;
use visu::IndexOutOfBoundsError;
use visu::Number;
use visu::NumberVec;

#[test]
fn numbervec_is_sorted() {
    let ascending = NumberVec::new((1..=100).collect());
    assert!(ascending.is_sorted());

    let descending = NumberVec::new((1..=100).rev().collect());
    assert!(!descending.is_sorted());
}

#[test]
fn is_sorted_accepts_equal_neighbours() {
    let flat = NumberVec::new(vec![2, 2, 2]);
    assert!(flat.is_sorted());
    let empty = NumberVec::new(Vec::new());
    assert!(empty.is_sorted());
}

#[test]
fn number_new_computes_color_and_clears_highlight() {
    let n = Number::new(7, 10);
    assert_eq!(n.value, 7);
    assert_eq!(n.color, Color { red: 205, green: 100, blue: 100 });
    assert_eq!(n.highlight, Highlight::Off);

    // The red channel clamps at zero once the multiplier reaches 51.
    let dark = Number::new(7, 51);
    assert_eq!(dark.color, Color { red: 0, green: 100, blue: 100 });
    let darker = Number::new(7, 200);
    assert_eq!(darker.color, Color { red: 0, green: 100, blue: 100 });
}

#[test]
fn number_recolor_leaves_value_and_highlight() {
    let mut n = Number::new(9, 0);
    assert_eq!(n.color.red, 255);
    n.color(20);
    assert_eq!(n.value, 9);
    assert_eq!(n.highlight, Highlight::Off);
    assert_eq!(n.color, Color { red: 155, green: 100, blue: 100 });
}

#[test]
fn number_equality_compares_value_only() {
    let a = Number::new(5, 0);
    let b = Number::new(5, 40);
    assert!(a == b);
    let c = Number::new(6, 0);
    assert!(a != c);
}

#[test]
fn number_ordering_compares_value_only() {
    let small = Number::new(1, 0);
    let large = Number::new(2, 50);
    assert!(small < large);
    assert!(large > small);
    assert!(small <= Number::new(1, 30));
    assert!(small >= Number::new(1, 30));
}

#[test]
fn numbervec_new_colors_by_position() {
    let nums = NumberVec::new(vec![10, 20, 30]);
    assert_eq!(nums.len(), 3);
    for (i, n) in nums.values.iter().enumerate() {
        assert_eq!(n.value, (10 * (i + 1)) as u8);
        assert_eq!(n.color.red, 255 - 5 * (i as u8));
        assert_eq!(n.highlight, Highlight::Off);
    }
}

#[test]
fn add_highlight_sets_one_element() {
    let mut nums = NumberVec::new(vec![1, 2, 3]);
    nums.add_highlight(1, Highlight::Primary).unwrap();
    nums.add_highlight(2, Highlight::Secondary).unwrap();
    assert_eq!(nums.values[0].highlight, Highlight::Off);
    assert_eq!(nums.values[1].highlight, Highlight::Primary);
    assert_eq!(nums.values[2].highlight, Highlight::Secondary);
}

#[test]
fn add_highlight_out_of_range_is_an_error() {
    let mut nums = NumberVec::new(vec![1, 2, 3]);
    let err = nums.add_highlight(3, Highlight::Primary).unwrap_err();
    assert_eq!(err, IndexOutOfBoundsError { requested: 3, maximum: 2 });
    // The sequence is untouched by a failed request.
    assert_eq!(nums.values[2].highlight, Highlight::Off);

    let mut empty = NumberVec::new(Vec::new());
    let err = empty.add_highlight(0, Highlight::Secondary).unwrap_err();
    assert_eq!(err, IndexOutOfBoundsError { requested: 0, maximum: 0 });
}

#[test]
fn remove_all_highlights_is_idempotent() {
    let mut nums = NumberVec::new(vec![4, 5, 6]);
    nums.add_highlight(0, Highlight::Primary).unwrap();
    nums.add_highlight(2, Highlight::Secondary).unwrap();

    nums.remove_all_highlights();
    let once: Vec<(u8, Highlight)> =
        nums.values.iter().map(|n| (n.value, n.highlight)).collect();
    nums.remove_all_highlights();
    let twice: Vec<(u8, Highlight)> =
        nums.values.iter().map(|n| (n.value, n.highlight)).collect();

    assert_eq!(once, twice);
    for (_, h) in twice {
        assert_eq!(h, Highlight::Off);
    }
}

#[test]
fn swap_moves_whole_records() {
    let mut nums = NumberVec::new(vec![1, 2, 3]);
    nums.add_highlight(0, Highlight::Primary).unwrap();
    let color0 = nums.values[0].color;
    let color2 = nums.values[2].color;
    nums.swap(0, 2);
    assert_eq!(nums.values[0].value, 3);
    assert_eq!(nums.values[2].value, 1);
    // Value, color and highlight travel together.
    assert_eq!(nums.values[0].color, color2);
    assert_eq!(nums.values[2].color, color0);
    assert_eq!(nums.values[0].highlight, Highlight::Off);
    assert_eq!(nums.values[2].highlight, Highlight::Primary);
}
