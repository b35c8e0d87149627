use fizz::base::{Range, RangeIterator};
use fizz::math::IV;

#[test]
fn iterates_two_by_three_in_row_major_order() {
    let range = Range::new(IV::new([0, 0]), IV::new([2, 3]));
    let got = RangeIterator::new(range).collect();
    let want = vec![
        IV::new([0, 0]),
        IV::new([0, 1]),
        IV::new([0, 2]),
        IV::new([1, 0]),
        IV::new([1, 1]),
        IV::new([1, 2]),
    ];
    assert_eq!(got, want);
}

#[test]
fn next_walks_the_last_axis_fastest() {
    let range = Range::new(IV::new([-1, 4]), IV::new([1, 6]));
    let mut it = RangeIterator::new(range);
    assert_eq!(it.next(), Some(IV::new([-1, 4])));
    assert_eq!(it.next(), Some(IV::new([-1, 5])));
    assert_eq!(it.next(), Some(IV::new([0, 4])));
    assert_eq!(it.next(), Some(IV::new([0, 5])));
    assert_eq!(it.next(), None);
}

#[test]
fn stays_finished_after_the_last_point() {
    let range = Range::new(IV::new([0]), IV::new([1]));
    let mut it = RangeIterator::new(range);
    assert_eq!(it.next(), Some(IV::new([0])));
    assert_eq!(it.next(), None);
    assert_eq!(it.next(), None);
    assert_eq!(it.next(), None);
}

#[test]
fn three_dimensions() {
    let range = Range::new(IV::new([0, 0, 0]), IV::new([2, 1, 2]));
    let got = RangeIterator::new(range).collect();
    let want = vec![
        IV::new([0, 0, 0]),
        IV::new([0, 0, 1]),
        IV::new([1, 0, 0]),
        IV::new([1, 0, 1]),
    ];
    assert_eq!(got, want);
}

#[test]
fn empty_range_yields_nothing_on_the_first_call() {
    let mut it = RangeIterator::new(Range::new(IV::new([0, 0]), IV::new([0, 3])));
    assert_eq!(it.next(), None);
    let mut it = RangeIterator::new(Range::new(IV::new([0, 3]), IV::new([5, 3])));
    assert_eq!(it.next(), None);
    let mut it = RangeIterator::new(Range::new(IV::new([2, 2]), IV::new([2, 2])));
    assert_eq!(it.next(), None);
}

#[test]
fn inverted_range_yields_nothing() {
    let mut it = RangeIterator::new(Range::new(IV::new([3, 0]), IV::new([1, 4])));
    assert_eq!(it.next(), None);
    assert!(RangeIterator::new(Range::new(IV::new([0, 0]), IV::new([-1, -1]))).collect().is_empty());
}

#[test]
fn yields_the_product_of_the_extents_all_inside_and_distinct() {
    let range = Range::new(IV::new([-2, 3, -1]), IV::new([1, 7, 1]));
    let got = RangeIterator::new(range).collect();
    assert_eq!(got.len(), 3 * 4 * 2);
    for p in &got {
        assert!(range.contains_half_open(*p));
    }
    for i in 0..got.len() {
        for j in (i + 1)..got.len() {
            assert_ne!(got[i], got[j]);
            assert!(got[i].c < got[j].c);
        }
    }
}

#[test]
fn collect_hands_out_what_is_left() {
    let mut it = RangeIterator::new(Range::new(IV::new([0, 0]), IV::new([2, 2])));
    assert_eq!(it.next(), Some(IV::new([0, 0])));
    assert_eq!(it.next(), Some(IV::new([0, 1])));
    assert_eq!(it.collect(), vec![IV::new([1, 0]), IV::new([1, 1])]);
}

#[test]
fn a_box_without_axes_has_one_point() {
    let got = RangeIterator::new(Range::new(IV::<0>::zeros(), IV::<0>::zeros())).collect();
    assert_eq!(got, vec![IV::new([])]);
}
