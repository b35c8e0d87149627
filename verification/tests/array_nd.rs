use fizz::base::array_nd::calculate_strides;
use fizz::base::{ArrayNd, ArrayNdCreationError, Range, RangeIterator};
use fizz::math::IV;

fn small() -> ArrayNd<i64, 2> {
    ArrayNd::zeros(Range::new(IV::new([-1, -2]), IV::new([2, 2]))).ok().unwrap()
}

#[test]
fn strides_are_products_of_the_later_extents() {
    assert_eq!(calculate_strides(IV::new([2, 3, 4])), IV::new([12, 4, 1]));
    assert_eq!(calculate_strides(IV::new([7, 5])), IV::new([5, 1]));
    assert_eq!(calculate_strides(IV::new([9])), IV::new([1]));
    assert_eq!(calculate_strides(IV::new([0, 3, 0])), IV::new([0, 0, 1]));
}

#[test]
fn zeros_reads_zero_everywhere() {
    let arr = small();
    assert_eq!(arr.len(), 12);
    for idx in RangeIterator::new(arr.domain()).collect() {
        assert_eq!(*arr.index(idx), 0);
        assert_eq!(arr.get(idx), Some(&0));
    }
}

#[test]
fn write_then_read_gives_the_written_value() {
    let mut arr = small();
    arr.set(IV::new([-1, -2]), 5);
    arr.set(IV::new([1, 1]), -8);
    arr.set(IV::new([0, -1]), 3);
    assert_eq!(*arr.index(IV::new([-1, -2])), 5);
    assert_eq!(*arr.index(IV::new([1, 1])), -8);
    assert_eq!(*arr.index(IV::new([0, -1])), 3);
    assert_eq!(*arr.index(IV::new([0, 0])), 0);
    assert_eq!(*arr.index(IV::new([-1, -1])), 0);
}

#[test]
fn every_index_has_its_own_element() {
    let mut arr = small();
    let points = RangeIterator::new(arr.domain()).collect();
    let mut k: i64 = 100;
    for idx in &points {
        arr.set(*idx, k);
        k += 1;
    }
    let mut k: i64 = 100;
    for idx in &points {
        assert_eq!(*arr.index(*idx), k);
        k += 1;
    }
}

#[test]
fn negative_and_shifted_domains_behave_alike() {
    let mut a: ArrayNd<i32, 3> =
        ArrayNd::zeros(Range::new(IV::new([-3, -3, -3]), IV::new([-1, 0, -2]))).ok().unwrap();
    let mut b: ArrayNd<i32, 3> =
        ArrayNd::zeros(Range::new(IV::new([10, 10, 10]), IV::new([12, 13, 11]))).ok().unwrap();
    assert_eq!(a.len(), 6);
    assert_eq!(b.len(), 6);
    a.set(IV::new([-2, -1, -3]), 9);
    b.set(IV::new([11, 12, 10]), 9);
    for off in RangeIterator::new(Range::new(IV::new([0, 0, 0]), IV::new([2, 3, 1]))).collect() {
        let x = *a.index(off.add(&IV::new([-3, -3, -3])));
        let y = *b.index(off.add(&IV::new([10, 10, 10])));
        assert_eq!(x, y);
        assert_eq!(x, if off == IV::new([1, 2, 0]) { 9 } else { 0 });
    }
}

#[test]
fn get_is_none_outside_the_domain() {
    let arr = small();
    assert_eq!(arr.get(IV::new([2, 0])), None);
    assert_eq!(arr.get(IV::new([0, 2])), None);
    assert_eq!(arr.get(IV::new([-2, 0])), None);
    assert_eq!(arr.get(IV::new([0, -3])), None);
    assert_eq!(arr.get(IV::new([1, 1])), Some(&0));
}

#[test]
fn index_mut_writes_one_element() {
    let mut arr = small();
    *arr.index_mut(IV::new([0, 0])) += 4;
    *arr.index_mut(IV::new([0, 0])) += 4;
    assert_eq!(*arr.index(IV::new([0, 0])), 8);
    assert_eq!(*arr.index(IV::new([0, 1])), 0);
    assert_eq!(*arr.index(IV::new([1, 0])), 0);
}

#[test]
fn fill_resets_every_element() {
    let mut arr = small();
    arr.set(IV::new([1, 1]), 3);
    arr.fill(-1);
    for idx in RangeIterator::new(arr.domain()).collect() {
        assert_eq!(*arr.index(idx), -1);
    }
}

#[test]
fn zeros_like_copies_the_shape_and_not_the_data() {
    let mut arr = small();
    arr.fill(6);
    let other: ArrayNd<u8, 2> = ArrayNd::zeros_like(&arr);
    assert_eq!(other.domain(), arr.domain());
    assert_eq!(other.len(), 12);
    for idx in RangeIterator::new(other.domain()).collect() {
        assert_eq!(*other.index(idx), 0);
    }
}

#[test]
fn domain_with_negative_extent_is_invalid() {
    let domain = Range::new(IV::new([0, 0]), IV::new([-1, 4]));
    let r: Result<ArrayNd<i32, 2>, _> = ArrayNd::zeros(domain);
    assert_eq!(r.err(), Some(ArrayNdCreationError::InvalidDomain(domain)));
}

#[test]
fn domain_with_too_many_elements_is_invalid() {
    let domain = Range::new(IV::new([0, 0]), IV::new([isize::MAX, 2]));
    let r: Result<ArrayNd<u8, 2>, _> = ArrayNd::zeros(domain);
    assert_eq!(r.err(), Some(ArrayNdCreationError::InvalidDomain(domain)));
    let domain = Range::new(IV::new([isize::MIN, 0]), IV::new([isize::MAX, 1]));
    let r: Result<ArrayNd<u8, 2>, _> = ArrayNd::zeros(domain);
    assert_eq!(r.err(), Some(ArrayNdCreationError::InvalidDomain(domain)));
}

#[test]
fn domain_whose_strides_overflow_is_invalid() {
    let big = 1isize << (isize::BITS / 2);
    let domain = Range::new(IV::new([0, 0, 0]), IV::new([0, big, big]));
    let r: Result<ArrayNd<u8, 3>, _> = ArrayNd::zeros(domain);
    assert_eq!(r.err(), Some(ArrayNdCreationError::InvalidDomain(domain)));
}

#[test]
fn empty_domain_gives_an_empty_array() {
    let domain = Range::new(IV::new([0, 0]), IV::new([0, 5]));
    let arr: ArrayNd<i32, 2> = ArrayNd::zeros(domain).ok().unwrap();
    assert_eq!(arr.len(), 0);
    assert_eq!(arr.get(IV::new([0, 0])), None);
}

#[test]
fn two_negative_extents_give_elements_that_no_index_reaches() {
    let domain = Range::new(IV::new([0, 0]), IV::new([-2, -3]));
    let arr: ArrayNd<i32, 2> = ArrayNd::zeros(domain).ok().unwrap();
    assert_eq!(arr.len(), 6);
    assert_eq!(arr.get(IV::new([0, 0])), None);
    assert_eq!(arr.get(IV::new([-1, -1])), None);
}
