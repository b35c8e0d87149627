use fizz::base::{IntoVec, VecExtPartialOrd};
use fizz::math::{Zero, IV};

#[test]
fn zeros_and_from_element() {
    assert_eq!(IV::<3>::zeros(), IV::new([0, 0, 0]));
    assert_eq!(IV::<2>::from_element(7), IV::new([7, 7]));
    assert_eq!(IV::<0>::zeros(), IV::new([]));
}

#[test]
fn ith_is_zero_but_on_its_axis() {
    assert_eq!(IV::<3>::ith(1, -4), IV::new([0, -4, 0]));
    assert_eq!(IV::<3>::ith(2, 1), IV::new([0, 0, 1]));
}

#[test]
fn get_and_set_components() {
    let mut v = IV::new([1, 2, 3]);
    assert_eq!(v.get(0), 1);
    assert_eq!(v.get(2), 3);
    v.set(1, -9);
    assert_eq!(v, IV::new([1, -9, 3]));
}

#[test]
fn add_and_sub_are_componentwise() {
    let a = IV::new([1, -2, 30]);
    let b = IV::new([10, 20, -30]);
    assert_eq!(a.add(&b), IV::new([11, 18, 0]));
    assert_eq!(a.sub(&b), IV::new([-9, -22, 60]));
}

#[test]
fn same_compares_all_components() {
    assert!(IV::new([1, 2]).same(&IV::new([1, 2])));
    assert!(!IV::new([1, 2]).same(&IV::new([1, 3])));
    assert!(!IV::new([0, 2]).same(&IV::new([1, 2])));
}

#[test]
fn all_lt_needs_every_component() {
    let a = IV::new([0, 0]);
    assert!(a.all_lt(&IV::new([1, 1])));
    assert!(!a.all_lt(&IV::new([1, 0])));
    assert!(!a.all_lt(&IV::new([0, 1])));
    assert!(!a.all_lt(&IV::new([-1, 5])));
}

#[test]
fn all_gt_needs_every_component() {
    let a = IV::new([3, 3]);
    assert!(a.all_gt(&IV::new([2, 2])));
    assert!(!a.all_gt(&IV::new([3, 2])));
    assert!(!a.all_gt(&IV::new([2, 4])));
}

#[test]
fn all_le_and_all_ge_admit_equality() {
    let a = IV::new([1, 2, 3]);
    assert!(a.all_le(&a));
    assert!(a.all_ge(&a));
    assert!(a.all_le(&IV::new([1, 2, 4])));
    assert!(!a.all_le(&IV::new([1, 2, 2])));
    assert!(a.all_ge(&IV::new([0, 2, 3])));
    assert!(!a.all_ge(&IV::new([2, 2, 3])));
}

#[test]
fn comparisons_hold_vacuously_without_axes() {
    let e = IV::<0>::zeros();
    assert!(e.all_lt(&e));
    assert!(e.all_le(&e));
}

#[test]
fn component_max_and_min() {
    let a = IV::new([1, 9, -3]);
    let b = IV::new([4, 2, -3]);
    assert_eq!(a.component_max(&b), IV::new([4, 9, -3]));
    assert_eq!(a.component_min(&b), IV::new([1, 2, -3]));
    assert_eq!(b.component_max(&a), IV::new([4, 9, -3]));
    assert_eq!(b.component_min(&a), IV::new([1, 2, -3]));
}

#[test]
fn tuples_turn_into_vectors() {
    assert_eq!((3isize, -4isize).into_vec(), IV::new([3, -4]));
    assert_eq!((1isize, 2isize, 3isize).into_vec(), IV::new([1, 2, 3]));
}

#[test]
fn integer_zeros() {
    assert_eq!(<isize as Zero>::zero(), 0);
    assert_eq!(<usize as Zero>::zero(), 0);
    assert_eq!(<i32 as Zero>::zero(), 0);
    assert_eq!(<i64 as Zero>::zero(), 0);
    assert_eq!(<u8 as Zero>::zero(), 0);
    assert_eq!(<u32 as Zero>::zero(), 0);
    assert_eq!(<u64 as Zero>::zero(), 0);
}
