use workbook::sublist::compare;
use workbook::sublist::Comparison::{Equal, Other, Sublist, Superlist};

#[test]
fn test_equal() {
    assert_eq!(Equal, compare::<i32>(&[], &[]));
    assert_eq!(Equal, compare(&[1], &[1]));
    assert_eq!(Equal, compare(&[1, 2, 3], &[1, 2, 3]));
}

#[test]
fn test_sublist() {
    assert_eq!(Sublist, compare(&[], &[1]));
    assert_eq!(Sublist, compare(&[], &[1, 2, 3]));
    assert_eq!(Sublist, compare(&[1], &[1, 2, 3]));
    assert_eq!(Sublist, compare(&[2], &[1, 2, 3]));
    assert_eq!(Sublist, compare(&[3], &[1, 2, 3]));
    assert_eq!(Sublist, compare(&[1, 2], &[1, 2, 3, 4, 5]));
    assert_eq!(Sublist, compare(&[2, 3, 4], &[1, 2, 3, 4, 5]));
    assert_eq!(Sublist, compare(&[4, 5], &[1, 2, 3, 4, 5]));
    assert_eq!(Sublist, compare(&[1, 2, 3], &[1, 2, 2, 1, 2, 3, 1, 2, 4]));
    assert_eq!(Sublist, compare(&[1, 1, 1], &[2, 1, 1, 1, 3]));
}

#[test]
fn test_superlist() {
    assert_eq!(Superlist, compare(&[1], &[]));
    assert_eq!(Superlist, compare(&[1, 2, 3], &[]));
    assert_eq!(Superlist, compare(&[1, 2, 3], &[1]));
    assert_eq!(Superlist, compare(&[1, 2, 3], &[2]));
    assert_eq!(Superlist, compare(&[1, 2, 3], &[3]));
    assert_eq!(Superlist, compare(&[1, 2, 3, 4, 5], &[1, 2]));
    assert_eq!(Superlist, compare(&[1, 2, 3, 4, 5], &[2, 3, 4]));
    assert_eq!(Superlist, compare(&[1, 2, 3, 4, 5], &[4, 5]));
    assert_eq!(Superlist, compare(&[1, 2, 2, 1, 2, 3, 1, 2, 4], &[1, 2, 3]));
    assert_eq!(Superlist, compare(&[2, 1, 1, 1, 3], &[1, 1, 1]));
}

#[test]
fn test_other() {
    assert_eq!(Other, compare(&[1], &[2]));
    assert_eq!(Other, compare(&[1, 2, 4], &[1, 4]));
    assert_eq!(Other, compare(&[1, 4], &[1, 2, 4]));
    assert_eq!(Other, compare(&[1, 2, 3], &[3, 2, 1]));
}

#[test]
fn test_is_sublist_direct() {
    assert!(workbook::sublist::is_sublist::<u8>(&[], &[]));
    assert!(workbook::sublist::is_sublist(&[5u8, 6], &[4, 5, 6, 7]));
    assert!(!workbook::sublist::is_sublist(&[6u8, 5], &[4, 5, 6, 7]));
}
