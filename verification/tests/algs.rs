use workbook::algs::{binary_search, max, nth_prime, scramble};

#[test]
fn test_max_of_array() {
    let unordered: [i64; 10] = [55, 0, 15, 18, 1, 74, -5, 1312, 21, 9];
    assert_eq!(1312, *max(&unordered));
    let all_equal: [i64; 10] = [7; 10];
    assert_eq!(7, *max(&all_equal));
}

#[test]
fn test_binary_search_found() {
    let ordered: [i64; 10] = [-5, 0, 1, 9, 15, 18, 21, 55, 74, 1312];
    assert_eq!(Ok(7), binary_search(&ordered, &55));
    assert_eq!(Ok(0), binary_search(&ordered, &-5));
    assert_eq!(Ok(9), binary_search(&ordered, &1312));
}

#[test]
fn test_binary_search_absent() {
    let ordered: [i64; 10] = [-5, 0, 1, 9, 15, 18, 21, 55, 74, 1312];
    assert_eq!(Err(8), binary_search(&ordered, &56));
    assert_eq!(Err(0), binary_search(&ordered, &-100));
}

#[test]
fn test_binary_search_first_occurrence() {
    let ordered: [i64; 10] = [1, 2, 2, 2, 3, 4, 5, 6, 7, 8];
    assert_eq!(Ok(1), binary_search(&ordered, &2));
}

#[test]
fn test_nth_prime_small() {
    let firsts = [2, 3, 5, 7, 11, 13, 17, 19, 23, 29];
    for (i, p) in firsts.iter().enumerate() {
        assert_eq!(*p, nth_prime(i + 1));
    }
    assert_eq!(541, nth_prime(100));
}

#[test]
fn test_scramble() {
    assert_eq!(0, scramble(0));
    assert_eq!(35651601, scramble(1));
    assert_eq!(4042783900227546, scramble(123456789));
}
