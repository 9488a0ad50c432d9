use workbook::fizzbuzz::{fizz_buzz, Fizzy, Matcher};

fn expect() -> Vec<&'static str> {
    vec![
        "1", "2", "fizz", "4", "buzz", "fizz", "7", "8", "fizz", "buzz", "11", "fizz",
        "13", "14", "fizzbuzz", "16",
    ]
}

#[test]
fn test_simple() {
    let got = fizz_buzz::<i32>().apply((1..=16).collect());
    assert_eq!(expect(), got);
}

#[test]
fn test_u8() {
    let got = fizz_buzz::<u8>().apply((1_u8..=16).collect());
    assert_eq!(expect(), got);
}

#[test]
fn test_u64() {
    let got = fizz_buzz::<u64>().apply((1_u64..=16).collect());
    assert_eq!(expect(), got);
}

#[test]
fn test_nonsequential() {
    let collatz_12 = &[12, 6, 3, 10, 5, 16, 8, 4, 2, 1];
    let expect = vec![
        "fizz", "fizz", "fizz", "buzz", "buzz", "16", "8", "4", "2", "1",
    ];
    let got = fizz_buzz::<i32>().apply(collatz_12.iter().cloned().collect());
    assert_eq!(expect, got);
}

#[test]
fn test_custom() {
    let expect = vec![
        "1", "2", "Fizz", "4", "Buzz", "Fizz", "Bam", "8", "Fizz", "Buzz", "11", "Fizz", "13",
        "Bam", "BuzzFizz", "16",
    ];
    let fizzer: Fizzy<i32> = Fizzy::new()
        .add_matcher(Matcher::new(5, "Buzz"))
        .add_matcher(Matcher::new(3, "Fizz"))
        .add_matcher(Matcher::new(7, "Bam"));
    let got = fizzer.apply((1..=16).collect());
    assert_eq!(expect, got);
}

#[test]
fn test_negative_values() {
    let got = fizz_buzz::<i32>().apply(vec![-15, -3, -5, -7, 0]);
    assert_eq!(vec!["fizzbuzz", "fizz", "buzz", "-7", "fizzbuzz"], got);
}

#[test]
fn test_negative_modulus() {
    let fizzer: Fizzy<i32> = Fizzy::new().add_matcher(Matcher::new(-3, "neg"));
    let got = fizzer.apply(vec![6, 7, -9]);
    assert_eq!(vec!["neg", "7", "neg"], got);
}

#[test]
fn test_empty_rules_prints_numbers() {
    let fizzer: Fizzy<u64> = Fizzy::new();
    let got = fizzer.apply(vec![0, 10, 18446744073709551615]);
    assert_eq!(vec!["0", "10", "18446744073709551615"], got);
}

#[test]
fn test_empty_substitute_word() {
    let fizzer: Fizzy<i32> = Fizzy::new()
        .add_matcher(Matcher::new(2, ""))
        .add_matcher(Matcher::new(3, "three"));
    let got = fizzer.apply(vec![2, 6, 5]);
    assert_eq!(vec!["", "three", "5"], got);
}
