use workbook::phone::{number_digits, phone_report, word_digits, PhoneEncoder};

#[test]
fn test_word_digits_table() {
    assert_eq!(vec![9, 0, 8, 8, 8], word_digits("hello"));
    assert_eq!(vec![9, 0, 8, 8, 8], word_digits("HeLLo"));
    assert_eq!(vec![5, 6, 2], word_digits("mir"));
    // quotes and digits carry no keypad digit
    assert_eq!(vec![8, 2], word_digits("o\"r2"));
    assert_eq!(Vec::<u8>::new(), word_digits("128-"));
}

#[test]
fn test_number_digits() {
    assert_eq!(vec![1, 1, 2, 3, 5, 7, 9], number_digits("112-35/79"));
    assert_eq!(Vec::<u8>::new(), number_digits("--/"));
}

#[test]
fn test_encoder_files_and_finds_words() {
    let mut encoder = PhoneEncoder::default();
    encoder.put_word("an".to_string());
    encoder.put_word("Tor".to_string());
    encoder.put_word("at".to_string());

    // "an" -> 51, "at" -> 54, "Tor" -> 482
    let hits = encoder.words_from(&[5, 1, 0], 0);
    let pairs: Vec<(String, usize)> = hits
        .into_iter()
        .map(|w| (w.word, w.canonized_length))
        .collect();
    assert_eq!(vec![("an".to_string(), 2)], pairs);

    let misses = encoder.words_from(&[9, 9], 0);
    assert!(misses.is_empty());

    let tor = encoder.words_from(&[4, 8, 2, 5], 0);
    let pairs: Vec<(String, usize)> = tor
        .into_iter()
        .map(|w| (w.word, w.canonized_length))
        .collect();
    assert_eq!(vec![("Tor".to_string(), 3)], pairs);
}

#[test]
fn test_encoder_offset_lookup() {
    let mut encoder = PhoneEncoder::default();
    encoder.put_word("an".to_string());
    // lookup starting past the first digit
    let hits = encoder.words_from(&[7, 5, 1], 1);
    let pairs: Vec<(String, usize)> = hits
        .into_iter()
        .map(|w| (w.word, w.canonized_length))
        .collect();
    assert_eq!(vec![("an".to_string(), 2)], pairs);
}

#[test]
fn test_encoder_equal_digit_words() {
    let mut encoder = PhoneEncoder::default();
    // "me" and "Ae" share the digit sequence 50
    encoder.put_word("me".to_string());
    encoder.put_word("Ae".to_string());
    let hits = encoder.words_from(&[5, 0], 0);
    let pairs: Vec<String> = hits.into_iter().map(|w| w.word).collect();
    assert_eq!(vec!["me".to_string(), "Ae".to_string()], pairs);
}

#[test]
fn test_phone_report_single_word() {
    let mut encoder = PhoneEncoder::default();
    encoder.put_word("an".to_string());
    assert_eq!(vec!["51: an".to_string()], phone_report(&encoder, "51"));
}

#[test]
fn test_phone_report_word_then_digit() {
    let mut encoder = PhoneEncoder::default();
    encoder.put_word("an".to_string());
    // "an" covers 51; the trailing 1 has no word and stands for itself
    assert_eq!(vec!["511: an 1".to_string()], phone_report(&encoder, "511"));
}

#[test]
fn test_phone_report_two_words_with_punctuation() {
    let mut encoder = PhoneEncoder::default();
    encoder.put_word("mir".to_string());
    encoder.put_word("Tor".to_string());
    assert_eq!(
        vec!["5624-82: mir Tor".to_string()],
        phone_report(&encoder, "5624-82")
    );
}

#[test]
fn test_phone_report_no_second_bare_digit() {
    let encoder = PhoneEncoder::default();
    // a lone digit may stand for itself, but never two in a row
    assert_eq!(vec!["9: 9".to_string()], phone_report(&encoder, "9"));
    assert_eq!(Vec::<String>::new(), phone_report(&encoder, "99"));
}

#[test]
fn test_phone_report_branches() {
    let mut encoder = PhoneEncoder::default();
    // "me" and "Ae" both cover 50
    encoder.put_word("me".to_string());
    encoder.put_word("Ae".to_string());
    assert_eq!(
        vec!["50: me".to_string(), "50: Ae".to_string()],
        phone_report(&encoder, "50")
    );
}
