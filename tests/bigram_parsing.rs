use symcount::bigram::decimal_string;
use symcount::{Bigram, BigramError};

#[test]
fn from_too_short_string_fails() {
    let expected_result = Err(BigramError::InvalidLength(
        "Can not parse given string '' with length 0 into a bigram as it is too short.".into(),
    ));

    let maybe_bigram = Bigram::try_from("");

    assert_eq!(expected_result, maybe_bigram);

    let too_short = ";";
    let expected_result = Err(BigramError::InvalidLength(format!(
        "Can not parse given string '{too_short}' with length 1 into a bigram as it is too short."
    )));

    let maybe_bigram = Bigram::try_from(too_short);

    assert_eq!(expected_result, maybe_bigram);
}

#[test]
fn from_too_long_string_fails() {
    let too_long = ";/*";
    let expected_result = Err(BigramError::InvalidLength(format!(
        "Can not parse given string '{too_long}' with length 3 into a bigram as it is too long."
    )));

    let maybe_bigram = Bigram::try_from(too_long);

    assert_eq!(expected_result, maybe_bigram);
}

#[test]
fn two_byte_string_is_a_bigram() {
    assert!(Bigram::try_from(";/").is_ok());
}

#[test]
fn length_is_counted_in_bytes() {
    // one character of two bytes
    assert!(Bigram::try_from("\u{e9}").is_ok());
    let expected = Err(BigramError::InvalidLength(
        "Can not parse given string '\u{e9}\u{e9}' with length 4 into a bigram as it is too long."
            .to_string(),
    ));
    assert_eq!(expected, Bigram::try_from("\u{e9}\u{e9}"));
}

#[test]
fn long_input_reports_multi_digit_length() {
    let input = "0123456789ab";
    let expected = Err(BigramError::InvalidLength(
        "Can not parse given string '0123456789ab' with length 12 into a bigram as it is too long."
            .to_string(),
    ));
    assert_eq!(expected, Bigram::try_from(input));
}

#[test]
fn decimal_string_writes_digits() {
    assert_eq!("0", decimal_string(0));
    assert_eq!("7", decimal_string(7));
    assert_eq!("10", decimal_string(10));
    assert_eq!("1234567", decimal_string(1234567));
}
