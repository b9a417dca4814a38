use cpm_rs::decimal::u64_to_dec_string;
use cpm_rs::input_parser::find_pattern_error;

#[test]
fn decimal_rendering() {
    assert_eq!(u64_to_dec_string(0), "0");
    assert_eq!(u64_to_dec_string(7), "7");
    assert_eq!(u64_to_dec_string(10), "10");
    assert_eq!(u64_to_dec_string(1234567890), "1234567890");
    assert_eq!(u64_to_dec_string(u64::MAX), "18446744073709551615");
}

#[test]
fn error_position_on_first_line() {
    let contents = "alpha(3)\nbroken line here\n".to_string();
    assert_eq!(find_pattern_error("alpha", contents), "line 1, column 1\n");
}

#[test]
fn error_position_on_later_line() {
    let contents = "alpha(3)\nbroken line here\n".to_string();
    assert_eq!(
        find_pattern_error("broken line here", contents),
        "line 2, column 1\n"
    );
}

#[test]
fn error_position_mid_line() {
    let contents = "ab\nxy z\n".to_string();
    assert_eq!(find_pattern_error("z", contents), "line 2, column 4\n");
}

#[test]
fn leading_blank_error_lines_are_skipped() {
    let contents = "first\nsecond\n".to_string();
    assert_eq!(
        find_pattern_error("\n\nsecond", contents),
        "line 2, column 1\n"
    );
}

#[test]
fn all_blank_error_text_is_reported() {
    let contents = "anything".to_string();
    assert_eq!(
        find_pattern_error("\n\n", contents),
        "failed to parse errorous lines."
    );
    assert_eq!(
        find_pattern_error("", "anything".to_string()),
        "failed to parse errorous lines."
    );
}
