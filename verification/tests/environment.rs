use fsm_utils::environment::{
    cache_size_from, disable_cache_from, num_threads_from, parse_size, CACHE_SIZE_VARIABLE,
    DEFAULT_CACHE_SIZE, DISABLE_CACHE_VARIABLE,
};

#[test]
fn parse_size_reads_decimal_numbers() {
    assert_eq!(parse_size("0"), Some(0));
    assert_eq!(parse_size("7"), Some(7));
    assert_eq!(parse_size("100"), Some(100));
    assert_eq!(parse_size("+42"), Some(42));
    assert_eq!(parse_size("007"), Some(7));
    assert_eq!(parse_size(&usize::MAX.to_string()), Some(usize::MAX));
}

#[test]
fn parse_size_refuses_what_is_no_number() {
    assert_eq!(parse_size(""), None);
    assert_eq!(parse_size("+"), None);
    assert_eq!(parse_size("-1"), None);
    assert_eq!(parse_size("++1"), None);
    assert_eq!(parse_size("1+"), None);
    assert_eq!(parse_size(" 1"), None);
    assert_eq!(parse_size("1 "), None);
    assert_eq!(parse_size("12a"), None);
    assert_eq!(parse_size("1.5"), None);
    assert_eq!(parse_size("\u{663}"), None);
}

#[test]
fn parse_size_refuses_a_number_that_is_too_large() {
    let beyond = format!("{}0", usize::MAX);
    assert_eq!(parse_size(&beyond), None);
    let mut digits = usize::MAX.to_string().into_bytes();
    let last = digits.len() - 1;
    digits[last] += 1;
    assert_eq!(parse_size(std::str::from_utf8(&digits).unwrap()), None);
    assert_eq!(parse_size("99999999999999999999999999"), None);
}

#[test]
fn parse_size_agrees_with_the_standard_parser() {
    for text in ["", "0", "5", "+5", "-5", "05", "5x", "x", "18446744073709551615", "18446744073709551616"] {
        assert_eq!(parse_size(text), text.parse::<usize>().ok());
    }
}

#[test]
fn variables_have_their_names() {
    assert_eq!(CACHE_SIZE_VARIABLE, "FSM_CACHE_SIZE");
    assert_eq!(DISABLE_CACHE_VARIABLE, "DISABLE_CACHE");
}

#[test]
fn cache_size_comes_from_the_variable() {
    assert_eq!(cache_size_from(Some("25")), 25);
    assert_eq!(cache_size_from(Some("1")), 1);
    assert_eq!(cache_size_from(None), DEFAULT_CACHE_SIZE);
    assert_eq!(cache_size_from(Some("")), DEFAULT_CACHE_SIZE);
    assert_eq!(cache_size_from(Some("many")), DEFAULT_CACHE_SIZE);
    assert_eq!(cache_size_from(Some("0")), DEFAULT_CACHE_SIZE);
    assert_eq!(DEFAULT_CACHE_SIZE, 100);
}

#[test]
fn cache_is_switched_off_by_truthy_values() {
    for value in ["1", "true", "yes", "TRUE", "Yes", "yEs", "True"] {
        assert!(disable_cache_from(Some(value)));
    }
    for value in ["", "0", "false", "no", "2", "11", "tru", "truee", " yes", "on", "y"] {
        assert!(!disable_cache_from(Some(value)));
    }
    assert!(!disable_cache_from(None));
}

#[test]
fn threads_come_from_the_variable() {
    assert_eq!(num_threads_from(Some("3")), 3);
    assert_eq!(num_threads_from(Some("+16")), 16);
    assert_eq!(num_threads_from(Some("0")), 1);
    assert_eq!(num_threads_from(Some("three")), 1);
    assert_eq!(num_threads_from(None), 1);
}
