use mastergen::args::validate_args;
use mastergen::depth::validate_depth;

#[test]
fn integer_token_parses_exactly() {
    assert_eq!(validate_depth("5"), 5);
    assert_eq!(validate_depth("1"), 1);
    assert_eq!(validate_depth("007"), 7);
    assert_eq!(validate_depth("+5"), 5);
}

#[test]
fn fractional_token_rounds_half_away_from_zero() {
    assert_eq!(validate_depth("5.7"), 6);
    assert_eq!(validate_depth("5.5"), 6);
    assert_eq!(validate_depth("5.4999"), 5);
    assert_eq!(validate_depth("5."), 5);
    assert_eq!(validate_depth(".5"), 1);
    assert_eq!(validate_depth("-.5"), -1);
    assert_eq!(validate_depth("-2.5"), -3);
    assert_eq!(validate_depth("2.0"), 2);
}

#[test]
fn exponent_token_shifts_the_point() {
    assert_eq!(validate_depth("1e3"), 1000);
    assert_eq!(validate_depth("1E3"), 1000);
    assert_eq!(validate_depth("1.5e2"), 150);
    assert_eq!(validate_depth("1.e5"), 100000);
    assert_eq!(validate_depth(".5e1"), 5);
    assert_eq!(validate_depth("15e-1"), 2);
    assert_eq!(validate_depth("45e-2"), 0);
    assert_eq!(validate_depth("5e-1"), 1);
    assert_eq!(validate_depth("2.5e0"), 3);
    assert_eq!(validate_depth("1e-5"), 0);
    assert_eq!(validate_depth("-1e3"), -1000);
    assert_eq!(validate_depth("1e+2"), 100);
    assert_eq!(validate_depth("9e99"), 2147483647);
    assert_eq!(validate_depth("-9e99"), -2147483648);
    assert_eq!(validate_depth("0e999999999999999999999999999999999999"), 0);
    assert_eq!(validate_depth("1e999999999999999999999999999999999999"), 2147483647);
    assert_eq!(validate_depth("-1e999999999999999999999999999999999999"), -2147483648);
    assert_eq!(validate_depth("1e-999999999999999999999999999999999999"), 0);
}

#[test]
fn word_tokens_follow_the_float_parser() {
    assert_eq!(validate_depth("inf"), 2147483647);
    assert_eq!(validate_depth("-inf"), -2147483648);
    assert_eq!(validate_depth("+inf"), 2147483647);
    assert_eq!(validate_depth("Inf"), 2147483647);
    assert_eq!(validate_depth("infinity"), 2147483647);
    assert_eq!(validate_depth("INFINITY"), 2147483647);
    assert_eq!(validate_depth("-Infinity"), -2147483648);
    assert_eq!(validate_depth("nan"), 0);
    assert_eq!(validate_depth("NaN"), 0);
    assert_eq!(validate_depth("-nan"), 0);
}

#[test]
fn unparseable_token_yields_invalid_sentinel() {
    assert_eq!(validate_depth("abc"), 0);
    assert_eq!(validate_depth(""), 0);
    assert_eq!(validate_depth("."), 0);
    assert_eq!(validate_depth("-"), 0);
    assert_eq!(validate_depth("5x"), 0);
    assert_eq!(validate_depth("5.7x"), 0);
    assert_eq!(validate_depth(" 5"), 0);
    assert_eq!(validate_depth("5 "), 0);
    assert_eq!(validate_depth("1e"), 0);
    assert_eq!(validate_depth("1e+"), 0);
    assert_eq!(validate_depth("e5"), 0);
    assert_eq!(validate_depth(".e5"), 0);
    assert_eq!(validate_depth("1e5x"), 0);
    assert_eq!(validate_depth("1e5.5"), 0);
    assert_eq!(validate_depth("infin"), 0);
}

#[test]
fn negative_token_parses_but_stays_non_positive() {
    assert_eq!(validate_depth("-3"), -3);
    assert_eq!(validate_depth("-1"), -1);
    assert_eq!(validate_depth("-0"), 0);
    assert_eq!(validate_depth("0"), 0);
}

#[test]
fn out_of_range_token_saturates() {
    assert_eq!(validate_depth("2147483647"), 2147483647);
    assert_eq!(validate_depth("2147483648"), 2147483647);
    assert_eq!(validate_depth("99999999999999999999"), 2147483647);
    assert_eq!(validate_depth("-2147483648"), -2147483648);
    assert_eq!(validate_depth("-2147483649"), -2147483648);
    assert_eq!(validate_depth("2147483646.7"), 2147483647);
}

#[test]
fn args_without_depth_token_are_rejected() {
    let args = vec![String::from("mastergen"), String::from("seed")];
    let (msg, depth, ok) = validate_args(&args);
    assert_eq!(msg, "No depth has been supplied! Program will terminate here!");
    assert_eq!(depth, 0);
    assert!(!ok);
}

#[test]
fn args_with_valid_depth_pass_through() {
    let args = vec![String::from("mastergen"), String::from("seed"), String::from("3")];
    let (seed, depth, ok) = validate_args(&args);
    assert_eq!(seed, "seed");
    assert_eq!(depth, 3);
    assert!(ok);
}

#[test]
fn args_with_invalid_depth_are_rejected_with_message() {
    let args = vec![String::from("mastergen"), String::from("seed"), String::from("abc")];
    let (msg, depth, ok) = validate_args(&args);
    assert_eq!(msg, "Invalid depth supplied! Program will terminate here!");
    assert_eq!(depth, 0);
    assert!(!ok);
}

#[test]
fn args_with_negative_depth_are_rejected_with_message() {
    let args = vec![String::from("mastergen"), String::from("seed"), String::from("-3")];
    let (msg, depth, ok) = validate_args(&args);
    assert_eq!(msg, "Invalid depth supplied! Program will terminate here!");
    assert_eq!(depth, 0);
    assert!(!ok);
}

#[test]
fn args_without_seed_are_rejected() {
    let args = vec![String::from("mastergen")];
    let (msg, depth, ok) = validate_args(&args);
    assert_eq!(msg, "");
    assert_eq!(depth, 0);
    assert!(!ok);
}
