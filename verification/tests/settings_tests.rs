use savesnap::settings::{config_from_inputs, parse_or_default, trim_input, DEFAULT_SETTING};

#[test]
fn trim_removes_surrounding_whitespace() {
    assert_eq!(trim_input(" 12 \n"), "12");
    assert_eq!(trim_input("\t\r\nx\t"), "x");
    assert_eq!(trim_input("   "), "");
    assert_eq!(trim_input(""), "");
    assert_eq!(trim_input("a b"), "a b");
    assert_eq!(trim_input("\u{3000}x\u{2028}"), "x");
}

#[test]
fn trim_matches_std_trim() {
    for input in ["", " ", " a ", "\n42\r\n", "\u{a0}7\u{1680}", "inner space kept ", "+9\n"] {
        assert_eq!(trim_input(input), input.trim(), "input {:?}", input);
    }
}

#[test]
fn trimmed_line_parses() {
    assert_eq!(parse_or_default(&trim_input(" 42 \n")), 42);
}

#[test]
fn empty_input_yields_default() {
    assert_eq!(parse_or_default(""), 10);
}

#[test]
fn non_numeric_input_yields_default() {
    assert_eq!(parse_or_default("abc"), 10);
    assert_eq!(parse_or_default("1a"), 10);
    assert_eq!(parse_or_default("a1"), 10);
    assert_eq!(parse_or_default("1 2"), 10);
    assert_eq!(parse_or_default("-5"), 10);
    assert_eq!(parse_or_default("+"), 10);
    assert_eq!(parse_or_default("++3"), 10);
    assert_eq!(parse_or_default("3.5"), 10);
}

#[test]
fn numeric_input_is_used() {
    assert_eq!(parse_or_default("0"), 0);
    assert_eq!(parse_or_default("1"), 1);
    assert_eq!(parse_or_default("12"), 12);
    assert_eq!(parse_or_default("007"), 7);
    assert_eq!(parse_or_default("+7"), 7);
    assert_eq!(parse_or_default("10"), 10);
}

#[test]
fn parse_matches_std_parse_behavior() {
    for input in ["", "abc", "42", "+42", "18446744073709551615", "18446744073709551616", "٣"] {
        let expected = input.parse::<u64>().unwrap_or(10);
        assert_eq!(parse_or_default(input), expected, "input {:?}", input);
    }
}

#[test]
fn oversized_input_yields_default() {
    assert_eq!(parse_or_default("18446744073709551615"), u64::MAX);
    assert_eq!(parse_or_default("18446744073709551616"), 10);
    assert_eq!(parse_or_default("99999999999999999999999"), 10);
}

#[test]
fn default_setting_is_ten() {
    assert_eq!(DEFAULT_SETTING, 10);
}

#[test]
fn missing_source_gives_no_config() {
    assert!(config_from_inputs(false, "5", "5").is_none());
}

#[test]
fn config_takes_parsed_or_default_values() {
    let c = config_from_inputs(true, "5", "oops").unwrap();
    assert_eq!(c.interval_minutes, 5);
    assert_eq!(c.max_snapshots, 10);

    let c = config_from_inputs(true, "", "3").unwrap();
    assert_eq!(c.interval_minutes, 10);
    assert_eq!(c.max_snapshots, 3);
}
