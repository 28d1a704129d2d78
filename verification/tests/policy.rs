use roa_wizard_lib::filter::read_filter_set;

fn lines(v: &[&str]) -> Vec<String> {
    v.iter().map(|s| String::from(*s)).collect()
}

#[test]
fn valid_line_is_parsed() {
    let (rules, warnings) = read_filter_set(&lines(&["10 permit 10.0.0.0/8 16 24"]));
    assert!(warnings.is_empty());
    assert_eq!(rules.len(), 1);
    assert_eq!(rules[0].priority, 10);
    assert!(rules[0].allow);
    assert!(!rules[0].prefix.is_v6);
    assert_eq!(rules[0].prefix.addr, 0x0A000000);
    assert_eq!(rules[0].prefix.len, 8);
    assert_eq!(rules[0].min_len, 16);
    assert_eq!(rules[0].max_len, 24);
}

#[test]
fn comments_and_empty_lines_are_skipped_silently() {
    let (rules, warnings) = read_filter_set(&lines(&[
        "# a comment",
        "",
        "10 permit 10.0.0.0/8 16 24",
        "#another",
    ]));
    assert!(warnings.is_empty());
    assert_eq!(rules.len(), 1);
}

#[test]
fn anything_but_permit_is_deny() {
    let (rules, warnings) = read_filter_set(&lines(&[
        "10 deny 10.0.0.0/8 0 32",
        "20 block 10.0.0.0/8 0 32",
        "30 PERMIT 10.0.0.0/8 0 32",
    ]));
    assert!(warnings.is_empty());
    assert_eq!(rules.len(), 3);
    assert!(!rules[0].allow);
    assert!(!rules[1].allow);
    assert!(!rules[2].allow);
}

#[test]
fn missing_tokens_warn_in_field_order() {
    let (rules, warnings) = read_filter_set(&lines(&["   ", "10", "10 permit", "10 permit 10.0.0.0/8", "10 permit 10.0.0.0/8 16"]));
    assert!(rules.is_empty());
    assert_eq!(warnings.len(), 5);
    assert_eq!(
        warnings[0],
        "Failed to parse filter.txt line:     Error: priority value missing"
    );
    assert_eq!(warnings[1], "Failed to parse filter.txt line: 10 Error: allow value missing");
    assert_eq!(
        warnings[2],
        "Failed to parse filter.txt line: 10 permit Error: invalid prefix"
    );
    assert_eq!(
        warnings[3],
        "Failed to parse filter.txt line: 10 permit 10.0.0.0/8 Error: min_len value missing"
    );
    assert_eq!(
        warnings[4],
        "Failed to parse filter.txt line: 10 permit 10.0.0.0/8 16 Error: max_len value missing"
    );
}

#[test]
fn non_integer_fields_warn() {
    let (rules, warnings) = read_filter_set(&lines(&[
        "high permit 10.0.0.0/8 16 24",
        "10 permit 10.0.0.0/8 low 24",
        "10 permit 10.0.0.0/8 16 high",
    ]));
    assert!(rules.is_empty());
    assert_eq!(
        warnings[0],
        "Failed to parse filter.txt line: high permit 10.0.0.0/8 16 24 Error: Failed to parse priority as i32"
    );
    assert_eq!(
        warnings[1],
        "Failed to parse filter.txt line: 10 permit 10.0.0.0/8 low 24 Error: Failed to parse min_length as i32"
    );
    assert_eq!(
        warnings[2],
        "Failed to parse filter.txt line: 10 permit 10.0.0.0/8 16 high Error: Failed to parse max_length as i32"
    );
}

#[test]
fn unparseable_cidr_warns() {
    let (rules, warnings) = read_filter_set(&lines(&["10 permit not-a-prefix 16 24"]));
    assert!(rules.is_empty());
    assert_eq!(
        warnings[0],
        "Failed to parse filter.txt line: 10 permit not-a-prefix 16 24 Error: Failed to parse prefix"
    );
}

#[test]
fn bad_line_does_not_stop_the_rest() {
    let (rules, warnings) = read_filter_set(&lines(&[
        "10 permit 10.0.0.0/8 16 24",
        "nonsense",
        "20 deny 10.0.0.0/8 0 32",
    ]));
    assert_eq!(rules.len(), 2);
    assert_eq!(warnings.len(), 1);
}

#[test]
fn rules_are_sorted_ascending_by_priority() {
    let (rules, _) = read_filter_set(&lines(&[
        "30 permit 10.3.0.0/16 0 32",
        "10 permit 10.1.0.0/16 0 32",
        "20 permit 10.2.0.0/16 0 32",
    ]));
    assert_eq!(rules.len(), 3);
    assert_eq!(rules[0].priority, 10);
    assert_eq!(rules[1].priority, 20);
    assert_eq!(rules[2].priority, 30);
}

#[test]
fn sort_is_stable_for_equal_priorities() {
    let (rules, _) = read_filter_set(&lines(&[
        "20 permit 10.9.0.0/16 0 32",
        "10 permit 10.1.0.0/16 0 32",
        "10 deny 10.2.0.0/16 0 32",
        "10 permit 10.3.0.0/16 0 32",
    ]));
    assert_eq!(rules.len(), 4);
    assert_eq!(rules[0].prefix.addr, 0x0A010000);
    assert_eq!(rules[1].prefix.addr, 0x0A020000);
    assert_eq!(rules[2].prefix.addr, 0x0A030000);
    assert_eq!(rules[3].prefix.addr, 0x0A090000);
}

#[test]
fn extra_tokens_are_ignored() {
    let (rules, warnings) = read_filter_set(&lines(&["10 permit 10.0.0.0/8 16 24 trailing words"]));
    assert!(warnings.is_empty());
    assert_eq!(rules.len(), 1);
}

#[test]
fn integer_fields_accept_sign_and_leading_zeros() {
    let (rules, warnings) = read_filter_set(&lines(&["+010 permit 10.0.0.0/8 016 +24"]));
    assert!(warnings.is_empty());
    assert_eq!(rules[0].priority, 10);
    assert_eq!(rules[0].min_len, 16);
    assert_eq!(rules[0].max_len, 24);
}

#[test]
fn out_of_range_integer_field_warns() {
    let (rules, warnings) = read_filter_set(&lines(&["99999999999 permit 10.0.0.0/8 16 24"]));
    assert!(rules.is_empty());
    assert_eq!(
        warnings[0],
        "Failed to parse filter.txt line: 99999999999 permit 10.0.0.0/8 16 24 Error: Failed to parse priority as i32"
    );
}

#[test]
fn boundary_integer_values_parse() {
    let (rules, warnings) = read_filter_set(&lines(&["-2147483648 permit 10.0.0.0/8 0 2147483647"]));
    assert!(warnings.is_empty());
    assert_eq!(rules[0].priority, -2147483648);
    assert_eq!(rules[0].max_len, 2147483647);
}
