use roa_wizard_lib::filter::{evaluate_filter_set, read_filter_set, FilterSet};
use roa_wizard_lib::parse::RouteObject;
use roa_wizard_lib::prefix::Prefix;

fn lines(v: &[&str]) -> Vec<String> {
    v.iter().map(|s| String::from(*s)).collect()
}

fn object(addr: u128, len: u8, max_length: Option<i32>) -> RouteObject {
    RouteObject {
        prefix: Prefix { is_v6: false, addr, len },
        origins: vec![String::from("65000")],
        max_length,
    }
}

fn base_rule() -> Vec<FilterSet> {
    let (rules, warnings) = read_filter_set(&lines(&["10 permit 10.0.0.0/8 16 24"]));
    assert!(warnings.is_empty());
    assert_eq!(rules.len(), 1);
    rules
}

#[test]
fn permit_without_declared_max_gets_rule_max() {
    let rules = base_rule();
    let mut objects = vec![object(0x0A010000, 20, None)];
    evaluate_filter_set(&mut objects, &rules);
    assert_eq!(objects.len(), 1);
    assert_eq!(objects[0].max_length, Some(24));
}

#[test]
fn declared_max_above_rule_max_is_clamped_down() {
    let rules = base_rule();
    let mut objects = vec![object(0x0A010000, 20, Some(28))];
    evaluate_filter_set(&mut objects, &rules);
    assert_eq!(objects.len(), 1);
    assert_eq!(objects[0].max_length, Some(24));
}

#[test]
fn declared_max_below_rule_min_is_clamped_up() {
    let rules = base_rule();
    let mut objects = vec![object(0x0A010000, 16, Some(10))];
    evaluate_filter_set(&mut objects, &rules);
    assert_eq!(objects.len(), 1);
    assert_eq!(objects[0].max_length, Some(16));
}

#[test]
fn declared_max_within_bounds_stands() {
    let rules = base_rule();
    let mut objects = vec![object(0x0A010000, 20, Some(22))];
    evaluate_filter_set(&mut objects, &rules);
    assert_eq!(objects.len(), 1);
    assert_eq!(objects[0].max_length, Some(22));
}

#[test]
fn announced_length_above_effective_max_is_dropped() {
    let rules = base_rule();
    let mut objects = vec![object(0x0A010000, 30, None)];
    evaluate_filter_set(&mut objects, &rules);
    assert!(objects.is_empty());
}

#[test]
fn announced_length_below_rule_min_is_retained() {
    // The engine deliberately has no lower-bound check on the announced
    // length itself: a /8 announcement under a min 16 rule stays.
    let rules = base_rule();
    let mut objects = vec![object(0x0A000000, 8, None)];
    evaluate_filter_set(&mut objects, &rules);
    assert_eq!(objects.len(), 1);
    assert_eq!(objects[0].max_length, Some(24));
}

#[test]
fn object_with_no_covering_rule_is_dropped() {
    let rules = base_rule();
    // 192.168.0.0/16 lies outside 10.0.0.0/8.
    let mut objects = vec![object(0xC0A80000, 16, None)];
    evaluate_filter_set(&mut objects, &rules);
    assert!(objects.is_empty());
}

#[test]
fn object_reaching_outside_rule_range_is_dropped() {
    // 10.0.0.0/8 starts at the rule's first address but its last address
    // lies beyond 10.0.0.0/9: not covered, though the first address is.
    let mut objects = vec![object(0x0A000000, 8, None)];
    let (rules, _) = read_filter_set(&lines(&["10 permit 10.0.0.0/9 0 32"]));
    evaluate_filter_set(&mut objects, &rules);
    assert!(objects.is_empty());
}

#[test]
fn deny_match_excludes_despite_later_permit() {
    let (rules, warnings) = read_filter_set(&lines(&[
        "10 deny 10.0.0.0/8 16 24",
        "20 permit 10.0.0.0/8 16 24",
    ]));
    assert!(warnings.is_empty());
    let mut objects = vec![object(0x0A010000, 20, None)];
    evaluate_filter_set(&mut objects, &rules);
    assert!(objects.is_empty());
}

#[test]
fn lower_priority_number_wins_regardless_of_file_order() {
    // The permitting rule has the lower priority number but stands later
    // in the file; after sorting it is evaluated first.
    let (rules, warnings) = read_filter_set(&lines(&[
        "20 deny 10.0.0.0/8 0 32",
        "10 permit 10.1.0.0/16 0 32",
    ]));
    assert!(warnings.is_empty());
    assert_eq!(rules[0].priority, 10);
    assert_eq!(rules[1].priority, 20);
    let mut objects = vec![object(0x0A010000, 20, None)];
    evaluate_filter_set(&mut objects, &rules);
    assert_eq!(objects.len(), 1);

    // The same two lines the other way round sort the same way.
    let (rules2, _) = read_filter_set(&lines(&[
        "10 permit 10.1.0.0/16 0 32",
        "20 deny 10.0.0.0/8 0 32",
    ]));
    let mut objects2 = vec![object(0x0A010000, 20, None)];
    evaluate_filter_set(&mut objects2, &rules2);
    assert_eq!(objects2.len(), 1);
}

#[test]
fn equal_priorities_keep_file_order() {
    let (rules, warnings) = read_filter_set(&lines(&[
        "10 deny 10.0.0.0/8 0 32",
        "10 permit 10.0.0.0/8 0 32",
    ]));
    assert!(warnings.is_empty());
    assert!(!rules[0].allow);
    assert!(rules[1].allow);
    let mut objects = vec![object(0x0A010000, 20, None)];
    evaluate_filter_set(&mut objects, &rules);
    assert!(objects.is_empty());
}

#[test]
fn rule_of_other_family_does_not_cover() {
    let (rules, warnings) = read_filter_set(&lines(&["10 permit fd00::/8 0 128"]));
    assert!(warnings.is_empty());
    assert!(rules[0].prefix.is_v6);
    let mut objects = vec![object(0x0A010000, 20, None)];
    evaluate_filter_set(&mut objects, &rules);
    assert!(objects.is_empty());
}

#[test]
fn evaluation_keeps_object_order() {
    let (rules, _) = read_filter_set(&lines(&["10 permit 10.0.0.0/8 0 32"]));
    let mut objects = vec![
        object(0x0A010000, 20, None),
        object(0xC0A80000, 16, None),
        object(0x0A020000, 24, None),
    ];
    evaluate_filter_set(&mut objects, &rules);
    assert_eq!(objects.len(), 2);
    assert_eq!(objects[0].prefix.addr, 0x0A010000);
    assert_eq!(objects[1].prefix.addr, 0x0A020000);
}
