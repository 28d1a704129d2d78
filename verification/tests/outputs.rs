use roa_wizard_lib::generate_bird;
use roa_wizard_lib::generate_json;
use roa_wizard_lib::get_roa_objects;
use roa_wizard_lib::output::output_bird;
use roa_wizard_lib::parse::{RecordFile, RouteObject};
use roa_wizard_lib::prefix::Prefix;

fn record(filename: &str, lines: &[&str]) -> RecordFile {
    RecordFile {
        filename: String::from(filename),
        lines: lines.iter().map(|s| String::from(*s)).collect(),
    }
}

fn lines(v: &[&str]) -> Vec<String> {
    v.iter().map(|s| String::from(*s)).collect()
}

#[test]
fn bird_line_for_retained_object() {
    let files = vec![record("10.1.0.0_20", &["route: 10.1.0.0/20", "origin: AS65000"])];
    let filters = lines(&["10 permit 10.0.0.0/8 16 24"]);
    let (text, warnings) = generate_bird(&files, &filters, false);
    assert!(warnings.is_empty());
    assert_eq!(text, "route 10.1.0.0/20 max 24 as 65000;\n");
}

#[test]
fn bird_lines_one_per_origin() {
    let files = vec![record(
        "10.1.0.0_20",
        &["route: 10.1.0.0/20", "origin: AS1", "origin: AS2"],
    )];
    let filters = lines(&["10 permit 10.0.0.0/8 0 24"]);
    let (text, _) = generate_bird(&files, &filters, false);
    assert_eq!(
        text,
        "route 10.1.0.0/20 max 24 as 1;\nroute 10.1.0.0/20 max 24 as 2;\n"
    );
}

#[test]
fn host_network_text_carries_explicit_length() {
    let objects = vec![RouteObject {
        prefix: Prefix { is_v6: false, addr: 0x0A000001, len: 32 },
        origins: vec![String::from("65000")],
        max_length: Some(32),
    }];
    let text = output_bird(objects);
    assert_eq!(text, "route 10.0.0.1/32 max 32 as 65000;\n");
}

#[test]
fn v6_bird_line() {
    let files = vec![record("fd00::_8", &["route6: fd00::/8", "origin: AS4242420000"])];
    let filters = lines(&["10 permit fd00::/8 8 64"]);
    let (text, warnings) = generate_bird(&files, &filters, true);
    assert!(warnings.is_empty());
    assert_eq!(text, "route fd00::/8 max 64 as 4242420000;\n");
}

#[test]
fn dropped_objects_leave_no_output_but_keep_warnings() {
    let files = vec![
        record("10.1.0.0_20", &["route: 10.1.0.0/20", "origin: 65000"]),
        record("192.168.0.0_16", &["route: 192.168.0.0/16", "origin: AS65000"]),
    ];
    let filters = lines(&["10 permit 10.0.0.0/8 16 24"]);
    let (text, warnings) = generate_bird(&files, &filters, false);
    assert_eq!(text, "");
    assert_eq!(warnings.len(), 1);
    assert_eq!(warnings[0], "Error in file: 10.1.0.0_20: Invalid origin field");
}

#[test]
fn warnings_list_records_then_policy_lines() {
    let files = vec![record("bad", &["junk"])];
    let filters = lines(&["gibberish line"]);
    let (_, warnings) = get_roa_objects(&files, &filters, false);
    assert_eq!(warnings.len(), 2);
    assert!(warnings[0].starts_with("Error in file: bad:"));
    assert!(warnings[1].starts_with("Failed to parse filter.txt line: gibberish line"));
}

#[test]
fn json_entries_both_families_v4_first() {
    let files_v4 = vec![record("10.1.0.0_20", &["route: 10.1.0.0/20", "origin: AS65000"])];
    let filter_v4 = lines(&["10 permit 10.0.0.0/8 16 24"]);
    let files_v6 = vec![record("fd00::_8", &["route6: fd00::/8", "origin: AS1", "origin: AS2"])];
    let filter_v6 = lines(&["10 permit fd00::/8 8 64"]);
    let (entries, warnings) = generate_json(&files_v4, &filter_v4, &files_v6, &filter_v6);
    assert!(warnings.is_empty());
    assert_eq!(entries.len(), 3);
    assert_eq!(entries[0].prefix, "10.1.0.0/20");
    assert_eq!(entries[0].max_length, 24);
    assert_eq!(entries[0].asn, "65000");
    assert_eq!(entries[1].prefix, "fd00::/8");
    assert_eq!(entries[1].max_length, 64);
    assert_eq!(entries[1].asn, "1");
    assert_eq!(entries[2].asn, "2");
}

#[test]
fn get_roa_objects_rewrites_max_length_in_place() {
    let files = vec![record(
        "10.1.0.0_20",
        &["route: 10.1.0.0/20", "origin: AS65000", "max-length: 28"],
    )];
    let filters = lines(&["10 permit 10.0.0.0/8 16 24"]);
    let (objects, _) = get_roa_objects(&files, &filters, false);
    assert_eq!(objects.len(), 1);
    assert_eq!(objects[0].max_length, Some(24));
}

#[test]
fn negative_effective_max_renders_with_sign() {
    let objects = vec![RouteObject {
        prefix: Prefix { is_v6: false, addr: 0, len: 0 },
        origins: vec![String::from("65000")],
        max_length: Some(-5),
    }];
    // Rendering alone: a negative stored value keeps its sign in the text.
    let text = output_bird(objects);
    assert_eq!(text, "route 0.0.0.0/0 max -5 as 65000;\n");
}
