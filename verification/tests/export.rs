use logbook::export::{check_report_to_json, entries_to_json, entries_to_json_lines, json_string};
use logbook::parse::parse_entries;
use logbook::validate::validate_entries;

#[test]
fn empty_entries_render_as_empty_array() {
    assert_eq!(entries_to_json(&[]), "[]");
}

#[test]
fn serializes_the_stable_entry_shape() {
    let entries = parse_entries(
        "## 2026-05-16 — switched ORM\n**why:** perf\n**supersedes:** 2026-05-01 — old ORM\n**rejected:** redis\n**risk:** migrations\n**tags:** db, perf\n",
    );
    let json = entries_to_json(&entries);
    for expected in [
        "\"date\": \"2026-05-16\"",
        "\"title\": \"switched ORM\"",
        "\"why\": \"perf\"",
        "\"supersedes\": \"2026-05-01 — old ORM\"",
        "\"rejected\": \"redis\"",
        "\"risk\": \"migrations\"",
        "\"db\"",
        "\"perf\"",
        "\"active\": true",
        "\"superseded_by\": []",
    ] {
        assert!(json.contains(expected), "{expected}");
    }
}

#[test]
fn absent_fields_and_tags_have_stable_values() {
    let json = entries_to_json(&parse_entries("## 2026-05-16 — t\n**why:** w\n"));
    assert!(json.contains("\"rejected\": null"));
    assert!(json.contains("\"risk\": null"));
    assert!(json.contains("\"supersedes\": null"));
    assert!(json.contains("\"tags\": []"));
}

#[test]
fn escapes_json_special_characters() {
    assert_eq!(
        json_string("\"\\\n\r\t\u{08}\u{0C}\u{01}"),
        "\"\\\"\\\\\\n\\r\\t\\b\\f\\u0001\""
    );
}

#[test]
fn json_lines_are_compact_and_include_derived_state() {
    let entries = parse_entries(
        "## 2026-01-01 — old\n**why:** a\n\n\
         ## 2026-01-02 — new\n**why:** b\n**supersedes:** 2026-01-01 — old\n",
    );
    let lines = entries_to_json_lines(&entries);
    assert_eq!(lines.lines().count(), 2);
    assert!(lines.lines().next().unwrap().contains("\"active\":false"));
    assert!(lines.contains("\"superseded_by\":[\"2026-01-02 — new\"]"));
}

#[test]
fn json_string_escapes_other_control_characters_as_hex() {
    assert_eq!(json_string("a\u{1f}b\u{7f}"), "\"a\\u001fb\u{7f}\"");
    assert_eq!(json_string(""), "\"\"");
    assert_eq!(json_string("é — ok"), "\"é — ok\"");
}

#[test]
fn a_whole_entry_serializes_exactly() {
    let entries = parse_entries("## 2026-05-16 — t\n**why:** w\n**tags:** a, b\n");
    assert_eq!(
        entries_to_json(&entries),
        "[\n  {\n    \"date\": \"2026-05-16\",\n    \"title\": \"t\",\n    \"why\": \"w\",\n    \"rejected\": null,\n    \"risk\": null,\n    \"supersedes\": null,\n    \"tags\": [\n      \"a\",\n      \"b\"\n    ],\n    \"active\": true,\n    \"superseded_by\": []\n  }\n]"
    );
}

#[test]
fn check_report_lists_counts_and_issues() {
    let sound = parse_entries("## 2026-02-28 — sound\n**why:** valid\n");
    let report = check_report_to_json(&sound, &validate_entries(&sound));
    assert_eq!(
        report,
        "{\n  \"valid\": true,\n  \"entries\": 1,\n  \"active\": 1,\n  \"superseded\": 0,\n  \"issues\": []\n}"
    );
    let broken = parse_entries("## 2026-02-30 — broken\n**why:**\n");
    let issues = validate_entries(&broken);
    let report = check_report_to_json(&broken, &issues);
    assert!(report.contains("\"valid\": false"));
    assert!(report.contains("\"entry\": 1"));
    assert!(report.contains("invalid calendar date"));
}

#[test]
fn machine_output_never_carries_a_terminal_escape() {
    let entries = parse_entries("## 2026-01-01 — \u{1b}[31mred\u{1b}[0m\n**why:** a \u{1b} b\n");
    assert!(!entries_to_json(&entries).contains('\u{1b}'));
    assert!(!entries_to_json_lines(&entries).contains('\u{1b}'));
    assert!(entries_to_json(&entries).contains("\\u001b[31mred"));
    let issues = validate_entries(&entries);
    assert!(!check_report_to_json(&entries, &issues).contains('\u{1b}'));
}
