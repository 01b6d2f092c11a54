use logbook::export::{entries_to_json, entries_to_json_lines};
use logbook::location::{pick_logbook, DirMarkers, LogbookPick};
use logbook::parse::parse_entries;
use logbook::store::append_separator;
use logbook::validate::validate_entries;

/// The text without the whitespace JSON ignores outside string literals.
fn squeezed(json: &str) -> String {
    let mut out = String::new();
    let (mut inside, mut escaped) = (false, false);
    for c in json.chars() {
        if inside || !matches!(c, ' ' | '\n' | '\t' | '\r') {
            out.push(c);
        }
        if inside {
            if escaped {
                escaped = false;
            } else if c == '\\' {
                escaped = true;
            } else if c == '"' {
                inside = false;
            }
        } else if c == '"' {
            inside = true;
        }
    }
    out
}

const LOG: &str = "# logbook\n\n## 2026-01-01 — first \"quoted\"\n**why:** a\n  tab\there\n**tags:** x, y\n\n## 2026-02-01 — second\n**why:** b\n**supersedes:** 2026-01-01 — first \"quoted\"\n**risk:** r\n";

#[test]
fn pretty_export_is_the_one_line_objects_in_an_array() {
    let entries = parse_entries(LOG);
    let lines = entries_to_json_lines(&entries);
    let compact = format!("[{}]", lines.split('\n').collect::<Vec<_>>().join(","));
    assert_eq!(squeezed(&entries_to_json(&entries)), compact);
    assert_eq!(squeezed(&entries_to_json(&[])), "[]");
}

#[test]
fn the_shortest_separator_leaves_a_blank_line() {
    for (existing, expected) in [("", ""), ("a\n\n", ""), ("a\n", "\n"), ("a", "\n\n")] {
        let sep = append_separator(existing);
        assert_eq!(sep, expected);
        let joined = format!("{existing}{sep}");
        assert!(joined.is_empty() || joined.ends_with("\n\n"));
    }
}

#[test]
fn the_picked_logbook_is_the_first_one_up_to_the_root() {
    let d = |has_git, has_logbook| DirMarkers { has_git, has_logbook };
    assert_eq!(pick_logbook(&[d(false, false), d(false, true), d(true, true)]), LogbookPick::Found(1));
    assert_eq!(pick_logbook(&[d(false, false), d(true, false), d(false, true)]), LogbookPick::Fallback(1));
    assert_eq!(pick_logbook(&[d(false, false), d(false, false)]), LogbookPick::Fallback(0));
}

#[test]
fn entries_are_the_blocks_from_each_heading() {
    let text = "preamble\n## a\nx\n\n## b\ny  \n";
    let entries = parse_entries(text);
    assert_eq!(entries.len(), 2);
    assert_eq!(entries[0].raw, "## a\nx");
    assert_eq!(entries[1].raw, "## b\ny");
}

#[test]
fn every_issue_has_a_message() {
    let entries = parse_entries("## 2026-02-30 — \n**supersedes:** nowhere\n");
    let issues = validate_entries(&entries);
    assert!(!issues.is_empty());
    assert!(issues.iter().all(|i| !i.message.is_empty()));
}

#[test]
fn json_lines_split_into_one_object_per_entry() {
    let entries = parse_entries(LOG);
    let lines = entries_to_json_lines(&entries);
    let objects: Vec<&str> = lines.split('\n').collect();
    assert_eq!(objects.len(), entries.len());
    assert!(objects.iter().all(|o| o.starts_with('{') && o.ends_with('}')));
    assert_eq!(entries_to_json_lines(&[]), "");
}
