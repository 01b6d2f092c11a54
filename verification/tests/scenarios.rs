use logbook::color::{colorize_block, should_colorize, ColorChoice};
use logbook::commands::{
    finish_why, normalized_tags, recheck_new_entry, supersede_target, validate_date_arg,
};
use logbook::editor::{editor_reason, resolve_editor_from};
use logbook::export::{check_report_to_json, entries_to_json, entries_to_json_lines};
use logbook::parse::{parse_entries, Entry};
use logbook::query::{decisions_on, matching_entries, select_entry, trace_chain, FilterArgs};
use logbook::store::{appended_text, render_entry_block, RenderInput};
use logbook::summary::{stats_report, tags_report};
use logbook::validate::validate_entries;
use logbook::{Error, HEADER};

/// The log after one more decision, dated the way `add` dates it.
fn add(log: &str, title: &str, why: &str, tags: &[&str]) -> String {
    let tags: Vec<String> = tags.iter().map(|t| t.to_string()).collect();
    let block = render_entry_block(&RenderInput {
        date: "2026-05-16",
        title,
        why,
        rejected: None,
        risk: None,
        tags: &tags,
        supersedes: None,
    });
    appended_text(log, &block)
}

/// What a listing prints: the raw blocks of the hits, in order.
fn shown(entries: &[Entry], hits: &[usize]) -> String {
    hits.iter()
        .map(|&i| entries[i].raw.clone())
        .collect::<Vec<_>>()
        .join("\n\n")
}

fn tag_filter(tags: &[&str]) -> FilterArgs {
    FilterArgs {
        tags: tags.iter().map(|t| t.to_string()).collect(),
        ..FilterArgs::default()
    }
}

const FIXTURE: &str = "\
# logbook

Preamble that should be ignored.

## 2026-01-10 — january entry
**why:** first
**tags:** db, perf

## 2026-02-15 — february entry
**why:** second
**tags:** DB, refactor

## 2026-03-20 — march entry
**why:** third
**tags:** perf

## not-a-date — undated entry
**why:** has no shape-valid date
**tags:** orphan
";

#[test]
fn list_with_tag_filters_to_matching_entries_only() {
    let log = add(&add(HEADER, "tagged", "w", &["db"]), "untagged", "w", &[]);
    let entries = parse_entries(&log);
    let out = shown(&entries, &matching_entries(&entries, None, &tag_filter(&["db"]), true));
    assert!(out.contains("tagged"));
    assert!(!out.contains("untagged"));
}

#[test]
fn list_with_unknown_tag_emits_no_match_message() {
    let log = add(HEADER, "t", "w", &["real"]);
    let entries = parse_entries(&log);
    assert_eq!(entries.len(), 1);
    assert!(matching_entries(&entries, None, &tag_filter(&["missing"]), true).is_empty());
}

#[test]
fn search_with_no_hits_says_so() {
    let log = add(HEADER, "t", "w", &[]);
    let entries = parse_entries(&log);
    let hits = matching_entries(
        &entries,
        Some("nothing-matches-this"),
        &FilterArgs::default(),
        true,
    );
    assert!(hits.is_empty());
}

#[test]
fn last_returns_most_recent_entry_only() {
    let log = add(&add(HEADER, "first", "a", &[]), "newest", "b", &[]);
    let entries = parse_entries(&log);
    let last = &entries.last().unwrap().raw;
    assert!(last.contains("newest"));
    assert!(!last.contains("first"));
}

#[test]
fn last_on_empty_initialized_file_reports_no_entries() {
    assert!(parse_entries(HEADER).last().is_none());
}

#[test]
fn show_rejects_malformed_date() {
    match validate_date_arg("date", "banana") {
        Err(Error::BadDate { flag, value }) => {
            assert_eq!(flag, "date");
            assert_eq!(value, "banana");
        }
        other => panic!("expected a bad date, got {other:?}"),
    }
}

#[test]
fn show_with_no_matches_returns_friendly_message() {
    let log = add(HEADER, "t", "w", &[]);
    let entries = parse_entries(&log);
    assert!(validate_date_arg("date", "1999-01-01").is_ok());
    assert!(decisions_on(&entries, "1999-01-01", None).is_empty());
}

#[test]
fn show_for_a_date_with_no_entry_is_friendly() {
    let entries = parse_entries(FIXTURE);
    assert!(validate_date_arg("date", "2026-12-31").is_ok());
    assert!(decisions_on(&entries, "2026-12-31", None).is_empty());
}

#[test]
fn tags_lists_in_descending_count_order() {
    let mut log = add(HEADER, "a", "w", &["refactor"]);
    log = add(&log, "b", "w", &["refactor"]);
    log = add(&log, "c", "w", &["perf"]);
    let out = tags_report(&parse_entries(&log)).join("\n");
    let refactor_pos = out.find("refactor").expect("refactor present");
    let perf_pos = out.find("perf").expect("perf present");
    assert!(refactor_pos < perf_pos, "higher-count tag should print first");
}

#[test]
fn stats_reports_counts_after_adds() {
    let log = add(&add(HEADER, "a", "w", &["x"]), "b", "w", &["y"]);
    let out = stats_report(&parse_entries(&log), "2026-05");
    assert!(out.contains("total entries: 2"));
    assert!(out.contains("unique tags:   2"));
}

#[test]
fn export_json_emits_valid_array() {
    let tags = vec!["db".to_string()];
    let block = render_entry_block(&RenderInput {
        date: "2026-05-16",
        title: "switched ORM",
        why: "perf",
        rejected: Some("redis"),
        risk: Some("migrations"),
        tags: &tags,
        supersedes: None,
    });
    let out = entries_to_json(&parse_entries(&appended_text("", &block)));
    assert!(out.starts_with('['));
    assert!(out.contains("\"date\": \"20"));
    assert!(out.contains("\"title\": \"switched ORM\""));
    assert!(out.contains("\"why\": \"perf\""));
    assert!(out.contains("\"rejected\": \"redis\""));
    assert!(out.contains("\"risk\": \"migrations\""));
    assert!(out.contains("\"db\""));
}

#[test]
fn list_combines_date_and_tag_filters() {
    let entries = parse_entries(
        "## 2026-01-10 — old db\n**why:** a\n**tags:** db\n\n\
         ## 2026-02-15 — current db\n**why:** b\n**tags:** DB\n\n\
         ## 2026-03-20 — current ui\n**why:** c\n**tags:** ui\n",
    );
    let filters = FilterArgs {
        tags: vec!["db".to_string()],
        since: Some("2026-02-01".to_string()),
        until: Some("2026-02-28".to_string()),
        ..FilterArgs::default()
    };
    let out = shown(&entries, &matching_entries(&entries, None, &filters, true));
    assert!(out.contains("current db"));
    assert!(!out.contains("old db"));
    assert!(!out.contains("current ui"));
}

#[test]
fn export_filters_recent_matches_and_supports_json_lines() {
    let entries = parse_entries(
        "## 2026-01-01 — first\n**why:** match\n**tags:** x\n\n\
         ## 2026-01-02 — second\n**why:** match\n**tags:** x\n\n\
         ## 2026-01-03 — third\n**why:** other\n**tags:** x\n",
    );
    let filters = FilterArgs {
        limit: Some(1),
        ..FilterArgs::default()
    };
    let selected: Vec<Entry> = matching_entries(&entries, Some("match"), &filters, false)
        .into_iter()
        .map(|i| entries[i].clone())
        .collect();
    let output = entries_to_json_lines(&selected);
    assert_eq!(output.lines().count(), 1);
    assert!(output.contains("second"));
    assert!(!output.contains("first"));
    assert!(output.contains("\"active\":true"));
}

#[test]
fn trace_json_returns_the_complete_chain_in_decision_order() {
    let entries = parse_entries(
        "## 2026-01-01 — first\n**why:** a\n\n\
         ## 2026-02-01 — second\n**why:** b\n**supersedes:** 2026-01-01 — first\n\n\
         ## 2026-03-01 — third\n**why:** c\n**supersedes:** 2026-02-01 — second\n",
    );
    let selected = select_entry(&entries, "2026-02-01", None).unwrap();
    let chain: Vec<Entry> = trace_chain(&entries, selected)
        .unwrap()
        .into_iter()
        .map(|i| entries[i].clone())
        .collect();
    let output = entries_to_json(&chain);
    let first = output.find("\"title\": \"first\"").unwrap();
    let second = output.find("\"title\": \"second\"").unwrap();
    let third = output.find("\"title\": \"third\"").unwrap();
    assert!(first < second && second < third);
    assert!(output.contains("\"active\": false"));
    assert!(output.contains("\"active\": true"));
}

#[test]
fn check_json_reports_machine_readable_success_and_failure() {
    let broken = parse_entries("## 2026-02-30 — broken\n**why:**\n");
    let issues = validate_entries(&broken);
    let output = check_report_to_json(&broken, &issues);
    assert!(!issues.is_empty());
    assert!(output.contains("\"valid\": false"));
    assert!(output.contains("\"entry\": 1"));
    assert!(output.contains("invalid calendar date"));

    let sound = parse_entries("## 2026-02-28 — sound\n**why:** valid\n");
    let issues = validate_entries(&sound);
    let output = check_report_to_json(&sound, &issues);
    assert!(issues.is_empty());
    assert!(output.contains("\"valid\": true"));
    assert!(output.contains("\"entries\": 1"));
    assert!(output.contains("\"issues\": []"));
}

#[test]
fn supersede_prints_the_written_block_and_stats_report_decision_state() {
    let log = "## 2026-01-01 — old\n**why:** a\n";
    let reference = supersede_target(&parse_entries(log), "2026-01-01", None).unwrap();
    let block = render_entry_block(&RenderInput {
        date: "2026-02-01",
        title: "new",
        why: "b",
        rejected: None,
        risk: None,
        tags: &[],
        supersedes: Some(&reference),
    });
    assert!(block.contains("**supersedes:** 2026-01-01 — old"));
    let out = stats_report(&parse_entries(&appended_text(log, &block)), "2026-02");
    assert!(out.contains("active:        1"));
    assert!(out.contains("superseded:    1"));
}

#[test]
fn add_without_why_no_editor_configured_errors() {
    assert!(matches!(resolve_editor_from(None, None), Err(Error::NoEditor)));
}

#[test]
fn editor_structural_why_is_rejected_without_writing() {
    let captured = editor_reason("opening\n**risk:** injected\n").unwrap();
    match finish_why(captured) {
        Err(Error::InvalidEntry(m)) => assert!(m.contains("reserved syntax")),
        other => panic!("expected reserved syntax to be refused, got {other:?}"),
    }
}

#[test]
fn add_appends_entry_and_print_flag_echoes_block() {
    let why = finish_why("because".to_string()).unwrap();
    let block = render_entry_block(&RenderInput {
        date: "2026-05-16",
        title: "first decision",
        why: &why,
        rejected: None,
        risk: None,
        tags: &[],
        supersedes: None,
    });
    assert!(block.contains("**why:** because"));
    let body = appended_text(HEADER, &block);
    assert!(body.contains("first decision"));
    assert!(body.contains("**why:** because"));
}

#[test]
fn add_supports_multiple_tag_flags() {
    let tags = normalized_tags(vec!["refactor".to_string(), "perf".to_string()]).unwrap();
    let body = add(HEADER, "t", "w", &tags.iter().map(String::as_str).collect::<Vec<_>>());
    assert!(body.contains("**tags:** refactor, perf"));
}

#[test]
fn add_then_read_round_trip_preserves_all_fields() {
    let tags = normalized_tags(vec!["test".to_string(), "integration".to_string()]).unwrap();
    let block = render_entry_block(&RenderInput {
        date: "2026-05-16",
        title: "round-trip",
        why: "preserve all fields",
        rejected: Some("alternatives we said no to"),
        risk: Some("the thing that might break"),
        tags: &tags,
        supersedes: None,
    });
    let body = appended_text(HEADER, &block);
    assert!(body.contains("## "));
    assert!(body.contains("— round-trip"));
    assert!(body.contains("**why:** preserve all fields"));
    assert!(body.contains("**rejected:** alternatives we said no to"));
    assert!(body.contains("**risk:** the thing that might break"));
    assert!(body.contains("**tags:** test, integration"));
}

#[test]
fn supersede_appears_in_json_export() {
    let log = add(HEADER, "old", "w", &[]);
    let old_date = "2026-05-16";
    let reference = supersede_target(&parse_entries(&log), old_date, None).unwrap();
    let block = render_entry_block(&RenderInput {
        date: "2026-05-17",
        title: "new",
        why: "better",
        rejected: None,
        risk: None,
        tags: &[],
        supersedes: Some(&reference),
    });
    let out = entries_to_json(&parse_entries(&appended_text(&log, &block)));
    assert!(out.contains(&format!("\"supersedes\": \"{old_date} — old\"")));
}

#[test]
fn piped_multiline_why_survives_markdown_and_json_export() {
    let why = finish_why("first paragraph\nsecond line\n\nthird paragraph\n".to_string()).unwrap();
    let body = add(HEADER, "piped reason", &why, &[]);
    assert!(body.contains("first paragraph\nsecond line\n\nthird paragraph"));
    let out = entries_to_json(&parse_entries(&body));
    assert!(out.contains("first paragraph\\nsecond line\\n\\nthird paragraph"));
}

#[test]
fn color_always_injects_ansi_even_when_piped() {
    let entries = parse_entries(&add(HEADER, "t", "w", &[]));
    assert!(should_colorize(ColorChoice::Always, false, false));
    assert!(colorize_block(&entries.last().unwrap().raw).contains('\x1b'));
}

#[test]
fn color_never_suppresses_ansi() {
    assert!(!should_colorize(ColorChoice::Never, true, false));
    let entries = parse_entries(&add(HEADER, "t", "w", &[]));
    assert!(!entries.last().unwrap().raw.contains('\x1b'));
}

#[test]
fn export_json_never_colorized_even_with_color_always() {
    let entries = parse_entries(&add(HEADER, "t", "w", &[]));
    assert!(!entries_to_json(&entries).contains('\x1b'));
}

#[test]
fn concurrent_identical_adds_commit_only_one_decision() {
    let block = render_entry_block(&RenderInput {
        date: "2026-01-01",
        title: "same decision",
        why: "w",
        rejected: None,
        risk: None,
        tags: &[],
        supersedes: None,
    });
    assert!(recheck_new_entry(HEADER, "2026-01-01", "same decision", None).is_ok());
    let winner = appended_text(HEADER, &block);
    match recheck_new_entry(&winner, "2026-01-01", "same decision", None) {
        Err(Error::DuplicateDecision(x)) => assert_eq!(x, "2026-01-01 — same decision"),
        other => panic!("expected the second add to be refused, got {other:?}"),
    }
    assert_eq!(parse_entries(&winner).len(), 1);
}
