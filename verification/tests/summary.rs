use logbook::parse::parse_entries;
use logbook::summary::{check_summary, compute_stats, stats_report, tag_counts, tags_report};

const FIXTURE: &str = "\
# logbook

Preamble that should be ignored.

## 2026-01-10 — january entry
**why:** first
**tags:** db, perf

## 2026-02-15 — february entry
**why:** second
**tags:** DB, refactor

## 2026-03-20 — march entry
**why:** third
**tags:** perf

## not-a-date — undated entry
**why:** has no shape-valid date
**tags:** orphan
";

#[test]
fn tags_merges_case_variants_and_orders_by_count() {
    let entries = parse_entries(FIXTURE);
    assert_eq!(
        tag_counts(&entries),
        [
            ("db".to_string(), 2),
            ("perf".to_string(), 2),
            ("orphan".to_string(), 1),
            ("refactor".to_string(), 1),
        ]
    );
    assert_eq!(
        tags_report(&entries),
        ["db        2", "perf      2", "orphan    1", "refactor  1"]
    );
}

#[test]
fn tags_pad_by_the_widest_name_in_bytes() {
    let entries = parse_entries("## 2026-01-01 — t\n**why:** w\n**tags:** café, ab\n");
    assert_eq!(tags_report(&entries), ["ab     1", "café   1"]);
}

#[test]
fn tags_without_any_tag_say_so() {
    let entries = parse_entries("## 2026-01-01 — t\n**why:** w\n");
    assert_eq!(
        tags_report(&entries),
        ["(no tags yet — add entries with --tag <name>)"]
    );
}

#[test]
fn stats_reports_full_range_and_unique_tag_count() {
    let entries = parse_entries(FIXTURE);
    let report = stats_report(&entries, "2026-02");
    assert_eq!(
        report,
        "total entries: 4\nactive:        4\nsuperseded:    0\ndate range:    2026-01-10 → 2026-03-20\nthis month:    1\nunique tags:   4\n"
    );
    let s = compute_stats(&entries, "2026-03");
    assert_eq!(s.this_month, 1);
    assert_eq!(s.unique_tags, 4);
    assert_eq!(s.first.as_deref(), Some("2026-01-10"));
    assert_eq!(s.last.as_deref(), Some("2026-03-20"));
}

#[test]
fn stats_count_decision_state() {
    let entries = parse_entries(
        "## 2026-01-01 — old\n**why:** a\n\n\
         ## 2026-02-01 — new\n**why:** b\n**supersedes:** 2026-01-01 — old\n",
    );
    let report = stats_report(&entries, "1999-01");
    assert!(report.contains("active:        1"));
    assert!(report.contains("superseded:    1"));
    assert!(report.contains("this month:    0"));
}

#[test]
fn stats_of_an_empty_log_and_of_undated_entries() {
    assert_eq!(stats_report(&[], "2026-01"), "(no entries yet)\n");
    let entries = parse_entries("## banana\n**why:** w\n");
    assert!(stats_report(&entries, "2026-01").contains("date range:    ? → ?"));
}

#[test]
fn check_reports_all_structural_problems_and_accepts_valid_files() {
    let entries = parse_entries("## 2026-02-28 — sound\n**why:** valid\n");
    assert_eq!(check_summary(&entries), "ok: 1 entries (1 active, 0 superseded)");
    assert!(check_summary(&entries).contains("1 entries (1 active"));
}
