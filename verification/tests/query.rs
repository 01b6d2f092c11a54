use logbook::parse::{parse_entries, Entry};
use logbook::query::{
    decisions_on, matching_entries, select_entry, trace_chain, validate_filters, FilterArgs,
};
use logbook::Error;

const FIXTURE: &str = "\
# logbook

Preamble that should be ignored.

## 2026-01-10 — january entry
**why:** first
**tags:** db, perf

## 2026-02-15 — february entry
**why:** second
**tags:** DB, refactor

## 2026-03-20 — march entry
**why:** third
**tags:** perf

## not-a-date — undated entry
**why:** has no shape-valid date
**tags:** orphan
";

fn titles(entries: &[Entry], hits: &[usize]) -> Vec<String> {
    hits.iter()
        .map(|&i| entries[i].title.clone().unwrap_or_default())
        .collect()
}

fn window(since: Option<&str>, until: Option<&str>) -> FilterArgs {
    FilterArgs {
        since: since.map(str::to_string),
        until: until.map(str::to_string),
        ..FilterArgs::default()
    }
}

fn tagged(tags: &[&str]) -> FilterArgs {
    FilterArgs {
        tags: tags.iter().map(|t| t.to_string()).collect(),
        ..FilterArgs::default()
    }
}

#[test]
fn list_returns_entries_newest_first() {
    let entries = parse_entries(FIXTURE);
    let hits = matching_entries(&entries, None, &FilterArgs::default(), true);
    assert_eq!(
        titles(&entries, &hits),
        ["not-a-date — undated entry", "march entry", "february entry", "january entry"]
    );
    let in_order = matching_entries(&entries, None, &FilterArgs::default(), false);
    assert_eq!(in_order, [0, 1, 2, 3]);
}

#[test]
fn list_with_since_and_until_keeps_only_the_window() {
    let entries = parse_entries(FIXTURE);
    let f = window(Some("2026-02-01"), Some("2026-02-28"));
    assert!(validate_filters(&f).is_ok());
    assert_eq!(titles(&entries, &matching_entries(&entries, None, &f, true)), ["february entry"]);
}

#[test]
fn list_with_until_alone_excludes_later_entries() {
    let entries = parse_entries(FIXTURE);
    let f = window(None, Some("2026-02-15"));
    assert_eq!(
        titles(&entries, &matching_entries(&entries, None, &f, true)),
        ["february entry", "january entry"]
    );
}

#[test]
fn list_with_since_drops_undated_entries() {
    let entries = parse_entries(FIXTURE);
    let f = window(Some("2026-01-01"), None);
    let hits = titles(&entries, &matching_entries(&entries, None, &f, true));
    assert!(hits.contains(&"january entry".to_string()));
    assert!(!hits.iter().any(|t| t.contains("undated entry")));
}

#[test]
fn filters_reject_a_reversed_date_range() {
    match validate_filters(&window(Some("2026-02-01"), Some("2026-01-01"))) {
        Err(Error::InvalidEntry(m)) => assert_eq!(m, "--since cannot be after --until"),
        other => panic!("expected a reversed range error, got {other:?}"),
    }
    assert!(validate_filters(&window(Some("2026-02-01"), Some("2026-02-01"))).is_ok());
}

#[test]
fn list_bad_since_returns_error_and_nonzero_exit() {
    match validate_filters(&window(Some("banana"), None)) {
        Err(Error::BadDate { flag, value }) => {
            assert_eq!(flag, "since");
            assert_eq!(value, "banana");
        }
        other => panic!("expected a bad date, got {other:?}"),
    }
}

#[test]
fn list_with_bad_until_errors_with_nonzero_exit() {
    match validate_filters(&window(None, Some("2026-3-1"))) {
        Err(Error::BadDate { flag, .. }) => assert_eq!(flag, "until"),
        other => panic!("expected a bad date, got {other:?}"),
    }
}

#[test]
fn blank_tag_filters_are_refused() {
    match validate_filters(&tagged(&["db", "  "])) {
        Err(Error::InvalidEntry(m)) => assert_eq!(m, "tag filters cannot be empty"),
        other => panic!("expected a blank tag error, got {other:?}"),
    }
}

#[test]
fn list_tag_filter_is_case_insensitive_across_entries() {
    let entries = parse_entries(FIXTURE);
    assert_eq!(
        titles(&entries, &matching_entries(&entries, None, &tagged(&["db"]), true)),
        ["february entry", "january entry"]
    );
    assert_eq!(
        titles(&entries, &matching_entries(&entries, None, &tagged(&[" PERF ", "db"]), true)),
        ["january entry"]
    );
}

#[test]
fn search_matches_body_text_not_just_headings() {
    let entries = parse_entries(FIXTURE);
    let hits = matching_entries(&entries, Some("shape-valid"), &FilterArgs::default(), true);
    assert_eq!(titles(&entries, &hits), ["not-a-date — undated entry"]);
}

#[test]
fn search_is_case_insensitive() {
    let entries = parse_entries("## 2026-01-01 — WEBSOCKET MIGRATION\n**why:** w\n");
    let hits = matching_entries(&entries, Some("websocket"), &FilterArgs::default(), true);
    assert_eq!(hits, [0]);
    assert!(matching_entries(&entries, Some("nothing-matches-this"), &FilterArgs::default(), true)
        .is_empty());
}

const STORAGE: &str = "\
## 2026-01-01 — old storage
**why:** slow writes
**tags:** storage, server

## 2026-02-01 — new storage
**why:** fast writes
**supersedes:** 2026-01-01 — old storage
**tags:** storage, server

## 2026-02-02 — unrelated
**why:** writes docs
**tags:** docs
";

#[test]
fn list_active_and_composable_filters_find_current_decisions() {
    let entries = parse_entries(STORAGE);
    let f = FilterArgs {
        active: true,
        tags: vec!["storage".to_string(), "server".to_string()],
        ..FilterArgs::default()
    };
    assert_eq!(
        titles(&entries, &matching_entries(&entries, Some("writes"), &f, true)),
        ["new storage"]
    );
}

#[test]
fn superseded_filter_selects_only_replaced_decisions() {
    let entries = parse_entries(STORAGE);
    let f = FilterArgs {
        superseded: true,
        ..FilterArgs::default()
    };
    assert_eq!(titles(&entries, &matching_entries(&entries, None, &f, false)), ["old storage"]);
}

#[test]
fn list_and_export_limit_to_recent_entries() {
    let entries = parse_entries(
        "## 2026-01-01 — first match\n**why:** w\n\n\
         ## 2026-01-02 — second match\n**why:** w\n\n\
         ## 2026-01-03 — third match\n**why:** w\n",
    );
    let f = FilterArgs {
        limit: Some(2),
        ..FilterArgs::default()
    };
    assert_eq!(matching_entries(&entries, Some("match"), &f, true), [2, 1]);
    assert_eq!(matching_entries(&entries, Some("match"), &f, false), [1, 2]);
    let wide = FilterArgs {
        limit: Some(10),
        ..FilterArgs::default()
    };
    assert_eq!(matching_entries(&entries, None, &wide, false), [0, 1, 2]);
}

#[test]
fn show_returns_only_the_entry_for_that_date() {
    let entries = parse_entries(FIXTURE);
    assert_eq!(decisions_on(&entries, "2026-02-15", None), [1]);
    assert!(decisions_on(&entries, "2026-12-31", None).is_empty());
}

#[test]
fn show_title_disambiguates_same_day_entries() {
    let entries = parse_entries(
        "## 2026-01-01 — first\n**why:** a\n\n## 2026-01-01 — second\n**why:** b\n",
    );
    assert_eq!(decisions_on(&entries, "2026-01-01", None), [0, 1]);
    assert_eq!(decisions_on(&entries, "2026-01-01", Some("second")), [1]);
    assert_eq!(select_entry(&entries, "2026-01-01", Some("second")).unwrap(), 1);
    match select_entry(&entries, "2026-01-01", None) {
        Err(Error::InvalidEntry(m)) => {
            assert_eq!(m, "more than one decision matches 2026-01-01; pass --title")
        }
        other => panic!("expected ambiguity, got {other:?}"),
    }
    match select_entry(&entries, "2026-01-01", Some("third")) {
        Err(Error::InvalidEntry(m)) => assert_eq!(m, "no decision matches 2026-01-01 — third"),
        other => panic!("expected no match, got {other:?}"),
    }
    match select_entry(&entries, "2026-01-05", None) {
        Err(Error::InvalidEntry(m)) => assert_eq!(m, "no decision matches 2026-01-05"),
        other => panic!("expected no match, got {other:?}"),
    }
}

const CHAIN: &str = "\
## 2026-01-01 — first
**why:** a

## 2026-02-01 — second
**why:** b
**supersedes:** 2026-01-01 — first

## 2026-02-02 — unrelated
**why:** u

## 2026-03-01 — third
**why:** c
**supersedes:** 2026-02-01 — second
";

#[test]
fn trace_prints_the_complete_supersession_chain() {
    let entries = parse_entries(CHAIN);
    for (date, _) in [("2026-01-01", 0), ("2026-02-01", 1), ("2026-03-01", 3)] {
        let selected = select_entry(&entries, date, None).unwrap();
        assert_eq!(trace_chain(&entries, selected).unwrap(), [0, 1, 3]);
    }
    assert_eq!(trace_chain(&entries, 2).unwrap(), [2]);
}

#[test]
fn trace_refuses_broken_and_branched_chains() {
    let broken = parse_entries(
        "## 2026-02-01 — orphan\n**why:** b\n**supersedes:** 2026-01-01 — missing\n",
    );
    match trace_chain(&broken, 0) {
        Err(Error::InvalidEntry(m)) => assert_eq!(
            m,
            "cannot trace an invalid supersession link; run `logbook check`"
        ),
        other => panic!("expected a broken link, got {other:?}"),
    }
    let branched = parse_entries(
        "## 2026-01-01 — original\n**why:** a\n\n\
         ## 2026-01-02 — one\n**why:** b\n**supersedes:** 2026-01-01 — original\n\n\
         ## 2026-01-03 — two\n**why:** c\n**supersedes:** 2026-01-01 — original\n",
    );
    match trace_chain(&branched, 0) {
        Err(Error::InvalidEntry(m)) => {
            assert_eq!(m, "cannot trace a branched supersession; run `logbook check`")
        }
        other => panic!("expected a branch, got {other:?}"),
    }
}
