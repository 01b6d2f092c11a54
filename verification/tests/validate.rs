use logbook::parse::parse_entries;
use logbook::validate::validate_entries;

#[test]
fn accepts_a_valid_supersession_chain() {
    let entries = parse_entries(
        "## 2026-01-01 — first\n**why:** a\n\n\
         ## 2026-01-02 — second\n**why:** b\n**supersedes:** 2026-01-01 — first\n",
    );
    assert!(validate_entries(&entries).is_empty());
}

#[test]
fn reports_required_fields_dates_and_broken_links_together() {
    let entries = parse_entries(
        "## 2026-02-30 — broken\n**why:**\n**supersedes:** 1999-01-01 — absent\n",
    );
    let issues = validate_entries(&entries);
    let messages: Vec<&str> = issues.iter().map(|issue| issue.message.as_str()).collect();
    assert!(messages
        .iter()
        .any(|message| message.contains("invalid calendar")));
    assert!(messages
        .iter()
        .any(|message| message.contains("missing a non-empty why")));
    assert!(messages
        .iter()
        .any(|message| message.contains("does not identify")));
}

#[test]
fn rejects_duplicate_references() {
    let entries = parse_entries(
        "## 2026-01-01 — same\n**why:** a\n\n\
         ## 2026-01-01 — same\n**why:** b\n",
    );
    let issues = validate_entries(&entries);
    assert!(issues
        .iter()
        .any(|issue| issue.message.contains("duplicate decision reference")));
}

#[test]
fn rejects_branched_supersession() {
    let entries = parse_entries(
        "## 2026-01-01 — original\n**why:** a\n\n\
         ## 2026-01-02 — branch one\n**why:** b\n**supersedes:** 2026-01-01 — original\n\n\
         ## 2026-01-03 — branch two\n**why:** c\n**supersedes:** 2026-01-01 — original\n",
    );
    let issues = validate_entries(&entries);
    assert!(issues
        .iter()
        .any(|issue| issue.message.contains("superseded by 2 different entries")));
}

#[test]
fn issues_are_numbered_and_ordered_by_entry() {
    let entries = parse_entries(
        "## 2026-01-01 — fine\n**why:** a\n\n\
         ## banana\n**why:** b\n\n\
         ## 2026-02-30 — bad day\n**why:** c\n",
    );
    let issues = validate_entries(&entries);
    assert!(!issues.is_empty());
    assert!(issues.iter().all(|issue| issue.entry >= 2));
    assert!(issues.windows(2).all(|pair| pair[0].entry <= pair[1].entry));
    assert_eq!(issues.last().unwrap().entry, 3);
}

#[test]
fn an_empty_log_has_no_issues() {
    assert!(validate_entries(&[]).is_empty());
}
